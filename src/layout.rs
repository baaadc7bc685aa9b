use vstd::prelude::*;

verus! {

/// A rectangle of terminal cells.
#[derive(Clone, Copy, Default, PartialEq, Eq, Structural)]
pub struct Rect {
    pub x: u16,
    pub y: u16,
    pub w: u16,
    pub h: u16,
}

/// The areas of the tree view: task names, sessions and due dates, side by
/// side between a one-cell border.
#[derive(Default)]
pub struct TreeViewConstraints {
    pub w: u16,
    pub h: u16,
    pub tasks: Rect,
    pub session: Rect,
    pub due_date: Rect,
}

impl TreeViewConstraints {
    pub fn new(w: u16, h: u16) -> (r: Self)
        requires
            h >= 2 ==> w >= 1,
        ensures
            h < 2 ==> r == TreeViewConstraints::default_spec(),
            h >= 2 ==> r.laid_out(w, h),
    {
        let mut constr = TreeViewConstraints {
            w: 0,
            h: 0,
            tasks: Rect { x: 0, y: 0, w: 0, h: 0 },
            session: Rect { x: 0, y: 0, w: 0, h: 0 },
            due_date: Rect { x: 0, y: 0, w: 0, h: 0 },
        };
        constr.update(w, h);
        constr
    }

    pub open spec fn default_spec() -> TreeViewConstraints {
        TreeViewConstraints {
            w: 0,
            h: 0,
            tasks: Rect { x: 0, y: 0, w: 0, h: 0 },
            session: Rect { x: 0, y: 0, w: 0, h: 0 },
            due_date: Rect { x: 0, y: 0, w: 0, h: 0 },
        }
    }

    /// The layout for a terminal of `w` columns and `h >= 2` rows: names take
    /// half of the inner width, sessions a third, due dates what is left.
    pub open spec fn laid_out(&self, w: u16, h: u16) -> bool {
        let tw = ((w - 1) / 2) as int;
        let sw = ((w - 1) / 3) as int;
        &&& self.w == w
        &&& self.h == h
        &&& self.tasks == (Rect { x: 1, y: 1, w: tw as u16, h: (h - 2) as u16 })
        &&& self.session == (Rect { x: (2 + tw) as u16, y: 1, w: sw as u16, h: (h - 2) as u16 })
        &&& self.due_date == (Rect {
            x: (3 + tw + sw) as u16,
            y: 1,
            w: if w >= 4 + tw + sw {
                (w - 4 - tw - sw) as u16
            } else {
                0u16
            },
            h: (h - 2) as u16,
        })
    }

    /// Lays the areas out for a terminal of `w` columns and `h` rows; fewer
    /// than two rows leave the layout as it was.
    pub fn update(&mut self, w: u16, h: u16)
        requires
            h >= 2 ==> w >= 1,
        ensures
            h < 2 ==> *final(self) == *old(self),
            h >= 2 ==> final(self).laid_out(w, h),
    {
        if h < 2 {
            return ;
        }
        self.w = w;
        self.h = h;
        self.tasks = Rect { x: 1, y: 1, w: (w - 1) / 2, h: h - 2 };
        self.session = Rect { x: self.tasks.x + self.tasks.w + 1, y: 1, w: (w - 1) / 3, h: h - 2 };
        self.due_date = Rect {
            x: self.session.x + self.session.w + 1,
            y: 1,
            w: w.saturating_sub(4 + self.tasks.w + self.session.w),
            h: h - 2,
        };
    }

    pub fn height(&self) -> (r: u16)
        ensures
            r == self.h,
    {
        self.h
    }

    pub fn tree_width(&self) -> (r: usize)
        ensures
            r == self.tasks.w,
    {
        self.tasks.w as usize
    }

    pub fn session_width(&self) -> (r: usize)
        ensures
            r == self.session.w,
    {
        self.session.w as usize
    }

    pub fn due_date_width(&self) -> (r: usize)
        ensures
            r == self.due_date.w,
    {
        self.due_date.w as usize
    }

    pub fn tree_height(&self) -> (r: usize)
        ensures
            r == self.tasks.h,
    {
        self.tasks.h as usize
    }
}

/// What the session view lists: every session, or those of one task.
#[derive(Clone, Copy, PartialEq, Eq, Structural)]
pub enum SessionViewMode {
    Normal,
    Task(u64),
}

/// The areas of the session view.
pub struct SessionViewConstraints {
    pub session: Rect,
    pub tasks: Rect,
    pub mode: SessionViewMode,
}

impl SessionViewConstraints {
    pub fn new(w: u16, h: u16) -> (r: Self)
        ensures
            r.mode == SessionViewMode::Normal,
            h >= 2 && w >= 2 ==> r.session == (Rect { x: 1, y: 1, w: (w - 2) as u16 / 2, h: (h - 2) as u16 }),
            !(h >= 2 && w >= 2) ==> r.session == (Rect { x: 0, y: 0, w: 0, h: 0 }),
    {
        let mut constr = SessionViewConstraints {
            session: Rect { x: 0, y: 0, w: 0, h: 0 },
            tasks: Rect { x: 0, y: 0, w: 0, h: 0 },
            mode: SessionViewMode::Normal,
        };
        constr.update(w, h);
        constr
    }

    /// Lays the areas out for a terminal of `w` columns and `h` rows: in the
    /// view of all sessions, sessions take half of the inner width and tasks
    /// the rest; in the view of one task's sessions, sessions take it all.
    /// A terminal too small for the mode leaves the layout as it was.
    pub fn update(&mut self, w: u16, h: u16)
        ensures
            final(self).mode == old(self).mode,
            old(self).mode == SessionViewMode::Normal && h >= 2 && w >= 2 ==> {
                let sw = ((w - 2) / 2) as int;
                &&& final(self).session == (Rect { x: 1, y: 1, w: sw as u16, h: (h - 2) as u16 })
                &&& final(self).tasks == (Rect {
                    x: (2 + sw) as u16,
                    y: 1,
                    w: (w - 2 - sw) as u16,
                    h: (h - 2) as u16,
                })
            },
            old(self).mode is Task && h >= 2 && w >= 1 ==> {
                &&& final(self).session == (Rect { x: 1, y: 1, w: (w - 1) as u16, h: (h - 2) as u16 })
                &&& final(self).tasks == (Rect { x: 0, y: 0, w: 0, h: 0 })
            },
            !((old(self).mode == SessionViewMode::Normal && h >= 2 && w >= 2) || (old(self).mode is Task
                && h >= 2 && w >= 1)) ==> *final(self) == *old(self),
    {
        match self.mode {
            SessionViewMode::Normal => {
                if h >= 2 && w >= 2 {
                    self.session = Rect { x: 1, y: 1, w: (w - 2) / 2, h: h - 2 };
                    self.tasks = Rect {
                        x: self.session.x + self.session.w + 1,
                        y: 1,
                        w: w - 2 - self.session.w,
                        h: h - 2,
                    };
                }
            },
            SessionViewMode::Task(_) => {
                if h >= 2 && w >= 1 {
                    self.session = Rect { x: 1, y: 1, w: w - 1, h: h - 2 };
                    self.tasks = Rect { x: 0, y: 0, w: 0, h: 0 };
                }
            },
        }
    }

    pub fn session_height(&self) -> (r: u16)
        ensures
            r == self.session.h,
    {
        self.session.h
    }

    pub fn tasks_width(&self) -> (r: usize)
        ensures
            r == self.tasks.w,
    {
        self.tasks.w as usize
    }

    pub fn session_width(&self) -> (r: usize)
        ensures
            r == self.session.w,
    {
        self.session.w as usize
    }
}

/// The area of the status line: the last row of the terminal.
#[derive(Default)]
pub struct StatusViewConstraints {
    pub status: Rect,
}

impl StatusViewConstraints {
    pub fn new(w: u16, h: u16) -> (r: Self)
        requires
            h >= 1,
        ensures
            r.status == (Rect { x: 0, y: (h - 1) as u16, w, h: 1 }),
    {
        StatusViewConstraints { status: Rect { x: 0, y: h - 1, w, h: 1 } }
    }

    pub fn update(&mut self, w: u16, h: u16)
        requires
            h >= 1,
        ensures
            final(self).status == (Rect { x: 0, y: (h - 1) as u16, w, h: 1 }),
    {
        self.status = Rect { x: 0, y: h - 1, w, h: 1 };
    }
}

} // verus!
