use vstd::prelude::*;
use vstd::string::StrSliceExecFns;
use crate::layout::StatusViewConstraints;

verus! {

/// Relies on String::push: appends one character.
pub assume_specification[ String::push ](s: &mut String, ch: char)
    ensures
        final(s)@ == old(s)@.push(ch),
;

/// What the status line is doing: nothing, or reading a command.
#[derive(Clone, Copy, PartialEq, Eq, Structural)]
pub enum Mode {
    Normal,
    Command(CommandType),
}

/// The commands that read a line of input.
#[derive(Clone, Copy, PartialEq, Eq, Structural)]
pub enum CommandType {
    AddChild,
    Rename,
    SetDueDate,
    AddSession,
}

impl CommandType {
    /// The prompt shown before the input.
    pub fn title(&self) -> (r: &'static str)
        ensures
            r@.len() == self.title_len(),
    {
        proof {
            reveal_strlit("add: ");
            reveal_strlit("rename: ");
            reveal_strlit("due date: ");
            reveal_strlit("add session: ");
        }
        match self {
            CommandType::AddChild => "add: ",
            CommandType::Rename => "rename: ",
            CommandType::SetDueDate => "due date: ",
            CommandType::AddSession => "add session: ",
        }
    }

    pub open spec fn title_len(&self) -> nat {
        match self {
            CommandType::AddChild => 5,
            CommandType::Rename => 8,
            CommandType::SetDueDate => 10,
            CommandType::AddSession => 13,
        }
    }
}

/// The label of view `v` at the right of the status line: the tree view for
/// 0, the session view otherwise.
pub fn view_text(v: usize) -> (r: &'static str)
    ensures
        r@.len() == view_text_len(v),
{
    proof {
        reveal_strlit(" TREE VIEW ");
        reveal_strlit(" SESSION VIEW ");
    }
    if v == 0 {
        " TREE VIEW "
    } else {
        " SESSION VIEW "
    }
}

pub open spec fn view_text_len(v: usize) -> nat {
    if v == 0 {
        11
    } else {
        14
    }
}

/// The line being edited: the characters before the cursor, and those after
/// it in reverse order.
pub struct Input {
    pub front: Vec<char>,
    pub back: Vec<char>,
}

/// The status line of view `V`: a command prompt with a line editor that
/// scrolls horizontally so that the cursor stays visible.
pub struct StatusView<const V: usize> {
    pub input: Input,
    /// The index of the first character of `front` that is shown.
    pub start: usize,
    pub mode: Mode,
    pub constr: StatusViewConstraints,
}

impl<const V: usize> StatusView<V> {
    /// The number of columns left for the input after the prompt and the
    /// view label (none when they do not fit, or outside a command).
    pub open spec fn cmd_width_spec(&self) -> int {
        match self.mode {
            Mode::Command(t) => {
                let r = self.constr.status.w - t.title_len() - view_text_len(V);
                if r > 0 {
                    r
                } else {
                    0
                }
            },
            Mode::Normal => 0,
        }
    }

    /// The text of the whole line.
    pub open spec fn text(&self) -> Seq<char> {
        self.input.front@ + self.input.back@.reverse()
    }

    /// The new scroll offset after the cursor moved right to column `len`
    /// with `width` columns to show it in.
    pub open spec fn scroll_right(len: int, start: int, width: int) -> int {
        if len - start >= width {
            len - width + 1
        } else {
            start
        }
    }

    /// The new scroll offset after the cursor moved left to column `len`.
    pub open spec fn scroll_left(len: int, start: int, half: int) -> int {
        if len < start + half {
            if len > half {
                len - half
            } else {
                0
            }
        } else {
            start
        }
    }

    pub fn new(constr: StatusViewConstraints) -> (r: Self)
        ensures
            r.input.front@.len() == 0,
            r.input.back@.len() == 0,
            r.start == 0,
            r.mode == Mode::Normal,
            r.constr == constr,
    {
        StatusView {
            input: Input { front: Vec::new(), back: Vec::new() },
            start: 0,
            mode: Mode::Normal,
            constr,
        }
    }

    /// Replaces the line by `input`, with the cursor at its end.
    pub fn set_input(&mut self, input: &str)
        ensures
            final(self).input.front@ == input@,
            final(self).input.back@.len() == 0,
            final(self).start == old(self).start,
            final(self).mode == old(self).mode,
            final(self).constr == old(self).constr,
    {
        let n = input.unicode_len();
        let mut front: Vec<char> = Vec::new();
        let mut i: usize = 0;
        while i < n
            invariant
                n == input@.len(),
                i <= n,
                front@ == input@.subrange(0, i as int),
            decreases n - i,
        {
            front.push(input.get_char(i));
            i = i + 1;
        }
        assert(front@ =~= input@);
        self.input.front = front;
        self.input.back = Vec::new();
    }

    /// Inserts `c` before the cursor.
    pub fn insert(&mut self, c: char)
        requires
            old(self).input.front@.len() + 1 < usize::MAX,
        ensures
            final(self).input.front@ == old(self).input.front@.push(c),
            final(self).input.back@ == old(self).input.back@,
            final(self).start == Self::scroll_right(
                final(self).input.front@.len() as int,
                old(self).start as int,
                old(self).cmd_width_spec(),
            ),
            final(self).mode == old(self).mode,
            final(self).constr == old(self).constr,
    {
        self.input.front.push(c);
        let len = self.input.front.len();
        let width = self.cmd_width();
        if len as u128 >= self.start as u128 + width as u128 {
            self.start = len - width + 1;
        }
    }

    /// Deletes the character before the cursor, if any.
    pub fn delete(&mut self)
        ensures
            final(self).input.front@ == if old(self).input.front@.len() > 0 {
                old(self).input.front@.drop_last()
            } else {
                old(self).input.front@
            },
            final(self).input.back@ == old(self).input.back@,
            final(self).start == Self::scroll_left(
                final(self).input.front@.len() as int,
                old(self).start as int,
                old(self).cmd_width_spec() / 2,
            ),
            final(self).mode == old(self).mode,
            final(self).constr == old(self).constr,
    {
        self.input.front.pop();
        self.scroll_to_cursor_left();
    }

    fn scroll_to_cursor_left(&mut self)
        ensures
            final(self).start == Self::scroll_left(
                old(self).input.front@.len() as int,
                old(self).start as int,
                old(self).cmd_width_spec() / 2,
            ),
            final(self).input.front@ == old(self).input.front@,
            final(self).input.back@ == old(self).input.back@,
            final(self).mode == old(self).mode,
            final(self).constr == old(self).constr,
    {
        let len = self.input.front.len();
        let half = self.cmd_width() / 2;
        if (len as u128) < self.start as u128 + half as u128 {
            self.start = len.saturating_sub(half);
        }
    }

    /// Moves the cursor one character to the left, if it can.
    pub fn move_left(&mut self)
        ensures
            old(self).input.front@.len() > 0 ==> {
                &&& final(self).input.front@ == old(self).input.front@.drop_last()
                &&& final(self).input.back@ == old(self).input.back@.push(old(self).input.front@.last())
                &&& final(self).start == Self::scroll_left(
                    final(self).input.front@.len() as int,
                    old(self).start as int,
                    old(self).cmd_width_spec() / 2,
                )
            },
            old(self).input.front@.len() == 0 ==> final(self).input.front@ == old(self).input.front@
                && final(self).input.back@ == old(self).input.back@ && final(self).start == old(self).start,
            final(self).mode == old(self).mode,
            final(self).constr == old(self).constr,
    {
        if let Some(c) = self.input.front.pop() {
            self.input.back.push(c);
            self.scroll_to_cursor_left();
        }
    }

    /// Moves the cursor one character to the right, if it can.
    pub fn move_right(&mut self)
        requires
            old(self).input.front@.len() + 1 < usize::MAX,
        ensures
            old(self).input.back@.len() > 0 ==> {
                &&& final(self).input.back@ == old(self).input.back@.drop_last()
                &&& final(self).input.front@ == old(self).input.front@.push(old(self).input.back@.last())
                &&& final(self).start == Self::scroll_right(
                    final(self).input.front@.len() as int,
                    old(self).start as int,
                    old(self).cmd_width_spec() / 2,
                )
            },
            old(self).input.back@.len() == 0 ==> final(self).input.front@ == old(self).input.front@
                && final(self).input.back@ == old(self).input.back@ && final(self).start == old(self).start,
            final(self).mode == old(self).mode,
            final(self).constr == old(self).constr,
    {
        if let Some(c) = self.input.back.pop() {
            self.input.front.push(c);
            let len = self.input.front.len();
            let half = self.cmd_width() / 2;
            if len as u128 >= self.start as u128 + half as u128 {
                self.start = len - half + 1;
            }
        }
    }

    /// Empties the line.
    pub fn clear(&mut self)
        ensures
            final(self).input.front@.len() == 0,
            final(self).input.back@.len() == 0,
            final(self).start == 0,
            final(self).mode == old(self).mode,
            final(self).constr == old(self).constr,
    {
        self.start = 0;
        self.input.front = Vec::new();
        self.input.back = Vec::new();
    }

    /// The whole line.
    pub fn input(&self) -> (r: String)
        ensures
            r@ == self.text(),
    {
        let mut r = String::new();
        let mut i: usize = 0;
        while i < self.input.front.len()
            invariant
                i <= self.input.front@.len(),
                r@ == self.input.front@.subrange(0, i as int),
            decreases self.input.front@.len() - i,
        {
            r.push(self.input.front[i]);
            i = i + 1;
        }
        let mut k: usize = self.input.back.len();
        while k > 0
            invariant
                k <= self.input.back@.len(),
                r@ == self.input.front@ + self.input.back@.subrange(k as int, self.input.back@.len() as int).reverse(),
            decreases k,
        {
            k = k - 1;
            r.push(self.input.back[k]);
            assert(self.input.back@.subrange(k as int, self.input.back@.len() as int).reverse() =~=
                self.input.back@.subrange(k + 1, self.input.back@.len() as int).reverse().push(self.input.back@[k as int]));
        }
        assert(self.input.back@.subrange(0, self.input.back@.len() as int) =~= self.input.back@);
        r
    }

    /// The number of columns left for the input.
    pub fn cmd_width(&self) -> (r: usize)
        ensures
            r == self.cmd_width_spec(),
    {
        match self.mode {
            Mode::Command(t) => {
                let used = t.title().unicode_len() + view_text(V).unicode_len();
                (self.constr.status.w as usize).saturating_sub(used)
            },
            Mode::Normal => 0,
        }
    }
}

} // verus!
