use vstd::prelude::*;
use crate::datetime::{DateTime, Session};
use crate::layout::SessionViewConstraints;
use vstd::utf8::encode_utf8;
use crate::node::{lines, wrap_spec, wrap_text};

verus! {

/// A row of the session view: a session, its task and the wrapped texts.
pub struct Item {
    pub session: Session,
    pub id: u64,
    pub name: String,
    pub name_splits: Vec<usize>,
    pub session_text: String,
    pub session_splits: Vec<usize>,
}

impl Item {
    /// The rows the item takes: the most lines of its two columns.
    pub open spec fn height_spec(&self) -> int {
        if lines(self.name_splits@) >= lines(self.session_splits@) {
            lines(self.name_splits@)
        } else {
            lines(self.session_splits@)
        }
    }

    pub fn height(&self) -> (r: usize)
        ensures
            r == self.height_spec(),
    {
        let a = self.name_splits.len().saturating_sub(1);
        let b = self.session_splits.len().saturating_sub(1);
        if a >= b {
            a
        } else {
            b
        }
    }
}

/// `a` is earlier than `b`: by date, then by time of day.
pub open spec fn datetime_lt(a: DateTime, b: DateTime) -> bool {
    if a.date.year != b.date.year {
        a.date.year < b.date.year
    } else if a.date.month != b.date.month {
        a.date.month < b.date.month
    } else if a.date.day != b.date.day {
        a.date.day < b.date.day
    } else if a.time.hour != b.time.hour {
        a.time.hour < b.time.hour
    } else {
        a.time.minute < b.time.minute
    }
}

/// `a` comes strictly before `b` in the session view: by the session's
/// start, then its end, then the task's id.
pub open spec fn item_before(a: Item, b: Item) -> bool {
    if a.session.start != b.session.start {
        datetime_lt(a.session.start, b.session.start)
    } else if a.session.end != b.session.end {
        datetime_lt(a.session.end, b.session.end)
    } else {
        a.id < b.id
    }
}

/// The first index before `k` of an item that does not come before `x`,
/// or `k`.
pub open spec fn lower_bound(s: Seq<Item>, x: Item, k: int) -> int
    decreases k,
{
    if k <= 0 {
        0
    } else if lower_bound(s, x, k - 1) < k - 1 {
        lower_bound(s, x, k - 1)
    } else if !item_before(s[k - 1], x) {
        k - 1
    } else {
        k
    }
}

/// The heights of the items of `s`.
pub open spec fn heights_of(s: Seq<Item>) -> Seq<int> {
    s.map_values(|it: Item| it.height_spec())
}

/// The row offsets of the items from `from` on that fit, one after the
/// other from row `h`, in `limit` rows.
pub open spec fn top_offsets(hs: Seq<int>, from: int, h: int, limit: int) -> Seq<int>
    decreases hs.len() - from,
{
    if from < 0 || from >= hs.len() || h + hs[from] > limit {
        Seq::empty()
    } else {
        seq![h] + top_offsets(hs, from + 1, h + hs[from], limit)
    }
}

/// The row offsets of the items that fit above row `h` ending with item
/// `k`, the last of them at the bottom.
pub open spec fn bottom_offsets(hs: Seq<int>, k: int, h: int) -> Seq<int>
    decreases k + 1,
{
    if k < 0 || k >= hs.len() || h < hs[k] {
        Seq::empty()
    } else {
        bottom_offsets(hs, k - 1, h - hs[k]).push(h - hs[k])
    }
}

/// The session view: the items, the cursor, and the window of items shown
/// from `start` on, with the row offset of each.
pub struct SessionView {
    pub items: Vec<Item>,
    pub cursor: usize,
    pub start: usize,
    pub heights: Vec<usize>,
    pub constr: SessionViewConstraints,
}

impl SessionView {
    pub open spec fn wf(&self) -> bool {
        &&& self.start <= self.items@.len()
        &&& self.cursor <= self.items@.len()
        &&& self.start + self.heights@.len() <= self.items@.len()
    }

    pub open spec fn offsets(&self) -> Seq<int> {
        self.heights@.map_values(|h: usize| h as int)
    }

    pub fn new(items: Vec<Item>, constr: SessionViewConstraints) -> (r: SessionView)
        ensures
            r.wf(),
            r.cursor == 0,
            r.start == 0,
            r.items@ == items@,
            r.offsets() == top_offsets(heights_of(items@), 0, 0, constr.session.h as int),
    {
        let mut sv = SessionView { items, cursor: 0, start: 0, heights: Vec::new(), constr };
        sv.anchor_top(0);
        sv
    }

    /// Shows the window of items from `index` on that fits.
    fn anchor_top(&mut self, index: usize)
        requires
            index <= old(self).items@.len(),
        ensures
            final(self).start == index,
            final(self).offsets() == top_offsets(heights_of(old(self).items@), index as int, 0, old(self).constr.session.h as int),
            final(self).start + final(self).heights@.len() <= final(self).items@.len(),
            final(self).items@ == old(self).items@,
            final(self).cursor == old(self).cursor,
            final(self).constr == old(self).constr,
    {
        let ghost hs = heights_of(self.items@);
        let limit = self.constr.session_height() as usize;
        let mut heights: Vec<usize> = Vec::new();
        let mut h: usize = 0;
        let mut k = index;
        let mut stopped = false;
        while k < self.items.len() && !stopped
            invariant
                index <= k <= self.items@.len(),
                stopped ==> top_offsets(hs, k as int, h as int, limit as int) == Seq::<int>::empty(),
                hs == heights_of(self.items@),
                h <= limit,
                limit == self.constr.session.h,
                heights@.len() == k - index,
                top_offsets(hs, index as int, 0, limit as int) == heights@.map_values(|x: usize| x as int) + top_offsets(hs, k as int, h as int, limit as int),
            decreases self.items@.len() - k + if stopped { 0int } else { 1int },
        {
            let ih = self.items[k].height();
            assert(hs[k as int] == ih);
            if h as u128 + ih as u128 > limit as u128 {
                stopped = true;
                continue;
            }
            let ghost before = heights@;
            heights.push(h);
            proof {
                assert(heights@.map_values(|x: usize| x as int) =~= before.map_values(|x: usize| x as int) + seq![h as int]);
                assert(top_offsets(hs, k as int, h as int, limit as int) == seq![h as int] + top_offsets(hs, k + 1, h + ih, limit as int));
            }
            h = h + ih;
            k = k + 1;
        }
        proof {
            if !stopped {
                assert(top_offsets(hs, k as int, h as int, limit as int) == Seq::<int>::empty());
            }
        }
        assert(top_offsets(hs, index as int, 0, limit as int) =~= heights@.map_values(|x: usize| x as int));
        self.heights = heights;
        self.start = index;
    }

    /// Shows the window of items that fits ending with item `index`.
    fn anchor_bottom(&mut self, index: usize)
        requires
            index < old(self).items@.len(),
        ensures
            final(self).offsets() == bottom_offsets(heights_of(old(self).items@), index as int, old(self).constr.session.h as int),
            final(self).start + final(self).heights@.len() == index + 1,
            final(self).items@ == old(self).items@,
            final(self).cursor == old(self).cursor,
            final(self).constr == old(self).constr,
    {
        let ghost hs = heights_of(self.items@);
        let n = self.items.len();
        let mut h = self.constr.session_height() as usize;
        let ghost limit = h as int;
        let mut rev: Vec<usize> = Vec::new();
        let mut k: usize = index + 1;
        let mut stopped = false;
        while k > 0 && !stopped
            invariant
                k <= index + 1,
                index < self.items@.len(),
                hs == heights_of(self.items@),
                rev@.len() == index + 1 - k,
                bottom_offsets(hs, index as int, limit) == bottom_offsets(hs, k - 1, h as int) + rev@.reverse().map_values(|x: usize| x as int),
                stopped ==> bottom_offsets(hs, k - 1, h as int) == Seq::<int>::empty(),
            decreases k + if stopped { 0int } else { 1int },
        {
            let ih = self.items[k - 1].height();
            assert(hs[k - 1] == ih);
            if h < ih {
                stopped = true;
            } else {
                let ghost before = rev@;
                h = h - ih;
                rev.push(h);
                proof {
                    assert(rev@.reverse().map_values(|x: usize| x as int) =~= seq![h as int] + before.reverse().map_values(|x: usize| x as int));
                    assert(bottom_offsets(hs, k - 1, h + ih) == bottom_offsets(hs, k - 2, h as int).push(h as int));
                    assert(bottom_offsets(hs, k - 2, h as int).push(h as int) + before.reverse().map_values(|x: usize| x as int)
                        =~= bottom_offsets(hs, k - 2, h as int) + (seq![h as int] + before.reverse().map_values(|x: usize| x as int)));
                }
                k = k - 1;
            }
        }
        proof {
            if !stopped {
                assert(bottom_offsets(hs, -1, h as int) == Seq::<int>::empty());
            }
            assert(bottom_offsets(hs, index as int, limit) =~= rev@.reverse().map_values(|x: usize| x as int));
        }
        let mut heights: Vec<usize> = Vec::new();
        let mut j: usize = rev.len();
        while j > 0
            invariant
                j <= rev@.len(),
                heights@ == rev@.reverse().subrange(0, (rev@.len() - j) as int),
            decreases j,
        {
            j = j - 1;
            heights.push(rev[j]);
            assert(heights@ =~= rev@.reverse().subrange(0, (rev@.len() - j) as int));
        }
        assert(heights@ =~= rev@.reverse());
        self.start = index + 1 - heights.len();
        self.heights = heights;
    }

    /// Moves the cursor one item up, scrolling when it leaves the window.
    pub fn cursor_up(&mut self)
        requires
            old(self).wf(),
        ensures
            final(self).wf(),
            final(self).items@ == old(self).items@,
            final(self).cursor == if old(self).cursor > 0 {
                (old(self).cursor - 1) as usize
            } else {
                0
            },
            old(self).cursor <= old(self).start ==> final(self).start == final(self).cursor
                && final(self).offsets() == top_offsets(heights_of(old(self).items@), final(self).cursor as int, 0, old(self).constr.session.h as int),
    {
        let n = self.items.len();
        if self.cursor <= self.start {
            if self.cursor > 0 {
                self.cursor = self.cursor - 1;
            }
            let c = self.cursor;
            self.anchor_top(c);
        } else if self.cursor as u128 > self.start as u128 + self.heights.len() as u128 {
            self.cursor = self.cursor - 1;
            let c = self.cursor;
            self.anchor_bottom(c);
        } else {
            self.cursor = self.cursor - 1;
        }
    }

    /// Moves the cursor one item down, scrolling when it leaves the window.
    pub fn cursor_down(&mut self)
        requires
            old(self).wf(),
        ensures
            final(self).wf(),
            final(self).items@ == old(self).items@,
            old(self).items@.len() == 0 ==> final(self).cursor == old(self).cursor,
            old(self).items@.len() > 0 ==> final(self).cursor == if old(self).cursor + 1 < old(self).items@.len() {
                (old(self).cursor + 1) as usize
            } else {
                old(self).cursor
            },
    {
        let n = self.items.len();
        if n == 0 {
            return ;
        }
        if (self.cursor as u128) + 1 < self.start as u128 {
            self.cursor = self.cursor + 1;
            let c = self.cursor;
            self.anchor_top(c);
        } else if (self.cursor as u128) + 1 >= self.start as u128 + self.heights.len() as u128 {
            if self.cursor < n && self.cursor + 1 < n {
                self.cursor = self.cursor + 1;
            }
            if self.cursor < self.items.len() {
                let c = self.cursor;
                self.anchor_bottom(c);
            }
        } else {
            self.cursor = self.cursor + 1;
        }
    }

    /// Shows a new list of items, keeping the cursor and the top of the
    /// window at the first items that do not come before the ones they were
    /// on.
    pub fn reset(&mut self, items: Vec<Item>)
        requires
            old(self).wf(),
        ensures
            final(self).wf(),
            final(self).items@ == items@,
            old(self).items@.len() == 0 ==> final(self).cursor == old(self).cursor && final(self).start == old(self).start,
            old(self).items@.len() > 0 && old(self).cursor < old(self).items@.len() ==> {
                let p = lower_bound(items@, old(self).items@[old(self).cursor as int], items@.len() as int);
                final(self).cursor == if p < items@.len() {
                    p
                } else if items@.len() > 0 {
                    items@.len() - 1
                } else {
                    0
                }
            },
    {
        if self.items.len() == 0 {
            self.items = items;
            let s = if self.start <= self.items.len() {
                self.start
            } else {
                self.items.len()
            };
            if self.cursor > self.items.len() {
                self.cursor = self.items.len();
            }
            self.anchor_top(s);
            return ;
        }
        let n = items.len();
        if self.cursor < self.items.len() {
            let pos = find_position(&items, &self.items[self.cursor]);
            self.cursor = if pos < n {
                pos
            } else {
                n.saturating_sub(1)
            };
        } else {
            self.cursor = n.saturating_sub(1);
        }
        let s = if self.start < self.items.len() {
            let pos = find_position(&items, &self.items[self.start]);
            if pos < n {
                pos
            } else {
                n.saturating_sub(1)
            }
        } else {
            n.saturating_sub(1)
        };
        self.items = items;
        self.anchor_top(s);
    }

    /// Wraps every item again for columns of `tasks_width` and
    /// `session_width`, keeping the top of the window.
    pub fn resize(&mut self, tasks_width: usize, session_width: usize)
        requires
            old(self).wf(),
        ensures
            final(self).wf(),
            final(self).items@.len() == old(self).items@.len(),
            forall|k: int| 0 <= k < final(self).items@.len() ==> {
                let (a, b) = (#[trigger] final(self).items@[k], old(self).items@[k]);
                &&& a.session == b.session
                &&& a.id == b.id
                &&& a.name@ == b.name@
                &&& a.session_text@ == b.session_text@
                &&& a.name_splits@ == wrap_spec(encode_utf8(b.name@), tasks_width as int)
                &&& a.session_splits@ == wrap_spec(encode_utf8(b.session_text@), session_width as int)
            },
            final(self).start == old(self).start,
            final(self).cursor == old(self).cursor,
    {
        let mut old_items: Vec<Item> = Vec::new();
        std::mem::swap(&mut old_items, &mut self.items);
        let ghost o = old_items@;
        let n = old_items.len();
        let mut items: Vec<Item> = Vec::new();
        while old_items.len() > 0
            invariant
                items@.len() + old_items@.len() == n,
                n == o.len(),
                old_items@ == o.subrange(items@.len() as int, n as int),
                forall|k: int| 0 <= k < items@.len() ==> {
                    let (a, b) = (#[trigger] items@[k], o[k]);
                    &&& a.session == b.session
                    &&& a.id == b.id
                    &&& a.name@ == b.name@
                    &&& a.session_text@ == b.session_text@
                    &&& a.name_splits@ == wrap_spec(encode_utf8(b.name@), tasks_width as int)
                    &&& a.session_splits@ == wrap_spec(encode_utf8(b.session_text@), session_width as int)
                },
            decreases old_items@.len(),
        {
            let it = old_items.remove(0);
            let name_splits = wrap_text(it.name.as_str(), tasks_width);
            let session_splits = wrap_text(it.session_text.as_str(), session_width);
            items.push(Item {
                session: it.session,
                id: it.id,
                name: it.name,
                name_splits,
                session_text: it.session_text,
                session_splits,
            });
            assert(old_items@ =~= o.subrange(items@.len() as int, n as int));
        }
        self.items = items;
        let s = self.start;
        self.anchor_top(s);
    }

    /// The task and session under the cursor.
    pub fn session_and_id(&self) -> (r: Option<(u64, Session)>)
        ensures
            self.cursor < self.items@.len() ==> r == Some((self.items@[self.cursor as int].id, self.items@[self.cursor as int].session)),
            self.cursor >= self.items@.len() ==> r is None,
    {
        if self.cursor < self.items.len() {
            Some((self.items[self.cursor].id, self.items[self.cursor].session))
        } else {
            None
        }
    }
}

fn earlier(a: &DateTime, b: &DateTime) -> (r: bool)
    ensures
        r == datetime_lt(*a, *b),
{
    if a.date.year != b.date.year {
        a.date.year < b.date.year
    } else if a.date.month != b.date.month {
        a.date.month < b.date.month
    } else if a.date.day != b.date.day {
        a.date.day < b.date.day
    } else if a.time.hour != b.time.hour {
        a.time.hour < b.time.hour
    } else {
        a.time.minute < b.time.minute
    }
}

/// Whether `a` comes strictly before `b`.
fn before(a: &Item, b: &Item) -> (r: bool)
    ensures
        r == item_before(*a, *b),
{
    if a.session.start != b.session.start {
        earlier(&a.session.start, &b.session.start)
    } else if a.session.end != b.session.end {
        earlier(&a.session.end, &b.session.end)
    } else {
        a.id < b.id
    }
}

/// The first index of `items` whose item does not come before `x`.
fn find_position(items: &Vec<Item>, x: &Item) -> (r: usize)
    ensures
        r == lower_bound(items@, *x, items@.len() as int),
{
    let ghost key = *x;
    let mut k: usize = 0;
    while k < items.len()
        invariant
            key == *x,
            k <= items@.len(),
            lower_bound(items@, key, k as int) == k,
        decreases items@.len() - k,
    {
        if !before(&items[k], x) {
            assert(!item_before(items@[k as int], key));
            assert(lower_bound(items@, key, k as int) == k);
            assert(lower_bound(items@, key, k + 1) == k);
            proof {
                lemma_lower_bound_stops(items@, key, k + 1, items@.len() as int);
            }
            return k;
        }
        k = k + 1;
    }
    k
}

proof fn lemma_lower_bound_stops(s: Seq<Item>, x: Item, k: int, m: int)
    requires
        1 <= k <= m,
        lower_bound(s, x, k) < k,
    ensures
        lower_bound(s, x, m) == lower_bound(s, x, k),
    decreases m - k,
{
    if m > k {
        lemma_lower_bound_stops(s, x, k, m - 1);
    }
}

} // verus!
