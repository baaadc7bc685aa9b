use vstd::prelude::*;
use crate::node::Node;

verus! {

/// The tree view's state: the flat tree shown, the cursor in it, the
/// selected (id, parent) pairs in the order they were picked, and the
/// roots left behind by moving into a node.
pub struct TreeView {
    pub flattree: Vec<Node>,
    pub cursor: usize,
    pub selections: Vec<(u64, u64)>,
    pub root_id: u64,
    pub stack: Vec<u64>,
}

/// The first index before `k` of a node that is `id` under `pid`.
pub open spec fn first_same(s: Seq<Node>, id: u64, pid: u64, k: int) -> Option<int>
    decreases k,
{
    if k <= 0 {
        None
    } else {
        match first_same(s, id, pid, k - 1) {
            Some(i) => Some(i),
            None => if s[k - 1].id == id && s[k - 1].pid == pid {
                Some(k - 1)
            } else {
                None
            },
        }
    }
}

/// A sibling under `pid` that now holds the priority `det` the cursor's
/// node had.
pub open spec fn is_next(n: Node, pid: u64, det: u64) -> bool {
    n.pid == pid && n.priority.det == det
}

/// A sibling under `pid` just above that priority.
pub open spec fn is_prev(n: Node, pid: u64, det: u64) -> bool {
    n.pid == pid && n.priority.det + 1 == det
}

/// The last index before `k` whose node satisfies `is_next`.
pub open spec fn last_next(s: Seq<Node>, pid: u64, det: u64, k: int) -> Option<int>
    decreases k,
{
    if k <= 0 {
        None
    } else if is_next(s[k - 1], pid, det) {
        Some(k - 1)
    } else {
        last_next(s, pid, det, k - 1)
    }
}

/// The last index before `k` whose node satisfies `is_prev` but not
/// `is_next`.
pub open spec fn last_prev(s: Seq<Node>, pid: u64, det: u64, k: int) -> Option<int>
    decreases k,
{
    if k <= 0 {
        None
    } else if !is_next(s[k - 1], pid, det) && is_prev(s[k - 1], pid, det) {
        Some(k - 1)
    } else {
        last_prev(s, pid, det, k - 1)
    }
}

/// The first index before `k` of the parent `pid` itself, among nodes that
/// are neither of the siblings above.
pub open spec fn first_parent(s: Seq<Node>, pid: u64, det: u64, k: int) -> Option<int>
    decreases k,
{
    if k <= 0 {
        None
    } else {
        match first_parent(s, pid, det, k - 1) {
            Some(i) => Some(i),
            None => if !is_next(s[k - 1], pid, det) && !is_prev(s[k - 1], pid, det) && s[k - 1].id == pid {
                Some(k - 1)
            } else {
                None
            },
        }
    }
}

/// Where the cursor lands in a new flat tree `s` when it was on `id` under
/// `pid` at priority `det`: on the same node, else on the sibling that took
/// its place, else on the one above, else on the parent, else at the top.
/// Siblings and parent are looked for before the same node only.
pub open spec fn retained_cursor(s: Seq<Node>, id: u64, pid: u64, det: u64) -> int {
    let lim = match first_same(s, id, pid, s.len() as int) {
        Some(i) => i,
        None => s.len() as int,
    };
    match first_same(s, id, pid, s.len() as int) {
        Some(i) => i,
        None => match last_next(s, pid, det, lim) {
            Some(i) => i,
            None => match last_prev(s, pid, det, lim) {
                Some(i) => i,
                None => match first_parent(s, pid, det, lim) {
                    Some(i) => i,
                    None => 0,
                },
            },
        },
    }
}

proof fn lemma_first_same_stops(s: Seq<Node>, id: u64, pid: u64, k: int, m: int)
    requires
        0 <= k <= m,
        first_same(s, id, pid, k) is Some,
    ensures
        first_same(s, id, pid, m) == first_same(s, id, pid, k),
    decreases m - k,
{
    if m > k {
        lemma_first_same_stops(s, id, pid, k, m - 1);
    }
}

proof fn lemma_first_parent_stops(s: Seq<Node>, pid: u64, det: u64, k: int, m: int)
    requires
        0 <= k <= m,
        first_parent(s, pid, det, k) is Some,
    ensures
        first_parent(s, pid, det, m) == first_parent(s, pid, det, k),
    decreases m - k,
{
    if m > k {
        lemma_first_parent_stops(s, pid, det, k, m - 1);
    }
}

impl TreeView {
    /// The cursor is on a node, or at 0 in an empty tree, and no pair is
    /// selected twice.
    pub open spec fn wf(&self) -> bool {
        &&& (self.cursor < self.flattree@.len() || self.cursor == 0)
        &&& self.selections@.no_duplicates()
    }

    pub fn new(flattree: Vec<Node>) -> (r: TreeView)
        ensures
            r.wf(),
            r.cursor == 0,
            r.selections@.len() == 0,
            r.root_id == 0,
            r.stack@.len() == 0,
            r.flattree@ == flattree@,
    {
        TreeView { flattree, cursor: 0, selections: Vec::new(), root_id: 0, stack: Vec::new() }
    }

    /// Shows a new flat tree, keeping the cursor on the same node or as
    /// close to it as the new tree allows.
    pub fn reset(&mut self, flattree: Vec<Node>)
        requires
            old(self).wf(),
        ensures
            final(self).wf(),
            final(self).flattree@ == flattree@,
            old(self).flattree@.len() == 0 ==> final(self).cursor == 0,
            old(self).flattree@.len() > 0 ==> {
                let n = old(self).flattree@[old(self).cursor as int];
                final(self).cursor == retained_cursor(flattree@, n.id, n.pid, n.priority.det)
            },
            final(self).selections@ == old(self).selections@,
            final(self).root_id == old(self).root_id,
            final(self).stack@ == old(self).stack@,
    {
        if self.flattree.len() == 0 {
            self.cursor = 0;
            self.flattree = flattree;
            return ;
        }
        let id = self.flattree[self.cursor].id;
        let pid = self.flattree[self.cursor].pid;
        let det = self.flattree[self.cursor].priority.det;
        let ghost s = flattree@;
        let mut same: Option<usize> = None;
        let mut next: Option<usize> = None;
        let mut prev: Option<usize> = None;
        let mut parent: Option<usize> = None;
        let mut i: usize = 0;
        while i < flattree.len() && same.is_none()
            invariant
                s == flattree@,
                i <= s.len(),
                same is None ==> first_same(s, id, pid, i as int) is None,
                same matches Some(j) ==> j + 1 == i && first_same(s, id, pid, i as int) == Some(j as int),
                next matches Some(x) ==> x < i,
                prev matches Some(x) ==> x < i,
                parent matches Some(x) ==> x < i,
                ({
                    let lim: int = if same is Some { i - 1 } else { i as int };
                    &&& next matches Some(x) ==> last_next(s, pid, det, lim) == Some(x as int)
                    &&& next is None ==> last_next(s, pid, det, lim) is None
                    &&& prev matches Some(x) ==> last_prev(s, pid, det, lim) == Some(x as int)
                    &&& prev is None ==> last_prev(s, pid, det, lim) is None
                    &&& parent matches Some(x) ==> first_parent(s, pid, det, lim) == Some(x as int)
                    &&& parent is None ==> first_parent(s, pid, det, lim) is None
                }),
            decreases s.len() - i,
        {
            let node = &flattree[i];
            if node.id == id && node.pid == pid {
                same = Some(i);
            } else if node.pid == pid && node.priority.det == det {
                next = Some(i);
            } else if node.pid == pid && node.priority.det as u128 + 1 == det as u128 {
                prev = Some(i);
            } else if parent.is_none() && node.id == pid {
                parent = Some(i);
            }
            proof {
                if parent is Some && !(node.id == id && node.pid == pid) {
                    let ghost pi = i as int;
                    if first_parent(s, pid, det, pi) is Some {
                        lemma_first_parent_stops(s, pid, det, pi, pi + 1);
                    }
                }
            }
            i = i + 1;
        }
        proof {
            if same matches Some(j) {
                lemma_first_same_stops(s, id, pid, i as int, s.len() as int);
            }
        }
        self.cursor = match same {
            Some(j) => j,
            None => match next {
                Some(j) => j,
                None => match prev {
                    Some(j) => j,
                    None => match parent {
                        Some(j) => j,
                        None => 0,
                    },
                },
            },
        };
        self.flattree = flattree;
    }

    /// Selects the pair under the cursor, or deselects it when it was.
    pub fn toggle(&mut self)
        requires
            old(self).wf(),
        ensures
            final(self).wf(),
            final(self).flattree@ == old(self).flattree@,
            final(self).cursor == old(self).cursor,
            old(self).flattree@.len() == 0 ==> final(self).selections@ == old(self).selections@,
            old(self).flattree@.len() > 0 ==> {
                let n = old(self).flattree@[old(self).cursor as int];
                let x = (n.id, n.pid);
                final(self).selections@.to_set() == if old(self).selections@.contains(x) {
                    old(self).selections@.to_set().remove(x)
                } else {
                    old(self).selections@.to_set().insert(x)
                }
            },
            final(self).root_id == old(self).root_id,
            final(self).stack@ == old(self).stack@,
    {
        if self.flattree.len() == 0 {
            return ;
        }
        let x = (self.flattree[self.cursor].id, self.flattree[self.cursor].pid);
        match self.find(x) {
            Some(k) => {
                let ghost before = self.selections@;
                self.selections.remove(k);
                proof {
                    assert(self.selections@ == before.remove(k as int));
                    lemma_remove_unique(before, k as int);
                }
            },
            None => {
                let ghost before = self.selections@;
                self.selections.push(x);
                proof {
                    assert(self.selections@.to_set() =~= before.to_set().insert(x)) by {
                        assert forall|y| self.selections@.contains(y) <==> before.contains(y) || y == x by {
                            if self.selections@.contains(y) && y != x {
                                let j = choose|j: int| 0 <= j < self.selections@.len() && self.selections@[j] == y;
                                assert(before[j] == y);
                            }
                            if before.contains(y) {
                                let j = choose|j: int| 0 <= j < before.len() && before[j] == y;
                                assert(self.selections@[j] == y);
                            }
                            if y == x {
                                assert(self.selections@[before.len() as int] == x);
                            }
                        }
                    }
                    assert forall|a: int, b: int| 0 <= a < b < self.selections@.len() implies self.selections@[a] != self.selections@[b] by {
                        if b == before.len() {
                            assert(!before.contains(x));
                            assert(before[a] == self.selections@[a]);
                        }
                    }
                }
            },
        }
    }

    /// Deselects the pair under the cursor.
    pub fn deselect(&mut self)
        requires
            old(self).wf(),
        ensures
            final(self).wf(),
            final(self).flattree@ == old(self).flattree@,
            final(self).cursor == old(self).cursor,
            old(self).flattree@.len() == 0 ==> final(self).selections@ == old(self).selections@,
            old(self).flattree@.len() > 0 ==> {
                let n = old(self).flattree@[old(self).cursor as int];
                final(self).selections@.to_set() == old(self).selections@.to_set().remove((n.id, n.pid))
            },
            final(self).root_id == old(self).root_id,
            final(self).stack@ == old(self).stack@,
    {
        if self.flattree.len() == 0 {
            return ;
        }
        let x = (self.flattree[self.cursor].id, self.flattree[self.cursor].pid);
        match self.find(x) {
            Some(k) => {
                let ghost before = self.selections@;
                self.selections.remove(k);
                proof {
                    assert(self.selections@ == before.remove(k as int));
                    lemma_remove_unique(before, k as int);
                }
            },
            None => {
                assert(self.selections@.to_set() =~= self.selections@.to_set().remove(x));
            },
        }
    }

    /// The index of `x` among the selections.
    fn find(&self, x: (u64, u64)) -> (r: Option<usize>)
        ensures
            r matches Some(k) ==> k < self.selections@.len() && self.selections@[k as int] == x,
            r is None ==> !self.selections@.contains(x),
    {
        let mut k: usize = 0;
        while k < self.selections.len()
            invariant
                k <= self.selections@.len(),
                forall|j: int| 0 <= j < k ==> self.selections@[j] != x,
            decreases self.selections@.len() - k,
        {
            if self.selections[k].0 == x.0 && self.selections[k].1 == x.1 {
                return Some(k);
            }
            k = k + 1;
        }
        None
    }

    pub fn clear_selections(&mut self)
        ensures
            final(self).selections@.len() == 0,
            final(self).flattree@ == old(self).flattree@,
            final(self).cursor == old(self).cursor,
            final(self).root_id == old(self).root_id,
            final(self).stack@ == old(self).stack@,
    {
        self.selections = Vec::new();
    }

    pub fn cursor_up(&mut self)
        ensures
            final(self).cursor == if old(self).cursor > 0 {
                (old(self).cursor - 1) as usize
            } else {
                0
            },
            final(self).flattree@ == old(self).flattree@,
            final(self).selections@ == old(self).selections@,
            final(self).root_id == old(self).root_id,
            final(self).stack@ == old(self).stack@,
    {
        if self.cursor > 0 {
            self.cursor = self.cursor - 1;
        }
    }

    pub fn cursor_down(&mut self)
        ensures
            final(self).cursor == if old(self).cursor + 1 < old(self).flattree@.len() {
                (old(self).cursor + 1) as usize
            } else {
                old(self).cursor
            },
            final(self).flattree@ == old(self).flattree@,
            final(self).selections@ == old(self).selections@,
            final(self).root_id == old(self).root_id,
            final(self).stack@ == old(self).stack@,
    {
        if self.cursor < self.flattree.len() && self.cursor + 1 < self.flattree.len() {
            self.cursor = self.cursor + 1;
        }
    }

    /// Makes the node under the cursor the root, remembering the old root;
    /// nothing at the root itself.
    pub fn move_into(&mut self)
        requires
            old(self).wf(),
        ensures
            old(self).flattree@.len() > 0 && old(self).cursor != 0 ==> {
                &&& final(self).root_id == old(self).flattree@[old(self).cursor as int].id
                &&& final(self).stack@ == old(self).stack@.push(old(self).root_id)
            },
            !(old(self).flattree@.len() > 0 && old(self).cursor != 0) ==> final(self).root_id == old(self).root_id
                && final(self).stack@ == old(self).stack@,
            final(self).flattree@ == old(self).flattree@,
            final(self).cursor == old(self).cursor,
            final(self).selections@ == old(self).selections@,
    {
        if self.flattree.len() == 0 || self.cursor == 0 {
            return ;
        }
        let id = self.flattree[self.cursor].id;
        self.stack.push(self.root_id);
        self.root_id = id;
    }

    /// Goes back to the root before the last move into a node.
    pub fn move_out(&mut self)
        ensures
            old(self).stack@.len() > 0 ==> final(self).root_id == old(self).stack@.last()
                && final(self).stack@ == old(self).stack@.drop_last(),
            old(self).stack@.len() == 0 ==> final(self).root_id == old(self).root_id
                && final(self).stack@ == old(self).stack@,
            final(self).flattree@ == old(self).flattree@,
            final(self).cursor == old(self).cursor,
            final(self).selections@ == old(self).selections@,
    {
        if let Some(id) = self.stack.pop() {
            self.root_id = id;
        }
    }

    pub fn root_id(&self) -> (r: u64)
        ensures
            r == self.root_id,
    {
        self.root_id
    }

    /// The node under the cursor, if the tree is not empty.
    pub fn cursor_node(&self) -> (r: Option<&Node>)
        requires
            self.wf(),
        ensures
            self.flattree@.len() == 0 <==> r is None,
            r matches Some(n) ==> *n == self.flattree@[self.cursor as int],
    {
        if self.flattree.len() > 0 {
            Some(&self.flattree[self.cursor])
        } else {
            None
        }
    }

    /// The selected (parent, id) pairs, or the cursor's pair when nothing is
    /// selected.
    pub fn selections(&self) -> (r: Vec<(u64, u64)>)
        requires
            self.wf(),
        ensures
            self.selections@.len() > 0 ==> r@ == self.selections@.map_values(|x: (u64, u64)| (x.1, x.0)),
            self.selections@.len() == 0 && self.flattree@.len() > 0 ==> r@ == seq![(
                self.flattree@[self.cursor as int].pid,
                self.flattree@[self.cursor as int].id,
            )],
            self.selections@.len() == 0 && self.flattree@.len() == 0 ==> r@.len() == 0,
    {
        let mut r: Vec<(u64, u64)> = Vec::new();
        if self.selections.len() > 0 {
            let mut k: usize = 0;
            while k < self.selections.len()
                invariant
                    k <= self.selections@.len(),
                    r@ == self.selections@.subrange(0, k as int).map_values(|x: (u64, u64)| (x.1, x.0)),
                decreases self.selections@.len() - k,
            {
                r.push((self.selections[k].1, self.selections[k].0));
                k = k + 1;
                assert(r@ =~= self.selections@.subrange(0, k as int).map_values(|x: (u64, u64)| (x.1, x.0)));
            }
            assert(self.selections@.subrange(0, k as int) =~= self.selections@);
        } else if self.flattree.len() > 0 {
            r.push((self.flattree[self.cursor].pid, self.flattree[self.cursor].id));
            assert(r@ =~= seq![(self.flattree@[self.cursor as int].pid, self.flattree@[self.cursor as int].id)]);
        }
        r
    }

    /// The selected ids, each once, or the cursor's id when nothing is
    /// selected.
    pub fn selection_ids(&self) -> (r: Vec<u64>)
        requires
            self.wf(),
        ensures
            r@.no_duplicates(),
            self.selections@.len() > 0 ==> forall|id: u64| r@.contains(id) <==> exists|p: u64| self.selections@.contains((id, p)),
            self.selections@.len() == 0 && self.flattree@.len() > 0 ==> r@ == seq![self.flattree@[self.cursor as int].id],
            self.selections@.len() == 0 && self.flattree@.len() == 0 ==> r@.len() == 0,
    {
        let mut r: Vec<u64> = Vec::new();
        if self.selections.len() > 0 {
            let mut k: usize = 0;
            while k < self.selections.len()
                invariant
                    k <= self.selections@.len(),
                    r@.no_duplicates(),
                    forall|id: u64| r@.contains(id) <==> exists|j: int| 0 <= j < k && #[trigger] self.selections@[j].0 == id,
                decreases self.selections@.len() - k,
            {
                let id = self.selections[k].0;
                let mut seen = false;
                let mut m: usize = 0;
                while m < r.len()
                    invariant
                        m <= r@.len(),
                        seen <==> exists|j: int| 0 <= j < m && r@[j] == id,
                    decreases r@.len() - m,
                {
                    if r[m] == id {
                        seen = true;
                    }
                    m = m + 1;
                }
                let ghost before = r@;
                if !seen {
                    r.push(id);
                    proof {
                        assert forall|a: int, b: int| 0 <= a < b < r@.len() implies r@[a] != r@[b] by {
                            if b == before.len() {
                                assert(r@[a] == before[a]);
                            }
                        }
                    }
                }
                proof {
                    assert forall|x: u64| r@.contains(x) <==> exists|j: int| 0 <= j < k + 1 && #[trigger] self.selections@[j].0 == x by {
                        if r@.contains(x) {
                            let a = choose|a: int| 0 <= a < r@.len() && r@[a] == x;
                            if a < before.len() {
                                assert(before.contains(x));
                            } else {
                                assert(self.selections@[k as int].0 == x);
                            }
                        }
                        if exists|j: int| 0 <= j < k + 1 && #[trigger] self.selections@[j].0 == x {
                            let j = choose|j: int| 0 <= j < k + 1 && #[trigger] self.selections@[j].0 == x;
                            if j < k {
                                assert(before.contains(x));
                                let a = choose|a: int| 0 <= a < before.len() && before[a] == x;
                                assert(r@[a] == x);
                            } else if seen {
                                let a = choose|a: int| 0 <= a < before.len() && before[a] == id;
                                assert(r@[a] == x);
                            } else {
                                assert(r@[before.len() as int] == x);
                            }
                        }
                    }
                }
                k = k + 1;
            }
            proof {
                assert forall|id: u64| r@.contains(id) <==> exists|p: u64| self.selections@.contains((id, p)) by {
                    if r@.contains(id) {
                        let j = choose|j: int| 0 <= j < k && #[trigger] self.selections@[j].0 == id;
                        assert(self.selections@.contains((id, self.selections@[j].1)));
                    }
                    if exists|p: u64| self.selections@.contains((id, p)) {
                        let p = choose|p: u64| self.selections@.contains((id, p));
                        let j = choose|j: int| 0 <= j < self.selections@.len() && self.selections@[j] == (id, p);
                        assert(self.selections@[j].0 == id);
                    }
                }
            }
        } else if self.flattree.len() > 0 {
            r.push(self.flattree[self.cursor].id);
            assert(r@ =~= seq![self.flattree@[self.cursor as int].id]);
        }
        r
    }

    /// Whether `id` under `pid` is selected.
    pub fn is_selected(&self, pid: u64, id: u64) -> (r: bool)
        ensures
            r == self.selections@.contains((id, pid)),
    {
        self.find((id, pid)).is_some()
    }

    pub fn is_cursor_at_root(&self) -> (r: bool)
        ensures
            r == (self.cursor == 0),
    {
        self.cursor == 0
    }
}

proof fn lemma_remove_unique(s: Seq<(u64, u64)>, k: int)
    requires
        s.no_duplicates(),
        0 <= k < s.len(),
    ensures
        s.remove(k).no_duplicates(),
        s.remove(k).to_set() == s.to_set().remove(s[k]),
{
    let t = s.remove(k);
    assert forall|a: int, b: int| 0 <= a < b < t.len() implies t[a] != t[b] by {
        let a2 = if a < k { a } else { a + 1 };
        let b2 = if b < k { b } else { b + 1 };
        assert(t[a] == s[a2]);
        assert(t[b] == s[b2]);
    }
    assert forall|y| t.contains(y) <==> s.contains(y) && y != s[k] by {
        if t.contains(y) {
            let j = choose|j: int| 0 <= j < t.len() && t[j] == y;
            let j2 = if j < k { j } else { j + 1 };
            assert(s[j2] == y);
            assert(j2 != k);
        }
        if s.contains(y) && y != s[k] {
            let j = choose|j: int| 0 <= j < s.len() && s[j] == y;
            assert(j != k);
            let j2 = if j < k { j } else { j - 1 };
            assert(t[j2] == y);
        }
    }
    assert(t.to_set() =~= s.to_set().remove(s[k]));
}

} // verus!
