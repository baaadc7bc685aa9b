use vstd::prelude::*;
use std::collections::{HashSet, VecDeque};
use vstd::string::StringSliceAdditionalSpecFns;
use crate::datetime::{DateTime, Session};
use crate::display::{due_shown, due_text, session_opt_shown, session_opt_text};
use vstd::utf8::encode_utf8;
use crate::node::{lines, wrap_spec, wrap_text, Node, NodeData, Priority};

verus! {

broadcast use {vstd::seq_lib::group_to_multiset_ensures, vstd::std_specs::hash::group_hash_axioms};

/// `a` comes strictly before `b` in lexicographic order.
pub open spec fn lex_lt(a: Seq<usize>, b: Seq<usize>) -> bool
    decreases a.len(),
{
    if a.len() == 0 {
        b.len() > 0
    } else if b.len() == 0 {
        false
    } else if a[0] != b[0] {
        a[0] < b[0]
    } else {
        lex_lt(a.drop_first(), b.drop_first())
    }
}

proof fn lemma_lex_asym(a: Seq<usize>, b: Seq<usize>)
    ensures
        lex_lt(a, b) ==> !lex_lt(b, a),
    decreases a.len(),
{
    if a.len() > 0 && b.len() > 0 && a[0] == b[0] {
        lemma_lex_asym(a.drop_first(), b.drop_first());
    }
}

/// Whether `a` comes strictly before `b`.
fn path_lt(a: &Vec<usize>, b: &Vec<usize>) -> (r: bool)
    ensures
        r == lex_lt(a@, b@),
{
    let mut k: usize = 0;
    assert(a@.skip(0) =~= a@);
    assert(b@.skip(0) =~= b@);
    while k < a.len() && k < b.len() && a[k] == b[k]
        invariant
            k <= a@.len(),
            k <= b@.len(),
            lex_lt(a@, b@) == lex_lt(a@.skip(k as int), b@.skip(k as int)),
        decreases a@.len() - k,
    {
        assert(a@.skip(k as int).drop_first() =~= a@.skip(k + 1));
        assert(b@.skip(k as int).drop_first() =~= b@.skip(k + 1));
        k = k + 1;
    }
    if k == a.len() {
        k < b.len()
    } else if k == b.len() {
        false
    } else {
        a[k] < b[k]
    }
}

/// An accepted node and its path key: the path of its parent followed by
/// the index at which the node was accepted.
pub struct FNode {
    pub node: Node,
    pub path: Vec<usize>,
}

/// The children of the accepted node `last` still to be placed, the next one
/// at the end.
pub struct ChildQueue {
    pub pending: Vec<Node>,
    pub last: usize,
}

/// What a step of the builder asks of its caller.
#[derive(Clone, Copy, PartialEq, Eq, Structural, Debug)]
pub enum FlatTreeState {
    /// A node was placed, or a list of children was used up: step again.
    Build,
    /// Fetch the children of the nodes in `fill_range` and hand them in.
    Refill,
    /// The viewport is full or the tree is exhausted: call `finish`.
    Done,
}

/// Builds breadth first the list of nodes that a viewport of `height` rows
/// shows below a root.
pub struct FlatTreeBuilder {
    pub height: usize,
    pub fnodes: Vec<FNode>,
    pub queue: VecDeque<ChildQueue>,
    pub start: usize,
    pub filled: usize,
    /// The ids whose children have been asked for.
    pub expanded: HashSet<u64>,
}

/// Children sorted by priority, first to last.
pub open spec fn sorted_by_det(s: Seq<Node>) -> bool {
    forall|a: int, c: int| 0 <= a <= c < s.len() ==> s[a].priority.det <= s[c].priority.det
}

/// Path keys that never decrease.
pub open spec fn sorted_by_path(s: Seq<FNode>) -> bool {
    forall|k: int| 0 <= k < s.len() - 1 ==> !lex_lt(#[trigger] s[k + 1].path@, s[k].path@)
}

impl FlatTreeBuilder {
    /// Every queued list of children belongs to an accepted node, and the
    /// nodes before `start` have had their children asked for.
    pub open spec fn wf(&self) -> bool {
        &&& self.fnodes@.len() > 0
        &&& self.start <= self.fnodes@.len()
        &&& forall|q: int| 0 <= q < self.queue@.len() ==> #[trigger] self.queue@[q].last
            < self.fnodes@.len()
    }

    /// A builder holding only `root`, with its path key `[0]`.
    pub fn new(root: Node, height: usize) -> (r: Self)
        ensures
            r.wf(),
            r.height == height,
            r.filled == root.height_spec(),
            r.fnodes@.len() == 1,
            r.fnodes@[0].node == root,
            r.fnodes@[0].path@ == seq![0usize],
            r.queue@.len() == 0,
            r.start == 0,
            r.expanded@.len() == 0,
    {
        let filled = root.height();
        let mut fnodes: Vec<FNode> = Vec::new();
        fnodes.push(FNode { node: root, path: vec![0] });
        FlatTreeBuilder { height, fnodes, queue: VecDeque::new(), start: 0, filled, expanded: HashSet::new() }
    }

    /// Places the next child of the first queued list, if it fits.
    pub fn step(&mut self) -> (r: FlatTreeState)
        requires
            old(self).wf(),
        ensures
            final(self).wf(),
            final(self).height == old(self).height,
            final(self).start == old(self).start,
            old(self).queue@.len() == 0 ==> {
                &&& r == if old(self).start == old(self).fnodes@.len() {
                    FlatTreeState::Done
                } else {
                    FlatTreeState::Refill
                }
                &&& final(self).fnodes@ == old(self).fnodes@
                &&& final(self).queue@ == old(self).queue@
                &&& final(self).filled == old(self).filled
            },
            old(self).queue@.len() > 0 && old(self).queue@[0].pending@.len() == 0 ==> {
                &&& r == FlatTreeState::Build
                &&& final(self).fnodes@ == old(self).fnodes@
                &&& final(self).queue@ == old(self).queue@.drop_first()
                &&& final(self).filled == old(self).filled
            },
            old(self).queue@.len() > 0 && old(self).queue@[0].pending@.len() > 0 ==> {
                let front = old(self).queue@[0];
                let child = front.pending@.last();
                if old(self).filled + child.height_spec() > old(self).height {
                    &&& r == FlatTreeState::Done
                    &&& final(self).fnodes@ == old(self).fnodes@
                    &&& final(self).queue@ == old(self).queue@.drop_first()
                    &&& final(self).filled == old(self).filled
                } else {
                    let n = old(self).fnodes@.len();
                    &&& r == FlatTreeState::Build
                    &&& final(self).filled == old(self).filled + child.height_spec()
                    &&& final(self).fnodes@.len() == n + 1
                    &&& final(self).fnodes@.subrange(0, n as int) == old(self).fnodes@
                    &&& final(self).fnodes@[n as int].node == child
                    &&& final(self).fnodes@[n as int].path@ == old(self).fnodes@[front.last as int].path@.push(
                        n as usize,
                    )
                    &&& final(self).queue@.len() == old(self).queue@.len()
                    &&& final(self).queue@.subrange(0, old(self).queue@.len() - 1)
                        == old(self).queue@.drop_first()
                    &&& final(self).queue@.last().pending@ == front.pending@.drop_last()
                    &&& final(self).queue@.last().last == front.last
                }
            },
    {
        let mut children = match self.queue.pop_front() {
            Some(c) => c,
            None => {
                if self.start == self.fnodes.len() {
                    return FlatTreeState::Done;
                } else {
                    return FlatTreeState::Refill;
                }
            },
        };
        assert(children == old(self).queue@[0]);
        let child = match children.pending.pop() {
            Some(c) => c,
            None => {
                return FlatTreeState::Build;
            },
        };
        let extra = child.height();
        if self.filled as u128 + extra as u128 > self.height as u128 {
            return FlatTreeState::Done;
        }
        self.filled = self.filled + extra;
        let n = self.fnodes.len();
        let mut path = self.fnodes[children.last].path.clone();
        assert(path@ =~= old(self).fnodes@[children.last as int].path@);
        path.push(n);
        self.queue.push_back(children);
        self.fnodes.push(FNode { node: child, path });
        assert(self.fnodes@.subrange(0, n as int) =~= old(self).fnodes@);
        assert(self.queue@.subrange(0, old(self).queue@.len() - 1) =~= old(self).queue@.drop_first());
        FlatTreeState::Build
    }

    /// Records that the children of `id` are being asked for; false when
    /// they already were, for a node shown more than once.
    pub fn claim(&mut self, id: u64) -> (r: bool)
        ensures
            r == !old(self).expanded@.contains(id),
            final(self).expanded@ == old(self).expanded@.insert(id),
            final(self).fnodes@ == old(self).fnodes@,
            final(self).queue@ == old(self).queue@,
            final(self).start == old(self).start,
            final(self).filled == old(self).filled,
            final(self).height == old(self).height,
    {
        self.expanded.insert(id)
    }

    /// The indices of the accepted nodes whose children are yet to be asked
    /// for, as a half-open range.
    pub fn fill_range(&self) -> (r: std::ops::Range<usize>)
        ensures
            r.start == self.start,
            r.end == self.fnodes@.len(),
    {
        self.start..self.fnodes.len()
    }

    pub fn id(&self, i: usize) -> (r: u64)
        requires
            i < self.fnodes@.len(),
        ensures
            r == self.fnodes@[i as int].node.id,
    {
        self.fnodes[i].node.id
    }

    pub fn depth(&self, i: usize) -> (r: usize)
        requires
            i < self.fnodes@.len(),
        ensures
            r == self.fnodes@[i as int].node.depth,
    {
        self.fnodes[i].node.depth
    }

    /// Queues the children of accepted node `last`, in priority order.
    pub fn fill(&mut self, children: Vec<Node>, last: usize)
        requires
            old(self).wf(),
            last < old(self).fnodes@.len(),
        ensures
            final(self).wf(),
            final(self).height == old(self).height,
            final(self).start == old(self).start,
            final(self).filled == old(self).filled,
            final(self).fnodes@ == old(self).fnodes@,
            final(self).queue@.len() == old(self).queue@.len() + 1,
            final(self).queue@.drop_last() == old(self).queue@,
            final(self).queue@.last().last == last,
            final(self).queue@.last().pending@.reverse().to_multiset() == children@.to_multiset(),
            sorted_by_det(final(self).queue@.last().pending@.reverse()),
    {
        let pending = sort_by_det_desc(children);
        proof {
            pending@.lemma_reverse_to_multiset();
            let rev = pending@.reverse();
            assert forall|a: int, c: int| 0 <= a <= c < rev.len() implies rev[a].priority.det
                <= rev[c].priority.det by {
                assert(rev[a] == pending@[pending@.len() - 1 - a]);
                assert(rev[c] == pending@[pending@.len() - 1 - c]);
            }
        }
        self.queue.push_back(ChildQueue { pending, last });
        assert(self.queue@.drop_last() =~= old(self).queue@);
    }

    /// The children of every accepted node up to now have been asked for.
    pub fn finish_fill(&mut self)
        requires
            old(self).wf(),
        ensures
            final(self).wf(),
            final(self).start == final(self).fnodes@.len(),
            final(self).fnodes@ == old(self).fnodes@,
            final(self).queue@ == old(self).queue@,
            final(self).filled == old(self).filled,
            final(self).height == old(self).height,
    {
        self.start = self.fnodes.len();
    }

    /// The accepted nodes in the order of their path keys: depth first, in
    /// sibling priority order.
    pub fn finish(self) -> (r: Vec<Node>)
        ensures
            exists|sorted: Seq<FNode>|
                {
                    &&& sorted.to_multiset() == self.fnodes@.to_multiset()
                    &&& sorted_by_path(sorted)
                    &&& r@ == sorted.map_values(|f: FNode| f.node)
                },
    {
        let mut desc = sort_by_path_desc(self.fnodes);
        let ghost sd = desc@;
        let mut r: Vec<Node> = Vec::new();
        while desc.len() > 0
            invariant
                desc@ == sd.subrange(0, desc@.len() as int),
                desc@.len() <= sd.len(),
                r@ == sd.reverse().subrange(0, sd.len() - desc@.len()).map_values(|f: FNode| f.node),
            decreases desc@.len(),
        {
            let ghost before = desc@.len();
            let f = desc.pop().unwrap();
            r.push(f.node);
            proof {
                assert(f == sd[before - 1]);
                assert(sd.reverse()[sd.len() - before] == sd[before - 1]);
                assert(r@ =~= sd.reverse().subrange(0, sd.len() - desc@.len()).map_values(
                    |f: FNode| f.node,
                ));
                assert(desc@ =~= sd.subrange(0, desc@.len() as int));
            }
        }
        proof {
            sd.lemma_reverse_to_multiset();
            let rev = sd.reverse();
            assert(rev.subrange(0, sd.len() as int) =~= rev);
            assert forall|k: int| 0 <= k < rev.len() - 1 implies !lex_lt(
                #[trigger] rev[k + 1].path@,
                rev[k].path@,
            ) by {
                assert(rev[k + 1] == sd[sd.len() - 2 - k]);
                assert(rev[k] == sd[sd.len() - 1 - k]);
                assert(sd[sd.len() - 2 - k + 1] == sd[sd.len() - 1 - k]);
            }
            assert(rev.to_multiset() == self.fnodes@.to_multiset());
            assert(sorted_by_path(rev));
            assert(r@ == rev.map_values(|f: FNode| f.node));
        }
        r
    }
}

/// The nodes of `v` ordered by priority, last first.
fn sort_by_det_desc(v: Vec<Node>) -> (r: Vec<Node>)
    ensures
        r@.to_multiset() == v@.to_multiset(),
        forall|a: int, c: int| 0 <= a <= c < r@.len() ==> r@[c].priority.det <= r@[a].priority.det,
{
    let mut v = v;
    let ghost v0 = v@;
    let mut out: Vec<Node> = Vec::new();
    assert(v0.subrange(v@.len() as int, v0.len() as int) =~= Seq::<Node>::empty());
    while v.len() > 0
        invariant
            v@ == v0.subrange(0, v@.len() as int),
            v@.len() <= v0.len(),
            out@.to_multiset() == v0.subrange(v@.len() as int, v0.len() as int).to_multiset(),
            forall|a: int, c: int| 0 <= a <= c < out@.len() ==> out@[c].priority.det <= out@[a].priority.det,
        decreases v@.len(),
    {
        let ghost n = v@.len();
        let x = v.pop().unwrap();
        let mut p: usize = 0;
        while p < out.len() && out[p].priority.det > x.priority.det
            invariant
                p <= out@.len(),
                forall|a: int| 0 <= a < p ==> out@[a].priority.det > x.priority.det,
            decreases out@.len() - p,
        {
            p = p + 1;
        }
        let ghost old_out = out@;
        out.insert(p, x);
        proof {
            vstd::seq_lib::to_multiset_insert(old_out, p as int, x);
            assert(v0.subrange(n - 1, v0.len() as int) =~= v0.subrange(n as int, v0.len() as int).insert(0, x));
            vstd::seq_lib::to_multiset_insert(v0.subrange(n as int, v0.len() as int), 0, x);
            assert(v@ =~= v0.subrange(0, v@.len() as int));
            assert forall|a: int, c: int| 0 <= a <= c < out@.len() implies out@[c].priority.det
                <= out@[a].priority.det by {
                if a < p && c > p {
                    assert(out@[a] == old_out[a]);
                    assert(out@[c] == old_out[c - 1]);
                    assert(old_out[c - 1].priority.det <= old_out[a].priority.det);
                } else if a < p && c == p {
                } else if a == p && c > p {
                    assert(out@[c] == old_out[c - 1]);
                    if p < old_out.len() {
                        assert(old_out[c - 1].priority.det <= old_out[p as int].priority.det);
                    }
                } else if a > p {
                    assert(out@[a] == old_out[a - 1]);
                    assert(out@[c] == old_out[c - 1]);
                } else if c < p {
                    assert(out@[a] == old_out[a]);
                    assert(out@[c] == old_out[c]);
                }
            }
        }
    }
    assert(v0.subrange(0, v0.len() as int) =~= v0);
    out
}

/// The accepted nodes of `v` ordered by path key, last first.
fn sort_by_path_desc(v: Vec<FNode>) -> (r: Vec<FNode>)
    ensures
        r@.to_multiset() == v@.to_multiset(),
        forall|k: int| 0 <= k < r@.len() - 1 ==> !lex_lt(#[trigger] r@[k].path@, r@[k + 1].path@),
{
    let mut v = v;
    let ghost v0 = v@;
    let mut out: Vec<FNode> = Vec::new();
    assert(v0.subrange(v@.len() as int, v0.len() as int) =~= Seq::<FNode>::empty());
    while v.len() > 0
        invariant
            v@ == v0.subrange(0, v@.len() as int),
            v@.len() <= v0.len(),
            out@.to_multiset() == v0.subrange(v@.len() as int, v0.len() as int).to_multiset(),
            forall|k: int| 0 <= k < out@.len() - 1 ==> !lex_lt(#[trigger] out@[k].path@, out@[k + 1].path@),
        decreases v@.len(),
    {
        let ghost n = v@.len();
        let x = v.pop().unwrap();
        let mut p: usize = 0;
        while p < out.len() && !path_lt(&out[p].path, &x.path)
            invariant
                p <= out@.len(),
                forall|a: int| 0 <= a < p ==> !lex_lt(#[trigger] out@[a].path@, x.path@),
            decreases out@.len() - p,
        {
            p = p + 1;
        }
        let ghost old_out = out@;
        proof {
            if p < old_out.len() {
                assert(lex_lt(old_out[p as int].path@, x.path@));
                lemma_lex_asym(old_out[p as int].path@, x.path@);
            }
        }
        out.insert(p, x);
        proof {
            vstd::seq_lib::to_multiset_insert(old_out, p as int, x);
            assert(v0.subrange(n - 1, v0.len() as int) =~= v0.subrange(n as int, v0.len() as int).insert(0, x));
            vstd::seq_lib::to_multiset_insert(v0.subrange(n as int, v0.len() as int), 0, x);
            assert(v@ =~= v0.subrange(0, v@.len() as int));
            assert forall|k: int| 0 <= k < out@.len() - 1 implies !lex_lt(
                #[trigger] out@[k].path@,
                out@[k + 1].path@,
            ) by {
                if k + 1 < p {
                    assert(out@[k] == old_out[k]);
                    assert(out@[k + 1] == old_out[k + 1]);
                } else if k + 1 == p {
                    assert(out@[k] == old_out[k]);
                } else if k == p {
                    assert(out@[k + 1] == old_out[k]);
                } else {
                    assert(out@[k] == old_out[k - 1]);
                    assert(out@[k + 1] == old_out[k]);
                }
            }
        }
    }
    assert(v0.subrange(0, v0.len() as int) =~= v0);
    out
}

/// A child as read from the store: its id, payload and first session.
pub struct ChildEntry {
    pub id: u64,
    pub data: NodeData,
    pub session: Option<Session>,
}

/// The columns left for the name of a node at `depth` in a column of
/// `width`, after an indent of `2 * depth + 1`.
pub open spec fn name_width(width: int, depth: int) -> int {
    if width > 2 * depth + 1 {
        width - (2 * depth + 1)
    } else {
        0
    }
}

/// The session and due-date columns of the tree view: their widths, and
/// the moment dates are shown from.
#[derive(Clone, Copy)]
pub struct Columns {
    pub now: DateTime,
    pub session_width: usize,
    pub due_date_width: usize,
}

/// A node of the tree view with its three columns wrapped, before its place
/// among its siblings is known: the name at `w` columns, its first session
/// and its due date, shown from `cols.now`, at their columns' widths.
pub open spec fn shown(n: Node, id: u64, pid: u64, depth: int, data: NodeData, session: Option<Session>, w: int, cols: Columns) -> bool {
    &&& n.id == id
    &&& n.pid == pid
    &&& n.depth == depth
    &&& n.data == data
    &&& n.session == session
    &&& n.name_splits@ == wrap_spec(encode_utf8(data.name@), w)
    &&& n.session_text@ == session_opt_shown(session, cols.now)
    &&& n.session_splits@ == wrap_spec(encode_utf8(n.session_text@), cols.session_width as int)
    &&& n.due_date_text@ == due_shown(data.due_date, cols.now)
    &&& n.due_date_splits@ == wrap_spec(encode_utf8(n.due_date_text@), cols.due_date_width as int)
}

fn make_node(id: u64, pid: u64, depth: usize, data: NodeData, session: Option<Session>, w: usize, cols: Columns) -> (r: Node)
    ensures
        shown(r, id, pid, depth as int, data, session, w as int, cols),
        r.priority == (Priority { det: 0, total: 1 }),
{
    let name_splits = wrap_text(data.name.as_str(), w);
    let session_text = session_opt_text(session, cols.now);
    let session_splits = wrap_text(session_text.as_str(), cols.session_width);
    let due_date_text = due_text(data.due_date, cols.now);
    let due_date_splits = wrap_text(due_date_text.as_str(), cols.due_date_width);
    Node {
        id,
        pid,
        depth,
        data,
        session,
        priority: Priority::default(),
        name_splits,
        session_text,
        session_splits,
        due_date_text,
        due_date_splits,
    }
}

/// The root of a viewport of `height` rows and `width` columns, its name
/// wrapped at `width - 1`; none when the width leaves no room or the name
/// alone is taller than the viewport.
pub fn root_node(id: u64, data: NodeData, session: Option<Session>, height: usize, width: usize, cols: Columns) -> (r: Option<Node>)
    ensures
        width <= 1 ==> r is None,
        width > 1 ==> (r is None <==> lines(wrap_spec(encode_utf8(data.name@), width - 1)) > height),
        r matches Some(n) ==> shown(n, id, id, 0, data, session, width - 1, cols) && n.priority == (Priority { det: 0, total: 1 }),
{
    if width <= 1 {
        return None;
    }
    let node = make_node(id, id, 0, data, session, width - 1, cols);
    if node.name_splits.len() > 0 && node.name_splits.len() - 1 > height {
        None
    } else {
        Some(node)
    }
}

/// The children of `pid`, at `depth + 1`, in the order given, their names
/// wrapped to what the indent leaves of `width`, each with its place among
/// them; none when the indent leaves no column.
pub fn children_nodes(pid: u64, entries: Vec<ChildEntry>, depth: usize, width: usize, cols: Columns) -> (r: Vec<Node>)
    requires
        depth < usize::MAX,
    ensures
        name_width(width as int, depth + 1) == 0 ==> r@.len() == 0,
        name_width(width as int, depth + 1) > 0 ==> {
            &&& r@.len() == entries@.len()
            &&& forall|k: int| 0 <= k < r@.len() ==> {
                &&& shown(#[trigger] r@[k], entries@[k].id, pid, depth + 1, entries@[k].data, entries@[k].session, name_width(width as int, depth + 1), cols)
                &&& r@[k].priority == (Priority { det: k as u64, total: r@.len() as u64 })
            }
        },
{
    let d = depth + 1;
    let indent: u128 = 2 * (d as u128) + 1;
    if (width as u128) <= indent {
        return Vec::new();
    }
    let w = (width as u128 - indent) as usize;
    let ghost e0 = entries@;
    let mut entries = entries;
    let mut out: Vec<Node> = Vec::new();
    let n = entries.len();
    while entries.len() > 0
        invariant
            out@.len() + entries@.len() == n,
            n == e0.len(),
            entries@ == e0.subrange(out@.len() as int, n as int),
            w == name_width(width as int, d as int),
            d == depth + 1,
            forall|k: int| 0 <= k < out@.len() ==> {
                &&& shown(#[trigger] out@[k], e0[k].id, pid, d as int, e0[k].data, e0[k].session, w as int, cols)
                &&& out@[k].priority == (Priority { det: k as u64, total: n as u64 })
            },
        decreases entries@.len(),
    {
        let e = entries.remove(0);
        let k = out.len();
        let mut node = make_node(e.id, pid, d, e.data, e.session, w, cols);
        node.priority = Priority { det: k as u64, total: n as u64 };
        out.push(node);
        assert(entries@ =~= e0.subrange(out@.len() as int, n as int));
    }
    out
}

/// Siblings keep their priority order in the finished list: the path key
/// of a node is its parent's followed by the index at which it was
/// accepted, so of two children of one parent the one accepted first (the
/// one of higher priority, as `fill` orders them and `step` takes them)
/// comes first in path order, and `finish` orders by path.
pub proof fn lemma_sibling_paths_ordered(p: Seq<usize>, i: usize, j: usize)
    requires
        i < j,
    ensures
        lex_lt(p.push(i), p.push(j)),
        !lex_lt(p.push(j), p.push(i)),
    decreases p.len(),
{
    if p.len() > 0 {
        assert(p.push(i).drop_first() =~= p.drop_first().push(i));
        assert(p.push(j).drop_first() =~= p.drop_first().push(j));
        lemma_sibling_paths_ordered(p.drop_first(), i, j);
    } else {
        assert(p.push(i)[0] == i);
        assert(p.push(j)[0] == j);
    }
}

} // verus!
