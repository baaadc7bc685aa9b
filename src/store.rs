use vstd::prelude::*;
use std::sync::Arc;
use sanakirja::{Env, Error};
use crate::codec::{session_at, session_bytes, session_key, session_of_key, triple_from, triple_key};
use crate::datetime::Session;
use crate::tables::{
    begin_read, begin_write, links_of, nodes_of, roots_present, rlinks_of, rsessions_of,
    sessions_of, snap_links, snap_nodes, snap_rlinks, snap_rsessions, snap_sessions, Snapshot,
    Tables,
};

verus! {

/// The root slots of the id sequence and of LINKS, RLINKS, NODES, SESSIONS
/// and RSESSIONS, in that order.
pub fn root_slots() -> (r: [usize; 6])
    ensures
        r@ == seq![0usize, 1, 2, 3, 4, 5],
{
    let r = [0, 1, 2, 3, 4, 5];
    assert(r@ =~= seq![0usize, 1, 2, 3, 4, 5]);
    r
}

/// Why a store operation failed.
pub enum StoreError {
    /// The storage engine failed.
    Store(Error),
    /// The indexes do not hold what their invariants promise.
    InvalidData,
    /// A payload is empty or longer than a page entry can hold.
    PayloadSize,
    /// A walk ran past 2^64 steps, which no store can hold without a cycle.
    StepLimit,
}

fn lift<T>(r: Result<T, Error>) -> (o: Result<T, StoreError>)
    ensures
        o is Err ==> o->Err_0 is Store,
        !(o matches Err(StoreError::PayloadSize)),
        r is Ok <==> o is Ok,
        r is Ok ==> o->Ok_0 == r->Ok_0,
{
    match r {
        Ok(v) => Ok(v),
        Err(e) => Err(StoreError::Store(e)),
    }
}

/// What opening found in the environment.
#[derive(Clone, Copy, PartialEq, Eq, Structural, Debug)]
pub enum BaseState {
    /// No index exists yet: the caller creates them with the root payload.
    Fresh,
    /// All indexes exist and the root node is present.
    Ready,
}

/// What opening decides from which of the six root slots are set and, when
/// all are, whether the root node's payload was found: a store with none
/// set is fresh, one with all set and the root present is ready, anything
/// else is corrupt.
pub fn base_state(present: [bool; 6], root_found: bool) -> (r: Result<BaseState, StoreError>)
    ensures
        (forall|i: int| 0 <= i < 6 ==> !present[i]) ==> r == Ok::<BaseState, StoreError>(BaseState::Fresh),
        (forall|i: int| 0 <= i < 6 ==> present[i]) ==> (r == Ok::<BaseState, StoreError>(BaseState::Ready) <==> root_found),
        !(forall|i: int| 0 <= i < 6 ==> !present[i]) && !((forall|i: int| 0 <= i < 6 ==> present[i]) && root_found)
            ==> r matches Err(StoreError::InvalidData),
{
    let mut all = true;
    let mut none = true;
    let mut i: usize = 0;
    while i < 6
        invariant
            i <= 6,
            all <==> forall|j: int| 0 <= j < i ==> present[j],
            none <==> forall|j: int| 0 <= j < i ==> !present[j],
        decreases 6 - i,
    {
        if present[i] {
            none = false;
        } else {
            all = false;
        }
        i = i + 1;
    }
    proof {
        if all {
            assert(present[0]);
        }
    }
    if none {
        Ok(BaseState::Fresh)
    } else if all && root_found {
        Ok(BaseState::Ready)
    } else {
        Err(StoreError::InvalidData)
    }
}

/// The environment that holds the indexes.
pub struct Store {
    pub env: Arc<Env>,
}

impl Store {
    pub fn new(env: Env) -> (r: Store) {
        Store { env: Arc::new(env) }
    }

    /// Whether the root slots are all empty (a fresh store) or all set with
    /// the root node present; any other combination is corruption. The
    /// decision is `base_state` on what was read.
    pub fn check_base(&self) -> (r: Result<BaseState, StoreError>) {
        let present = lift(roots_present(&self.env, root_slots()))?;
        let mut all = true;
        let mut i: usize = 0;
        while i < 6
            invariant
                i <= 6,
            decreases 6 - i,
        {
            if !present[i] {
                all = false;
            }
            i = i + 1;
        }
        let root_found = if all {
            let reader = self.reader()?;
            reader.read(0)?.is_some()
        } else {
            false
        };
        base_state(present, root_found)
    }

    /// A read transaction over the last committed state.
    pub fn reader(&self) -> (r: Result<StoreReader, StoreError>) {
        match lift(begin_read(&self.env, root_slots()))? {
            Some((tables, id)) => Ok(StoreReader { tables, id }),
            None => Err(StoreError::InvalidData),
        }
    }

    /// The write transaction.
    pub fn writer(&self) -> (r: Result<StoreWriter, StoreError>)
        ensures
            r matches Ok(w) ==> w.rlinks().dom().finite(),
    {
        match lift(begin_write(&self.env, root_slots()))? {
            Some((tables, id)) => Ok(StoreWriter { tables, id }),
            None => Err(StoreError::InvalidData),
        }
    }
}

/// A read transaction: a stable snapshot of the indexes.
pub struct StoreReader {
    pub tables: Snapshot,
    pub id: u64,
}

/// The write transaction, with the next unused id.
pub struct StoreWriter {
    pub tables: Tables,
    pub id: u64,
}

/// The walk of the sibling list of `p` from its head along next-pointers,
/// over the indexes `links` and `rlinks`: `v` starts at the head, each
/// element is a child of `p` whose next-pointer is the following element,
/// and the last one's is 0.
pub open spec fn is_walk(
    links: Map<u64, u64>,
    rlinks: Map<(u64, u64), (u64, u64)>,
    p: u64,
    v: Seq<u64>,
) -> bool {
    &&& v.len() == 0 <==> !(links.dom().contains(p) && links[p] != 0)
    &&& v.len() > 0 ==> links[p] == v[0]
    &&& forall|k: int|
        0 <= k < v.len() ==> {
            &&& #[trigger] v[k] != 0
            &&& rlinks.dom().contains((v[k], p))
            &&& rlinks[(v[k], p)].0 == if k + 1 < v.len() {
                v[k + 1]
            } else {
                0
            }
        }
}

/// The head of the sibling list of `p`, 0 for none.
pub open spec fn head_of(links: Map<u64, u64>, p: u64) -> u64 {
    if links.dom().contains(p) {
        links[p]
    } else {
        0
    }
}

/// The sessions of `id` as kept in SESSIONS.
pub open spec fn sessions_of_id(s: Set<(u64, Seq<u8>)>, id: u64) -> Set<Seq<u8>> {
    Set::new(|k: Seq<u8>| s.contains((id, k)))
}

impl StoreReader {
    pub open spec fn links(&self) -> Map<u64, u64> {
        snap_links(self.tables)
    }

    pub open spec fn rlinks(&self) -> Map<(u64, u64), (u64, u64)> {
        snap_rlinks(self.tables)
    }

    pub open spec fn nodes(&self) -> Map<u64, Seq<u8>> {
        snap_nodes(self.tables)
    }

    /// The payload of `id`.
    pub fn read(&self, id: u64) -> (r: Result<Option<Vec<u8>>, StoreError>)
        ensures
            r is Err ==> r->Err_0 is Store,
            !(r matches Err(StoreError::PayloadSize)),
            r matches Ok(o) ==> (o is Some <==> self.nodes().dom().contains(id)),
            r matches Ok(Some(v)) ==> v@ == self.nodes()[id],
    {
        match lift(self.tables.nodes_get(id))? {
            Some((k, v)) => {
                if k == id {
                    Ok(Some(v))
                } else {
                    Ok(None)
                }
            },
            None => Ok(None),
        }
    }

    /// The first session of `id`, in the order of the session keys.
    pub fn read_session(&self, id: u64) -> (r: Result<Option<Session>, StoreError>)
        ensures
            r matches Ok(o) ==> (o is Some <==> exists|k: Seq<u8>| snap_sessions(self.tables).contains((id, k))),
            r matches Ok(Some(s)) ==> exists|k: Seq<u8>| snap_sessions(self.tables).contains((id, k)) && s == session_at(k),
    {
        let all = lift(self.tables.sessions_from(id))?;
        if all.len() > 0 && all[0].0 == id {
            let s = session_of_key(&all[0].1);
            proof {
                assert(snap_sessions(self.tables).contains((all@[0].0, all@[0].1@)));
            }
            Ok(Some(s))
        } else {
            proof {
                assert forall|k: Seq<u8>| !snap_sessions(self.tables).contains((id, k)) by {
                    if snap_sessions(self.tables).contains((id, k)) {
                        let e = (id, k);
                        assert(snap_sessions(self.tables).contains(e) && e.0 >= id);
                        let j = choose|j: int| 0 <= j < all@.len() && all@[j].0 == e.0 && all@[j].1@ == e.1;
                        assert(all@[0].0 <= all@[j].0);
                        assert(all@[0].0 >= id);
                    }
                }
            }
            Ok(None)
        }
    }

    /// The sessions of `id`, in the order of their keys.
    pub fn sessions(&self, id: u64) -> (r: Result<Vec<Session>, StoreError>)
        ensures
            r matches Ok(v) ==> forall|s: Session| v@.contains(s) <==> exists|k: Seq<u8>| snap_sessions(self.tables).contains((id, k)) && s == session_at(k),
    {
        let all = lift(self.tables.sessions_from(id))?;
        let mut out: Vec<Session> = Vec::new();
        let mut i: usize = 0;
        while i < all.len() && all[i].0 == id
            invariant
                i <= all@.len(),
                forall|j: int| 0 <= j < i ==> all@[j].0 == id,
                forall|s: Session| out@.contains(s) <==> exists|j: int| 0 <= j < i && s == session_at(#[trigger] all@[j].1@),
            decreases all@.len() - i,
        {
            let s = session_of_key(&all[i].1);
            proof {
                assert forall|x: Session| out@.push(s).contains(x) <==> exists|j: int| 0 <= j < i + 1 && x == session_at(#[trigger] all@[j].1@) by {
                    if out@.push(s).contains(x) {
                        let m = choose|m: int| 0 <= m < out@.push(s).len() && out@.push(s)[m] == x;
                        if m == out@.len() {
                            assert(x == session_at(all@[i as int].1@));
                        } else {
                            assert(out@.contains(x));
                        }
                    }
                    if exists|j: int| 0 <= j < i + 1 && x == session_at(#[trigger] all@[j].1@) {
                        let j = choose|j: int| 0 <= j < i + 1 && x == session_at(#[trigger] all@[j].1@);
                        if j == i {
                            assert(out@.push(s)[out@.len() as int] == x);
                        } else {
                            assert(out@.contains(x));
                            let m = choose|m: int| 0 <= m < out@.len() && out@[m] == x;
                            assert(out@.push(s)[m] == x);
                        }
                    }
                }
            }
            out.push(s);
            i = i + 1;
        }
        proof {
            assert forall|s: Session| out@.contains(s) <==> exists|k: Seq<u8>| snap_sessions(self.tables).contains((id, k)) && s == session_at(k) by {
                if out@.contains(s) {
                    let j = choose|j: int| 0 <= j < i && s == session_at(#[trigger] all@[j].1@);
                    assert(snap_sessions(self.tables).contains((all@[j].0, all@[j].1@)));
                }
                if exists|k: Seq<u8>| snap_sessions(self.tables).contains((id, k)) && s == session_at(k) {
                    let k = choose|k: Seq<u8>| snap_sessions(self.tables).contains((id, k)) && s == session_at(k);
                    let e = (id, k);
                    assert(snap_sessions(self.tables).contains(e) && e.0 >= id);
                    let j = choose|j: int| 0 <= j < all@.len() && all@[j].0 == e.0 && all@[j].1@ == e.1;
                    if j >= i {
                        assert(i < all@.len());
                        assert(all@[i as int].0 <= all@[j].0);
                        assert(snap_sessions(self.tables).contains((all@[i as int].0, all@[i as int].1@)));
                        assert(false);
                    } else {
                        assert(s == session_at(all@[j].1@));
                    }
                }
            }
        }
        Ok(out)
    }

    /// Every session with its task, in the order of the session keys:
    /// the decoded RSESSIONS entries.
    pub fn all_sessions(&self) -> (r: Result<Vec<(Session, u64)>, StoreError>) {
        let all = lift(self.tables.rsessions_all())?;
        let mut out: Vec<(Session, u64)> = Vec::new();
        let mut i: usize = 0;
        while i < all.len()
            invariant
                i <= all@.len(),
                out@.len() == i,
                forall|j: int| 0 <= j < i ==> #[trigger] out@[j] == (session_at(all@[j].0@), all@[j].1),
            decreases all@.len() - i,
        {
            out.push((session_of_key(&all[i].0), all[i].1));
            i = i + 1;
        }
        Ok(out)
    }
}

/// Every id in the indexes is below `id`.
pub open spec fn below(l: Map<u64, u64>, rl: Map<(u64, u64), (u64, u64)>, n: Map<u64, Seq<u8>>, id: u64) -> bool {
    &&& forall|k: u64| #[trigger] n.dom().contains(k) ==> k < id
    &&& forall|c: u64, p: u64| #[trigger] rl.dom().contains((c, p)) ==> c < id && p < id
    &&& forall|p: u64| #[trigger] l.dom().contains(p) ==> p < id && l[p] < id
}

proof fn lemma_below(
    l: Map<u64, u64>,
    rl: Map<(u64, u64), (u64, u64)>,
    n: Map<u64, Seq<u8>>,
    id: u64,
    l2: Map<u64, u64>,
    rl2: Map<(u64, u64), (u64, u64)>,
    n2: Map<u64, Seq<u8>>,
    id2: u64,
)
    requires
        below(l, rl, n, id),
        id <= id2,
        forall|k: u64| #[trigger] n2.dom().contains(k) ==> n.dom().contains(k) || k < id2,
        forall|c: u64, p: u64| #[trigger] rl2.dom().contains((c, p)) ==> rl.dom().contains((c, p)) || (c < id2 && p < id2),
        forall|p: u64| #[trigger] l2.dom().contains(p) ==> (l.dom().contains(p) && l2[p] == l[p]) || (p < id2 && l2[p] < id2),
    ensures
        below(l2, rl2, n2, id2),
{
    assert forall|k: u64| #[trigger] n2.dom().contains(k) implies k < id2 by {
        if n.dom().contains(k) {
        }
    }
    assert forall|c: u64, p: u64| #[trigger] rl2.dom().contains((c, p)) implies c < id2 && p < id2 by {
        if rl.dom().contains((c, p)) {
        }
    }
    assert forall|p: u64| #[trigger] l2.dom().contains(p) implies p < id2 && l2[p] < id2 by {
        if l.dom().contains(p) && l2[p] == l[p] {
        }
    }
}

/// The ids with a payload are the root and the children of some node.
pub open spec fn linked(nodes: Map<u64, Seq<u8>>, rl: Map<(u64, u64), (u64, u64)>) -> bool {
    forall|k: u64| nodes.dom().contains(k) <==> (k == 0 || exists|p: u64| rl.dom().contains((k, p)))
}

/// Removing the link of `c` under `p` keeps every payload linked when `c`
/// is the root or keeps another parent.
proof fn lemma_unlink_keeps_linked(
    n: Map<u64, Seq<u8>>,
    rl: Map<(u64, u64), (u64, u64)>,
    rl2: Map<(u64, u64), (u64, u64)>,
    c: u64,
    p: u64,
)
    requires
        linked(n, rl),
        rl2.dom() == rl.dom().remove((c, p)),
        c == 0 || exists|q: u64| rl2.dom().contains((c, q)),
    ensures
        linked(n, rl2),
{
    assert forall|k: u64| n.dom().contains(k) <==> (k == 0 || exists|q: u64| rl2.dom().contains((k, q))) by {
        if exists|q: u64| rl2.dom().contains((k, q)) {
            let q = choose|q: u64| rl2.dom().contains((k, q));
            assert(rl.dom().contains((k, q)));
        }
        if k != c && exists|q: u64| rl.dom().contains((k, q)) {
            let q = choose|q: u64| rl.dom().contains((k, q));
            assert(rl2.dom().contains((k, q)));
        }
    }
}

/// Removing the last link of `c` and its payload keeps every payload
/// linked.
proof fn lemma_orphan_keeps_linked(
    n: Map<u64, Seq<u8>>,
    rl: Map<(u64, u64), (u64, u64)>,
    rl2: Map<(u64, u64), (u64, u64)>,
    c: u64,
    p: u64,
)
    requires
        linked(n, rl),
        rl2.dom() == rl.dom().remove((c, p)),
        c != 0,
        forall|q: u64| !rl2.dom().contains((c, q)),
    ensures
        linked(n.remove(c), rl2),
{
    assert forall|k: u64| n.remove(c).dom().contains(k) <==> (k == 0 || exists|q: u64| rl2.dom().contains((k, q))) by {
        if exists|q: u64| rl2.dom().contains((k, q)) {
            let q = choose|q: u64| rl2.dom().contains((k, q));
            assert(rl.dom().contains((k, q)));
        }
        if k != c && exists|q: u64| rl.dom().contains((k, q)) {
            let q = choose|q: u64| rl.dom().contains((k, q));
            assert(rl2.dom().contains((k, q)));
        }
    }
}

/// The sibling list of `p` has a walk: following next-pointers from its
/// head ends, each step at a recorded child.
pub open spec fn has_walk(l: Map<u64, u64>, rl: Map<(u64, u64), (u64, u64)>, p: u64) -> bool {
    exists|v: Seq<u64>| is_walk(l, rl, p, v)
}

/// Every sibling list has a walk.
pub open spec fn all_walks(l: Map<u64, u64>, rl: Map<(u64, u64), (u64, u64)>) -> bool {
    forall|p: u64| #[trigger] has_walk(l, rl, p)
}

/// The head of the sibling list of `p`, when there is one, is recorded as
/// a child of `p`.
pub open spec fn head_present(l: Map<u64, u64>, rl: Map<(u64, u64), (u64, u64)>, p: u64) -> bool {
    l.dom().contains(p) && l[p] != 0 ==> rl.dom().contains((l[p], p))
}

/// `c` is a child of `p` whose neighbours in the list are recorded and
/// differ from it: unlinking it finds everything it rewrites.
pub open spec fn unlinkable(rl: Map<(u64, u64), (u64, u64)>, p: u64, c: u64) -> bool {
    let n = rl[(c, p)].0;
    let pr = rl[(c, p)].1;
    &&& rl.dom().contains((c, p))
    &&& pr != 0 ==> pr != c && rl.dom().contains((pr, p))
    &&& n != 0 ==> n != c && rl.dom().contains((n, p))
}

/// `c` is a child of `p` whose neighbours, and theirs, are recorded:
/// moving it up or down finds everything it rewrites.
pub open spec fn neighbours_present(rl: Map<(u64, u64), (u64, u64)>, p: u64, c: u64) -> bool {
    let n = rl[(c, p)].0;
    let pr = rl[(c, p)].1;
    &&& rl.dom().contains((c, p))
    &&& pr != 0 ==> rl.dom().contains((pr, p)) && (rl[(pr, p)].1 != 0 ==> rl.dom().contains((rl[(pr, p)].1, p)))
    &&& n != 0 ==> rl.dom().contains((n, p)) && (rl[(n, p)].0 != 0 ==> rl.dom().contains((rl[(n, p)].0, p)))
}

/// The reverse links after `c` is unlinked from the sibling list of `p`:
/// its entry goes, and its neighbours point past it.
pub open spec fn unlink_rl(rl: Map<(u64, u64), (u64, u64)>, p: u64, c: u64) -> Map<(u64, u64), (u64, u64)> {
    let n = rl[(c, p)].0;
    let pr = rl[(c, p)].1;
    let r1 = rl.remove((c, p));
    let r2 = if pr != 0 {
        r1.insert((pr, p), (n, r1[(pr, p)].1))
    } else {
        r1
    };
    if n != 0 {
        r2.insert((n, p), (r2[(n, p)].0, pr))
    } else {
        r2
    }
}

/// The list heads after `c` is unlinked from the sibling list of `p`: if it
/// was the head, its successor becomes the head.
pub open spec fn unlink_links(l: Map<u64, u64>, rl: Map<(u64, u64), (u64, u64)>, p: u64, c: u64) -> Map<u64, u64> {
    let n = rl[(c, p)].0;
    let pr = rl[(c, p)].1;
    if pr != 0 {
        l
    } else if n != 0 {
        l.insert(p, n)
    } else {
        l.remove(p)
    }
}

/// The reverse links after `c` is put at the head of the sibling list of
/// `p`, whose head was `h`.
pub open spec fn push_front_rl(rl: Map<(u64, u64), (u64, u64)>, p: u64, c: u64, h: u64) -> Map<(u64, u64), (u64, u64)> {
    let r1 = if h != 0 {
        rl.insert((h, p), (rl[(h, p)].0, c))
    } else {
        rl
    };
    r1.insert((c, p), (h, 0))
}

/// A path down the graph: each element is a child of the one before.
pub open spec fn is_path(rl: Map<(u64, u64), (u64, u64)>, s: Seq<u64>) -> bool {
    &&& s.len() >= 1
    &&& forall|k: int| 0 <= k < s.len() - 1 ==> rl.dom().contains((#[trigger] s[k + 1], s[k]))
}

/// `x` is `a` or lies below it.
pub open spec fn descends(rl: Map<(u64, u64), (u64, u64)>, x: u64, a: u64) -> bool {
    exists|s: Seq<u64>| is_path(rl, s) && s[0] == a && s.last() == x
}

/// Every walk of a sibling list holds every child that RLINKS records
/// under its parent.
pub open spec fn walks_complete(l: Map<u64, u64>, rl: Map<(u64, u64), (u64, u64)>) -> bool {
    forall|p: u64, v: Seq<u64>, c: u64|
        #![trigger is_walk(l, rl, p, v), rl.dom().contains((c, p))]
        is_walk(l, rl, p, v) && rl.dom().contains((c, p)) ==> v.contains(c)
}

proof fn lemma_path_prefix_in(rl: Map<(u64, u64), (u64, u64)>, vis: Seq<u64>, s: Seq<u64>, k: int)
    requires
        is_path(rl, s),
        0 <= k < s.len(),
        vis.contains(s[0]),
        forall|y: u64, c: u64| #![trigger vis.contains(y), rl.dom().contains((c, y))] vis.contains(y) && rl.dom().contains((c, y)) ==> vis.contains(c),
    ensures
        vis.contains(s[k]),
    decreases k,
{
    if k > 0 {
        lemma_path_prefix_in(rl, vis, s, k - 1);
        let j = k - 1;
        assert(rl.dom().contains((s[j + 1], s[j])));
    }
}

proof fn lemma_descends_step(rl: Map<(u64, u64), (u64, u64)>, a: u64, n: u64, c: u64)
    requires
        descends(rl, n, a),
        rl.dom().contains((c, n)),
    ensures
        descends(rl, c, a),
{
    let s = choose|s: Seq<u64>| is_path(rl, s) && s[0] == a && s.last() == n;
    let t = s.push(c);
    assert forall|k: int| 0 <= k < t.len() - 1 implies rl.dom().contains((#[trigger] t[k + 1], t[k])) by {
        if k < s.len() - 1 {
            assert(t[k + 1] == s[k + 1]);
        }
    }
    assert(is_path(rl, t) && t[0] == a && t.last() == c);
}

impl StoreWriter {
    pub open spec fn links(&self) -> Map<u64, u64> {
        links_of(self.tables)
    }

    pub open spec fn rlinks(&self) -> Map<(u64, u64), (u64, u64)> {
        rlinks_of(self.tables)
    }

    pub open spec fn nodes(&self) -> Map<u64, Seq<u8>> {
        nodes_of(self.tables)
    }

    pub open spec fn sessions(&self) -> Set<(u64, Seq<u8>)> {
        sessions_of(self.tables)
    }

    pub open spec fn rsessions(&self) -> Set<(Seq<u8>, u64)> {
        rsessions_of(self.tables)
    }

    /// Every id in use is below the next unused id: those with a payload,
    /// both ends of every link, and every list's parent and head.
    pub open spec fn ids_below_seq(&self) -> bool {
        below(self.links(), self.rlinks(), self.nodes(), self.id)
    }

    /// The ids with a payload are the root and the children of some node.
    pub open spec fn nodes_are_linked(&self) -> bool {
        linked(self.nodes(), self.rlinks())
    }

    /// SESSIONS and RSESSIONS hold the same pairs, each the other way round.
    pub open spec fn sessions_mirror(&self) -> bool {
        forall|id: u64, k: Seq<u8>| self.sessions().contains((id, k)) <==> self.rsessions().contains((k, id))
    }

    /// The payload of `id`.
    pub fn read(&self, id: u64) -> (r: Result<Option<Vec<u8>>, StoreError>)
        ensures
            r is Err ==> r->Err_0 is Store,
            !(r matches Err(StoreError::PayloadSize)),
            r matches Ok(o) ==> (o is Some <==> self.nodes().dom().contains(id)),
            r matches Ok(Some(v)) ==> v@ == self.nodes()[id],
    {
        match lift(self.tables.nodes_get(id))? {
            Some((k, v)) => {
                if k == id {
                    Ok(Some(v))
                } else {
                    Ok(None)
                }
            },
            None => Ok(None),
        }
    }

    /// The head of the sibling list of `id`.
    pub fn get_child(&self, id: u64) -> (r: Result<Option<u64>, StoreError>)
        ensures
            r is Err ==> r->Err_0 is Store,
            !(r matches Err(StoreError::PayloadSize)),
            r matches Ok(o) ==> o == if self.links().dom().contains(id) {
                Some(self.links()[id])
            } else {
                None
            },
    {
        match lift(self.tables.links_get(id))? {
            Some((k, v)) => {
                if k == id {
                    Ok(Some(v))
                } else {
                    Ok(None)
                }
            },
            None => Ok(None),
        }
    }

    /// The (next, prev) siblings of child `c` under parent `p`.
    pub fn get_rt(&self, c: u64, p: u64) -> (r: Result<Option<(u64, u64)>, StoreError>)
        ensures
            r is Err ==> r->Err_0 is Store,
            !(r matches Err(StoreError::PayloadSize)),
            r matches Ok(o) ==> o == if self.rlinks().dom().contains((c, p)) {
                Some(self.rlinks()[(c, p)])
            } else {
                None
            },
    {
        let key = triple_key(p, 0, 0);
        match lift(self.tables.rlinks_get(c, key.as_slice()))? {
            Some((k, v)) => {
                if k == c && v.len() == 24 {
                    let (q, n, pr) = triple_from(v.as_slice());
                    if q == p {
                        Ok(Some((n, pr)))
                    } else {
                        Ok(None)
                    }
                } else {
                    Ok(None)
                }
            },
            None => Ok(None),
        }
    }

    /// The children of `id` in sibling order: the walk from the head of its
    /// list along next-pointers.
    pub fn child_ids(&self, id: u64) -> (r: Result<Vec<u64>, StoreError>)
        ensures
            !(r matches Err(StoreError::PayloadSize)),
            r matches Ok(v) ==> is_walk(self.links(), self.rlinks(), id, v@),
            has_walk(self.links(), self.rlinks(), id) ==> !(r matches Err(StoreError::InvalidData)),
    {
        let ghost hw = has_walk(self.links(), self.rlinks(), id);
        let ghost w = if hw {
            choose|w: Seq<u64>| is_walk(self.links(), self.rlinks(), id, w)
        } else {
            Seq::<u64>::empty()
        };
        let mut cur: u64 = match self.get_child(id)? {
            Some(h) => h,
            None => 0,
        };
        let mut v: Vec<u64> = Vec::new();
        proof {
            if hw && w.len() > 0 {
                assert(w[0] != 0);
            }
        }
        // No list of a store comes near 2^64 entries: running out of steps
        // means a cycle, which is corruption.
        let mut fuel: u64 = u64::MAX;
        while cur != 0
            invariant
                v@.len() == 0 ==> cur == head_of(self.links(), id),
                v@.len() > 0 ==> self.links().dom().contains(id) && self.links()[id] == v@[0],
                forall|k: int|
                    0 <= k < v@.len() ==> {
                        &&& #[trigger] v@[k] != 0
                        &&& self.rlinks().dom().contains((v@[k], id))
                        &&& self.rlinks()[(v@[k], id)].0 == if k + 1 < v@.len() {
                            v@[k + 1]
                        } else {
                            cur
                        }
                    },
                hw == has_walk(self.links(), self.rlinks(), id),
                hw ==> is_walk(self.links(), self.rlinks(), id, w),
                hw ==> v@.len() <= w.len() && v@ == w.subrange(0, v@.len() as int) && cur == if v@.len() < w.len() {
                    w[v@.len() as int]
                } else {
                    0
                },
            decreases fuel,
        {
            if fuel == 0 {
                return Err(StoreError::StepLimit);
            }
            fuel = fuel - 1;
            proof {
                if hw {
                    assert(v@.len() < w.len());
                    assert(w[v@.len() as int] != 0);
                }
            }
            let (next, _) = match self.get_rt(cur, id)? {
                Some(t) => t,
                None => {
                    return Err(StoreError::InvalidData);
                },
            };
            let ghost k = v@.len() as int;
            v.push(cur);
            cur = next;
            proof {
                if hw {
                    assert(v@ =~= w.subrange(0, v@.len() as int));
                }
            }
        }
        Ok(v)
    }

    fn set_head(&mut self, p: u64, c: u64) -> (r: Result<(), StoreError>)
        ensures
            r is Ok && old(self).ids_below_seq() && p < old(self).id && c < old(self).id ==> final(self).ids_below_seq(),
            !(r matches Err(StoreError::InvalidData)),
            !(r matches Err(StoreError::PayloadSize)),
            r is Ok ==> final(self).links() == old(self).links().insert(p, c),
            r is Ok ==> final(self).rlinks() == old(self).rlinks(),
            r is Ok ==> final(self).nodes() == old(self).nodes(),
            r is Ok ==> final(self).sessions() == old(self).sessions(),
            r is Ok ==> final(self).rsessions() == old(self).rsessions(),
            final(self).id == old(self).id,
    {
        if let Some(h) = self.get_child(p)? {
            lift(self.tables.links_del(p, h))?;
        }
        lift(self.tables.links_put(p, c))?;
        assert(self.links() =~= old(self).links().insert(p, c));
        Ok(())
    }

    fn clear_head(&mut self, p: u64) -> (r: Result<(), StoreError>)
        ensures
            r is Ok && old(self).ids_below_seq() ==> final(self).ids_below_seq(),
            !(r matches Err(StoreError::InvalidData)),
            !(r matches Err(StoreError::PayloadSize)),
            r is Ok ==> final(self).links() == old(self).links().remove(p),
            r is Ok ==> final(self).rlinks() == old(self).rlinks(),
            r is Ok ==> final(self).nodes() == old(self).nodes(),
            r is Ok ==> final(self).sessions() == old(self).sessions(),
            r is Ok ==> final(self).rsessions() == old(self).rsessions(),
            final(self).id == old(self).id,
    {
        if let Some(h) = self.get_child(p)? {
            lift(self.tables.links_del(p, h))?;
        }
        assert(self.links() =~= old(self).links().remove(p));
        Ok(())
    }

    /// Sets the (next, prev) siblings of child `c` under parent `p`.
    fn set_rt(&mut self, c: u64, p: u64, next: u64, prev: u64) -> (r: Result<(), StoreError>)
        requires
            old(self).rlinks().dom().contains((c, p)),
        ensures
            r is Ok && old(self).ids_below_seq() ==> final(self).ids_below_seq(),
            !(r matches Err(StoreError::InvalidData)),
            !(r matches Err(StoreError::PayloadSize)),
            r is Ok ==> final(self).rlinks() == old(self).rlinks().insert((c, p), (next, prev)),
            r is Ok ==> final(self).rlinks().dom() == old(self).rlinks().dom(),
            r is Ok ==> final(self).links() == old(self).links(),
            r is Ok ==> final(self).nodes() == old(self).nodes(),
            r is Ok ==> final(self).sessions() == old(self).sessions(),
            r is Ok ==> final(self).rsessions() == old(self).rsessions(),
            final(self).id == old(self).id,
    {
        let (n0, p0) = match self.get_rt(c, p)? {
            Some(t) => t,
            None => {
                return Err(StoreError::InvalidData);
            },
        };
        lift(self.tables.rlinks_del(c, triple_key(p, n0, p0).as_slice()))?;
        lift(self.tables.rlinks_put(c, triple_key(p, next, prev).as_slice()))?;
        assert(self.rlinks() =~= old(self).rlinks().insert((c, p), (next, prev)));
        assert(self.rlinks().dom() =~= old(self).rlinks().dom());
        Ok(())
    }

    /// Puts `c` at the head of the sibling list of `p`.
    fn link_front(&mut self, p: u64, c: u64) -> (r: Result<(), StoreError>)
        ensures
            r is Ok && old(self).ids_below_seq() && p < old(self).id && c < old(self).id ==> final(self).ids_below_seq(),
            head_present(old(self).links(), old(self).rlinks(), p) && !old(self).rlinks().dom().contains((c, p)) ==> !(r matches Err(StoreError::InvalidData)),
            !(r matches Err(StoreError::PayloadSize)),
            r is Ok ==> final(self).links() == old(self).links().insert(p, c),
            r is Ok ==> final(self).rlinks() == push_front_rl(old(self).rlinks(), p, c, head_of(old(self).links(), p)),
            r is Ok ==> final(self).rlinks().dom() == old(self).rlinks().dom().insert((c, p)),
            r is Ok ==> !old(self).rlinks().dom().contains((c, p)),
            r is Ok ==> final(self).nodes() == old(self).nodes(),
            r is Ok ==> final(self).sessions() == old(self).sessions(),
            r is Ok ==> final(self).rsessions() == old(self).rsessions(),
            final(self).id == old(self).id,
    {
        let h: u64 = match self.get_child(p)? {
            Some(h) => h,
            None => 0,
        };
        if self.get_rt(c, p)?.is_some() {
            return Err(StoreError::InvalidData);
        }
        let hn: u64 = if h != 0 {
            match self.get_rt(h, p)? {
                Some((n, _)) => n,
                None => {
                    return Err(StoreError::InvalidData);
                },
            }
        } else {
            0
        };
        let ghost rl0 = self.rlinks();
        self.set_head(p, c)?;
        lift(self.tables.rlinks_put(c, triple_key(p, h, 0).as_slice()))?;
        if h != 0 {
            self.set_rt(h, p, hn, c)?;
        }
        assert(self.rlinks() =~= push_front_rl(rl0, p, c, h));
        assert(self.rlinks().dom() =~= rl0.dom().insert((c, p)));
        Ok(())
    }

    /// Unlinks `c` from the sibling list of `p`.
    fn unlink(&mut self, p: u64, c: u64) -> (r: Result<(), StoreError>)
        ensures
            r is Ok && old(self).ids_below_seq() ==> final(self).ids_below_seq(),
            unlinkable(old(self).rlinks(), p, c) ==> !(r matches Err(StoreError::InvalidData)),
            !(r matches Err(StoreError::PayloadSize)),
            r is Ok ==> old(self).rlinks().dom().contains((c, p)),
            r is Ok ==> final(self).rlinks() == unlink_rl(old(self).rlinks(), p, c),
            r is Ok ==> final(self).rlinks().dom() == old(self).rlinks().dom().remove((c, p)),
            r is Ok ==> final(self).links() == unlink_links(old(self).links(), old(self).rlinks(), p, c),
            r is Ok ==> final(self).nodes() == old(self).nodes(),
            r is Ok ==> final(self).sessions() == old(self).sessions(),
            r is Ok ==> final(self).rsessions() == old(self).rsessions(),
            final(self).id == old(self).id,
    {
        let (n, pr) = match self.get_rt(c, p)? {
            Some(t) => t,
            None => {
                return Err(StoreError::InvalidData);
            },
        };
        let ghost rl0 = self.rlinks();
        let ghost l0 = self.links();
        if pr == 0 {
            if n != 0 {
                self.set_head(p, n)?;
            } else {
                self.clear_head(p)?;
            }
        }
        lift(self.tables.rlinks_del(c, triple_key(p, n, pr).as_slice()))?;
        let ghost r1 = self.rlinks();
        if pr != 0 {
            let (_, pp) = match self.get_rt(pr, p)? {
                Some(t) => t,
                None => {
                    return Err(StoreError::InvalidData);
                },
            };
            self.set_rt(pr, p, n, pp)?;
        }
        let ghost r2 = self.rlinks();
        if n != 0 {
            let (nn, _) = match self.get_rt(n, p)? {
                Some(t) => t,
                None => {
                    return Err(StoreError::InvalidData);
                },
            };
            self.set_rt(n, p, nn, pr)?;
        }
        assert(self.rlinks() =~= unlink_rl(rl0, p, c));
        assert(self.rlinks().dom() =~= rl0.dom().remove((c, p)));
        assert(self.links() =~= unlink_links(l0, rl0, p, c));
        Ok(())
    }

    /// Adds a child of `pid` with payload `data`, at the head of its sibling
    /// list, under the next unused id, which it returns.
    pub fn add_child(&mut self, pid: u64, data: &[u8]) -> (r: Result<u64, StoreError>)
        ensures
            0 < old(self).id < u64::MAX && !old(self).nodes().dom().contains(old(self).id)
                && (forall|q: u64| !old(self).rlinks().dom().contains((old(self).id, q)))
                && head_present(old(self).links(), old(self).rlinks(), pid) ==> !(r matches Err(StoreError::InvalidData)),
            r is Ok && old(self).nodes_are_linked() ==> final(self).nodes_are_linked(),
            r is Ok && old(self).ids_below_seq() && pid < old(self).id ==> final(self).ids_below_seq(),
            r is Ok && old(self).sessions_mirror() ==> final(self).sessions_mirror(),
            r matches Err(StoreError::PayloadSize) <==> !(1 <= data@.len() <= 510),
            r matches Ok(id) ==> {
                &&& id == old(self).id
                &&& final(self).id == old(self).id + 1
                &&& final(self).links() == old(self).links().insert(pid, id)
                &&& final(self).rlinks() == push_front_rl(old(self).rlinks(), pid, id, head_of(old(self).links(), pid))
                &&& final(self).nodes() == old(self).nodes().insert(id, data@)
                &&& final(self).sessions() == old(self).sessions()
                &&& final(self).rsessions() == old(self).rsessions()
            },
    {
        if data.len() == 0 || data.len() > 510 {
            return Err(StoreError::PayloadSize);
        }
        let id = self.id;
        if id == u64::MAX || id == 0 {
            return Err(StoreError::InvalidData);
        }
        if self.read(id)?.is_some() {
            return Err(StoreError::InvalidData);
        }
        self.link_front(pid, id)?;
        lift(self.tables.nodes_put(id, data))?;
        self.id = id + 1;
        proof {
            if old(self).ids_below_seq() && pid < old(self).id {
                lemma_below(old(self).links(), old(self).rlinks(), old(self).nodes(), old(self).id,
                    self.links(), self.rlinks(), self.nodes(), self.id);
            }
        }
        proof {
            if old(self).nodes_are_linked() {
                assert forall|k: u64| self.nodes().dom().contains(k) <==> (k == 0 || exists|p: u64| self.rlinks().dom().contains((k, p))) by {
                    if k == id {
                        assert(self.rlinks().dom().contains((id, pid)));
                    } else {
                        if exists|p: u64| self.rlinks().dom().contains((k, p)) {
                            let p = choose|p: u64| self.rlinks().dom().contains((k, p));
                            assert(old(self).rlinks().dom().contains((k, p)));
                        }
                        if exists|p: u64| old(self).rlinks().dom().contains((k, p)) {
                            let p = choose|p: u64| old(self).rlinks().dom().contains((k, p));
                            assert(self.rlinks().dom().contains((k, p)));
                        }
                    }
                }
            }
        }
        Ok(id)
    }

    /// Records a session of `id`.
    pub fn add_session(&mut self, id: u64, session: &Session) -> (r: Result<(), StoreError>)
        requires
            session.valid(),
        ensures
            r is Ok && old(self).nodes_are_linked() ==> final(self).nodes_are_linked(),
            r is Ok && old(self).ids_below_seq() ==> final(self).ids_below_seq(),
            r is Ok && old(self).sessions_mirror() ==> final(self).sessions_mirror(),
            r is Ok ==> final(self).sessions() == old(self).sessions().insert((id, session_bytes(*session))),
            r is Ok ==> final(self).rsessions() == old(self).rsessions().insert((session_bytes(*session), id)),
            r is Ok ==> final(self).links() == old(self).links(),
            r is Ok ==> final(self).rlinks() == old(self).rlinks(),
            r is Ok ==> final(self).nodes() == old(self).nodes(),
            final(self).id == old(self).id,
    {
        let key = session_key(session);
        lift(self.tables.sessions_put(id, key))?;
        lift(self.tables.rsessions_put(key, id))?;
        proof {
            assert(self.nodes() == old(self).nodes());
            assert(self.rlinks() == old(self).rlinks());
            if old(self).sessions_mirror() {
                assert forall|i: u64, k: Seq<u8>| self.sessions().contains((i, k)) <==> self.rsessions().contains((k, i)) by {
                    assert(old(self).sessions().contains((i, k)) <==> old(self).rsessions().contains((k, i)));
                }
            }
        }
        Ok(())
    }

    /// Replaces the payload of `id`.
    pub fn modify(&mut self, id: u64, data: &[u8]) -> (r: Result<(), StoreError>)
        ensures
            r is Ok && old(self).nodes_are_linked() ==> final(self).nodes_are_linked(),
            r is Ok && old(self).ids_below_seq() ==> final(self).ids_below_seq(),
            r is Ok && old(self).sessions_mirror() ==> final(self).sessions_mirror(),
            r matches Err(StoreError::PayloadSize) <==> !(1 <= data@.len() <= 510),
            r is Ok ==> old(self).nodes().dom().contains(id),
            r is Ok ==> final(self).nodes() == old(self).nodes().insert(id, data@),
            r is Ok ==> final(self).links() == old(self).links(),
            r is Ok ==> final(self).rlinks() == old(self).rlinks(),
            r is Ok ==> final(self).sessions() == old(self).sessions(),
            r is Ok ==> final(self).rsessions() == old(self).rsessions(),
            final(self).id == old(self).id,
    {
        if data.len() == 0 || data.len() > 510 {
            return Err(StoreError::PayloadSize);
        }
        match self.read(id)? {
            Some(v) => {
                lift(self.tables.nodes_del(id, v.as_slice()))?;
            },
            None => {
                return Err(StoreError::InvalidData);
            },
        }
        lift(self.tables.nodes_put(id, data))?;
        assert(self.nodes() =~= old(self).nodes().insert(id, data@));
        proof {
            assert(self.sessions() == old(self).sessions());
            assert(self.rsessions() == old(self).rsessions());
            assert(self.rlinks() == old(self).rlinks());
            assert(self.nodes().dom() =~= old(self).nodes().dom());
        }
        Ok(())
    }
}

/// The reverse links after `c` swaps places with its predecessor `pr` in
/// the sibling list of `p`.
pub open spec fn move_up_rl(rl: Map<(u64, u64), (u64, u64)>, p: u64, c: u64) -> Map<(u64, u64), (u64, u64)> {
    let n = rl[(c, p)].0;
    let pr = rl[(c, p)].1;
    let pp = rl[(pr, p)].1;
    let r1 = rl.insert((c, p), (pr, pp));
    let r2 = if n != 0 {
        r1.insert((n, p), (r1[(n, p)].0, pr))
    } else {
        r1
    };
    let r3 = r2.insert((pr, p), (n, c));
    if pp != 0 {
        r3.insert((pp, p), (c, r3[(pp, p)].1))
    } else {
        r3
    }
}

/// The list heads after `c` moves up under `p`: it becomes the head when
/// its predecessor was.
pub open spec fn move_up_links(l: Map<u64, u64>, rl: Map<(u64, u64), (u64, u64)>, p: u64, c: u64) -> Map<u64, u64> {
    let pr = rl[(c, p)].1;
    if rl[(pr, p)].1 != 0 {
        l
    } else {
        l.insert(p, c)
    }
}

/// The reverse links after `c` swaps places with its successor `n` in the
/// sibling list of `p`.
pub open spec fn move_down_rl(rl: Map<(u64, u64), (u64, u64)>, p: u64, c: u64) -> Map<(u64, u64), (u64, u64)> {
    let n = rl[(c, p)].0;
    let pr = rl[(c, p)].1;
    let nn = rl[(n, p)].0;
    let r1 = rl.insert((c, p), (nn, n));
    let r2 = if pr != 0 {
        r1.insert((pr, p), (n, r1[(pr, p)].1))
    } else {
        r1
    };
    let r3 = r2.insert((n, p), (c, pr));
    if nn != 0 {
        r3.insert((nn, p), (r3[(nn, p)].0, c))
    } else {
        r3
    }
}

/// The list heads after `c` moves down under `p`: its successor becomes the
/// head when `c` was.
pub open spec fn move_down_links(l: Map<u64, u64>, rl: Map<(u64, u64), (u64, u64)>, p: u64, c: u64) -> Map<u64, u64> {
    if rl[(c, p)].1 != 0 {
        l
    } else {
        l.insert(p, rl[(c, p)].0)
    }
}

impl StoreWriter {
    /// Swaps `id` with its predecessor in the sibling list of `pid`; does
    /// nothing when it is the head.
    pub fn move_up(&mut self, pid: u64, id: u64) -> (r: Result<(), StoreError>)
        ensures
            neighbours_present(old(self).rlinks(), pid, id) ==> !(r matches Err(StoreError::InvalidData)),
            r is Ok && old(self).nodes_are_linked() ==> final(self).nodes_are_linked(),
            r is Ok && old(self).ids_below_seq() ==> final(self).ids_below_seq(),
            r is Ok && old(self).sessions_mirror() ==> final(self).sessions_mirror(),
            r is Ok ==> old(self).rlinks().dom().contains((id, pid)),
            r is Ok && old(self).rlinks()[(id, pid)].1 == 0 ==> *final(self) == *old(self),
            r is Ok && old(self).rlinks()[(id, pid)].1 != 0 ==> {
                &&& final(self).rlinks() == move_up_rl(old(self).rlinks(), pid, id)
                &&& final(self).links() == move_up_links(old(self).links(), old(self).rlinks(), pid, id)
                &&& final(self).nodes() == old(self).nodes()
                &&& final(self).sessions() == old(self).sessions()
                &&& final(self).rsessions() == old(self).rsessions()
                &&& final(self).id == old(self).id
            },
    {
        let (n, pr) = match self.get_rt(id, pid)? {
            Some(t) => t,
            None => {
                return Err(StoreError::InvalidData);
            },
        };
        if pr == 0 {
            return Ok(());
        }
        let (_, pp) = match self.get_rt(pr, pid)? {
            Some(t) => t,
            None => {
                return Err(StoreError::InvalidData);
            },
        };
        let ghost rl0 = self.rlinks();
        let ghost l0 = self.links();
        self.set_rt(id, pid, pr, pp)?;
        if n != 0 {
            let (nn, _) = match self.get_rt(n, pid)? {
                Some(t) => t,
                None => {
                    return Err(StoreError::InvalidData);
                },
            };
            self.set_rt(n, pid, nn, pr)?;
        }
        if self.get_rt(pr, pid)?.is_none() {
            return Err(StoreError::InvalidData);
        }
        self.set_rt(pr, pid, n, id)?;
        if pp != 0 {
            let (_, ppp) = match self.get_rt(pp, pid)? {
                Some(t) => t,
                None => {
                    return Err(StoreError::InvalidData);
                },
            };
            self.set_rt(pp, pid, id, ppp)?;
        } else {
            self.set_head(pid, id)?;
        }
        assert(self.rlinks() =~= move_up_rl(rl0, pid, id));
        assert(self.rlinks().dom() =~= rl0.dom());
        assert(self.links() =~= move_up_links(l0, rl0, pid, id));
        Ok(())
    }

    /// Swaps `id` with its successor in the sibling list of `pid`; does
    /// nothing when it is the last.
    pub fn move_down(&mut self, pid: u64, id: u64) -> (r: Result<(), StoreError>)
        ensures
            neighbours_present(old(self).rlinks(), pid, id) ==> !(r matches Err(StoreError::InvalidData)),
            r is Ok && old(self).nodes_are_linked() ==> final(self).nodes_are_linked(),
            r is Ok && old(self).ids_below_seq() ==> final(self).ids_below_seq(),
            r is Ok && old(self).sessions_mirror() ==> final(self).sessions_mirror(),
            r is Ok ==> old(self).rlinks().dom().contains((id, pid)),
            r is Ok && old(self).rlinks()[(id, pid)].0 == 0 ==> *final(self) == *old(self),
            r is Ok && old(self).rlinks()[(id, pid)].0 != 0 ==> {
                &&& final(self).rlinks() == move_down_rl(old(self).rlinks(), pid, id)
                &&& final(self).links() == move_down_links(old(self).links(), old(self).rlinks(), pid, id)
                &&& final(self).nodes() == old(self).nodes()
                &&& final(self).sessions() == old(self).sessions()
                &&& final(self).rsessions() == old(self).rsessions()
                &&& final(self).id == old(self).id
            },
    {
        let (n, pr) = match self.get_rt(id, pid)? {
            Some(t) => t,
            None => {
                return Err(StoreError::InvalidData);
            },
        };
        if n == 0 {
            return Ok(());
        }
        let (nn, _) = match self.get_rt(n, pid)? {
            Some(t) => t,
            None => {
                return Err(StoreError::InvalidData);
            },
        };
        let ghost rl0 = self.rlinks();
        let ghost l0 = self.links();
        self.set_rt(id, pid, nn, n)?;
        if pr != 0 {
            let (_, pp) = match self.get_rt(pr, pid)? {
                Some(t) => t,
                None => {
                    return Err(StoreError::InvalidData);
                },
            };
            self.set_rt(pr, pid, n, pp)?;
        } else {
            self.set_head(pid, n)?;
        }
        if self.get_rt(n, pid)?.is_none() {
            return Err(StoreError::InvalidData);
        }
        self.set_rt(n, pid, id, pr)?;
        if nn != 0 {
            let (nnn, _) = match self.get_rt(nn, pid)? {
                Some(t) => t,
                None => {
                    return Err(StoreError::InvalidData);
                },
            };
            self.set_rt(nn, pid, nnn, id)?;
        }
        assert(self.rlinks() =~= move_down_rl(rl0, pid, id));
        assert(self.rlinks().dom() =~= rl0.dom());
        assert(self.links() =~= move_down_links(l0, rl0, pid, id));
        Ok(())
    }

    /// Whether `subj` is `pivot` or lies below it; shared subtrees are
    /// walked once.
    pub fn is_descendant_of(&self, subj: u64, pivot: u64) -> (r: Result<bool, StoreError>)
        ensures
            all_walks(self.links(), self.rlinks()) ==> !(r matches Err(StoreError::InvalidData)),
            subj == pivot ==> r matches Ok(true),
            r matches Ok(true) ==> descends(self.rlinks(), subj, pivot),
            r matches Ok(false) && walks_complete(self.links(), self.rlinks()) ==> !descends(self.rlinks(), subj, pivot),
    {
        proof {
            let s = seq![pivot];
            assert(is_path(self.rlinks(), s) && s[0] == pivot && s.last() == pivot);
        }
        if subj == pivot {
            return Ok(true);
        }
        let ghost rl = self.rlinks();
        let ghost complete = walks_complete(self.links(), self.rlinks());
        let mut stack: Vec<u64> = vec![pivot];
        let mut visited: Vec<u64> = Vec::new();
        // No list of a store comes near 2^64 entries: running out of steps
        // means a cycle, which is corruption.
        let mut fuel: u64 = u64::MAX;
        while stack.len() > 0
            invariant
                subj != pivot,
                rl == self.rlinks(),
                complete == walks_complete(self.links(), self.rlinks()),
                forall|k: int| 0 <= k < stack@.len() ==> descends(self.rlinks(), #[trigger] stack@[k], pivot),
                !visited@.contains(subj),
                visited@.contains(pivot) || stack@.contains(pivot),
                complete ==> forall|y: u64, c: u64| #![trigger visited@.contains(y), rl.dom().contains((c, y))] visited@.contains(y) && rl.dom().contains((c, y)) ==> visited@.contains(c) || stack@.contains(c),
            decreases fuel,
        {
            if fuel == 0 {
                return Err(StoreError::StepLimit);
            }
            fuel = fuel - 1;
            let ghost st0 = stack@;
            let n = stack.pop().unwrap();
            assert(st0 == stack@.push(n));
            assert(descends(self.rlinks(), n, pivot)) by {
                assert(st0[st0.len() - 1] == n);
            }
            if n == subj {
                return Ok(true);
            }
            let mut seen = false;
            let mut i: usize = 0;
            while i < visited.len()
                invariant
                    i <= visited@.len(),
                    seen <==> exists|k: int| 0 <= k < i && visited@[k] == n,
                decreases visited@.len() - i,
            {
                if visited[i] == n {
                    seen = true;
                }
                i = i + 1;
            }
            let ghost vis0 = visited@;
            proof {
                assert forall|x: u64| st0.contains(x) implies stack@.contains(x) || x == n by {
                    let k = choose|k: int| 0 <= k < st0.len() && st0[k] == x;
                    if k < stack@.len() {
                        assert(stack@[k] == x);
                    }
                }
            }
            if seen {
                proof {
                    assert(vis0.contains(n));
                    if complete {
                        assert forall|y: u64, c: u64| #![trigger visited@.contains(y), rl.dom().contains((c, y))] visited@.contains(y) && rl.dom().contains((c, y)) implies visited@.contains(c) || stack@.contains(c) by {
                            assert(visited@.contains(c) || st0.contains(c));
                        }
                    }
                    assert(visited@.contains(pivot) || stack@.contains(pivot)) by {
                        assert(visited@.contains(pivot) || st0.contains(pivot));
                    }
                }
            } else {
                visited.push(n);
                proof {
                    assert forall|x: u64| vis0.contains(x) implies visited@.contains(x) by {
                        let k = choose|k: int| 0 <= k < vis0.len() && vis0[k] == x;
                        assert(visited@[k] == x);
                    }
                    assert(visited@[vis0.len() as int] == n);
                    assert forall|x: u64| visited@.contains(x) implies vis0.contains(x) || x == n by {
                        let k = choose|k: int| 0 <= k < visited@.len() && visited@[k] == x;
                        if k < vis0.len() {
                            assert(vis0[k] == x);
                        }
                    }
                }
                let kids = self.child_ids(n)?;
                let ghost st1 = stack@;
                let mut j: usize = 0;
                while j < kids.len()
                    invariant
                        j <= kids@.len(),
                        is_walk(self.links(), self.rlinks(), n, kids@),
                        descends(self.rlinks(), n, pivot),
                        forall|k: int| 0 <= k < stack@.len() ==> descends(self.rlinks(), #[trigger] stack@[k], pivot),
                        stack@ == st1 + kids@.subrange(0, j as int),
                    decreases kids@.len() - j,
                {
                    proof {
                        assert(kids@[j as int] != 0);
                        lemma_descends_step(self.rlinks(), pivot, n, kids@[j as int]);
                    }
                    stack.push(kids[j]);
                    j = j + 1;
                    assert(stack@ =~= st1 + kids@.subrange(0, j as int));
                }
                proof {
                    assert(kids@.subrange(0, j as int) =~= kids@);
                    assert forall|x: u64| st1.contains(x) implies stack@.contains(x) by {
                        let k = choose|k: int| 0 <= k < st1.len() && st1[k] == x;
                        assert(stack@[k] == x);
                    }
                    assert forall|x: u64| kids@.contains(x) implies stack@.contains(x) by {
                        let k = choose|k: int| 0 <= k < kids@.len() && kids@[k] == x;
                        assert(stack@[st1.len() + k] == x);
                    }
                    if complete {
                        assert forall|y: u64, c: u64| #![trigger visited@.contains(y), rl.dom().contains((c, y))] visited@.contains(y) && rl.dom().contains((c, y)) implies visited@.contains(c) || stack@.contains(c) by {
                            if y == n {
                                assert(is_walk(self.links(), self.rlinks(), n, kids@) && rl.dom().contains((c, n)));
                                assert(kids@.contains(c));
                            } else {
                                assert(vis0.contains(y));
                                assert(vis0.contains(c) || st0.contains(c));
                            }
                        }
                    }
                    assert(visited@.contains(pivot) || stack@.contains(pivot)) by {
                        assert(vis0.contains(pivot) || st0.contains(pivot));
                    }
                }
            }
        }
        proof {
            if complete {
                assert(visited@.contains(pivot));
                if descends(rl, subj, pivot) {
                    let s = choose|s: Seq<u64>| is_path(rl, s) && s[0] == pivot && s.last() == subj;
                    lemma_path_prefix_in(rl, visited@, s, s.len() - 1);
                }
            }
        }
        Ok(false)
    }

    /// Gives `src` the extra parent `dest`, at the head of its sibling list;
    /// refuses when `dest` is already a parent or lies below `src`.
    pub fn share(&mut self, src: u64, dest: u64) -> (r: Result<bool, StoreError>)
        ensures
            all_walks(old(self).links(), old(self).rlinks()) && head_present(old(self).links(), old(self).rlinks(), dest)
                ==> !(r matches Err(StoreError::InvalidData)),
            r matches Ok(true) && walks_complete(old(self).links(), old(self).rlinks()) ==> !descends(old(self).rlinks(), dest, src),
            r matches Ok(true) ==> final(self).rlinks().dom() == old(self).rlinks().dom().insert((src, dest)),
            r is Ok && old(self).nodes_are_linked() && old(self).nodes().dom().contains(src) ==> final(self).nodes_are_linked(),
            r is Ok && old(self).ids_below_seq() && src < old(self).id && dest < old(self).id ==> final(self).ids_below_seq(),
            r is Ok && old(self).sessions_mirror() ==> final(self).sessions_mirror(),
            r matches Ok(false) ==> *final(self) == *old(self),
            r matches Ok(false) ==> old(self).rlinks().dom().contains((src, dest)) || descends(old(self).rlinks(), dest, src),
            old(self).rlinks().dom().contains((src, dest)) || src == dest ==> !(r matches Ok(true)),
            r matches Ok(true) ==> {
                &&& final(self).links() == old(self).links().insert(dest, src)
                &&& final(self).rlinks() == push_front_rl(old(self).rlinks(), dest, src, head_of(old(self).links(), dest))
                &&& final(self).nodes() == old(self).nodes()
                &&& final(self).sessions() == old(self).sessions()
                &&& final(self).rsessions() == old(self).rsessions()
                &&& final(self).id == old(self).id
            },
    {
        if self.is_descendant_of(dest, src)? {
            return Ok(false);
        }
        if self.get_rt(src, dest)?.is_some() {
            return Ok(false);
        }
        self.link_front(dest, src)?;
        proof {
            if old(self).nodes_are_linked() && old(self).nodes().dom().contains(src) {
                assert forall|k: u64| self.nodes().dom().contains(k) <==> (k == 0 || exists|p: u64| self.rlinks().dom().contains((k, p))) by {
                    if exists|p: u64| self.rlinks().dom().contains((k, p)) {
                        let p = choose|p: u64| self.rlinks().dom().contains((k, p));
                        if k != src {
                            assert(old(self).rlinks().dom().contains((k, p)));
                        }
                    }
                    if exists|p: u64| old(self).rlinks().dom().contains((k, p)) {
                        let p = choose|p: u64| old(self).rlinks().dom().contains((k, p));
                        assert(self.rlinks().dom().contains((k, p)));
                    }
                }
            }
        }
        Ok(true)
    }

    /// Moves `src` from under `src_pid` to the head of the children of
    /// `dest`: a share followed by an unlink, or nothing when the share is
    /// refused.
    pub fn cut(&mut self, src_pid: u64, src: u64, dest: u64) -> (r: Result<bool, StoreError>)
        ensures
            all_walks(old(self).links(), old(self).rlinks()) && head_present(old(self).links(), old(self).rlinks(), dest)
                && unlinkable(old(self).rlinks(), src_pid, src) ==> !(r matches Err(StoreError::InvalidData)),
            r matches Ok(true) && walks_complete(old(self).links(), old(self).rlinks()) ==> !descends(old(self).rlinks(), dest, src),
            r is Ok && old(self).nodes_are_linked() && old(self).nodes().dom().contains(src) ==> final(self).nodes_are_linked(),
            r is Ok && old(self).ids_below_seq() && src < old(self).id && dest < old(self).id ==> final(self).ids_below_seq(),
            r is Ok && old(self).sessions_mirror() ==> final(self).sessions_mirror(),
            r matches Ok(false) ==> *final(self) == *old(self),
            r matches Ok(false) ==> old(self).rlinks().dom().contains((src, dest)) || descends(old(self).rlinks(), dest, src),
            old(self).rlinks().dom().contains((src, dest)) || src == dest ==> !(r matches Ok(true)),
            r matches Ok(true) ==> {
                let l1 = old(self).links().insert(dest, src);
                let r1 = push_front_rl(old(self).rlinks(), dest, src, head_of(old(self).links(), dest));
                &&& r1.dom().contains((src, src_pid))
                &&& final(self).links() == unlink_links(l1, r1, src_pid, src)
                &&& final(self).rlinks() == unlink_rl(r1, src_pid, src)
                &&& final(self).nodes() == old(self).nodes()
                &&& final(self).sessions() == old(self).sessions()
                &&& final(self).rsessions() == old(self).rsessions()
                &&& final(self).id == old(self).id
            },
    {
        if !self.share(src, dest)? {
            return Ok(false);
        }
        let ghost mid = self.rlinks();
        let ghost mid_nodes = self.nodes();
        self.unlink(src_pid, src)?;
        proof {
            if old(self).nodes_are_linked() && old(self).nodes().dom().contains(src) {
                assert(mid.dom() == old(self).rlinks().dom().insert((src, dest)));
                assert(!old(self).rlinks().dom().contains((src, dest)));
                assert(self.rlinks().dom() == mid.dom().remove((src, src_pid)));
                assert forall|k: u64| self.nodes().dom().contains(k) <==> (k == 0 || exists|p: u64| self.rlinks().dom().contains((k, p))) by {
                    if k == src && k != 0 {
                        let q = choose|q: u64| old(self).rlinks().dom().contains((src, q));
                        if q != src_pid {
                            assert(self.rlinks().dom().contains((src, q)));
                        } else {
                            assert(dest != src_pid);
                            assert(self.rlinks().dom().contains((src, dest)));
                        }
                    }
                    if exists|p: u64| self.rlinks().dom().contains((k, p)) {
                        let p = choose|p: u64| self.rlinks().dom().contains((k, p));
                        if k != src {
                            assert(old(self).rlinks().dom().contains((k, p)));
                        }
                    }
                    if exists|p: u64| old(self).rlinks().dom().contains((k, p)) {
                        let p = choose|p: u64| old(self).rlinks().dom().contains((k, p));
                        if k != src {
                            assert(self.rlinks().dom().contains((k, p)));
                        }
                    }
                }
            }
        }
        Ok(true)
    }

    /// Erases the payload and the sessions of `c`, and returns its children.
    fn purge(&mut self, c: u64) -> (r: Result<Vec<u64>, StoreError>)
        ensures
            r matches Ok(v) ==> is_walk(old(self).links(), old(self).rlinks(), c, v@),
            r is Ok ==> final(self).nodes() == old(self).nodes().remove(c),
            r is Ok ==> final(self).links() == old(self).links(),
            r is Ok ==> final(self).rlinks() == old(self).rlinks(),
            r is Ok ==> final(self).sessions() == old(self).sessions().filter(|e: (u64, Seq<u8>)| e.0 != c),
            r is Ok && old(self).sessions_mirror() ==> final(self).sessions_mirror(),
            r is Ok ==> final(self).rsessions() == old(self).rsessions().filter(
                |e: (Seq<u8>, u64)| !(e.1 == c && old(self).sessions().contains((c, e.0))),
            ),
            final(self).id == old(self).id,
    {
        if let Some(v) = self.read(c)? {
            lift(self.tables.nodes_del(c, v.as_slice()))?;
        }
        assert(self.nodes() =~= old(self).nodes().remove(c));
        let all = lift(self.tables.sessions_from(c))?;
        let ghost s0 = self.sessions();
        let mut i: usize = 0;
        while i < all.len() && all[i].0 == c
            invariant
                i <= all@.len(),
                forall|j: int| 0 <= j < all@.len() ==> s0.contains((#[trigger] all@[j].0, all@[j].1@)) && all@[j].0 >= c,
                forall|e: (u64, Seq<u8>)| #[trigger] s0.contains(e) && e.0 >= c ==> exists|k: int| 0 <= k < all@.len() && all@[k].0 == e.0 && all@[k].1@ == e.1,
                forall|a: int, b: int| 0 <= a <= b < all@.len() ==> all@[a].0 <= all@[b].0,
                forall|j: int| 0 <= j < i ==> #[trigger] all@[j].0 == c,
                forall|e: (u64, Seq<u8>)| #[trigger] self.sessions().contains(e) <==> s0.contains(e) && !(e.0 == c && exists|j: int| 0 <= j < i && all@[j].1@ == e.1),
                forall|e: (Seq<u8>, u64)| #[trigger] self.rsessions().contains(e) <==> old(self).rsessions().contains(e) && !(e.1 == c && exists|j: int| 0 <= j < i && all@[j].1@ == e.0),
                s0 == old(self).sessions(),
                self.nodes() == old(self).nodes().remove(c),
                self.links() == old(self).links(),
                self.rlinks() == old(self).rlinks(),
                self.id == old(self).id,
            decreases all@.len() - i,
        {
            let key = all[i].1;
            let ghost ss = self.sessions();
            let ghost rs = self.rsessions();
            lift(self.tables.sessions_del(c, key))?;
            lift(self.tables.rsessions_del(key, c))?;
            proof {
                let ki = all@[i as int].1@;
                assert forall|e: (u64, Seq<u8>)| #[trigger] self.sessions().contains(e) <==> s0.contains(e)
                    && !(e.0 == c && exists|j: int| 0 <= j < i + 1 && all@[j].1@ == e.1) by {
                    if e.0 == c && e.1 == ki {
                        assert(0 <= i < i + 1 && all@[i as int].1@ == e.1);
                    } else if e.0 == c && exists|j: int| 0 <= j < i + 1 && all@[j].1@ == e.1 {
                        let j = choose|j: int| 0 <= j < i + 1 && all@[j].1@ == e.1;
                        assert(j < i);
                    }
                    assert(ss.contains(e) <==> s0.contains(e) && !(e.0 == c && exists|j: int| 0 <= j < i && all@[j].1@ == e.1));
                }
                assert forall|e: (Seq<u8>, u64)| #[trigger] self.rsessions().contains(e) <==> old(self).rsessions().contains(e)
                    && !(e.1 == c && exists|j: int| 0 <= j < i + 1 && all@[j].1@ == e.0) by {
                    if e.1 == c && e.0 == ki {
                        assert(0 <= i < i + 1 && all@[i as int].1@ == e.0);
                    } else if e.1 == c && exists|j: int| 0 <= j < i + 1 && all@[j].1@ == e.0 {
                        let j = choose|j: int| 0 <= j < i + 1 && all@[j].1@ == e.0;
                        assert(j < i);
                    }
                    assert(rs.contains(e) <==> old(self).rsessions().contains(e) && !(e.1 == c && exists|j: int| 0 <= j < i && all@[j].1@ == e.0));
                }
            }
            i = i + 1;
        }
        proof {
            assert forall|k: Seq<u8>| s0.contains((c, k)) implies exists|j: int| 0 <= j < i && all@[j].1@ == k by {
                let e = (c, k);
                assert(s0.contains(e) && e.0 >= c);
                let j = choose|j: int| 0 <= j < all@.len() && all@[j].0 == e.0 && all@[j].1@ == e.1;
                if j >= i {
                    assert(all@[i as int].0 <= all@[j].0);
                    assert(s0.contains((all@[i as int].0, all@[i as int].1@)));
                    assert(false);
                }
            }
            assert forall|j: int| 0 <= j < i implies s0.contains((c, #[trigger] all@[j].1@)) by {
                assert(s0.contains((all@[j].0, all@[j].1@)));
            }
            assert(self.sessions() =~= s0.filter(|e: (u64, Seq<u8>)| e.0 != c));
            assert(self.rsessions() =~= old(self).rsessions().filter(
                |e: (Seq<u8>, u64)| !(e.1 == c && old(self).sessions().contains((c, e.0))),
            ));
        }
        let kids = self.child_ids(c)?;
        Ok(kids)
    }

    /// Removes `id` from the children of `pid`. A node left without parents
    /// loses its payload and sessions, and its children are removed from it
    /// in turn; the root (id 0) always stays.
    pub fn delete(&mut self, pid: u64, id: u64) -> (r: Result<(), StoreError>)
        requires
            old(self).rlinks().dom().finite(),
        ensures
            r is Ok ==> forall|c: u64, q: u64| #[trigger] old(self).rlinks().dom().contains((c, q)) && (c, q) != (id, pid)
                && final(self).nodes().dom().contains(q) ==> final(self).rlinks().dom().contains((c, q)),
            r is Ok ==> forall|k: u64| #[trigger] final(self).nodes().dom().contains(k) ==> old(self).nodes().dom().contains(k)
                && final(self).nodes()[k] == old(self).nodes()[k],
            r is Ok ==> forall|k: u64, t: Seq<u8>| #[trigger] final(self).sessions().contains((k, t)) ==> final(self).nodes().dom().contains(k)
                || !old(self).nodes().dom().contains(k),
            unlinkable(old(self).rlinks(), pid, id) && (id == 0 || exists|q: u64| q != pid && old(self).rlinks().dom().contains((id, q)))
                ==> !(r matches Err(StoreError::InvalidData)),
            r is Ok && old(self).nodes_are_linked() ==> final(self).nodes_are_linked(),
            r is Ok && old(self).ids_below_seq() ==> final(self).ids_below_seq(),
            r is Ok && old(self).sessions_mirror() ==> final(self).sessions_mirror(),
            r is Ok ==> old(self).rlinks().dom().contains((id, pid)),
            r is Ok ==> !final(self).rlinks().dom().contains((id, pid)),
            r is Ok ==> final(self).rlinks().dom().subset_of(old(self).rlinks().dom()),
            r is Ok ==> final(self).nodes().dom().subset_of(old(self).nodes().dom()),
            r is Ok ==> final(self).sessions().subset_of(old(self).sessions()),
            r is Ok && (exists|q: u64| q != pid && old(self).rlinks().dom().contains((id, q))) ==> {
                &&& final(self).rlinks() == unlink_rl(old(self).rlinks(), pid, id)
                &&& final(self).links() == unlink_links(old(self).links(), old(self).rlinks(), pid, id)
                &&& final(self).nodes() == old(self).nodes()
                &&& final(self).sessions() == old(self).sessions()
                &&& final(self).rsessions() == old(self).rsessions()
            },
            r is Ok && id != 0 && !(exists|q: u64| q != pid && old(self).rlinks().dom().contains((id, q))) ==> {
                &&& !final(self).nodes().dom().contains(id)
                &&& forall|k: Seq<u8>| !final(self).sessions().contains((id, k))
            },
            r is Ok && id != 0 && !(exists|q: u64| q != pid && old(self).rlinks().dom().contains((id, q)))
                && !old(self).links().dom().contains(id) && pid != id ==> {
                &&& final(self).rlinks() == unlink_rl(old(self).rlinks(), pid, id)
                &&& final(self).links() == unlink_links(old(self).links(), old(self).rlinks(), pid, id)
                &&& final(self).nodes() == old(self).nodes().remove(id)
                &&& final(self).sessions() == old(self).sessions().filter(|e: (u64, Seq<u8>)| e.0 != id)
                &&& final(self).rsessions() == old(self).rsessions().filter(
                    |e: (Seq<u8>, u64)| !(e.1 == id && old(self).sessions().contains((id, e.0))),
                )
            },
            final(self).id == old(self).id,
    {
        self.unlink(pid, id)?;
        let ghost rl1 = self.rlinks();
        let any = lift(self.tables.rlinks_any(id))?;
        if let Some(k) = any {
            if k == id {
                proof {
                    let q = choose|q: u64| rl1.dom().contains((id, q));
                    assert(q != pid);
                    assert(old(self).rlinks().dom().contains((id, q)));
                    if old(self).nodes_are_linked() {
                        lemma_unlink_keeps_linked(old(self).nodes(), old(self).rlinks(), rl1, id, pid);
                    }
                }
                return Ok(());
            }
        }
        if id == 0 {
            proof {
                if old(self).nodes_are_linked() {
                    lemma_unlink_keeps_linked(old(self).nodes(), old(self).rlinks(), rl1, id, pid);
                }
            }
            return Ok(());
        }
        proof {
            assert forall|q: u64| q != pid implies !old(self).rlinks().dom().contains((id, q)) by {
                if old(self).rlinks().dom().contains((id, q)) {
                    assert(rl1.dom().contains((id, q)));
                }
            }
        }
        let ghost l1 = self.links();
        let ghost s1 = self.sessions();
        proof {
            if old(self).nodes_are_linked() {
                assert forall|q: u64| !rl1.dom().contains((id, q)) by {
                    if rl1.dom().contains((id, q)) {
                        assert(old(self).rlinks().dom().contains((id, q)));
                    }
                }
                lemma_orphan_keeps_linked(old(self).nodes(), old(self).rlinks(), rl1, id, pid);
            }
        }
        let kids = self.purge(id)?;
        if kids.len() == 0 {
            return Ok(());
        }
        proof {
            if !old(self).links().dom().contains(id) && pid != id {
                assert(!l1.dom().contains(id));
                assert(false);
            }
        }
        let mut work: Vec<(u64, u64)> = Vec::new();
        let mut j: usize = 0;
        while j < kids.len()
            invariant
                j <= kids@.len(),
                work@.len() == j,
                forall|k: int| 0 <= k < j ==> #[trigger] work@[k] == (id, kids@[k]),
            decreases kids@.len() - j,
        {
            work.push((id, kids[j]));
            j = j + 1;
        }
        while work.len() > 0
            invariant
                self.rlinks().dom().finite(),
                self.rlinks().dom().subset_of(old(self).rlinks().dom()),
                !self.rlinks().dom().contains((id, pid)),
                self.nodes().dom().subset_of(old(self).nodes().dom()),
                !self.nodes().dom().contains(id),
                self.sessions().subset_of(old(self).sessions()),
                forall|k: Seq<u8>| !self.sessions().contains((id, k)),
                self.id == old(self).id,
                old(self).ids_below_seq() ==> self.ids_below_seq(),
                old(self).sessions_mirror() ==> self.sessions_mirror(),
                old(self).nodes_are_linked() ==> self.nodes_are_linked(),
                id != 0,
                forall|q: u64| q != pid ==> !old(self).rlinks().dom().contains((id, q)),
                forall|k: u64| #[trigger] self.nodes().dom().contains(k) ==> old(self).nodes().dom().contains(k)
                    && self.nodes()[k] == old(self).nodes()[k],
                forall|k: u64, t: Seq<u8>| #[trigger] self.sessions().contains((k, t)) ==> self.nodes().dom().contains(k)
                    || !old(self).nodes().dom().contains(k),
                forall|c: u64, q: u64| #[trigger] old(self).rlinks().dom().contains((c, q)) && (c, q) != (id, pid)
                    && self.nodes().dom().contains(q) ==> self.rlinks().dom().contains((c, q)),
                forall|k: int| 0 <= k < work@.len() ==> !self.nodes().dom().contains(#[trigger] work@[k].0),
            decreases self.rlinks().dom().len(),
        {
            let ghost wk = work@;
            let (p, c) = work.pop().unwrap();
            assert(wk[wk.len() - 1] == (p, c));
            assert(!self.nodes().dom().contains(p));
            let ghost before = self.rlinks().dom();
            let ghost rl_b = self.rlinks();
            let ghost n_b = self.nodes();
            self.unlink(p, c)?;
            let ghost rl_a = self.rlinks();
            proof {
                assert(before.contains((c, p)));
                assert(before.remove((c, p)).len() == before.len() - 1);
                assert(self.rlinks().dom().len() < before.len());
            }
            let any = lift(self.tables.rlinks_any(c))?;
            let orphan = match any {
                Some(k) => k != c,
                None => true,
            };
            proof {
                if old(self).nodes_are_linked() && !(orphan && c != 0) {
                    lemma_unlink_keeps_linked(n_b, rl_b, rl_a, c, p);
                }
            }
            if orphan && c != 0 {
                let ghost sb = self.sessions();
                proof {
                    if old(self).nodes_are_linked() {
                        lemma_orphan_keeps_linked(n_b, rl_b, rl_a, c, p);
                    }
                }
                let grand = self.purge(c)?;
                assert(self.sessions().subset_of(sb));
                let mut g: usize = 0;
                let ghost w0 = work@;
                assert forall|k: int| 0 <= k < w0.len() implies !self.nodes().dom().contains(#[trigger] w0[k].0) by {
                    assert(w0[k] == wk[k]);
                }
                while g < grand.len()
                    invariant
                        g <= grand@.len(),
                        !self.nodes().dom().contains(c),
                        forall|k: int| 0 <= k < work@.len() ==> !self.nodes().dom().contains(#[trigger] work@[k].0),
                    decreases grand@.len() - g,
                {
                    work.push((c, grand[g]));
                    g = g + 1;
                }
            }
        }
        Ok(())
    }

    /// Publishes the indexes and the id sequence.
    pub fn commit(self) -> (r: Result<(), StoreError>) {
        lift(self.tables.commit(root_slots(), self.id))
    }
}

impl StoreReader {
    /// The head of the sibling list of `id`.
    pub fn get_child(&self, id: u64) -> (r: Result<Option<u64>, StoreError>)
        ensures
            r is Err ==> r->Err_0 is Store,
            r matches Ok(o) ==> o == if self.links().dom().contains(id) {
                Some(self.links()[id])
            } else {
                None
            },
    {
        match lift(self.tables.links_get(id))? {
            Some((k, v)) => {
                if k == id {
                    Ok(Some(v))
                } else {
                    Ok(None)
                }
            },
            None => Ok(None),
        }
    }

    /// The (next, prev) siblings of child `c` under parent `p`.
    pub fn get_rt(&self, c: u64, p: u64) -> (r: Result<Option<(u64, u64)>, StoreError>)
        ensures
            r is Err ==> r->Err_0 is Store,
            r matches Ok(o) ==> o == if self.rlinks().dom().contains((c, p)) {
                Some(self.rlinks()[(c, p)])
            } else {
                None
            },
    {
        let key = triple_key(p, 0, 0);
        match lift(self.tables.rlinks_get(c, key.as_slice()))? {
            Some((k, v)) => {
                if k == c && v.len() == 24 {
                    let (q, n, pr) = triple_from(v.as_slice());
                    if q == p {
                        Ok(Some((n, pr)))
                    } else {
                        Ok(None)
                    }
                } else {
                    Ok(None)
                }
            },
            None => Ok(None),
        }
    }

    /// The children of `id` in sibling order.
    pub fn child_ids(&self, id: u64) -> (r: Result<Vec<u64>, StoreError>)
        ensures
            r matches Ok(v) ==> is_walk(self.links(), self.rlinks(), id, v@),
            has_walk(self.links(), self.rlinks(), id) ==> !(r matches Err(StoreError::InvalidData)),
    {
        let ghost hw = has_walk(self.links(), self.rlinks(), id);
        let ghost w = if hw {
            choose|w: Seq<u64>| is_walk(self.links(), self.rlinks(), id, w)
        } else {
            Seq::<u64>::empty()
        };
        let mut cur: u64 = match self.get_child(id)? {
            Some(h) => h,
            None => 0,
        };
        let mut v: Vec<u64> = Vec::new();
        proof {
            if hw && w.len() > 0 {
                assert(w[0] != 0);
            }
        }
        // No list of a store comes near 2^64 entries: running out of steps
        // means a cycle, which is corruption.
        let mut fuel: u64 = u64::MAX;
        while cur != 0
            invariant
                v@.len() == 0 ==> cur == head_of(self.links(), id),
                v@.len() > 0 ==> self.links().dom().contains(id) && self.links()[id] == v@[0],
                forall|k: int|
                    0 <= k < v@.len() ==> {
                        &&& #[trigger] v@[k] != 0
                        &&& self.rlinks().dom().contains((v@[k], id))
                        &&& self.rlinks()[(v@[k], id)].0 == if k + 1 < v@.len() {
                            v@[k + 1]
                        } else {
                            cur
                        }
                    },
                hw == has_walk(self.links(), self.rlinks(), id),
                hw ==> is_walk(self.links(), self.rlinks(), id, w),
                hw ==> v@.len() <= w.len() && v@ == w.subrange(0, v@.len() as int) && cur == if v@.len() < w.len() {
                    w[v@.len() as int]
                } else {
                    0
                },
            decreases fuel,
        {
            if fuel == 0 {
                return Err(StoreError::StepLimit);
            }
            fuel = fuel - 1;
            proof {
                if hw {
                    assert(v@.len() < w.len());
                    assert(w[v@.len() as int] != 0);
                }
            }
            let (next, _) = match self.get_rt(cur, id)? {
                Some(t) => t,
                None => {
                    return Err(StoreError::InvalidData);
                },
            };
            let ghost k = v@.len() as int;
            v.push(cur);
            cur = next;
            proof {
                if hw {
                    assert(v@ =~= w.subrange(0, v@.len() as int));
                }
            }
        }
        Ok(v)
    }

    /// The children of `id` with their payloads, in sibling order.
    pub fn children(&self, id: u64) -> (r: Result<Vec<(u64, Vec<u8>)>, StoreError>)
        ensures
            r matches Ok(v) ==> is_walk(self.links(), self.rlinks(), id, v@.map_values(|e: (u64, Vec<u8>)| e.0)),
            r matches Ok(v) ==> forall|k: int| 0 <= k < v@.len() ==> self.nodes().dom().contains(#[trigger] v@[k].0)
                && v@[k].1@ == self.nodes()[v@[k].0],
    {
        let ids = self.child_ids(id)?;
        let mut out: Vec<(u64, Vec<u8>)> = Vec::new();
        let mut i: usize = 0;
        while i < ids.len()
            invariant
                i <= ids@.len(),
                out@.len() == i,
                forall|k: int| 0 <= k < i ==> (#[trigger] out@[k]).0 == ids@[k],
                forall|k: int| 0 <= k < i ==> self.nodes().dom().contains(#[trigger] out@[k].0)
                    && out@[k].1@ == self.nodes()[out@[k].0],
            decreases ids@.len() - i,
        {
            let data = match self.read(ids[i])? {
                Some(d) => d,
                None => {
                    return Err(StoreError::InvalidData);
                },
            };
            out.push((ids[i], data));
            i = i + 1;
        }
        assert(out@.map_values(|e: (u64, Vec<u8>)| e.0) =~= ids@);
        Ok(out)
    }
}

} // verus!
