use vstd::prelude::*;
use crate::store::{descends, head_of, is_path, is_walk, walks_complete, move_down_links, move_down_rl, move_up_links, move_up_rl, push_front_rl, unlink_links, unlink_rl};

verus! {

/// The sibling list of `p` is well anchored: a list head is never 0, and
/// it is a child of `p` with no predecessor.
pub open spec fn head_ok(l: Map<u64, u64>, rl: Map<(u64, u64), (u64, u64)>, p: u64) -> bool {
    l.dom().contains(p) ==> l[p] != 0 && rl.dom().contains((l[p], p)) && rl[(l[p], p)].1 == 0
}

/// Putting a child `c` at the head of the sibling list of `p` and unlinking
/// it again gives back the list heads and the reverse links as they were.
pub proof fn lemma_link_then_unlink(l: Map<u64, u64>, rl: Map<(u64, u64), (u64, u64)>, p: u64, c: u64)
    requires
        head_ok(l, rl, p),
        !rl.dom().contains((c, p)),
    ensures
        push_front_rl(rl, p, c, head_of(l, p)).dom().contains((c, p)),
        unlink_rl(push_front_rl(rl, p, c, head_of(l, p)), p, c) == rl,
        unlink_links(l.insert(p, c), push_front_rl(rl, p, c, head_of(l, p)), p, c) == l,
{
    let h = head_of(l, p);
    let rl1 = push_front_rl(rl, p, c, h);
    assert(rl1[(c, p)] == (h, 0u64));
    if h != 0 {
        assert(rl.dom().contains((h, p)));
        assert(c != h);
        assert(unlink_rl(rl1, p, c) =~= rl);
        assert(l.insert(p, c).insert(p, h) =~= l);
    } else {
        assert(unlink_rl(rl1, p, c) =~= rl);
        assert(l.insert(p, c).remove(p) =~= l);
    }
}

/// Adding a child with a fresh id and deleting it again restores the
/// indexes: the composition of what `add_child` and `delete` state is the
/// identity on the list heads, the reverse links, the payloads and the
/// sessions, and the deleted node had no other parent and no children.
pub proof fn lemma_add_then_delete_restores(
    l: Map<u64, u64>,
    rl: Map<(u64, u64), (u64, u64)>,
    nodes: Map<u64, Seq<u8>>,
    sessions: Set<(u64, Seq<u8>)>,
    p: u64,
    id: u64,
    x: Seq<u8>,
)
    requires
        head_ok(l, rl, p),
        id != p,
        forall|q: u64| !rl.dom().contains((id, q)),
        !l.dom().contains(id),
        !nodes.dom().contains(id),
        forall|k: Seq<u8>| !sessions.contains((id, k)),
    ensures
        ({
            let rl1 = push_front_rl(rl, p, id, head_of(l, p));
            let l1 = l.insert(p, id);
            &&& !(exists|q: u64| q != p && rl1.dom().contains((id, q)))
            &&& !l1.dom().contains(id)
            &&& unlink_rl(rl1, p, id) == rl
            &&& unlink_links(l1, rl1, p, id) == l
            &&& nodes.insert(id, x).remove(id) == nodes
            &&& sessions.filter(|e: (u64, Seq<u8>)| e.0 != id) == sessions
        }),
{
    lemma_link_then_unlink(l, rl, p, id);
    let rl1 = push_front_rl(rl, p, id, head_of(l, p));
    assert forall|q: u64| q != p implies !rl1.dom().contains((id, q)) by {
        assert(!rl.dom().contains((id, q)));
    }
    assert(nodes.insert(id, x).remove(id) =~= nodes);
    assert forall|e: (u64, Seq<u8>)| sessions.contains(e) implies e.0 != id by {
        if e.0 == id {
            assert(sessions.contains((id, e.1)));
        }
    }
    assert(sessions.filter(|e: (u64, Seq<u8>)| e.0 != id) =~= sessions);
}

/// Sharing `s` under `d` and then removing `d` from the parents of `s`
/// (an unlink, which is what `delete` does to a node that keeps another
/// parent) restores the list heads and the reverse links.
pub proof fn lemma_share_then_unparent_restores(l: Map<u64, u64>, rl: Map<(u64, u64), (u64, u64)>, s: u64, d: u64)
    requires
        head_ok(l, rl, d),
        !rl.dom().contains((s, d)),
    ensures
        unlink_rl(push_front_rl(rl, d, s, head_of(l, d)), d, s) == rl,
        unlink_links(l.insert(d, s), push_front_rl(rl, d, s, head_of(l, d)), d, s) == l,
{
    lemma_link_then_unlink(l, rl, d, s);
}

/// The sibling list of `p` is consistent around `c`, which has a
/// predecessor: its neighbours point back at it, its predecessor's
/// predecessor points at that one (or that one is the head), and the
/// ids involved are distinct.
pub open spec fn movable_up(l: Map<u64, u64>, rl: Map<(u64, u64), (u64, u64)>, p: u64, c: u64) -> bool {
    let n = rl[(c, p)].0;
    let pr = rl[(c, p)].1;
    let pp = rl[(pr, p)].1;
    &&& rl.dom().contains((c, p))
    &&& pr != 0
    &&& rl.dom().contains((pr, p))
    &&& rl[(pr, p)].0 == c
    &&& n != 0 ==> rl.dom().contains((n, p)) && rl[(n, p)].1 == c
    &&& pp != 0 ==> rl.dom().contains((pp, p)) && rl[(pp, p)].0 == pr
    &&& pp == 0 ==> l.dom().contains(p) && l[p] == pr
    &&& c != pr && c != n && c != pp && pr != n && pr != pp && (n != 0 ==> n != pp)
}

/// Moving `c` up and then down again restores its sibling list.
pub proof fn lemma_move_up_then_down(l: Map<u64, u64>, rl: Map<(u64, u64), (u64, u64)>, p: u64, c: u64)
    requires
        movable_up(l, rl, p, c),
    ensures
        move_up_rl(rl, p, c)[(c, p)].0 != 0,
        move_down_rl(move_up_rl(rl, p, c), p, c) == rl,
        move_down_links(move_up_links(l, rl, p, c), move_up_rl(rl, p, c), p, c) == l,
{
    let n = rl[(c, p)].0;
    let pr = rl[(c, p)].1;
    let pp = rl[(pr, p)].1;
    let rl1 = move_up_rl(rl, p, c);
    assert(rl1[(c, p)] == (pr, pp));
    assert(rl1[(pr, p)] == (n, c));
    if n != 0 {
        assert(rl1[(n, p)] == (rl[(n, p)].0, pr));
    }
    if pp != 0 {
        assert(rl1[(pp, p)] == (c, rl[(pp, p)].1));
    }
    assert(move_down_rl(rl1, p, c) =~= rl);
    if pp == 0 {
        assert(l.insert(p, c).insert(p, pr) =~= l);
    }
}

/// The sibling list of `p` is well formed with walk `v`: walking from its
/// head along next-pointers gives `v`, each child once; every child that
/// RLINKS records under `p` is in it; and each prev-pointer names the
/// element before (0 for the head).
pub open spec fn list_ok(l: Map<u64, u64>, rl: Map<(u64, u64), (u64, u64)>, p: u64, v: Seq<u64>) -> bool {
    &&& is_walk(l, rl, p, v)
    &&& v.no_duplicates()
    &&& forall|c: u64| rl.dom().contains((c, p)) ==> v.contains(c)
    &&& forall|k: int| 0 <= k < v.len() ==> rl[(#[trigger] v[k], p)].1 == if k == 0 {
        0
    } else {
        v[k - 1]
    }
}

/// Putting a new child at the head of a well-formed sibling list (as
/// `add_child` and `share` do) gives a well-formed list that walks the new
/// child first, then the old list; the lists of other parents keep their
/// walks.
pub proof fn lemma_push_front_keeps_list(
    l: Map<u64, u64>,
    rl: Map<(u64, u64), (u64, u64)>,
    p: u64,
    c: u64,
    v: Seq<u64>,
    q: u64,
    w: Seq<u64>,
)
    requires
        list_ok(l, rl, p, v),
        !rl.dom().contains((c, p)),
        c != 0,
        q != p ==> list_ok(l, rl, q, w),
    ensures
        list_ok(l.insert(p, c), push_front_rl(rl, p, c, head_of(l, p)), p, seq![c] + v),
        q != p ==> list_ok(l.insert(p, c), push_front_rl(rl, p, c, head_of(l, p)), q, w),
{
    let h = head_of(l, p);
    let l2 = l.insert(p, c);
    let rl2 = push_front_rl(rl, p, c, h);
    let v2 = seq![c] + v;
    assert(v.len() > 0 ==> h == v[0]);
    assert(v.len() == 0 ==> h == 0);
    assert(!v.contains(c)) by {
        if v.contains(c) {
            let k = choose|k: int| 0 <= k < v.len() && v[k] == c;
            assert(rl.dom().contains((v[k], p)));
        }
    }
    assert forall|k: int| 0 <= k < v2.len() implies {
        &&& #[trigger] v2[k] != 0
        &&& rl2.dom().contains((v2[k], p))
        &&& rl2[(v2[k], p)].0 == if k + 1 < v2.len() { v2[k + 1] } else { 0 }
    } by {
        if k > 0 {
            assert(v2[k] == v[k - 1]);
            assert(v[k - 1] != c);
            if k + 1 < v2.len() {
                assert(v2[k + 1] == v[k]);
            }
        } else if v.len() > 0 {
            assert(v2[1] == v[0]);
        }
    }
    assert(is_walk(l2, rl2, p, v2));
    assert forall|a: int, b: int| 0 <= a < b < v2.len() implies v2[a] != v2[b] by {
        if a == 0 {
            assert(v2[b] == v[b - 1]);
        } else {
            assert(v2[a] == v[a - 1] && v2[b] == v[b - 1]);
        }
    }
    assert forall|x: u64| rl2.dom().contains((x, p)) implies v2.contains(x) by {
        if x == c {
            assert(v2[0] == c);
        } else {
            if v.len() > 0 {
                assert(rl.dom().contains((v[0], p)));
            }
            assert(rl.dom().contains((x, p)));
            assert(v.contains(x));
            let k = choose|k: int| 0 <= k < v.len() && v[k] == x;
            assert(v2[k + 1] == x);
        }
    }
    assert forall|k: int| 0 <= k < v2.len() implies rl2[(#[trigger] v2[k], p)].1 == if k == 0 {
        0
    } else {
        v2[k - 1]
    } by {
        if k == 1 {
            assert(v2[1] == v[0]);
        } else if k > 1 {
            assert(v2[k] == v[k - 1]);
            assert(v2[k - 1] == v[k - 2]);
            assert(v[k - 1] != v[0]);
            assert(v[k - 1] != c);
        }
    }
    if q != p {
        assert forall|k: int| 0 <= k < w.len() implies {
            &&& #[trigger] w[k] != 0
            &&& rl2.dom().contains((w[k], q))
            &&& rl2[(w[k], q)].0 == if k + 1 < w.len() { w[k + 1] } else { 0 }
        } by {
        }
        assert(is_walk(l2, rl2, q, w));
        assert forall|x: u64| rl2.dom().contains((x, q)) implies w.contains(x) by {
            assert(rl.dom().contains((x, q)));
        }
        assert forall|k: int| 0 <= k < w.len() implies rl2[(#[trigger] w[k], q)].1 == if k == 0 {
            0
        } else {
            w[k - 1]
        } by {
        }
    }
}

/// Unlinking a child from a well-formed sibling list (as `delete` and
/// `cut` do) gives a well-formed list that walks the old one without it;
/// the lists of other parents keep their walks.
pub proof fn lemma_unlink_keeps_list(
    l: Map<u64, u64>,
    rl: Map<(u64, u64), (u64, u64)>,
    p: u64,
    v: Seq<u64>,
    m: int,
    q: u64,
    w: Seq<u64>,
)
    requires
        list_ok(l, rl, p, v),
        0 <= m < v.len(),
        q != p ==> list_ok(l, rl, q, w),
    ensures
        list_ok(unlink_links(l, rl, p, v[m]), unlink_rl(rl, p, v[m]), p, v.remove(m)),
        q != p ==> list_ok(unlink_links(l, rl, p, v[m]), unlink_rl(rl, p, v[m]), q, w),
{
    let c = v[m];
    let n = rl[(c, p)].0;
    let pr = rl[(c, p)].1;
    let l2 = unlink_links(l, rl, p, c);
    let rl2 = unlink_rl(rl, p, c);
    let v2 = v.remove(m);
    assert(n == if m + 1 < v.len() { v[m + 1] } else { 0 });
    assert(pr == if m == 0 { 0 } else { v[m - 1] });
    assert forall|k: int| 0 <= k < v2.len() implies #[trigger] v2[k] == if k < m { v[k] } else { v[k + 1] } by {
    }
    assert forall|k: int| 0 <= k < v.len() && k != m implies v[k] != c && rl.dom().contains((#[trigger] v[k], p)) by {
    }
    assert forall|k: int| 0 <= k < v2.len() implies {
        &&& #[trigger] v2[k] != 0
        &&& rl2.dom().contains((v2[k], p))
        &&& rl2[(v2[k], p)].0 == if k + 1 < v2.len() { v2[k + 1] } else { 0 }
        &&& rl2[(v2[k], p)].1 == if k == 0 { 0 } else { v2[k - 1] }
    } by {
        let j = if k < m { k } else { k + 1 };
        assert(v2[k] == v[j]);
        assert(j != m);
        if j > 0 {
            assert(v[j] != v[j - 1]);
        }
        if j + 1 < v.len() {
            assert(v[j] != v[j + 1]);
        }
        if m > 0 && j != m - 1 {
            assert(v[j] != v[m - 1]);
        }
        if m + 1 < v.len() && j != m + 1 {
            assert(v[j] != v[m + 1]);
        }
        if m > 0 && m + 1 < v.len() {
            assert(v[m - 1] != v[m + 1]);
        }
        if k + 1 < v2.len() {
            assert(v2[k + 1] == if k + 1 < m { v[k + 1] } else { v[k + 2] });
        }
        if k > 0 {
            assert(v2[k - 1] == if k - 1 < m { v[k - 1] } else { v[k] });
        }
    }
    if m == 0 {
        if v2.len() > 0 {
            assert(v2[0] == v[1]);
        }
    } else {
        assert(v2[0] == v[0]);
    }
    assert(is_walk(l2, rl2, p, v2));
    assert forall|x: u64| rl2.dom().contains((x, p)) implies v2.contains(x) by {
        if m > 0 {
            assert(rl.dom().contains((v[m - 1], p)));
        }
        if m + 1 < v.len() {
            assert(rl.dom().contains((v[m + 1], p)));
        }
        assert(rl.dom().contains((x, p)));
        assert(v.contains(x));
        let k = choose|k: int| 0 <= k < v.len() && v[k] == x;
        assert(k != m);
        if k < m {
            assert(v2[k] == x);
        } else {
            assert(v2[k - 1] == x);
        }
    }
    assert forall|a: int, b: int| 0 <= a < b < v2.len() implies v2[a] != v2[b] by {
        let ja = if a < m { a } else { a + 1 };
        let jb = if b < m { b } else { b + 1 };
        assert(v2[a] == v[ja] && v2[b] == v[jb]);
    }
    if q != p {
        assert forall|k: int| 0 <= k < w.len() implies {
            &&& #[trigger] w[k] != 0
            &&& rl2.dom().contains((w[k], q))
            &&& rl2[(w[k], q)].0 == if k + 1 < w.len() { w[k + 1] } else { 0 }
        } by {
        }
        assert(is_walk(l2, rl2, q, w));
        assert forall|x: u64| rl2.dom().contains((x, q)) implies w.contains(x) by {
            if m > 0 {
                assert(rl.dom().contains((v[m - 1], p)));
            }
            if m + 1 < v.len() {
                assert(rl.dom().contains((v[m + 1], p)));
            }
            assert(rl.dom().contains((x, q)));
        }
        assert forall|k: int| 0 <= k < w.len() implies rl2[(#[trigger] w[k], q)].1 == if k == 0 {
            0
        } else {
            w[k - 1]
        } by {
        }
    }
}

/// Moving a child up in a well-formed sibling list (as `move_up` does when
/// it has a predecessor) gives a well-formed list in which it and its
/// predecessor have swapped places; the lists of other parents keep their
/// walks. Moving down is moving the successor up (see
/// `lemma_move_down_is_move_up`).
pub proof fn lemma_move_up_keeps_list(
    l: Map<u64, u64>,
    rl: Map<(u64, u64), (u64, u64)>,
    p: u64,
    v: Seq<u64>,
    m: int,
    q: u64,
    w: Seq<u64>,
)
    requires
        list_ok(l, rl, p, v),
        0 < m < v.len(),
        q != p ==> list_ok(l, rl, q, w),
    ensures
        list_ok(move_up_links(l, rl, p, v[m]), move_up_rl(rl, p, v[m]), p, v.update(m - 1, v[m]).update(m, v[m - 1])),
        q != p ==> list_ok(move_up_links(l, rl, p, v[m]), move_up_rl(rl, p, v[m]), q, w),
{
    let c = v[m];
    let pr = v[m - 1];
    let l2 = move_up_links(l, rl, p, c);
    let rl2 = move_up_rl(rl, p, c);
    let v2 = v.update(m - 1, c).update(m, pr);
    assert(rl[(c, p)].1 == pr);
    assert(rl[(pr, p)].1 == if m - 1 == 0 { 0 } else { v[m - 2] });
    assert(rl[(c, p)].0 == if m + 1 < v.len() { v[m + 1] } else { 0 });
    assert forall|k: int| 0 <= k < v.len() implies rl.dom().contains((#[trigger] v[k], p)) && v[k] != 0 by {
    }
    assert forall|k: int| 0 <= k < v2.len() implies {
        &&& #[trigger] v2[k] != 0
        &&& rl2.dom().contains((v2[k], p))
        &&& rl2[(v2[k], p)].0 == if k + 1 < v2.len() { v2[k + 1] } else { 0 }
        &&& rl2[(v2[k], p)].1 == if k == 0 { 0 } else { v2[k - 1] }
    } by {
        let j = if k == m - 1 { m } else if k == m { m - 1 } else { k };
        assert(v2[k] == v[j]);
        assert forall|a: int, b: int| 0 <= a < v.len() && 0 <= b < v.len() && a != b implies v[a] != v[b] by {
        }
        if k + 1 < v2.len() {
            assert(v2[k + 1] == if k + 1 == m - 1 { v[m] } else if k + 1 == m { v[m - 1] } else { v[k + 1] });
        }
        if k > 0 {
            assert(v2[k - 1] == if k - 1 == m - 1 { v[m] } else if k - 1 == m { v[m - 1] } else { v[k - 1] });
        }
        if m - 2 >= 0 {
            assert(v[m - 2] != c && v[m - 2] != pr);
        }
        if m + 1 < v.len() {
            assert(v[m + 1] != c && v[m + 1] != pr);
            if m - 2 >= 0 {
                assert(v[m + 1] != v[m - 2]);
            }
        }
    }
    if m - 1 == 0 {
        assert(v2[0] == c);
    } else {
        assert(v2[0] == v[0]);
    }
    assert(is_walk(l2, rl2, p, v2));
    assert forall|a: int, b: int| 0 <= a < b < v2.len() implies v2[a] != v2[b] by {
        let ja = if a == m - 1 { m } else if a == m { m - 1 } else { a };
        let jb = if b == m - 1 { m } else if b == m { m - 1 } else { b };
        assert(v2[a] == v[ja] && v2[b] == v[jb]);
    }
    assert forall|x: u64| rl2.dom().contains((x, p)) implies v2.contains(x) by {
        if m + 1 < v.len() {
            assert(rl.dom().contains((v[m + 1], p)));
        }
        if m - 2 >= 0 {
            assert(rl.dom().contains((v[m - 2], p)));
        }
        assert(rl.dom().contains((x, p)));
        assert(v.contains(x));
        let k = choose|k: int| 0 <= k < v.len() && v[k] == x;
        if k == m {
            assert(v2[m - 1] == x);
        } else if k == m - 1 {
            assert(v2[m] == x);
        } else {
            assert(v2[k] == x);
        }
    }
    if q != p {
        assert forall|k: int| 0 <= k < w.len() implies {
            &&& #[trigger] w[k] != 0
            &&& rl2.dom().contains((w[k], q))
            &&& rl2[(w[k], q)].0 == if k + 1 < w.len() { w[k + 1] } else { 0 }
        } by {
        }
        assert(is_walk(l2, rl2, q, w));
        assert forall|x: u64| rl2.dom().contains((x, q)) implies w.contains(x) by {
            if m + 1 < v.len() {
                assert(rl.dom().contains((v[m + 1], p)));
            }
            if m - 2 >= 0 {
                assert(rl.dom().contains((v[m - 2], p)));
            }
            assert(rl.dom().contains((x, q)));
        }
        assert forall|k: int| 0 <= k < w.len() implies rl2[(#[trigger] w[k], q)].1 == if k == 0 {
            0
        } else {
            w[k - 1]
        } by {
        }
    }
}

/// In a well-formed sibling list, moving a child down changes the indexes
/// exactly as moving its successor up does.
pub proof fn lemma_move_down_is_move_up(l: Map<u64, u64>, rl: Map<(u64, u64), (u64, u64)>, p: u64, v: Seq<u64>, m: int)
    requires
        list_ok(l, rl, p, v),
        0 <= m,
        m + 1 < v.len(),
    ensures
        move_down_rl(rl, p, v[m]) == move_up_rl(rl, p, v[m + 1]),
        move_down_links(l, rl, p, v[m]) == move_up_links(l, rl, p, v[m + 1]),
{
    let c = v[m];
    let n = v[m + 1];
    assert(rl[(c, p)].0 == n);
    assert(rl[(n, p)].1 == c);
    assert forall|a: int, b: int| 0 <= a < v.len() && 0 <= b < v.len() && a != b implies v[a] != v[b] by {
    }
    assert forall|k: int| 0 <= k < v.len() implies rl.dom().contains((#[trigger] v[k], p)) by {
    }
    if m > 0 {
        assert(rl[(c, p)].1 == v[m - 1]);
    }
    if m + 2 < v.len() {
        assert(rl[(n, p)].0 == v[m + 2]);
        if m > 0 {
            assert(v[m + 2] != v[m - 1]);
        }
    }
    assert(move_down_rl(rl, p, c) =~= move_up_rl(rl, p, n));
}

/// No node lies below one of its own children: the parent links have no
/// cycle.
pub open spec fn acyclic(rl: Map<(u64, u64), (u64, u64)>) -> bool {
    forall|c: u64, x: u64| #[trigger] rl.dom().contains((c, x)) ==> !descends(rl, x, c)
}

proof fn lemma_descends_trans(rl: Map<(u64, u64), (u64, u64)>, a: u64, b: u64, c: u64)
    requires
        descends(rl, b, a),
        descends(rl, c, b),
    ensures
        descends(rl, c, a),
{
    let s1 = choose|s: Seq<u64>| is_path(rl, s) && s[0] == a && s.last() == b;
    let s2 = choose|s: Seq<u64>| is_path(rl, s) && s[0] == b && s.last() == c;
    let t = s1 + s2.drop_first();
    assert forall|k: int| 0 <= k < t.len() - 1 implies rl.dom().contains((#[trigger] t[k + 1], t[k])) by {
        if k + 1 < s1.len() {
            assert(t[k + 1] == s1[k + 1] && t[k] == s1[k]);
        } else {
            let j = k + 1 - s1.len();
            assert(t[k + 1] == s2[j + 1]);
            if k < s1.len() {
                assert(t[k] == s1[s1.len() - 1]);
                assert(s2[0] == b);
            } else {
                assert(t[k] == s2[j]);
            }
        }
    }
    if s2.len() == 1 {
        assert(t =~= s1);
    } else {
        assert(t.last() == s2.last());
    }
    assert(is_path(rl, t) && t[0] == a && t.last() == c);
}

proof fn lemma_descends_edge(rl: Map<(u64, u64), (u64, u64)>, a: u64, b: u64, c: u64)
    requires
        descends(rl, b, a),
        rl.dom().contains((c, b)),
    ensures
        descends(rl, c, a),
{
    let s = seq![b, c];
    assert(is_path(rl, s) && s[0] == b && s.last() == c);
    lemma_descends_trans(rl, a, b, c);
}

/// A path after the link of `src` under `dest` is added either was a path
/// before, or runs from a node above `dest` to one below `src`, when `dest`
/// was not below `src`.
proof fn lemma_path_with_link(rl: Map<(u64, u64), (u64, u64)>, rl2: Map<(u64, u64), (u64, u64)>, src: u64, dest: u64, s: Seq<u64>)
    requires
        rl2.dom() == rl.dom().insert((src, dest)),
        !descends(rl, dest, src),
        is_path(rl2, s),
    ensures
        is_path(rl, s) || (descends(rl, dest, s[0]) && descends(rl, s.last(), src)),
    decreases s.len(),
{
    if s.len() == 1 {
        assert forall|k: int| 0 <= k < s.len() - 1 implies rl.dom().contains((#[trigger] s[k + 1], s[k])) by {
        }
    } else {
        let s1 = s.drop_last();
        assert forall|k: int| 0 <= k < s1.len() - 1 implies rl2.dom().contains((#[trigger] s1[k + 1], s1[k])) by {
            assert(s1[k + 1] == s[k + 1] && s1[k] == s[k]);
        }
        lemma_path_with_link(rl, rl2, src, dest, s1);
        let x = s.last();
        let y = s1.last();
        let k0 = s.len() - 2;
        assert(rl2.dom().contains((s[k0 + 1], s[k0])));
        assert(s[k0] == y && s[k0 + 1] == x);
        if rl.dom().contains((x, y)) {
            if is_path(rl, s1) {
                assert forall|k: int| 0 <= k < s.len() - 1 implies rl.dom().contains((#[trigger] s[k + 1], s[k])) by {
                    if k < s1.len() - 1 {
                        assert(s1[k + 1] == s[k + 1] && s1[k] == s[k]);
                    }
                }
            } else {
                lemma_descends_edge(rl, src, y, x);
            }
        } else {
            assert(x == src && y == dest);
            if is_path(rl, s1) {
                assert(is_path(rl, s1) && s1[0] == s[0] && s1.last() == dest);
                let t = seq![src];
                assert(is_path(rl, t) && t[0] == src && t.last() == src);
            } else {
                assert(descends(rl, dest, src));
            }
        }
    }
}

/// Sharing keeps the graph acyclic: adding the link of `src` under `dest`
/// to an acyclic graph in which `dest` does not lie below `src` (what
/// `share` and `cut` check before they add it) leaves no node below one of
/// its own children.
pub proof fn lemma_share_keeps_acyclic(rl: Map<(u64, u64), (u64, u64)>, rl2: Map<(u64, u64), (u64, u64)>, src: u64, dest: u64)
    requires
        acyclic(rl),
        !descends(rl, dest, src),
        rl2.dom() == rl.dom().insert((src, dest)),
    ensures
        acyclic(rl2),
{
    assert forall|c: u64, x: u64| #[trigger] rl2.dom().contains((c, x)) implies !descends(rl2, x, c) by {
        if descends(rl2, x, c) {
            let s = choose|s: Seq<u64>| is_path(rl2, s) && s[0] == c && s.last() == x;
            lemma_path_with_link(rl, rl2, src, dest, s);
            if is_path(rl, s) {
                assert(descends(rl, x, c));
                if rl.dom().contains((c, x)) {
                    assert(!descends(rl, x, c));
                } else {
                    assert(c == src && x == dest);
                }
            } else {
                if rl.dom().contains((c, x)) {
                    lemma_descends_edge(rl, src, x, c);
                    lemma_descends_trans(rl, src, c, dest);
                } else {
                    assert(c == src && x == dest);
                    lemma_descends_trans(rl, src, c, dest);
                }
            }
        }
    }
}

/// Adding a child with a fresh id keeps the graph acyclic: nothing lies
/// below a node that has no children yet.
pub proof fn lemma_add_child_keeps_acyclic(rl: Map<(u64, u64), (u64, u64)>, rl2: Map<(u64, u64), (u64, u64)>, id: u64, pid: u64)
    requires
        acyclic(rl),
        id != pid,
        forall|x: u64| !rl.dom().contains((x, id)),
        rl2.dom() == rl.dom().insert((id, pid)),
    ensures
        acyclic(rl2),
{
    if descends(rl, pid, id) {
        let s = choose|s: Seq<u64>| is_path(rl, s) && s[0] == id && s.last() == pid;
        assert(s.len() >= 2);
        let z: int = 0;
        assert(rl.dom().contains((s[z + 1], s[z])));
    }
    lemma_share_keeps_acyclic(rl, rl2, id, pid);
}

/// When every sibling list is well formed, every walk holds every child:
/// the completeness that `is_descendant_of` relies on.
pub proof fn lemma_lists_ok_complete(l: Map<u64, u64>, rl: Map<(u64, u64), (u64, u64)>)
    requires
        forall|p: u64, w: Seq<u64>| #[trigger] is_walk(l, rl, p, w) ==> list_ok(l, rl, p, w),
    ensures
        walks_complete(l, rl),
{
    assert forall|p: u64, w: Seq<u64>, c: u64|
        #![trigger is_walk(l, rl, p, w), rl.dom().contains((c, p))]
        is_walk(l, rl, p, w) && rl.dom().contains((c, p)) implies w.contains(c) by {
        assert(list_ok(l, rl, p, w));
    }
}

} // verus!
