use vstd::prelude::*;
use std::sync::Arc;
use sanakirja::{Commit, Env, Error, MutTxn, RootDb, Txn};
use sanakirja::btree::{self, Db, UDb};
use crate::codec::triple_of;

verus! {

/// sanakirja's error type, carried through to the library's own error.
#[verifier::external_type_specification]
#[verifier::external_body]
pub struct ExError(sanakirja::Error);

/// sanakirja's environment: the memory-mapped file that holds the indexes.
#[verifier::external_type_specification]
#[verifier::external_body]
pub struct ExEnv(sanakirja::Env);

/// The six indexes of a write transaction: the sibling list heads, the
/// reverse links with their list pointers, the payloads, and the sessions
/// in both directions.
#[verifier::external_body]
pub struct Tables {
    txn: MutTxn<Arc<Env>, ()>,
    links: Db<u64, u64>,
    rlinks: UDb<u64, [u8]>,
    nodes: UDb<u64, [u8]>,
    sessions: Db<u64, [u8; 16]>,
    rsessions: Db<[u8; 16], u64>,
}

/// The six indexes of a read transaction, as of when it began.
#[verifier::external_body]
pub struct Snapshot {
    txn: Txn<Arc<Env>>,
    links: Db<u64, u64>,
    rlinks: UDb<u64, [u8]>,
    nodes: UDb<u64, [u8]>,
    sessions: Db<u64, [u8; 16]>,
    rsessions: Db<[u8; 16], u64>,
}

/// LINKS of a write transaction: parent id to the head of its children.
/// sanakirja's tables allow several values under one key; this library
/// only puts a key that is absent (see the `requires` of the puts), so
/// each of its keyed indexes holds at most one entry per key and is a map.
pub uninterp spec fn links_of(t: Tables) -> Map<u64, u64>;

/// RLINKS of a write transaction: (child, parent) to (next, prev) sibling;
/// at most one entry per child and parent.
pub uninterp spec fn rlinks_of(t: Tables) -> Map<(u64, u64), (u64, u64)>;

/// NODES of a write transaction: id to payload.
pub uninterp spec fn nodes_of(t: Tables) -> Map<u64, Seq<u8>>;

/// SESSIONS of a write transaction: (id, session) pairs.
pub uninterp spec fn sessions_of(t: Tables) -> Set<(u64, Seq<u8>)>;

/// RSESSIONS of a write transaction: (session, id) pairs.
pub uninterp spec fn rsessions_of(t: Tables) -> Set<(Seq<u8>, u64)>;

/// LINKS of a read transaction.
pub uninterp spec fn snap_links(t: Snapshot) -> Map<u64, u64>;

/// RLINKS of a read transaction.
pub uninterp spec fn snap_rlinks(t: Snapshot) -> Map<(u64, u64), (u64, u64)>;

/// NODES of a read transaction.
pub uninterp spec fn snap_nodes(t: Snapshot) -> Map<u64, Seq<u8>>;

/// SESSIONS of a read transaction.
pub uninterp spec fn snap_sessions(t: Snapshot) -> Set<(u64, Seq<u8>)>;

/// RSESSIONS of a read transaction.
pub uninterp spec fn snap_rsessions(t: Snapshot) -> Set<(Seq<u8>, u64)>;

/// Relies on sanakirja's Env::mut_txn_begin, MutTxn::root and
/// RootDb::root_db: begins the single write transaction and loads the id
/// sequence and the five indexes from their root slots, `None` when one of
/// them is absent. sanakirja keeps at most 508 root slots and asserts (or
/// reads past them) beyond.
#[verifier::external_body]
pub fn begin_write(env: &Arc<Env>, slots: [usize; 6]) -> (r: Result<Option<(Tables, u64)>, Error>)
    requires
        forall|i: int| 0 <= i < 6 ==> slots[i] < 508,
    ensures
        r matches Ok(Some(t)) ==> rlinks_of(t.0).dom().finite(),
{
    let txn = Env::mut_txn_begin(env.clone())?;
    let (Some(id), Some(links), Some(rlinks), Some(nodes), Some(sessions), Some(rsessions)) = (
        txn.root(slots[0]), txn.root_db(slots[1]), txn.root_db(slots[2]),
        txn.root_db(slots[3]), txn.root_db(slots[4]), txn.root_db(slots[5]),
    ) else { return Ok(None) };
    Ok(Some((Tables { txn, links, rlinks, nodes, sessions, rsessions }, id)))
}

/// Relies on sanakirja's Env::txn_begin, Txn::root and RootDb::root_db:
/// begins a read transaction and loads the id sequence and the five
/// indexes, `None` when one of them is absent.
#[verifier::external_body]
pub fn begin_read(env: &Arc<Env>, slots: [usize; 6]) -> (r: Result<Option<(Snapshot, u64)>, Error>)
    requires
        forall|i: int| 0 <= i < 6 ==> slots[i] < 508,
{
    let txn = Env::txn_begin(env.clone())?;
    let id = txn.root(slots[0]);
    let (Some(links), Some(rlinks), Some(nodes), Some(sessions), Some(rsessions)) = (
        txn.root_db(slots[1]), txn.root_db(slots[2]), txn.root_db(slots[3]),
        txn.root_db(slots[4]), txn.root_db(slots[5]),
    ) else { return Ok(None) };
    Ok(Some((Snapshot { txn, links, rlinks, nodes, sessions, rsessions }, id)))
}

/// Relies on sanakirja's MutTxn::root: which of the root slots hold a
/// value.
#[verifier::external_body]
pub fn roots_present(env: &Arc<Env>, slots: [usize; 6]) -> (r: Result<[bool; 6], Error>)
    requires
        forall|i: int| 0 <= i < 6 ==> slots[i] < 508,
{
    let txn = Env::mut_txn_begin(env.clone())?;
    Ok(slots.map(|s| txn.root(s).is_some()))
}

impl Tables {
    /// Relies on sanakirja's btree::get: the first LINKS entry whose key is
    /// at least `k`.
    #[verifier::external_body]
    pub fn links_get(&self, k: u64) -> (r: Result<Option<(u64, u64)>, Error>)
        ensures
            r matches Ok(o) ==> ((o matches Some(e) && e.0 == k) <==> links_of(*self).dom().contains(k)),
            r matches Ok(Some(e)) ==> (e.0 == k ==> e.1 == links_of(*self)[k]),
    {
        Ok(btree::get(&self.txn, &self.links, &k, None)?.map(|(k, v)| (*k, *v)))
    }

    /// Relies on sanakirja's btree::put: inserts a new LINKS entry.
    #[verifier::external_body]
    pub fn links_put(&mut self, k: u64, v: u64) -> (r: Result<bool, Error>)
        requires
            !links_of(*old(self)).dom().contains(k),
        ensures
            r is Ok ==> links_of(*final(self)) == links_of(*old(self)).insert(k, v),
            r is Ok ==> rlinks_of(*final(self)) == rlinks_of(*old(self)),
            r is Ok ==> nodes_of(*final(self)) == nodes_of(*old(self)),
            r is Ok ==> sessions_of(*final(self)) == sessions_of(*old(self)),
            r is Ok ==> rsessions_of(*final(self)) == rsessions_of(*old(self)),
    {
        btree::put(&mut self.txn, &mut self.links, &k, &v)
    }

    /// Relies on sanakirja's btree::del: deletes the LINKS entry `(k, v)`.
    #[verifier::external_body]
    pub fn links_del(&mut self, k: u64, v: u64) -> (r: Result<bool, Error>)
        requires
            links_of(*old(self)).dom().contains(k),
            links_of(*old(self))[k] == v,
        ensures
            r is Ok ==> links_of(*final(self)) == links_of(*old(self)).remove(k),
            r is Ok ==> rlinks_of(*final(self)) == rlinks_of(*old(self)),
            r is Ok ==> nodes_of(*final(self)) == nodes_of(*old(self)),
            r is Ok ==> sessions_of(*final(self)) == sessions_of(*old(self)),
            r is Ok ==> rsessions_of(*final(self)) == rsessions_of(*old(self)),
    {
        btree::del(&mut self.txn, &mut self.links, &k, Some(&v))
    }

    /// Relies on sanakirja's btree::get: the first RLINKS entry at or after
    /// `(c, key)`. Records are `(parent, next, prev)` in big-endian, so with
    /// `key` the record of `(p, 0, 0)` this is the record of `c` under `p`
    /// when there is one.
    #[verifier::external_body]
    pub fn rlinks_get(&self, c: u64, key: &[u8]) -> (r: Result<Option<(u64, Vec<u8>)>, Error>)
        requires
            key@.len() == 24,
            triple_of(key@).1 == 0,
            triple_of(key@).2 == 0,
        ensures
            r matches Ok(o) ==> ((o matches Some(e) && e.0 == c && e.1@.len() == 24 && triple_of(e.1@).0
                == triple_of(key@).0) <==> rlinks_of(*self).dom().contains((c, triple_of(key@).0))),
            r matches Ok(Some(e)) ==> (e.0 == c && e.1@.len() == 24 && triple_of(e.1@).0 == triple_of(key@).0
                ==> (triple_of(e.1@).1, triple_of(e.1@).2) == rlinks_of(*self)[(c, triple_of(key@).0)]),
    {
        Ok(btree::get(&self.txn, &self.rlinks, &c, Some(key))?.map(|(k, v)| (*k, v.to_vec())))
    }

    /// Relies on sanakirja's btree::get: the first RLINKS entry whose key is
    /// at least `c`, whatever its parent.
    #[verifier::external_body]
    pub fn rlinks_any(&self, c: u64) -> (r: Result<Option<u64>, Error>)
        ensures
            r matches Ok(o) ==> ((o matches Some(k) && k == c) <==> exists|p: u64|
                rlinks_of(*self).dom().contains((c, p))),
    {
        Ok(btree::get(&self.txn, &self.rlinks, &c, None)?.map(|(k, _)| *k))
    }

    /// Relies on sanakirja's btree::put: inserts the RLINKS record `v` of
    /// child `c`.
    #[verifier::external_body]
    pub fn rlinks_put(&mut self, c: u64, v: &[u8]) -> (r: Result<bool, Error>)
        requires
            v@.len() == 24,
            !rlinks_of(*old(self)).dom().contains((c, triple_of(v@).0)),
        ensures
            r is Ok ==> rlinks_of(*final(self)) == rlinks_of(*old(self)).insert((c, triple_of(v@).0), (triple_of(v@).1, triple_of(v@).2)),
            r is Ok ==> links_of(*final(self)) == links_of(*old(self)),
            r is Ok ==> nodes_of(*final(self)) == nodes_of(*old(self)),
            r is Ok ==> sessions_of(*final(self)) == sessions_of(*old(self)),
            r is Ok ==> rsessions_of(*final(self)) == rsessions_of(*old(self)),
    {
        btree::put(&mut self.txn, &mut self.rlinks, &c, v)
    }

    /// Relies on sanakirja's btree::del: deletes the RLINKS record `v` of
    /// child `c`.
    #[verifier::external_body]
    pub fn rlinks_del(&mut self, c: u64, v: &[u8]) -> (r: Result<bool, Error>)
        requires
            v@.len() == 24,
            rlinks_of(*old(self)).dom().contains((c, triple_of(v@).0)),
            rlinks_of(*old(self))[(c, triple_of(v@).0)] == (triple_of(v@).1, triple_of(v@).2),
        ensures
            r is Ok ==> rlinks_of(*final(self)) == rlinks_of(*old(self)).remove((c, triple_of(v@).0)),
            r is Ok ==> links_of(*final(self)) == links_of(*old(self)),
            r is Ok ==> nodes_of(*final(self)) == nodes_of(*old(self)),
            r is Ok ==> sessions_of(*final(self)) == sessions_of(*old(self)),
            r is Ok ==> rsessions_of(*final(self)) == rsessions_of(*old(self)),
    {
        btree::del(&mut self.txn, &mut self.rlinks, &c, Some(v))
    }

    /// Relies on sanakirja's btree::get: the first NODES entry whose key is
    /// at least `k`.
    #[verifier::external_body]
    pub fn nodes_get(&self, k: u64) -> (r: Result<Option<(u64, Vec<u8>)>, Error>)
        ensures
            r matches Ok(o) ==> ((o matches Some(e) && e.0 == k) <==> nodes_of(*self).dom().contains(k)),
            r matches Ok(Some(e)) ==> (e.0 == k ==> e.1@ == nodes_of(*self)[k]),
    {
        Ok(btree::get(&self.txn, &self.nodes, &k, None)?.map(|(k, v)| (*k, v.to_vec())))
    }

    /// Relies on sanakirja's btree::put: inserts a payload; sanakirja keeps
    /// slices of 1 to 510 bytes.
    #[verifier::external_body]
    pub fn nodes_put(&mut self, k: u64, v: &[u8]) -> (r: Result<bool, Error>)
        requires
            !nodes_of(*old(self)).dom().contains(k),
            1 <= v@.len() <= 510,
        ensures
            r is Ok ==> nodes_of(*final(self)) == nodes_of(*old(self)).insert(k, v@),
            r is Ok ==> links_of(*final(self)) == links_of(*old(self)),
            r is Ok ==> rlinks_of(*final(self)) == rlinks_of(*old(self)),
            r is Ok ==> sessions_of(*final(self)) == sessions_of(*old(self)),
            r is Ok ==> rsessions_of(*final(self)) == rsessions_of(*old(self)),
    {
        btree::put(&mut self.txn, &mut self.nodes, &k, v)
    }

    /// Relies on sanakirja's btree::del: deletes the payload of `k`.
    #[verifier::external_body]
    pub fn nodes_del(&mut self, k: u64, v: &[u8]) -> (r: Result<bool, Error>)
        requires
            nodes_of(*old(self)).dom().contains(k),
            nodes_of(*old(self))[k] == v@,
        ensures
            r is Ok ==> nodes_of(*final(self)) == nodes_of(*old(self)).remove(k),
            r is Ok ==> links_of(*final(self)) == links_of(*old(self)),
            r is Ok ==> rlinks_of(*final(self)) == rlinks_of(*old(self)),
            r is Ok ==> sessions_of(*final(self)) == sessions_of(*old(self)),
            r is Ok ==> rsessions_of(*final(self)) == rsessions_of(*old(self)),
    {
        btree::del(&mut self.txn, &mut self.nodes, &k, Some(v))
    }

    /// Relies on sanakirja's btree::put: inserts `(id, key)` into SESSIONS.
    #[verifier::external_body]
    pub fn sessions_put(&mut self, id: u64, key: [u8; 16]) -> (r: Result<bool, Error>)
        ensures
            r is Ok ==> sessions_of(*final(self)) == sessions_of(*old(self)).insert((id, key@)),
            r is Ok ==> links_of(*final(self)) == links_of(*old(self)),
            r is Ok ==> rlinks_of(*final(self)) == rlinks_of(*old(self)),
            r is Ok ==> nodes_of(*final(self)) == nodes_of(*old(self)),
            r is Ok ==> rsessions_of(*final(self)) == rsessions_of(*old(self)),
    {
        btree::put(&mut self.txn, &mut self.sessions, &id, &key)
    }

    /// Relies on sanakirja's btree::put: inserts `(key, id)` into RSESSIONS.
    #[verifier::external_body]
    pub fn rsessions_put(&mut self, key: [u8; 16], id: u64) -> (r: Result<bool, Error>)
        ensures
            r is Ok ==> rsessions_of(*final(self)) == rsessions_of(*old(self)).insert((key@, id)),
            r is Ok ==> links_of(*final(self)) == links_of(*old(self)),
            r is Ok ==> rlinks_of(*final(self)) == rlinks_of(*old(self)),
            r is Ok ==> nodes_of(*final(self)) == nodes_of(*old(self)),
            r is Ok ==> sessions_of(*final(self)) == sessions_of(*old(self)),
    {
        btree::put(&mut self.txn, &mut self.rsessions, &key, &id)
    }

    /// Relies on sanakirja's btree::del: deletes `(id, key)` from SESSIONS.
    #[verifier::external_body]
    pub fn sessions_del(&mut self, id: u64, key: [u8; 16]) -> (r: Result<bool, Error>)
        ensures
            r is Ok ==> sessions_of(*final(self)) == sessions_of(*old(self)).remove((id, key@)),
            r is Ok ==> links_of(*final(self)) == links_of(*old(self)),
            r is Ok ==> rlinks_of(*final(self)) == rlinks_of(*old(self)),
            r is Ok ==> nodes_of(*final(self)) == nodes_of(*old(self)),
            r is Ok ==> rsessions_of(*final(self)) == rsessions_of(*old(self)),
    {
        btree::del(&mut self.txn, &mut self.sessions, &id, Some(&key))
    }

    /// Relies on sanakirja's btree::del: deletes `(key, id)` from RSESSIONS.
    #[verifier::external_body]
    pub fn rsessions_del(&mut self, key: [u8; 16], id: u64) -> (r: Result<bool, Error>)
        ensures
            r is Ok ==> rsessions_of(*final(self)) == rsessions_of(*old(self)).remove((key@, id)),
            r is Ok ==> links_of(*final(self)) == links_of(*old(self)),
            r is Ok ==> rlinks_of(*final(self)) == rlinks_of(*old(self)),
            r is Ok ==> nodes_of(*final(self)) == nodes_of(*old(self)),
            r is Ok ==> sessions_of(*final(self)) == sessions_of(*old(self)),
    {
        btree::del(&mut self.txn, &mut self.rsessions, &key, Some(&id))
    }

    /// Relies on sanakirja's btree::iter: every SESSIONS entry from the
    /// first whose key is at least `id` on, in key order.
    #[verifier::external_body]
    pub fn sessions_from(&self, id: u64) -> (r: Result<Vec<(u64, [u8; 16])>, Error>)
        ensures
            r matches Ok(v) ==> forall|k: int| 0 <= k < v@.len() ==> sessions_of(*self).contains((#[trigger] v@[k].0, v@[k].1@)) && v@[k].0 >= id,
            r matches Ok(v) ==> forall|e: (u64, Seq<u8>)| #[trigger] sessions_of(*self).contains(e) && e.0 >= id ==> exists|k: int| 0 <= k < v@.len() && v@[k].0 == e.0 && v@[k].1@ == e.1,
            r matches Ok(v) ==> forall|a: int, c: int| 0 <= a <= c < v@.len() ==> v@[a].0 <= v@[c].0,
    {
        btree::iter(&self.txn, &self.sessions, Some((&id, None)))?.map(|e| e.map(|(k, s)| (*k, *s))).collect()
    }

    /// Relies on sanakirja's Commit::commit, after MutTxn::set_root of the
    /// id sequence and the five indexes.
    #[verifier::external_body]
    pub fn commit(self, slots: [usize; 6], id: u64) -> (r: Result<(), Error>)
        requires
            forall|i: int| 0 <= i < 6 ==> slots[i] < 508,
    {
        let mut txn = self.txn;
        txn.set_root(slots[0], id);
        txn.set_root(slots[1], self.links.db.into());
        txn.set_root(slots[2], self.rlinks.db.into());
        txn.set_root(slots[3], self.nodes.db.into());
        txn.set_root(slots[4], self.sessions.db.into());
        txn.set_root(slots[5], self.rsessions.db.into());
        txn.commit()
    }
}

impl Snapshot {
    /// Relies on sanakirja's btree::get: the first LINKS entry whose key is
    /// at least `k`.
    #[verifier::external_body]
    pub fn links_get(&self, k: u64) -> (r: Result<Option<(u64, u64)>, Error>)
        ensures
            r matches Ok(o) ==> ((o matches Some(e) && e.0 == k) <==> snap_links(*self).dom().contains(k)),
            r matches Ok(Some(e)) ==> (e.0 == k ==> e.1 == snap_links(*self)[k]),
    {
        Ok(btree::get(&self.txn, &self.links, &k, None)?.map(|(k, v)| (*k, *v)))
    }

    /// Relies on sanakirja's btree::get: the first RLINKS entry at or after
    /// `(c, key)`. Records are `(parent, next, prev)` in big-endian, so with
    /// `key` the record of `(p, 0, 0)` this is the record of `c` under `p`
    /// when there is one.
    #[verifier::external_body]
    pub fn rlinks_get(&self, c: u64, key: &[u8]) -> (r: Result<Option<(u64, Vec<u8>)>, Error>)
        requires
            key@.len() == 24,
            triple_of(key@).1 == 0,
            triple_of(key@).2 == 0,
        ensures
            r matches Ok(o) ==> ((o matches Some(e) && e.0 == c && e.1@.len() == 24 && triple_of(e.1@).0
                == triple_of(key@).0) <==> snap_rlinks(*self).dom().contains((c, triple_of(key@).0))),
            r matches Ok(Some(e)) ==> (e.0 == c && e.1@.len() == 24 && triple_of(e.1@).0 == triple_of(key@).0
                ==> (triple_of(e.1@).1, triple_of(e.1@).2) == snap_rlinks(*self)[(c, triple_of(key@).0)]),
    {
        Ok(btree::get(&self.txn, &self.rlinks, &c, Some(key))?.map(|(k, v)| (*k, v.to_vec())))
    }

    /// Relies on sanakirja's btree::get: the first NODES entry whose key is
    /// at least `k`.
    #[verifier::external_body]
    pub fn nodes_get(&self, k: u64) -> (r: Result<Option<(u64, Vec<u8>)>, Error>)
        ensures
            r matches Ok(o) ==> ((o matches Some(e) && e.0 == k) <==> snap_nodes(*self).dom().contains(k)),
            r matches Ok(Some(e)) ==> (e.0 == k ==> e.1@ == snap_nodes(*self)[k]),
    {
        Ok(btree::get(&self.txn, &self.nodes, &k, None)?.map(|(k, v)| (*k, v.to_vec())))
    }

    /// Relies on sanakirja's btree::iter: every SESSIONS entry from the
    /// first whose key is at least `id` on, in key order.
    #[verifier::external_body]
    pub fn sessions_from(&self, id: u64) -> (r: Result<Vec<(u64, [u8; 16])>, Error>)
        ensures
            r matches Ok(v) ==> forall|k: int| 0 <= k < v@.len() ==> snap_sessions(*self).contains((#[trigger] v@[k].0, v@[k].1@)) && v@[k].0 >= id,
            r matches Ok(v) ==> forall|e: (u64, Seq<u8>)| #[trigger] snap_sessions(*self).contains(e) && e.0 >= id ==> exists|k: int| 0 <= k < v@.len() && v@[k].0 == e.0 && v@[k].1@ == e.1,
            r matches Ok(v) ==> forall|a: int, c: int| 0 <= a <= c < v@.len() ==> v@[a].0 <= v@[c].0,
    {
        btree::iter(&self.txn, &self.sessions, Some((&id, None)))?.map(|e| e.map(|(k, s)| (*k, *s))).collect()
    }

    /// Relies on sanakirja's btree::iter: every RSESSIONS entry.
    #[verifier::external_body]
    pub fn rsessions_all(&self) -> (r: Result<Vec<([u8; 16], u64)>, Error>)
        ensures
            r matches Ok(v) ==> forall|k: int| 0 <= k < v@.len() ==> snap_rsessions(*self).contains((#[trigger] v@[k].0@, v@[k].1)),
            r matches Ok(v) ==> forall|e: (Seq<u8>, u64)| #[trigger] snap_rsessions(*self).contains(e) ==> exists|k: int| 0 <= k < v@.len() && v@[k].0@ == e.0 && v@[k].1 == e.1,
    {
        btree::iter(&self.txn, &self.rsessions, None)?.map(|e| e.map(|(s, k)| (*s, *k))).collect()
    }
}

} // verus!
