use vstd::prelude::*;
use crate::datetime::{Date, DateTime, Session, Time};

verus! {

/// The four big-endian bytes of `y`.
pub open spec fn be4(y: u32) -> Seq<u8> {
    seq![(y >> 24u32) as u8, ((y >> 16u32) & 0xffu32) as u8, ((y >> 8u32) & 0xffu32) as u8, (y & 0xffu32) as u8]
}

/// The year shifted so that the order of its unsigned value is that of
/// the year.
pub open spec fn year_key(year: i32) -> u32 {
    (year as int + 0x8000_0000) as u32
}

/// The eight bytes under which a date and time is kept.
pub open spec fn datetime_bytes(d: DateTime) -> Seq<u8> {
    be4(year_key(d.date.year)) + seq![
        d.date.month as u8,
        d.date.day as u8,
        d.time.hour as u8,
        d.time.minute as u8,
    ]
}

/// The sixteen bytes under which a session is kept in SESSIONS and
/// RSESSIONS: its start, then its end.
pub open spec fn session_bytes(s: Session) -> Seq<u8> {
    datetime_bytes(s.start) + datetime_bytes(s.end)
}

/// The date and time that eight bytes from `at` on encode.
pub open spec fn datetime_at(b: Seq<u8>, at: int) -> DateTime {
    let y: u32 = ((b[at] as u32) << 24u32) | ((b[at + 1] as u32) << 16u32) | ((b[at + 2] as u32)
        << 8u32) | (b[at + 3] as u32);
    DateTime {
        date: Date { year: (y as int - 0x8000_0000) as i32, month: b[at + 4] as u32, day: b[at + 5] as u32 },
        time: Time { hour: b[at + 6] as u32, minute: b[at + 7] as u32 },
    }
}

/// The session that sixteen bytes encode.
pub open spec fn session_at(b: Seq<u8>) -> Session {
    Session { start: datetime_at(b, 0), end: datetime_at(b, 8) }
}

proof fn lemma_be4(y: u32)
    ensures
        ((((y >> 24u32) as u8) as u32) << 24u32) | (((((y >> 16u32) & 0xffu32) as u8) as u32) << 16u32)
            | (((((y >> 8u32) & 0xffu32) as u8) as u32) << 8u32) | (((y & 0xffu32) as u8) as u32) == y,
{
    assert(((((y >> 24u32) as u8) as u32) << 24u32) | (((((y >> 16u32) & 0xffu32) as u8) as u32) << 16u32)
        | (((((y >> 8u32) & 0xffu32) as u8) as u32) << 8u32) | (((y & 0xffu32) as u8) as u32) == y)
        by (bit_vector);
}

proof fn lemma_datetime_round_trip(d: DateTime, b: Seq<u8>, at: int)
    requires
        d.valid(),
        0 <= at,
        at + 8 <= b.len(),
        b.subrange(at, at + 8) == datetime_bytes(d),
    ensures
        datetime_at(b, at) == d,
{
    let y = year_key(d.date.year);
    lemma_be4(y);
    assert(b[at] == datetime_bytes(d)[0]);
    assert(b[at + 1] == datetime_bytes(d)[1]);
    assert(b[at + 2] == datetime_bytes(d)[2]);
    assert(b[at + 3] == datetime_bytes(d)[3]);
    assert(b[at + 4] == datetime_bytes(d)[4]);
    assert(b[at + 5] == datetime_bytes(d)[5]);
    assert(b[at + 6] == datetime_bytes(d)[6]);
    assert(b[at + 7] == datetime_bytes(d)[7]);
}

/// Decoding the bytes of a valid session gives it back.
pub proof fn lemma_session_round_trip(s: Session)
    requires
        s.valid(),
    ensures
        session_at(session_bytes(s)) == s,
{
    let b = session_bytes(s);
    assert(b.subrange(0, 8) =~= datetime_bytes(s.start));
    assert(b.subrange(8, 16) =~= datetime_bytes(s.end));
    lemma_datetime_round_trip(s.start, b, 0);
    lemma_datetime_round_trip(s.end, b, 8);
}

fn put_datetime(k: &mut [u8; 16], at: usize, d: &DateTime)
    requires
        at == 0 || at == 8,
    ensures
        final(k)@.len() == 16,
        final(k)@.subrange(at as int, at + 8) == datetime_bytes(*d),
        forall|i: int| 0 <= i < 16 && !(at <= i < at + 8) ==> final(k)@[i] == old(k)@[i],
{
    let y: u32 = (d.date.year as i64 + 0x8000_0000i64) as u32;
    k[at] = (y >> 24u32) as u8;
    k[at + 1] = ((y >> 16u32) & 0xffu32) as u8;
    k[at + 2] = ((y >> 8u32) & 0xffu32) as u8;
    k[at + 3] = (y & 0xffu32) as u8;
    k[at + 4] = d.date.month as u8;
    k[at + 5] = d.date.day as u8;
    k[at + 6] = d.time.hour as u8;
    k[at + 7] = d.time.minute as u8;
    assert(k@.subrange(at as int, at + 8) =~= datetime_bytes(*d));
}

/// The key of a session in SESSIONS and RSESSIONS.
pub fn session_key(s: &Session) -> (r: [u8; 16])
    ensures
        r@ == session_bytes(*s),
{
    let mut k = [0u8; 16];
    put_datetime(&mut k, 0, &s.start);
    put_datetime(&mut k, 8, &s.end);
    assert(k@ =~= session_bytes(*s)) by {
        assert(k@.subrange(0, 8) == datetime_bytes(s.start));
    }
    k
}

fn datetime_of(k: &[u8; 16], at: usize) -> (r: DateTime)
    requires
        at == 0 || at == 8,
    ensures
        r == datetime_at(k@, at as int),
{
    let y: u32 = ((k[at] as u32) << 24u32) | ((k[at + 1] as u32) << 16u32) | ((k[at + 2] as u32)
        << 8u32) | (k[at + 3] as u32);
    DateTime {
        date: Date { year: (y as i64 - 0x8000_0000i64) as i32, month: k[at + 4] as u32, day: k[at + 5] as u32 },
        time: Time { hour: k[at + 6] as u32, minute: k[at + 7] as u32 },
    }
}

/// The session that a key encodes.
pub fn session_of_key(k: &[u8; 16]) -> (r: Session)
    ensures
        r == session_at(k@),
{
    Session { start: datetime_of(k, 0), end: datetime_of(k, 8) }
}

/// The eight big-endian bytes of `x`.
pub open spec fn be8(x: u64) -> Seq<u8> {
    seq![
        (x >> 56u64) as u8,
        ((x >> 48u64) & 0xffu64) as u8,
        ((x >> 40u64) & 0xffu64) as u8,
        ((x >> 32u64) & 0xffu64) as u8,
        ((x >> 24u64) & 0xffu64) as u8,
        ((x >> 16u64) & 0xffu64) as u8,
        ((x >> 8u64) & 0xffu64) as u8,
        (x & 0xffu64) as u8,
    ]
}

/// The integer that eight big-endian bytes from `at` on encode.
pub open spec fn u64_at(b: Seq<u8>, at: int) -> u64 {
    ((b[at] as u64) << 56u64) | ((b[at + 1] as u64) << 48u64) | ((b[at + 2] as u64) << 40u64) | ((b[at
        + 3] as u64) << 32u64) | ((b[at + 4] as u64) << 24u64) | ((b[at + 5] as u64) << 16u64) | ((b[at
        + 6] as u64) << 8u64) | (b[at + 7] as u64)
}

/// The record of a reverse link in RLINKS: parent, next sibling and previous
/// sibling, each as eight big-endian bytes, so that the records order as
/// the triples do.
pub open spec fn triple_bytes(parent: u64, next: u64, prev: u64) -> Seq<u8> {
    be8(parent) + be8(next) + be8(prev)
}

/// The (parent, next, prev) triple that a record encodes.
pub open spec fn triple_of(b: Seq<u8>) -> (u64, u64, u64) {
    (u64_at(b, 0), u64_at(b, 8), u64_at(b, 16))
}

proof fn lemma_be8(x: u64)
    ensures
        ((((x >> 56u64) as u8) as u64) << 56u64) | (((((x >> 48u64) & 0xffu64) as u8) as u64) << 48u64)
            | (((((x >> 40u64) & 0xffu64) as u8) as u64) << 40u64) | (((((x >> 32u64) & 0xffu64) as u8) as u64)
            << 32u64) | (((((x >> 24u64) & 0xffu64) as u8) as u64) << 24u64) | (((((x >> 16u64) & 0xffu64)
            as u8) as u64) << 16u64) | (((((x >> 8u64) & 0xffu64) as u8) as u64) << 8u64) | (((x & 0xffu64)
            as u8) as u64) == x,
{
    assert(((((x >> 56u64) as u8) as u64) << 56u64) | (((((x >> 48u64) & 0xffu64) as u8) as u64) << 48u64)
        | (((((x >> 40u64) & 0xffu64) as u8) as u64) << 40u64) | (((((x >> 32u64) & 0xffu64) as u8) as u64)
        << 32u64) | (((((x >> 24u64) & 0xffu64) as u8) as u64) << 24u64) | (((((x >> 16u64) & 0xffu64)
        as u8) as u64) << 16u64) | (((((x >> 8u64) & 0xffu64) as u8) as u64) << 8u64) | (((x & 0xffu64)
        as u8) as u64) == x) by (bit_vector);
}

/// Decoding a record gives back the triple it was made from.
pub proof fn lemma_triple_round_trip(parent: u64, next: u64, prev: u64)
    ensures
        triple_bytes(parent, next, prev).len() == 24,
        triple_of(triple_bytes(parent, next, prev)) == (parent, next, prev),
{
    let b = triple_bytes(parent, next, prev);
    lemma_be8(parent);
    lemma_be8(next);
    lemma_be8(prev);
    assert(b.subrange(0, 8) =~= be8(parent));
    assert(b.subrange(8, 16) =~= be8(next));
    assert(b.subrange(16, 24) =~= be8(prev));
    assert(b[0] == be8(parent)[0] && b[1] == be8(parent)[1] && b[2] == be8(parent)[2] && b[3] == be8(parent)[3]);
    assert(b[4] == be8(parent)[4] && b[5] == be8(parent)[5] && b[6] == be8(parent)[6] && b[7] == be8(parent)[7]);
    assert(b[8] == be8(next)[0] && b[9] == be8(next)[1] && b[10] == be8(next)[2] && b[11] == be8(next)[3]);
    assert(b[12] == be8(next)[4] && b[13] == be8(next)[5] && b[14] == be8(next)[6] && b[15] == be8(next)[7]);
    assert(b[16] == be8(prev)[0] && b[17] == be8(prev)[1] && b[18] == be8(prev)[2] && b[19] == be8(prev)[3]);
    assert(b[20] == be8(prev)[4] && b[21] == be8(prev)[5] && b[22] == be8(prev)[6] && b[23] == be8(prev)[7]);
}

fn push_be8(v: &mut Vec<u8>, x: u64)
    ensures
        final(v)@ == old(v)@ + be8(x),
{
    v.push((x >> 56u64) as u8);
    v.push(((x >> 48u64) & 0xffu64) as u8);
    v.push(((x >> 40u64) & 0xffu64) as u8);
    v.push(((x >> 32u64) & 0xffu64) as u8);
    v.push(((x >> 24u64) & 0xffu64) as u8);
    v.push(((x >> 16u64) & 0xffu64) as u8);
    v.push(((x >> 8u64) & 0xffu64) as u8);
    v.push((x & 0xffu64) as u8);
    assert(v@ =~= old(v)@ + be8(x));
}

/// The RLINKS record of the triple (parent, next, prev).
pub fn triple_key(parent: u64, next: u64, prev: u64) -> (r: Vec<u8>)
    ensures
        r@ == triple_bytes(parent, next, prev),
        r@.len() == 24,
        triple_of(r@) == (parent, next, prev),
{
    let mut v: Vec<u8> = Vec::new();
    push_be8(&mut v, parent);
    push_be8(&mut v, next);
    push_be8(&mut v, prev);
    proof {
        lemma_triple_round_trip(parent, next, prev);
        assert(v@ =~= triple_bytes(parent, next, prev));
    }
    v
}

fn read_u64(b: &[u8], at: usize) -> (r: u64)
    requires
        at + 8 <= b@.len(),
    ensures
        r == u64_at(b@, at as int),
{
    ((b[at] as u64) << 56u64) | ((b[at + 1] as u64) << 48u64) | ((b[at + 2] as u64) << 40u64) | ((b[at
        + 3] as u64) << 32u64) | ((b[at + 4] as u64) << 24u64) | ((b[at + 5] as u64) << 16u64) | ((b[at
        + 6] as u64) << 8u64) | (b[at + 7] as u64)
}

/// The triple that an RLINKS record encodes.
pub fn triple_from(b: &[u8]) -> (r: (u64, u64, u64))
    requires
        b@.len() == 24,
    ensures
        r == triple_of(b@),
{
    (read_u64(b, 0), read_u64(b, 8), read_u64(b, 16))
}

} // verus!
