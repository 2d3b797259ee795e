//! The index file: a 12-byte header, the entries' records in path order,
//! optional extension records, and the SHA-1 of everything before it.

use vstd::prelude::*;
use crate::codec::{be16, be32, from_be32, lemma_be16_round_trip, lemma_be32_round_trip};
use crate::id::sha1_of;
use super::entry::{entry_bytes, first_nul, pad_len, parse_record, record_len, EntryView, is_under};
use super::survives;

verus! {

/// `DIRC`, the first four bytes of an index file.
pub open spec fn signature() -> Seq<u8> {
    seq![68u8, 73, 82, 67]
}

/// The only version of the format that is read or written.
pub const VERSION: u32 = 2;

pub const HEADER_SIZE: usize = 12;

/// Length of the trailing checksum.
pub const CHECKSUM_SIZE: usize = 20;

/// The records of the entries, in order.
pub open spec fn entries_bytes(s: Seq<EntryView>) -> Seq<u8>
    decreases s.len(),
{
    if s.len() == 0 {
        Seq::empty()
    } else {
        entries_bytes(s.drop_last()) + entry_bytes(s.last())
    }
}

/// Header and records: what the checksum covers.
pub open spec fn index_body(s: Seq<EntryView>) -> Seq<u8> {
    signature() + be32(VERSION) + be32(s.len() as u32) + entries_bytes(s)
}

/// The whole index file for the entries `s`.
pub open spec fn index_bytes(s: Seq<EntryView>) -> Seq<u8> {
    index_body(s) + sha1_of(index_body(s))
}

/// Where the record that starts before `end` ends: reading goes on in
/// 8-byte steps until the last byte read is NUL, and may not pass `limit`.
pub open spec fn record_end(d: Seq<u8>, end: int, limit: int) -> Option<int>
    decreases limit + 8 - end,
{
    if end > limit || end < 1 {
        None
    } else if d[end - 1] == 0 {
        Some(end)
    } else {
        record_end(d, end + 8, limit)
    }
}

/// Prefix the entries of a parse result.
pub open spec fn prepend(
    a: Seq<EntryView>,
    r: Option<(Seq<EntryView>, int)>,
) -> Option<(Seq<EntryView>, int)> {
    match r {
        None => None,
        Some(x) => Some((a + x.0, x.1)),
    }
}

/// The `count` records from `pos` on, and where they end.
pub open spec fn parse_entries(d: Seq<u8>, pos: int, count: nat, limit: int) -> Option<
    (Seq<EntryView>, int),
>
    decreases count,
{
    if count == 0 {
        Some((Seq::empty(), pos))
    } else {
        match record_end(d, pos + 64, limit) {
            None => None,
            Some(end) => prepend(
                seq![parse_record(d.subrange(pos, end))],
                parse_entries(d, end, (count - 1) as nat, limit),
            ),
        }
    }
}

/// Skip extension records (signature, big-endian length, payload) from
/// `pos` until exactly `limit`.
pub open spec fn skip_extensions(d: Seq<u8>, pos: int, limit: int) -> bool
    decreases limit - pos,
{
    if pos == limit {
        true
    } else if pos < 0 || pos + 8 > limit {
        false
    } else {
        let next = pos + 8 + from_be32(d.subrange(pos + 4, pos + 8));
        if next > limit {
            false
        } else {
            skip_extensions(d, next, limit)
        }
    }
}

/// What reading an index file finds.
pub enum Loaded {
    /// The file ends before its structure does.
    Truncated,
    BadSignature,
    BadVersion,
    BadChecksum,
    Entries(Seq<EntryView>),
}

/// Read an index file.
pub open spec fn parse_index(d: Seq<u8>) -> Loaded {
    if d.len() < 12 {
        Loaded::Truncated
    } else if d.subrange(0, 4) != signature() {
        Loaded::BadSignature
    } else if from_be32(d.subrange(4, 8)) != VERSION {
        Loaded::BadVersion
    } else if d.len() < 32 {
        Loaded::Truncated
    } else {
        let limit = d.len() - 20;
        match parse_entries(d, 12, from_be32(d.subrange(8, 12)) as nat, limit) {
            None => Loaded::Truncated,
            Some(x) => if !skip_extensions(d, x.1, limit) {
                Loaded::Truncated
            } else if sha1_of(d.take(limit)) != d.skip(limit) {
                Loaded::BadChecksum
            } else {
                Loaded::Entries(x.0)
            },
        }
    }
}

/// The entries staged by adding each of `es` in turn to an empty index.
pub open spec fn staged(es: Seq<EntryView>) -> Set<EntryView>
    decreases es.len(),
{
    if es.len() == 0 {
        Set::empty()
    } else {
        let e = es.last();
        staged(es.drop_last()).filter(|v: EntryView| survives(v.path, e.path)).insert(e)
    }
}

/// The path holds no NUL byte, so its record ends where its NUL is.
pub open spec fn nul_free(p: Seq<u8>) -> bool {
    forall|i: int| 0 <= i < p.len() ==> p[i] != 0
}

/// An entry the format can hold as it is: a 20-byte id and a path without
/// NUL bytes.
pub open spec fn storable(e: EntryView) -> bool {
    e.id.len() == 20 && nul_free(e.path)
}

/// The entry as it reads back from its record.
pub open spec fn normalized(e: EntryView) -> EntryView {
    parse_record(entry_bytes(e))
}

proof fn lemma_first_nul(s: Seq<u8>, i: int, j: int)
    requires
        0 <= i <= j < s.len(),
        forall|k: int| i <= k < j ==> s[k] != 0,
        s[j] == 0,
    ensures
        first_nul(s, i) == j,
    decreases j - i,
{
    if i < j {
        lemma_first_nul(s, i + 1, j);
    }
}

/// A record reads back as an entry with the same path and id, and that
/// entry writes the same record.
pub proof fn lemma_record_round_trip(e: EntryView)
    requires
        storable(e),
    ensures
        entry_bytes(e).len() == record_len(e.path.len() as int),
        normalized(e).path == e.path,
        normalized(e).id == e.id,
        entry_bytes(normalized(e)) == entry_bytes(e),
{
    reveal(entry_bytes);
    let r = entry_bytes(e);
    let n = e.path.len() as int;
    let pad = Seq::new(pad_len(n) as nat, |i: int| 0u8);
    assert(r.len() == 63 + n + pad_len(n));
    lemma_be32_round_trip(e.stat.ctime as u32);
    lemma_be32_round_trip(e.stat.ctime_nsec as u32);
    lemma_be32_round_trip(e.stat.mtime as u32);
    lemma_be32_round_trip(e.stat.mtime_nsec as u32);
    lemma_be32_round_trip(e.stat.dev as u32);
    lemma_be32_round_trip(e.stat.ino as u32);
    lemma_be32_round_trip(e.mode);
    lemma_be32_round_trip(e.stat.uid);
    lemma_be32_round_trip(e.stat.gid);
    lemma_be32_round_trip(e.stat.size as u32);
    lemma_be16_round_trip(e.flags as u16);
    assert(r.subrange(0, 4) =~= be32(e.stat.ctime as u32));
    assert(r.subrange(4, 8) =~= be32(e.stat.ctime_nsec as u32));
    assert(r.subrange(8, 12) =~= be32(e.stat.mtime as u32));
    assert(r.subrange(12, 16) =~= be32(e.stat.mtime_nsec as u32));
    assert(r.subrange(16, 20) =~= be32(e.stat.dev as u32));
    assert(r.subrange(20, 24) =~= be32(e.stat.ino as u32));
    assert(r.subrange(24, 28) =~= be32(e.mode));
    assert(r.subrange(28, 32) =~= be32(e.stat.uid));
    assert(r.subrange(32, 36) =~= be32(e.stat.gid));
    assert(r.subrange(36, 40) =~= be32(e.stat.size as u32));
    assert(r.subrange(40, 60) =~= e.id);
    assert(r.subrange(60, 62) =~= be16(e.flags as u16));
    assert forall|k: int| 62 <= k < 62 + n implies r[k] != 0 by {
        assert(r[k] == e.path[k - 62]);
    }
    assert(r[62 + n] == 0);
    lemma_first_nul(r, 62, 62 + n);
    assert(r.subrange(62, 62 + n) =~= e.path);
    let q = normalized(e);
    assert(entry_bytes(q) =~= r);
}

/// The bytes of a record after the fixed prefix: the path, then NULs.
proof fn lemma_record_tail(e: EntryView, j: int)
    requires
        storable(e),
        62 <= j < record_len(e.path.len() as int),
    ensures
        entry_bytes(e).len() == record_len(e.path.len() as int),
        j < 62 + e.path.len() ==> entry_bytes(e)[j] == e.path[j - 62],
        j >= 62 + e.path.len() ==> entry_bytes(e)[j] == 0,
{
    reveal(entry_bytes);
    let x = entry_bytes(e);
    let n = e.path.len() as int;
    assert(x.len() == 63 + n + pad_len(n));
    if j < 62 + n {
        assert(x[j] == e.path[j - 62]);
    } else if j == 62 + n {
        assert(x[j] == 0);
    } else {
        assert(x[j] == 0);
    }
}

/// The records of a list, split at the front.
pub proof fn lemma_entries_bytes_front(s: Seq<EntryView>)
    requires
        s.len() > 0,
    ensures
        entries_bytes(s) == entry_bytes(s[0]) + entries_bytes(s.drop_first()),
    decreases s.len(),
{
    if s.len() == 1 {
        assert(s.drop_last() =~= Seq::<EntryView>::empty());
        assert(s.drop_first() =~= Seq::<EntryView>::empty());
        assert(entries_bytes(s) =~= entry_bytes(s[0]) + entries_bytes(s.drop_first()));
    } else {
        lemma_entries_bytes_front(s.drop_last());
        assert(s.drop_last().drop_first() =~= s.drop_first().drop_last());
        assert(s.drop_last()[0] == s[0]);
        assert(s.drop_first().last() == s.last());
        assert(entries_bytes(s) =~= entry_bytes(s[0]) + entries_bytes(s.drop_first()));
    }
}

/// Reading a record in 8-byte steps stops exactly at its end.
proof fn lemma_record_end(d: Seq<u8>, p: int, e: EntryView, end: int, limit: int)
    requires
        storable(e),
        0 <= p,
        p + record_len(e.path.len() as int) <= limit <= d.len(),
        d.subrange(p, p + record_len(e.path.len() as int)) == entry_bytes(e),
        p + 64 <= end <= p + record_len(e.path.len() as int),
        (end - p) % 8 == 0,
    ensures
        record_end(d, end, limit) == Some(p + record_len(e.path.len() as int)),
    decreases p + record_len(e.path.len() as int) - end,
{
    let n = e.path.len() as int;
    let len = record_len(n);
    lemma_record_tail(e, end - 1 - p);
    let r = entry_bytes(e);
    assert(d[end - 1] == d.subrange(p, p + len)[end - 1 - p]);
    if end < p + len {
        assert(end - p + 8 <= len) by {
            assert(len % 8 == 0);
        }
        assert(end - 1 - p < 62 + n);
        lemma_record_end(d, p, e, end + 8, limit);
    }
}

/// The records of `t`, lying in `d` from `p` on, read back as the
/// normalized entries.
pub proof fn lemma_parse_entries(d: Seq<u8>, p: int, t: Seq<EntryView>, limit: int)
    requires
        forall|i: int| 0 <= i < t.len() ==> storable(#[trigger] t[i]),
        0 <= p,
        p + entries_bytes(t).len() <= limit <= d.len(),
        d.subrange(p, p + entries_bytes(t).len()) == entries_bytes(t),
    ensures
        parse_entries(d, p, t.len(), limit) == Some(
            (t.map_values(|e: EntryView| normalized(e)), p + entries_bytes(t).len()),
        ),
    decreases t.len(),
{
    if t.len() == 0 {
        assert(t.map_values(|e: EntryView| normalized(e)) =~= Seq::<EntryView>::empty());
    } else {
        lemma_entries_bytes_front(t);
        let e = t[0];
        assert(storable(e));
        lemma_record_round_trip(e);
        let len = record_len(e.path.len() as int);
        let rest = t.drop_first();
        assert(d.subrange(p, p + len) =~= entry_bytes(e)) by {
            assert(d.subrange(p, p + len) =~= d.subrange(p, p + entries_bytes(t).len()).subrange(0, len));
        }
        assert(d.subrange(p + len, p + len + entries_bytes(rest).len()) =~= entries_bytes(rest)) by {
            assert(d.subrange(p + len, p + len + entries_bytes(rest).len()) =~= d.subrange(
                p,
                p + entries_bytes(t).len(),
            ).subrange(len, entries_bytes(t).len() as int));
        }
        lemma_record_end(d, p, e, p + 64, limit);
        assert forall|i: int| 0 <= i < rest.len() implies storable(#[trigger] rest[i]) by {
            assert(rest[i] == t[i + 1]);
        }
        lemma_parse_entries(d, p + len, rest, limit);
        assert(seq![normalized(e)] + rest.map_values(|e: EntryView| normalized(e)) =~= t.map_values(
            |e: EntryView| normalized(e),
        ));
    }
}

/// Normalizing keeps each record.
pub proof fn lemma_normalized_bytes(s: Seq<EntryView>)
    requires
        forall|i: int| 0 <= i < s.len() ==> storable(#[trigger] s[i]),
    ensures
        entries_bytes(s.map_values(|e: EntryView| normalized(e))) == entries_bytes(s),
    decreases s.len(),
{
    if s.len() > 0 {
        let t = s.map_values(|e: EntryView| normalized(e));
        assert(t.drop_last() =~= s.drop_last().map_values(|e: EntryView| normalized(e)));
        lemma_normalized_bytes(s.drop_last());
        lemma_record_round_trip(s.last());
    }
}

/// An index file written for `s` reads back as the normalized entries of
/// `s`, its checksum verifying.
pub proof fn lemma_parse_written(s: Seq<EntryView>, d: Seq<u8>)
    requires
        forall|i: int| 0 <= i < s.len() ==> storable(#[trigger] s[i]),
        s.len() <= u32::MAX,
        d == index_bytes(s),
        d.len() == index_body(s).len() + 20,
    ensures
        parse_index(d) == Loaded::Entries(s.map_values(|e: EntryView| normalized(e))),
{
    let body = index_body(s);
    let eb = entries_bytes(s);
    lemma_be32_round_trip(VERSION);
    lemma_be32_round_trip(s.len() as u32);
    assert(d.subrange(0, 4) =~= signature());
    assert(d.subrange(4, 8) =~= be32(VERSION));
    assert(d.subrange(8, 12) =~= be32(s.len() as u32));
    let limit = d.len() - 20;
    assert(limit == 12 + eb.len());
    assert(d.subrange(12, 12 + eb.len() as int) =~= eb);
    lemma_parse_entries(d, 12, s, limit);
    assert(d.take(limit) =~= body);
    assert(d.skip(limit) =~= sha1_of(body));
}

/// Adding entries that are sorted and free of conflicts, in order, stages
/// exactly them.
pub proof fn lemma_staged_sorted(t: Seq<EntryView>)
    requires
        super::sorted_by_path(t),
        super::conflict_free(t),
    ensures
        forall|v: EntryView| #[trigger] staged(t).contains(v) <==> t.contains(v),
    decreases t.len(),
{
    if t.len() > 0 {
        let u = t.drop_last();
        assert(super::sorted_by_path(u));
        assert(super::conflict_free(u));
        lemma_staged_sorted(u);
        let e = t.last();
        assert(t[t.len() - 1] == e);
        let f = staged(u).filter(|w: EntryView| survives(w.path, e.path));
        assert(staged(t) == f.insert(e));
        assert forall|v: EntryView| #[trigger] staged(t).contains(v) <==> t.contains(v) by {
            if v == e {
                assert(t.contains(v));
                assert(f.insert(e).contains(v));
            } else {
                if u.contains(v) {
                    let k = choose|k: int| 0 <= k < u.len() && u[k] == v;
                    assert(t[k] == v);
                    assert(t.contains(v));
                    assert(crate::order::lex_lt(t[k].path, t[t.len() - 1].path));
                    crate::order::lemma_lex_irreflexive(v.path);
                    assert(!is_under(t[k].path, t[t.len() - 1].path));
                    assert(!is_under(t[t.len() - 1].path, t[k].path));
                    assert(survives(v.path, e.path));
                    assert(staged(u).contains(v));
                    assert(f.contains(v));
                }
                if t.contains(v) {
                    let k = choose|k: int| 0 <= k < t.len() && t[k] == v;
                    assert(k < t.len() - 1);
                    assert(u[k] == v);
                    assert(u.contains(v));
                }
                if staged(t).contains(v) {
                    assert(f.contains(v));
                    assert(staged(u).contains(v));
                    assert(u.contains(v));
                }
            }
        }
    }
}

/// Two lists sorted strictly by path with the same entries are equal.
pub proof fn lemma_sorted_unique(a: Seq<EntryView>, b: Seq<EntryView>)
    requires
        super::sorted_by_path(a),
        super::sorted_by_path(b),
        forall|v: EntryView| #![trigger a.contains(v)] #![trigger b.contains(v)] a.contains(v) <==> b.contains(v),
    ensures
        a == b,
    decreases a.len(),
{
    if a.len() == 0 {
        if b.len() > 0 {
            assert(b[0] == b[0]);
            assert(b.contains(b[0]));
            assert(a.contains(b[0]));
        }
        assert(a =~= b);
    } else if b.len() == 0 {
        assert(a[0] == a[0]);
        assert(a.contains(a[0]));
        assert(b.contains(a[0]));
    } else {
        let x = a.last();
        let y = b.last();
        assert(a[a.len() - 1] == x);
        assert(b[b.len() - 1] == y);
        assert(a.contains(x));
        assert(b.contains(y));
        assert(b.contains(x));
        assert(a.contains(y));
        let j = choose|j: int| 0 <= j < b.len() && b[j] == x;
        let k = choose|k: int| 0 <= k < a.len() && a[k] == y;
        if j < b.len() - 1 {
            assert(crate::order::lex_lt(x.path, y.path));
            if k < a.len() - 1 {
                assert(crate::order::lex_lt(y.path, x.path));
                crate::order::lemma_lex_asymmetric(x.path, y.path);
            } else {
                crate::order::lemma_lex_irreflexive(x.path);
            }
        }
        assert(x == y);
        let a2 = a.drop_last();
        let b2 = b.drop_last();
        assert(super::sorted_by_path(a2));
        assert(super::sorted_by_path(b2));
        assert forall|v: EntryView| #![trigger a2.contains(v)] #![trigger b2.contains(v)] a2.contains(v) <==> b2.contains(v) by {
            if a2.contains(v) {
                let i = choose|i: int| 0 <= i < a2.len() && a2[i] == v;
                assert(a[i] == v);
                assert(a.contains(v));
                assert(b.contains(v));
                let i2 = choose|i2: int| 0 <= i2 < b.len() && b[i2] == v;
                if i2 == b.len() - 1 {
                    assert(crate::order::lex_lt(a[i].path, a[a.len() - 1].path));
                    crate::order::lemma_lex_irreflexive(v.path);
                }
                assert(b2[i2] == v);
            }
            if b2.contains(v) {
                let i = choose|i: int| 0 <= i < b2.len() && b2[i] == v;
                assert(b[i] == v);
                assert(b.contains(v));
                assert(a.contains(v));
                let i2 = choose|i2: int| 0 <= i2 < a.len() && a[i2] == v;
                if i2 == a.len() - 1 {
                    assert(crate::order::lex_lt(b[i].path, b[b.len() - 1].path));
                    crate::order::lemma_lex_irreflexive(v.path);
                }
                assert(a2[i2] == v);
            }
        }
        lemma_sorted_unique(a2, b2);
        assert(a =~= b) by {
            assert(a =~= a2.push(x));
            assert(b =~= b2.push(y));
        }
    }
}

} // verus!
