//! One record of the index: a tracked path, its blob id and cached stat.

use vstd::prelude::*;
use crate::codec::{be16, be32, from_be16, from_be32};
use crate::id::{copy_bytes, Id};
use crate::codec::{bytes_to_uint16, bytes_to_uint32, copy_range, put_bytes, put_u16, put_u32};
use crate::workspace;

verus! {

pub const REGULAR_MODE: u32 = 0o100644;

pub const EXECUTABLE_MODE: u32 = 0o100755;

pub const MAX_PATH_SIZE: usize = 0xfff;

/// The smallest record: the fixed prefix, one path byte and the NUL.
pub const ENTRY_MIN_SIZE: usize = 64;

/// `d` is a proper ancestor directory of `p`: `p` continues `d` with a `/`.
pub open spec fn is_under(p: Seq<u8>, d: Seq<u8>) -> bool {
    &&& d.len() < p.len()
    &&& p[d.len() as int] == 47u8
    &&& p.take(d.len() as int) == d
}

/// The mode recorded for a file with the given stat.
pub open spec fn mode_of(stat: workspace::Stat) -> u32 {
    if stat.spec_is_executable() {
        EXECUTABLE_MODE
    } else {
        REGULAR_MODE
    }
}

/// What an entry holds, as plain values.
pub struct EntryView {
    pub id: Seq<u8>,
    pub path: Seq<u8>,
    pub stat: workspace::Stat,
    pub mode: u32,
    pub flags: usize,
}

/// Number of NUL bytes after the path's terminator that bring a record to a
/// multiple of eight bytes.
pub open spec fn pad_len(path_len: int) -> int {
    let r = (63 + path_len) % 8;
    if r == 0 {
        0
    } else {
        8 - r
    }
}

/// Length of the record of an entry whose path has `path_len` bytes.
pub open spec fn record_len(path_len: int) -> int {
    63 + path_len + pad_len(path_len)
}

/// The serialized record of an entry: ten big-endian stat words (the mode
/// word is the entry's mode), the id, the flags, the path, a NUL, padding.
#[verifier::opaque]
pub open spec fn entry_bytes(e: EntryView) -> Seq<u8> {
    be32(e.stat.ctime as u32) + be32(e.stat.ctime_nsec as u32) + be32(e.stat.mtime as u32) + be32(
        e.stat.mtime_nsec as u32,
    ) + be32(e.stat.dev as u32) + be32(e.stat.ino as u32) + be32(e.mode) + be32(e.stat.uid) + be32(
        e.stat.gid,
    ) + be32(e.stat.size as u32) + e.id + be16(e.flags as u16) + e.path + seq![0u8] + Seq::new(
        pad_len(e.path.len() as int) as nat,
        |i: int| 0u8,
    )
}

/// Index of the first NUL byte of `s` at or after `i` (the length when
/// there is none).
pub open spec fn first_nul(s: Seq<u8>, i: int) -> int
    decreases s.len() - i,
{
    if i >= s.len() || i < 0 {
        s.len() as int
    } else if s[i] == 0 {
        i
    } else {
        first_nul(s, i + 1)
    }
}

/// The entry that a record holds. The stat's mode is the entry's mode, as
/// the record keeps only one.
pub open spec fn parse_record(r: Seq<u8>) -> EntryView {
    let mode = from_be32(r.subrange(24, 28));
    EntryView {
        id: r.subrange(40, 60),
        path: r.subrange(62, first_nul(r, 62)),
        stat: workspace::Stat {
            ctime: from_be32(r.subrange(0, 4)) as i64,
            ctime_nsec: from_be32(r.subrange(4, 8)) as i64,
            mtime: from_be32(r.subrange(8, 12)) as i64,
            mtime_nsec: from_be32(r.subrange(12, 16)) as i64,
            dev: from_be32(r.subrange(16, 20)) as u64,
            ino: from_be32(r.subrange(20, 24)) as u64,
            mode,
            uid: from_be32(r.subrange(28, 32)),
            gid: from_be32(r.subrange(32, 36)),
            size: from_be32(r.subrange(36, 40)) as u64,
        },
        mode,
        flags: from_be16(r.subrange(60, 62)) as usize,
    }
}

/// An entry of the index.
#[derive(Debug)]
pub struct Entry {
    pub id: Id,
    pub pathname: Vec<u8>,
    pub stat: workspace::Stat,
    pub mode: u32,
    pub flags: usize,
}

impl View for Entry {
    type V = EntryView;

    open spec fn view(&self) -> EntryView {
        EntryView {
            id: self.id.as_bytes@,
            path: self.pathname@,
            stat: self.stat,
            mode: self.mode,
            flags: self.flags,
        }
    }
}

impl Entry {
    /// Well formed: a 20-byte id in agreement with its hex form.
    pub open spec fn wf(&self) -> bool {
        self.id.wf()
    }

    /// An entry for a file of the working tree with the given blob id and
    /// stat; the flags hold the path length, capped at 0xfff.
    pub fn new(workspace_entry: workspace::Entry, id: Id, stat: workspace::Stat) -> (r: Entry)
        ensures
            r@ == (EntryView {
                id: id.as_bytes@,
                path: workspace_entry.relative_path@,
                stat,
                mode: mode_of(stat),
                flags: if workspace_entry.len < MAX_PATH_SIZE {
                    workspace_entry.len
                } else {
                    MAX_PATH_SIZE
                },
            }),
            id.wf() ==> r.wf(),
    {
        let flags = if workspace_entry.len < MAX_PATH_SIZE {
            workspace_entry.len
        } else {
            MAX_PATH_SIZE
        };
        Entry {
            id,
            pathname: workspace_entry.relative_path,
            mode: Self::mode_for_stat(&stat),
            flags,
            stat,
        }
    }

    pub fn mode_for_stat(stat: &workspace::Stat) -> (r: u32)
        ensures
            r == mode_of(*stat),
    {
        if stat.is_executable() {
            EXECUTABLE_MODE
        } else {
            REGULAR_MODE
        }
    }

    /// Replace the cached stat, and the mode that follows from it.
    pub fn update_stat(&mut self, stat: &workspace::Stat)
        ensures
            final(self)@ == (EntryView { stat: *stat, mode: mode_of(*stat), ..old(self)@ }),
            final(self).id == old(self).id,
    {
        self.stat = *stat;
        self.mode = Self::mode_for_stat(stat);
    }

    /// Mode and size agree with `stat`.
    pub fn matches_stat(&self, stat: &workspace::Stat) -> (r: bool)
        ensures
            r == (self.mode == mode_of(*stat) && self.stat.size == stat.size),
    {
        self.mode == Self::mode_for_stat(stat) && self.stat.size == stat.size
    }

    /// The four cached time fields agree with `stat`.
    pub fn matches_times(&self, stat: &workspace::Stat) -> (r: bool)
        ensures
            r == (self.stat.ctime == stat.ctime && self.stat.ctime_nsec == stat.ctime_nsec
                && self.stat.mtime == stat.mtime && self.stat.mtime_nsec == stat.mtime_nsec),
    {
        self.stat.ctime == stat.ctime && self.stat.ctime_nsec == stat.ctime_nsec && self.stat.mtime
            == stat.mtime && self.stat.mtime_nsec == stat.mtime_nsec
    }

    /// The proper ancestor directories of the entry's path, shortest first.
    pub fn parents(&self) -> (r: Vec<Vec<u8>>)
        ensures
            forall|i: int| 0 <= i < r@.len() ==> is_under(self.pathname@, #[trigger] r@[i]@),
            forall|d: Seq<u8>|
                is_under(self.pathname@, d) ==> exists|i: int|
                    0 <= i < r@.len() && #[trigger] r@[i]@ == d,
            forall|i: int, j: int| 0 <= i < j < r@.len() ==> r@[i]@.len() < r@[j]@.len(),
    {
        let p = self.pathname.as_slice();
        let mut out: Vec<Vec<u8>> = Vec::new();
        let mut k: usize = 0;
        while k < p.len()
            invariant
                k <= p@.len(),
                p@ == self.pathname@,
                forall|i: int| 0 <= i < out@.len() ==> is_under(p@, #[trigger] out@[i]@),
                forall|i: int| 0 <= i < out@.len() ==> #[trigger] out@[i]@.len() < k,
                forall|d: Seq<u8>|
                    is_under(p@, d) && d.len() < k ==> exists|i: int|
                        0 <= i < out@.len() && #[trigger] out@[i]@ == d,
                forall|i: int, j: int| 0 <= i < j < out@.len() ==> out@[i]@.len() < out@[j]@.len(),
            decreases p@.len() - k,
        {
            if p[k] == 47u8 {
                let prefix = copy_range(p, 0, k);
                let ghost before = out@;
                out.push(prefix);
                proof {
                    assert(prefix@ =~= p@.take(k as int));
                    assert forall|d: Seq<u8>| is_under(p@, d) && d.len() < k + 1 implies exists|
                        i: int,
                    | 0 <= i < out@.len() && #[trigger] out@[i]@ == d by {
                        if d.len() == k {
                            assert(out@[out@.len() - 1]@ == d);
                        } else {
                            let i = choose|i: int| 0 <= i < before.len() && #[trigger] before[i]@ == d;
                            assert(out@[i]@ == d);
                        }
                    }
                }
            } else {
                proof {
                    assert forall|d: Seq<u8>| is_under(p@, d) && d.len() < k + 1 implies exists|
                        i: int,
                    | 0 <= i < out@.len() && #[trigger] out@[i]@ == d by {
                        assert(d.len() != k);
                    }
                }
            }
            k = k + 1;
        }
        out
    }

    /// Append the entry's record.
    pub fn write_to(&self, buf: &mut Vec<u8>)
        ensures
            final(buf)@ == old(buf)@ + entry_bytes(self@),
    {
        let ghost start = buf@;
        put_u32(buf, self.stat.ctime as u32);
        put_u32(buf, self.stat.ctime_nsec as u32);
        put_u32(buf, self.stat.mtime as u32);
        put_u32(buf, self.stat.mtime_nsec as u32);
        put_u32(buf, self.stat.dev as u32);
        put_u32(buf, self.stat.ino as u32);
        put_u32(buf, self.mode);
        put_u32(buf, self.stat.uid);
        put_u32(buf, self.stat.gid);
        put_u32(buf, self.stat.size as u32);
        put_bytes(buf, self.id.as_bytes.as_slice());
        put_u16(buf, self.flags as u16);
        put_bytes(buf, self.pathname.as_slice());
        buf.push(0u8);
        let ghost body = buf@;
        let pl = self.pathname.len();
        let rem: usize = (7 + pl % 8) % 8;
        let pad: usize = if rem == 0 {
            0
        } else {
            8 - rem
        };
        proof {
            assert((63 + pl as int) % 8 == (7 + pl as int % 8) % 8) by (nonlinear_arith);
            assert(pad == pad_len(pl as int));
        }
        let mut k: usize = 0;
        while k < pad
            invariant
                k <= pad,
                buf@ == body + Seq::new(k as nat, |i: int| 0u8),
            decreases pad - k,
        {
            buf.push(0u8);
            k = k + 1;
            assert(buf@ =~= body + Seq::new(k as nat, |i: int| 0u8));
        }
        reveal(entry_bytes);
        assert(buf@ =~= start + entry_bytes(self@));
    }

    /// The entry that the record `r` holds: the path runs from offset 62 to
    /// the first NUL.
    pub fn from_record(r: &[u8]) -> (e: Entry)
        requires
            r@.len() >= ENTRY_MIN_SIZE,
        ensures
            e@ == parse_record(r@),
            e.wf(),
    {
        let ctime = bytes_to_uint32(r, 0);
        let ctime_nsec = bytes_to_uint32(r, 4);
        let mtime = bytes_to_uint32(r, 8);
        let mtime_nsec = bytes_to_uint32(r, 12);
        let dev = bytes_to_uint32(r, 16);
        let ino = bytes_to_uint32(r, 20);
        let mode = bytes_to_uint32(r, 24);
        let uid = bytes_to_uint32(r, 28);
        let gid = bytes_to_uint32(r, 32);
        let size = bytes_to_uint32(r, 36);
        let id_bytes = copy_range(r, 40, 60);
        let id = Id::parse(id_bytes.as_slice());
        let flags = bytes_to_uint16(r, 60);
        let mut pos: usize = 62;
        while pos < r.len() && r[pos] != 0
            invariant
                62 <= pos <= r@.len(),
                first_nul(r@, 62) == first_nul(r@, pos as int),
            decreases r@.len() - pos,
        {
            pos = pos + 1;
        }
        let pathname = copy_range(r, 62, pos);
        Entry {
            id,
            pathname,
            stat: workspace::Stat {
                ctime: ctime as i64,
                ctime_nsec: ctime_nsec as i64,
                mtime: mtime as i64,
                mtime_nsec: mtime_nsec as i64,
                dev: dev as u64,
                ino: ino as u64,
                mode,
                uid,
                gid,
                size: size as u64,
            },
            mode,
            flags: flags as usize,
        }
    }

    /// An independent copy.
    pub fn duplicate(&self) -> (r: Entry)
        ensures
            r@ == self@,
            self.wf() ==> r.wf(),
    {
        Entry {
            id: self.id.duplicate(),
            pathname: copy_bytes(self.pathname.as_slice()),
            stat: self.stat,
            mode: self.mode,
            flags: self.flags,
        }
    }
}

} // verus!
