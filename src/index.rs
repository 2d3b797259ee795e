//! The staging area: a sorted, checksummed mapping from paths to blob ids
//! and cached stat data.

pub mod entry;
pub mod format;

use vstd::prelude::*;
use crate::codec::{be32, bytes_to_uint32, copy_range, put_bytes, put_u32};
use crate::errors::IndexError;
use crate::id::{Additive, Id};
use crate::order::{compare_bytes, lemma_lex_irreflexive, lemma_lex_total, lemma_lex_transitive, lex_lt};
use crate::workspace;

pub use entry::Entry;
use entry::{is_under, mode_of, EntryView, MAX_PATH_SIZE};
use format::{entries_bytes, index_body, index_bytes, lemma_normalized_bytes, lemma_parse_written, lemma_record_round_trip, lemma_sorted_unique, lemma_staged_sorted, normalized, nul_free, parse_entries, parse_index, prepend, record_end, signature, skip_extensions, staged, Loaded, VERSION};

verus! {

/// Paths in strictly increasing byte order.
pub open spec fn sorted_by_path(s: Seq<EntryView>) -> bool {
    forall|i: int, j: int|
        0 <= i < j < s.len() ==> lex_lt(#[trigger] s[i].path, #[trigger] s[j].path)
}

/// No entry lies under another entry's path.
pub open spec fn conflict_free(s: Seq<EntryView>) -> bool {
    forall|i: int, j: int|
        0 <= i < s.len() && 0 <= j < s.len() ==> !is_under(#[trigger] s[i].path, #[trigger] s[j].path)
}

/// An entry at `q` stays when one is added at `p`: it is neither at `p`, nor
/// above it, nor under it.
pub open spec fn survives(q: Seq<u8>, p: Seq<u8>) -> bool {
    q != p && !is_under(q, p) && !is_under(p, q)
}

/// Some entry is at `p`.
pub open spec fn has_entry(s: Seq<EntryView>, p: Seq<u8>) -> bool {
    exists|i: int| 0 <= i < s.len() && (#[trigger] s[i]).path == p
}

/// `d` is a directory above some entry: a key of the parents map.
pub open spec fn is_parent_dir(s: Seq<EntryView>, d: Seq<u8>) -> bool {
    exists|i: int| 0 <= i < s.len() && is_under((#[trigger] s[i]).path, d)
}

/// The parents map: each directory above an entry, to the paths of the
/// entries under it.
pub open spec fn parents_of(s: Seq<EntryView>) -> Map<Seq<u8>, Set<Seq<u8>>> {
    Map::new(
        |d: Seq<u8>| is_parent_dir(s, d),
        |d: Seq<u8>| Set::new(|q: Seq<u8>| has_entry(s, q) && is_under(q, d)),
    )
}

/// The entries after adding `e` to `s`: those that survive, and `e`.
pub open spec fn added(s: Seq<EntryView>, e: EntryView, v: EntryView) -> bool {
    (s.contains(v) && survives(v.path, e.path)) || v == e
}

/// What a list of entries holds.
pub open spec fn views(s: Seq<Entry>) -> Seq<EntryView> {
    s.map_values(|e: Entry| e@)
}

/// The index in memory.
pub struct Index {
    path: Vec<u8>,
    entries: Vec<Entry>,
    changed: bool,
}

impl View for Index {
    type V = Seq<EntryView>;

    closed spec fn view(&self) -> Seq<EntryView> {
        views(self.entries@)
    }
}

impl Index {
    /// Sorted by path, free of file/directory conflicts, each id well formed.
    pub closed spec fn wf(&self) -> bool {
        &&& sorted_by_path(self@)
        &&& conflict_free(self@)
        &&& forall|i: int| 0 <= i < self.entries@.len() ==> (#[trigger] self.entries@[i]).wf()
    }

    /// Where the index file lives.
    pub closed spec fn file_path(&self) -> Seq<u8> {
        self.path@
    }

    /// Where the index file lives.
    pub fn path(&self) -> (r: &Vec<u8>)
        ensures
            r@ == self.file_path(),
    {
        &self.path
    }

    /// The in-memory state differs from what was last loaded or written.
    pub closed spec fn is_changed(&self) -> bool {
        self.changed
    }

    /// An empty index for the file at `path`.
    pub fn new(path: Vec<u8>) -> (r: Index)
        ensures
            r.wf(),
            r@ == Seq::<EntryView>::empty(),
            !r.is_changed(),
            r.file_path() == path@,
    {
        let r = Index { path, entries: Vec::new(), changed: false };
        assert(r@ =~= Seq::<EntryView>::empty());
        r
    }

    /// Forget every entry.
    fn clear(&mut self)
        ensures
            final(self).wf(),
            final(self)@ == Seq::<EntryView>::empty(),
            !final(self).is_changed(),
            final(self).file_path() == old(self).file_path(),
    {
        self.entries = Vec::new();
        self.changed = false;
        assert(self@ =~= Seq::<EntryView>::empty());
    }

    /// Number of entries.
    pub fn len(&self) -> (r: usize)
        ensures
            r == self@.len(),
    {
        self.entries.len()
    }

    /// The `i`-th entry in path order.
    pub fn entry_at(&self, i: usize) -> (r: &Entry)
        requires
            i < self@.len(),
        ensures
            r@ == self@[i as int],
    {
        &self.entries[i]
    }

    /// A well-formed index is sorted strictly by path, and no entry lies
    /// under another.
    pub proof fn lemma_sorted(&self)
        requires
            self.wf(),
        ensures
            sorted_by_path(self@),
            conflict_free(self@),
    {
    }

    /// No two entries share a path.
    pub proof fn lemma_unique_paths(&self)
        requires
            self.wf(),
        ensures
            forall|a: int, b: int|
                0 <= a < self@.len() && 0 <= b < self@.len() && a != b ==> (#[trigger] self@[a]).path
                    != (#[trigger] self@[b]).path,
    {
        assert forall|a: int, b: int|
            0 <= a < self@.len() && 0 <= b < self@.len() && a != b implies (#[trigger] self@[a]).path
                != (#[trigger] self@[b]).path by {
            if a < b {
                assert(lex_lt(self@[a].path, self@[b].path));
                lemma_lex_irreflexive(self@[a].path);
            } else {
                assert(lex_lt(self@[b].path, self@[a].path));
                lemma_lex_irreflexive(self@[b].path);
            }
        }
    }

    /// Whether `pathname` is an entry or a directory above one.
    pub fn is_tracked(&self, pathname: &[u8]) -> (r: bool)
        ensures
            r == (has_entry(self@, pathname@) || is_parent_dir(self@, pathname@)),
    {
        let mut i: usize = 0;
        while i < self.entries.len()
            invariant
                i <= self.entries@.len(),
                forall|j: int|
                    0 <= j < i ==> (#[trigger] self@[j]).path != pathname@ && !is_under(
                        self@[j].path,
                        pathname@,
                    ),
            decreases self.entries@.len() - i,
        {
            let p = self.entries[i].pathname.as_slice();
            assert(self@[i as int].path == p@);
            if crate::id::bytes_equal(p, pathname) || under(p, pathname) {
                return true;
            }
            i = i + 1;
        }
        false
    }

    /// Stage a file: the new entry replaces any entry at its path, any entry
    /// at a directory above it, and every entry under it.
    pub fn add(&mut self, workspace_entry: workspace::Entry, id: Id, stat: workspace::Stat)
        requires
            old(self).wf(),
            id.wf(),
        ensures
            final(self).wf(),
            sorted_by_path(final(self)@),
            conflict_free(final(self)@),
            final(self).is_changed(),
            final(self).file_path() == old(self).file_path(),
            forall|v: EntryView|
                #[trigger] final(self)@.contains(v) <==> added(
                    old(self)@,
                    EntryView {
                        id: id.as_bytes@,
                        path: workspace_entry.relative_path@,
                        stat,
                        mode: mode_of(stat),
                        flags: if workspace_entry.len < MAX_PATH_SIZE {
                            workspace_entry.len
                        } else {
                            MAX_PATH_SIZE
                        },
                    },
                    v,
                ),
    {
        let entry = Entry::new(workspace_entry, id, stat);
        self.insert_entry(entry);
        self.changed = true;
    }

    /// Copies of the entries that survive the addition of an entry at `p`,
    /// in order.
    fn surviving(&self, p: &[u8]) -> (kept: Vec<Entry>)
        requires
            self.wf(),
        ensures
            forall|k: int| 0 <= k < kept@.len() ==> (#[trigger] kept@[k]).wf(),
            surviving_of(self@, views(kept@), p@),
    {
        let ghost old_view = self@;
        let mut kept: Vec<Entry> = Vec::new();
        // `src[k]` is the position in the index of `kept[k]`.
        let ghost mut src: Seq<int> = Seq::empty();
        // `dst[j]` is the position in `kept` of the `j`-th entry, if kept.
        let ghost mut dst: Seq<int> = Seq::empty();
        let mut i: usize = 0;
        while i < self.entries.len()
            invariant
                i <= self.entries@.len(),
                self@ == old_view,
                old_view.len() == self.entries@.len(),
                forall|j: int| 0 <= j < self.entries@.len() ==> (#[trigger] self.entries@[j]).wf(),
                src.len() == kept@.len(),
                forall|k: int|
                    0 <= k < kept@.len() ==> 0 <= #[trigger] src[k] < i && old_view[src[k]]
                        == kept@[k]@ && survives(old_view[src[k]].path, p@) && kept@[k].wf(),
                forall|a: int, b: int| 0 <= a < b < src.len() ==> #[trigger] src[a] < #[trigger] src[b],
                forall|k: int| 0 <= k < kept@.len() ==> (#[trigger] kept@[k]).wf(),
                dst.len() == i,
                forall|j: int|
                    0 <= j < i && survives(old_view[j].path, p@) ==> 0 <= #[trigger] dst[j]
                        < src.len() && src[dst[j]] == j,
            decreases self.entries@.len() - i,
        {
            let q = self.entries[i].pathname.as_slice();
            assert(old_view[i as int] == self.entries@[i as int]@);
            let keep = !crate::id::bytes_equal(q, p) && !under(q, p) && !under(p, q);
            if keep {
                let copy = self.entries[i].duplicate();
                kept.push(copy);
                proof {
                    dst = dst.push(src.len() as int);
                    src = src.push(i as int);
                }
            } else {
                proof {
                    dst = dst.push(-1);
                }
            }
            i = i + 1;
        }
        proof {
            assert(views(kept@).len() == kept@.len());
            assert forall|k: int| 0 <= k < kept@.len() implies #[trigger] views(kept@)[k]
                == kept@[k]@ by {}
            lemma_surviving(old_view, views(kept@), src, dst, p@);
        }
        kept
    }

    /// Copies of the entries, sorted by path.
    pub fn entries(&self) -> (r: Vec<Entry>)
        requires
            self.wf(),
        ensures
            views(r@) == self@,
            sorted_by_path(views(r@)),
            conflict_free(views(r@)),
            forall|i: int| 0 <= i < r@.len() ==> (#[trigger] r@[i]).wf(),
    {
        let mut out: Vec<Entry> = Vec::new();
        let mut i: usize = 0;
        while i < self.entries.len()
            invariant
                i <= self.entries@.len(),
                self.wf(),
                views(out@) == self@.take(i as int),
                forall|k: int| 0 <= k < out@.len() ==> (#[trigger] out@[k]).wf(),
            decreases self.entries@.len() - i,
        {
            let e = self.entries[i].duplicate();
            let ghost before = out@;
            out.push(e);
            proof {
                assert(views(out@) =~= views(before).push(self.entries@[i as int]@));
                assert(self@.take(i + 1) =~= self@.take(i as int).push(self@[i as int]));
                assert forall|k: int| 0 <= k < out@.len() implies (#[trigger] out@[k]).wf() by {
                    if k < before.len() {
                        assert(out@[k] == before[k]);
                    }
                }
            }
            i = i + 1;
        }
        assert(self@.take(i as int) =~= self@);
        out
    }

    /// Refresh the cached stat of the entry at `pathname`, if there is one;
    /// the index is then changed.
    pub fn update_entry_stat(&mut self, pathname: &[u8], stat: &workspace::Stat)
        requires
            old(self).wf(),
        ensures
            final(self).wf(),
            final(self).file_path() == old(self).file_path(),
            final(self)@.len() == old(self)@.len(),
            forall|i: int|
                0 <= i < old(self)@.len() ==> #[trigger] final(self)@[i] == if old(self)@[i].path
                    == pathname@ {
                    EntryView { stat: *stat, mode: mode_of(*stat), ..old(self)@[i] }
                } else {
                    old(self)@[i]
                },
            final(self).is_changed() == (old(self).is_changed() || has_entry(old(self)@, pathname@)),
    {
        let mut i: usize = 0;
        while i < self.entries.len()
            invariant
                i <= self.entries@.len(),
                self.wf(),
                self@ == old(self)@,
                self.path == old(self).path,
                self.changed == old(self).changed,
                forall|j: int| 0 <= j < i ==> (#[trigger] self@[j]).path != pathname@,
            decreases self.entries@.len() - i,
        {
            if crate::id::bytes_equal(self.entries[i].pathname.as_slice(), pathname) {
                let ghost old_view = self@;
                let mut e = self.entries.remove(i);
                e.update_stat(stat);
                self.entries.insert(i, e);
                self.changed = true;
                proof {
                    assert(old_view[i as int].path == pathname@);
                    assert(has_entry(old_view, pathname@));
                    assert(sorted_by_path(old_view));
                    assert forall|a: int, b: int| 0 <= a < b < old_view.len() && a != i && b != i
                        implies lex_lt(old_view[a].path, old_view[b].path) by {}
                    assert forall|j: int| 0 <= j < old_view.len() implies #[trigger] self@[j] == if old_view[j].path
                        == pathname@ {
                        EntryView { stat: *stat, mode: mode_of(*stat), ..old_view[j] }
                    } else {
                        old_view[j]
                    } by {
                        if j != i {
                            if old_view[j].path == pathname@ {
                                if j < i {
                                } else {
                                    lemma_lex_irreflexive(pathname@);
                                    assert(lex_lt(old_view[i as int].path, old_view[j].path));
                                }
                            }
                        }
                    }
                    assert forall|a: int, b: int| 0 <= a < b < self@.len() implies lex_lt(
                        #[trigger] self@[a].path,
                        #[trigger] self@[b].path,
                    ) by {
                        assert(self@[a].path == old_view[a].path);
                        assert(self@[b].path == old_view[b].path);
                    }
                    assert forall|a: int, b: int|
                        0 <= a < self@.len() && 0 <= b < self@.len() implies !is_under(
                        #[trigger] self@[a].path,
                        #[trigger] self@[b].path,
                    ) by {
                        assert(self@[a].path == old_view[a].path);
                        assert(self@[b].path == old_view[b].path);
                    }
                    assert forall|j: int| 0 <= j < self.entries@.len() implies (
                    #[trigger] self.entries@[j]).wf() by {
                        if j != i {
                            assert(self@[j] == old_view[j]);
                        }
                    }
                }
                return;
            }
            i = i + 1;
        }
        proof {
            assert forall|j: int| 0 <= j < self@.len() implies #[trigger] self@[j] == if self@[j].path
                == pathname@ {
                EntryView { stat: *stat, mode: mode_of(*stat), ..self@[j] }
            } else {
                self@[j]
            } by {}
        }
    }

    /// The bytes of the index file when the index has changed, `None` when
    /// it has not (the caller then releases its lock without writing). The
    /// index is unchanged afterwards.
    pub fn write_updates(&mut self) -> (r: Option<Vec<u8>>)
        requires
            old(self).wf(),
            old(self)@.len() <= u32::MAX,
        ensures
            final(self).wf(),
            final(self)@ == old(self)@,
            final(self).file_path() == old(self).file_path(),
            !final(self).is_changed(),
            old(self).is_changed() <==> r.is_some(),
            r matches Some(b) ==> b@ == index_bytes(old(self)@),
            r matches Some(b) ==> b@.len() == index_body(old(self)@).len() + 20,
    {
        if !self.changed {
            return None;
        }
        let mut buf: Vec<u8> = Vec::new();
        put_bytes(&mut buf, &[68u8, 73, 82, 67]);
        put_u32(&mut buf, VERSION);
        put_u32(&mut buf, self.entries.len() as u32);
        proof {
            assert(buf@ =~= signature() + be32(VERSION) + be32(self@.len() as u32) + entries_bytes(
                self@.take(0),
            ));
        }
        let ghost header = buf@;
        let mut i: usize = 0;
        while i < self.entries.len()
            invariant
                i <= self.entries@.len(),
                buf@ == header + entries_bytes(self@.take(i as int)),
            decreases self.entries@.len() - i,
        {
            self.entries[i].write_to(&mut buf);
            proof {
                assert(self@.take(i + 1).drop_last() =~= self@.take(i as int));
                assert(self@.take(i + 1).last() == self.entries@[i as int]@);
            }
            i = i + 1;
        }
        assert(self@.take(i as int) =~= self@);
        let mut hasher = Additive::new();
        hasher.add(buf.as_slice());
        let id = hasher.commit();
        put_bytes(&mut buf, id.as_bytes.as_slice());
        self.changed = false;
        Some(buf)
    }

    /// Replace the entries by those of an index file's bytes; `None` stands
    /// for a missing file, which leaves the index empty. Each entry read is
    /// added as `add` adds one. On an error the index is left empty.
    pub fn load(&mut self, data: Option<&[u8]>) -> (r: Result<(), IndexError>)
        requires
            old(self).wf(),
        ensures
            final(self).wf(),
            !final(self).is_changed(),
            final(self).file_path() == old(self).file_path(),
            data is None ==> r is Ok && final(self)@ == Seq::<EntryView>::empty(),
            data matches Some(d) ==> match parse_index(d@) {
                Loaded::Truncated => r matches Err(IndexError::Io) && final(self)@ == Seq::<
                    EntryView,
                >::empty(),
                Loaded::BadSignature => r matches Err(IndexError::Parse(_)) && final(self)@ == Seq::<
                    EntryView,
                >::empty(),
                Loaded::BadVersion => r matches Err(IndexError::Parse(_)) && final(self)@ == Seq::<
                    EntryView,
                >::empty(),
                Loaded::BadChecksum => r matches Err(IndexError::Parse(m)) && m@
                    == "Checksum verification of the index failed"@ && final(self)@ == Seq::<
                    EntryView,
                >::empty(),
                Loaded::Entries(es) => r is Ok && forall|v: EntryView|
                    #[trigger] final(self)@.contains(v) <==> staged(es).contains(v),
            },
    {
        self.clear();
        let d = match data {
            None => {
                return Ok(());
            },
            Some(d) => d,
        };
        if d.len() < 12 {
            return Err(IndexError::Io);
        }
        proof {
            assert(d@.subrange(0, 4) =~= seq![d@[0], d@[1], d@[2], d@[3]]);
        }
        if !(d[0] == 68u8 && d[1] == 73u8 && d[2] == 82u8 && d[3] == 67u8) {
            return Err(IndexError::Parse("Signature: expected 'DIRC'".to_owned()));
        }
        proof {
            assert(d@.subrange(0, 4) =~= signature());
        }
        if bytes_to_uint32(d, 4) != VERSION {
            return Err(IndexError::Parse("Version: expected '2'".to_owned()));
        }
        if d.len() < 32 {
            return Err(IndexError::Io);
        }
        let limit: usize = d.len() - 20;
        let count = bytes_to_uint32(d, 8);
        let ghost total = parse_entries(d@, 12, count as nat, limit as int);
        proof {
            assert(d@.len() >= 32);
            assert(total is None ==> parse_index(d@) == Loaded::Truncated);
        }
        let ghost mut acc: Seq<EntryView> = Seq::empty();
        let mut pos: usize = 12;
        let mut i: u32 = 0;
        proof {
            assert(prepend(acc, total) == total) by {
                if let Some(x) = total {
                    assert(acc + x.0 =~= x.0);
                }
            }
            assert forall|v: EntryView| #[trigger] self@.contains(v) <==> staged(acc).contains(v) by {}
        }
        while i < count
            invariant
                12 <= pos <= limit,
                limit == d@.len() - 20,
                i <= count,
                total == parse_entries(d@, 12, count as nat, limit as int),
                total is None ==> parse_index(d@) == Loaded::Truncated,
                total == prepend(acc, parse_entries(d@, pos as int, (count - i) as nat, limit as int)),
                self.wf(),
                !self.changed,
                self.file_path() == old(self).file_path(),
                data == Some(d),
                forall|v: EntryView| #[trigger] self@.contains(v) <==> staged(acc).contains(v),
            decreases count - i,
        {
            if limit - pos < 64 {
                proof {
                    assert(record_end(d@, pos + 64, limit as int) is None);
                    assert(parse_entries(d@, pos as int, (count - i) as nat, limit as int) is None);
                }
                self.clear();
                return Err(IndexError::Io);
            }
            let mut end: usize = pos + 64;
            while d[end - 1] != 0
                invariant
                    12 <= pos,
                    pos + 64 <= end <= limit,
                    i < count,
                    total == parse_entries(d@, 12, count as nat, limit as int),
                    total is None ==> parse_index(d@) == Loaded::Truncated,
                    total == prepend(acc, parse_entries(d@, pos as int, (count - i) as nat, limit as int)),
                    self.wf(),
                    !self.changed,
                    self.file_path() == old(self).file_path(),
                    data == Some(d),
                    forall|v: EntryView| #[trigger] self@.contains(v) <==> staged(acc).contains(v),
                    limit == d@.len() - 20,
                    record_end(d@, pos + 64, limit as int) == record_end(d@, end as int, limit as int),
                decreases limit - end,
            {
                if limit - end < 8 {
                    proof {
                        assert(record_end(d@, end + 8, limit as int) is None);
                        assert(record_end(d@, end as int, limit as int) is None);
                        assert(parse_entries(d@, pos as int, (count - i) as nat, limit as int) is None);
                    }
                    self.clear();
                    return Err(IndexError::Io);
                }
                end = end + 8;
            }
            let record = copy_range(d, pos, end);
            let entry = Entry::from_record(record.as_slice());
            let ghost ev = entry@;
            let ghost old_view = self@;
            self.insert_entry(entry);
            proof {
                let rest = parse_entries(d@, end as int, (count - i - 1) as nat, limit as int);
                assert(parse_entries(d@, pos as int, (count - i) as nat, limit as int) == prepend(
                    seq![ev],
                    rest,
                ));
                if let Some(x) = rest {
                    assert(acc + (seq![ev] + x.0) =~= acc.push(ev) + x.0);
                }
                let nacc = acc.push(ev);
                assert(nacc.drop_last() =~= acc);
                assert forall|v: EntryView| #[trigger] self@.contains(v) <==> staged(nacc).contains(v) by {
                    assert(old_view.contains(v) <==> staged(acc).contains(v));
                }
                acc = nacc;
            }
            pos = end;
            i = i + 1;
        }
        proof {
            assert(total == prepend(acc, Some((Seq::<EntryView>::empty(), pos as int))));
            assert(acc + Seq::<EntryView>::empty() =~= acc);
            assert(total == Some((acc, pos as int)));
            assert(!skip_extensions(d@, pos as int, limit as int) ==> parse_index(d@)
                == Loaded::Truncated);
        }
        let mut at: usize = pos;
        while at != limit
            invariant
                pos <= at <= limit,
                total == Some((acc, pos as int)),
                !skip_extensions(d@, pos as int, limit as int) ==> parse_index(d@) == Loaded::Truncated,
                self.wf(),
                !self.changed,
                self.file_path() == old(self).file_path(),
                data == Some(d),
                forall|v: EntryView| #[trigger] self@.contains(v) <==> staged(acc).contains(v),
                limit == d@.len() - 20,
                skip_extensions(d@, pos as int, limit as int) == skip_extensions(d@, at as int, limit as int),
            decreases limit - at,
        {
            if limit - at < 8 {
                proof {
                    assert(!skip_extensions(d@, at as int, limit as int));
                }
                self.clear();
                return Err(IndexError::Io);
            }
            let size = bytes_to_uint32(d, at + 4);
            if ((limit - at - 8) as u64) < (size as u64) {
                proof {
                    assert(!skip_extensions(d@, at as int, limit as int));
                }
                self.clear();
                return Err(IndexError::Io);
            }
            at = at + 8 + size as usize;
        }
        let mut hasher = Additive::new();
        hasher.add(&d[0..limit]);
        let id = hasher.commit();
        proof {
            assert(d@.subrange(0, limit as int) =~= d@.take(limit as int));
        }
        if !crate::id::bytes_equal(id.as_bytes.as_slice(), &d[limit..d.len()]) {
            proof {
                assert(d@.subrange(limit as int, d@.len() as int) =~= d@.skip(limit as int));
            }
            self.clear();
            return Err(IndexError::Parse("Checksum verification of the index failed".to_owned()));
        }
        proof {
            assert(d@.subrange(limit as int, d@.len() as int) =~= d@.skip(limit as int));
        }
        Ok(())
    }

    /// Drop the entries that conflict with `entry`, then insert it in order.
    #[verifier::rlimit(40)]
    fn insert_entry(&mut self, entry: Entry)
        requires
            old(self).wf(),
            entry.wf(),
        ensures
            final(self).wf(),
            final(self).changed == old(self).changed,
            final(self).file_path() == old(self).file_path(),
            forall|v: EntryView| #[trigger] final(self)@.contains(v) <==> added(old(self)@, entry@, v),
    {
        let ghost old_view = self@;
        let ghost p = entry@.path;
        let mut kept = self.surviving(entry.pathname.as_slice());
        // Find where the new entry goes among those kept.
        let mut pos: usize = 0;
        while pos < kept.len() && compare_bytes(kept[pos].pathname.as_slice(), entry.pathname.as_slice())
            < 0
            invariant
                pos <= kept@.len(),
                forall|k: int| 0 <= k < pos ==> lex_lt((#[trigger] kept@[k])@.path, p),
                entry@.path == p,
            decreases kept@.len() - pos,
        {
            pos = pos + 1;
        }
        let ghost kv = views(kept@);
        let ghost before_ins = kept@;
        let ghost ev = entry@;
        kept.insert(pos, entry);
        proof {
            assert(views(kept@) =~= kv.insert(pos as int, ev));
            assert forall|k: int| 0 <= k < kept@.len() implies (#[trigger] kept@[k]).wf() by {
                if k > pos as int {
                    assert(kept@[k] == before_ins[k - 1]);
                } else if k < pos as int {
                    assert(kept@[k] == before_ins[k]);
                }
            }
            assert forall|k: int| 0 <= k < pos implies lex_lt(#[trigger] kv[k].path, p) by {
                assert(kv[k] == before_ins[k]@);
            }
            if pos < kv.len() {
                assert(kv[pos as int] == before_ins[pos as int]@);
            }
            lemma_insert(old_view, kv, pos as int, ev);
        }
        self.entries = kept;
    }
}

/// The `j`-th entry of `s` survives an addition at `p`.
pub open spec fn kept_at(s: Seq<EntryView>, j: int, p: Seq<u8>) -> bool {
    0 <= j < s.len() && survives(s[j].path, p)
}

/// `kv` is the part of `s` that survives an addition at `p`, in order.
pub open spec fn surviving_of(s: Seq<EntryView>, kv: Seq<EntryView>, p: Seq<u8>) -> bool {
    &&& forall|k: int|
        0 <= k < kv.len() ==> s.contains(#[trigger] kv[k]) && survives(kv[k].path, p)
    &&& forall|j: int|
        #[trigger] kept_at(s, j, p) ==> exists|k: int| 0 <= k < kv.len() && kv[k] == s[j]
    &&& sorted_by_path(kv)
}

#[verifier::rlimit(80)]
proof fn lemma_surviving(
    s: Seq<EntryView>,
    kv: Seq<EntryView>,
    src: Seq<int>,
    dst: Seq<int>,
    p: Seq<u8>,
)
    requires
        sorted_by_path(s),
        src.len() == kv.len(),
        dst.len() == s.len(),
        forall|k: int|
            0 <= k < kv.len() ==> 0 <= #[trigger] src[k] < s.len() && s[src[k]] == kv[k] && survives(
                s[src[k]].path,
                p,
            ),
        forall|a: int, b: int| 0 <= a < b < src.len() ==> #[trigger] src[a] < #[trigger] src[b],
        forall|j: int|
            0 <= j < s.len() && survives(s[j].path, p) ==> 0 <= #[trigger] dst[j] < src.len()
                && src[dst[j]] == j,
    ensures
        surviving_of(s, kv, p),
{
    assert forall|k: int| 0 <= k < kv.len() implies s.contains(#[trigger] kv[k]) && survives(
        kv[k].path,
        p,
    ) by {
        let j = src[k];
        assert(0 <= j < s.len() && s[j] == kv[k]);
    }
    assert forall|j: int| #[trigger] kept_at(s, j, p) implies exists|k: int|
        0 <= k < kv.len() && kv[k] == s[j] by {
        let k = dst[j];
        assert(kv[k] == s[src[k]]);
    }
    assert forall|a: int, b: int| 0 <= a < b < kv.len() implies lex_lt(
        #[trigger] kv[a].path,
        #[trigger] kv[b].path,
    ) by {
        let sa = src[a];
        let sb = src[b];
        assert(sa < sb);
        assert(s[sa] == kv[a]);
        assert(s[sb] == kv[b]);
        assert(lex_lt(s[sa].path, s[sb].path));
    }
    assert(sorted_by_path(kv));
}

/// Inserting `e` at `pos` among the survivors `kv` of `s` gives the index
/// after the addition.
#[verifier::rlimit(80)]
proof fn lemma_insert(s: Seq<EntryView>, kv: Seq<EntryView>, pos: int, e: EntryView)
    requires
        sorted_by_path(s),
        conflict_free(s),
        surviving_of(s, kv, e.path),
        0 <= pos <= kv.len(),
        forall|k: int| 0 <= k < pos ==> lex_lt(#[trigger] kv[k].path, e.path),
        pos < kv.len() ==> !lex_lt(kv[pos].path, e.path),
    ensures
        sorted_by_path(kv.insert(pos, e)),
        conflict_free(kv.insert(pos, e)),
        forall|v: EntryView| #[trigger] kv.insert(pos, e).contains(v) <==> added(s, e, v),
{
    let p = e.path;
    let nv = kv.insert(pos, e);
    assert forall|k: int| pos <= k < kv.len() implies lex_lt(p, #[trigger] kv[k].path) by {
        let j0 = choose|j: int| 0 <= j < s.len() && s[j] == kv[pos];
        lemma_lex_total(kv[pos].path, p);
        if k > pos {
            lemma_lex_transitive(p, kv[pos].path, kv[k].path);
        }
    }
    assert forall|a: int, b: int| 0 <= a < b < nv.len() implies lex_lt(
        #[trigger] nv[a].path,
        #[trigger] nv[b].path,
    ) by {
        if b < pos {
        } else if b == pos {
        } else if a < pos {
            assert(nv[b] == kv[b - 1]);
            lemma_lex_transitive(kv[a].path, p, kv[b - 1].path);
        } else if a == pos {
            assert(nv[b] == kv[b - 1]);
        } else {
            assert(nv[a] == kv[a - 1]);
            assert(nv[b] == kv[b - 1]);
        }
    }
    assert forall|a: int, b: int| 0 <= a < nv.len() && 0 <= b < nv.len() implies !is_under(
        #[trigger] nv[a].path,
        #[trigger] nv[b].path,
    ) by {
        if a != pos {
            let ka = if a < pos { a } else { a - 1 };
            assert(nv[a] == kv[ka]);
            let ja = choose|j: int| 0 <= j < s.len() && s[j] == kv[ka];
            if b != pos {
                let kb = if b < pos { b } else { b - 1 };
                assert(nv[b] == kv[kb]);
                let jb = choose|j: int| 0 <= j < s.len() && s[j] == kv[kb];
                assert(!is_under(s[ja].path, s[jb].path));
            }
        } else if b != pos {
            let kb = if b < pos { b } else { b - 1 };
            assert(nv[b] == kv[kb]);
            let jb = choose|j: int| 0 <= j < s.len() && s[j] == kv[kb];
        }
    }
    assert forall|v: EntryView| #[trigger] nv.contains(v) <==> added(s, e, v) by {
        if nv.contains(v) {
            let k = choose|k: int| 0 <= k < nv.len() && nv[k] == v;
            if k != pos {
                let kk = if k < pos { k } else { k - 1 };
                assert(nv[k] == kv[kk]);
                let j = choose|j: int| 0 <= j < s.len() && s[j] == kv[kk];
                assert(s.contains(v));
            }
        }
        if added(s, e, v) {
            if v == e {
                assert(nv[pos] == v);
            } else {
                let j = choose|j: int| 0 <= j < s.len() && s[j] == v;
                assert(kept_at(s, j, p));
                let k = choose|k: int| 0 <= k < kv.len() && kv[k] == s[j];
                if k < pos {
                    assert(nv[k] == v);
                } else {
                    assert(nv[k + 1] == v);
                }
            }
        }
    }
}

/// Every entry is recorded under each directory above it: that directory is
/// a key of the parents map, and its set holds the entry's path.
pub proof fn lemma_parents_cover_entries(index: &Index)
    requires
        index.wf(),
    ensures
        forall|i: int, d: Seq<u8>|
            0 <= i < index@.len() && is_under(#[trigger] index@[i].path, d) ==> parents_of(
                index@,
            ).contains_key(d) && (#[trigger] parents_of(index@)[d]).contains(index@[i].path),
{
    assert forall|i: int, d: Seq<u8>|
        0 <= i < index@.len() && is_under(#[trigger] index@[i].path, d) implies parents_of(
            index@,
        ).contains_key(d) && (#[trigger] parents_of(index@)[d]).contains(index@[i].path) by {
        assert(is_parent_dir(index@, d));
        assert(has_entry(index@, index@[i].path));
    }
}

/// No path is both an entry and a key of the parents map: a file and a
/// directory never share a path.
pub proof fn lemma_entries_are_not_parents(index: &Index)
    requires
        index.wf(),
    ensures
        forall|p: Seq<u8>| !(has_entry(index@, p) && #[trigger] parents_of(index@).contains_key(p)),
{
    assert forall|p: Seq<u8>| !(has_entry(index@, p) && #[trigger] parents_of(index@).contains_key(p)) by {
        if has_entry(index@, p) && is_parent_dir(index@, p) {
            let i = choose|i: int| 0 <= i < index@.len() && (#[trigger] index@[i]).path == p;
            let j = choose|j: int| 0 <= j < index@.len() && is_under((#[trigger] index@[j]).path, p);
            assert(!is_under(index@[j].path, index@[i].path));
        }
    }
}


/// Writing an index and loading the bytes back gives an index that writes
/// the very same bytes: the checksum verifies and nothing is lost, for
/// entries whose paths hold no NUL byte.
pub proof fn lemma_write_load_round_trip(written: &Index, bytes: Seq<u8>, loaded: &Index)
    requires
        written.wf(),
        loaded.wf(),
        written@.len() <= u32::MAX,
        forall|i: int| 0 <= i < written@.len() ==> nul_free(#[trigger] written@[i].path),
        bytes == index_bytes(written@),
        bytes.len() == index_body(written@).len() + 20,
        parse_index(bytes) matches Loaded::Entries(es) ==> forall|v: EntryView|
            #[trigger] loaded@.contains(v) <==> staged(es).contains(v),
    ensures
        parse_index(bytes) is Entries,
        index_bytes(loaded@) == bytes,
{
    let s = written@;
    let t = s.map_values(|e: EntryView| normalized(e));
    assert forall|i: int| 0 <= i < s.len() implies format::storable(#[trigger] s[i]) by {
        assert(written.entries@[i].wf());
    }
    lemma_parse_written(s, bytes);
    assert forall|i: int| 0 <= i < s.len() implies (#[trigger] t[i]).path == s[i].path by {
        lemma_record_round_trip(s[i]);
    }
    assert(sorted_by_path(t)) by {
        assert forall|a: int, b: int| 0 <= a < b < t.len() implies lex_lt(
            #[trigger] t[a].path,
            #[trigger] t[b].path,
        ) by {
            assert(t[a].path == s[a].path);
            assert(t[b].path == s[b].path);
        }
    }
    assert(conflict_free(t)) by {
        assert forall|a: int, b: int| 0 <= a < t.len() && 0 <= b < t.len() implies !is_under(
            #[trigger] t[a].path,
            #[trigger] t[b].path,
        ) by {
            assert(t[a].path == s[a].path);
            assert(t[b].path == s[b].path);
        }
    }
    lemma_staged_sorted(t);
    assert forall|v: EntryView|
        #![trigger loaded@.contains(v)]
        #![trigger t.contains(v)]
        loaded@.contains(v) <==> t.contains(v) by {
        assert(loaded@.contains(v) <==> staged(t).contains(v));
    }
    lemma_sorted_unique(loaded@, t);
    lemma_normalized_bytes(s);
    assert(index_body(t) =~= index_body(s));
}


/// `d` is a proper ancestor directory of `p`.
pub(crate) fn under(p: &[u8], d: &[u8]) -> (r: bool)
    ensures
        r == is_under(p@, d@),
{
    if d.len() >= p.len() {
        return false;
    }
    if p[d.len()] != 47u8 {
        return false;
    }
    let mut i: usize = 0;
    while i < d.len()
        invariant
            i <= d@.len() < p@.len(),
            p@.take(i as int) == d@.take(i as int),
        decreases d@.len() - i,
    {
        if p[i] != d[i] {
            assert(p@.take(d@.len() as int)[i as int] != d@[i as int]);
            return false;
        }
        assert(p@.take(i + 1) =~= p@.take(i as int).push(p@[i as int]));
        assert(d@.take(i + 1) =~= d@.take(i as int).push(d@[i as int]));
        i = i + 1;
    }
    assert(d@.take(i as int) =~= d@);
    true
}

} // verus!
