//! The status engine: which files of the working tree are untracked, and
//! which index entries are modified or deleted.
//!
//! The caller walks the working tree and hands in every file and directory
//! below the root (ignored names left out) with its stat; it reads the
//! content of the files that `needs_content` names. Everything else is
//! decided here.

use vstd::prelude::*;
use crate::codec::copy_range;
use crate::id::bytes_equal;
use crate::index::entry::{is_under, mode_of, EntryView};
use crate::index::{has_entry, is_parent_dir, Index};
use crate::objects::{object_id, Blob, ObjectKind};
use crate::order::{compare_bytes, lemma_lex_total, lemma_lex_transitive, lex_lt};
use crate::workspace::{self, Stat};

verus! {

/// How an index entry compares with the working tree.
#[derive(Clone, Copy, Debug, PartialEq, Eq, Structural)]
pub enum EntryChange {
    Changed,
    /// Same content under new times: the cached stat is refreshed.
    UpdateStat,
    Unchanged,
}

/// An entry or a directory above one.
pub open spec fn is_tracked_in(s: Seq<EntryView>, p: Seq<u8>) -> bool {
    has_entry(s, p) || is_parent_dir(s, p)
}

/// The directory part of `p`, before its last `/`; `None` at top level.
pub open spec fn dir_of(p: Seq<u8>) -> Option<Seq<u8>>
    decreases p.len(),
{
    if p.len() == 0 {
        None
    } else if p.last() == 47u8 {
        Some(p.drop_last())
    } else {
        dir_of(p.drop_last())
    }
}

/// The walk reaches `p`: it is at top level or its directory is tracked.
pub open spec fn reached(s: Seq<EntryView>, p: Seq<u8>) -> bool {
    match dir_of(p) {
        None => true,
        Some(d) => is_tracked_in(s, d),
    }
}

/// What the walk of the working tree found: paths, whether each is a
/// directory, and stats.
pub open spec fn listed(l: Seq<(workspace::Entry, Stat)>) -> Seq<(Seq<u8>, bool, Stat)> {
    l.map_values(|x: (workspace::Entry, Stat)| (x.0.relative_path@, x.0.is_dir, x.1))
}

/// Some file listed lies below `p`.
pub open spec fn has_file_below(l: Seq<(Seq<u8>, bool, Stat)>, p: Seq<u8>) -> bool {
    exists|i: int| 0 <= i < l.len() && !l[i].1 && is_under((#[trigger] l[i]).0, p)
}

/// A listed path that status reports as untracked: not tracked, reached by
/// the walk, and a file or a directory with a file below it.
pub open spec fn reported(s: Seq<EntryView>, l: Seq<(Seq<u8>, bool, Stat)>, x: (Seq<u8>, bool, Stat)) -> bool {
    !is_tracked_in(s, x.0) && reached(s, x.0) && (!x.1 || has_file_below(l, x.0))
}

/// A listed path whose stat feeds the comparison with the index: a tracked
/// file reached by the walk.
pub open spec fn recorded(s: Seq<EntryView>, x: (Seq<u8>, bool, Stat)) -> bool {
    is_tracked_in(s, x.0) && reached(s, x.0) && !x.1
}

/// The directory part of `p`.
fn dir_part(p: &[u8]) -> (r: Option<Vec<u8>>)
    ensures
        r matches Some(d) ==> dir_of(p@) == Some(d@),
        r is None ==> dir_of(p@) is None,
{
    let mut k: usize = p.len();
    assert(p@.take(p@.len() as int) =~= p@);
    while k > 0 && p[k - 1] != 47u8
        invariant
            k <= p@.len(),
            dir_of(p@) == dir_of(p@.take(k as int)),
        decreases k,
    {
        proof {
            assert(p@.take(k as int).drop_last() =~= p@.take(k - 1));
        }
        k = k - 1;
    }
    proof {
        assert(p@.take(p@.len() as int) =~= p@);
    }
    if k == 0 {
        None
    } else {
        proof {
            assert(p@.take(k as int).drop_last() =~= p@.take(k - 1));
        }
        Some(copy_range(p, 0, k - 1))
    }
}

/// The `i`-th listed path is reported as untracked.
pub open spec fn reported_at(s: Seq<EntryView>, l: Seq<(Seq<u8>, bool, Stat)>, i: int) -> bool {
    0 <= i < l.len() && reported(s, l, l[i])
}

/// The stat of the `i`-th listed path is recorded.
pub open spec fn recorded_at(s: Seq<EntryView>, l: Seq<(Seq<u8>, bool, Stat)>, i: int) -> bool {
    0 <= i < l.len() && recorded(s, l[i])
}

/// Some file of the listing lies below `p`.
fn file_below(listing: &Vec<(workspace::Entry, Stat)>, p: &[u8]) -> (r: bool)
    ensures
        r == has_file_below(listed(listing@), p@),
{
    let ghost l = listed(listing@);
    let mut i: usize = 0;
    while i < listing.len()
        invariant
            i <= listing@.len(),
            l == listed(listing@),
            forall|j: int| 0 <= j < i ==> !(!(#[trigger] l[j]).1 && is_under(l[j].0, p@)),
        decreases listing@.len() - i,
    {
        let e = &listing[i].0;
        assert(l[i as int].0 == e.relative_path@ && l[i as int].1 == e.is_dir);
        if !e.is_dir && crate::index::under(e.relative_path.as_slice(), p) {
            return true;
        }
        i = i + 1;
    }
    false
}

/// The path and kind of each entry.
pub open spec fn entry_keys(u: Seq<workspace::Entry>) -> Seq<(Seq<u8>, bool)> {
    u.map_values(|e: workspace::Entry| (e.relative_path@, e.is_dir))
}

/// The path and stat of each pair.
pub open spec fn stat_pairs(v: Seq<(Vec<u8>, Stat)>) -> Seq<(Seq<u8>, Stat)> {
    v.map_values(|x: (Vec<u8>, Stat)| (x.0@, x.1))
}

/// Some listed path with this key is reported.
pub open spec fn reported_key(s: Seq<EntryView>, l: Seq<(Seq<u8>, bool, Stat)>, key: (Seq<u8>, bool)) -> bool {
    exists|i: int| #[trigger] reported_at(s, l, i) && key == (l[i].0, l[i].1)
}

/// Some listed path with this path and stat is recorded.
pub open spec fn recorded_key(s: Seq<EntryView>, l: Seq<(Seq<u8>, bool, Stat)>, key: (Seq<u8>, Stat)) -> bool {
    exists|i: int| #[trigger] recorded_at(s, l, i) && key == (l[i].0, l[i].2)
}

/// Some element of `u` has the path `p`.
pub open spec fn has_path(u: Seq<(Seq<u8>, bool)>, p: Seq<u8>) -> bool {
    exists|k: int| 0 <= k < u.len() && (#[trigger] u[k]).0 == p
}

/// `u` lists each reported path of the listing once, nothing else, in
/// strictly increasing order of path.
pub open spec fn untracked_of(
    s: Seq<EntryView>,
    l: Seq<(Seq<u8>, bool, Stat)>,
    u: Seq<(Seq<u8>, bool)>,
) -> bool {
    &&& forall|k: int| 0 <= k < u.len() ==> #[trigger] reported_key(s, l, u[k])
    &&& forall|i: int| #[trigger] reported_at(s, l, i) ==> has_path(u, l[i].0)
    &&& forall|a: int, b: int| 0 <= a < b < u.len() ==> lex_lt((#[trigger] u[a]).0, (#[trigger] u[b]).0)
}

/// `v` holds exactly the paths and stats of the recorded files.
pub open spec fn stats_of(
    s: Seq<EntryView>,
    l: Seq<(Seq<u8>, bool, Stat)>,
    v: Seq<(Seq<u8>, Stat)>,
) -> bool {
    &&& forall|k: int| 0 <= k < v.len() ==> #[trigger] recorded_key(s, l, v[k])
    &&& forall|i: int| #[trigger] recorded_at(s, l, i) ==> v.contains((l[i].0, l[i].2))
}

proof fn lemma_scan(
    s: Seq<EntryView>,
    l: Seq<(Seq<u8>, bool, Stat)>,
    u: Seq<(Seq<u8>, bool)>,
    v: Seq<(Seq<u8>, Stat)>,
    usrc: Seq<int>,
    ssrc: Seq<int>,
)
    requires
        usrc.len() == u.len(),
        ssrc.len() == v.len(),
        forall|k: int|
            0 <= k < u.len() ==> 0 <= #[trigger] usrc[k] < l.len() && l[usrc[k]].0 == u[k].0 && l[usrc[k]].1
                == u[k].1 && reported(s, l, l[usrc[k]]),
        forall|k: int|
            0 <= k < v.len() ==> 0 <= #[trigger] ssrc[k] < l.len() && l[ssrc[k]].0 == v[k].0 && l[ssrc[k]].2
                == v[k].1 && recorded(s, l[ssrc[k]]),
        forall|j: int| #[trigger] reported_at(s, l, j) ==> has_path(u, l[j].0),
        forall|j: int| #[trigger] recorded_at(s, l, j) ==> v.contains((l[j].0, l[j].2)),
        forall|a: int, b: int| 0 <= a < b < u.len() ==> lex_lt((#[trigger] u[a]).0, (#[trigger] u[b]).0),
    ensures
        untracked_of(s, l, u),
        stats_of(s, l, v),
{
    assert forall|k: int| 0 <= k < u.len() implies #[trigger] reported_key(s, l, u[k]) by {
        let i = usrc[k];
        assert(reported_at(s, l, i));
    }
    assert forall|k: int| 0 <= k < v.len() implies #[trigger] recorded_key(s, l, v[k]) by {
        let i = ssrc[k];
        assert(recorded_at(s, l, i));
    }
}

/// Pass one: the untracked entries, sorted by path, and the stats of the
/// tracked files.
pub fn scan_workspace(index: &Index, listing: &Vec<(workspace::Entry, Stat)>) -> (r: (
    Vec<workspace::Entry>,
    Vec<(Vec<u8>, Stat)>,
))
    ensures
        untracked_of(index@, listed(listing@), entry_keys(r.0@)),
        stats_of(index@, listed(listing@), stat_pairs(r.1@)),
{
    let ghost l = listed(listing@);
    let ghost s = index@;
    let mut untracked: Vec<workspace::Entry> = Vec::new();
    let mut stats: Vec<(Vec<u8>, Stat)> = Vec::new();
    let ghost mut usrc: Seq<int> = Seq::empty();
    let ghost mut ssrc: Seq<int> = Seq::empty();
    let mut i: usize = 0;
    while i < listing.len()
        invariant
            i <= listing@.len(),
            l == listed(listing@),
            s == index@,
            usrc.len() == untracked@.len(),
            ssrc.len() == stats@.len(),
            forall|k: int|
                0 <= k < untracked@.len() ==> 0 <= #[trigger] usrc[k] < i && l[usrc[k]].0
                    == untracked@[k].relative_path@ && l[usrc[k]].1 == untracked@[k].is_dir
                    && reported(s, l, l[usrc[k]]),
            forall|k: int|
                0 <= k < stats@.len() ==> 0 <= #[trigger] ssrc[k] < i && l[ssrc[k]].0 == stats@[k].0@
                    && l[ssrc[k]].2 == stats@[k].1 && recorded(s, l[ssrc[k]]),
            forall|j: int| #[trigger] reported_at(s, l, j) && j < i ==> has_path(entry_keys(untracked@), l[j].0),
            forall|j: int|
                #[trigger] recorded_at(s, l, j) && j < i ==> stat_pairs(stats@).contains((l[j].0, l[j].2)),
            forall|a: int, b: int|
                0 <= a < b < untracked@.len() ==> lex_lt(
                    (#[trigger] untracked@[a]).relative_path@,
                    (#[trigger] untracked@[b]).relative_path@,
                ),
        decreases listing@.len() - i,
    {
        let e = &listing[i].0;
        let st = listing[i].1;
        assert(l[i as int] == (e.relative_path@, e.is_dir, st));
        let path = e.relative_path.as_slice();
        let t = index.is_tracked(path);
        let reach = match dir_part(path) {
            None => true,
            Some(d) => index.is_tracked(d.as_slice()),
        };
        if t && reach && !e.is_dir {
            let ghost before = stats@;
            stats.push((copy_range(path, 0, path.len()), st));
            proof {
                ssrc = ssrc.push(i as int);
                assert(path@.subrange(0, path@.len() as int) =~= path@);
                assert(stat_pairs(stats@) =~= stat_pairs(before).push((path@, st)));
                assert forall|j: int| #[trigger] recorded_at(s, l, j) && j < i + 1 implies stat_pairs(
                    stats@,
                ).contains((l[j].0, l[j].2)) by {
                    if j < i {
                        let k = choose|k: int|
                            0 <= k < stat_pairs(before).len() && stat_pairs(before)[k] == (l[j].0, l[j].2);
                        assert(stat_pairs(stats@)[k] == (l[j].0, l[j].2));
                    } else {
                        assert(stat_pairs(stats@)[stats@.len() - 1] == (l[j].0, l[j].2));
                    }
                }
                assert forall|k: int| 0 <= k < stats@.len() implies 0 <= #[trigger] ssrc[k] < i + 1
                    && l[ssrc[k]].0 == stats@[k].0@ && l[ssrc[k]].2 == stats@[k].1 && recorded(s, l[ssrc[k]]) by {
                    if k < before.len() {
                        assert(stats@[k] == before[k]);
                    }
                }
            }
        }
        let report = !t && reach && (!e.is_dir || file_below(listing, path));
        if report {
            let mut pos: usize = 0;
            while pos < untracked.len() && compare_bytes(untracked[pos].relative_path.as_slice(), path)
                < 0
                invariant
                    pos <= untracked@.len(),
                    forall|k: int| 0 <= k < pos ==> lex_lt((#[trigger] untracked@[k]).relative_path@, path@),
                decreases untracked@.len() - pos,
            {
                pos = pos + 1;
            }
            if pos < untracked.len() && bytes_equal(untracked[pos].relative_path.as_slice(), path) {
                proof {
                    assert forall|j: int| #[trigger] reported_at(s, l, j) && j < i + 1 implies has_path(
                        entry_keys(untracked@),
                        l[j].0,
                    ) by {
                        if j == i {
                            assert(entry_keys(untracked@)[pos as int].0 == l[j].0);
                        }
                    }
                }
            } else {
                proof {
                    if pos < untracked@.len() {
                        lemma_lex_total(untracked@[pos as int].relative_path@, path@);
                    }
                }
                let ghost before = untracked@;
                let ghost before_src = usrc;
                untracked.insert(pos, e.duplicate());
                proof {
                    usrc = usrc.insert(pos as int, i as int);
                    assert forall|k: int| 0 <= k < untracked@.len() implies 0 <= #[trigger] usrc[k] < i + 1
                        && l[usrc[k]].0 == untracked@[k].relative_path@ && l[usrc[k]].1
                        == untracked@[k].is_dir && reported(s, l, l[usrc[k]]) by {
                        if k < pos {
                            assert(untracked@[k] == before[k]);
                            assert(usrc[k] == before_src[k]);
                        } else if k > pos {
                            assert(untracked@[k] == before[k - 1]);
                            assert(usrc[k] == before_src[k - 1]);
                        }
                    }
                    assert forall|j: int| #[trigger] reported_at(s, l, j) && j < i + 1 implies has_path(
                        entry_keys(untracked@),
                        l[j].0,
                    ) by {
                        if j < i {
                            let k = choose|k: int|
                                0 <= k < entry_keys(before).len() && (#[trigger] entry_keys(before)[k]).0
                                    == l[j].0;
                            if k < pos {
                                assert(untracked@[k] == before[k]);
                                assert(entry_keys(untracked@)[k].0 == l[j].0);
                            } else {
                                assert(untracked@[k + 1] == before[k]);
                                assert(entry_keys(untracked@)[k + 1].0 == l[j].0);
                            }
                        } else {
                            assert(entry_keys(untracked@)[pos as int].0 == l[j].0);
                        }
                    }
                    assert forall|a: int, b: int| 0 <= a < b < untracked@.len() implies lex_lt(
                        (#[trigger] untracked@[a]).relative_path@,
                        (#[trigger] untracked@[b]).relative_path@,
                    ) by {
                        if b < pos {
                            assert(untracked@[a] == before[a]);
                            assert(untracked@[b] == before[b]);
                        } else if b == pos {
                            assert(untracked@[a] == before[a]);
                        } else if a < pos {
                            assert(untracked@[a] == before[a]);
                            assert(untracked@[b] == before[b - 1]);
                            lemma_after_pos(before, pos as int, b - 1, path@);
                            lemma_lex_transitive(
                                before[a].relative_path@,
                                path@,
                                before[b - 1].relative_path@,
                            );
                        } else if a == pos {
                            assert(untracked@[b] == before[b - 1]);
                            lemma_after_pos(before, pos as int, b - 1, path@);
                        } else {
                            assert(untracked@[a] == before[a - 1]);
                            assert(untracked@[b] == before[b - 1]);
                        }
                    }
                }
            }
        } else {
            proof {
                assert(!reported(s, l, l[i as int]));
            }
        }
        proof {
            assert(!(t && reach && !e.is_dir) ==> !recorded(s, l[i as int]));
        }
        i = i + 1;
    }
    proof {
        assert forall|k: int| 0 <= k < untracked@.len() implies #[trigger] entry_keys(untracked@)[k] == (
        untracked@[k].relative_path@, untracked@[k].is_dir) by {}
        assert forall|k: int| 0 <= k < stats@.len() implies #[trigger] stat_pairs(stats@)[k] == (
        stats@[k].0@, stats@[k].1) by {}
        assert forall|j: int| #[trigger] reported_at(s, l, j) implies has_path(entry_keys(untracked@), l[j].0) by {
            assert(j < i);
        }
        assert forall|j: int| #[trigger] recorded_at(s, l, j) implies stat_pairs(stats@).contains(
            (l[j].0, l[j].2),
        ) by {
            assert(j < i);
        }
        lemma_scan(s, l, entry_keys(untracked@), stat_pairs(stats@), usrc, ssrc);
    }
    let result = (untracked, stats);
    result
}

/// In a list sorted strictly by path, an element at or after the
/// insertion point of `p` sorts after `p`.
proof fn lemma_after_pos(u: Seq<workspace::Entry>, pos: int, k: int, p: Seq<u8>)
    requires
        0 <= pos <= k < u.len(),
        forall|a: int, b: int|
            0 <= a < b < u.len() ==> lex_lt((#[trigger] u[a]).relative_path@, (#[trigger] u[b]).relative_path@),
        pos < u.len() ==> lex_lt(p, u[pos].relative_path@),
    ensures
        lex_lt(p, u[k].relative_path@),
{
    if k > pos {
        lemma_lex_transitive(p, u[pos].relative_path@, u[k].relative_path@);
    }
}

/// The stat recorded for `p`: the first pair with that path.
pub open spec fn lookup_stat(v: Seq<(Seq<u8>, Stat)>, p: Seq<u8>) -> Option<Stat>
    decreases v.len(),
{
    if v.len() == 0 {
        None
    } else if v[0].0 == p {
        Some(v[0].1)
    } else {
        lookup_stat(v.drop_first(), p)
    }
}

/// The content read for `p`: the first pair with that path.
pub open spec fn lookup_content(c: Seq<(Seq<u8>, Seq<u8>)>, p: Seq<u8>) -> Option<Seq<u8>>
    decreases c.len(),
{
    if c.len() == 0 {
        None
    } else if c[0].0 == p {
        Some(c[0].1)
    } else {
        lookup_content(c.drop_first(), p)
    }
}

/// The paths and contents handed in.
pub open spec fn content_pairs(c: Seq<(Vec<u8>, Vec<u8>)>) -> Seq<(Seq<u8>, Seq<u8>)> {
    c.map_values(|x: (Vec<u8>, Vec<u8>)| (x.0@, x.1@))
}

/// Whether the content of the file must be hashed: mode and size agree,
/// times do not.
pub open spec fn needs_hash(e: EntryView, st: Stat) -> bool {
    e.mode == mode_of(st) && e.stat.size == st.size && !(e.stat.ctime == st.ctime && e.stat.ctime_nsec
        == st.ctime_nsec && e.stat.mtime == st.mtime && e.stat.mtime_nsec == st.mtime_nsec)
}

/// How an entry compares with a file of the given stat and, when it was
/// read, content. A file that needed hashing but was not read counts as
/// changed.
pub open spec fn change_of(e: EntryView, st: Stat, content: Option<Seq<u8>>) -> EntryChange {
    if !(e.mode == mode_of(st) && e.stat.size == st.size) {
        EntryChange::Changed
    } else if !needs_hash(e, st) {
        EntryChange::Unchanged
    } else {
        match content {
            Some(c) => if e.id == object_id(ObjectKind::Blob, c) {
                EntryChange::UpdateStat
            } else {
                EntryChange::Changed
            },
            None => EntryChange::Changed,
        }
    }
}

/// The entry with its stat refreshed.
pub open spec fn refreshed(e: EntryView, st: Stat) -> EntryView {
    EntryView { stat: st, mode: mode_of(st), ..e }
}

/// The entry after pass two.
pub open spec fn after_check(
    e: EntryView,
    v: Seq<(Seq<u8>, Stat)>,
    c: Seq<(Seq<u8>, Seq<u8>)>,
) -> EntryView {
    match lookup_stat(v, e.path) {
        Some(st) => if change_of(e, st, lookup_content(c, e.path)) == EntryChange::UpdateStat {
            refreshed(e, st)
        } else {
            e
        },
        None => e,
    }
}

/// The entry's cached stat is refreshed by pass two.
pub open spec fn is_refreshed(e: EntryView, v: Seq<(Seq<u8>, Stat)>, c: Seq<(Seq<u8>, Seq<u8>)>) -> bool {
    match lookup_stat(v, e.path) {
        Some(st) => change_of(e, st, lookup_content(c, e.path)) == EntryChange::UpdateStat,
        None => false,
    }
}

/// The entry is modified.
pub open spec fn is_modified(e: EntryView, v: Seq<(Seq<u8>, Stat)>, c: Seq<(Seq<u8>, Seq<u8>)>) -> bool {
    match lookup_stat(v, e.path) {
        Some(st) => change_of(e, st, lookup_content(c, e.path)) == EntryChange::Changed,
        None => false,
    }
}

/// The paths of the modified entries of `s`, in order.
pub open spec fn modified_paths(s: Seq<EntryView>, v: Seq<(Seq<u8>, Stat)>, c: Seq<(Seq<u8>, Seq<u8>)>) -> Seq<Seq<u8>>
    decreases s.len(),
{
    if s.len() == 0 {
        Seq::empty()
    } else if is_modified(s.last(), v, c) {
        modified_paths(s.drop_last(), v, c).push(s.last().path)
    } else {
        modified_paths(s.drop_last(), v, c)
    }
}

/// The paths of the entries of `s` with no file, in order.
pub open spec fn deleted_paths(s: Seq<EntryView>, v: Seq<(Seq<u8>, Stat)>) -> Seq<Seq<u8>>
    decreases s.len(),
{
    if s.len() == 0 {
        Seq::empty()
    } else if lookup_stat(v, s.last().path) is None {
        deleted_paths(s.drop_last(), v).push(s.last().path)
    } else {
        deleted_paths(s.drop_last(), v)
    }
}

/// The entry's file must be hashed.
pub open spec fn hash_needed(e: EntryView, v: Seq<(Seq<u8>, Stat)>) -> bool {
    match lookup_stat(v, e.path) {
        Some(st) => needs_hash(e, st),
        None => false,
    }
}

/// The paths of the entries of `s` whose file must be hashed, in order.
pub open spec fn hash_paths(s: Seq<EntryView>, v: Seq<(Seq<u8>, Stat)>) -> Seq<Seq<u8>>
    decreases s.len(),
{
    if s.len() == 0 {
        Seq::empty()
    } else if hash_needed(s.last(), v) {
        hash_paths(s.drop_last(), v).push(s.last().path)
    } else {
        hash_paths(s.drop_last(), v)
    }
}

/// The paths held by a list of byte strings.
pub open spec fn path_views(v: Seq<Vec<u8>>) -> Seq<Seq<u8>> {
    v.map_values(|x: Vec<u8>| x@)
}

fn find_stat(stats: &Vec<(Vec<u8>, Stat)>, p: &[u8]) -> (r: Option<Stat>)
    ensures
        r == lookup_stat(stat_pairs(stats@), p@),
{
    let ghost v = stat_pairs(stats@);
    let mut i: usize = 0;
    assert(v.skip(0) =~= v);
    while i < stats.len()
        invariant
            i <= stats@.len(),
            v == stat_pairs(stats@),
            lookup_stat(v, p@) == lookup_stat(v.skip(i as int), p@),
        decreases stats@.len() - i,
    {
        assert(v.skip(i as int)[0] == (stats@[i as int].0@, stats@[i as int].1));
        assert(v.skip(i as int).drop_first() =~= v.skip(i + 1));
        if bytes_equal(stats[i].0.as_slice(), p) {
            return Some(stats[i].1);
        }
        i = i + 1;
    }
    None
}

fn find_content<'a>(contents: &'a Vec<(Vec<u8>, Vec<u8>)>, p: &[u8]) -> (r: Option<&'a Vec<u8>>)
    ensures
        lookup_content(content_pairs(contents@), p@) == (match r {
            Some(c) => Some(c@),
            None => None,
        }),
{
    let ghost v = content_pairs(contents@);
    let mut i: usize = 0;
    assert(v.skip(0) =~= v);
    while i < contents.len()
        invariant
            i <= contents@.len(),
            v == content_pairs(contents@),
            lookup_content(v, p@) == lookup_content(v.skip(i as int), p@),
        decreases contents@.len() - i,
    {
        assert(v.skip(i as int)[0] == (contents@[i as int].0@, contents@[i as int].1@));
        assert(v.skip(i as int).drop_first() =~= v.skip(i + 1));
        if bytes_equal(contents[i].0.as_slice(), p) {
            return Some(&contents[i].1);
        }
        i = i + 1;
    }
    None
}

/// Compare one entry with the file at its path.
pub fn detect_entry_changes(
    entry: &crate::index::Entry,
    stat: &Stat,
    content: Option<&Vec<u8>>,
) -> (r: EntryChange)
    ensures
        r == change_of(entry@, *stat, match content {
            Some(c) => Some(c@),
            None => None,
        }),
{
    if !entry.matches_stat(stat) {
        return EntryChange::Changed;
    }
    if entry.matches_times(stat) {
        return EntryChange::Unchanged;
    }
    match content {
        Some(c) => {
            let blob = Blob::new(crate::codec::copy_range(c.as_slice(), 0, c.len()));
            proof {
                assert(c@.subrange(0, c@.len() as int) =~= c@);
            }
            let stored = blob.store();
            if stored.id.same_as(&entry.id) {
                EntryChange::UpdateStat
            } else {
                EntryChange::Changed
            }
        },
        None => EntryChange::Changed,
    }
}

/// The files whose content pass two needs: tracked files whose mode and
/// size agree with the index but whose times do not.
pub fn needs_content(index: &Index, stats: &Vec<(Vec<u8>, Stat)>) -> (r: Vec<Vec<u8>>)
    ensures
        path_views(r@) == hash_paths(index@, stat_pairs(stats@)),
{
    let mut out: Vec<Vec<u8>> = Vec::new();
    let mut i: usize = 0;
    while i < index.len()
        invariant
            i <= index@.len(),
            path_views(out@) == hash_paths(index@.take(i as int), stat_pairs(stats@)),
        decreases index@.len() - i,
    {
        let e = index.entry_at(i);
        let st = find_stat(stats, e.pathname.as_slice());
        let ghost before = out@;
        let need = match st {
            Some(st) => e.matches_stat(&st) && !e.matches_times(&st),
            None => false,
        };
        if need {
            out.push(crate::codec::copy_range(e.pathname.as_slice(), 0, e.pathname.len()));
        }
        proof {
            let t = index@.take(i + 1);
            assert(t.drop_last() =~= index@.take(i as int));
            assert(t.last() == index@[i as int]);
            assert(hash_needed(index@[i as int], stat_pairs(stats@)) == need);
            assert(e.pathname@.subrange(0, e.pathname@.len() as int) =~= e.pathname@);
            if need {
                assert(path_views(out@) =~= path_views(before).push(e.pathname@));
            } else {
                assert(path_views(out@) =~= path_views(before));
            }
        }
        i = i + 1;
    }
    assert(index@.take(i as int) =~= index@);
    out
}

/// Pass two: the modified and the deleted entries' paths, in index order.
/// Entries whose content is unchanged under new times get their cached
/// stat refreshed, which marks the index changed.
pub fn detect_workspace_changes(
    index: &mut Index,
    stats: &Vec<(Vec<u8>, Stat)>,
    contents: &Vec<(Vec<u8>, Vec<u8>)>,
) -> (r: (Vec<Vec<u8>>, Vec<Vec<u8>>))
    requires
        old(index).wf(),
    ensures
        final(index).wf(),
        path_views(r.0@) == modified_paths(old(index)@, stat_pairs(stats@), content_pairs(contents@)),
        path_views(r.1@) == deleted_paths(old(index)@, stat_pairs(stats@)),
        final(index)@ == old(index)@.map_values(
            |e: EntryView| after_check(e, stat_pairs(stats@), content_pairs(contents@)),
        ),
        final(index).file_path() == old(index).file_path(),
        final(index).is_changed() == (old(index).is_changed() || exists|i: int|
            0 <= i < old(index)@.len() && is_refreshed(
                #[trigger] old(index)@[i],
                stat_pairs(stats@),
                content_pairs(contents@),
            )),
{
    let ghost v = stat_pairs(stats@);
    let ghost c = content_pairs(contents@);
    let ghost s0 = index@;
    let ghost target = s0.map_values(|e: EntryView| after_check(e, v, c));
    assert forall|k: int| 0 <= k < s0.len() implies (#[trigger] target[k]).path == s0[k].path by {}
    let mut modified: Vec<Vec<u8>> = Vec::new();
    let mut deleted: Vec<Vec<u8>> = Vec::new();
    let mut i: usize = 0;
    proof {
        index.lemma_unique_paths();
    }
    while i < index.len()
        invariant
            i <= index@.len(),
            index.wf(),
            index@.len() == s0.len(),
            index.file_path() == old(index).file_path(),
            forall|a: int, b: int|
                0 <= a < s0.len() && 0 <= b < s0.len() && a != b ==> (#[trigger] s0[a]).path
                    != (#[trigger] s0[b]).path,
            forall|k: int| 0 <= k < i ==> #[trigger] index@[k] == target[k],
            forall|k: int| i <= k < s0.len() ==> #[trigger] index@[k] == s0[k],
            forall|k: int| 0 <= k < s0.len() ==> (#[trigger] index@[k]).path == s0[k].path,
            target == s0.map_values(|e: EntryView| after_check(e, v, c)),
            forall|k: int| 0 <= k < s0.len() ==> (#[trigger] target[k]).path == s0[k].path,
            v == stat_pairs(stats@),
            c == content_pairs(contents@),
            path_views(modified@) == modified_paths(s0.take(i as int), v, c),
            path_views(deleted@) == deleted_paths(s0.take(i as int), v),
            index.is_changed() == (old(index).is_changed() || exists|k: int|
                0 <= k < i && is_refreshed(#[trigger] s0[k], v, c)),
        decreases s0.len() - i,
    {
        let e = index.entry_at(i);
        let path = crate::codec::copy_range(e.pathname.as_slice(), 0, e.pathname.len());
        proof {
            assert(path@ =~= s0[i as int].path);
            assert(index@[i as int] == s0[i as int]);
        }
        let ghost bm = modified@;
        let ghost before_all = index@;
        let ghost was_changed = index.is_changed();
        let ghost bd = deleted@;
        let st = find_stat(stats, path.as_slice());
        match st {
            None => {
                deleted.push(path);
            },
            Some(st) => {
                let content = find_content(contents, path.as_slice());
                let change = detect_entry_changes(index.entry_at(i), &st, content);
                match change {
                    EntryChange::Changed => {
                        modified.push(path);
                    },
                    EntryChange::UpdateStat => {
                        let ghost before = index@;
                        index.update_entry_stat(path.as_slice(), &st);
                        proof {
                            assert forall|k: int| 0 <= k < s0.len() && k != i implies index@[k]
                                == before[k] by {
                                assert(s0[k].path != s0[i as int].path);
                                assert(before[k].path == s0[k].path);
                            }
                            assert(index@[i as int] == refreshed(s0[i as int], st));
                        }
                    },
                    EntryChange::Unchanged => {},
                }
            },
        }
        proof {
            if is_refreshed(s0[i as int], v, c) {
                assert(has_entry(before_all, s0[i as int].path));
            }
            assert(target[i as int] == after_check(s0[i as int], v, c));
            assert(index@[i as int] == target[i as int]);
            let t = s0.take(i + 1);
            assert(t.drop_last() =~= s0.take(i as int));
            assert(t.last() == s0[i as int]);
            if is_modified(s0[i as int], v, c) {
                assert(path_views(modified@) =~= path_views(bm).push(s0[i as int].path));
            } else {
                assert(path_views(modified@) =~= path_views(bm));
            }
            assert(index.is_changed() == (was_changed || is_refreshed(s0[i as int], v, c)));
            assert((exists|k: int| 0 <= k < i + 1 && is_refreshed(#[trigger] s0[k], v, c)) == ((exists|
                k: int,
            | 0 <= k < i && is_refreshed(#[trigger] s0[k], v, c)) || is_refreshed(s0[i as int], v, c)));
            if lookup_stat(v, s0[i as int].path) is None {
                assert(path_views(deleted@) =~= path_views(bd).push(s0[i as int].path));
            } else {
                assert(path_views(deleted@) =~= path_views(bd));
            }
        }
        i = i + 1;
    }
    proof {
        assert(s0.take(i as int) =~= s0);
        assert(index@ =~= target);
    }
    (modified, deleted)
}

} // verus!
