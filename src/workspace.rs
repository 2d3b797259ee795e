//! What the core knows of the working tree: file metadata and the entries
//! found while walking it. Reading the disk is left to the caller, who hands
//! the results in as plain values.

use vstd::prelude::*;
use crate::id::copy_bytes;

verus! {

/// Names that are never listed from the working tree.
pub open spec fn is_ignored_name(name: Seq<u8>) -> bool {
    name == seq![46u8, 103, 105, 116] || name == seq![46u8, 103, 105, 116, 105, 103, 110, 111, 114,
        101] || name == seq![116u8, 97, 114, 103, 101, 116]
}

/// The part of `p` after its last `/` (all of `p` when there is none).
pub open spec fn last_segment(p: Seq<u8>) -> Seq<u8>
    decreases p.len(),
{
    if p.len() == 0 {
        p
    } else if p.last() == 47u8 {
        Seq::empty()
    } else {
        last_segment(p.drop_last()).push(p.last())
    }
}

/// File metadata as `stat` reports it.
#[derive(Clone, Copy, Debug, PartialEq, Eq, Structural)]
pub struct Stat {
    pub ctime: i64,
    pub ctime_nsec: i64,
    pub mtime: i64,
    pub mtime_nsec: i64,
    pub dev: u64,
    pub ino: u64,
    pub mode: u32,
    pub uid: u32,
    pub gid: u32,
    pub size: u64,
}

impl Stat {
    /// Any of the three execute permission bits is set.
    pub open spec fn spec_is_executable(&self) -> bool {
        self.mode & 0o111u32 != 0
    }

    #[verifier::when_used_as_spec(spec_is_executable)]
    pub fn is_executable(&self) -> (r: bool)
        ensures
            r == self.spec_is_executable(),
    {
        self.mode & 0o111 != 0
    }
}

/// A file or directory of the working tree.
#[derive(Clone, Debug)]
pub struct Entry {
    /// Path relative to the repository root, `/`-separated.
    pub relative_path: Vec<u8>,
    pub absolute_path: Vec<u8>,
    /// The last segment of the relative path.
    pub name: Vec<u8>,
    /// Length in bytes of the relative path.
    pub len: usize,
    pub is_dir: bool,
}

/// The last segment of `p`.
pub fn file_name(p: &[u8]) -> (r: Vec<u8>)
    ensures
        r@ == last_segment(p@),
{
    let mut start: usize = p.len();
    assert(p@.take(start as int) =~= p@);
    assert(p@.subrange(start as int, p@.len() as int) =~= Seq::<u8>::empty());
    assert(last_segment(p@) + Seq::<u8>::empty() =~= last_segment(p@));
    while start > 0 && p[start - 1] != 47u8
        invariant
            start <= p@.len(),
            last_segment(p@) == last_segment(p@.take(start as int)) + p@.subrange(
                start as int,
                p@.len() as int,
            ),
        decreases start,
    {
        let ghost t = p@.take(start as int);
        assert(t.drop_last() =~= p@.take(start - 1));
        assert(p@.subrange(start - 1, p@.len() as int) =~= seq![t.last()] + p@.subrange(
            start as int,
            p@.len() as int,
        ));
        assert(last_segment(t) == last_segment(t.drop_last()).push(t.last()));
        assert(last_segment(t.drop_last()).push(t.last()) + p@.subrange(start as int, p@.len() as int)
            =~= last_segment(t.drop_last()) + p@.subrange(start - 1, p@.len() as int));
        start = start - 1;
    }
    proof {
        assert(p@.take(p@.len() as int) =~= p@);
        assert(last_segment(p@.take(start as int)) =~= Seq::<u8>::empty());
    }
    let mut out: Vec<u8> = Vec::new();
    let mut i: usize = start;
    while i < p.len()
        invariant
            start <= i <= p@.len(),
            out@ == p@.subrange(start as int, i as int),
        decreases p@.len() - i,
    {
        out.push(p[i]);
        i = i + 1;
        assert(out@ =~= p@.subrange(start as int, i as int));
    }
    assert(last_segment(p@) =~= p@.subrange(start as int, p@.len() as int));
    out
}

impl Entry {
    /// An entry for `relative_path`, found at `absolute_path`; whether it is
    /// a directory is read from the disk by the caller.
    pub fn new(absolute_path: Vec<u8>, relative_path: Vec<u8>, is_dir: bool) -> (r: Entry)
        ensures
            r.relative_path@ == relative_path@,
            r.absolute_path@ == absolute_path@,
            r.name@ == last_segment(relative_path@),
            r.len == relative_path@.len(),
            r.is_dir == is_dir,
    {
        let name = file_name(relative_path.as_slice());
        let len = relative_path.len();
        Entry { relative_path, absolute_path, name, len, is_dir }
    }

    /// How status lists the entry: its relative path, with a trailing `/`
    /// for a directory.
    pub fn display(&self) -> (r: Vec<u8>)
        ensures
            r@ == if self.is_dir {
                self.relative_path@.push(47u8)
            } else {
                self.relative_path@
            },
    {
        let mut out = copy_bytes(self.relative_path.as_slice());
        if self.is_dir {
            out.push(47u8);
        }
        out
    }

    /// An independent copy.
    pub fn duplicate(&self) -> (r: Entry)
        ensures
            r.relative_path@ == self.relative_path@,
            r.absolute_path@ == self.absolute_path@,
            r.name@ == self.name@,
            r.len == self.len,
            r.is_dir == self.is_dir,
    {
        Entry {
            relative_path: copy_bytes(self.relative_path.as_slice()),
            absolute_path: copy_bytes(self.absolute_path.as_slice()),
            name: copy_bytes(self.name.as_slice()),
            len: self.len,
            is_dir: self.is_dir,
        }
    }
}

/// The working tree rooted at `path`.
pub struct Workspace {
    pub path: Vec<u8>,
}

impl Workspace {
    pub fn new(path: Vec<u8>) -> (r: Workspace)
        ensures
            r.path@ == path@,
    {
        Workspace { path }
    }

    /// Whether a name found in a directory is listed: `.git`, `.gitignore`
    /// and `target` are not.
    pub fn is_listed(name: &[u8]) -> (r: bool)
        ensures
            r == !is_ignored_name(name@),
    {
        let git: [u8; 4] = [46u8, 103, 105, 116];
        let gitignore: [u8; 10] = [46u8, 103, 105, 116, 105, 103, 110, 111, 114, 101];
        let target: [u8; 6] = [116u8, 97, 114, 103, 101, 116];
        proof {
            assert(git@ =~= seq![46u8, 103, 105, 116]);
            assert(gitignore@ =~= seq![46u8, 103, 105, 116, 105, 103, 110, 111, 114, 101]);
            assert(target@ =~= seq![116u8, 97, 114, 103, 101, 116]);
        }
        !(crate::id::bytes_equal(name, git.as_slice()) || crate::id::bytes_equal(
            name,
            gitignore.as_slice(),
        ) || crate::id::bytes_equal(name, target.as_slice()))
    }
}

} // verus!
