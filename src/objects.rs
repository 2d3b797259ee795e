//! Git objects: blobs, trees and commits, their canonical bytes, and the
//! framing `<kind> <length>\0` under which they are hashed and stored.

pub mod commit;
pub mod tree;

use vstd::prelude::*;
use crate::codec::{decimal, put_bytes, put_decimal};
use crate::id::{sha1_of, Id, OneOff};
use crate::workspace;

pub use commit::{Author, Commit};
pub use tree::{Node, Tree};

verus! {

/// The three kinds of object.
#[derive(Clone, Copy, Debug, PartialEq, Eq, Structural)]
pub enum ObjectKind {
    Blob,
    Tree,
    Commit,
}

/// The name of a kind as the header writes it.
pub open spec fn kind_name(k: ObjectKind) -> Seq<u8> {
    match k {
        ObjectKind::Blob => seq![98u8, 108, 111, 98],
        ObjectKind::Tree => seq![116u8, 114, 101, 101],
        ObjectKind::Commit => seq![99u8, 111, 109, 109, 105, 116],
    }
}

/// `<kind> <decimal length>\0`.
pub open spec fn header(k: ObjectKind, len: nat) -> Seq<u8> {
    kind_name(k) + seq![32u8] + decimal(len) + seq![0u8]
}

/// The header followed by the content: what is hashed and stored.
pub open spec fn framed(k: ObjectKind, content: Seq<u8>) -> Seq<u8> {
    header(k, content.len()) + content
}

/// The id of an object of kind `k` with the given content.
pub open spec fn object_id(k: ObjectKind, content: Seq<u8>) -> Seq<u8> {
    sha1_of(framed(k, content))
}

impl ObjectKind {
    /// The kind's name.
    pub fn name(&self) -> (r: Vec<u8>)
        ensures
            r@ == kind_name(*self),
    {
        let mut out: Vec<u8> = Vec::new();
        match self {
            ObjectKind::Blob => put_bytes(&mut out, &[98u8, 108, 111, 98]),
            ObjectKind::Tree => put_bytes(&mut out, &[116u8, 114, 101, 101]),
            ObjectKind::Commit => put_bytes(&mut out, &[99u8, 111, 109, 109, 105, 116]),
        }
        proof {
            assert(out@ =~= kind_name(*self));
        }
        out
    }
}

/// The header of an object of kind `k` whose content has `len` bytes.
pub fn object_header(k: ObjectKind, len: usize) -> (r: Vec<u8>)
    ensures
        r@ == header(k, len as nat),
{
    let mut out = k.name();
    out.push(32u8);
    put_decimal(&mut out, len as u64);
    out.push(0u8);
    proof {
        assert(out@ =~= header(k, len as nat));
    }
    out
}

/// An object ready to be written: its id and its framed bytes.
pub struct Stored {
    pub id: Id,
    pub data: Vec<u8>,
}

/// Frame the content of an object and compute its id.
pub fn store(k: ObjectKind, content: &[u8]) -> (r: Stored)
    ensures
        r.data@ == framed(k, content@),
        r.id.wf(),
        r.id.as_bytes@ == object_id(k, content@),
{
    let mut data = object_header(k, content.len());
    put_bytes(&mut data, content);
    let id = OneOff::new(data.as_slice());
    Stored { id, data }
}

/// The content of one workspace file.
pub struct Blob {
    pub data: Vec<u8>,
}

impl Blob {
    pub fn new(data: Vec<u8>) -> (r: Blob)
        ensures
            r.data@ == data@,
    {
        Blob { data }
    }

    /// The blob ready to be written.
    pub fn store(&self) -> (r: Stored)
        ensures
            r.data@ == framed(ObjectKind::Blob, self.data@),
            r.id.wf(),
            r.id.as_bytes@ == object_id(ObjectKind::Blob, self.data@),
    {
        store(ObjectKind::Blob, self.data.as_slice())
    }
}

/// The mode of a file as a tree writes it, with its trailing space.
pub open spec fn file_mode(executable: bool) -> Seq<u8> {
    if executable {
        seq![49u8, 48, 48, 55, 53, 53, 32]
    } else {
        seq![49u8, 48, 48, 54, 52, 52, 32]
    }
}

/// The mode of a directory as a tree writes it, with its trailing space.
pub open spec fn directory_mode() -> Seq<u8> {
    seq![52u8, 48, 48, 48, 48, 32]
}

/// A file to be recorded in a tree.
pub struct Entry {
    pub id: Id,
    pub path: Vec<u8>,
    pub stat: workspace::Stat,
}

impl Entry {
    /// `100755 ` for an executable file, else `100644 `.
    pub fn mode(&self) -> (r: Vec<u8>)
        ensures
            r@ == file_mode(self.stat.spec_is_executable()),
    {
        let mut out: Vec<u8> = Vec::new();
        if self.stat.is_executable() {
            put_bytes(&mut out, &[49u8, 48, 48, 55, 53, 53, 32]);
        } else {
            put_bytes(&mut out, &[49u8, 48, 48, 54, 52, 52, 32]);
        }
        proof {
            assert(out@ =~= file_mode(self.stat.spec_is_executable()));
        }
        out
    }
}

} // verus!
