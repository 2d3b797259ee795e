//! Commits and their authors.

use vstd::prelude::*;
use super::{framed, object_id, store, ObjectKind, Stored};
use crate::codec::{decimal, put_bytes, put_decimal};
use crate::id::{hex_of, to_hex, Id};

verus! {

/// Relies on `chrono::Local::now()`: the current time as seconds since the
/// epoch, and the local offset from UTC in seconds, which chrono keeps
/// strictly within one day.
#[verifier::external_body]
fn local_now() -> (r: (i64, i32))
    ensures
        -86400 < r.1 < 86400,
{
    let now = chrono::Local::now();
    (now.timestamp(), now.offset().local_minus_utc())
}

/// A signed decimal number.
pub open spec fn signed_decimal(x: int) -> Seq<u8> {
    if x < 0 {
        seq![45u8] + decimal((-x) as nat)
    } else {
        decimal(x as nat)
    }
}

/// Two decimal digits of a number below 100.
pub open spec fn two_digits(n: int) -> Seq<u8> {
    seq![(48 + n / 10) as u8, (48 + n % 10) as u8]
}

/// A UTC offset given in seconds, as `+hhmm` or `-hhmm`.
pub open spec fn zone(offset: int) -> Seq<u8> {
    let a = if offset < 0 {
        -offset
    } else {
        offset
    };
    seq![if offset < 0 {
        45u8
    } else {
        43u8
    }] + two_digits(a / 3600) + two_digits((a / 60) % 60)
}

/// Who made a commit, and when.
pub struct Author {
    pub name: Vec<u8>,
    pub email: Vec<u8>,
    /// Seconds since the epoch.
    pub time: i64,
    /// Local offset from UTC, in seconds.
    pub offset: i32,
}

/// `<name> <<email>> <seconds> <zone>`.
pub open spec fn author_bytes(a: Author) -> Seq<u8> {
    a.name@ + seq![32u8, 60] + a.email@ + seq![62u8, 32] + signed_decimal(a.time as int) + seq![32u8]
        + zone(a.offset as int)
}

impl Author {
    /// An author stamped with the current time.
    pub fn new(name: Vec<u8>, email: Vec<u8>) -> (r: Author)
        ensures
            r.name@ == name@,
            r.email@ == email@,
            -86400 < r.offset < 86400,
    {
        let (time, offset) = local_now();
        Author { name, email, time, offset }
    }

    /// An author stamped with the given time.
    pub fn at(name: Vec<u8>, email: Vec<u8>, time: i64, offset: i32) -> (r: Author)
        ensures
            r.name@ == name@,
            r.email@ == email@,
            r.time == time,
            r.offset == offset,
    {
        Author { name, email, time, offset }
    }

    /// The author as a commit records it.
    pub fn to_bytes(&self) -> (r: Vec<u8>)
        requires
            -86400 < self.offset < 86400,
        ensures
            r@ == author_bytes(*self),
    {
        let mut out: Vec<u8> = Vec::new();
        put_bytes(&mut out, self.name.as_slice());
        put_bytes(&mut out, &[32u8, 60]);
        put_bytes(&mut out, self.email.as_slice());
        put_bytes(&mut out, &[62u8, 32]);
        let ghost mid = out@;
        if self.time < 0 {
            out.push(45u8);
            let a: u64 = (0i128 - self.time as i128) as u64;
            put_decimal(&mut out, a);
        } else {
            put_decimal(&mut out, self.time as u64);
        }
        assert(out@ =~= mid + signed_decimal(self.time as int));
        out.push(32u8);
        let a: i32 = if self.offset < 0 {
            -self.offset
        } else {
            self.offset
        };
        out.push(if self.offset < 0 {
            45u8
        } else {
            43u8
        });
        let h = a / 3600;
        let m = (a / 60) % 60;
        out.push((48 + h / 10) as u8);
        out.push((48 + h % 10) as u8);
        out.push((48 + m / 10) as u8);
        out.push((48 + m % 10) as u8);
        assert(out@ =~= author_bytes(*self));
        out
    }
}

/// A snapshot: the root tree, the previous commit if any, who made it and
/// why.
pub struct Commit {
    /// The hex id of the parent commit.
    pub parent: Option<Vec<u8>>,
    pub tree_id: Id,
    pub author: Author,
    pub message: Vec<u8>,
}

/// The content of a commit: `tree`, optional `parent`, `author` and
/// `committer` lines, a blank line, the message.
pub open spec fn commit_content(c: Commit) -> Seq<u8> {
    let a = author_bytes(c.author);
    seq![116u8, 114, 101, 101, 32] + hex_of(c.tree_id.as_bytes@) + seq![10u8] + match c.parent {
        Some(p) => seq![112u8, 97, 114, 101, 110, 116, 32] + p@ + seq![10u8],
        None => Seq::empty(),
    } + seq![97u8, 117, 116, 104, 111, 114, 32] + a + seq![10u8] + seq![
        99u8,
        111,
        109,
        109,
        105,
        116,
        116,
        101,
        114,
        32,
    ] + a + seq![10u8, 10u8] + c.message@
}

impl Commit {
    pub fn new(parent: Option<Vec<u8>>, tree_id: Id, author: Author, message: Vec<u8>) -> (r: Commit)
        ensures
            r.parent == parent,
            r.tree_id == tree_id,
            r.author == author,
            r.message == message,
    {
        Commit { parent, tree_id, author, message }
    }

    /// The commit's content.
    pub fn data(&self) -> (r: Vec<u8>)
        requires
            -86400 < self.author.offset < 86400,
            self.tree_id.as_bytes@.len() == 20,
        ensures
            r@ == commit_content(*self),
    {
        let a = self.author.to_bytes();
        let mut out: Vec<u8> = Vec::new();
        put_bytes(&mut out, &[116u8, 114, 101, 101, 32]);
        let hex = to_hex(self.tree_id.as_bytes.as_slice());
        put_bytes(&mut out, hex.as_slice());
        out.push(10u8);
        match &self.parent {
            Some(p) => {
                put_bytes(&mut out, &[112u8, 97, 114, 101, 110, 116, 32]);
                put_bytes(&mut out, p.as_slice());
                out.push(10u8);
            },
            None => {},
        }
        put_bytes(&mut out, &[97u8, 117, 116, 104, 111, 114, 32]);
        put_bytes(&mut out, a.as_slice());
        out.push(10u8);
        put_bytes(&mut out, &[99u8, 111, 109, 109, 105, 116, 116, 101, 114, 32]);
        put_bytes(&mut out, a.as_slice());
        out.push(10u8);
        out.push(10u8);
        put_bytes(&mut out, self.message.as_slice());
        assert(out@ =~= commit_content(*self));
        out
    }

    /// The commit ready to be written.
    pub fn store(&self) -> (r: Stored)
        requires
            -86400 < self.author.offset < 86400,
            self.tree_id.as_bytes@.len() == 20,
        ensures
            r.data@ == framed(ObjectKind::Commit, commit_content(*self)),
            r.id.wf(),
            r.id.as_bytes@ == object_id(ObjectKind::Commit, commit_content(*self)),
    {
        let content = self.data();
        store(ObjectKind::Commit, content.as_slice())
    }
}

} // verus!
