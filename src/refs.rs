//! References: only `HEAD`, a file holding the hex id of the last commit
//! and a newline.

use vstd::prelude::*;
use crate::codec::{copy_range, put_bytes};
use crate::id::{hex_of, to_hex, Id};

pub use crate::errors::RefsError;

verus! {

/// The repository's `.git` directory, where `HEAD` lives.
pub struct Refs {
    pub path: Vec<u8>,
}

/// The bytes of `s` before its first newline.
pub open spec fn first_line(s: Seq<u8>) -> Seq<u8> {
    s.take(crate::database::first_of(s, 10, 0))
}

impl Refs {
    pub fn new(path: Vec<u8>) -> (r: Refs)
        ensures
            r.path@ == path@,
    {
        Refs { path }
    }

    /// `<path>/HEAD`.
    pub fn head_path(&self) -> (r: Vec<u8>)
        ensures
            r@ == self.path@ + seq![47u8, 72, 69, 65, 68],
    {
        let mut out = copy_range(self.path.as_slice(), 0, self.path.len());
        put_bytes(&mut out, &[47u8, 72, 69, 65, 68]);
        proof {
            assert(out@ =~= self.path@ + seq![47u8, 72, 69, 65, 68]);
        }
        out
    }

    /// What `HEAD` holds once it points at `id`: the hex id and a newline.
    pub fn update_head(&self, id: &Id) -> (r: Vec<u8>)
        requires
            id.as_bytes@.len() == 20,
        ensures
            r@ == hex_of(id.as_bytes@) + seq![10u8],
    {
        let mut out = to_hex(id.as_bytes.as_slice());
        out.push(10u8);
        out
    }

    /// The parent for the next commit, from the content of `HEAD` (`None`
    /// when there is no `HEAD` file): its first line, or `None` when the
    /// file is empty.
    pub fn read_head(&self, content: Option<&[u8]>) -> (r: Option<Vec<u8>>)
        ensures
            content is None ==> r is None,
            content matches Some(c) ==> (if c@.len() == 0 {
                r is None
            } else {
                r matches Some(l) && l@ == first_line(c@)
            }),
    {
        match content {
            None => None,
            Some(c) => {
                if c.len() == 0 {
                    return None;
                }
                let mut i: usize = 0;
                while i < c.len() && c[i] != 10u8
                    invariant
                        i <= c@.len(),
                        crate::database::first_of(c@, 10, 0) == crate::database::first_of(
                            c@,
                            10,
                            i as int,
                        ),
                    decreases c@.len() - i,
                {
                    i = i + 1;
                }
                let line = copy_range(c, 0, i);
                proof {
                    assert(line@ =~= first_line(c@));
                }
                Some(line)
            },
        }
    }
}

} // verus!
