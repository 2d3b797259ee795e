//! The object database: content-addressed, zlib-compressed files under
//! `objects/`, sharded by the first two hex digits of the id. The database
//! decides names and bytes; the caller performs the file operations.

use vstd::prelude::*;
use crate::codec::{copy_range, put_bytes};
use crate::id::{hex_of, to_hex, Id};
use crate::objects::{framed, kind_name, object_id, store, ObjectKind, Stored};

verus! {

/// What zlib compression with libflate's default options makes of `data`.
pub uninterp spec fn zlib_of(data: Seq<u8>) -> Seq<u8>;

/// What zlib decompression makes of `data`, if it is a valid stream.
pub uninterp spec fn zlib_inflated(data: Seq<u8>) -> Option<Seq<u8>>;

/// Relies on `libflate::zlib::Encoder` with its default options, writing
/// into memory: the stream depends on the input alone, and writing the
/// header, the data and the trailer into a `Vec` cannot fail.
#[verifier::external_body]
fn zlib_compress(data: &[u8]) -> (r: Vec<u8>)
    ensures
        r@ == zlib_of(data@),
{
    let mut encoder = libflate::zlib::Encoder::new(Vec::new()).expect("writing to memory");
    std::io::Write::write_all(&mut encoder, data).expect("writing to memory");
    encoder.finish().into_result().expect("writing to memory")
}

/// Relies on `libflate::zlib::Decoder` reading from memory: it yields the
/// decompressed bytes, or fails on an invalid stream.
#[verifier::external_body]
fn zlib_decompress(data: &[u8]) -> (r: Option<Vec<u8>>)
    ensures
        zlib_inflated(data@) == (match r {
            Some(d) => Some(d@),
            None => None,
        }),
{
    let mut decoder = libflate::zlib::Decoder::new(data).ok()?;
    let mut out: Vec<u8> = Vec::new();
    std::io::Read::read_to_end(&mut decoder, &mut out).ok()?;
    Some(out)
}

/// An ASCII letter or digit.
pub open spec fn is_alphanumeric(c: u8) -> bool {
    (48 <= c <= 57) || (65 <= c <= 90) || (97 <= c <= 122)
}

/// Relies on `rand::thread_rng().sample_iter(Alphanumeric)`: random ASCII
/// letters and digits, six of them here.
#[verifier::external_body]
fn random_suffix() -> (r: Vec<u8>)
    ensures
        r@.len() == 6,
        forall|i: int| 0 <= i < 6 ==> is_alphanumeric(#[trigger] r@[i]),
{
    let s: String = rand::Rng::sample_iter(rand::thread_rng(), rand::distributions::Alphanumeric)
        .take(6)
        .collect();
    s.into_bytes()
}

/// `tmp_obj_`.
pub open spec fn temp_prefix() -> Seq<u8> {
    seq![116u8, 109, 112, 95, 111, 98, 106, 95]
}

/// A fresh name for a temporary object file: `tmp_obj_` and six random
/// letters or digits.
pub fn generate_temp_name() -> (r: Vec<u8>)
    ensures
        r@.len() == 14,
        r@.take(8) == temp_prefix(),
        forall|i: int| 8 <= i < 14 ==> is_alphanumeric(#[trigger] r@[i]),
{
    let mut name: Vec<u8> = Vec::new();
    put_bytes(&mut name, &[116u8, 109, 112, 95, 111, 98, 106, 95]);
    let suffix = random_suffix();
    put_bytes(&mut name, suffix.as_slice());
    proof {
        assert(name@.take(8) =~= temp_prefix());
        assert forall|i: int| 8 <= i < 14 implies is_alphanumeric(#[trigger] name@[i]) by {
            assert(name@[i] == suffix@[i - 8]);
        }
    }
    name
}

/// The shard directory of an object: the database path, `/`, the first
/// two hex digits.
pub open spec fn object_dir(root: Seq<u8>, hex: Seq<u8>) -> Seq<u8> {
    root + seq![47u8] + hex.take(2)
}

/// The file of an object: its shard directory, `/`, the other 38 digits.
pub open spec fn object_file(root: Seq<u8>, hex: Seq<u8>) -> Seq<u8> {
    object_dir(root, hex) + seq![47u8] + hex.skip(2)
}

/// How to write one object: where, through which temporary file, which
/// bytes. The caller skips the write when the object file exists already.
pub struct ObjectWrite {
    pub id: Id,
    pub dir_path: Vec<u8>,
    pub object_path: Vec<u8>,
    pub temp_path: Vec<u8>,
    /// The compressed framed object.
    pub data: Vec<u8>,
}

/// `w` writes the object of kind `k` with content `c` into the database at
/// `root`: the id is the SHA-1 of the framed object, the file is named after
/// it, the bytes are the framed object compressed.
pub open spec fn stored_as(root: Seq<u8>, k: ObjectKind, c: Seq<u8>, w: ObjectWrite) -> bool {
    &&& w.id.wf()
    &&& w.id.as_bytes@ == object_id(k, c)
    &&& w.dir_path@ == object_dir(root, hex_of(object_id(k, c)))
    &&& w.object_path@ == object_file(root, hex_of(object_id(k, c)))
    &&& w.data@ == zlib_of(framed(k, c))
}

/// Storing the same bytes again gives the same id, names the same object
/// file and holds the same bytes; the caller skips the write of a file that
/// exists, so the second store writes nothing.
pub proof fn lemma_store_idempotent(
    root: Seq<u8>,
    k: ObjectKind,
    c: Seq<u8>,
    first: ObjectWrite,
    second: ObjectWrite,
)
    requires
        stored_as(root, k, c, first),
        stored_as(root, k, c, second),
    ensures
        first.id.as_bytes@ == second.id.as_bytes@,
        first.id.as_str@ == second.id.as_str@,
        first.object_path@ == second.object_path@,
        first.data@ == second.data@,
{
}

/// The objects directory of a repository.
pub struct Database {
    pub path: Vec<u8>,
}

/// An object read back: its kind and its content.
pub struct LoadedObject {
    pub kind: ObjectKind,
    pub content: Vec<u8>,
}

/// Index of the first `c` in `s` at or after `i` (the length when none).
pub open spec fn first_of(s: Seq<u8>, c: u8, i: int) -> int
    decreases s.len() - i,
{
    if i >= s.len() || i < 0 {
        s.len() as int
    } else if s[i] == c {
        i
    } else {
        first_of(s, c, i + 1)
    }
}

/// The kind that a header names.
pub open spec fn kind_named(name: Seq<u8>) -> Option<ObjectKind> {
    if name == kind_name(ObjectKind::Blob) {
        Some(ObjectKind::Blob)
    } else if name == kind_name(ObjectKind::Tree) {
        Some(ObjectKind::Tree)
    } else if name == kind_name(ObjectKind::Commit) {
        Some(ObjectKind::Commit)
    } else {
        None
    }
}

/// Split a decompressed object: the kind runs to the first space, the
/// length to the next NUL, the content is the rest.
pub open spec fn parse_object(d: Seq<u8>) -> Option<(ObjectKind, Seq<u8>)> {
    let sp = first_of(d, 32, 0);
    let nul = first_of(d, 0, sp + 1);
    if sp >= d.len() || nul >= d.len() {
        None
    } else {
        match kind_named(d.take(sp)) {
            Some(k) => Some((k, d.skip(nul + 1))),
            None => None,
        }
    }
}

fn find_byte(d: &[u8], c: u8, from: usize) -> (r: usize)
    requires
        from <= d@.len(),
    ensures
        r == first_of(d@, c, from as int),
{
    let mut i = from;
    while i < d.len() && d[i] != c
        invariant
            from <= i <= d@.len(),
            first_of(d@, c, from as int) == first_of(d@, c, i as int),
        decreases d@.len() - i,
    {
        i = i + 1;
    }
    i
}

impl Database {
    pub fn new(path: Vec<u8>) -> (r: Database)
        ensures
            r.path@ == path@,
    {
        Database { path }
    }

    /// The shard directory and the file of the object with hex id `hex`.
    pub fn get_object_paths(&self, hex: &[u8]) -> (r: (Vec<u8>, Vec<u8>))
        requires
            hex@.len() >= 2,
        ensures
            r.0@ == object_dir(self.path@, hex@),
            r.1@ == object_file(self.path@, hex@),
    {
        let mut dir = copy_range(self.path.as_slice(), 0, self.path.len());
        dir.push(47u8);
        put_bytes(&mut dir, &hex[0..2]);
        let mut file = copy_range(dir.as_slice(), 0, dir.len());
        file.push(47u8);
        put_bytes(&mut file, &hex[2..hex.len()]);
        proof {
            assert(hex@.subrange(0, 2) =~= hex@.take(2));
            assert(hex@.subrange(2, hex@.len() as int) =~= hex@.skip(2));
            assert(dir@ =~= object_dir(self.path@, hex@));
            assert(file@ =~= object_file(self.path@, hex@));
        }
        (dir, file)
    }

    /// How to write a framed object: its file is named after its id, and
    /// the bytes are the framed object compressed.
    pub fn plan(&self, stored: Stored) -> (w: ObjectWrite)
        requires
            stored.id.as_bytes@.len() == 20,
        ensures
            w.id == stored.id,
            w.dir_path@ == object_dir(self.path@, hex_of(stored.id.as_bytes@)),
            w.object_path@ == object_file(self.path@, hex_of(stored.id.as_bytes@)),
            w.data@ == zlib_of(stored.data@),
            w.temp_path@.len() == w.dir_path@.len() + 15,
            w.temp_path@.take(w.dir_path@.len() + 9int) == w.dir_path@ + seq![47u8] + temp_prefix(),
    {
        let hex = to_hex(stored.id.as_bytes.as_slice());
        let (dir_path, object_path) = self.get_object_paths(hex.as_slice());
        let mut temp_path = copy_range(dir_path.as_slice(), 0, dir_path.len());
        temp_path.push(47u8);
        let name = generate_temp_name();
        put_bytes(&mut temp_path, name.as_slice());
        proof {
            assert(temp_path@.take(dir_path@.len() + 9int) =~= dir_path@ + seq![47u8] + name@.take(8));
        }
        let data = zlib_compress(stored.data.as_slice());
        ObjectWrite { id: stored.id, dir_path, object_path, temp_path, data }
    }

    /// How to store an object of kind `k` with the given content: its id is
    /// the SHA-1 of the framed object.
    pub fn store(&self, k: ObjectKind, content: &[u8]) -> (w: ObjectWrite)
        ensures
            stored_as(self.path@, k, content@, w),
    {
        let stored = store(k, content);
        self.plan(stored)
    }

    /// Read back a stored object from the bytes of its file.
    pub fn load(&self, stored: &[u8]) -> (r: Option<LoadedObject>)
        ensures
            r matches Some(o) ==> zlib_inflated(stored@) matches Some(d) && parse_object(d) == Some(
                (o.kind, o.content@),
            ),
            r is None ==> (zlib_inflated(stored@) matches Some(d) ==> parse_object(d) is None),
    {
        let d = match zlib_decompress(stored) {
            Some(d) => d,
            None => {
                return None;
            },
        };
        let sp = find_byte(d.as_slice(), 32u8, 0);
        if sp >= d.len() {
            return None;
        }
        let nul = find_byte(d.as_slice(), 0u8, sp + 1);
        if nul >= d.len() {
            return None;
        }
        let name = copy_range(d.as_slice(), 0, sp);
        proof {
            assert(name@ =~= d@.take(sp as int));
        }
        let kind = if crate::id::bytes_equal(name.as_slice(), &[98u8, 108, 111, 98]) {
            ObjectKind::Blob
        } else if crate::id::bytes_equal(name.as_slice(), &[116u8, 114, 101, 101]) {
            ObjectKind::Tree
        } else if crate::id::bytes_equal(name.as_slice(), &[99u8, 111, 109, 109, 105, 116]) {
            ObjectKind::Commit
        } else {
            proof {
                assert(kind_name(ObjectKind::Blob) =~= seq![98u8, 108, 111, 98]);
                assert(kind_name(ObjectKind::Tree) =~= seq![116u8, 114, 101, 101]);
                assert(kind_name(ObjectKind::Commit) =~= seq![99u8, 111, 109, 109, 105, 116]);
            }
            return None;
        };
        proof {
            assert(kind_name(ObjectKind::Blob) =~= seq![98u8, 108, 111, 98]);
            assert(kind_name(ObjectKind::Tree) =~= seq![116u8, 114, 101, 101]);
            assert(kind_name(ObjectKind::Commit) =~= seq![99u8, 111, 109, 109, 105, 116]);
        }
        let content = copy_range(d.as_slice(), nul + 1, d.len());
        proof {
            assert(content@ =~= d@.skip(nul + 1));
        }
        Some(LoadedObject { kind, content })
    }
}

} // verus!
