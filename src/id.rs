//! Object identifiers: 20-byte SHA-1 digests and their 40-digit hex form.

use vstd::prelude::*;

verus! {

/// Length in bytes of an object id.
pub const ID_LEN: usize = 20;

/// What SHA-1 yields on `data`.
pub uninterp spec fn sha1_of(data: Seq<u8>) -> Seq<u8>;

/// Relies on `sha1::Sha1::from(..).digest().bytes()`: the 20-byte SHA-1
/// digest of the whole of `data`, which depends on `data` alone.
#[verifier::external_body]
fn sha1_digest(data: &[u8]) -> (r: Vec<u8>)
    ensures
        r@ == sha1_of(data@),
        r@.len() == 20,
{
    sha1::Sha1::from(data).digest().bytes().to_vec()
}

/// Relies on `String::from_utf8_lossy`: ASCII input is valid UTF-8 and is
/// returned as it is, one character per byte.
#[verifier::external_body]
pub(crate) fn ascii_string(b: &[u8]) -> (r: String)
    requires
        forall|i: int| 0 <= i < b@.len() ==> b@[i] < 128,
    ensures
        r@ == ascii_chars(b@),
{
    String::from_utf8_lossy(b).into_owned()
}

/// The characters of an ASCII byte string.
pub open spec fn ascii_chars(b: Seq<u8>) -> Seq<char> {
    Seq::new(b.len(), |i: int| b[i] as char)
}

/// The lowercase hex digit of a value below 16.
pub open spec fn hex_digit(n: u8) -> u8 {
    if n < 10 {
        (48 + n) as u8
    } else {
        (87 + n) as u8
    }
}

/// Two lowercase hex digits for each byte, high nibble first.
pub open spec fn hex_of(b: Seq<u8>) -> Seq<u8> {
    Seq::new(
        2 * b.len(),
        |i: int|
            if i % 2 == 0 {
                hex_digit(b[i / 2] / 16)
            } else {
                hex_digit(b[i / 2] % 16)
            },
    )
}

fn hex_digit_exec(n: u8) -> (r: u8)
    requires
        n < 16,
    ensures
        r == hex_digit(n),
        r < 128,
{
    if n < 10 {
        48 + n
    } else {
        87 + n
    }
}

/// Lowercase hex encoding of `data`.
pub fn to_hex(data: &[u8]) -> (r: Vec<u8>)
    requires
        data@.len() < usize::MAX / 2,
    ensures
        r@ == hex_of(data@),
        forall|i: int| 0 <= i < r@.len() ==> r@[i] < 128,
{
    let mut out: Vec<u8> = Vec::new();
    let mut i: usize = 0;
    while i < data.len()
        invariant
            i <= data@.len(),
            data@.len() < usize::MAX / 2,
            out@.len() == 2 * i,
            forall|j: int| 0 <= j < 2 * i ==> out@[j] == hex_of(data@)[j],
            forall|j: int| 0 <= j < out@.len() ==> out@[j] < 128,
        decreases data@.len() - i,
    {
        let b = data[i];
        out.push(hex_digit_exec(b / 16));
        out.push(hex_digit_exec(b % 16));
        i = i + 1;
    }
    assert(out@ =~= hex_of(data@));
    out
}

/// An object id: the raw digest and its hex form.
#[derive(Clone, Debug)]
pub struct Id {
    pub as_str: String,
    pub as_bytes: Vec<u8>,
}

impl Id {
    /// The hex form agrees with the raw bytes, of which there are twenty.
    pub open spec fn wf(&self) -> bool {
        &&& self.as_bytes@.len() == ID_LEN
        &&& self.as_str@ == ascii_chars(hex_of(self.as_bytes@))
    }

    /// An id over the given 20 raw bytes.
    pub fn parse(data: &[u8]) -> (r: Id)
        requires
            data@.len() == ID_LEN,
        ensures
            r.wf(),
            r.as_bytes@ == data@,
    {
        let hex = to_hex(data);
        let as_str = ascii_string(hex.as_slice());
        let mut as_bytes: Vec<u8> = Vec::new();
        let mut i: usize = 0;
        while i < data.len()
            invariant
                i <= data@.len(),
                as_bytes@ == data@.take(i as int),
            decreases data@.len() - i,
        {
            as_bytes.push(data[i]);
            i = i + 1;
            assert(as_bytes@ =~= data@.take(i as int));
        }
        assert(as_bytes@ =~= data@);
        Id { as_str, as_bytes }
    }

    /// Whether two ids hold the same digest.
    pub fn same_as(&self, other: &Id) -> (r: bool)
        ensures
            r == (self.as_bytes@ == other.as_bytes@),
    {
        bytes_equal(self.as_bytes.as_slice(), other.as_bytes.as_slice())
    }

    /// An independent copy.
    pub fn duplicate(&self) -> (r: Id)
        ensures
            r.as_bytes@ == self.as_bytes@,
            r.as_str@ == self.as_str@,
    {
        Id { as_str: self.as_str.clone(), as_bytes: copy_bytes(self.as_bytes.as_slice()) }
    }
}

/// Byte-wise equality of two byte strings.
pub fn bytes_equal(a: &[u8], b: &[u8]) -> (r: bool)
    ensures
        r == (a@ == b@),
{
    if a.len() != b.len() {
        return false;
    }
    let mut i: usize = 0;
    while i < a.len()
        invariant
            i <= a@.len(),
            a@.len() == b@.len(),
            a@.take(i as int) == b@.take(i as int),
        decreases a@.len() - i,
    {
        if a[i] != b[i] {
            assert(a@[i as int] != b@[i as int]);
            return false;
        }
        assert(a@.take(i + 1) =~= a@.take(i as int).push(a@[i as int]));
        assert(b@.take(i + 1) =~= b@.take(i as int).push(b@[i as int]));
        i = i + 1;
    }
    assert(a@ =~= a@.take(i as int));
    assert(b@ =~= b@.take(i as int));
    true
}

/// A fresh vector holding the bytes of `b`.
pub fn copy_bytes(b: &[u8]) -> (r: Vec<u8>)
    ensures
        r@ == b@,
{
    let mut out: Vec<u8> = Vec::new();
    let mut i: usize = 0;
    while i < b.len()
        invariant
            i <= b@.len(),
            out@ == b@.take(i as int),
        decreases b@.len() - i,
    {
        out.push(b[i]);
        i = i + 1;
        assert(out@ =~= b@.take(i as int));
    }
    assert(out@ =~= b@);
    out
}

/// A hasher fed in chunks: it keeps what it was given and digests it on
/// `commit`.
pub struct Additive {
    fed: Vec<u8>,
}

impl Additive {
    /// The bytes fed since creation or since the last `commit`.
    pub closed spec fn fed(&self) -> Seq<u8> {
        self.fed@
    }

    pub fn new() -> (r: Additive)
        ensures
            r.fed() == Seq::<u8>::empty(),
    {
        Additive { fed: Vec::new() }
    }

    /// Feed one chunk.
    pub fn add(&mut self, data: &[u8])
        ensures
            final(self).fed() == old(self).fed() + data@,
    {
        let mut i: usize = 0;
        let ghost start = self.fed@;
        while i < data.len()
            invariant
                i <= data@.len(),
                self.fed@ == start + data@.take(i as int),
            decreases data@.len() - i,
        {
            self.fed.push(data[i]);
            i = i + 1;
            assert(self.fed@ =~= start + data@.take(i as int));
        }
        assert(data@.take(i as int) =~= data@);
    }

    /// The id of everything fed so far; the hasher starts over.
    pub fn commit(&mut self) -> (r: Id)
        ensures
            r.wf(),
            r.as_bytes@ == sha1_of(old(self).fed()),
            final(self).fed() == Seq::<u8>::empty(),
    {
        let digest = sha1_digest(self.fed.as_slice());
        self.fed = Vec::new();
        Id::parse(digest.as_slice())
    }
}

/// Hashing of a whole input in one go.
pub struct OneOff;

impl OneOff {
    /// The id of `data`.
    pub fn new(data: &[u8]) -> (r: Id)
        ensures
            r.wf(),
            r.as_bytes@ == sha1_of(data@),
    {
        let digest = sha1_digest(data);
        Id::parse(digest.as_slice())
    }
}

} // verus!
