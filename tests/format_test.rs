use rit::errors::IndexError;
use rit::id::Id;
use rit::index::Index;
use rit::workspace::{Entry, Stat};

fn stat(n: i64) -> Stat {
    Stat {
        ctime: n,
        ctime_nsec: n + 1,
        mtime: n + 2,
        mtime_nsec: n + 3,
        dev: 5,
        ino: 6,
        mode: 0o100644,
        uid: 8,
        gid: 9,
        size: 10,
    }
}

fn id(b: u8) -> Id {
    Id::parse(&[b; 20])
}

fn filled() -> Index {
    let mut index = Index::new(b"/p/.git/index".to_vec());
    for (i, p) in ["b.txt", "a/very/long/path/name/for/padding.txt", "a/x"].iter().enumerate() {
        let e = Entry::new(p.as_bytes().to_vec(), p.as_bytes().to_vec(), false);
        index.add(e, id(i as u8 + 1), stat(i as i64 * 10));
    }
    index
}

#[test]
fn written_index_has_header_records_and_checksum() {
    let mut index = filled();
    let bytes = index.write_updates().unwrap();
    assert_eq!(&bytes[0..4], b"DIRC");
    assert_eq!(&bytes[4..8], &[0, 0, 0, 2]);
    assert_eq!(&bytes[8..12], &[0, 0, 0, 3]);
    assert_eq!((bytes.len() - 32) % 8, 0);
    // The first record is the smallest path, "a/very/...".
    assert_eq!(&bytes[12 + 62..12 + 68], b"a/very");
    let body = &bytes[..bytes.len() - 20];
    assert_eq!(&bytes[bytes.len() - 20..], &rit::id::OneOff::new(body).as_bytes[..]);
    assert!(index.write_updates().is_none());
}

#[test]
fn index_round_trips_through_its_bytes() {
    let mut index = filled();
    let bytes = index.write_updates().unwrap();
    let mut loaded = Index::new(b"/p/.git/index".to_vec());
    loaded.load(Some(&bytes)).unwrap();
    assert_eq!(loaded.len(), 3);
    let paths: Vec<Vec<u8>> = loaded.entries().into_iter().map(|e| e.pathname).collect();
    assert_eq!(paths[0], b"a/very/long/path/name/for/padding.txt".to_vec());
    // Mark changed by refreshing a stat to its own value, then write again.
    let first = loaded.entries()[0].clone_stat();
    loaded.update_entry_stat(b"a/x", &first);
    let mut again = Index::new(b"/p/.git/index".to_vec());
    again.load(Some(&bytes)).unwrap();
    let e = again.entries()[2].clone_stat();
    again.update_entry_stat(b"b.txt", &e);
    assert_eq!(again.write_updates().unwrap(), bytes);
}

trait CloneStat {
    fn clone_stat(&self) -> Stat;
}

impl CloneStat for rit::index::Entry {
    fn clone_stat(&self) -> Stat {
        self.stat
    }
}

#[test]
fn missing_index_file_loads_empty() {
    let mut index = filled();
    index.load(None).unwrap();
    assert_eq!(index.len(), 0);
}

#[test]
fn corrupt_checksum_is_rejected() {
    let mut index = filled();
    let mut bytes = index.write_updates().unwrap();
    let last = bytes.len() - 1;
    bytes[last] ^= 0xff;
    let mut loaded = Index::new(b"/p/.git/index".to_vec());
    match loaded.load(Some(&bytes)) {
        Err(IndexError::Parse(msg)) => assert_eq!(msg, "Checksum verification of the index failed"),
        _ => panic!("checksum error expected"),
    }
    assert_eq!(loaded.len(), 0);
}

#[test]
fn bad_signature_and_version_are_rejected() {
    let mut index = filled();
    let bytes = index.write_updates().unwrap();
    let mut wrong = bytes.clone();
    wrong[0] = b'X';
    assert!(matches!(Index::new(Vec::new()).load(Some(&wrong)), Err(IndexError::Parse(_))));
    let mut version = bytes.clone();
    version[7] = 3;
    assert!(matches!(Index::new(Vec::new()).load(Some(&version)), Err(IndexError::Parse(_))));
}

#[test]
fn truncated_index_is_an_io_error() {
    let mut index = filled();
    let bytes = index.write_updates().unwrap();
    assert!(matches!(Index::new(Vec::new()).load(Some(&bytes[..10])), Err(IndexError::Io)));
    assert!(matches!(Index::new(Vec::new()).load(Some(&bytes[..100])), Err(IndexError::Io)));
}

#[test]
fn extension_records_are_skipped() {
    let mut index = filled();
    let bytes = index.write_updates().unwrap();
    let mut body = bytes[..bytes.len() - 20].to_vec();
    body.extend_from_slice(b"TREE");
    body.extend_from_slice(&[0, 0, 0, 3]);
    body.extend_from_slice(b"xyz");
    let sum = rit::id::OneOff::new(&body);
    body.extend_from_slice(&sum.as_bytes);
    let mut loaded = Index::new(Vec::new());
    loaded.load(Some(&body)).unwrap();
    assert_eq!(loaded.len(), 3);
}

#[test]
fn empty_index_round_trip() {
    let mut index = Index::new(Vec::new());
    let e = Entry::new(b"x".to_vec(), b"x".to_vec(), false);
    index.add(e, id(1), stat(0));
    let mut empty = Index::new(Vec::new());
    empty.load(None).unwrap();
    assert!(empty.write_updates().is_none());
}
