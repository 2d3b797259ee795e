use rit::id::Id;
use rit::index::Index;
use rit::workspace::{Entry, Stat};

fn get_index() -> Index {
    Index::new(b"tmp/index".to_vec())
}

fn get_id() -> Id {
    Id::parse(&[
        81, 232, 127, 146, 48, 252, 159, 201, 222, 122, 167, 182, 52, 254, 15, 207, 73, 234, 223,
        164,
    ])
}

fn get_stat() -> Stat {
    Stat {
        ctime: 1,
        ctime_nsec: 2,
        mtime: 3,
        mtime_nsec: 4,
        dev: 5,
        ino: 6,
        mode: 7,
        uid: 8,
        gid: 9,
        size: 10,
    }
}

fn get_workspace_entry(path: &str) -> Entry {
    Entry::new(path.as_bytes().to_vec(), path.as_bytes().to_vec(), false)
}

fn map_entries(index: &Index) -> Vec<String> {
    index
        .entries()
        .iter()
        .map(|entry| String::from_utf8(entry.pathname.clone()).unwrap())
        .collect()
}

#[test]
fn it_adds_a_single_file() {
    let mut index = get_index();

    index.add(get_workspace_entry("alice.txt"), get_id(), get_stat());

    assert_eq!(vec!["alice.txt"], map_entries(&index));
}

#[test]
fn it_replaces_a_file_with_a_directory() {
    let mut index = get_index();

    index.add(get_workspace_entry("alice.txt"), get_id(), get_stat());
    index.add(get_workspace_entry("bob.txt"), get_id(), get_stat());

    index.add(get_workspace_entry("alice.txt/nested.txt"), get_id(), get_stat());

    assert_eq!(vec!["alice.txt/nested.txt", "bob.txt"], map_entries(&index));
}

#[test]
fn it_replaces_a_directory_with_a_file() {
    let mut index = get_index();

    index.add(get_workspace_entry("alice.txt"), get_id(), get_stat());
    index.add(get_workspace_entry("nested/bob.txt"), get_id(), get_stat());

    index.add(get_workspace_entry("nested"), get_id(), get_stat());

    assert_eq!(vec!["alice.txt", "nested"], map_entries(&index));
}

#[test]
fn it_recursively_replaces_a_directory_with_a_file() {
    let mut index = get_index();

    index.add(get_workspace_entry("alice.txt"), get_id(), get_stat());
    index.add(get_workspace_entry("nested/bob.txt"), get_id(), get_stat());
    index.add(get_workspace_entry("nested/inner/claire.txt"), get_id(), get_stat());

    index.add(get_workspace_entry("nested"), get_id(), get_stat());

    assert_eq!(vec!["alice.txt", "nested"], map_entries(&index));
}

#[test]
fn id_parse_gives_forty_hex_digits() {
    let id = get_id();
    assert_eq!(id.as_str, "51e87f9230fc9fc9de7aa7b634fe0fcf49eadfa4");
    assert_eq!(id.as_bytes.len(), 20);
}

#[test]
fn id_parse_pads_small_bytes() {
    let id = Id::parse(&[0, 1, 2, 3, 4, 5, 6, 7, 8, 9, 10, 11, 12, 13, 14, 15, 16, 17, 18, 255]);
    assert_eq!(id.as_str, "000102030405060708090a0b0c0d0e0f101112ff");
}

#[test]
fn tracked_paths_include_parent_directories() {
    let mut index = get_index();
    index.add(get_workspace_entry("a/b/c.txt"), get_id(), get_stat());

    assert!(index.is_tracked(b"a/b/c.txt"));
    assert!(index.is_tracked(b"a/b"));
    assert!(index.is_tracked(b"a"));
    assert!(!index.is_tracked(b"a/b/c"));
    assert!(!index.is_tracked(b"b"));
}

#[test]
fn entries_come_out_sorted_by_bytes() {
    let mut index = get_index();
    index.add(get_workspace_entry("b.txt"), get_id(), get_stat());
    index.add(get_workspace_entry("a/z.txt"), get_id(), get_stat());
    index.add(get_workspace_entry("a.txt"), get_id(), get_stat());
    index.add(get_workspace_entry("B.txt"), get_id(), get_stat());

    assert_eq!(vec!["B.txt", "a.txt", "a/z.txt", "b.txt"], map_entries(&index));
}

#[test]
fn entry_mode_follows_execute_bits() {
    let mut index = get_index();
    let mut stat = get_stat();
    stat.mode = 0o100755;
    index.add(get_workspace_entry("run.sh"), get_id(), stat);
    stat.mode = 0o100644;
    index.add(get_workspace_entry("doc.txt"), get_id(), stat);

    let modes: Vec<u32> = index.entries().iter().map(|e| e.mode).collect();
    assert_eq!(vec![0o100644, 0o100755], modes);
}

#[test]
fn add_single_file_records_regular_mode() {
    let mut index = get_index();
    let mut stat = get_stat();
    stat.mode = 0o100644;
    index.add(get_workspace_entry("hello.txt"), rit::objects::Blob::new(b"hello".to_vec()).store().id, stat);

    let entries: Vec<(String, u32)> = index
        .entries()
        .iter()
        .map(|e| (String::from_utf8(e.pathname.clone()).unwrap(), e.mode))
        .collect();
    assert_eq!(vec![("hello.txt".to_string(), 0o100644)], entries);
}

#[test]
fn update_entry_stat_refreshes_only_that_entry() {
    let mut index = get_index();
    index.add(get_workspace_entry("a.txt"), get_id(), get_stat());
    index.add(get_workspace_entry("b.txt"), get_id(), get_stat());
    index.write_updates();
    let mut fresh = get_stat();
    fresh.mtime = 99;
    index.update_entry_stat(b"b.txt", &fresh);
    let times: Vec<i64> = index.entries().iter().map(|e| e.stat.mtime).collect();
    assert_eq!(vec![3, 99], times);
    assert!(index.write_updates().is_some());
    index.update_entry_stat(b"missing", &fresh);
    assert!(index.write_updates().is_none());
}

#[test]
fn entry_parents_are_proper_ancestors_shortest_first() {
    let mut index = get_index();
    index.add(get_workspace_entry("a/b/c.txt"), get_id(), get_stat());
    let parents: Vec<String> = index.entries()[0]
        .parents()
        .into_iter()
        .map(|p| String::from_utf8(p).unwrap())
        .collect();
    assert_eq!(vec!["a", "a/b"], parents);
}
