use rit::commands::{prepare_commit, CommitResult, Init, Session};
use rit::database::Database;
use rit::id::OneOff;
use rit::index::Index;
use rit::lockfile::{CreateOutcome, LockError, Lockfile};
use rit::objects::{object_header, Author, Blob, Commit, ObjectKind, Tree};
use rit::refs::Refs;
use rit::workspace::{Entry, Stat, Workspace};
use rit::Repository;

fn text(b: &[u8]) -> String {
    String::from_utf8(b.to_vec()).unwrap()
}

fn stat(mode: u32) -> Stat {
    Stat {
        ctime: 1,
        ctime_nsec: 2,
        mtime: 3,
        mtime_nsec: 4,
        dev: 5,
        ino: 6,
        mode,
        uid: 7,
        gid: 8,
        size: 5,
    }
}

#[test]
fn blob_id_matches_git() {
    let stored = Blob::new(b"hello".to_vec()).store();
    assert_eq!(stored.id.as_str, "b6fc4c620b67d95f953a5c1c1230aaab5db5a1b0");
    assert_eq!(stored.data, b"blob 5\0hello".to_vec());
}

#[test]
fn empty_blob_id_matches_git() {
    let stored = Blob::new(Vec::new()).store();
    assert_eq!(stored.id.as_str, "e69de29bb2d1d6434b8b29ae775ad8c2e48c5391");
}

#[test]
fn header_writes_kind_and_decimal_length() {
    assert_eq!(object_header(ObjectKind::Tree, 1234), b"tree 1234\0".to_vec());
    assert_eq!(object_header(ObjectKind::Commit, 0), b"commit 0\0".to_vec());
}

#[test]
fn one_off_hashes_whole_input() {
    let id = OneOff::new(b"abc");
    assert_eq!(id.as_str, "a9993e364706816aba3e25717850c26c9cd0d89d");
}

#[test]
fn empty_tree_id_matches_git() {
    let mut root = Tree::build(Vec::new());
    let mut out = Vec::new();
    let id = root.store_all(&mut out);
    assert_eq!(id.as_str, "4b825dc642cb6eb9a060e54bf8d69288fbee4904");
    assert_eq!(out.len(), 1);
}

fn file(path: &str, content: &str, mode: u32) -> rit::objects::Entry {
    rit::objects::Entry {
        id: Blob::new(content.as_bytes().to_vec()).store().id,
        path: path.as_bytes().to_vec(),
        stat: stat(mode),
    }
}

#[test]
fn tree_records_mode_name_and_id() {
    let mut root = Tree::build(vec![file("hello.txt", "hello", 0o100644)]);
    let mut out = Vec::new();
    root.store_all(&mut out);
    let mut expected = b"100644 hello.txt\0".to_vec();
    expected.extend_from_slice(&Blob::new(b"hello".to_vec()).store().id.as_bytes);
    assert_eq!(root.data(), expected);
}

#[test]
fn tree_builder_nests_directories_and_stores_leaves_first() {
    let mut root = Tree::build(vec![
        file("a/b/c.txt", "c", 0o100644),
        file("a/d.sh", "d", 0o100755),
        file("e.txt", "e", 0o100644),
    ]);
    let mut out = Vec::new();
    let root_id = root.store_all(&mut out);
    // a/b, a, then the root.
    assert_eq!(out.len(), 3);
    assert_eq!(out[2].id.as_str, root_id.as_str);
    let data = root.data();
    assert!(data.starts_with(b"40000 a\0"));
    let sub = String::from_utf8_lossy(&out[1].data).contains("100755 d.sh");
    assert!(sub);
}

#[test]
fn tree_root_id_is_the_same_for_the_same_entries() {
    let entries = || {
        vec![file("a/b/c.txt", "c", 0o100644), file("a/d.sh", "d", 0o100755), file("e.txt", "e", 0o100644)]
    };
    let mut first = Tree::build(entries());
    let mut second = Tree::build(entries());
    let a = first.store_all(&mut Vec::new());
    let b = second.store_all(&mut Vec::new());
    assert_eq!(a.as_str, b.as_str);
}

#[test]
fn commit_content_has_tree_parent_author_committer_and_message() {
    let tree_id = Blob::new(Vec::new()).store().id;
    let author = Author::at(b"name".to_vec(), b"email".to_vec(), 1700000000, -5400);
    let commit = Commit::new(Some(b"abc".to_vec()), tree_id, author, b"message".to_vec());
    let expected = "tree e69de29bb2d1d6434b8b29ae775ad8c2e48c5391\nparent abc\nauthor name <email> 1700000000 -0130\ncommitter name <email> 1700000000 -0130\n\nmessage";
    assert_eq!(text(&commit.data()), expected);
}

#[test]
fn author_with_positive_offset_and_negative_time() {
    let author = Author::at(b"n".to_vec(), b"e".to_vec(), -42, 3600 * 5 + 45 * 60);
    assert_eq!(text(&author.to_bytes()), "n <e> -42 +0545");
}

#[test]
fn commit_result_marks_root_commit() {
    let root = CommitResult { parent_id: None, commit_id: b"abc".to_vec(), message: b"first".to_vec() };
    assert_eq!(text(&root.display()), "[(root-commit) abc] first");
    let child =
        CommitResult { parent_id: Some(b"abc".to_vec()), commit_id: b"def".to_vec(), message: b"m".to_vec() };
    assert_eq!(text(&child.display()), "[def] m");
}

#[test]
fn database_names_objects_by_hex_id() {
    let db = Database::new(b"/p/.git/objects".to_vec());
    let w = db.store(ObjectKind::Blob, b"hello");
    assert_eq!(text(&w.dir_path), "/p/.git/objects/b6");
    assert_eq!(text(&w.object_path), "/p/.git/objects/b6/fc4c620b67d95f953a5c1c1230aaab5db5a1b0");
    assert!(text(&w.temp_path).starts_with("/p/.git/objects/b6/tmp_obj_"));
    assert_eq!(w.temp_path.len(), "/p/.git/objects/b6/tmp_obj_".len() + 6);
}

#[test]
fn database_restoring_same_bytes_gives_same_id_and_path() {
    let db = Database::new(b"/p/.git/objects".to_vec());
    let a = db.store(ObjectKind::Blob, b"same");
    let b = db.store(ObjectKind::Blob, b"same");
    assert_eq!(a.id.as_str, b.id.as_str);
    assert_eq!(a.object_path, b.object_path);
    assert_eq!(a.data, b.data);
}

#[test]
fn database_loads_what_it_stored() {
    let db = Database::new(b"/p/.git/objects".to_vec());
    let w = db.store(ObjectKind::Commit, b"tree x\n\nmsg");
    assert_ne!(w.data, b"commit 11\0tree x\n\nmsg".to_vec());
    let loaded = db.load(&w.data).unwrap();
    assert_eq!(loaded.kind, ObjectKind::Commit);
    assert_eq!(loaded.content, b"tree x\n\nmsg".to_vec());
    assert!(db.load(b"not zlib").is_none());
}

#[test]
fn lockfile_denies_when_lock_exists_and_guards_stale_use() {
    let mut lock = Lockfile::new(b"/p/.git/index".to_vec());
    assert_eq!(text(&lock.lock_path), "/p/.git/index.lock");
    assert!(matches!(lock.guard_stale_lock(), Err(LockError::StaleLock)));
    assert!(matches!(lock.hold_for_update(CreateOutcome::Exists), Err(LockError::Denied)));
    assert!(matches!(
        lock.hold_for_update(CreateOutcome::Failed(std::io::ErrorKind::PermissionDenied)),
        Err(LockError::Other(std::io::ErrorKind::PermissionDenied))
    ));
    assert!(matches!(lock.guard_stale_lock(), Err(LockError::StaleLock)));
    assert!(lock.hold_for_update(CreateOutcome::Created).is_ok());
    assert!(lock.guard_stale_lock().is_ok());
    assert!(lock.release().is_ok());
    assert!(matches!(lock.release(), Err(LockError::StaleLock)));
}

#[test]
fn refs_write_and_read_head() {
    let refs = Refs::new(b"/p/.git".to_vec());
    assert_eq!(text(&refs.head_path()), "/p/.git/HEAD");
    let id = Blob::new(b"hello".to_vec()).store().id;
    let content = refs.update_head(&id);
    assert_eq!(text(&content), "b6fc4c620b67d95f953a5c1c1230aaab5db5a1b0\n");
    assert_eq!(
        refs.read_head(Some(&content)).map(|h| text(&h)),
        Some("b6fc4c620b67d95f953a5c1c1230aaab5db5a1b0".to_string())
    );
    assert_eq!(refs.read_head(None), None);
    assert_eq!(refs.read_head(Some(b"")), None);
}

fn session() -> Session {
    Session { author_name: "name".to_string(), author_email: "email".to_string(), project_dir: b"/work/p".to_vec() }
}

#[test]
fn it_creates_default_structure_in_current_directory() {
    let init = Init::new(session(), None);
    assert_eq!(text(&init.git_path()), "/work/p/.git");
}

#[test]
fn it_creates_default_structure_in_specified_directory() {
    let init = Init::new(session(), Some(b"custom".to_vec()));
    assert_eq!(text(&init.git_path()), "/work/p/custom/.git");
}

#[test]
fn repository_paths_live_under_git_dir() {
    let repo = Repository::new(b"/work/p".to_vec());
    assert_eq!(text(&repo.database.path), "/work/p/.git/objects");
    assert_eq!(text(repo.index.path()), "/work/p/.git/index");
    assert_eq!(text(&repo.refs.path), "/work/p/.git");
}

#[test]
fn commit_plan_writes_trees_then_commit_and_head() {
    let mut index = Index::new(b"/p/.git/index".to_vec());
    let e = Entry::new(b"/p/hello.txt".to_vec(), b"hello.txt".to_vec(), false);
    index.add(e, Blob::new(b"hello".to_vec()).store().id, stat(0o100644));
    let db = Database::new(b"/p/.git/objects".to_vec());
    let author = Author::at(b"name".to_vec(), b"email".to_vec(), 1, 0);
    let plan = prepare_commit(&db, &index, None, author, b"first line\nmore".to_vec());
    assert_eq!(plan.writes.len(), 2);
    assert_eq!(plan.writes[1].id.as_str, plan.commit_id.as_str);
    assert_eq!(text(&plan.head), format!("{}\n", plan.commit_id.as_str));
    assert_eq!(text(&plan.result.display()), format!("[(root-commit) {}] first line", plan.commit_id.as_str));
}

#[test]
fn workspace_entry_name_and_ignored_names() {
    let e = Entry::new(b"/p/a/b/c.txt".to_vec(), b"a/b/c.txt".to_vec(), false);
    assert_eq!(text(&e.name), "c.txt");
    assert_eq!(e.len, 9);
    assert!(!Workspace::is_listed(b".git"));
    assert!(!Workspace::is_listed(b".gitignore"));
    assert!(!Workspace::is_listed(b"target"));
    assert!(Workspace::is_listed(b"src"));
}

#[test]
fn stat_is_executable_checks_any_execute_bit() {
    assert!(stat(0o100755).is_executable());
    assert!(stat(0o100610).is_executable());
    assert!(!stat(0o100644).is_executable());
}

#[test]
fn author_new_stamps_the_current_time() {
    let author = Author::new(b"name".to_vec(), b"email".to_vec());
    assert!(author.time > 1_600_000_000);
    assert!(author.offset > -86400 && author.offset < 86400);
    let line = text(&author.to_bytes());
    assert!(line.starts_with("name <email> "));
}

#[test]
fn tree_build_sorts_its_input_by_path() {
    let root = Tree::build(vec![file("b.txt", "b", 0o100644), file("a.txt", "a", 0o100644)]);
    assert_eq!(root.nodes[0].0, b"a.txt".to_vec());
    assert_eq!(root.nodes[1].0, b"b.txt".to_vec());
}

#[test]
fn tree_id_does_not_depend_on_input_order() {
    let mut first = Tree::build(vec![file("b.txt", "b", 0o100644), file("a/c.txt", "c", 0o100644)]);
    let mut second = Tree::build(vec![file("a/c.txt", "c", 0o100644), file("b.txt", "b", 0o100644)]);
    let a = first.store_all(&mut Vec::new());
    let b = second.store_all(&mut Vec::new());
    assert_eq!(a.as_str, b.as_str);
}

#[test]
fn tree_data_orders_children_with_directories_as_name_slash() {
    let mut root = Tree::build(vec![file("foo/x", "x", 0o100644), file("foo.txt", "t", 0o100644)]);
    root.store_all(&mut Vec::new());
    let data = root.data();
    assert!(data.starts_with(b"100644 foo.txt\0"));
    let second = &data[b"100644 foo.txt\0".len() + 20..];
    assert!(second.starts_with(b"40000 foo\0"));
}

#[test]
fn tree_data_orders_stored_children_by_name() {
    let mut root = Tree::new();
    root.nodes.push((b"b".to_vec(), rit::objects::Node::Entry(file("b", "b", 0o100644))));
    root.nodes.push((b"a".to_vec(), rit::objects::Node::Entry(file("a", "a", 0o100644))));
    let data = root.data();
    assert!(data.starts_with(b"100644 a\0"));
}
