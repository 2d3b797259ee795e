use rit::id::Id;
use rit::index::Index;
use rit::objects::Blob;
use rit::status::{detect_workspace_changes, needs_content, scan_workspace};
use rit::workspace::{Entry, Stat};

fn stat(size: u64, mode: u32, time: i64) -> Stat {
    Stat {
        ctime: time,
        ctime_nsec: 0,
        mtime: time,
        mtime_nsec: 0,
        dev: 1,
        ino: 2,
        mode,
        uid: 3,
        gid: 4,
        size,
    }
}

fn blob_id(content: &str) -> Id {
    Blob::new(content.as_bytes().to_vec()).store().id
}

fn entry(path: &str, is_dir: bool) -> Entry {
    let absolute = format!("/project/{}", path);
    Entry::new(absolute.into_bytes(), path.as_bytes().to_vec(), is_dir)
}

/// A working tree: each file with its content, mode and time.
struct Tree {
    files: Vec<(String, String, u32, i64)>,
    dirs: Vec<String>,
}

impl Tree {
    fn new() -> Self {
        Tree { files: Vec::new(), dirs: Vec::new() }
    }

    fn write(&mut self, path: &str, content: &str) {
        self.files.retain(|f| f.0 != path);
        self.files.push((path.to_string(), content.to_string(), 0o100644, 100));
        let mut prefix = String::new();
        for part in path.split('/').collect::<Vec<_>>().split_last().unwrap().1 {
            if !prefix.is_empty() {
                prefix.push('/');
            }
            prefix.push_str(part);
            if !self.dirs.contains(&prefix) {
                self.dirs.push(prefix.clone());
            }
        }
    }

    fn make_dir(&mut self, path: &str) {
        self.dirs.push(path.to_string());
    }

    fn touch(&mut self, path: &str) {
        for f in self.files.iter_mut() {
            if f.0 == path {
                f.3 += 50;
            }
        }
    }

    fn make_executable(&mut self, path: &str) {
        for f in self.files.iter_mut() {
            if f.0 == path {
                f.2 = 0o100755;
            }
        }
    }

    fn delete(&mut self, path: &str) {
        let under = format!("{}/", path);
        self.files.retain(|f| f.0 != path && !f.0.starts_with(&under));
        self.dirs.retain(|d| d != path && !d.starts_with(&under));
    }

    fn listing(&self) -> Vec<(Entry, Stat)> {
        let mut out = Vec::new();
        for d in &self.dirs {
            out.push((entry(d, true), stat(4096, 0o40755, 100)));
        }
        for f in &self.files {
            out.push((entry(&f.0, false), stat(f.1.len() as u64, f.2, f.3)));
        }
        out
    }

    fn content(&self, path: &[u8]) -> Option<Vec<u8>> {
        self.files.iter().find(|f| f.0.as_bytes() == path).map(|f| f.1.as_bytes().to_vec())
    }

    /// Stage every file as `add .` would.
    fn add_all(&self, index: &mut Index) {
        for f in &self.files {
            index.add(entry(&f.0, false), blob_id(&f.1), stat(f.1.len() as u64, f.2, f.3));
        }
    }
}

struct Report {
    untracked: Vec<String>,
    modified: Vec<String>,
    deleted: Vec<String>,
}

fn text(b: &[u8]) -> String {
    String::from_utf8(b.to_vec()).unwrap()
}

fn status(tree: &Tree, index: &mut Index) -> Report {
    let listing = tree.listing();
    let (untracked, stats) = scan_workspace(index, &listing);
    let contents: Vec<(Vec<u8>, Vec<u8>)> = needs_content(index, &stats)
        .into_iter()
        .filter_map(|p| tree.content(&p).map(|c| (p, c)))
        .collect();
    let (modified, deleted) = detect_workspace_changes(index, &stats, &contents);
    Report {
        untracked: untracked.iter().map(|e| text(&e.display())).collect(),
        modified: modified.iter().map(|p| text(p)).collect(),
        deleted: deleted.iter().map(|p| text(p)).collect(),
    }
}

fn filled_project() -> (Tree, Index) {
    let mut tree = Tree::new();
    tree.write("1.txt", "one");
    tree.write("a/2.txt", "two");
    tree.write("a/b/3.txt", "three");
    let mut index = Index::new(b"/project/.git/index".to_vec());
    tree.add_all(&mut index);
    (tree, index)
}

fn empty_index() -> Index {
    Index::new(b"/project/.git/index".to_vec())
}

#[test]
fn it_lists_untracked_files_in_name_order() {
    let mut tree = Tree::new();
    tree.write("file.txt", "");
    tree.write("another.txt", "");

    let report = status(&tree, &mut empty_index());

    assert_eq!(vec!["another.txt", "file.txt"], report.untracked);
}

#[test]
fn it_lists_files_as_untracked_when_they_are_not_in_index() {
    let mut tree = Tree::new();
    tree.write("committed.txt", "");
    let mut index = empty_index();
    tree.add_all(&mut index);

    tree.write("file.txt", "");

    let report = status(&tree, &mut index);
    assert_eq!(vec!["file.txt"], report.untracked);
}

#[test]
fn it_lists_untracked_directories_without_contents() {
    let mut tree = Tree::new();
    tree.write("file.txt", "");
    tree.write("dir/another.txt", "");

    let report = status(&tree, &mut empty_index());

    assert_eq!(vec!["dir/", "file.txt"], report.untracked);
}

#[test]
fn it_lists_untracked_files_in_tracked_directories() {
    let mut tree = Tree::new();
    tree.write("a/b/inner.txt", "");
    let mut index = empty_index();
    tree.add_all(&mut index);

    tree.write("a/outer.txt", "");
    tree.write("a/b/c/file.txt", "");

    let report = status(&tree, &mut index);
    assert_eq!(vec!["a/b/c/", "a/outer.txt"], report.untracked);
}

#[test]
fn it_does_not_list_empty_untracked_directories() {
    let mut tree = Tree::new();
    tree.make_dir("outer");

    let report = status(&tree, &mut empty_index());

    assert_eq!(Vec::<String>::new(), report.untracked);
}

#[test]
fn it_lists_untracked_directories_that_indirectly_contain_files() {
    let mut tree = Tree::new();
    tree.write("outer/inner/file.txt", "");

    let report = status(&tree, &mut empty_index());

    assert_eq!(vec!["outer/"], report.untracked);
}

#[test]
fn status_modified_test_it_is_empty_when_no_files_are_changed() {
    let (tree, mut index) = filled_project();

    let report = status(&tree, &mut index);

    assert_eq!(Vec::<String>::new(), report.untracked);
    assert_eq!(Vec::<String>::new(), report.modified);
    assert_eq!(Vec::<String>::new(), report.deleted);
}

#[test]
fn status_modified_test_it_lists_entries_with_modified_contents() {
    let (mut tree, mut index) = filled_project();
    tree.write("1.txt", "changed");
    tree.write("a/2.txt", "modified");

    let report = status(&tree, &mut index);

    assert_eq!(vec!["1.txt", "a/2.txt"], report.modified);
}

#[test]
fn status_changed_test_it_is_empty_when_no_files_are_changed() {
    let (tree, mut index) = filled_project();

    let report = status(&tree, &mut index);

    assert_eq!(Vec::<String>::new(), report.modified);
}

#[test]
fn status_changed_test_it_lists_entries_with_modified_contents() {
    let (mut tree, mut index) = filled_project();
    tree.write("1.txt", "changed");
    tree.write("a/2.txt", "modified");

    let report = status(&tree, &mut index);

    assert_eq!(vec!["1.txt", "a/2.txt"], report.modified);
}

#[test]
fn it_lists_entries_with_changed_modes() {
    let (mut tree, mut index) = filled_project();
    tree.make_executable("a/2.txt");

    let report = status(&tree, &mut index);

    assert_eq!(vec!["a/2.txt"], report.modified);
}

#[test]
fn it_lists_modified_entries_with_unchanged_size() {
    let (mut tree, mut index) = filled_project();
    tree.write("a/b/3.txt", "hello");
    tree.touch("a/b/3.txt");

    let report = status(&tree, &mut index);

    assert_eq!(vec!["a/b/3.txt"], report.modified);
}

#[test]
fn it_lists_nothing_when_the_file_is_touched() {
    let (mut tree, mut index) = filled_project();
    tree.touch("1.txt");

    let report = status(&tree, &mut index);

    assert_eq!(Vec::<String>::new(), report.modified);
    // The cached stat was refreshed, so the index must be written.
    assert!(index.write_updates().is_some());
    let refreshed = index.entries().into_iter().find(|e| e.pathname == b"1.txt").unwrap();
    assert_eq!(refreshed.stat.mtime, 150);
}

#[test]
fn it_lists_deleted_files() {
    let (mut tree, mut index) = filled_project();
    tree.delete("a/2.txt");

    let report = status(&tree, &mut index);

    assert_eq!(vec!["a/2.txt"], report.deleted);
}

#[test]
fn it_lists_files_in_deleted_directories() {
    let (mut tree, mut index) = filled_project();
    tree.delete("a");

    let report = status(&tree, &mut index);

    assert_eq!(vec!["a/2.txt", "a/b/3.txt"], report.deleted);
}

#[test]
fn status_reports_modified_on_same_size_content_change() {
    let mut tree = Tree::new();
    tree.write("file", "abcde");
    let mut index = empty_index();
    tree.add_all(&mut index);
    tree.write("file", "vwxyz");
    tree.touch("file");

    let report = status(&tree, &mut index);

    assert_eq!(vec!["file"], report.modified);
    assert_eq!(Vec::<String>::new(), report.deleted);
}

#[test]
fn status_without_changes_leaves_index_unchanged() {
    let (tree, mut index) = filled_project();
    index.write_updates();

    status(&tree, &mut index);

    assert!(index.write_updates().is_none());
}

#[test]
fn untracked_paths_listed_twice_are_reported_once() {
    let mut tree = Tree::new();
    tree.write("file.txt", "");
    let mut listing = tree.listing();
    listing.extend(tree.listing());

    let (untracked, _) = scan_workspace(&empty_index(), &listing);

    let names: Vec<String> = untracked.iter().map(|e| text(&e.display())).collect();
    assert_eq!(vec!["file.txt"], names);
}
