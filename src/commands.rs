//! The operations as the front end sees them: the session they run in,
//! their results, and the verified parts of `init` and `commit`. The file
//! operations around them are the caller's.

use vstd::prelude::*;
use crate::codec::{copy_range, put_bytes};
use crate::database::{object_file, Database, ObjectWrite};
use crate::errors::RitError;
use crate::id::{hex_of, to_hex, Id};
use crate::index::Index;
use crate::objects::{self, Author, Commit, ObjectKind, Stored, Tree};
use crate::objects::commit::commit_content;
use crate::objects::tree::{build_shape, file_view, hashed, nodes_shape};
use crate::index::entry::EntryView;
use crate::objects::object_id;
use crate::refs::first_line;
use crate::workspace;

verus! {

/// Who runs an operation, and where.
#[derive(Clone)]
pub struct Session {
    pub author_name: String,
    pub author_email: String,
    pub project_dir: Vec<u8>,
}

/// A front-end operation.
pub trait Command {
    fn execute(&mut self) -> Result<Execution, RitError>;
}

/// What `status` reports.
pub struct StatusResult {
    pub untracked: Vec<workspace::Entry>,
    pub modified: Vec<workspace::Entry>,
    pub deleted: Vec<workspace::Entry>,
}

/// What `commit` reports.
pub struct CommitResult {
    pub parent_id: Option<Vec<u8>>,
    pub commit_id: Vec<u8>,
    /// The first line of the message.
    pub message: Vec<u8>,
}

/// What an operation returns.
pub enum Execution {
    Empty,
    Commit(CommitResult),
    Status(StatusResult),
}

/// `[<id>] <message>`, with `(root-commit) ` before the id of a commit
/// without parent.
pub open spec fn commit_summary(r: CommitResult) -> Seq<u8> {
    seq![91u8] + (if r.parent_id is None {
        seq![40u8, 114, 111, 111, 116, 45, 99, 111, 109, 109, 105, 116, 41, 32]
    } else {
        Seq::empty()
    }) + r.commit_id@ + seq![93u8, 32] + r.message@
}

impl CommitResult {
    /// The line that reports the commit.
    pub fn display(&self) -> (r: Vec<u8>)
        ensures
            r@ == commit_summary(*self),
    {
        let mut out: Vec<u8> = Vec::new();
        out.push(91u8);
        if self.parent_id.is_none() {
            put_bytes(&mut out, &[40u8, 114, 111, 111, 116, 45, 99, 111, 109, 109, 105, 116, 41, 32]);
        }
        put_bytes(&mut out, self.commit_id.as_slice());
        put_bytes(&mut out, &[93u8, 32]);
        put_bytes(&mut out, self.message.as_slice());
        assert(out@ =~= commit_summary(*self));
        out
    }
}

/// `b` resolved against `a`: `b` itself when absolute, else `a/b`.
pub open spec fn join(a: Seq<u8>, b: Seq<u8>) -> Seq<u8> {
    if b.len() > 0 && b[0] == 47u8 {
        b
    } else {
        a + seq![47u8] + b
    }
}

/// `.git`.
pub open spec fn git_dir_name() -> Seq<u8> {
    seq![46u8, 103, 105, 116]
}

fn join_exec(a: &[u8], b: &[u8]) -> (r: Vec<u8>)
    ensures
        r@ == join(a@, b@),
{
    if b.len() > 0 && b[0] == 47u8 {
        copy_range(b, 0, b.len())
    } else {
        let mut out = copy_range(a, 0, a.len());
        out.push(47u8);
        put_bytes(&mut out, b);
        assert(out@ =~= join(a@, b@));
        out
    }
}

/// `init`: where the repository goes.
pub struct Init {
    pub session: Session,
    pub path: Option<Vec<u8>>,
}

impl Init {
    pub fn new(session: Session, path: Option<Vec<u8>>) -> (r: Init)
        ensures
            r.path == path,
            r.session.project_dir == session.project_dir,
    {
        Init { session, path }
    }

    /// The `.git` directory to create: below the given path, resolved
    /// against the project directory, or below the project directory.
    pub fn git_path(&self) -> (r: Vec<u8>)
        ensures
            r@ == join(
                self.session.project_dir@,
                join(
                    match self.path {
                        Some(p) => p@,
                        None => self.session.project_dir@,
                    },
                    git_dir_name(),
                ),
            ),
    {
        let base = match &self.path {
            Some(p) => copy_range(p.as_slice(), 0, p.len()),
            None => copy_range(self.session.project_dir.as_slice(), 0, self.session.project_dir.len()),
        };
        proof {
            if self.path is Some {
                assert(base@ =~= self.path->0@);
            } else {
                assert(base@ =~= self.session.project_dir@);
            }
        }
        let git = [46u8, 103, 105, 116];
        assert(git@ =~= git_dir_name());
        let relative = join_exec(base.as_slice(), git.as_slice());
        join_exec(self.session.project_dir.as_slice(), relative.as_slice())
    }
}

/// Everything a commit writes: the objects, in the order to write them
/// (trees from the leaves up, then the commit), the new content of `HEAD`,
/// and the report.
pub struct CommitPlan {
    pub writes: Vec<ObjectWrite>,
    /// The id of the root tree.
    pub tree_id: Id,
    pub commit_id: Id,
    pub head: Vec<u8>,
    pub result: CommitResult,
}

/// The files an index records: path, id and execute bit of each entry.
pub open spec fn index_files(s: Seq<EntryView>) -> Seq<(Seq<u8>, Seq<u8>, bool)> {
    s.map_values(|e: EntryView| (e.path, e.id, e.stat.spec_is_executable()))
}

/// Record the index as a commit whose parent is `parent` (a hex id).
pub fn prepare_commit(
    db: &Database,
    index: &Index,
    parent: Option<Vec<u8>>,
    author: Author,
    message: Vec<u8>,
) -> (p: CommitPlan)
    requires
        index.wf(),
        -86400 < author.offset < 86400,
    ensures
        exists|t: Tree|
            hashed(t) && nodes_shape(t, 0) == build_shape(index_files(index@)) && t.id->0.as_bytes@
                == p.tree_id.as_bytes@,
        p.commit_id.as_bytes@ == object_id(
            ObjectKind::Commit,
            commit_content((Commit { parent: parent, tree_id: p.tree_id, author: author, message: message })),
        ),
        p.commit_id.wf(),
        p.head@ == hex_of(p.commit_id.as_bytes@) + seq![10u8],
        p.writes@.len() > 0,
        p.writes@.last().id.as_bytes@ == p.commit_id.as_bytes@,
        p.writes@.last().object_path@ == object_file(db.path@, hex_of(p.commit_id.as_bytes@)),
        p.result.commit_id@ == hex_of(p.commit_id.as_bytes@),
        p.result.parent_id == parent,
        p.result.message@ == first_line(message@),
{
    let entries = index.entries();
    let ghost want = index_files(index@);
    let mut files: Vec<objects::Entry> = Vec::new();
    let mut i: usize = 0;
    while i < entries.len()
        invariant
            i <= entries@.len(),
            crate::index::views(entries@) == index@,
            want == index_files(index@),
            files@.map_values(|e: objects::Entry| file_view(e)) == want.take(i as int),
        decreases entries@.len() - i,
    {
        let e = &entries[i];
        let ghost before = files@;
        files.push(objects::Entry {
            id: e.id.duplicate(),
            path: copy_range(e.pathname.as_slice(), 0, e.pathname.len()),
            stat: e.stat,
        });
        proof {
            assert(crate::index::views(entries@)[i as int] == entries@[i as int]@);
            assert(index@[i as int] == e@);
            let x = files@[files@.len() - 1];
            assert(file_view(x) == want[i as int]);
            assert(files@ =~= before.push(x));
            assert(files@.map_values(|e: objects::Entry| file_view(e)) =~= before.map_values(
                |e: objects::Entry| file_view(e),
            ).push(file_view(x)));
            assert(want.take(i + 1) =~= want.take(i as int).push(want[i as int]));
        }
        i = i + 1;
    }
    assert(want.take(i as int) =~= want);
    proof {
        let pp = crate::objects::tree::path_pairs(files@);
        assert forall|a: int, b: int| 0 <= a < b < pp.len() implies crate::order::lex_lt(
            (#[trigger] pp[a]).0,
            (#[trigger] pp[b]).0,
        ) by {
            assert(files@.map_values(|e: objects::Entry| file_view(e))[a] == want[a]);
            assert(files@.map_values(|e: objects::Entry| file_view(e))[b] == want[b]);
            assert(pp[a].0 == index@[a].path);
            assert(pp[b].0 == index@[b].path);
            assert(crate::index::sorted_by_path(crate::index::views(entries@)));
        }
        crate::order::lemma_key_sort_identity(pp);
        assert(crate::objects::tree::sorted_files(files@) =~= files@.map_values(
            |e: objects::Entry| file_view(e),
        ));
    }
    let mut root = Tree::build(files);
    let mut stored: Vec<Stored> = Vec::new();
    let root_id = root.store_all(&mut stored);
    let tree_id = root_id.duplicate();
    let first = first_line_of(message.as_slice());
    let ghost g_author = author;
    let ghost g_message = message;
    let commit = Commit::new(
        match &parent {
            Some(p) => Some(copy_range(p.as_slice(), 0, p.len())),
            None => None,
        },
        root_id,
        author,
        message,
    );
    proof {
        if parent is Some {
            assert(commit.parent->0@ =~= parent->0@);
        }
        assert(commit_content(commit) == commit_content(
            (Commit { parent: parent, tree_id: tree_id, author: g_author, message: g_message }),
        ));
    }
    let commit_object = commit.store();
    let commit_id = commit_object.id.duplicate();
    stored.push(commit_object);
    let mut writes: Vec<ObjectWrite> = Vec::new();
    let mut rest = stored;
    let ghost last = rest@.last();
    assert forall|k: int| 0 <= k < rest@.len() implies (#[trigger] rest@[k]).id.as_bytes@.len() == 20 by {
        if k < rest@.len() - 1 {
            assert(rest@[k].id.wf());
        }
    }
    while rest.len() > 0
        invariant
            rest@.len() > 0 ==> rest@.last() == last,
            last.id.as_bytes@ == commit_id.as_bytes@,
            commit_id.as_bytes@.len() == 20,
            rest@.len() == 0 ==> writes@.len() > 0 && writes@.last().id.as_bytes@ == commit_id.as_bytes@
                && writes@.last().object_path@ == object_file(db.path@, hex_of(commit_id.as_bytes@)),
            forall|k: int| 0 <= k < rest@.len() ==> (#[trigger] rest@[k]).id.as_bytes@.len() == 20,
        decreases rest@.len(),
    {
        let s = rest.remove(0);
        let w = db.plan(s);
        writes.push(w);
    }
    let hex = to_hex(commit_id.as_bytes.as_slice());
    let mut head = copy_range(hex.as_slice(), 0, hex.len());
    head.push(10u8);
    CommitPlan {
        writes,
        tree_id,
        commit_id,
        head,
        result: CommitResult { parent_id: parent, commit_id: hex, message: first },
    }
}

/// The bytes before the first newline.
fn first_line_of(m: &[u8]) -> (r: Vec<u8>)
    ensures
        r@ == first_line(m@),
{
    let mut i: usize = 0;
    while i < m.len() && m[i] != 10u8
        invariant
            i <= m@.len(),
            crate::database::first_of(m@, 10, 0) == crate::database::first_of(m@, 10, i as int),
        decreases m@.len() - i,
    {
        i = i + 1;
    }
    copy_range(m, 0, i)
}

} // verus!
