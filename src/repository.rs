//! The parts of a repository, each given the paths it owns.

use vstd::prelude::*;
use crate::codec::{copy_range, put_bytes};
use crate::database::Database;
use crate::index::Index;
use crate::refs::Refs;
use crate::workspace::Workspace;

verus! {

/// `/.git`.
pub open spec fn git_suffix() -> Seq<u8> {
    seq![47u8, 46, 103, 105, 116]
}

pub struct Repository {
    pub database: Database,
    pub index: Index,
    pub refs: Refs,
    pub workspace: Workspace,
}

impl Repository {
    /// The repository of the project at `project_path`: its objects under
    /// `.git/objects`, its index at `.git/index`, its refs in `.git`.
    pub fn new(project_path: Vec<u8>) -> (r: Repository)
        ensures
            r.database.path@ == project_path@ + git_suffix() + seq![47u8, 111, 98, 106, 101, 99, 116, 115],
            r.index.file_path() == project_path@ + git_suffix() + seq![47u8, 105, 110, 100, 101, 120],
            r.index.wf(),
            r.index@.len() == 0,
            r.refs.path@ == project_path@ + git_suffix(),
            r.workspace.path@ == project_path@,
    {
        let mut git = copy_range(project_path.as_slice(), 0, project_path.len());
        put_bytes(&mut git, &[47u8, 46, 103, 105, 116]);
        let mut objects = copy_range(git.as_slice(), 0, git.len());
        put_bytes(&mut objects, &[47u8, 111, 98, 106, 101, 99, 116, 115]);
        let mut index = copy_range(git.as_slice(), 0, git.len());
        put_bytes(&mut index, &[47u8, 105, 110, 100, 101, 120]);
        proof {
            assert(objects@ =~= project_path@ + git_suffix() + seq![47u8, 111, 98, 106, 101, 99, 116, 115]);
            assert(index@ =~= project_path@ + git_suffix() + seq![47u8, 105, 110, 100, 101, 120]);
            assert(git@ =~= project_path@ + git_suffix());
        }
        Repository {
            database: Database::new(objects),
            index: Index::new(index),
            refs: Refs::new(git),
            workspace: Workspace::new(project_path),
        }
    }
}

} // verus!
