//! Execution core of a monorepo task orchestrator: builds a dependency graph
//! over requested project/task targets, optionally narrows it to targets
//! affected by a set of touched files, schedules execution in dependency-order
//! batches, derives per-target outcomes, and aggregates a run summary.
use vstd::prelude::*;
use vstd::string::StringExecFns;

pub mod action;
pub mod context;
pub mod graph;
pub mod pipeline;
pub mod registry;
pub mod stats;

verus! {

/// Classification of touched files that an affected-filtered run selects.
#[derive(Clone, Copy, Debug, PartialEq, Eq, Structural)]
pub enum RunStatus {
    Added,
    All,
    Deleted,
    Modified,
    Staged,
    Unstaged,
    Untracked,
}

impl Default for RunStatus {
    fn default() -> (r: Self)
        ensures
            r == RunStatus::All,
    {
        RunStatus::All
    }
}

impl RunStatus {
    /// Lower-case name of the classification, as run messages render it.
    pub open spec fn spec_label(self) -> Seq<char> {
        match self {
            RunStatus::Added => "added"@,
            RunStatus::All => "all"@,
            RunStatus::Deleted => "deleted"@,
            RunStatus::Modified => "modified"@,
            RunStatus::Staged => "staged"@,
            RunStatus::Unstaged => "unstaged"@,
            RunStatus::Untracked => "untracked"@,
        }
    }

    /// Lower-case name of the classification.
    pub fn label(&self) -> (r: &'static str)
        ensures
            r@ == self.spec_label(),
    {
        match self {
            RunStatus::Added => "added",
            RunStatus::All => "all",
            RunStatus::Deleted => "deleted",
            RunStatus::Modified => "modified",
            RunStatus::Staged => "staged",
            RunStatus::Unstaged => "unstaged",
            RunStatus::Untracked => "untracked",
        }
    }
}

/// The touched files one run can select from, partitioned by
/// classification, as the version-control collaborator reports them.
pub struct TouchedFiles {
    pub added: Vec<String>,
    pub all: Vec<String>,
    pub deleted: Vec<String>,
    pub modified: Vec<String>,
    pub staged: Vec<String>,
    pub unstaged: Vec<String>,
    pub untracked: Vec<String>,
}

/// The file list the requested classification selects.
pub open spec fn chosen_files(files: TouchedFiles, status: RunStatus) -> Seq<String> {
    match status {
        RunStatus::Added => files.added@,
        RunStatus::All => files.all@,
        RunStatus::Deleted => files.deleted@,
        RunStatus::Modified => files.modified@,
        RunStatus::Staged => files.staged@,
        RunStatus::Unstaged => files.unstaged@,
        RunStatus::Untracked => files.untracked@,
    }
}

/// A repository-relative path resolved against the workspace root.
pub open spec fn rooted(root: Seq<char>, f: Seq<char>) -> Seq<char> {
    root + "/"@ + f
}

/// Selects the touched files of the requested classification and resolves
/// each repository-relative path against the workspace root.
pub fn select_touched_files(
    files: &TouchedFiles,
    status: &RunStatus,
    root: &String,
) -> (r: Vec<String>)
    ensures
        r@.len() == chosen_files(*files, *status).len(),
        forall|i: int|
            0 <= i < r@.len() ==> (#[trigger] r@[i])@ == rooted(
                root@,
                chosen_files(*files, *status)[i]@,
            ),
{
    let list: &Vec<String> = match status {
        RunStatus::Added => &files.added,
        RunStatus::All => &files.all,
        RunStatus::Deleted => &files.deleted,
        RunStatus::Modified => &files.modified,
        RunStatus::Staged => &files.staged,
        RunStatus::Unstaged => &files.unstaged,
        RunStatus::Untracked => &files.untracked,
    };
    let mut out: Vec<String> = Vec::new();
    let n = list.len();
    for k in 0..n
        invariant
            n == list@.len(),
            list@ == chosen_files(*files, *status),
            out@.len() == k,
            forall|i: int|
                0 <= i < k ==> (#[trigger] out@[i])@ == rooted(root@, list@[i]@),
    {
        let mut s = root.as_str().to_owned();
        s.append("/");
        s.append(list[k].as_str());
        proof {
            assert(s@ =~= rooted(root@, list@[k as int]@));
        }
        out.push(s);
    }
    out
}

/// Options for one pipeline run: whether to filter by touched files, and
/// which touched-file classification to use.
pub struct RunOptions {
    pub affected: bool,
    pub status: RunStatus,
}

} // verus!
