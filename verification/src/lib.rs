//! Finds project directories (a manifest file beside a dependency-cache
//! directory) up to a bounded depth, and removes each project's cache
//! directory through a bounded-concurrency deletion pool that reports
//! per-project progress over a stream of status events.
//!
//! The library holds the decision logic: the depth-bounded discovery walk
//! over a directory tree, the deletion pool's scheduling and event
//! discipline, and the status reporter's bookkeeping. Filesystem access,
//! terminal rendering and task plumbing stay outside and hand the library
//! plain values.
use vstd::prelude::*;

pub mod discover;
pub mod pool;
pub mod report;

verus! {

/// Run configuration: how deep discovery searches, whether live status
/// output is suppressed, and whether an interactive selection step runs
/// between discovery and deletion.
pub struct Arguments {
    pub depth: usize,
    pub silent: bool,
    pub interactive: bool,
}

impl Default for Arguments {
    /// Search two levels deep, render live output, skip interactive selection.
    fn default() -> (a: Arguments)
        ensures
            a.depth == 2,
            !a.silent,
            !a.interactive,
    {
        Arguments { depth: 2, silent: false, interactive: false }
    }
}

/// The lifecycle state of one candidate project. Transitions only move
/// forward: `Waiting` to `Deleting`, then to exactly one of `Done` or
/// `Failed`.
#[derive(Clone, Copy, PartialEq, Eq, Structural, Debug)]
pub enum Status {
    Waiting,
    Deleting,
    Failed,
    Done,
}

/// A status is terminal when the candidate's deletion has finished,
/// successfully or not.
pub open spec fn is_terminal(s: Status) -> bool {
    s == Status::Done || s == Status::Failed
}

/// An immutable record of one status transition for the candidate
/// identified by `path`, sent once per transition from a deletion task to
/// the status reporter.
pub struct StatusUpdate {
    pub path: Vec<String>,
    pub status: Status,
}

/// One discovered candidate project: the path of its directory, as
/// segments relative to the search root, and its current status. The path
/// identifies the candidate; only the status ever changes.
pub struct Project {
    pub path: Vec<String>,
    pub status: Status,
}

impl Project {
    /// A freshly discovered candidate starts out waiting.
    pub fn new(path: Vec<String>) -> (p: Project)
        ensures
            p.path == path,
            p.status == Status::Waiting,
    {
        Project { path, status: Status::Waiting }
    }

    /// Replace the candidate's status; the path never changes.
    pub fn update_status(&mut self, status: Status)
        ensures
            final(self).path == old(self).path,
            final(self).status == status,
    {
        self.status = status;
    }

    /// The candidate's path, as an owned copy.
    pub fn path(&self) -> (r: Vec<String>)
        ensures
            r@ == self.path@,
    {
        clone_path(&self.path)
    }
}

/// An owned copy of a segment path, equal to the given path segment by
/// segment.
pub fn clone_path(p: &Vec<String>) -> (r: Vec<String>)
    ensures
        r@ == p@,
{
    let r = p.clone();
    proof {
        assert forall|i: int| 0 <= i < p@.len() implies r@[i] == p@[i] by {
            assert(cloned::<String>(p@[i], r@[i]));
        }
        assert(r@ =~= p@);
    }
    r
}

/// Whether two segment paths name the same directory, segment by segment.
pub fn paths_equal(a: &Vec<String>, b: &Vec<String>) -> (r: bool)
    ensures
        r == (a.deep_view() == b.deep_view()),
{
    if a.len() != b.len() {
        proof {
            assert(a.deep_view().len() == a@.len());
            assert(b.deep_view().len() == b@.len());
        }
        return false;
    }
    let mut i: usize = 0;
    while i < a.len()
        invariant
            i <= a.len(),
            a@.len() == b@.len(),
            forall|j: int| 0 <= j < i ==> a@[j]@ == b@[j]@,
        decreases a.len() - i,
    {
        if !a[i].eq(&b[i]) {
            proof {
                assert(a.deep_view()[i as int] == a@[i as int]@);
                assert(b.deep_view()[i as int] == b@[i as int]@);
            }
            return false;
        }
        i += 1;
    }
    proof {
        assert forall|j: int| 0 <= j < a@.len() implies a.deep_view()[j] == b.deep_view()[j] by {
            assert(a.deep_view()[j] == a@[j]@);
            assert(b.deep_view()[j] == b@[j]@);
        }
        assert(a.deep_view() =~= b.deep_view());
    }
    true
}

} // verus!
