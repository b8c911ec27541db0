//! The status reporter's bookkeeping: one record per candidate, looked up
//! by path identity, updated on each received status event. The reporter
//! decides what each event means for the display — an in-progress update,
//! a finalized success line, a finalized failure line, or nothing at all
//! for an unknown path — and the caller renders that decision.
use vstd::prelude::*;
use vstd::pervasive::VecAdditionalExecFns;
use crate::{paths_equal, Project, Status, StatusUpdate};

verus! {

/// What the display must do after one status event: update candidate
/// `index`'s line as still in progress, finalize it as a success or a
/// failure, or — for an event whose path matches no candidate — nothing.
#[derive(Clone, Copy, PartialEq, Eq, Structural, Debug)]
pub enum RenderAction {
    Ignored,
    Progress { index: usize },
    FinishSuccess { index: usize },
    FinishFailure { index: usize },
}

/// The index of the first candidate whose path equals `path`, or -1 when
/// no candidate matches.
pub open spec fn index_of_path(ps: Seq<Project>, path: Seq<Seq<char>>) -> int
    decreases ps.len(),
{
    if ps.len() == 0 {
        -1
    } else if ps[0].path.deep_view() == path {
        0
    } else {
        let r = index_of_path(ps.drop_first(), path);
        if r < 0 {
            -1
        } else {
            r + 1
        }
    }
}

/// The display action one event calls for, given the index of the
/// candidate it belongs to: waiting and deleting lines stay in progress,
/// a terminal status finalizes the line.
pub open spec fn action_for(status: Status, index: usize) -> RenderAction {
    match status {
        Status::Waiting => RenderAction::Progress { index },
        Status::Deleting => RenderAction::Progress { index },
        Status::Done => RenderAction::FinishSuccess { index },
        Status::Failed => RenderAction::FinishFailure { index },
    }
}

/// The status reporter's state: the full candidate list, exclusively
/// owned, with each candidate's last known status.
pub struct Reporter {
    pub projects: Vec<Project>,
}

impl Reporter {
    /// A reporter over the initial candidate list, statuses as given.
    pub fn new(projects: Vec<Project>) -> (rep: Reporter)
        ensures
            rep.projects@ == projects@,
    {
        Reporter { projects }
    }

    /// Receive one status event. An event whose path matches no candidate
    /// is ignored and changes nothing. Otherwise the first matching
    /// candidate takes the event's status, every other candidate is
    /// untouched, and the result says how to redraw that one line.
    pub fn handle_event(&mut self, ev: &StatusUpdate) -> (a: RenderAction)
        ensures
            ({
                let idx = index_of_path(old(self).projects@, ev.path.deep_view());
                if idx < 0 {
                    final(self).projects@ == old(self).projects@ && a == RenderAction::Ignored
                } else {
                    &&& final(self).projects@ == old(self).projects@.update(
                        idx,
                        (Project { path: old(self).projects@[idx].path, status: ev.status }),
                    )
                    &&& a == action_for(ev.status, idx as usize)
                }
            }),
    {
        let mut i: usize = 0;
        while i < self.projects.len()
            invariant
                self.projects@ == old(self).projects@,
                i <= self.projects@.len(),
                forall|j: int|
                    0 <= j < i ==> (#[trigger] self.projects@[j]).path.deep_view()
                        != ev.path.deep_view(),
            decreases self.projects@.len() - i,
        {
            if paths_equal(&self.projects[i].path, &ev.path) {
                proof {
                    lemma_index_of_path_first(self.projects@, ev.path.deep_view(), i as int);
                }
                let mut taken = Project { path: Vec::new(), status: Status::Waiting };
                self.projects.set_and_swap(i, &mut taken);
                taken.update_status(ev.status);
                self.projects.set_and_swap(i, &mut taken);
                proof {
                    assert(self.projects@ =~= old(self).projects@.update(
                        i as int,
                        (Project {
                            path: old(self).projects@[i as int].path,
                            status: ev.status,
                        }),
                    ));
                }
                let action = match ev.status {
                    Status::Waiting => RenderAction::Progress { index: i },
                    Status::Deleting => RenderAction::Progress { index: i },
                    Status::Done => RenderAction::FinishSuccess { index: i },
                    Status::Failed => RenderAction::FinishFailure { index: i },
                };
                return action;
            }
            i = i + 1;
        }
        proof {
            lemma_index_of_path_none(self.projects@, ev.path.deep_view());
        }
        RenderAction::Ignored
    }
}

/// When no candidate's path matches, the lookup reports no index.
proof fn lemma_index_of_path_none(ps: Seq<Project>, path: Seq<Seq<char>>)
    requires
        forall|j: int| 0 <= j < ps.len() ==> (#[trigger] ps[j]).path.deep_view() != path,
    ensures
        index_of_path(ps, path) == -1,
    decreases ps.len(),
{
    if ps.len() > 0 {
        lemma_index_of_path_none(ps.drop_first(), path);
    }
}

/// When position `i` matches and no earlier position does, the lookup
/// reports exactly `i`.
proof fn lemma_index_of_path_first(ps: Seq<Project>, path: Seq<Seq<char>>, i: int)
    requires
        0 <= i < ps.len(),
        ps[i].path.deep_view() == path,
        forall|j: int| 0 <= j < i ==> (#[trigger] ps[j]).path.deep_view() != path,
    ensures
        index_of_path(ps, path) == i,
    decreases ps.len(),
{
    if i > 0 {
        lemma_index_of_path_first(ps.drop_first(), path, i - 1);
    }
}

} // verus!
