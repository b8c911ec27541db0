//! The deletion pool: the scheduling state of the concurrent removal of
//! the candidates' cache directories. The pool decides which candidate may
//! start next and what event each transition emits; the caller performs
//! the actual removals and hands their outcomes back. At most `limit`
//! deletions are ever in flight, and every candidate receives exactly one
//! `Deleting` event followed by exactly one terminal event.
use vstd::prelude::*;
use vstd::pervasive::VecAdditionalExecFns;
use crate::{is_terminal, Project, Status, StatusUpdate};

verus! {

/// The statuses of a sequence of candidates, in order.
pub open spec fn statuses(ps: Seq<Project>) -> Seq<Status> {
    ps.map_values(|p: Project| p.status)
}

/// How many of the statuses are `Deleting`: the number of removals in
/// flight.
pub open spec fn count_deleting(s: Seq<Status>) -> nat
    decreases s.len(),
{
    if s.len() == 0 {
        0
    } else {
        (if s[0] == Status::Deleting {
            1nat
        } else {
            0nat
        }) + count_deleting(s.drop_first())
    }
}

/// The statuses that the events in `trace` report for candidate `i`, in
/// the order they were emitted.
pub open spec fn events_for(trace: Seq<(int, Status)>, i: int) -> Seq<Status>
    decreases trace.len(),
{
    if trace.len() == 0 {
        Seq::empty()
    } else {
        let rest = events_for(trace.drop_last(), i);
        if trace.last().0 == i {
            rest.push(trace.last().1)
        } else {
            rest
        }
    }
}

/// The events a candidate must have received to be in status `s`: none
/// while waiting, `Deleting` once started, and `Deleting` followed by the
/// one terminal event once finished.
pub open spec fn expected_events(s: Status) -> Seq<Status> {
    match s {
        Status::Waiting => Seq::empty(),
        Status::Deleting => seq![Status::Deleting],
        Status::Done => seq![Status::Deleting, Status::Done],
        Status::Failed => seq![Status::Deleting, Status::Failed],
    }
}

/// The deletion pool: the candidates with their current statuses, the
/// concurrency limit, and the (ghost) trace of every event emitted so far.
pub struct DeletionPool {
    pub limit: usize,
    pub projects: Vec<Project>,
    pub trace: Ghost<Seq<(int, Status)>>,
}

impl DeletionPool {
    /// The pool's invariant, established by `new` and preserved by `start`
    /// and `finish`: the concurrency limit is positive, no more than
    /// `limit` removals are in flight, every emitted event names a
    /// candidate, and each candidate's events so far are exactly the ones
    /// its current status demands.
    pub open spec fn inv(self) -> bool {
        &&& self.limit >= 1
        &&& count_deleting(statuses(self.projects@)) <= self.limit
        &&& forall|j: int|
            0 <= j < self.trace@.len() ==> 0 <= (#[trigger] self.trace@[j]).0
                < self.projects@.len()
        &&& forall|i: int|
            0 <= i < self.projects@.len() ==> events_for(self.trace@, i) == expected_events(
                #[trigger] self.projects@[i].status,
            )
    }

    /// A fresh pool over candidates that are all still waiting; nothing
    /// has been emitted yet.
    pub fn new(projects: Vec<Project>, limit: usize) -> (pool: DeletionPool)
        requires
            limit >= 1,
            forall|i: int|
                0 <= i < projects@.len() ==> (#[trigger] projects@[i]).status == Status::Waiting,
        ensures
            pool.inv(),
            pool.limit == limit,
            pool.projects@ == projects@,
            pool.trace@ === Seq::<(int, Status)>::empty(),
    {
        let pool = DeletionPool { limit, projects, trace: Ghost(Seq::empty()) };
        proof {
            lemma_count_no_deleting(statuses(pool.projects@));
            assert forall|i: int| 0 <= i < pool.projects@.len() implies events_for(
                pool.trace@,
                i,
            ) == expected_events(#[trigger] pool.projects@[i].status) by {
                assert(pool.projects@[i].status == Status::Waiting);
            }
        }
        pool
    }

    /// How many removals are in flight right now.
    pub fn running(&self) -> (n: usize)
        ensures
            n == count_deleting(statuses(self.projects@)),
    {
        proof {
            lemma_count_le_len(statuses(self.projects@));
        }
        let mut n: usize = 0;
        let mut i: usize = 0;
        while i < self.projects.len()
            invariant
                i <= self.projects@.len(),
                n == count_deleting(statuses(self.projects@).take(i as int)),
                count_deleting(statuses(self.projects@)) <= self.projects@.len(),
                n <= i,
            decreases self.projects@.len() - i,
        {
            proof {
                lemma_count_take_step(statuses(self.projects@), i as int);
            }
            if self.projects[i].status == Status::Deleting {
                n = n + 1;
            }
            i = i + 1;
        }
        proof {
            assert(statuses(self.projects@).take(i as int) =~= statuses(self.projects@));
        }
        n
    }

    /// Whether one more removal may start without breaking the
    /// concurrency bound.
    pub fn can_start(&self) -> (b: bool)
        ensures
            b == (count_deleting(statuses(self.projects@)) < self.limit),
    {
        self.running() < self.limit
    }

    /// The first candidate that is still waiting, if any.
    pub fn next_waiting(&self) -> (r: Option<usize>)
        ensures
            match r {
                Some(i) => i < self.projects@.len() && self.projects@[i as int].status
                    == Status::Waiting,
                None => forall|j: int|
                    0 <= j < self.projects@.len() ==> (#[trigger] self.projects@[j]).status
                        != Status::Waiting,
            },
    {
        let mut i: usize = 0;
        while i < self.projects.len()
            invariant
                i <= self.projects@.len(),
                forall|j: int|
                    0 <= j < i ==> (#[trigger] self.projects@[j]).status != Status::Waiting,
            decreases self.projects@.len() - i,
        {
            if self.projects[i].status == Status::Waiting {
                return Some(i);
            }
            i = i + 1;
        }
        None
    }

    /// Whether every candidate has reached a terminal status: the pool's
    /// work is complete.
    pub fn all_terminal(&self) -> (b: bool)
        ensures
            b == forall|j: int|
                0 <= j < self.projects@.len() ==> is_terminal(#[trigger] self.projects@[j].status),
    {
        let mut i: usize = 0;
        while i < self.projects.len()
            invariant
                i <= self.projects@.len(),
                forall|j: int| 0 <= j < i ==> is_terminal(#[trigger] self.projects@[j].status),
            decreases self.projects@.len() - i,
        {
            let s = self.projects[i].status;
            if !(s == Status::Done || s == Status::Failed) {
                return false;
            }
            i = i + 1;
        }
        true
    }

    /// Begin deleting candidate `i`: mark it `Deleting` and hand back the
    /// event to send, recorded in the trace. Only a waiting candidate may
    /// start, and only while fewer than `limit` removals are in flight.
    pub fn start(&mut self, i: usize) -> (ev: StatusUpdate)
        requires
            old(self).inv(),
            i < old(self).projects@.len(),
            old(self).projects@[i as int].status == Status::Waiting,
            count_deleting(statuses(old(self).projects@)) < old(self).limit,
        ensures
            final(self).inv(),
            final(self).limit == old(self).limit,
            final(self).projects@ == old(self).projects@.update(
                i as int,
                (Project {
                    path: old(self).projects@[i as int].path,
                    status: Status::Deleting,
                }),
            ),
            final(self).trace@ == old(self).trace@.push((i as int, Status::Deleting)),
            count_deleting(statuses(final(self).projects@)) == count_deleting(
                statuses(old(self).projects@),
            ) + 1,
            ev.status == Status::Deleting,
            ev.path@ == old(self).projects@[i as int].path@,
    {
        self.transition(i, Status::Deleting)
    }

    /// Record the outcome of candidate `i`'s removal attempt: `Done` when
    /// its path resolved and the removal succeeded, `Failed` on either
    /// failure. Hands back the terminal event to send. Only a candidate
    /// that is currently deleting may finish.
    pub fn finish(&mut self, i: usize, resolved: bool, removed: bool) -> (ev: StatusUpdate)
        requires
            old(self).inv(),
            i < old(self).projects@.len(),
            old(self).projects@[i as int].status == Status::Deleting,
        ensures
            final(self).inv(),
            final(self).limit == old(self).limit,
            final(self).projects@ == old(self).projects@.update(
                i as int,
                (Project {
                    path: old(self).projects@[i as int].path,
                    status: if resolved && removed {
                        Status::Done
                    } else {
                        Status::Failed
                    },
                }),
            ),
            final(self).trace@ == old(self).trace@.push(
                (
                    i as int,
                    if resolved && removed {
                        Status::Done
                    } else {
                        Status::Failed
                    },
                ),
            ),
            count_deleting(statuses(final(self).projects@)) == count_deleting(
                statuses(old(self).projects@),
            ) - 1,
            is_terminal(ev.status),
            ev.status == (if resolved && removed {
                Status::Done
            } else {
                Status::Failed
            }),
            ev.path@ == old(self).projects@[i as int].path@,
    {
        let status = if resolved && removed {
            Status::Done
        } else {
            Status::Failed
        };
        self.transition(i, status)
    }

    /// Move candidate `i` to `status`, record the event in the trace, and
    /// hand it back. The one place a status ever changes.
    fn transition(&mut self, i: usize, status: Status) -> (ev: StatusUpdate)
        requires
            old(self).inv(),
            i < old(self).projects@.len(),
            status == Status::Deleting ==> old(self).projects@[i as int].status == Status::Waiting
                && count_deleting(statuses(old(self).projects@)) < old(self).limit,
            is_terminal(status) ==> old(self).projects@[i as int].status == Status::Deleting,
            status != Status::Waiting,
        ensures
            final(self).inv(),
            final(self).limit == old(self).limit,
            final(self).projects@ == old(self).projects@.update(
                i as int,
                (Project { path: old(self).projects@[i as int].path, status: status }),
            ),
            final(self).trace@ == old(self).trace@.push((i as int, status)),
            count_deleting(statuses(final(self).projects@)) == count_deleting(
                statuses(old(self).projects@),
            ) + (if status == Status::Deleting {
                1int
            } else {
                -1int
            }),
            ev.status == status,
            ev.path@ == old(self).projects@[i as int].path@,
    {
        let mut taken = Project { path: Vec::new(), status: Status::Waiting };
        self.projects.set_and_swap(i, &mut taken);
        taken.update_status(status);
        let path = taken.path();
        self.projects.set_and_swap(i, &mut taken);
        let ghost old_trace = self.trace@;
        proof {
            self.trace@ = old_trace.push((i as int, status));
        }
        proof {
            assert(self.projects@ =~= old(self).projects@.update(
                i as int,
                (Project { path: old(self).projects@[i as int].path, status: status }),
            ));
            lemma_count_update(statuses(old(self).projects@), i as int, status);
            assert(statuses(self.projects@) =~= statuses(old(self).projects@).update(
                i as int,
                status,
            ));
            assert forall|k: int| 0 <= k < self.projects@.len() implies events_for(
                self.trace@,
                k,
            ) == expected_events(#[trigger] self.projects@[k].status) by {
                lemma_events_for_push(old_trace, (i as int, status), k);
                assert(old_trace.push((i as int, status)).drop_last() =~= old_trace);
                if k == i {
                    assert(events_for(old_trace, k) == expected_events(
                        old(self).projects@[i as int].status,
                    ));
                    assert(events_for(self.trace@, k) =~= expected_events(status));
                } else {
                    assert(self.projects@[k].status == old(self).projects@[k].status);
                }
            }
        }
        StatusUpdate { path, status }
    }

    /// The concurrency bound itself: in any pool state satisfying the
    /// invariant, at most `limit` removals are in flight. `new`, `start`
    /// and `finish` all preserve the invariant, so the bound holds at
    /// every point of a run.
    pub proof fn lemma_concurrency_bound(self)
        requires
            self.inv(),
        ensures
            count_deleting(statuses(self.projects@)) <= self.limit,
    {
    }

    /// The event discipline: once candidate `i` has reached a terminal
    /// status, the trace holds exactly two events for it, one `Deleting`
    /// followed by exactly one terminal event, and nothing else; while it
    /// is waiting it has received none, and while it is deleting exactly
    /// the one `Deleting` event.
    pub proof fn lemma_event_discipline(self, i: int)
        requires
            self.inv(),
            0 <= i < self.projects@.len(),
        ensures
            is_terminal(self.projects@[i].status) ==> events_for(self.trace@, i) == seq![
                Status::Deleting,
                self.projects@[i].status,
            ],
            self.projects@[i].status == Status::Waiting ==> events_for(self.trace@, i)
                === Seq::<Status>::empty(),
            self.projects@[i].status == Status::Deleting ==> events_for(self.trace@, i) == seq![
                Status::Deleting,
            ],
    {
        assert(events_for(self.trace@, i) == expected_events(self.projects@[i].status));
    }
}

/// A sequence with no `Deleting` status has no removal in flight.
proof fn lemma_count_no_deleting(s: Seq<Status>)
    requires
        forall|j: int| 0 <= j < s.len() ==> s[j] != Status::Deleting,
    ensures
        count_deleting(s) == 0,
    decreases s.len(),
{
    if s.len() > 0 {
        lemma_count_no_deleting(s.drop_first());
    }
}

/// Never more removals in flight than candidates.
proof fn lemma_count_le_len(s: Seq<Status>)
    ensures
        count_deleting(s) <= s.len(),
    decreases s.len(),
{
    if s.len() > 0 {
        lemma_count_le_len(s.drop_first());
    }
}

/// Extending the counted prefix by one position adds that position's
/// contribution.
proof fn lemma_count_take_step(s: Seq<Status>, i: int)
    requires
        0 <= i < s.len(),
    ensures
        count_deleting(s.take(i + 1)) == count_deleting(s.take(i)) + (if s[i] == Status::Deleting {
            1int
        } else {
            0int
        }),
    decreases i,
{
    if i == 0 {
        assert(s.take(1).drop_first() =~= s.take(0));
    } else {
        lemma_count_take_step(s.drop_first(), i - 1);
        assert(s.take(i + 1).drop_first() =~= s.drop_first().take(i));
        assert(s.take(i).drop_first() =~= s.drop_first().take(i - 1));
        assert(s.drop_first()[i - 1] == s[i]);
    }
}

/// Updating one status changes the in-flight count by exactly the
/// difference between the new and the old status's contribution.
proof fn lemma_count_update(s: Seq<Status>, i: int, x: Status)
    requires
        0 <= i < s.len(),
    ensures
        count_deleting(s.update(i, x)) == count_deleting(s) + (if x == Status::Deleting {
            1int
        } else {
            0int
        }) - (if s[i] == Status::Deleting {
            1int
        } else {
            0int
        }),
    decreases s.len(),
{
    if i == 0 {
        assert(s.update(0, x).drop_first() =~= s.drop_first());
    } else {
        lemma_count_update(s.drop_first(), i - 1, x);
        assert(s.update(i, x).drop_first() =~= s.drop_first().update(i - 1, x));
    }
}

/// Appending one event extends exactly its own candidate's event
/// sequence and no other's.
proof fn lemma_events_for_push(trace: Seq<(int, Status)>, e: (int, Status), i: int)
    ensures
        events_for(trace.push(e), i) == (if e.0 == i {
            events_for(trace, i).push(e.1)
        } else {
            events_for(trace, i)
        }),
{
    assert(trace.push(e).drop_last() =~= trace);
    assert(trace.push(e).last() == e);
}

} // verus!
