//! The work queue with its termination detector.
//!
//! Jobs are not known in advance: expanding one directory creates new jobs.
//! "No more work anywhere" therefore cannot be read off the queue alone; it
//! is derived from an outstanding-job counter.  `submit` accepts a job and
//! raises the counter; `take` hands out a pending job chosen by the caller;
//! `complete` is called exactly once per job taken, whatever its outcome,
//! and lowers the counter.  When the counter reaches zero — which it does at
//! most once, since nothing may be submitted afterwards — the queue is
//! drained and every consumer henceforth observes termination.
//!
//! The contracts encode the protocol's invariants: the counter never falls
//! below the number of pending jobs, completing more jobs than were
//! submitted is ruled out, and once drained the queue stays drained.

use vstd::prelude::*;

verus! {

/// A unit of traversal work: a reference into the tree being summed.
#[derive(Clone, Copy, PartialEq, Eq, Structural, Debug)]
pub enum Job {
    /// An as-yet-unclassified reference, as supplied by the caller.
    Path(usize),
    /// A reference already confirmed to resolve to a directory whose entries
    /// must be listed.
    Dir(usize),
}

/// A multi-producer, multi-consumer work queue whose exhaustion is detected
/// by an outstanding-job counter.
pub struct JobQueue {
    jobs: Vec<Job>,
    outstanding: usize,
    drained: bool,
}

impl JobQueue {
    /// The jobs accepted but not yet handed out.
    pub closed spec fn pending(self) -> Seq<Job> {
        self.jobs@
    }

    /// Jobs accepted and not yet completed: the pending ones plus those
    /// handed out to a worker that has not called `complete` yet.
    pub closed spec fn outstanding(self) -> nat {
        self.outstanding as nat
    }

    /// Whether the termination signal has been emitted.
    pub closed spec fn drained(self) -> bool {
        self.drained
    }

    /// The protocol's invariant: every pending job is outstanding, and the
    /// termination signal is emitted only once nothing is outstanding.
    pub open spec fn wf(self) -> bool {
        &&& self.pending().len() <= self.outstanding()
        &&& (self.drained() ==> self.outstanding() == 0)
    }

    /// An empty queue, in its initial state: nothing outstanding, not yet
    /// drained.
    pub fn new() -> (q: JobQueue)
        ensures
            q.wf(),
            q.pending() == Seq::<Job>::empty(),
            q.outstanding() == 0,
            !q.drained(),
    {
        JobQueue { jobs: Vec::new(), outstanding: 0, drained: false }
    }

    /// Accept a job: raise the outstanding counter, then make the job
    /// visible to consumers.  Submitting to a drained queue is a protocol
    /// violation and is ruled out by the precondition.
    pub fn submit(&mut self, job: Job)
        requires
            old(self).wf(),
            !old(self).drained(),
            old(self).outstanding() < usize::MAX,
        ensures
            final(self).wf(),
            final(self).pending() == old(self).pending().push(job),
            final(self).outstanding() == old(self).outstanding() + 1,
            !final(self).drained(),
    {
        self.outstanding = self.outstanding + 1;
        self.jobs.push(job);
    }

    /// Hand out a pending job, the one at position `pick` modulo the number
    /// of pending jobs, so that a driver may drain the queue in any order.
    /// Returns `None` exactly when no job is pending; the outstanding
    /// counter is not touched — the job handed out stays outstanding until
    /// `complete` is called for it.
    pub fn take(&mut self, pick: usize) -> (r: Option<Job>)
        requires
            old(self).wf(),
        ensures
            final(self).wf(),
            final(self).outstanding() == old(self).outstanding(),
            final(self).drained() == old(self).drained(),
            old(self).pending().len() == 0 ==> r is None && *final(self) == *old(self),
            old(self).pending().len() > 0 ==> {
                let i = pick as int % old(self).pending().len() as int;
                r == Some(old(self).pending()[i])
                    && final(self).pending() == old(self).pending().remove(i)
            },
    {
        if self.jobs.len() == 0 {
            None
        } else {
            let i: usize = pick % self.jobs.len();
            Some(self.jobs.remove(i))
        }
    }

    /// Mark one taken job as finished, whatever its outcome.  Lowers the
    /// outstanding counter; if the counter reaches zero the queue becomes
    /// drained, exactly once, since no submission may follow.  Completing a
    /// job that is not outstanding would mean the counter falls below the
    /// pending count; the precondition rules it out, and a caller that
    /// cannot meet it must abort rather than continue.
    pub fn complete(&mut self)
        requires
            old(self).wf(),
            old(self).outstanding() >= old(self).pending().len() + 1,
        ensures
            final(self).wf(),
            final(self).pending() == old(self).pending(),
            final(self).outstanding() == old(self).outstanding() - 1,
            final(self).drained() == (old(self).outstanding() == 1),
    {
        self.outstanding = self.outstanding - 1;
        if self.outstanding == 0 {
            self.drained = true;
        }
    }
}

} // verus!
