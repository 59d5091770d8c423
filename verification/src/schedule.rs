//! The dependency-respecting scheduler behind the worker pool.
//!
//! Workers repeatedly claim the first runnable run, execute its script, and
//! report completion.  A Solver run that depends on a Learner run becomes
//! runnable only once that run is processed, so every dependency is on disk
//! before its consumer starts.  Each non-skipped run is handed out at most
//! once.

use crate::plan::{Run, RunKind};
use vstd::prelude::*;

verus! {

/// Where the planned runs execute.
#[derive(Clone, Copy, PartialEq, Eq, Structural, Debug, Default)]
pub enum ExecutionKind {
    #[default]
    Local,
    Slurm,
}

/// The lifecycle of one run under the worker pool.
#[derive(Clone, Copy, PartialEq, Eq, Structural, Debug)]
pub enum RunState {
    Unprocessed,
    Processing,
    Processed,
}

/// The shared state of the worker pool: one state per run, the dependency
/// edges, and (as ghost history) which runs were handed out and which were
/// marked done up front.
pub struct Scheduler {
    states: Vec<RunState>,
    deps: Vec<Option<usize>>,
    claimed: Ghost<Seq<int>>,
    preset: Ghost<Set<int>>,
}

impl Scheduler {
    /// The per-run states.
    pub closed spec fn state_seq(self) -> Seq<RunState> {
        self.states@
    }

    /// The per-run dependency edges.
    pub closed spec fn dep_seq(self) -> Seq<Option<usize>> {
        self.deps@
    }

    /// The runs handed out so far, in claim order.
    pub closed spec fn claims(self) -> Seq<int> {
        self.claimed@
    }

    /// The runs that started out processed because they were skipped.
    pub closed spec fn skipped(self) -> Set<int> {
        self.preset@
    }

    /// How many runs the scheduler tracks.
    pub open spec fn len(self) -> int {
        self.state_seq().len() as int
    }

    /// A run a worker may take now: unprocessed, with its dependency (if
    /// any) already processed.
    pub open spec fn runnable(self, q: int) -> bool {
        &&& 0 <= q < self.len()
        &&& self.state_seq()[q] is Unprocessed
        &&& (self.dep_seq()[q] matches Some(d) ==> d < self.len() && self.state_seq()[d as int]
            is Processed)
    }

    /// The scheduler's invariant: claims are distinct, point at tracked
    /// runs, and never at skipped ones; an unprocessed run was neither
    /// skipped nor claimed.
    pub open spec fn wf(self) -> bool {
        &&& self.dep_seq().len() == self.state_seq().len()
        &&& self.claims().no_duplicates()
        &&& forall|k: int|
            0 <= k < self.claims().len() ==> 0 <= #[trigger] self.claims()[k] < self.len()
                && !self.skipped().contains(self.claims()[k])
        &&& forall|q: int|
            0 <= q < self.len() && self.state_seq()[q] is Unprocessed ==> !self.skipped().contains(
                q,
            ) && !self.claims().contains(q)
        &&& forall|q: int|
            0 <= q < self.len() && !(self.state_seq()[q] is Unprocessed) ==> self.claims().contains(
                q,
            ) || self.skipped().contains(q)
    }

    /// Sets up the pool state for the planned runs: a skipped run starts
    /// processed, every other run unprocessed.
    pub fn new(runs: &Vec<Run>) -> (s: Scheduler)
        ensures
            s.wf(),
            s.len() == runs@.len(),
            forall|q: int|
                0 <= q < runs@.len() ==> s.state_seq()[q] == (if runs@[q].skip {
                    RunState::Processed
                } else {
                    RunState::Unprocessed
                }),
            forall|q: int|
                0 <= q < runs@.len() ==> s.dep_seq()[q] == (match runs@[q].kind {
                    RunKind::Solver { depends, .. } => depends,
                    RunKind::Learner => None,
                }),
            s.claims() == Seq::<int>::empty(),
            forall|q: int| s.skipped().contains(q) <==> 0 <= q < runs@.len() && runs@[q].skip,
    {
        let ghost preset_set = Set::new(|q: int| 0 <= q < runs@.len() && runs@[q].skip);
        let mut states: Vec<RunState> = Vec::new();
        let mut deps: Vec<Option<usize>> = Vec::new();
        let mut q: usize = 0;
        while q < runs.len()
            invariant
                0 <= q <= runs@.len(),
                states@.len() == q,
                deps@.len() == q,
                forall|k: int|
                    0 <= k < q ==> states@[k] == (if runs@[k].skip {
                        RunState::Processed
                    } else {
                        RunState::Unprocessed
                    }),
                forall|k: int|
                    0 <= k < q ==> deps@[k] == (match runs@[k].kind {
                        RunKind::Solver { depends, .. } => depends,
                        RunKind::Learner => None,
                    }),
            decreases runs@.len() - q,
        {
            if runs[q].skip {
                states.push(RunState::Processed);
            } else {
                states.push(RunState::Unprocessed);
            }
            match runs[q].kind {
                RunKind::Solver { depends, .. } => deps.push(depends),
                RunKind::Learner => deps.push(None),
            }
            q += 1;
        }
        Scheduler { states, deps, claimed: Ghost(Seq::empty()), preset: Ghost(preset_set) }
    }

    /// Hands out the first runnable run and marks it processing, or reports
    /// that nothing is runnable right now.  A handed-out run was not
    /// skipped, had not been handed out before, and its dependency (if any)
    /// is already processed.
    pub fn claim_next(&mut self) -> (r: Option<usize>)
        requires
            old(self).wf(),
        ensures
            final(self).wf(),
            final(self).len() == old(self).len(),
            final(self).dep_seq() == old(self).dep_seq(),
            final(self).skipped() == old(self).skipped(),
            r matches Some(i) ==> {
                &&& old(self).runnable(i as int)
                &&& forall|q: int| 0 <= q < i ==> !old(self).runnable(q)
                &&& final(self).state_seq() == old(self).state_seq().update(
                    i as int,
                    RunState::Processing,
                )
                &&& final(self).claims() == old(self).claims().push(i as int)
                &&& !old(self).skipped().contains(i as int)
                &&& !old(self).claims().contains(i as int)
            },
            r is None ==> final(self).state_seq() == old(self).state_seq() && final(self).claims()
                == old(self).claims() && (forall|q: int| !old(self).runnable(q)),
    {
        let n = self.states.len();
        let mut q: usize = 0;
        while q < n
            invariant
                0 <= q <= n,
                self == old(self),
                n == self.states@.len(),
                self.wf(),
                forall|k: int| 0 <= k < q ==> !self.runnable(k),
            decreases n - q,
        {
            let ready = match self.states[q] {
                RunState::Unprocessed => {
                    match self.deps[q] {
                        Some(d) => d < n && matches!(self.states[d], RunState::Processed),
                        None => true,
                    }
                },
                _ => false,
            };
            if ready {
                assert(self.runnable(q as int));
                self.states[q] = RunState::Processing;
                proof {
                    let c0 = self.claimed@;
                    self.claimed@ = c0.push(q as int);
                    assert(!c0.contains(q as int));
                    assert forall|a: int, b: int|
                        0 <= a < b < self.claimed@.len() implies self.claimed@[a]
                        != self.claimed@[b] by {
                        if b < c0.len() {
                        } else {
                            assert(self.claimed@[b] == q as int);
                            assert(c0[a] == self.claimed@[a]);
                            assert(c0.contains(c0[a]));
                        }
                    }
                    assert forall|p: int|
                        0 <= p < self.len() && !(self.state_seq()[p] is Unprocessed) implies self.claims().contains(p) || self.skipped().contains(p) by {
                        if p == q {
                            assert(self.claimed@[c0.len() as int] == q as int);
                        } else {
                            assert(!(old(self).state_seq()[p] is Unprocessed));
                            if c0.contains(p) {
                                let k = choose|k: int| 0 <= k < c0.len() && c0[k] == p;
                                assert(self.claimed@[k] == p);
                            }
                        }
                    }
                }
                return Some(q);
            }
            q += 1;
        }
        None
    }

    /// Marks a handed-out run as processed, making its dependents runnable.
    pub fn complete(&mut self, i: usize)
        requires
            old(self).wf(),
            i < old(self).len(),
            old(self).state_seq()[i as int] is Processing,
        ensures
            final(self).wf(),
            final(self).len() == old(self).len(),
            final(self).dep_seq() == old(self).dep_seq(),
            final(self).skipped() == old(self).skipped(),
            final(self).claims() == old(self).claims(),
            final(self).state_seq() == old(self).state_seq().update(
                i as int,
                RunState::Processed,
            ),
    {
        self.states[i] = RunState::Processed;
        proof {
            assert forall|q: int|
                0 <= q < self.len() && self.state_seq()[q] is Unprocessed implies !self.skipped().contains(q) && !self.claims().contains(q) by {
                assert(q != i);
                assert(old(self).state_seq()[q] is Unprocessed);
                assert(!old(self).skipped().contains(q));
                assert(!old(self).claims().contains(q));
                assert(self.skipped() == old(self).skipped());
                assert(self.claims() == old(self).claims());
            }
        }
    }

    /// Whether any run still waits to be handed out.
    pub fn has_unprocessed(&self) -> (r: bool)
        ensures
            r == exists|q: int|
                0 <= q < self.len() && self.state_seq()[q] is Unprocessed,
    {
        let n = self.states.len();
        let mut q: usize = 0;
        while q < n
            invariant
                0 <= q <= n,
                n == self.states@.len(),
                forall|k: int| 0 <= k < q ==> !(self.states@[k] is Unprocessed),
            decreases n - q,
        {
            if matches!(self.states[q], RunState::Unprocessed) {
                return true;
            }
            q += 1;
        }
        false
    }
}

/// At-most-once execution: the runs the scheduler has handed out are
/// pairwise distinct, and none of them was a skipped run.
pub proof fn lemma_claims_at_most_once(s: Scheduler)
    requires
        s.wf(),
    ensures
        s.claims().no_duplicates(),
        forall|k: int|
            0 <= k < s.claims().len() ==> !s.skipped().contains(#[trigger] s.claims()[k]),
{
}

/// Progress: when dependencies point backwards (as the planner emits them),
/// no run is mid-execution, and some run still waits, then some waiting run
/// is runnable — the pool can never stall for good.
pub proof fn lemma_no_deadlock(s: Scheduler, q: int)
    requires
        s.wf(),
        forall|p: int|
            0 <= p < s.len() ==> (#[trigger] s.dep_seq()[p] matches Some(d) ==> d < p),
        forall|p: int| 0 <= p < s.len() ==> !(s.state_seq()[p] is Processing),
        0 <= q < s.len(),
        s.state_seq()[q] is Unprocessed,
    ensures
        exists|p: int| s.runnable(p),
    decreases q,
{
    match s.dep_seq()[q] {
        Some(d) => {
            if s.state_seq()[d as int] is Processed {
                assert(s.runnable(q));
            } else {
                assert(s.state_seq()[d as int] is Unprocessed);
                lemma_no_deadlock(s, d as int);
            }
        },
        None => {
            assert(s.runnable(q));
        },
    }
}

/// Once nothing waits to be handed out, every run was either handed out
/// (exactly once, by the lemma above) or skipped up front.
pub proof fn lemma_drained_means_all_claimed(s: Scheduler)
    requires
        s.wf(),
        forall|q: int| 0 <= q < s.len() ==> !(s.state_seq()[q] is Unprocessed),
    ensures
        forall|q: int|
            0 <= q < s.len() ==> s.claims().contains(q) || s.skipped().contains(q),
{
}

} // verus!
