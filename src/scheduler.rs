use vstd::prelude::*;
use vstd::seq_lib::lemma_seq_contains_after_push;

use crate::dag::{ExecutionDAGData, ExecutionStatus, ExecutionUuid, FileUuid, WorkerResult, WorkerUuid};
use crate::skip::{no_farther, reaches, skip_targets};
use crate::validate::{collect_provided_uuids, deps_available, deps_available_exec};

verus! {

/// Where an execution stands during an evaluation.
#[derive(PartialEq, Eq, Structural)]
pub enum ExecState {
    /// Some file it reads is not available yet.
    Waiting,
    /// Every file it reads is available; not dispatched yet.
    Ready,
    Running,
    Done,
    Failed,
    Skipped,
}

/// An event for the client.
pub enum Notification {
    Start { execution: ExecutionUuid, worker: WorkerUuid },
    Done { execution: ExecutionUuid, result: WorkerResult },
    Skip { execution: ExecutionUuid },
}

pub open spec fn done_mask(states: Seq<ExecState>) -> Seq<bool> {
    states.map_values(|s: ExecState| s == ExecState::Done)
}

/// `log` lists, once each, exactly the executions in state `s`.
pub open spec fn logs_state(log: Seq<int>, states: Seq<ExecState>, s: ExecState) -> bool {
    &&& log.no_duplicates()
    &&& forall|i: int| 0 <= i < log.len() ==> 0 <= #[trigger] log[i] < states.len()
    &&& forall|x: int| 0 <= x < states.len() ==> (states[x] == s <==> log.contains(x))
}

/// The scheduler's state for one evaluation.
pub struct Scheduler {
    pub dag: ExecutionDAGData,
    pub states: Vec<ExecState>,
    /// Executions to dispatch, first in first out.
    pub ready: Vec<usize>,
    pub provided: Vec<FileUuid>,
    /// The executions reported done, in order; each ends `Done` or `Failed`.
    pub done_log: Ghost<Seq<int>>,
    /// The executions reported failed, in order.
    pub failed_log: Ghost<Seq<int>>,
    /// The executions reported skipped, in order.
    pub skip_log: Ghost<Seq<int>>,
}

impl Scheduler {
    /// Each execution is reported done once when it ends, and skipped once
    /// when it is skipped; skips happen only after a failure; every ready
    /// execution is queued.
    pub open spec fn inv(self) -> bool {
        let n = self.dag.executions@.len();
        let st = self.states@;
        &&& self.provided@ == self.dag.provided_uuids()
        &&& st.len() == n
        &&& forall|i: int| 0 <= i < self.ready@.len() ==> #[trigger] self.ready@[i] < n
        &&& forall|x: int|
            0 <= x < n && st[x] == ExecState::Ready ==> exists|i: int|
                0 <= i < self.ready@.len() && self.ready@[i] as int == x
        &&& self.done_log@.no_duplicates()
        &&& forall|i: int| 0 <= i < self.done_log@.len() ==> 0 <= #[trigger] self.done_log@[i] < n
        &&& forall|x: int|
            0 <= x < n ==> ((st[x] == ExecState::Done || st[x] == ExecState::Failed)
                <==> self.done_log@.contains(x))
        &&& logs_state(self.failed_log@, st, ExecState::Failed)
        &&& logs_state(self.skip_log@, st, ExecState::Skipped)
        &&& self.skip_log@.len() > 0 ==> self.failed_log@.len() > 0
    }

    /// Starts an evaluation: the executions whose files are all provided are
    /// ready, in order; the others wait.
    pub fn new(dag: ExecutionDAGData) -> (r: Scheduler)
        ensures
            r.inv(),
            r.dag == dag,
            r.done_log@.len() == 0,
            r.skip_log@.len() == 0,
            forall|x: int|
                0 <= x < r.states@.len() ==> r.states@[x] == if deps_available(
                    dag,
                    Seq::new(dag.executions@.len(), |j: int| false),
                    x,
                ) {
                    ExecState::Ready
                } else {
                    ExecState::Waiting
                },
    {
        let provided = collect_provided_uuids(&dag);
        let n = dag.executions.len();
        let ghost none = Seq::new(n as nat, |j: int| false);
        let mut mask: Vec<bool> = Vec::new();
        let mut i: usize = 0;
        while i < n
            invariant
                i <= n,
                mask@ =~= Seq::new(i as nat, |j: int| false),
            decreases n - i,
        {
            mask.push(false);
            i += 1;
        }
        let mut states: Vec<ExecState> = Vec::new();
        let mut ready: Vec<usize> = Vec::new();
        let mut x: usize = 0;
        while x < n
            invariant
                n == dag.executions.len(),
                provided@ == dag.provided_uuids(),
                mask@ == none,
                none.len() == n,
                mask.len() == n,
                x <= n,
                states.len() == x,
                forall|j: int|
                    0 <= j < x ==> states@[j] == if deps_available(dag, none, j) {
                        ExecState::Ready
                    } else {
                        ExecState::Waiting
                    },
                forall|i2: int| 0 <= i2 < ready@.len() ==> #[trigger] ready@[i2] < x,
                forall|j: int|
                    0 <= j < x && states@[j] == ExecState::Ready ==> exists|i: int|
                        0 <= i < ready@.len() && ready@[i] as int == j,
            decreases n - x,
        {
            if deps_available_exec(&dag, &provided, &mask, x) {
                let ghost q = ready@;
                states.push(ExecState::Ready);
                ready.push(x);
                proof {
                    assert forall|j: int|
                        0 <= j <= x && states@[j] == ExecState::Ready implies exists|i: int|
                        0 <= i < ready@.len() && ready@[i] as int == j by {
                        if j < x {
                            let i = choose|i: int| 0 <= i < q.len() && q[i] as int == j;
                            assert(ready@[i] as int == j);
                        } else {
                            assert(ready@[ready@.len() - 1] as int == j);
                        }
                    }
                }
            } else {
                states.push(ExecState::Waiting);
            }
            x += 1;
        }
        let r = Scheduler {
            dag,
            states,
            ready,
            provided,
            done_log: Ghost(Seq::empty()),
            failed_log: Ghost(Seq::empty()),
            skip_log: Ghost(Seq::empty()),
        };
        proof {
            assert forall|j: int|
                0 <= j < r.states@.len() && r.states@[j] == ExecState::Ready implies exists|i: int|
                0 <= i < r.ready@.len() && r.ready@[i] as int == j by {
                let i = choose|i: int| 0 <= i < ready@.len() && ready@[i] as int == j;
                assert(0 <= i < r.ready@.len() && r.ready@[i] as int == j);
            }
        }
        r
    }

    /// Hands the next ready execution, first in first out, to `worker`, and
    /// returns the notice that it started; `None` when no execution is ready.
    pub fn dispatch(&mut self, worker: WorkerUuid) -> (r: Option<Notification>)
        requires
            old(self).inv(),
        ensures
            final(self).inv(),
            final(self).dag == old(self).dag,
            final(self).done_log == old(self).done_log,
            final(self).failed_log == old(self).failed_log,
            final(self).skip_log == old(self).skip_log,
            match r {
                Some(note) => exists|k: int|
                    first_ready_at(old(self).ready@, old(self).states@, k) && {
                        let x = old(self).ready@[k] as int;
                        &&& final(self).states@ == old(self).states@.update(x, ExecState::Running)
                        &&& final(self).ready@ == old(self).ready@.subrange(
                            k + 1,
                            old(self).ready@.len() as int,
                        )
                        &&& note == (Notification::Start {
                            execution: old(self).dag.executions@[x].uuid,
                            worker,
                        })
                    },
                None => final(self).states@ == old(self).states@ && final(self).ready@.len() == 0
                    && forall|x: int|
                    0 <= x < old(self).states@.len() ==> old(self).states@[x] != ExecState::Ready,
            },
    {
        let ghost mut popped: int = 0;
        while self.ready.len() > 0
            invariant
                self.inv(),
                0 <= popped <= old(self).ready@.len(),
                self.ready@ == old(self).ready@.subrange(popped, old(self).ready@.len() as int),
                forall|k2: int|
                    0 <= k2 < popped ==> old(self).states@[old(self).ready@[k2] as int]
                        != ExecState::Ready,
                self.dag == old(self).dag,
                self.states == old(self).states,
                self.done_log == old(self).done_log,
                self.failed_log == old(self).failed_log,
                self.skip_log == old(self).skip_log,
            decreases self.ready.len(),
        {
            let ghost q = self.ready@;
            let ghost n = self.states@.len();
            let x = self.ready.remove(0);
            let ghost st = self.states@;
            let is_ready = self.states[x] == ExecState::Ready;
            if is_ready {
                self.states.set(x, ExecState::Running);
            }
            proof {
                assert forall|y: int|
                    0 <= y < n && self.states@[y] == ExecState::Ready implies exists|i: int|
                    0 <= i < self.ready@.len() && self.ready@[i] as int == y by {
                    assert(y != x);
                    let i = choose|i: int| 0 <= i < q.len() && q[i] as int == y;
                    assert(i != 0);
                    assert(self.ready@[i - 1] as int == y);
                }
                assert forall|i: int| 0 <= i < self.ready@.len() implies #[trigger] self.ready@[i] < n by {
                    assert(self.ready@[i] == q[i + 1]);
                }
                lemma_log_same(self.failed_log@, st, self.states@, ExecState::Failed);
                lemma_log_same(self.skip_log@, st, self.states@, ExecState::Skipped);
            }
            proof {
                assert(old(self).ready@[popped] == x);
                assert(self.ready@ =~= old(self).ready@.subrange(popped + 1, old(self).ready@.len() as int));
            }
            if is_ready {
                proof {
                    assert(first_ready_at(old(self).ready@, old(self).states@, popped));
                }
                return Some(Notification::Start { execution: self.dag.executions[x].uuid, worker });
            }
            proof {
                popped = popped + 1;
            }
        }
        None
    }

    /// Records the end of running execution `x` with `result` and returns the
    /// notices for the client: `x` is reported done; on success the waiting
    /// executions whose files are now all available become ready; on failure
    /// every execution downstream of `x` that has not started is skipped and
    /// reported skipped, once, in breadth-first order from `x`.
    pub fn complete(&mut self, x: usize, result: WorkerResult) -> (r: Vec<Notification>)
        requires
            old(self).inv(),
            x < old(self).states.len(),
            old(self).states@[x as int] == ExecState::Running,
        ensures
            final(self).inv(),
            final(self).dag == old(self).dag,
            final(self).done_log@ == old(self).done_log@.push(x as int),
            r@.len() >= 1,
            r@[0] == (Notification::Done {
                execution: old(self).dag.executions@[x as int].uuid,
                result,
            }),
            result.status is Success ==> {
                &&& final(self).states@[x as int] == ExecState::Done
                &&& final(self).failed_log == old(self).failed_log
                &&& final(self).skip_log == old(self).skip_log
                &&& r@.len() == 1
                &&& forall|z: int|
                    0 <= z < old(self).states@.len() && z != x ==> final(self).states@[z]
                        == ready_after(old(self).dag, old(self).states@, x as int, z)
            },
            !(result.status is Success) ==> {
                &&& final(self).states@[x as int] == ExecState::Failed
                &&& final(self).failed_log@ == old(self).failed_log@.push(x as int)
                &&& forall|z: int|
                    0 <= z < old(self).states@.len() && z != x ==> final(self).states@[z]
                        == skipped_after(old(self).dag, old(self).states@, x as int, z)
                &&& final(self).skip_log@.len() >= old(self).skip_log@.len()
                &&& final(self).skip_log@.subrange(0, old(self).skip_log@.len() as int)
                    == old(self).skip_log@
                &&& forall|i: int, j: int|
                    old(self).skip_log@.len() <= i < j < final(self).skip_log@.len() ==> no_farther(
                        old(self).dag,
                        x as int,
                        final(self).skip_log@[i],
                        final(self).skip_log@[j],
                    )
                &&& r@.len() == 1 + final(self).skip_log@.len() - old(self).skip_log@.len()
                &&& forall|j: int|
                    1 <= j < r@.len() ==> #[trigger] r@[j] == (Notification::Skip {
                        execution: old(self).dag.executions@[final(self).skip_log@[old(
                            self,
                        ).skip_log@.len() + j - 1]].uuid,
                    })
            },
    {
        let success = match result.status {
            ExecutionStatus::Success => true,
            _ => false,
        };
        let mut notes: Vec<Notification> = Vec::new();
        notes.push(Notification::Done { execution: self.dag.executions[x].uuid, result });
        if success {
            self.succeed(x);
        } else {
            self.fail(x, &mut notes);
        }
        notes
    }

    fn succeed(&mut self, x: usize)
        requires
            old(self).inv(),
            x < old(self).states.len(),
            old(self).states@[x as int] == ExecState::Running,
        ensures
            final(self).inv(),
            final(self).dag == old(self).dag,
            final(self).done_log@ == old(self).done_log@.push(x as int),
            final(self).failed_log == old(self).failed_log,
            final(self).skip_log == old(self).skip_log,
            final(self).states@[x as int] == ExecState::Done,
            forall|z: int|
                0 <= z < old(self).states@.len() && z != x ==> final(self).states@[z]
                    == ready_after(old(self).dag, old(self).states@, x as int, z),
    {
        let n = self.states.len();
        let ghost s0 = *self;
        self.states.set(x, ExecState::Done);
        self.done_log = Ghost(self.done_log@.push(x as int));
        let ghost mid = self.states@;
        proof {
            lemma_done_push(s0.done_log@, s0.states@, mid, x as int);
            lemma_log_same(self.failed_log@, s0.states@, mid, ExecState::Failed);
            lemma_log_same(self.skip_log@, s0.states@, mid, ExecState::Skipped);
            assert forall|y: int|
                0 <= y < n && self.states@[y] == ExecState::Ready implies exists|i: int|
                0 <= i < self.ready@.len() && self.ready@[i] as int == y by {
                assert(s0.states@[y] == ExecState::Ready);
            }
        }
        let mask = done_mask_exec(&self.states);
        let mut z: usize = 0;
        while z < n
            invariant
                self.inv(),
                n == self.states.len(),
                x < n,
                z <= n,
                mid.len() == n,
                mid == s0.states@.update(x as int, ExecState::Done),
                self.dag == s0.dag,
                self.done_log@ == s0.done_log@.push(x as int),
                self.failed_log == s0.failed_log,
                self.skip_log == s0.skip_log,
                mask@ == done_mask(mid),
                forall|z2: int| z <= z2 < n ==> self.states@[z2] == mid[z2],
                forall|z2: int|
                    0 <= z2 < z ==> self.states@[z2] == if mid[z2] == ExecState::Waiting
                        && deps_available(s0.dag, done_mask(mid), z2) {
                        ExecState::Ready
                    } else {
                        mid[z2]
                    },
            decreases n - z,
        {
            if self.states[z] == ExecState::Waiting && deps_available_exec(
                &self.dag,
                &self.provided,
                &mask,
                z,
            ) {
                let ghost st = self.states@;
                let ghost q = self.ready@;
                self.states.set(z, ExecState::Ready);
                self.ready.push(z);
                proof {
                    lemma_log_same(self.failed_log@, st, self.states@, ExecState::Failed);
                    lemma_log_same(self.skip_log@, st, self.states@, ExecState::Skipped);
                    assert forall|y: int|
                        0 <= y < n && self.states@[y] == ExecState::Ready implies exists|i: int|
                        0 <= i < self.ready@.len() && self.ready@[i] as int == y by {
                        if y == z as int {
                            assert(self.ready@[q.len() as int] == z);
                        } else {
                            let i = choose|i: int| 0 <= i < q.len() && q[i] as int == y;
                            assert(self.ready@[i] as int == y);
                        }
                    }
                    assert forall|i: int| 0 <= i < self.ready@.len() implies #[trigger] self.ready@[i] < n by {
                        if i < q.len() {
                            assert(self.ready@[i] == q[i]);
                        }
                    }
                }
            }
            z += 1;
        }
        proof {
            assert(self.states@[x as int] == mid[x as int]);
            assert forall|z2: int| 0 <= z2 < n && z2 != x implies self.states@[z2] == ready_after(
                s0.dag,
                s0.states@,
                x as int,
                z2,
            ) by {
                assert(mid[z2] == s0.states@[z2]);
            }
        }
    }

    fn fail(&mut self, x: usize, notes: &mut Vec<Notification>)
        requires
            old(self).inv(),
            x < old(self).states.len(),
            old(self).states@[x as int] == ExecState::Running,
        ensures
            final(self).inv(),
            final(self).dag == old(self).dag,
            final(self).done_log@ == old(self).done_log@.push(x as int),
            final(self).failed_log@ == old(self).failed_log@.push(x as int),
            final(self).states@[x as int] == ExecState::Failed,
            forall|z: int|
                0 <= z < old(self).states@.len() && z != x ==> final(self).states@[z]
                    == skipped_after(old(self).dag, old(self).states@, x as int, z),
            final(self).skip_log@.len() >= old(self).skip_log@.len(),
            final(self).skip_log@.subrange(0, old(self).skip_log@.len() as int)
                == old(self).skip_log@,
            forall|i: int, j: int|
                old(self).skip_log@.len() <= i < j < final(self).skip_log@.len() ==> no_farther(
                    old(self).dag,
                    x as int,
                    final(self).skip_log@[i],
                    final(self).skip_log@[j],
                ),
            final(notes)@.len() == old(notes)@.len() + final(self).skip_log@.len()
                - old(self).skip_log@.len(),
            forall|i: int| 0 <= i < old(notes)@.len() ==> final(notes)@[i] == old(notes)@[i],
            forall|j: int|
                old(notes)@.len() <= j < final(notes)@.len() ==> #[trigger] final(notes)@[j] == (
                Notification::Skip {
                    execution: old(self).dag.executions@[final(self).skip_log@[old(
                        self,
                    ).skip_log@.len() + j - old(notes)@.len()]].uuid,
                }),
    {
        let n = self.states.len();
        let ghost s0 = *self;
        let ghost notes0 = notes@;
        self.states.set(x, ExecState::Failed);
        self.done_log = Ghost(self.done_log@.push(x as int));
        self.failed_log = Ghost(self.failed_log@.push(x as int));
        let ghost base = self.states@;
        proof {
            lemma_done_push(s0.done_log@, s0.states@, base, x as int);
            lemma_log_push(s0.failed_log@, s0.states@, base, ExecState::Failed, x as int);
            lemma_log_same(self.skip_log@, s0.states@, base, ExecState::Skipped);
            assert forall|y: int|
                0 <= y < n && self.states@[y] == ExecState::Ready implies exists|i: int|
                0 <= i < self.ready@.len() && self.ready@[i] as int == y by {
                assert(s0.states@[y] == ExecState::Ready);
                let i = choose|i: int| 0 <= i < s0.ready@.len() && s0.ready@[i] as int == y;
                assert(self.ready@[i] as int == y);
            }
            assert(self.skip_log@.subrange(0, s0.skip_log@.len() as int) =~= s0.skip_log@);
        }
        let order = skip_targets(&self.dag, x);
        let ghost from = x as int;
        let mut q: usize = 0;
        while q < order.len()
            invariant
                self.inv(),
                n == self.states.len(),
                n == s0.dag.executions@.len(),
                x < n,
                from == x as int,
                q <= order.len(),
                order@.no_duplicates(),
                forall|w: usize| order@.contains(w) <==> (w < n && reaches(s0.dag, from, w as int)),
                forall|i: int, j: int|
                    0 <= i < j < order@.len() ==> no_farther(s0.dag, from, order@[i] as int, order@[j] as int),
                base.len() == n,
                base == s0.states@.update(x as int, ExecState::Failed),
                self.dag == s0.dag,
                self.done_log@ == s0.done_log@.push(x as int),
                self.failed_log@ == s0.failed_log@.push(x as int),
                self.skip_log@.len() >= s0.skip_log@.len(),
                self.skip_log@.subrange(0, s0.skip_log@.len() as int) == s0.skip_log@,
                forall|z2: int|
                    0 <= z2 < n ==> self.states@[z2] == if z2 != x && in_prefix(order@, q as int, z2)
                        && (base[z2] == ExecState::Waiting || base[z2] == ExecState::Ready) {
                        ExecState::Skipped
                    } else {
                        base[z2]
                    },
                forall|i: int|
                    s0.skip_log@.len() <= i < self.skip_log@.len() ==> exists|p: int|
                        0 <= p < q && order@[p] as int == #[trigger] self.skip_log@[i],
                forall|i: int, j: int|
                    s0.skip_log@.len() <= i < j < self.skip_log@.len() ==> no_farther(
                        s0.dag,
                        from,
                        self.skip_log@[i],
                        self.skip_log@[j],
                    ),
                notes@.len() == notes0.len() + self.skip_log@.len() - s0.skip_log@.len(),
                forall|i: int| 0 <= i < notes0.len() ==> notes@[i] == notes0[i],
                forall|j: int|
                    notes0.len() <= j < notes@.len() ==> #[trigger] notes@[j] == (Notification::Skip {
                        execution: s0.dag.executions@[self.skip_log@[s0.skip_log@.len() + j
                            - notes0.len()]].uuid,
                    }),
            decreases order.len() - q,
        {
            let z = order[q];
            proof {
                assert(order@.contains(z));
                assert(!in_prefix(order@, q as int, z as int));
            }
            if z != x && (self.states[z] == ExecState::Waiting || self.states[z]
                == ExecState::Ready) {
                let ghost st = self.states@;
                let ghost log = self.skip_log@;
                let ghost nt = notes@;
                let ghost pre = *self;
                self.states.set(z, ExecState::Skipped);
                self.skip_log = Ghost(self.skip_log@.push(z as int));
                notes.push(Notification::Skip { execution: self.dag.executions[z].uuid });
                proof {
                    lemma_log_push(log, st, self.states@, ExecState::Skipped, z as int);
                    lemma_log_same(self.failed_log@, st, self.states@, ExecState::Failed);
                    assert forall|y: int|
                        0 <= y < n && self.states@[y] == ExecState::Ready implies exists|i: int|
                        0 <= i < self.ready@.len() && self.ready@[i] as int == y by {
                        assert(y != z as int);
                        assert(pre.states@[y] == ExecState::Ready);
                        let i = choose|i: int| 0 <= i < pre.ready@.len() && pre.ready@[i] as int == y;
                        assert(self.ready@[i] as int == y);
                    }
                    assert(self.skip_log@.subrange(0, s0.skip_log@.len() as int) =~= log.subrange(
                        0,
                        s0.skip_log@.len() as int,
                    ));
                    assert(self.skip_log@[log.len() as int] == z as int);
                    assert forall|j: int| notes0.len() <= j < notes@.len() implies #[trigger] notes@[j]
                        == (Notification::Skip {
                        execution: s0.dag.executions@[self.skip_log@[s0.skip_log@.len() + j
                            - notes0.len()]].uuid,
                    }) by {
                        if j < nt.len() {
                            assert(notes@[j] == nt[j]);
                            assert(self.skip_log@[s0.skip_log@.len() + j - notes0.len()] == log[s0.skip_log@.len() + j - notes0.len()]);
                        }
                    }
                    assert forall|i: int|
                        s0.skip_log@.len() <= i < self.skip_log@.len() implies exists|p: int|
                        0 <= p < q + 1 && order@[p] as int == #[trigger] self.skip_log@[i] by {
                        if i < log.len() {
                            assert(self.skip_log@[i] == log[i]);
                            let p = choose|p: int| 0 <= p < q && order@[p] as int == log[i];
                        } else {
                            assert(order@[q as int] as int == self.skip_log@[i]);
                        }
                    }
                    assert forall|i: int, j: int|
                        s0.skip_log@.len() <= i < j < self.skip_log@.len() implies no_farther(
                        s0.dag,
                        from,
                        self.skip_log@[i],
                        self.skip_log@[j],
                    ) by {
                        assert(self.skip_log@[i] == log[i]);
                        if j < log.len() {
                            assert(self.skip_log@[j] == log[j]);
                        } else {
                            let p = choose|p: int| 0 <= p < q && order@[p] as int == #[trigger] log[i];
                            assert(no_farther(s0.dag, from, order@[p] as int, order@[q as int] as int));
                        }
                    }
                }
            }
            proof {
                assert forall|z2: int| 0 <= z2 < n implies (in_prefix(order@, q + 1, z2) == (
                in_prefix(order@, q as int, z2) || z2 == z as int)) by {
                    if in_prefix(order@, q + 1, z2) && z2 != z as int {
                        let p = choose|p: int| 0 <= p < q + 1 && order@[p] as int == z2;
                        assert(p != q);
                    }
                    if z2 == z as int {
                        assert(order@[q as int] as int == z2);
                    }
                }
            }
            q += 1;
        }
        proof {
            assert(self.states@[x as int] == base[x as int]);
            reveal(reaches);
            assert forall|z2: int| 0 <= z2 < n && z2 != x implies self.states@[z2] == skipped_after(
                s0.dag,
                s0.states@,
                x as int,
                z2,
            ) by {
                assert(base[z2] == s0.states@[z2]);
                if reaches(s0.dag, from, z2) {
                    assert(order@.contains(z2 as usize));
                    let p = choose|p: int| 0 <= p < order@.len() && order@[p] == z2 as usize;
                    assert(in_prefix(order@, q as int, z2));
                }
                if in_prefix(order@, q as int, z2) {
                    let p = choose|p: int| 0 <= p < q && order@[p] as int == z2;
                    assert(order@.contains(order@[p]));
                }
            }
        }
    }

    /// Every execution has ended or been skipped.
    pub open spec fn finished(self) -> bool {
        forall|x: int|
            0 <= x < self.states@.len() ==> self.states@[x] == ExecState::Done || self.states@[x]
                == ExecState::Failed || self.states@[x] == ExecState::Skipped
    }
}

/// Execution `z` is among the first `q` entries of `order`.
pub open spec fn in_prefix(order: Seq<usize>, q: int, z: int) -> bool {
    exists|p: int| 0 <= p < q && order[p] as int == z
}

/// Entry `k` of the ready queue is the first whose execution is ready.
pub open spec fn first_ready_at(q: Seq<usize>, st: Seq<ExecState>, k: int) -> bool {
    &&& 0 <= k < q.len()
    &&& st[q[k] as int] == ExecState::Ready
    &&& forall|k2: int| 0 <= k2 < k ==> st[q[k2] as int] != ExecState::Ready
}

/// What becomes of execution `z` when running execution `x` succeeds.
pub open spec fn ready_after(dag: ExecutionDAGData, st: Seq<ExecState>, x: int, z: int) -> ExecState {
    if st[z] == ExecState::Waiting && deps_available(
        dag,
        done_mask(st.update(x, ExecState::Done)),
        z,
    ) {
        ExecState::Ready
    } else {
        st[z]
    }
}

/// What becomes of execution `z` when running execution `x` fails: it is
/// skipped if it is downstream of `x` and has not started.
pub open spec fn skipped_after(dag: ExecutionDAGData, st: Seq<ExecState>, x: int, z: int) -> ExecState {
    if reaches(dag, x, z) && (st[z] == ExecState::Waiting || st[z] == ExecState::Ready) {
        ExecState::Skipped
    } else {
        st[z]
    }
}

fn done_mask_exec(states: &Vec<ExecState>) -> (r: Vec<bool>)
    ensures
        r@ == done_mask(states@),
{
    let mut r: Vec<bool> = Vec::new();
    let mut i: usize = 0;
    while i < states.len()
        invariant
            i <= states.len(),
            r@ == done_mask(states@.take(i as int)),
        decreases states.len() - i,
    {
        r.push(states[i] == ExecState::Done);
        proof {
            assert(done_mask(states@.take(i + 1)) =~= done_mask(states@.take(i as int)).push(
                states@[i as int] == ExecState::Done,
            ));
        }
        i += 1;
    }
    proof {
        assert(states@.take(i as int) =~= states@);
    }
    r
}

proof fn lemma_done_push(log: Seq<int>, old_st: Seq<ExecState>, st: Seq<ExecState>, x: int)
    requires
        log.no_duplicates(),
        forall|i: int| 0 <= i < log.len() ==> 0 <= #[trigger] log[i] < old_st.len(),
        forall|z: int|
            0 <= z < old_st.len() ==> ((old_st[z] == ExecState::Done || old_st[z] == ExecState::Failed)
                <==> log.contains(z)),
        old_st.len() == st.len(),
        0 <= x < st.len(),
        old_st[x] == ExecState::Running,
        st[x] == ExecState::Done || st[x] == ExecState::Failed,
        forall|z: int| 0 <= z < st.len() && z != x ==> st[z] == old_st[z],
    ensures
        log.push(x).no_duplicates(),
        forall|i: int| 0 <= i < log.push(x).len() ==> 0 <= #[trigger] log.push(x)[i] < st.len(),
        forall|z: int|
            0 <= z < st.len() ==> ((st[z] == ExecState::Done || st[z] == ExecState::Failed)
                <==> log.push(x).contains(z)),
{
    assert(!log.contains(x));
    assert forall|z: int| 0 <= z < st.len() implies ((st[z] == ExecState::Done || st[z]
        == ExecState::Failed) <==> log.push(x).contains(z)) by {
        lemma_seq_contains_after_push(log, x, z);
    }
    assert forall|i: int| 0 <= i < log.push(x).len() implies 0 <= #[trigger] log.push(x)[i]
        < st.len() by {
        if i < log.len() {
            assert(log.push(x)[i] == log[i]);
        }
    }
    assert forall|i: int, j: int|
        0 <= i < log.push(x).len() && 0 <= j < log.push(x).len() && i != j implies log.push(x)[i]
        != log.push(x)[j] by {
        if i == log.len() {
            assert(log.contains(log.push(x)[j]));
        } else if j == log.len() {
            assert(log.contains(log.push(x)[i]));
        }
    }
}

proof fn lemma_log_push(log: Seq<int>, old_st: Seq<ExecState>, st: Seq<ExecState>, s: ExecState, x: int)
    requires
        logs_state(log, old_st, s),
        old_st.len() == st.len(),
        0 <= x < st.len(),
        old_st[x] != s,
        st[x] == s,
        forall|z: int| 0 <= z < st.len() && z != x ==> (st[z] == s <==> old_st[z] == s),
    ensures
        logs_state(log.push(x), st, s),
{
    assert(!log.contains(x));
    assert forall|z: int| 0 <= z < st.len() implies (st[z] == s <==> log.push(x).contains(z)) by {
        lemma_seq_contains_after_push(log, x, z);
    }
    assert forall|i: int| 0 <= i < log.push(x).len() implies 0 <= #[trigger] log.push(x)[i]
        < st.len() by {
        if i < log.len() {
            assert(log.push(x)[i] == log[i]);
        }
    }
    assert forall|i: int, j: int|
        0 <= i < log.push(x).len() && 0 <= j < log.push(x).len() && i != j implies log.push(x)[i]
        != log.push(x)[j] by {
        if i == log.len() {
            assert(log.contains(log.push(x)[j]));
        } else if j == log.len() {
            assert(log.contains(log.push(x)[i]));
        }
    }
}

proof fn lemma_log_same(log: Seq<int>, old_st: Seq<ExecState>, st: Seq<ExecState>, s: ExecState)
    requires
        logs_state(log, old_st, s),
        old_st.len() == st.len(),
        forall|z: int| 0 <= z < st.len() ==> (st[z] == s <==> old_st[z] == s),
    ensures
        logs_state(log, st, s),
{
}

/// A finished evaluation in which no execution failed has reported every
/// execution done exactly once and none skipped.
pub proof fn lemma_no_failure_all_done(s: Scheduler)
    requires
        s.inv(),
        s.finished(),
        forall|x: int| 0 <= x < s.states@.len() ==> s.states@[x] != ExecState::Failed,
    ensures
        s.skip_log@.len() == 0,
        s.done_log@.len() == s.dag.executions@.len(),
        s.done_log@.no_duplicates(),
        forall|x: int| 0 <= x < s.dag.executions@.len() <==> s.done_log@.contains(x),
{
    let n = s.states@.len();
    if s.failed_log@.len() > 0 {
        assert(s.failed_log@.contains(s.failed_log@[0]));
        assert(s.states@[s.failed_log@[0]] == ExecState::Failed);
    }
    if s.skip_log@.len() > 0 {
        assert(false);
    }
    assert forall|x: int| 0 <= x < n implies s.states@[x] == ExecState::Done by {
        if s.states@[x] == ExecState::Skipped {
            assert(s.skip_log@.contains(x));
        }
    }
    assert forall|x: int| 0 <= x < n <==> s.done_log@.contains(x) by {
        if s.done_log@.contains(x) {
            let i = choose|i: int| 0 <= i < s.done_log@.len() && s.done_log@[i] == x;
            assert(0 <= s.done_log@[i] < n);
        }
        if 0 <= x < n {
            assert(s.states@[x] == ExecState::Done);
        }
    }
    assert(s.done_log@.to_set() =~= vstd::set_lib::set_int_range(0, n as int));
    s.done_log@.unique_seq_to_set();
    vstd::set_lib::lemma_int_range(0, n as int);
}

} // verus!
