//! The dispatcher: owner of the job queue and of the workers.
//!
//! The struct models the pool's shared state — the queue of pending control
//! messages and one state machine per worker — and every operation of the
//! pool's life cycle is an executable transition with a contract: submission,
//! the broadcast of terminate orders, a worker's dequeue, the completion of a
//! job, and the join of a terminated worker. The laws at the end of the
//! module state the global guarantees that hold in every reachable state.

use vstd::prelude::*;

use crate::message::{
    count_id, count_job_id, count_njob, count_term, jobs_before_terminates, lemma_count_id_push,
    lemma_count_job_id_push, lemma_count_term_le, lemma_count_term_zero, lemma_counts_push,
    lemma_front_terminate_all, Message,
};
use crate::worker::{
    executing_count, executing_total, lemma_all_terminated_count, lemma_executing_count_update,
    lemma_no_dequeues, lemma_none_executing_count, lemma_none_terminated_count,
    lemma_not_terminated_lt, lemma_receive_wf, lemma_worker_sums_update, njob_dequeued,
    terminated_count, total_dequeued, wf_worker, Action, Worker, WorkerState,
};

verus! {

/// The fixed-size worker pool. `workers` is the worker set, immutable in size
/// after construction; `queue` holds the control messages that have been sent
/// and not yet dequeued, oldest first; `terminating` records whether the
/// terminate orders have been broadcast; `executed` logs every job that ran
/// to completion, in completion order, and `submitted` every job ever
/// accepted, in submission order.
pub struct ThreadPool {
    pub workers: Vec<Worker>,
    pub queue: Vec<Message>,
    pub terminating: bool,
    pub executed: Vec<u64>,
    pub submitted: Vec<u64>,
}

impl ThreadPool {
    /// The number of workers, fixed at construction.
    pub open spec fn size(self) -> nat {
        self.workers@.len()
    }

    /// The job `id` is accounted for: however often it was submitted, each
    /// submission is at exactly one place — already executed, currently
    /// executing on some worker, or still queued.
    pub open spec fn balanced_for(self, id: u64) -> bool {
        count_id(self.executed@, id) + executing_count(self.workers@, id) + count_job_id(
            self.queue@,
            id,
        ) == count_id(self.submitted@, id)
    }

    /// The pool's invariant. Beyond the well-formedness of each worker it
    /// ties the queue to the worker set: terminate orders exist only during
    /// teardown, exactly one per worker that has not yet observed one, and
    /// always behind every job; every submitted job is accounted for exactly
    /// once; and the dequeue logs balance the messages ever sent.
    pub open spec fn inv(self) -> bool {
        &&& self.workers@.len() > 0
        &&& (forall|i: int|
            0 <= i < self.workers@.len() ==> wf_worker(#[trigger] self.workers@[i], i))
        &&& jobs_before_terminates(self.queue@)
        &&& (self.terminating ==> count_term(self.queue@) + terminated_count(self.workers@)
            == self.workers@.len())
        &&& (!self.terminating ==> count_term(self.queue@) == 0)
        &&& (!self.terminating ==> forall|i: int|
            0 <= i < self.workers@.len() ==> !((#[trigger] self.workers@[i]).state is Terminated))
        &&& (self.terminating && count_term(self.queue@) == 0 ==> self.queue@.len() == 0)
        &&& (forall|id: u64| #[trigger] self.balanced_for(id))
        &&& self.executed@.len() + executing_total(self.workers@) + count_njob(self.queue@)
            == self.submitted@.len()
        &&& total_dequeued(self.workers@) + self.queue@.len() == self.submitted@.len() + (
        if self.terminating {
            self.workers@.len()
        } else {
            0nat
        })
        &&& njob_dequeued(self.workers@) + count_njob(self.queue@) == self.submitted@.len()
    }

    /// Construct a pool of exactly `size` workers, every one idle with a live
    /// thread, an empty queue, and nothing submitted or executed yet. A pool
    /// of zero workers is a precondition violation: it could never execute
    /// anything.
    pub fn new(size: usize) -> (pool: ThreadPool)
        requires
            size > 0,
        ensures
            pool.inv(),
            pool.size() == size,
            forall|i: int|
                0 <= i < size ==> (#[trigger] pool.workers@[i]).state is Idle
                    && pool.workers@[i].has_handle && pool.workers@[i].dequeued@.len() == 0
                    && pool.workers@[i].id == i,
            pool.queue@.len() == 0,
            !pool.terminating,
            pool.executed@.len() == 0,
            pool.submitted@.len() == 0,
    {
        let mut workers: Vec<Worker> = Vec::new();
        let mut i: usize = 0;
        while i < size
            invariant
                i <= size,
                workers@.len() == i,
                forall|k: int|
                    0 <= k < i ==> (#[trigger] workers@[k]).state is Idle
                        && workers@[k].has_handle && workers@[k].dequeued@.len() == 0
                        && workers@[k].id == k,
            decreases size - i,
        {
            let w = Worker::new(i);
            workers.push(w);
            i = i + 1;
        }
        let pool = ThreadPool {
            workers,
            queue: Vec::new(),
            terminating: false,
            executed: Vec::new(),
            submitted: Vec::new(),
        };
        proof {
            lemma_none_terminated_count(pool.workers@);
            lemma_none_executing_count(pool.workers@, 0);
            lemma_no_dequeues(pool.workers@);
            assert(count_term(pool.queue@) == 0);
            assert(count_njob(pool.queue@) == 0);
            assert forall|id: u64| #[trigger] pool.balanced_for(id) by {
                lemma_none_executing_count(pool.workers@, id);
                assert(count_id(pool.executed@, id) == 0);
                assert(count_job_id(pool.queue@, id) == 0);
                assert(count_id(pool.submitted@, id) == 0);
            }
        }
        pool
    }

    /// Submit a job. The message is appended to the queue and the call
    /// returns at once: nothing here waits for a worker, looks at the
    /// workers, or changes anything besides the queue and the submission
    /// log — submission never blocks, however busy the pool is. Submitting
    /// after teardown has begun is a precondition violation.
    pub fn execute(&mut self, job: u64)
        requires
            old(self).inv(),
            !old(self).terminating,
        ensures
            final(self).inv(),
            !final(self).terminating,
            final(self).workers@ == old(self).workers@,
            final(self).executed@ == old(self).executed@,
            final(self).queue@ == old(self).queue@.push(Message::NewJob(job)),
            final(self).submitted@ == old(self).submitted@.push(job),
    {
        proof {
            lemma_counts_push(self.queue@, Message::NewJob(job));
            lemma_count_term_zero(self.queue@);
        }
        self.queue.push(Message::NewJob(job));
        self.submitted.push(job);
        proof {
            assert forall|id: u64| #[trigger] self.balanced_for(id) by {
                assert(old(self).balanced_for(id));
                lemma_count_job_id_push(old(self).queue@, Message::NewJob(job), id);
                lemma_count_id_push(old(self).submitted@, job, id);
            }
        }
    }

    /// Phase one of the two-phase shutdown: broadcast exactly one terminate
    /// order per worker, joining nothing yet. The queue has no affinity — any
    /// idle worker may dequeue any message — so the count of orders equalling
    /// the count of workers, together with a worker never dequeuing again
    /// after its own order, is what guarantees that every worker eventually
    /// observes exactly one order, whichever worker takes which.
    pub fn send_terminates(&mut self)
        requires
            old(self).inv(),
            !old(self).terminating,
        ensures
            final(self).inv(),
            final(self).terminating,
            final(self).workers@ == old(self).workers@,
            final(self).executed@ == old(self).executed@,
            final(self).submitted@ == old(self).submitted@,
            final(self).queue@.len() == old(self).queue@.len() + old(self).size(),
            final(self).queue@.subrange(0, old(self).queue@.len() as int) == old(self).queue@,
            forall|k: int|
                old(self).queue@.len() <= k < final(self).queue@.len() ==> (#[trigger] final(
                    self
                ).queue@[k]) is Terminate,
            count_term(final(self).queue@) == old(self).size(),
    {
        let ghost base = *old(self);
        let n = self.workers.len();
        let mut i: usize = 0;
        while i < n
            invariant
                i <= n,
                n == base.workers@.len(),
                self.workers@ == base.workers@,
                self.executed@ == base.executed@,
                self.submitted@ == base.submitted@,
                self.terminating == base.terminating,
                self.queue@.len() == base.queue@.len() + i,
                self.queue@.subrange(0, base.queue@.len() as int) == base.queue@,
                forall|k: int|
                    base.queue@.len() <= k < self.queue@.len() ==> (#[trigger] self.queue@[
                        k
                    ]) is Terminate,
                count_term(self.queue@) == count_term(base.queue@) + i,
                count_njob(self.queue@) == count_njob(base.queue@),
                forall|id: u64| #[trigger]
                    count_job_id(self.queue@, id) == count_job_id(base.queue@, id),
            decreases n - i,
        {
            let ghost qprev = self.queue@;
            proof {
                lemma_counts_push(qprev, Message::Terminate);
            }
            self.queue.push(Message::Terminate);
            proof {
                assert(self.queue@.subrange(0, base.queue@.len() as int) =~= base.queue@);
                assert forall|k: int|
                    base.queue@.len() <= k < self.queue@.len() implies (#[trigger] self.queue@[
                    k
                ]) is Terminate by {
                    if k < qprev.len() {
                        assert(self.queue@[k] == qprev[k]);
                    }
                }
                assert forall|id: u64| #[trigger]
                    count_job_id(self.queue@, id) == count_job_id(base.queue@, id) by {
                    lemma_count_job_id_push(qprev, Message::Terminate, id);
                }
            }
            i = i + 1;
        }
        self.terminating = true;
        proof {
            lemma_count_term_zero(base.queue@);
            assert forall|k1: int, k2: int|
                #![trigger self.queue@[k1], self.queue@[k2]]
                0 <= k1 < k2 < self.queue@.len() && self.queue@[k1] is Terminate implies self
                .queue@[k2] is Terminate by {
                if k1 < base.queue@.len() {
                    assert(self.queue@.subrange(0, base.queue@.len() as int)[k1] == self.queue@[
                        k1
                    ]);
                    assert(self.queue@[k1] == base.queue@[k1]);
                }
            }
            lemma_none_terminated_count(self.workers@);
            assert forall|id: u64| #[trigger] self.balanced_for(id) by {
                assert(base.balanced_for(id));
            }
        }
    }

    /// The dequeue step of worker `i`: the worker takes the message at the
    /// front of the queue and acts on it. Only an idle worker dequeues — in
    /// particular, a worker that has observed a terminate order never
    /// dequeues again — and the exclusive lock this models covers exactly
    /// this step, never the execution of the job, so every other worker is
    /// untouched.
    pub fn dequeue_step(&mut self, i: usize) -> (act: Action)
        requires
            old(self).inv(),
            i < old(self).size(),
            old(self).workers@[i as int].state is Idle,
            old(self).queue@.len() > 0,
        ensures
            final(self).inv(),
            final(self).terminating == old(self).terminating,
            final(self).executed@ == old(self).executed@,
            final(self).submitted@ == old(self).submitted@,
            final(self).queue@ == old(self).queue@.drop_first(),
            final(self).workers@.len() == old(self).workers@.len(),
            forall|k: int|
                0 <= k < old(self).workers@.len() && k != i ==> final(self).workers@[k] == old(
                    self,
                ).workers@[k],
            final(self).workers@[i as int].id == old(self).workers@[i as int].id,
            final(self).workers@[i as int].has_handle == old(self).workers@[i as int].has_handle,
            final(self).workers@[i as int].dequeued@ == old(self).workers@[
                i as int
            ].dequeued@.push(old(self).queue@[0]),
            (old(self).queue@[0] matches Message::NewJob(j) ==> final(self).workers@[
                i as int
            ].state == WorkerState::Executing(j) && act == Action::Run(j)),
            (old(self).queue@[0] is Terminate ==> final(self).workers@[
                i as int
            ].state is Terminated && act is Exit),
            executing_total(final(self).workers@) == executing_total(old(self).workers@) + (if old(
                self,
            ).queue@[0] is NewJob {
                1nat
            } else {
                0nat
            }),
    {
        let ghost base = *old(self);
        let ghost q0 = base.queue@;
        let ghost m0 = q0[0];
        let ghost ws0 = base.workers@;
        let ghost w_old = ws0[i as int];
        let m = self.queue.remove(0);
        let w = &mut self.workers[i];
        let act = w.receive(m);
        proof {
            let w_new = self.workers@[i as int];
            assert(self.workers@ =~= ws0.update(i as int, w_new));
            assert(q0.remove(0) =~= q0.drop_first());
            assert(wf_worker(w_old, i as int));
            lemma_receive_wf(w_old, w_new, m0, i as int);
            lemma_worker_sums_update(ws0, i as int, w_new);
            // the queue's counts split into the front message and the rest
            assert(count_term(q0) == (if m0 is Terminate {
                1nat
            } else {
                0nat
            }) + count_term(q0.drop_first()));
            assert(count_njob(q0) == (if m0 is NewJob {
                1nat
            } else {
                0nat
            }) + count_njob(q0.drop_first()));
            // well-formedness of the untouched workers
            assert forall|k: int| 0 <= k < ws0.len() implies wf_worker(
                #[trigger] self.workers@[k],
                k,
            ) by {
                if k != i {
                    assert(self.workers@[k] == ws0[k]);
                    assert(wf_worker(ws0[k], k));
                }
            }
            // messages behind the front keep their order
            assert forall|k1: int, k2: int|
                #![trigger self.queue@[k1], self.queue@[k2]]
                0 <= k1 < k2 < self.queue@.len() && self.queue@[k1] is Terminate implies self
                .queue@[k2] is Terminate by {
                assert(self.queue@[k1] == q0[k1 + 1]);
                assert(self.queue@[k2] == q0[k2 + 1]);
            }
            // once the last terminate order is taken, nothing remains queued
            if base.terminating && count_term(self.queue@) == 0 {
                if m0 is Terminate {
                    lemma_front_terminate_all(q0);
                    lemma_count_term_le(q0.drop_first());
                }
            }
            // if shutdown has not begun, no terminate order was dequeued
            if !base.terminating {
                assert(!(m0 is Terminate));
                assert forall|k: int| 0 <= k < ws0.len() implies !((#[trigger] self.workers@[
                    k
                ]).state is Terminated) by {
                    if k != i {
                        assert(self.workers@[k] == ws0[k]);
                    }
                }
            }
            // every job stays accounted for exactly once
            assert forall|id: u64| #[trigger] self.balanced_for(id) by {
                assert(base.balanced_for(id));
                lemma_executing_count_update(ws0, i as int, w_new, id);
                assert(count_job_id(q0, id) == (if m0 == Message::NewJob(id) {
                    1nat
                } else {
                    0nat
                }) + count_job_id(q0.drop_first(), id));
            }
        }
        act
    }

    /// The job running on worker `i` ran to completion: the worker returns to
    /// idle and the job is logged as executed. Nothing is dequeued here, and
    /// no other worker and no queued message is touched — execution happens
    /// outside the dequeue lock.
    pub fn finish_step(&mut self, i: usize) -> (job: u64)
        requires
            old(self).inv(),
            i < old(self).size(),
            old(self).workers@[i as int].state is Executing,
        ensures
            final(self).inv(),
            final(self).terminating == old(self).terminating,
            final(self).queue@ == old(self).queue@,
            final(self).submitted@ == old(self).submitted@,
            old(self).workers@[i as int].state == WorkerState::Executing(job),
            final(self).executed@ == old(self).executed@.push(job),
            final(self).workers@.len() == old(self).workers@.len(),
            forall|k: int|
                0 <= k < old(self).workers@.len() && k != i ==> final(self).workers@[k] == old(
                    self,
                ).workers@[k],
            final(self).workers@[i as int].id == old(self).workers@[i as int].id,
            final(self).workers@[i as int].has_handle == old(self).workers@[i as int].has_handle,
            final(self).workers@[i as int].dequeued@ == old(self).workers@[i as int].dequeued@,
            final(self).workers@[i as int].state is Idle,
            executing_total(final(self).workers@) + 1 == executing_total(old(self).workers@),
    {
        let ghost base = *old(self);
        let ghost ws0 = base.workers@;
        let ghost w_old = ws0[i as int];
        let w = &mut self.workers[i];
        let job = w.finish();
        self.executed.push(job);
        proof {
            let w_new = self.workers@[i as int];
            assert(self.workers@ =~= ws0.update(i as int, w_new));
            assert(wf_worker(w_old, i as int));
            lemma_worker_sums_update(ws0, i as int, w_new);
            assert forall|k: int| 0 <= k < ws0.len() implies wf_worker(
                #[trigger] self.workers@[k],
                k,
            ) by {
                if k != i {
                    assert(self.workers@[k] == ws0[k]);
                    assert(wf_worker(ws0[k], k));
                }
            }
            if !base.terminating {
                assert forall|k: int| 0 <= k < ws0.len() implies !((#[trigger] self.workers@[
                    k
                ]).state is Terminated) by {
                    if k != i {
                        assert(self.workers@[k] == ws0[k]);
                    }
                }
            }
            assert forall|id: u64| #[trigger] self.balanced_for(id) by {
                assert(base.balanced_for(id));
                lemma_executing_count_update(ws0, i as int, w_new, id);
                lemma_count_id_push(base.executed@, job, id);
            }
        }
        job
    }

    /// Phase two of the two-phase shutdown, one worker at a time: consume the
    /// thread-handle slot of the terminated worker `i` and block until its
    /// thread exits. Joining a worker that has not observed its terminate
    /// order, or whose slot was already emptied, is a precondition violation
    /// — the first would deadlock, the second is the double join the slot
    /// exists to rule out.
    pub fn join_worker(&mut self, i: usize)
        requires
            old(self).inv(),
            i < old(self).size(),
            old(self).workers@[i as int].state is Terminated,
            old(self).workers@[i as int].has_handle,
        ensures
            final(self).inv(),
            final(self).terminating == old(self).terminating,
            final(self).queue@ == old(self).queue@,
            final(self).executed@ == old(self).executed@,
            final(self).submitted@ == old(self).submitted@,
            final(self).workers@.len() == old(self).workers@.len(),
            forall|k: int|
                0 <= k < old(self).workers@.len() && k != i ==> final(self).workers@[k] == old(
                    self,
                ).workers@[k],
            final(self).workers@[i as int].id == old(self).workers@[i as int].id,
            final(self).workers@[i as int].state == old(self).workers@[i as int].state,
            final(self).workers@[i as int].dequeued@ == old(self).workers@[i as int].dequeued@,
            !final(self).workers@[i as int].has_handle,
            total_dequeued(final(self).workers@) == total_dequeued(old(self).workers@),
            njob_dequeued(final(self).workers@) == njob_dequeued(old(self).workers@),
    {
        let ghost base = *old(self);
        let ghost ws0 = base.workers@;
        let w = &mut self.workers[i];
        w.take_handle();
        proof {
            let w_new = self.workers@[i as int];
            assert(self.workers@ =~= ws0.update(i as int, w_new));
            assert(wf_worker(ws0[i as int], i as int));
            lemma_worker_sums_update(ws0, i as int, w_new);
            assert forall|k: int| 0 <= k < ws0.len() implies wf_worker(
                #[trigger] self.workers@[k],
                k,
            ) by {
                if k != i {
                    assert(self.workers@[k] == ws0[k]);
                    assert(wf_worker(ws0[k], k));
                }
            }
            assert forall|id: u64| #[trigger] self.balanced_for(id) by {
                assert(base.balanced_for(id));
                lemma_executing_count_update(ws0, i as int, w_new, id);
            }
        }
    }

    /// Run the workers until every one of them has observed its terminate
    /// order: idle workers dequeue, busy workers finish their jobs. The
    /// terminate orders must already be broadcast — this is what makes the
    /// loop terminate from every state, however the steps interleave. On
    /// return the queue is empty and every submitted job has executed exactly
    /// as often as it was submitted.
    pub fn drain(&mut self)
        requires
            old(self).inv(),
            old(self).terminating,
        ensures
            final(self).inv(),
            final(self).terminating,
            final(self).size() == old(self).size(),
            final(self).submitted@ == old(self).submitted@,
            old(self).executed@.is_prefix_of(final(self).executed@),
            forall|k: int|
                0 <= k < old(self).workers@.len() ==> (#[trigger] final(self).workers@[
                    k
                ]).state is Terminated && final(self).workers@[k].has_handle == old(self).workers@[
                    k
                ].has_handle,
            final(self).queue@.len() == 0,
            forall|id: u64| #[trigger]
                count_id(final(self).executed@, id) == count_id(old(self).submitted@, id),
            final(self).executed@.len() == old(self).submitted@.len(),
            total_dequeued(final(self).workers@) == old(self).submitted@.len() + old(self).size(),
            njob_dequeued(final(self).workers@) == old(self).submitted@.len(),
    {
        let ghost base = *old(self);
        loop
            invariant
                self.inv(),
                self.terminating,
                self.workers@.len() == base.workers@.len(),
                self.submitted@ == base.submitted@,
                base.executed@.is_prefix_of(self.executed@),
                forall|k: int|
                    0 <= k < base.workers@.len() ==> (#[trigger] self.workers@[k]).has_handle
                        == base.workers@[k].has_handle,
            ensures
                forall|k: int|
                    0 <= k < self.workers@.len() ==> (#[trigger] self.workers@[
                        k
                    ]).state is Terminated,
            decreases 2 * self.queue@.len() + executing_total(self.workers@),
        {
            let ghost before = *self;
            let found_idle = self.find_idle();
            match found_idle {
                Some(i) => {
                    proof {
                        lemma_not_terminated_lt(self.workers@, i as int);
                        lemma_count_term_le(self.queue@);
                        assert(count_term(self.queue@) >= 1);
                    }
                    let _ = self.dequeue_step(i);
                    proof {
                        assert(self.executed@ == before.executed@);
                    }
                },
                None => {
                    let found_exec = self.find_executing();
                    match found_exec {
                        Some(i) => {
                            let _ = self.finish_step(i);
                            proof {
                                assert(self.executed@.subrange(0, base.executed@.len() as int)
                                    =~= base.executed@);
                            }
                        },
                        None => {
                            break;
                        },
                    }
                },
            }
        }
        proof {
            lemma_drained(*self);
        }
    }

    /// Teardown: broadcast one terminate order per worker, let every worker
    /// run down — completing whatever jobs are still queued or in flight —
    /// and only then join each worker, consuming its thread-handle slot. The
    /// call returns only once every submitted job has executed exactly as
    /// often as it was submitted and every worker has terminated and been
    /// joined; the pool is then inert.
    pub fn shutdown(&mut self)
        requires
            old(self).inv(),
            !old(self).terminating,
        ensures
            final(self).inv(),
            final(self).terminating,
            final(self).size() == old(self).size(),
            final(self).submitted@ == old(self).submitted@,
            old(self).executed@.is_prefix_of(final(self).executed@),
            final(self).queue@.len() == 0,
            forall|k: int|
                0 <= k < final(self).workers@.len() ==> (#[trigger] final(self).workers@[
                    k
                ]).state is Terminated && !final(self).workers@[k].has_handle,
            forall|id: u64| #[trigger]
                count_id(final(self).executed@, id) == count_id(old(self).submitted@, id),
            final(self).executed@.len() == old(self).submitted@.len(),
            total_dequeued(final(self).workers@) == old(self).submitted@.len() + old(self).size(),
            njob_dequeued(final(self).workers@) == old(self).submitted@.len(),
    {
        self.send_terminates();
        self.drain();
        let ghost mid = *self;
        proof {
            // before teardown no worker is terminated, so every slot is full
            assert forall|k: int|
                0 <= k < mid.workers@.len() implies (#[trigger] mid.workers@[
                k
            ]).has_handle by {
                assert(wf_worker(old(self).workers@[k], k));
                assert(!(old(self).workers@[k].state is Terminated));
            }
        }
        let n = self.workers.len();
        let mut i: usize = 0;
        while i < n
            invariant
                self.inv(),
                self.terminating,
                n == self.workers@.len(),
                i <= n,
                self.queue@ == mid.queue@,
                self.executed@ == mid.executed@,
                self.submitted@ == mid.submitted@,
                total_dequeued(self.workers@) == total_dequeued(mid.workers@),
                njob_dequeued(self.workers@) == njob_dequeued(mid.workers@),
                forall|k: int|
                    0 <= k < n ==> (#[trigger] self.workers@[k]).state is Terminated,
                forall|k: int| 0 <= k < n ==> (#[trigger] mid.workers@[k]).has_handle,
                forall|k: int| 0 <= k < i ==> !(#[trigger] self.workers@[k]).has_handle,
                forall|k: int|
                    i <= k < n ==> (#[trigger] self.workers@[k]).has_handle == mid.workers@[
                        k
                    ].has_handle,
            decreases n - i,
        {
            proof {
                assert(self.workers@[i as int].has_handle == mid.workers@[i as int].has_handle);
            }
            self.join_worker(i);
            i = i + 1;
        }
    }

    /// The lowest index of an idle worker — one ready to dequeue — if any.
    pub fn find_idle(&self) -> (r: Option<usize>)
        ensures
            (r matches Some(i) ==> i < self.workers@.len() && self.workers@[
                i as int
            ].state is Idle && forall|k: int|
                0 <= k < i ==> !((#[trigger] self.workers@[k]).state is Idle)),
            (r is None ==> forall|k: int|
                0 <= k < self.workers@.len() ==> !((#[trigger] self.workers@[k]).state is Idle)),
    {
        let n = self.workers.len();
        let mut i: usize = 0;
        while i < n
            invariant
                n == self.workers@.len(),
                i <= n,
                forall|k: int| 0 <= k < i ==> !((#[trigger] self.workers@[k]).state is Idle),
            decreases n - i,
        {
            match self.workers[i].state {
                WorkerState::Idle => {
                    return Some(i);
                },
                _ => {},
            }
            i = i + 1;
        }
        None
    }

    /// The lowest index of a worker that is executing a job, if any.
    pub fn find_executing(&self) -> (r: Option<usize>)
        ensures
            (r matches Some(i) ==> i < self.workers@.len() && self.workers@[
                i as int
            ].state is Executing && forall|k: int|
                0 <= k < i ==> !((#[trigger] self.workers@[k]).state is Executing)),
            (r is None ==> forall|k: int|
                0 <= k < self.workers@.len() ==> !((#[trigger] self.workers@[
                    k
                ]).state is Executing)),
    {
        let n = self.workers.len();
        let mut i: usize = 0;
        while i < n
            invariant
                n == self.workers@.len(),
                i <= n,
                forall|k: int| 0 <= k < i ==> !((#[trigger] self.workers@[k]).state is Executing),
            decreases n - i,
        {
            match self.workers[i].state {
                WorkerState::Executing(_) => {
                    return Some(i);
                },
                _ => {},
            }
            i = i + 1;
        }
        None
    }
}

/// The two-phase shutdown never gets stuck: once the terminate orders are
/// broadcast, as long as some worker has not observed one, either a worker is
/// still executing a job and can finish it, or some worker is idle and the
/// queue still holds a message for it to dequeue. Were the phases interleaved
/// per worker — join one, then signal the next — the owner could block on a
/// busy worker whose terminate order an idle peer had already consumed; the
/// balance of one unconsumed order per unterminated worker is what this law
/// rests on.
pub proof fn lemma_shutdown_progress(pool: ThreadPool)
    requires
        pool.inv(),
        pool.terminating,
        exists|i: int|
            0 <= i < pool.workers@.len() && !((#[trigger] pool.workers@[i]).state is Terminated),
    ensures
        (exists|i: int|
            0 <= i < pool.workers@.len() && (#[trigger] pool.workers@[i]).state is Executing) || (
        pool.queue@.len() > 0 && exists|i: int|
            0 <= i < pool.workers@.len() && (#[trigger] pool.workers@[i]).state is Idle),
{
    let i = choose|i: int|
        0 <= i < pool.workers@.len() && !((#[trigger] pool.workers@[i]).state is Terminated);
    if !(pool.workers@[i].state is Executing) {
        assert(pool.workers@[i].state is Idle);
        lemma_not_terminated_lt(pool.workers@, i);
        lemma_count_term_le(pool.queue@);
        assert(count_term(pool.queue@) >= 1);
    }
}

/// A quiescent shutdown is complete: when every worker has observed its
/// terminate order, the queue is empty, every submitted job has been executed
/// exactly as often as it was submitted — none dropped, none run twice — and
/// the workers between them dequeued every job plus one terminate order each.
pub proof fn lemma_drained(pool: ThreadPool)
    requires
        pool.inv(),
        pool.terminating,
        forall|i: int|
            0 <= i < pool.workers@.len() ==> (#[trigger] pool.workers@[i]).state is Terminated,
    ensures
        pool.queue@.len() == 0,
        forall|id: u64| #[trigger]
            count_id(pool.executed@, id) == count_id(pool.submitted@, id),
        total_dequeued(pool.workers@) == pool.submitted@.len() + pool.workers@.len(),
        njob_dequeued(pool.workers@) == pool.submitted@.len(),
        pool.executed@.len() == pool.submitted@.len(),
{
    lemma_none_executing_count(pool.workers@, 0);
    lemma_all_terminated_count(pool.workers@);
    assert(count_term(pool.queue@) == 0);
    assert(pool.queue@.len() == 0);
    assert forall|id: u64| #[trigger]
        count_id(pool.executed@, id) == count_id(pool.submitted@, id) by {
        assert(pool.balanced_for(id));
        lemma_none_executing_count(pool.workers@, id);
        assert(count_job_id(pool.queue@, id) == 0);
    }
    assert(count_njob(pool.queue@) == 0);
}

/// At every point of the pool's life, not only after teardown, no job has run
/// more often than it was submitted: execution can lag behind submission —
/// jobs may still be queued or in flight — but never overtake it.
pub proof fn lemma_never_overexecuted(pool: ThreadPool, id: u64)
    requires
        pool.inv(),
    ensures
        count_id(pool.executed@, id) <= count_id(pool.submitted@, id),
{
    assert(pool.balanced_for(id));
}

/// A worker that has observed a terminate order dequeued nothing afterwards:
/// in every well-formed pool the order is the last entry of that worker's
/// dequeue log, and everything before it is a job.
pub proof fn lemma_terminate_observed_last(pool: ThreadPool, i: int)
    requires
        pool.inv(),
        0 <= i < pool.workers@.len(),
        pool.workers@[i].state is Terminated,
    ensures
        pool.workers@[i].dequeued@.len() > 0,
        pool.workers@[i].dequeued@.last() is Terminate,
        forall|k: int|
            0 <= k < pool.workers@[i].dequeued@.len() - 1 ==> (#[trigger] pool.workers@[
                i
            ].dequeued@[k]) is NewJob,
{
    assert(wf_worker(pool.workers@[i], i));
}

} // verus!
