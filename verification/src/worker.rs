//! The per-worker state machine, and the sums over a set of workers that the
//! dispatcher's invariant accounts with.

use vstd::prelude::*;

use crate::message::{count_njob, Message};

verus! {

/// What a worker is doing. A worker starts idle, executes at most one job at
/// a time, and once it has observed a terminate order it stays terminated.
#[derive(Clone, Copy, PartialEq, Eq, Structural, Debug)]
pub enum WorkerState {
    Idle,
    Executing(u64),
    Terminated,
}

/// What the thread hosting a worker must do after the worker dequeued a
/// message: run the named job to completion, or exit its receive loop.
#[derive(Clone, Copy, PartialEq, Eq, Structural, Debug)]
pub enum Action {
    Run(u64),
    Exit,
}

/// One worker: a stable identity, its state, the log of every message it has
/// dequeued (in dequeue order), and its thread-handle slot. The slot starts
/// populated and is emptied exactly once, when the owner joins the thread.
pub struct Worker {
    pub id: usize,
    pub state: WorkerState,
    pub dequeued: Vec<Message>,
    pub has_handle: bool,
}

/// Well-formedness of the worker standing at index `i`: the identity is the
/// index; the worker is terminated exactly when the last message it dequeued
/// was a terminate order, which is then the only one in its log (a worker
/// never dequeues again after observing a terminate); and an emptied
/// thread-handle slot belongs only to a terminated worker.
pub open spec fn wf_worker(w: Worker, i: int) -> bool {
    &&& w.id == i
    &&& (w.state is Terminated <==> w.dequeued@.len() > 0 && w.dequeued@.last() is Terminate)
    &&& (forall|k: int| 0 <= k < w.dequeued@.len() - 1 ==> (#[trigger] w.dequeued@[k]) is NewJob)
    &&& (!w.has_handle ==> w.state is Terminated)
}

impl Worker {
    /// A freshly spawned worker: idle, with an empty log and a live thread.
    pub fn new(id: usize) -> (w: Worker)
        ensures
            w.id == id,
            w.state is Idle,
            w.dequeued@.len() == 0,
            w.has_handle,
    {
        Worker { id, state: WorkerState::Idle, dequeued: Vec::new(), has_handle: true }
    }

    /// The worker's receive step: act on one dequeued control message. Only an
    /// idle worker dequeues; a job moves it to executing and must be run by
    /// the caller, a terminate order retires it for good and the caller must
    /// exit the receive loop.
    pub fn receive(&mut self, m: Message) -> (act: Action)
        requires
            old(self).state is Idle,
        ensures
            final(self).id == old(self).id,
            final(self).has_handle == old(self).has_handle,
            final(self).dequeued@ == old(self).dequeued@.push(m),
            (m matches Message::NewJob(j) ==> final(self).state == WorkerState::Executing(j)
                && act == Action::Run(j)),
            (m is Terminate ==> final(self).state is Terminated && act is Exit),
    {
        self.dequeued.push(m);
        match m {
            Message::NewJob(j) => {
                self.state = WorkerState::Executing(j);
                Action::Run(j)
            },
            Message::Terminate => {
                self.state = WorkerState::Terminated;
                Action::Exit
            },
        }
    }

    /// The owner consumes the thread-handle slot in order to join the
    /// thread. Only a terminated worker's thread has exited, so only such a
    /// worker is joined, and only once: an already emptied slot must never be
    /// joined again.
    pub fn take_handle(&mut self)
        requires
            old(self).state is Terminated,
            old(self).has_handle,
        ensures
            final(self).id == old(self).id,
            final(self).state == old(self).state,
            final(self).dequeued@ == old(self).dequeued@,
            !final(self).has_handle,
    {
        self.has_handle = false;
    }

    /// The worker's job ran to completion: return to idle and report which
    /// job it was. The dequeue log does not change; executing is not
    /// dequeuing.
    pub fn finish(&mut self) -> (job: u64)
        requires
            old(self).state is Executing,
        ensures
            final(self).id == old(self).id,
            final(self).has_handle == old(self).has_handle,
            final(self).dequeued@ == old(self).dequeued@,
            final(self).state is Idle,
            old(self).state == WorkerState::Executing(job),
    {
        let job: u64 = match self.state {
            WorkerState::Executing(j) => j,
            _ => {
                proof {
                    assert(false);
                }
                0
            },
        };
        self.state = WorkerState::Idle;
        job
    }
}

/// A receive step preserves well-formedness: the dequeued message lands at
/// the end of the log, and a terminate order retires the worker with that
/// order as the log's last entry.
pub proof fn lemma_receive_wf(w_old: Worker, w_new: Worker, m: Message, i: int)
    requires
        wf_worker(w_old, i),
        w_old.state is Idle,
        w_new.id == w_old.id,
        w_new.has_handle == w_old.has_handle,
        w_new.dequeued@ == w_old.dequeued@.push(m),
        (m is NewJob ==> w_new.state is Executing),
        (m is Terminate ==> w_new.state is Terminated),
    ensures
        wf_worker(w_new, i),
        count_njob(w_new.dequeued@) == count_njob(w_old.dequeued@) + (if m is NewJob {
            1nat
        } else {
            0nat
        }),
{
    crate::message::lemma_counts_push(w_old.dequeued@, m);
    assert(w_new.dequeued@.last() == m);
    assert forall|k: int| 0 <= k < w_new.dequeued@.len() - 1 implies (#[trigger] w_new.dequeued@[
        k
    ]) is NewJob by {
        assert(w_new.dequeued@[k] == w_old.dequeued@[k]);
        if k == w_old.dequeued@.len() - 1 {
            assert(!(w_old.dequeued@.last() is Terminate));
        }
    }
}

/// One where the worker is terminated, else zero.
pub open spec fn term_contrib(w: Worker) -> nat {
    if w.state is Terminated {
        1nat
    } else {
        0nat
    }
}

/// One where the worker is executing some job, else zero.
pub open spec fn exec_contrib(w: Worker) -> nat {
    if w.state is Executing {
        1nat
    } else {
        0nat
    }
}

/// One where the worker is executing the job `id`, else zero.
pub open spec fn exec_id_contrib(w: Worker, id: u64) -> nat {
    if w.state == WorkerState::Executing(id) {
        1nat
    } else {
        0nat
    }
}

/// How many workers are terminated.
pub open spec fn terminated_count(ws: Seq<Worker>) -> nat
    decreases ws.len(),
{
    if ws.len() == 0 {
        0
    } else {
        term_contrib(ws[0]) + terminated_count(ws.drop_first())
    }
}

/// How many workers are executing a job.
pub open spec fn executing_total(ws: Seq<Worker>) -> nat
    decreases ws.len(),
{
    if ws.len() == 0 {
        0
    } else {
        exec_contrib(ws[0]) + executing_total(ws.drop_first())
    }
}

/// How many workers are executing the job `id`.
pub open spec fn executing_count(ws: Seq<Worker>, id: u64) -> nat
    decreases ws.len(),
{
    if ws.len() == 0 {
        0
    } else {
        exec_id_contrib(ws[0], id) + executing_count(ws.drop_first(), id)
    }
}

/// How many messages the workers have dequeued between them.
pub open spec fn total_dequeued(ws: Seq<Worker>) -> nat
    decreases ws.len(),
{
    if ws.len() == 0 {
        0
    } else {
        ws[0].dequeued@.len() + total_dequeued(ws.drop_first())
    }
}

/// How many job messages the workers have dequeued between them.
pub open spec fn njob_dequeued(ws: Seq<Worker>) -> nat
    decreases ws.len(),
{
    if ws.len() == 0 {
        0
    } else {
        count_njob(ws[0].dequeued@) + njob_dequeued(ws.drop_first())
    }
}

/// Replacing the worker at index `i` trades its old contribution to each sum
/// for the new one.
pub proof fn lemma_worker_sums_update(ws: Seq<Worker>, i: int, w: Worker)
    requires
        0 <= i < ws.len(),
    ensures
        terminated_count(ws.update(i, w)) + term_contrib(ws[i]) == terminated_count(ws)
            + term_contrib(w),
        executing_total(ws.update(i, w)) + exec_contrib(ws[i]) == executing_total(ws)
            + exec_contrib(w),
        total_dequeued(ws.update(i, w)) + ws[i].dequeued@.len() == total_dequeued(ws)
            + w.dequeued@.len(),
        njob_dequeued(ws.update(i, w)) + count_njob(ws[i].dequeued@) == njob_dequeued(ws)
            + count_njob(w.dequeued@),
    decreases ws.len(),
{
    if i == 0 {
        assert(ws.update(0, w).drop_first() =~= ws.drop_first());
    } else {
        assert(ws.update(i, w).drop_first() =~= ws.drop_first().update(i - 1, w));
        lemma_worker_sums_update(ws.drop_first(), i - 1, w);
    }
}

/// The per-identifier form of `lemma_worker_sums_update`.
pub proof fn lemma_executing_count_update(ws: Seq<Worker>, i: int, w: Worker, id: u64)
    requires
        0 <= i < ws.len(),
    ensures
        executing_count(ws.update(i, w), id) + exec_id_contrib(ws[i], id) == executing_count(
            ws,
            id,
        ) + exec_id_contrib(w, id),
    decreases ws.len(),
{
    if i == 0 {
        assert(ws.update(0, w).drop_first() =~= ws.drop_first());
    } else {
        assert(ws.update(i, w).drop_first() =~= ws.drop_first().update(i - 1, w));
        lemma_executing_count_update(ws.drop_first(), i - 1, w, id);
    }
}

/// No more workers are terminated than there are workers.
pub proof fn lemma_terminated_count_le(ws: Seq<Worker>)
    ensures
        terminated_count(ws) <= ws.len(),
    decreases ws.len(),
{
    if ws.len() > 0 {
        lemma_terminated_count_le(ws.drop_first());
    }
}

/// A worker that is not terminated keeps the count of terminated workers
/// strictly below the number of workers.
pub proof fn lemma_not_terminated_lt(ws: Seq<Worker>, i: int)
    requires
        0 <= i < ws.len(),
        !(ws[i].state is Terminated),
    ensures
        terminated_count(ws) < ws.len(),
    decreases ws.len(),
{
    if i == 0 {
        lemma_terminated_count_le(ws.drop_first());
    } else {
        assert(ws.drop_first()[i - 1] == ws[i]);
        lemma_not_terminated_lt(ws.drop_first(), i - 1);
    }
}

/// When every worker is terminated, the count of terminated workers is the
/// number of workers.
pub proof fn lemma_all_terminated_count(ws: Seq<Worker>)
    requires
        forall|i: int| 0 <= i < ws.len() ==> (#[trigger] ws[i]).state is Terminated,
    ensures
        terminated_count(ws) == ws.len(),
    decreases ws.len(),
{
    if ws.len() > 0 {
        assert forall|i: int| 0 <= i < ws.drop_first().len() implies (#[trigger] ws.drop_first()[
            i
        ]).state is Terminated by {
            assert(ws.drop_first()[i] == ws[i + 1]);
        }
        lemma_all_terminated_count(ws.drop_first());
    }
}

/// When no worker is terminated, none counts as terminated.
pub proof fn lemma_none_terminated_count(ws: Seq<Worker>)
    requires
        forall|i: int| 0 <= i < ws.len() ==> !((#[trigger] ws[i]).state is Terminated),
    ensures
        terminated_count(ws) == 0,
    decreases ws.len(),
{
    if ws.len() > 0 {
        assert forall|i: int| 0 <= i < ws.drop_first().len() implies !((#[trigger] ws.drop_first()[
            i
        ]).state is Terminated) by {
            assert(ws.drop_first()[i] == ws[i + 1]);
        }
        lemma_none_terminated_count(ws.drop_first());
    }
}

/// Workers that have dequeued nothing count no dequeued messages.
pub proof fn lemma_no_dequeues(ws: Seq<Worker>)
    requires
        forall|i: int| 0 <= i < ws.len() ==> (#[trigger] ws[i]).dequeued@.len() == 0,
    ensures
        total_dequeued(ws) == 0,
        njob_dequeued(ws) == 0,
    decreases ws.len(),
{
    if ws.len() > 0 {
        assert forall|i: int| 0 <= i < ws.drop_first().len() implies (#[trigger] ws.drop_first()[
            i
        ]).dequeued@.len() == 0 by {
            assert(ws.drop_first()[i] == ws[i + 1]);
        }
        assert(count_njob(ws[0].dequeued@) == 0);
        lemma_no_dequeues(ws.drop_first());
    }
}

/// When no worker is executing, nothing counts as executing, for any job.
pub proof fn lemma_none_executing_count(ws: Seq<Worker>, id: u64)
    requires
        forall|i: int| 0 <= i < ws.len() ==> !((#[trigger] ws[i]).state is Executing),
    ensures
        executing_count(ws, id) == 0,
        executing_total(ws) == 0,
    decreases ws.len(),
{
    if ws.len() > 0 {
        assert forall|i: int| 0 <= i < ws.drop_first().len() implies !((#[trigger] ws.drop_first()[
            i
        ]).state is Executing) by {
            assert(ws.drop_first()[i] == ws[i + 1]);
        }
        lemma_none_executing_count(ws.drop_first(), id);
    }
}

} // verus!
