use workpool::message::Message;
use workpool::pool::ThreadPool;
use workpool::worker::{Action, Worker, WorkerState};

fn count_in(ids: &[u64], id: u64) -> usize {
    ids.iter().filter(|&&x| x == id).count()
}

fn njobs_dequeued(pool: &ThreadPool) -> usize {
    pool.workers
        .iter()
        .map(|w| {
            w.dequeued
                .iter()
                .filter(|m| matches!(m, Message::NewJob(_)))
                .count()
        })
        .sum()
}

fn total_dequeued(pool: &ThreadPool) -> usize {
    pool.workers.iter().map(|w| w.dequeued.len()).sum()
}

#[test]
fn construct_gives_size_workers() {
    for size in [1usize, 2, 5] {
        let pool = ThreadPool::new(size);
        assert_eq!(pool.workers.len(), size);
        for (k, w) in pool.workers.iter().enumerate() {
            assert_eq!(w.id, k);
            assert_eq!(w.state, WorkerState::Idle);
            assert!(w.has_handle);
            assert!(w.dequeued.is_empty());
        }
        assert!(pool.queue.is_empty());
        assert!(!pool.terminating);
        assert!(pool.executed.is_empty());
        assert!(pool.submitted.is_empty());
    }
}

#[test]
fn jobs_execute_exactly_once() {
    let mut pool = ThreadPool::new(2);
    for id in [1u64, 2, 3, 4] {
        pool.execute(id);
    }
    pool.shutdown();
    assert_eq!(pool.executed.len(), 4);
    for id in [1u64, 2, 3, 4] {
        assert_eq!(count_in(&pool.executed, id), 1);
    }
    assert!(pool.queue.is_empty());
}

#[test]
fn teardown_waits_for_inflight_job() {
    let mut pool = ThreadPool::new(2);
    pool.execute(7);
    let act = pool.dequeue_step(0);
    assert_eq!(act, Action::Run(7));
    assert_eq!(pool.workers[0].state, WorkerState::Executing(7));
    // the job is still in flight when teardown begins; teardown must not
    // return before it has run to completion
    pool.shutdown();
    assert_eq!(pool.executed, vec![7]);
    for w in &pool.workers {
        assert_eq!(w.state, WorkerState::Terminated);
        assert!(!w.has_handle);
    }
}

#[test]
fn two_phase_shutdown_with_busy_worker() {
    let mut pool = ThreadPool::new(2);
    pool.execute(99);
    assert_eq!(pool.dequeue_step(0), Action::Run(99));
    // worker 0 is busy with a long job while teardown begins: both terminate
    // orders are broadcast before anything is joined
    pool.send_terminates();
    assert_eq!(pool.queue, vec![Message::Terminate, Message::Terminate]);
    // the idle worker takes one order and retires; the busy worker's order
    // stays queued for it
    assert_eq!(pool.dequeue_step(1), Action::Exit);
    assert_eq!(pool.workers[1].state, WorkerState::Terminated);
    assert_eq!(pool.workers[0].state, WorkerState::Executing(99));
    // the long job finishes, the worker dequeues its own order, and both
    // workers can be joined: no deadlock
    assert_eq!(pool.finish_step(0), 99);
    assert_eq!(pool.dequeue_step(0), Action::Exit);
    pool.join_worker(0);
    pool.join_worker(1);
    for w in &pool.workers {
        assert_eq!(w.state, WorkerState::Terminated);
        assert!(!w.has_handle);
    }
    assert_eq!(pool.executed, vec![99]);
    assert!(pool.queue.is_empty());
}

#[test]
fn no_dequeue_after_terminate() {
    let mut pool = ThreadPool::new(2);
    for id in [1u64, 2, 3] {
        pool.execute(id);
    }
    pool.shutdown();
    // the workers between them dequeued every job exactly once, plus one
    // terminate order each
    assert_eq!(njobs_dequeued(&pool), 3);
    assert_eq!(total_dequeued(&pool), 3 + 2);
    // each worker's terminate order is the last thing it ever dequeued
    for w in &pool.workers {
        assert_eq!(w.dequeued.last(), Some(&Message::Terminate));
        let before_last = &w.dequeued[..w.dequeued.len() - 1];
        assert!(before_last
            .iter()
            .all(|m| matches!(m, Message::NewJob(_))));
    }
}

#[test]
fn submit_does_not_block_on_busy_pool() {
    let mut pool = ThreadPool::new(1);
    pool.execute(100);
    assert_eq!(pool.dequeue_step(0), Action::Run(100));
    // the only worker is busy, yet every submission is accepted at once and
    // just lengthens the queue
    for id in 101..150u64 {
        pool.execute(id);
    }
    assert_eq!(pool.queue.len(), 49);
    assert_eq!(pool.workers[0].state, WorkerState::Executing(100));
    assert_eq!(pool.finish_step(0), 100);
    pool.shutdown();
    assert_eq!(pool.executed.len(), 50);
    for id in 100..150u64 {
        assert_eq!(count_in(&pool.executed, id), 1);
    }
}

#[test]
fn end_to_end_markers() {
    let mut pool = ThreadPool::new(2);
    for marker in [11u64, 22, 33, 44] {
        pool.execute(marker);
    }
    pool.shutdown();
    // all four markers were set exactly once, whichever worker served which
    for marker in [11u64, 22, 33, 44] {
        assert_eq!(count_in(&pool.executed, marker), 1);
    }
    assert_eq!(pool.executed.len(), 4);
}

#[test]
fn duplicate_job_ids_counted() {
    let mut pool = ThreadPool::new(2);
    pool.execute(5);
    pool.execute(5);
    pool.shutdown();
    assert_eq!(pool.executed, vec![5, 5]);
}

#[test]
fn single_worker_pool_shutdown() {
    let mut pool = ThreadPool::new(1);
    pool.shutdown();
    assert!(pool.executed.is_empty());
    assert_eq!(pool.workers[0].state, WorkerState::Terminated);
    assert!(!pool.workers[0].has_handle);
    assert_eq!(pool.workers[0].dequeued, vec![Message::Terminate]);
}

#[test]
fn manual_teardown_phases() {
    let mut pool = ThreadPool::new(3);
    pool.execute(8);
    pool.send_terminates();
    assert!(pool.terminating);
    assert_eq!(pool.queue.len(), 4);
    pool.drain();
    assert!(pool.queue.is_empty());
    assert_eq!(pool.executed, vec![8]);
    for i in 0..3 {
        assert_eq!(pool.workers[i].state, WorkerState::Terminated);
        assert!(pool.workers[i].has_handle);
        pool.join_worker(i);
        assert!(!pool.workers[i].has_handle);
    }
}

#[test]
fn find_reports_worker_states() {
    let mut pool = ThreadPool::new(2);
    assert_eq!(pool.find_idle(), Some(0));
    assert_eq!(pool.find_executing(), None);
    pool.execute(1);
    assert_eq!(pool.dequeue_step(0), Action::Run(1));
    assert_eq!(pool.find_executing(), Some(0));
    assert_eq!(pool.find_idle(), Some(1));
}

#[test]
fn worker_state_machine() {
    let mut w = Worker::new(4);
    assert_eq!(w.id, 4);
    assert_eq!(w.state, WorkerState::Idle);
    assert_eq!(w.receive(Message::NewJob(17)), Action::Run(17));
    assert_eq!(w.state, WorkerState::Executing(17));
    assert_eq!(w.finish(), 17);
    assert_eq!(w.state, WorkerState::Idle);
    assert_eq!(w.receive(Message::Terminate), Action::Exit);
    assert_eq!(w.state, WorkerState::Terminated);
    assert_eq!(w.dequeued, vec![Message::NewJob(17), Message::Terminate]);
    assert!(w.has_handle);
    w.take_handle();
    assert!(!w.has_handle);
}
