use final_project::thread_pool::{Message, ThreadPool, WorkerPhase};
use std::sync::{Arc, Mutex};

type Job = Box<dyn FnOnce() + Send + 'static>;

/// Lets the workers act in turn, lowest number first, until none can act.
fn drive(pool: &mut ThreadPool<Job>) {
    loop {
        let mut acted = false;
        for worker in 0..pool.workers_started() {
            match pool.claim(worker) {
                Some(Message::NewJob(job)) => {
                    job();
                    assert!(pool.finish(worker));
                    acted = true;
                }
                Some(Message::Terminate) => acted = true,
                None => {}
            }
        }
        if !acted {
            break;
        }
    }
}

#[test]
fn pool_runs_all_jobs() {
    let mut pool: ThreadPool<Job> = ThreadPool::new(4);
    let counter = Arc::new(Mutex::new(0usize));

    for _ in 0..10 {
        let counter = Arc::clone(&counter);
        pool.execute(Box::new(move || {
            let mut c = counter.lock().unwrap();
            *c += 1;
        }));
    }

    pool.shutdown();
    drive(&mut pool);
    assert_eq!(*counter.lock().unwrap(), 10);
    assert_eq!(pool.live_workers(), 0);
    assert_eq!(pool.queue_len(), 0);
}

#[test]
fn pool_resize_up_and_down() {
    let mut pool: ThreadPool<Job> = ThreadPool::new(2);
    pool.resize(6);
    assert_eq!(pool.worker_count(), 6);
    pool.resize(3);
    assert_eq!(pool.worker_count(), 3);
}

#[test]
fn new_pool_has_idle_workers_and_an_empty_queue() {
    let pool: ThreadPool<u32> = ThreadPool::new(3);
    assert_eq!(pool.worker_count(), 3);
    assert_eq!(pool.workers_started(), 3);
    assert_eq!(pool.live_workers(), 3);
    assert_eq!(pool.queue_len(), 0);
    assert!(pool.settled());
    for worker in 0..3 {
        assert_eq!(pool.phase(worker), Some(WorkerPhase::Idle));
    }
    assert_eq!(pool.phase(3), None);
}

#[test]
fn jobs_are_claimed_in_the_order_of_submission() {
    let mut pool: ThreadPool<u32> = ThreadPool::new(2);
    for job in [7, 5, 9] {
        pool.execute(job);
    }
    assert_eq!(pool.queue_len(), 3);
    assert!(matches!(pool.claim(1), Some(Message::NewJob(7))));
    assert_eq!(pool.phase(1), Some(WorkerPhase::Busy));
    assert!(matches!(pool.claim(0), Some(Message::NewJob(5))));
    // A busy worker cannot claim: the queue keeps its message.
    assert!(pool.claim(1).is_none());
    assert_eq!(pool.queue_len(), 1);
    assert!(pool.finish(1));
    assert_eq!(pool.phase(1), Some(WorkerPhase::Idle));
    assert!(matches!(pool.claim(1), Some(Message::NewJob(9))));
    assert!(pool.claim(0).is_none());
    assert_eq!(pool.queue_len(), 0);
}

#[test]
fn claim_and_finish_refuse_what_cannot_happen() {
    let mut pool: ThreadPool<u32> = ThreadPool::new(1);
    // Nothing queued.
    assert!(pool.claim(0).is_none());
    // No such worker.
    pool.execute(1);
    assert!(pool.claim(5).is_none());
    assert_eq!(pool.queue_len(), 1);
    // An idle worker has nothing to finish.
    assert!(!pool.finish(0));
    assert!(!pool.finish(5));
    assert!(matches!(pool.claim(0), Some(Message::NewJob(1))));
    assert!(pool.finish(0));
    assert!(!pool.finish(0));
}

#[test]
fn growing_adds_workers_numbered_after_the_old_ones() {
    let mut pool: ThreadPool<u32> = ThreadPool::new(2);
    pool.resize(5);
    assert_eq!(pool.workers_started(), 5);
    assert_eq!(pool.live_workers(), 5);
    assert_eq!(pool.queue_len(), 0);
    assert!(pool.settled());
    assert_eq!(pool.phase(4), Some(WorkerPhase::Idle));
}

#[test]
fn shrinking_queues_one_terminate_per_worker_too_many() {
    let mut pool: ThreadPool<u32> = ThreadPool::new(6);
    pool.execute(1);
    pool.resize(3);
    assert_eq!(pool.worker_count(), 3);
    assert_eq!(pool.queue_len(), 4);
    assert_eq!(pool.live_workers(), 6);
    assert!(!pool.settled());
    // The job queued before the resize comes first.
    assert!(matches!(pool.claim(2), Some(Message::NewJob(1))));
    // Whichever idle workers ask end; here 5, 0 and 3.
    for worker in [5, 0, 3] {
        assert!(matches!(pool.claim(worker), Some(Message::Terminate)));
        assert_eq!(pool.phase(worker), Some(WorkerPhase::Exited));
    }
    assert_eq!(pool.live_workers(), 3);
    assert!(pool.settled());
    // A worker that has ended claims nothing more.
    pool.execute(2);
    assert!(pool.claim(5).is_none());
    assert!(matches!(pool.claim(1), Some(Message::NewJob(2))));
}

#[test]
fn resize_to_the_same_size_changes_nothing() {
    let mut pool: ThreadPool<u32> = ThreadPool::new(3);
    pool.resize(3);
    assert_eq!(pool.worker_count(), 3);
    assert_eq!(pool.workers_started(), 3);
    assert_eq!(pool.queue_len(), 0);
}

#[test]
fn any_sequence_of_resizes_ends_at_the_last_size() {
    let mut pool: ThreadPool<Job> = ThreadPool::new(1);
    for size in [4, 2, 7, 7, 1, 3] {
        pool.resize(size);
        assert_eq!(pool.worker_count(), size);
        drive(&mut pool);
        assert_eq!(pool.live_workers(), size);
        assert!(pool.settled());
    }
}

#[test]
fn shutdown_drains_jobs_queued_before_it() {
    let mut pool: ThreadPool<u32> = ThreadPool::new(2);
    for job in 0..5 {
        pool.execute(job);
    }
    pool.shutdown();
    assert_eq!(pool.worker_count(), 0);
    assert_eq!(pool.queue_len(), 7);
    // One worker does all the work; the other only ends.
    let mut ran = Vec::new();
    loop {
        match pool.claim(1) {
            Some(Message::NewJob(job)) => {
                ran.push(job);
                assert!(pool.finish(1));
            }
            Some(Message::Terminate) => break,
            None => panic!("the queue ran dry before the worker was told to end"),
        }
    }
    assert_eq!(ran, vec![0, 1, 2, 3, 4]);
    assert_eq!(pool.live_workers(), 1);
    assert!(matches!(pool.claim(0), Some(Message::Terminate)));
    assert_eq!(pool.live_workers(), 0);
    assert_eq!(pool.queue_len(), 0);
}

#[test]
fn shutdown_twice_is_a_no_op() {
    let mut pool: ThreadPool<Job> = ThreadPool::new(3);
    pool.shutdown();
    assert_eq!(pool.queue_len(), 3);
    drive(&mut pool);
    assert_eq!(pool.live_workers(), 0);
    pool.shutdown();
    assert_eq!(pool.queue_len(), 0);
    assert_eq!(pool.worker_count(), 0);
    assert_eq!(pool.workers_started(), 3);
}

#[test]
fn every_job_runs_once_under_an_interleaved_schedule() {
    let mut pool: ThreadPool<usize> = ThreadPool::new(3);
    let mut runs = vec![0usize; 8];
    let mut held: Vec<Option<usize>> = vec![None; 3];
    for job in 0..8 {
        pool.execute(job);
        // After each submission one worker acts: it finishes what it holds,
        // or claims.
        let worker = (job * 2) % 3;
        match held[worker].take() {
            Some(done) => {
                runs[done] += 1;
                assert!(pool.finish(worker));
            }
            None => {
                if let Some(Message::NewJob(claimed)) = pool.claim(worker) {
                    held[worker] = Some(claimed);
                }
            }
        }
    }
    pool.shutdown();
    while pool.live_workers() > 0 {
        for worker in (0..3).rev() {
            match held[worker].take() {
                Some(done) => {
                    runs[done] += 1;
                    assert!(pool.finish(worker));
                }
                None => {
                    if let Some(Message::NewJob(claimed)) = pool.claim(worker) {
                        held[worker] = Some(claimed);
                    }
                }
            }
        }
    }
    assert_eq!(runs, vec![1; 8]);
    assert_eq!(pool.queue_len(), 0);
}
