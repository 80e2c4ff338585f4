use final_project::analyzer::{FileAnalysis, FileStats, ProcessingError};
use final_project::dispatcher::{Dispatch, Dispatcher, Task};
use final_project::results::{ResultCollector, Totals};
use final_project::status::Status;
use final_project::thread_pool::WorkerPhase;
use std::collections::HashMap;
use std::time::Duration;

const STATES: [Status; 5] =
    [Status::Queued, Status::Running, Status::Done, Status::Error, Status::Canceled];

fn files(n: usize) -> Vec<String> {
    (0..n).map(|i| format!("/data/file{}.txt", i)).collect()
}

fn record(path: &str, words: usize, lines: usize, bytes: u64, errors: usize) -> FileAnalysis {
    FileAnalysis {
        filename: path.rsplit('/').next().unwrap().to_string(),
        full_path: path.to_string(),
        stats: FileStats {
            word_count: words,
            line_count: lines,
            char_frequencies: HashMap::new(),
            size_bytes: bytes,
        },
        errors: (0..errors).map(|i| ProcessingError::IoError(format!("failure {}", i))).collect(),
        processing_time: Duration::from_millis(1),
    }
}

fn record_for(run: &Dispatcher, id: usize, errors: usize) -> FileAnalysis {
    record(run.path(id).unwrap(), 10 * (id + 1), id + 1, 100, errors)
}

fn states(run: &Dispatcher) -> Vec<Status> {
    (0..run.total()).map(|id| run.registry().get(id).unwrap()).collect()
}

fn assert_counts_add_up(run: &Dispatcher) {
    let sum: usize = STATES.iter().map(|s| run.registry().count(*s)).sum();
    assert_eq!(sum, run.total());
}

/// Lets the workers act in turn until the run is over: each hands in what it
/// holds, or asks for work.
fn drain(run: &mut Dispatcher, failing: &[usize]) {
    while !run.finished() {
        for worker in 0..run.pool().workers_started() {
            if let Some(id) = run.holding(worker) {
                let errors = if failing.contains(&id) { 1 } else { 0 };
                let rec = record_for(run, id, errors);
                assert!(run.complete(worker, rec).is_some());
            } else {
                run.claim(worker);
            }
            assert_counts_add_up(run);
        }
    }
}

#[test]
fn fresh_run_has_every_item_queued() {
    let run = Dispatcher::new(files(3), 2);
    assert_eq!(run.total(), 3);
    assert_eq!(run.submitted(), 0);
    assert!(!run.is_canceled());
    assert!(!run.is_closed());
    assert!(!run.finished());
    assert_eq!(states(&run), vec![Status::Queued; 3]);
    assert_eq!(run.path(1).map(|p| p.as_str()), Some("/data/file1.txt"));
    assert_eq!(run.path(3), None);
    assert_eq!(run.pool().worker_count(), 2);
    assert_eq!(run.results().len(), 0);
    assert_eq!(run.holding(0), None);
}

#[test]
fn run_without_cancellation_analyzes_every_file() {
    let mut run = Dispatcher::new(files(5), 2);
    for id in 0..5 {
        assert_eq!(run.dispatch(), Dispatch::Submitted(id));
    }
    assert_eq!(run.submitted(), 5);
    assert_eq!(run.dispatch(), Dispatch::Exhausted);
    assert!(run.is_closed());
    assert_eq!(run.dispatch(), Dispatch::Closed);
    drain(&mut run, &[1, 4]);
    assert_eq!(
        states(&run),
        vec![Status::Done, Status::Error, Status::Done, Status::Done, Status::Error]
    );
    let summary = run.summary();
    assert_eq!(summary.done, 3);
    assert_eq!(summary.error, 2);
    assert_eq!(summary.canceled, 0);
    assert_eq!(
        summary.totals,
        Totals { records: 5, words: 150, lines: 15, bytes: 500, errors: 2 }
    );
    assert_eq!(run.pool().live_workers(), 0);
    assert_eq!(run.pool().queue_len(), 0);
}

#[test]
fn workers_run_while_the_dispatcher_submits() {
    let mut run = Dispatcher::new(files(4), 2);
    assert_eq!(run.dispatch(), Dispatch::Submitted(0));
    assert_eq!(run.claim(1), Task::Analyze(0));
    assert_eq!(run.holding(1), Some(0));
    assert_eq!(run.registry().get(0), Some(Status::Running));
    assert_eq!(run.pool().phase(1), Some(WorkerPhase::Busy));
    // Nothing queued for the other worker yet.
    assert_eq!(run.claim(0), Task::Wait);
    assert_eq!(run.dispatch(), Dispatch::Submitted(1));
    assert_eq!(run.dispatch(), Dispatch::Submitted(2));
    // A worker that holds an item gets no other.
    assert_eq!(run.claim(1), Task::Wait);
    assert_eq!(run.claim(0), Task::Analyze(1));
    let rec = record_for(&run, 0, 0);
    assert_eq!(run.complete(1, rec), Some(1));
    assert_eq!(run.registry().get(0), Some(Status::Done));
    assert_eq!(run.holding(1), None);
    let rec = record_for(&run, 1, 2);
    assert_eq!(run.complete(0, rec), Some(2));
    assert_eq!(run.registry().get(1), Some(Status::Error));
    assert_eq!(run.dispatch(), Dispatch::Submitted(3));
    assert_eq!(run.dispatch(), Dispatch::Exhausted);
    drain(&mut run, &[]);
    assert_eq!(
        states(&run),
        vec![Status::Done, Status::Error, Status::Done, Status::Done]
    );
    assert_eq!(run.results().len(), 4);
    assert_eq!(run.results().get(0).unwrap().full_path, "/data/file0.txt");
    assert_eq!(run.results().get(1).unwrap().errors.len(), 2);
    assert!(run.results().get(4).is_none());
}

#[test]
fn cancel_before_any_submission_runs_nothing() {
    let mut run = Dispatcher::new(files(4), 3);
    run.cancel();
    assert!(run.is_canceled());
    assert_eq!(run.dispatch(), Dispatch::Canceled(4));
    assert_eq!(run.submitted(), 0);
    assert_eq!(states(&run), vec![Status::Canceled; 4]);
    let mut tasks = Vec::new();
    while !run.finished() {
        for worker in 0..3 {
            tasks.push(run.claim(worker));
        }
    }
    assert_eq!(tasks, vec![Task::Exit; 3]);
    assert_eq!(run.results().len(), 0);
    let summary = run.summary();
    assert_eq!((summary.done, summary.error, summary.canceled), (0, 0, 4));
    assert_eq!(summary.totals, Totals { records: 0, words: 0, lines: 0, bytes: 0, errors: 0 });
}

#[test]
fn cancel_after_some_submissions() {
    let mut run = Dispatcher::new(files(6), 2);
    for id in 0..4 {
        assert_eq!(run.dispatch(), Dispatch::Submitted(id));
    }
    assert_eq!(run.claim(0), Task::Analyze(0));
    let rec = record_for(&run, 0, 0);
    assert_eq!(run.complete(0, rec), Some(1));
    assert_eq!(run.claim(1), Task::Analyze(1));
    // Item 1 is running when cancellation is requested.
    run.cancel();
    // Items 2 and 3 are queued in the pool, 4 and 5 were never submitted.
    assert_eq!(run.dispatch(), Dispatch::Canceled(4));
    assert_eq!(run.submitted(), 4);
    assert_eq!(
        states(&run),
        vec![
            Status::Done,
            Status::Running,
            Status::Canceled,
            Status::Canceled,
            Status::Canceled,
            Status::Canceled
        ]
    );
    // A claimed item is skipped once cancellation is seen.
    assert_eq!(run.claim(0), Task::Skipped(2));
    assert_eq!(run.holding(0), None);
    assert_eq!(run.pool().phase(0), Some(WorkerPhase::Idle));
    assert_eq!(run.claim(0), Task::Skipped(3));
    assert_eq!(run.claim(0), Task::Exit);
    assert!(!run.finished());
    // The running item runs to its end; it is never canceled.
    let rec = record_for(&run, 1, 1);
    assert_eq!(run.complete(1, rec), Some(6));
    assert_eq!(run.registry().get(1), Some(Status::Error));
    assert_eq!(run.claim(1), Task::Exit);
    assert!(run.finished());
    let summary = run.summary();
    assert_eq!((summary.done, summary.error, summary.canceled), (1, 1, 4));
    assert_eq!(summary.totals.records, 2);
    assert_counts_add_up(&run);
}

#[test]
fn cancel_seen_by_a_worker_before_the_dispatcher() {
    let mut run = Dispatcher::new(files(3), 1);
    assert_eq!(run.dispatch(), Dispatch::Submitted(0));
    assert_eq!(run.dispatch(), Dispatch::Submitted(1));
    run.cancel();
    assert_eq!(run.claim(0), Task::Skipped(0));
    assert_eq!(run.registry().get(0), Some(Status::Canceled));
    assert_eq!(run.registry().get(1), Some(Status::Queued));
    assert_eq!(run.dispatch(), Dispatch::Canceled(2));
    assert_eq!(run.claim(0), Task::Skipped(1));
    assert_eq!(run.claim(0), Task::Exit);
    assert!(run.finished());
    assert_eq!(states(&run), vec![Status::Canceled; 3]);
}

#[test]
fn cancel_after_the_last_submission_cancels_what_is_queued() {
    let mut run = Dispatcher::new(files(2), 1);
    assert_eq!(run.dispatch(), Dispatch::Submitted(0));
    assert_eq!(run.dispatch(), Dispatch::Submitted(1));
    assert_eq!(run.claim(0), Task::Analyze(0));
    run.cancel();
    // Every item was submitted: the dispatcher closes without a sweep.
    assert_eq!(run.dispatch(), Dispatch::Exhausted);
    assert_eq!(run.registry().get(1), Some(Status::Queued));
    let rec = record_for(&run, 0, 0);
    assert_eq!(run.complete(0, rec), Some(1));
    assert_eq!(run.claim(0), Task::Skipped(1));
    assert_eq!(run.claim(0), Task::Exit);
    assert!(run.finished());
    assert_eq!(states(&run), vec![Status::Done, Status::Canceled]);
}

#[test]
fn run_without_files_closes_at_once() {
    let mut run = Dispatcher::new(Vec::new(), 2);
    assert_eq!(run.total(), 0);
    assert_eq!(run.dispatch(), Dispatch::Exhausted);
    drain(&mut run, &[]);
    assert!(run.finished());
    let summary = run.summary();
    assert_eq!((summary.done, summary.error, summary.canceled), (0, 0, 0));
}

#[test]
fn complete_is_refused_for_a_worker_without_an_item() {
    let mut run = Dispatcher::new(files(1), 2);
    let rec = record("/x", 1, 1, 1, 0);
    assert_eq!(run.complete(0, rec), None);
    let rec = record("/x", 1, 1, 1, 0);
    assert_eq!(run.complete(7, rec), None);
    assert_eq!(run.results().len(), 0);
    assert_eq!(run.registry().get(0), Some(Status::Queued));
    assert_eq!(run.claim(7), Task::Wait);
}

#[test]
fn resize_after_construction() {
    let mut run = Dispatcher::new(files(3), 2);
    run.resize(4);
    assert_eq!(run.pool().worker_count(), 4);
    assert_eq!(run.pool().workers_started(), 4);
    assert_eq!(run.holding(3), None);
    run.resize(1);
    assert_eq!(run.pool().worker_count(), 1);
    assert_eq!(run.pool().queue_len(), 3);
    for id in 0..3 {
        assert_eq!(run.dispatch(), Dispatch::Submitted(id));
    }
    assert_eq!(run.dispatch(), Dispatch::Exhausted);
    // Three workers end on the terminates of the resize; the last one does
    // all the work.
    assert_eq!(run.claim(0), Task::Exit);
    assert_eq!(run.claim(1), Task::Exit);
    assert_eq!(run.claim(3), Task::Exit);
    assert_eq!(run.pool().live_workers(), 1);
    drain(&mut run, &[]);
    assert_eq!(states(&run), vec![Status::Done; 3]);
    // A closed run is not resized.
    run.resize(5);
    assert_eq!(run.pool().worker_count(), 0);
    assert_eq!(run.pool().workers_started(), 4);
}

#[test]
fn collector_keeps_records_in_the_order_handed_in() {
    let mut collector = ResultCollector::new();
    assert_eq!(collector.len(), 0);
    assert!(collector.get(0).is_none());
    collector.push(record("/b", 3, 1, 10, 0));
    collector.push(record("/a", 4, 2, 20, 3));
    assert_eq!(collector.len(), 2);
    assert_eq!(collector.get(0).unwrap().full_path, "/b");
    assert_eq!(collector.get(1).unwrap().full_path, "/a");
    assert_eq!(
        collector.totals(),
        Totals { records: 2, words: 7, lines: 3, bytes: 30, errors: 3 }
    );
}

#[test]
fn totals_do_not_overflow() {
    let mut collector = ResultCollector::new();
    collector.push(record("/a", usize::MAX, usize::MAX, u64::MAX, 0));
    collector.push(record("/b", usize::MAX, 1, u64::MAX, 0));
    let totals = collector.totals();
    assert_eq!(totals.words, 2 * (usize::MAX as u128));
    assert_eq!(totals.lines, usize::MAX as u128 + 1);
    assert_eq!(totals.bytes, 2 * (u64::MAX as u128));
}
