//! The run: one job per discovered file, submitted to the pool until the
//! files are exhausted or cancellation is seen, then a shutdown that drains.
//!
//! The run is a state machine over the registry, the pool, the collector and
//! the token. The threads of the caller drive it: the dispatching thread
//! calls `dispatch` until it reports the end, a worker thread calls `claim`,
//! analyzes the file it is given outside the lock, and hands the record to
//! `complete`; whoever listens for the cancellation request calls `cancel`.

use crate::analyzer::FileAnalysis;
use crate::cancel::CancellationToken;
use crate::counting::{count, lemma_count_full, lemma_count_le_len, lemma_count_zero};
use crate::results::{bytes_of, errors_of, lines_of, total, words_of, ResultCollector, Totals};
use crate::status::{
    advanced, in_state, in_terminal_state, lemma_advanced_count, lemma_states_partition,
    lemma_sweep_keeps_count, lemma_terminal_is_done_error_canceled, swept_all, Status,
    StatusRegistry,
};
use crate::thread_pool::{
    in_phase, jobs_of, lemma_jobs_of_drop_first, Message, PoolEvent, PoolView, ThreadPool,
    WorkerPhase,
};
use vstd::prelude::*;

verus! {

/// The numbers of the first `n` items, in order.
pub open spec fn item_numbers(n: nat) -> Seq<usize> {
    Seq::new(n, |i: int| i as usize)
}

/// `n` workers that hold no item.
pub open spec fn unassigned(n: nat) -> Seq<Option<usize>> {
    Seq::new(n, |i: int| None::<usize>)
}

/// The state in which an analysis leaves its item: `Done` without errors,
/// `Error` with any.
pub open spec fn outcome(record: FileAnalysis) -> Status {
    if record.errors@.len() == 0 {
        Status::Done
    } else {
        Status::Error
    }
}

/// The state of a run.
pub struct RunView {
    /// The path of each item.
    pub paths: Seq<String>,
    /// The lifecycle state of each item.
    pub states: Seq<Status>,
    /// The pool; its jobs are item numbers.
    pub pool: PoolView<usize>,
    /// The item each worker is analyzing, by the worker's number.
    pub assigned: Seq<Option<usize>>,
    /// The number of items submitted so far: the next to submit.
    pub cursor: nat,
    /// Whether submission has ended and the pool has been shut down.
    pub closed: bool,
    /// Whether cancellation has been requested.
    pub canceled: bool,
    /// The records handed in so far.
    pub records: Seq<FileAnalysis>,
}

/// What can happen in a run.
pub enum RunEvent {
    /// Cancellation is requested.
    Cancel,
    /// The dispatching thread takes its next step.
    Dispatch,
    /// The number of workers is set.
    Resize(nat),
    /// The worker of this number takes the next message.
    Claim(int),
    /// The worker of this number hands in the record of its item.
    Complete(int, FileAnalysis),
}

impl RunView {
    /// A run over `paths` with `workers` workers, before anything happened.
    pub open spec fn fresh(paths: Seq<String>, workers: nat) -> RunView {
        RunView {
            paths,
            states: Seq::new(paths.len(), |i: int| Status::Queued),
            pool: PoolView::fresh(workers),
            assigned: unassigned(workers),
            cursor: 0,
            closed: false,
            canceled: false,
            records: Seq::empty(),
        }
    }

    /// The number of items.
    pub open spec fn total(self) -> nat {
        self.states.len()
    }

    /// Whether the run was ended by cancellation: closed with items left
    /// unsubmitted.
    pub open spec fn cut_short(self) -> bool {
        self.closed && self.cursor < self.total()
    }

    /// Whether the run is over: submission has ended and every worker has
    /// ended.
    pub open spec fn finished(self) -> bool {
        self.closed && self.pool.stopped()
    }

    /// Whether worker `w` is analyzing item `id`.
    pub open spec fn holds(self, w: int, id: int) -> bool {
        0 <= w < self.assigned.len() && self.assigned[w] == Some(id as usize) && 0 <= id
            <= usize::MAX
    }

    /// The run after cancellation is requested.
    pub open spec fn cancel(self) -> RunView {
        RunView { canceled: true, ..self }
    }

    /// The run after the dispatching thread's next step. With every item
    /// submitted it closes the run. Else, with cancellation requested, it
    /// cancels every item still queued and closes the run. Else it submits
    /// the next item. Closing shuts the pool down. A closed run stays as it
    /// is.
    pub open spec fn dispatch(self) -> RunView {
        if self.closed {
            self
        } else if self.cursor >= self.total() {
            RunView { closed: true, pool: self.pool.shutdown(), ..self }
        } else if self.canceled {
            RunView {
                closed: true,
                states: swept_all(self.states),
                pool: self.pool.shutdown(),
                ..self
            }
        } else {
            RunView {
                pool: self.pool.execute(self.cursor as usize),
                cursor: self.cursor + 1,
                ..self
            }
        }
    }

    /// The run after the number of workers is set to `n`. A closed run, and a
    /// size of zero, change nothing.
    pub open spec fn resize(self, n: nat) -> RunView {
        if self.closed || n == 0 {
            self
        } else {
            let pool = self.pool.resize(n);
            let added = if pool.workers.len() >= self.assigned.len() {
                (pool.workers.len() - self.assigned.len()) as nat
            } else {
                0nat
            };
            RunView { pool, assigned: self.assigned + unassigned(added), ..self }
        }
    }

    /// The run after worker `w` takes the oldest message, if it can. With a
    /// `Terminate` the worker ends. With an item and cancellation requested,
    /// the item is canceled and the worker waits again. With an item
    /// otherwise, the item is running and the worker holds it.
    pub open spec fn claim(self, w: int) -> RunView {
        if !self.pool.can_claim(w) {
            self
        } else {
            match self.pool.queue[0] {
                Message::Terminate => RunView { pool: self.pool.claim(w), ..self },
                Message::NewJob(id) => if self.canceled {
                    RunView {
                        pool: self.pool.claim(w).finish(w),
                        states: advanced(self.states, id as int, Status::Canceled),
                        ..self
                    }
                } else {
                    RunView {
                        pool: self.pool.claim(w),
                        states: advanced(self.states, id as int, Status::Running),
                        assigned: if w < self.assigned.len() {
                            self.assigned.update(w, Some(id))
                        } else {
                            self.assigned
                        },
                        ..self
                    }
                },
            }
        }
    }

    /// Whether worker `w` can hand in a record: it is running a job and
    /// holds an item.
    pub open spec fn can_complete(self, w: int) -> bool {
        self.pool.can_finish(w) && w < self.assigned.len() && self.assigned[w] is Some
    }

    /// Whether worker `w` can do anything: claim a message or hand in a
    /// record.
    pub open spec fn can_act(self, w: int) -> bool {
        self.pool.can_claim(w) || self.can_complete(w)
    }

    /// The run after worker `w` hands in `record`, if it can: the record is
    /// collected, the item is `Done` or `Error`, and the worker waits again.
    pub open spec fn complete(self, w: int, record: FileAnalysis) -> RunView {
        if !self.can_complete(w) {
            self
        } else {
            RunView {
                pool: self.pool.finish(w),
                states: advanced(self.states, self.assigned[w]->0 as int, outcome(record)),
                assigned: self.assigned.update(w, None),
                records: self.records.push(record),
                ..self
            }
        }
    }

    /// The run after one event.
    pub open spec fn step(self, event: RunEvent) -> RunView {
        match event {
            RunEvent::Cancel => self.cancel(),
            RunEvent::Dispatch => self.dispatch(),
            RunEvent::Resize(n) => self.resize(n),
            RunEvent::Claim(w) => self.claim(w),
            RunEvent::Complete(w, record) => self.complete(w, record),
        }
    }

    /// The run after a sequence of events.
    pub open spec fn run(self, events: Seq<RunEvent>) -> RunView
        decreases events.len(),
    {
        if events.len() == 0 {
            self
        } else {
            self.run(events.drop_last()).step(events.last())
        }
    }

    /// What holds of every run.
    pub open spec fn wf(self) -> bool {
        &&& self.paths.len() == self.states.len()
        &&& self.total() <= usize::MAX
        &&& self.cursor <= self.total()
        &&& self.pool.wf()
        &&& self.pool.covered()
        &&& self.pool.submitted() == item_numbers(self.cursor)
        &&& (self.closed <==> self.pool.size == 0)
        &&& (self.cut_short() ==> self.canceled)
        &&& self.assigned.len() == self.pool.workers.len()
        &&& self.workers_hold_what_runs()
        &&& self.unclaimed_items_wait()
        &&& self.canceled_on_request()
        &&& self.records.len() == count(self.states, in_state(Status::Done)) + count(
            self.states,
            in_state(Status::Error),
        )
    }

    /// The busy workers are those that hold an item; the items held are
    /// claimed, running, and held by one worker each; and every running item
    /// is held.
    pub open spec fn workers_hold_what_runs(self) -> bool {
        &&& forall|w: int|
            0 <= w < self.assigned.len() ==> ((#[trigger] self.assigned[w]) is Some
                <==> self.pool.workers[w] is Busy)
        &&& forall|w: int, id: int| #[trigger]
            self.holds(w, id) ==> id < self.pool.claimed.len() && id < self.total()
                && self.states[id] is Running
        &&& forall|v: int, w: int, id: int| #[trigger]
            self.holds(v, id) && #[trigger] self.holds(w, id) ==> v == w
        &&& forall|id: int|
            0 <= id < self.total() && (#[trigger] self.states[id]) is Running ==> exists|w: int|
                self.holds(w, id)
    }

    /// No item is `Canceled` unless cancellation was requested.
    pub open spec fn canceled_on_request(self) -> bool {
        !self.canceled ==> forall|id: int|
            0 <= id < self.total() ==> !((#[trigger] self.states[id]) is Canceled)
    }

    /// An item that no worker has claimed is `Queued`, or `Canceled` once the
    /// run was cut short; an item that was claimed is no longer `Queued`.
    pub open spec fn unclaimed_items_wait(self) -> bool {
        &&& forall|id: int|
            self.pool.claimed.len() <= id < self.total() ==> #[trigger] self.states[id] == if self.cut_short() {
                Status::Canceled
            } else {
                Status::Queued
            }
        &&& forall|id: int|
            0 <= id < self.pool.claimed.len() && id < self.total() ==> !((
            #[trigger] self.states[id]) is Queued)
    }
}

impl RunView {
    /// A fresh run is well formed.
    pub proof fn lemma_fresh_wf(paths: Seq<String>, workers: nat)
        requires
            workers > 0,
            paths.len() <= usize::MAX,
        ensures
            Self::fresh(paths, workers).wf(),
    {
        let run = Self::fresh(paths, workers);
        PoolView::<usize>::lemma_fresh_wf(workers);
        assert(run.pool.submitted() =~= item_numbers(0));
        lemma_count_zero(run.states, in_state(Status::Done));
        lemma_count_zero(run.states, in_state(Status::Error));
    }

    /// The oldest message of a well-formed run, if it is an item, is the
    /// first item not yet claimed, and it has been submitted.
    pub proof fn lemma_next_item(self)
        requires
            self.wf(),
            self.pool.queue.len() > 0,
            self.pool.queue[0] is NewJob,
        ensures
            self.pool.queue[0]->NewJob_0 == self.pool.claimed.len(),
            self.pool.claimed.len() < self.cursor,
    {
        lemma_jobs_of_drop_first(self.pool.queue);
        let id = self.pool.queue[0]->NewJob_0;
        let at = self.pool.claimed.len() as int;
        assert(jobs_of(self.pool.queue)[0] == id);
        assert(self.pool.submitted().len() == at + jobs_of(self.pool.queue).len());
        assert(item_numbers(self.cursor).len() == self.cursor);
        assert(at < self.cursor);
        assert(self.pool.submitted()[at] == id);
        assert(item_numbers(self.cursor)[at] == at as usize);
    }

    /// The claimed items of a well-formed run have been submitted.
    pub proof fn lemma_claimed_le_cursor(self)
        requires
            self.wf(),
        ensures
            self.pool.claimed.len() <= self.cursor,
    {
        assert(self.pool.submitted().len() == self.pool.claimed.len() + jobs_of(
            self.pool.queue,
        ).len());
    }

    proof fn lemma_cancel_keeps_wf(self)
        requires
            self.wf(),
        ensures
            self.cancel().wf(),
    {
        let next = self.cancel();
        assert(next.workers_hold_what_runs()) by {
            assert forall|id: int|
                0 <= id < next.total() && (#[trigger] next.states[id]) is Running implies exists|
                w: int,
            |
                next.holds(w, id) by {
                let w = choose|w: int| self.holds(w, id);
                assert(next.holds(w, id));
            }
            assert forall|w: int, id: int| #[trigger] next.holds(w, id) implies id
                < next.pool.claimed.len() && id < next.total() && next.states[id] is Running by {
                assert(self.holds(w, id));
            }
            assert forall|v: int, w: int, id: int| #[trigger]
                next.holds(v, id) && #[trigger] next.holds(w, id) implies v == w by {
                assert(self.holds(v, id) && self.holds(w, id));
            }
        }
    }

    proof fn lemma_resize_keeps_wf(self, n: nat)
        requires
            self.wf(),
        ensures
            self.resize(n).wf(),
    {
        if !self.closed && n > 0 {
            let next = self.resize(n);
            self.pool.lemma_step_keeps_wf(PoolEvent::Resize(n));
            self.pool.lemma_resize_counts(n);
            assert(next.workers_hold_what_runs()) by {
                assert forall|w: int, id: int| #[trigger] next.holds(w, id) implies self.holds(
                    w,
                    id,
                ) by {
                    if w >= self.assigned.len() {
                        assert(next.assigned[w] == None::<usize>);
                    }
                }
                assert forall|w: int, id: int| #[trigger] next.holds(w, id) implies id
                    < next.pool.claimed.len() && id < next.total()
                    && next.states[id] is Running by {
                    assert(self.holds(w, id));
                }
                assert forall|v: int, w: int, id: int| #[trigger]
                    next.holds(v, id) && #[trigger] next.holds(w, id) implies v == w by {
                    assert(self.holds(v, id) && self.holds(w, id));
                }
                assert forall|id: int|
                    0 <= id < next.total() && (
                    #[trigger] next.states[id]) is Running implies exists|w: int|
                    next.holds(w, id) by {
                    let w = choose|w: int| self.holds(w, id);
                    assert(next.holds(w, id));
                }
            }
        }
    }

    proof fn lemma_dispatch_keeps_wf(self)
        requires
            self.wf(),
        ensures
            self.dispatch().wf(),
    {
        let next = self.dispatch();
        if self.closed {
        } else if self.cursor >= self.total() || self.canceled {
            self.pool.lemma_step_keeps_wf(PoolEvent::Shutdown);
            self.pool.lemma_step_keeps_covered(PoolEvent::Shutdown);
            self.pool.lemma_resize_counts(0);
            assert(next.pool.workers == self.pool.workers);
            assert(next.pool.claimed == self.pool.claimed);
            if self.cursor < self.total() {
                lemma_sweep_keeps_count(self.states, Status::Done);
                lemma_sweep_keeps_count(self.states, Status::Error);
                assert(next.states.len() == self.states.len());
                assert forall|id: int| 0 <= id < self.total() implies (next.states[id] is Running
                    <==> self.states[id] is Running) && (self.states[id] is Queued
                    ==> next.states[id] is Canceled) && (!(self.states[id] is Queued)
                    ==> next.states[id] == self.states[id]) by {}
            }
            assert(next.workers_hold_what_runs()) by {
                assert forall|w: int, id: int| #[trigger] next.holds(w, id) implies id
                    < next.pool.claimed.len() && id < next.total()
                    && next.states[id] is Running by {
                    assert(self.holds(w, id));
                }
                assert forall|v: int, w: int, id: int| #[trigger]
                    next.holds(v, id) && #[trigger] next.holds(w, id) implies v == w by {
                    assert(self.holds(v, id) && self.holds(w, id));
                }
                assert forall|id: int|
                    0 <= id < next.total() && (
                    #[trigger] next.states[id]) is Running implies exists|w: int|
                    next.holds(w, id) by {
                    assert(self.states[id] is Running);
                    let w = choose|w: int| self.holds(w, id);
                    assert(next.holds(w, id));
                }
            }
            assert(next.unclaimed_items_wait()) by {
                assert forall|id: int|
                    next.pool.claimed.len() <= id < next.total() implies #[trigger] next.states[id]
                    == if next.cut_short() {
                    Status::Canceled
                } else {
                    Status::Queued
                } by {
                    assert(self.states[id] == Status::Queued);
                }
                assert forall|id: int|
                    0 <= id < next.pool.claimed.len() && id < next.total() implies !((
                #[trigger] next.states[id]) is Queued) by {
                    assert(!(self.states[id] is Queued));
                }
            }
        } else {
            let job = self.cursor as usize;
            self.pool.lemma_step_keeps_wf(PoolEvent::Execute(job));
            self.pool.lemma_step_submitted(PoolEvent::Execute(job));
            assert(item_numbers(self.cursor).push(job) =~= item_numbers(self.cursor + 1));
            assert(next.workers_hold_what_runs()) by {
                assert forall|w: int, id: int| #[trigger] next.holds(w, id) implies id
                    < next.pool.claimed.len() && id < next.total()
                    && next.states[id] is Running by {
                    assert(self.holds(w, id));
                }
                assert forall|v: int, w: int, id: int| #[trigger]
                    next.holds(v, id) && #[trigger] next.holds(w, id) implies v == w by {
                    assert(self.holds(v, id) && self.holds(w, id));
                }
                assert forall|id: int|
                    0 <= id < next.total() && (
                    #[trigger] next.states[id]) is Running implies exists|w: int|
                    next.holds(w, id) by {
                    let w = choose|w: int| self.holds(w, id);
                    assert(next.holds(w, id));
                }
            }
        }
    }
}

impl RunView {
    proof fn lemma_claim_keeps_wf(self, w: int)
        requires
            self.wf(),
        ensures
            self.claim(w).wf(),
    {
        let next = self.claim(w);
        if self.pool.can_claim(w) {
            let taken = self.pool.claim(w);
            self.pool.lemma_step_keeps_wf(PoolEvent::Claim(w));
            self.pool.lemma_step_keeps_covered(PoolEvent::Claim(w));
            self.pool.lemma_step_submitted(PoolEvent::Claim(w));
            assert(self.assigned[w] is None);
            match self.pool.queue[0] {
                Message::Terminate => {
                    assert(next.workers_hold_what_runs()) by {
                        assert forall|v: int, id: int| #[trigger]
                            next.holds(v, id) implies id < next.pool.claimed.len() && id
                            < next.total() && next.states[id] is Running by {
                            assert(self.holds(v, id));
                        }
                        assert forall|u: int, v: int, id: int| #[trigger]
                            next.holds(u, id) && #[trigger] next.holds(v, id) implies u == v by {
                            assert(self.holds(u, id) && self.holds(v, id));
                        }
                        assert forall|id: int|
                            0 <= id < next.total() && (
                            #[trigger] next.states[id]) is Running implies exists|v: int|
                            next.holds(v, id) by {
                            let v = choose|v: int| self.holds(v, id);
                            assert(next.holds(v, id));
                        }
                    }
                },
                Message::NewJob(id) => {
                    self.lemma_next_item();
                    let item = id as int;
                    assert(item == self.pool.claimed.len());
                    assert(item < self.total());
                    lemma_advanced_count(self.states, item, Status::Canceled, Status::Done);
                    lemma_advanced_count(self.states, item, Status::Canceled, Status::Error);
                    lemma_advanced_count(self.states, item, Status::Running, Status::Done);
                    lemma_advanced_count(self.states, item, Status::Running, Status::Error);
                    if self.canceled {
                        taken.lemma_step_keeps_wf(PoolEvent::Finish(w));
                        taken.lemma_step_keeps_covered(PoolEvent::Finish(w));
                        taken.lemma_step_submitted(PoolEvent::Finish(w));
                        assert(next.pool.workers =~= self.pool.workers);
                        assert(next.states[item] is Canceled);
                    } else {
                        assert(!self.cut_short());
                        assert(self.states[item] is Queued);
                        assert(next.states[item] is Running);
                        assert(next.holds(w, item));
                    }
                    assert(next.workers_hold_what_runs()) by {
                        assert forall|v: int, x: int| #[trigger] next.holds(v, x) implies x
                            < next.pool.claimed.len() && x < next.total()
                            && next.states[x] is Running by {
                            if !(v == w && !self.canceled) {
                                assert(self.holds(v, x));
                            }
                        }
                        assert forall|u: int, v: int, x: int| #[trigger]
                            next.holds(u, x) && #[trigger] next.holds(v, x) implies u == v by {
                            if !(u == w && !self.canceled) {
                                assert(self.holds(u, x));
                            }
                            if !(v == w && !self.canceled) {
                                assert(self.holds(v, x));
                            }
                        }
                        assert forall|x: int|
                            0 <= x < next.total() && (
                            #[trigger] next.states[x]) is Running implies exists|v: int|
                            next.holds(v, x) by {
                            if x == item {
                                assert(next.holds(w, x));
                            } else {
                                assert(self.states[x] is Running);
                                let v = choose|v: int| self.holds(v, x);
                                assert(next.holds(v, x));
                            }
                        }
                    }
                    assert(next.unclaimed_items_wait()) by {
                        assert forall|x: int|
                            next.pool.claimed.len() <= x < next.total() implies #[trigger] next.states[x]
                            == if next.cut_short() {
                            Status::Canceled
                        } else {
                            Status::Queued
                        } by {
                            assert(next.states[x] == self.states[x]);
                        }
                        assert forall|x: int|
                            0 <= x < next.pool.claimed.len() && x < next.total() implies !((
                        #[trigger] next.states[x]) is Queued) by {
                            if x != item {
                                assert(next.states[x] == self.states[x]);
                            }
                        }
                    }
                },
            }
        }
    }

    proof fn lemma_complete_keeps_wf(self, w: int, record: FileAnalysis)
        requires
            self.wf(),
        ensures
            self.complete(w, record).wf(),
    {
        let next = self.complete(w, record);
        if self.can_complete(w) {
            let item = self.assigned[w]->0 as int;
            assert(self.holds(w, item));
            self.pool.lemma_step_keeps_wf(PoolEvent::Finish(w));
            self.pool.lemma_step_keeps_covered(PoolEvent::Finish(w));
            self.pool.lemma_step_submitted(PoolEvent::Finish(w));
            lemma_advanced_count(self.states, item, outcome(record), Status::Done);
            lemma_advanced_count(self.states, item, outcome(record), Status::Error);
            assert(next.states[item] == outcome(record));
            assert(next.workers_hold_what_runs()) by {
                assert forall|v: int, x: int| #[trigger] next.holds(v, x) implies x
                    < next.pool.claimed.len() && x < next.total()
                    && next.states[x] is Running by {
                    assert(self.holds(v, x));
                }
                assert forall|u: int, v: int, x: int| #[trigger]
                    next.holds(u, x) && #[trigger] next.holds(v, x) implies u == v by {
                    assert(self.holds(u, x) && self.holds(v, x));
                }
                assert forall|x: int|
                    0 <= x < next.total() && (
                    #[trigger] next.states[x]) is Running implies exists|v: int|
                    next.holds(v, x) by {
                    assert(x != item);
                    assert(self.states[x] is Running);
                    let v = choose|v: int| self.holds(v, x);
                    assert(next.holds(v, x));
                }
            }
            assert(next.unclaimed_items_wait()) by {
                assert forall|x: int|
                    next.pool.claimed.len() <= x < next.total() implies #[trigger] next.states[x]
                    == if next.cut_short() {
                    Status::Canceled
                } else {
                    Status::Queued
                } by {
                    assert(next.states[x] == self.states[x]);
                }
                assert forall|x: int|
                    0 <= x < next.pool.claimed.len() && x < next.total() implies !((
                #[trigger] next.states[x]) is Queued) by {
                    if x != item {
                        assert(next.states[x] == self.states[x]);
                    }
                }
            }
        }
    }

    /// Every event keeps the run well formed.
    pub proof fn lemma_step_keeps_wf(self, event: RunEvent)
        requires
            self.wf(),
        ensures
            self.step(event).wf(),
    {
        match event {
            RunEvent::Cancel => self.lemma_cancel_keeps_wf(),
            RunEvent::Dispatch => self.lemma_dispatch_keeps_wf(),
            RunEvent::Resize(n) => self.lemma_resize_keeps_wf(n),
            RunEvent::Claim(w) => self.lemma_claim_keeps_wf(w),
            RunEvent::Complete(w, record) => self.lemma_complete_keeps_wf(w, record),
        }
    }

    /// Whatever happens to a well-formed run, it stays well formed.
    pub proof fn lemma_run_keeps_wf(self, events: Seq<RunEvent>)
        requires
            self.wf(),
        ensures
            self.run(events).wf(),
        decreases events.len(),
    {
        if events.len() > 0 {
            self.lemma_run_keeps_wf(events.drop_last());
            self.run(events.drop_last()).lemma_step_keeps_wf(events.last());
        }
    }
}

impl RunView {
    /// One event moves each item by a legal step or not at all, neither adds
    /// nor drops an item, and keeps every record where it is.
    pub proof fn lemma_step_lifecycle(self, event: RunEvent)
        ensures
            self.step(event).total() == self.total(),
            self.step(event).paths == self.paths,
            self.records.is_prefix_of(self.step(event).records),
            forall|id: int|
                0 <= id < self.total() ==> self.states[id] == #[trigger] self.step(
                    event,
                ).states[id] || self.states[id].may_become(self.step(event).states[id]),
    {
    }

    /// Through any sequence of events each item moves along its lifecycle:
    /// from `Queued` to `Running` to `Done` or `Error`, or from `Queued` to
    /// `Canceled`. An item that is `Running` is never canceled, and an item in
    /// a final state stays in it. Records are only ever added, behind those
    /// already there.
    pub proof fn lemma_run_lifecycle(self, events: Seq<RunEvent>)
        ensures
            self.run(events).total() == self.total(),
            self.run(events).paths == self.paths,
            self.records.is_prefix_of(self.run(events).records),
            forall|id: int|
                0 <= id < self.total() ==> self.states[id].leads_to(
                    #[trigger] self.run(events).states[id],
                ),
        decreases events.len(),
    {
        if events.len() > 0 {
            let before = self.run(events.drop_last());
            self.lemma_run_lifecycle(events.drop_last());
            before.lemma_step_lifecycle(events.last());
            assert forall|id: int| 0 <= id < self.total() implies self.states[id].leads_to(
                #[trigger] self.run(events).states[id],
            ) by {
                assert(self.states[id].leads_to(before.states[id]));
                assert(before.states[id] == before.step(events.last()).states[id]
                    || before.states[id].may_become(before.step(events.last()).states[id]));
            }
        }
    }

    /// Once cancellation is requested it stays requested, and nothing more is
    /// submitted.
    pub proof fn lemma_run_after_cancel(self, events: Seq<RunEvent>)
        requires
            self.canceled,
        ensures
            self.run(events).canceled,
            self.run(events).cursor == self.cursor,
        decreases events.len(),
    {
        if events.len() > 0 {
            self.lemma_run_after_cancel(events.drop_last());
        }
    }

    /// Without a step of the dispatching thread nothing is submitted.
    pub proof fn lemma_run_without_dispatch(self, events: Seq<RunEvent>)
        requires
            forall|i: int| 0 <= i < events.len() ==> !((#[trigger] events[i]) is Dispatch),
        ensures
            self.run(events).cursor == self.cursor,
        decreases events.len(),
    {
        if events.len() > 0 {
            let earlier = events.drop_last();
            assert forall|i: int| 0 <= i < earlier.len() implies !((
            #[trigger] earlier[i]) is Dispatch) by {
                assert(earlier[i] == events[i]);
            }
            self.lemma_run_without_dispatch(earlier);
            assert(!(events[events.len() - 1] is Dispatch));
        }
    }

    /// The five per-state counts of a run add up to the number of its items,
    /// which is the number of paths it was made for.
    pub proof fn lemma_counts_sum_to_total(self)
        requires
            self.wf(),
        ensures
            count(self.states, in_state(Status::Queued)) + count(
                self.states,
                in_state(Status::Running),
            ) + count(self.states, in_state(Status::Done)) + count(
                self.states,
                in_state(Status::Error),
            ) + count(self.states, in_state(Status::Canceled)) == self.paths.len(),
    {
        lemma_states_partition(self.states);
    }

    /// While nothing has been submitted, no item has run: each is `Queued` or
    /// `Canceled`, and there is no record.
    pub proof fn lemma_nothing_submitted_nothing_run(self)
        requires
            self.wf(),
            self.cursor == 0,
        ensures
            self.pool.claimed.len() == 0,
            self.records.len() == 0,
            forall|id: int|
                0 <= id < self.total() ==> (#[trigger] self.states[id]) is Queued
                    || self.states[id] is Canceled,
    {
        self.lemma_claimed_le_cursor();
        lemma_count_le_len(self.states, in_state(Status::Done));
        lemma_count_le_len(self.states, in_state(Status::Error));
        assert forall|id: int| 0 <= id < self.total() implies (
        #[trigger] self.states[id]) is Queued || self.states[id] is Canceled by {}
        lemma_count_zero(self.states, in_state(Status::Done));
        lemma_count_zero(self.states, in_state(Status::Error));
    }

    /// When a run is over, every item is in a final state: each submitted
    /// item was claimed and is `Done`, `Error` or `Canceled`, each item never
    /// submitted is `Canceled`, and there is one record for each item that is
    /// `Done` or `Error`.
    pub proof fn lemma_finished_run(self)
        requires
            self.wf(),
            self.finished(),
        ensures
            self.pool.queue.len() == 0,
            self.pool.claimed.len() == self.cursor,
            self.pool.completed() == self.cursor,
            forall|id: int| 0 <= id < self.total() ==> (#[trigger] self.states[id]).is_terminal(),
            forall|id: int|
                self.cursor <= id < self.total() ==> (#[trigger] self.states[id]) is Canceled,
            count(self.states, in_terminal_state()) == self.total(),
            count(self.states, in_state(Status::Done)) + count(
                self.states,
                in_state(Status::Error),
            ) + count(self.states, in_state(Status::Canceled)) == self.total(),
            self.records.len() == count(self.states, in_state(Status::Done)) + count(
                self.states,
                in_state(Status::Error),
            ),
    {
        self.pool.lemma_stopped_means_drained();
        lemma_count_zero(self.pool.workers, in_phase(WorkerPhase::Busy));
        assert forall|id: int| 0 <= id < self.total() implies (
        #[trigger] self.states[id]).is_terminal() by {
            if self.states[id] is Running {
                let w = choose|w: int| self.holds(w, id);
                assert(self.assigned[w] is Some);
                assert(self.pool.workers[w] is Busy);
                assert(in_phase(WorkerPhase::Busy)(self.pool.workers[w]));
            }
        }
        lemma_count_full(self.states, in_terminal_state());
        lemma_terminal_is_done_error_canceled(self.states);
    }

    /// A closed run is never stuck: until it is over, some worker can claim a
    /// message or hand in its record.
    pub proof fn lemma_never_stuck(self)
        requires
            self.wf(),
            self.closed,
            !self.finished(),
        ensures
            exists|w: int| self.can_act(w),
    {
        self.pool.lemma_never_stuck();
        let w = choose|w: int| self.pool.can_claim(w) || self.pool.can_finish(w);
        if self.pool.can_finish(w) {
            assert(self.assigned[w] is Some);
        }
        assert(self.can_act(w));
    }

    /// Cancellation before any submission. Take a fresh run, any events but
    /// steps of the dispatching thread (`before`), the cancellation request,
    /// and anything after it (`after`). Then nothing is ever submitted, no
    /// item ever runs or leaves a record, and once the run is over every item
    /// is `Canceled`.
    pub proof fn lemma_canceled_before_submission(
        paths: Seq<String>,
        workers: nat,
        before: Seq<RunEvent>,
        after: Seq<RunEvent>,
    )
        requires
            workers > 0,
            paths.len() <= usize::MAX,
            forall|i: int| 0 <= i < before.len() ==> !((#[trigger] before[i]) is Dispatch),
        ensures
            ({
                let end = Self::fresh(paths, workers).run(before).cancel().run(after);
                &&& end.total() == paths.len()
                &&& end.cursor == 0
                &&& end.pool.submitted().len() == 0
                &&& end.records.len() == 0
                &&& forall|id: int|
                    0 <= id < end.total() ==> (#[trigger] end.states[id]) is Queued
                        || end.states[id] is Canceled
                &&& end.finished() ==> forall|id: int|
                    0 <= id < end.total() ==> (#[trigger] end.states[id]) is Canceled
            }),
    {
        let start = Self::fresh(paths, workers);
        Self::lemma_fresh_wf(paths, workers);
        start.lemma_run_keeps_wf(before);
        start.lemma_run_without_dispatch(before);
        start.lemma_run_lifecycle(before);
        let requested = start.run(before).cancel();
        start.run(before).lemma_step_keeps_wf(RunEvent::Cancel);
        requested.lemma_run_keeps_wf(after);
        requested.lemma_run_after_cancel(after);
        requested.lemma_run_lifecycle(after);
        let end = requested.run(after);
        end.lemma_nothing_submitted_nothing_run();
        if end.finished() {
            end.lemma_finished_run();
        }
    }

    /// Cancellation after some submissions. Take a fresh run, any events
    /// (`before`), the cancellation request, and anything after it (`after`).
    /// Then nothing is submitted after the request; an item that was
    /// `Running` at the request is `Running`, `Done` or `Error` afterwards,
    /// never `Canceled`; and once the run is over, each submitted item is
    /// `Done`, `Error` or `Canceled`, an item that was `Running` at the request
    /// is `Done` or `Error`, and each item never submitted is `Canceled`.
    pub proof fn lemma_canceled_after_submissions(
        paths: Seq<String>,
        workers: nat,
        before: Seq<RunEvent>,
        after: Seq<RunEvent>,
    )
        requires
            workers > 0,
            paths.len() <= usize::MAX,
        ensures
            ({
                let at_request = Self::fresh(paths, workers).run(before);
                let end = at_request.cancel().run(after);
                &&& end.total() == paths.len()
                &&& at_request.total() == paths.len()
                &&& end.cursor == at_request.cursor
                &&& forall|id: int|
                    0 <= id < end.total() && at_request.states[id] is Running ==> (
                    #[trigger] end.states[id]) is Running || end.states[id] is Done
                        || end.states[id] is Error
                &&& end.finished() ==> {
                    &&& forall|id: int|
                        0 <= id < end.cursor ==> (#[trigger] end.states[id]).is_terminal()
                    &&& forall|id: int|
                        0 <= id < end.total() && at_request.states[id] is Running ==> (
                        #[trigger] end.states[id]) is Done || end.states[id] is Error
                    &&& forall|id: int|
                        end.cursor <= id < end.total() ==> (#[trigger] end.states[id]) is Canceled
                    &&& count(end.states, in_terminal_state()) == end.total()
                }
            }),
    {
        let start = Self::fresh(paths, workers);
        Self::lemma_fresh_wf(paths, workers);
        start.lemma_run_keeps_wf(before);
        start.lemma_run_lifecycle(before);
        let at_request = start.run(before);
        let requested = at_request.cancel();
        at_request.lemma_step_keeps_wf(RunEvent::Cancel);
        requested.lemma_run_keeps_wf(after);
        requested.lemma_run_after_cancel(after);
        requested.lemma_run_lifecycle(after);
        let end = requested.run(after);
        end.lemma_claimed_le_cursor();
        assert forall|id: int|
            0 <= id < end.total() && at_request.states[id] is Running implies (
        #[trigger] end.states[id]) is Running || end.states[id] is Done
            || end.states[id] is Error by {
            assert(requested.states[id].leads_to(end.states[id]));
        }
        if end.finished() {
            end.lemma_finished_run();
        }
    }
}

impl RunView {
    /// A run without cancellation. Take a fresh run and any events but the
    /// cancellation request. Then no item is ever `Canceled`, and once the run
    /// is over every item was submitted, claimed once and analyzed: each is
    /// `Done` or `Error`, and there is one record for each.
    pub proof fn lemma_uncanceled_run_analyzes_all(
        paths: Seq<String>,
        workers: nat,
        events: Seq<RunEvent>,
    )
        requires
            workers > 0,
            paths.len() <= usize::MAX,
            forall|i: int| 0 <= i < events.len() ==> !((#[trigger] events[i]) is Cancel),
        ensures
            ({
                let end = Self::fresh(paths, workers).run(events);
                &&& end.wf()
                &&& !end.canceled
                &&& end.total() == paths.len()
                &&& forall|id: int|
                    0 <= id < end.total() ==> !((#[trigger] end.states[id]) is Canceled)
                &&& end.finished() ==> {
                    &&& end.cursor == end.total()
                    &&& end.pool.claimed == item_numbers(end.total())
                    &&& end.pool.completed() == end.total()
                    &&& end.records.len() == end.total()
                    &&& forall|id: int|
                        0 <= id < end.total() ==> (#[trigger] end.states[id]) is Done
                            || end.states[id] is Error
                }
            }),
    {
        let start = Self::fresh(paths, workers);
        Self::lemma_fresh_wf(paths, workers);
        start.lemma_run_keeps_wf(events);
        start.lemma_run_lifecycle(events);
        start.lemma_run_without_cancel(events);
        let end = start.run(events);
        if end.finished() {
            end.lemma_finished_run();
            lemma_count_zero(end.states, in_state(Status::Canceled));
            assert(end.pool.claimed =~= end.pool.submitted());
        }
    }

    /// Without a request, cancellation stays unrequested.
    pub proof fn lemma_run_without_cancel(self, events: Seq<RunEvent>)
        requires
            forall|i: int| 0 <= i < events.len() ==> !((#[trigger] events[i]) is Cancel),
        ensures
            self.run(events).canceled == self.canceled,
        decreases events.len(),
    {
        if events.len() > 0 {
            let earlier = events.drop_last();
            assert forall|i: int| 0 <= i < earlier.len() implies !((
            #[trigger] earlier[i]) is Cancel) by {
                assert(earlier[i] == events[i]);
            }
            self.lemma_run_without_cancel(earlier);
            assert(!(events[events.len() - 1] is Cancel));
        }
    }
}

/// What a step of the dispatching thread did.
#[derive(Clone, Copy, Debug, PartialEq, Eq)]
pub enum Dispatch {
    /// The item of this number was submitted.
    Submitted(usize),
    /// Every item had been submitted: the run was closed.
    Exhausted,
    /// Cancellation was seen: this many queued items were canceled, and the
    /// run was closed.
    Canceled(usize),
    /// The run was closed before.
    Closed,
}

/// What a worker that asked for work is to do.
#[derive(Clone, Copy, Debug, PartialEq, Eq)]
pub enum Task {
    /// Analyze the item of this number and hand in its record.
    Analyze(usize),
    /// The item of this number was canceled: ask again.
    Skipped(usize),
    /// End.
    Exit,
    /// Nothing to claim, or the worker does not wait: ask again later.
    Wait,
}

/// The counts and totals at the end of a run.
#[derive(Clone, Copy, Debug, PartialEq, Eq)]
pub struct Summary {
    pub done: usize,
    pub error: usize,
    pub canceled: usize,
    pub totals: Totals,
}

impl RunView {
    /// What `dispatch` reports in this state.
    pub open spec fn dispatched(self) -> Dispatch {
        if self.closed {
            Dispatch::Closed
        } else if self.cursor >= self.total() {
            Dispatch::Exhausted
        } else if self.canceled {
            Dispatch::Canceled(count(self.states, in_state(Status::Queued)) as usize)
        } else {
            Dispatch::Submitted(self.cursor as usize)
        }
    }

    /// What `claim` tells worker `w` in this state.
    pub open spec fn task_for(self, w: int) -> Task {
        if !self.pool.can_claim(w) {
            Task::Wait
        } else {
            match self.pool.queue[0] {
                Message::Terminate => Task::Exit,
                Message::NewJob(id) => if self.canceled {
                    Task::Skipped(id)
                } else {
                    Task::Analyze(id)
                },
            }
        }
    }
}

/// A run: the files, their states, the pool, the records and the token.
pub struct Dispatcher {
    files: Vec<String>,
    registry: StatusRegistry,
    pool: ThreadPool<usize>,
    assigned: Vec<Option<usize>>,
    cursor: usize,
    closed: bool,
    token: CancellationToken,
    results: ResultCollector,
}

impl View for Dispatcher {
    type V = RunView;

    closed spec fn view(&self) -> RunView {
        RunView {
            paths: self.files@,
            states: self.registry@,
            pool: self.pool@,
            assigned: self.assigned@,
            cursor: self.cursor as nat,
            closed: self.closed,
            canceled: self.token@,
            records: self.results@,
        }
    }
}

impl Dispatcher {
    /// A run over `files` with a pool of `workers` workers: every item
    /// `Queued`, nothing submitted, no record, cancellation not requested.
    pub fn new(files: Vec<String>, workers: usize) -> (run: Dispatcher)
        requires
            workers > 0,
        ensures
            run@ == RunView::fresh(files@, workers as nat),
            run@.wf(),
    {
        let registry = StatusRegistry::new(files.len());
        let pool = ThreadPool::new(workers);
        let mut assigned: Vec<Option<usize>> = Vec::with_capacity(workers);
        let mut w: usize = 0;
        while w < workers
            invariant
                w <= workers,
                assigned@ == unassigned(w as nat),
            decreases workers - w,
        {
            assigned.push(None);
            w += 1;
            assert(assigned@ =~= unassigned(w as nat));
        }
        let run = Dispatcher {
            files,
            registry,
            pool,
            assigned,
            cursor: 0,
            closed: false,
            token: CancellationToken::new(),
            results: ResultCollector::new(),
        };
        proof {
            assert(run@.states =~= RunView::fresh(files@, workers as nat).states);
            RunView::lemma_fresh_wf(files@, workers as nat);
        }
        run
    }

    /// Requests cancellation.
    pub fn cancel(&mut self)
        ensures
            final(self)@ == old(self)@.cancel(),
            old(self)@.wf() ==> final(self)@.wf(),
    {
        self.token.cancel();
        proof {
            if old(self)@.wf() {
                old(self)@.lemma_step_keeps_wf(RunEvent::Cancel);
            }
        }
    }

    /// Sets the number of workers of the pool to `workers`, as
    /// `ThreadPool::resize` does. On a closed run it changes nothing.
    pub fn resize(&mut self, workers: usize)
        requires
            workers > 0,
        ensures
            final(self)@ == old(self)@.resize(workers as nat),
            !old(self)@.closed ==> final(self)@.pool.size == workers,
            old(self)@.wf() ==> final(self)@.wf(),
    {
        proof {
            if old(self)@.wf() {
                old(self)@.lemma_step_keeps_wf(RunEvent::Resize(workers as nat));
            }
        }
        if self.closed {
            return ;
        }
        self.pool.resize(workers);
        let started: usize = self.pool.workers_started();
        let ghost before = self.assigned@;
        while self.assigned.len() < started
            invariant
                before == old(self).assigned@,
                started == self.pool@.workers.len(),
                self.assigned@.len() >= before.len(),
                self.assigned@.len() <= started || self.assigned@.len() == before.len(),
                self.assigned@ == before + unassigned((self.assigned@.len() - before.len()) as nat),
                self.files == old(self).files,
                self.registry == old(self).registry,
                self.pool@ == old(self).pool@.resize(workers as nat),
                self.cursor == old(self).cursor,
                self.closed == old(self).closed,
                self.token == old(self).token,
                self.results == old(self).results,
            decreases started - self.assigned.len(),
        {
            self.assigned.push(None);
            assert(self.assigned@ =~= before + unassigned(
                (self.assigned@.len() - before.len()) as nat,
            ));
        }
    }

    /// The next step of the dispatching thread: see `RunView::dispatch`.
    pub fn dispatch(&mut self) -> (did: Dispatch)
        ensures
            final(self)@ == old(self)@.dispatch(),
            did == old(self)@.dispatched(),
            old(self)@.wf() ==> final(self)@.wf(),
    {
        proof {
            if old(self)@.wf() {
                old(self)@.lemma_step_keeps_wf(RunEvent::Dispatch);
            }
        }
        if self.closed {
            Dispatch::Closed
        } else if self.cursor >= self.registry.len() {
            self.closed = true;
            self.pool.shutdown();
            Dispatch::Exhausted
        } else if self.token.is_set() {
            let canceled: usize = self.registry.cancel_queued();
            self.closed = true;
            self.pool.shutdown();
            Dispatch::Canceled(canceled)
        } else {
            let id: usize = self.cursor;
            self.pool.execute(id);
            self.cursor = id + 1;
            Dispatch::Submitted(id)
        }
    }

    /// Worker `worker` asks for work: see `RunView::claim`.
    pub fn claim(&mut self, worker: usize) -> (task: Task)
        ensures
            final(self)@ == old(self)@.claim(worker as int),
            task == old(self)@.task_for(worker as int),
            old(self)@.wf() ==> final(self)@.wf(),
    {
        proof {
            if old(self)@.wf() {
                old(self)@.lemma_step_keeps_wf(RunEvent::Claim(worker as int));
            }
        }
        match self.pool.claim(worker) {
            None => Task::Wait,
            Some(Message::Terminate) => Task::Exit,
            Some(Message::NewJob(id)) => {
                if self.token.is_set() {
                    self.registry.advance(id, Status::Canceled);
                    self.pool.finish(worker);
                    Task::Skipped(id)
                } else {
                    self.registry.advance(id, Status::Running);
                    if worker < self.assigned.len() {
                        self.assigned.set(worker, Some(id));
                    }
                    Task::Analyze(id)
                }
            },
        }
    }

    /// Worker `worker` hands in the record of the item it holds: see
    /// `RunView::complete`. Returns the number of items in a final state
    /// after that, or `None` if the worker holds no item, in which case
    /// nothing changes and the record is dropped.
    pub fn complete(&mut self, worker: usize, record: FileAnalysis) -> (progress: Option<usize>)
        ensures
            final(self)@ == old(self)@.complete(worker as int, record),
            progress == if old(self)@.can_complete(worker as int) {
                Some(count(final(self)@.states, in_terminal_state()) as usize)
            } else {
                None
            },
            old(self)@.wf() ==> final(self)@.wf(),
    {
        proof {
            if old(self)@.wf() {
                old(self)@.lemma_step_keeps_wf(RunEvent::Complete(worker as int, record));
            }
        }
        if worker >= self.assigned.len() {
            return None;
        }
        match self.pool.phase(worker) {
            Some(WorkerPhase::Busy) => {},
            _ => {
                return None;
            },
        }
        match self.assigned[worker] {
            None => None,
            Some(id) => {
                let state = if record.errors.len() == 0 {
                    Status::Done
                } else {
                    Status::Error
                };
                self.results.push(record);
                self.registry.advance(id, state);
                self.assigned.set(worker, None);
                self.pool.finish(worker);
                Some(self.registry.terminal_count())
            },
        }
    }

    /// Whether the run is over: closed, and every worker has ended.
    pub fn finished(&self) -> (over: bool)
        ensures
            over == self@.finished(),
    {
        self.closed && self.pool.live_workers() == 0
    }

    /// The counts of the final states and the totals over the records.
    ///
    /// In a well-formed run the records are as many as the items `Done` or
    /// `Error`; once the run is over, the three counts add up to the number
    /// of items.
    pub fn summary(&self) -> (summary: Summary)
        ensures
            summary.done == count(self@.states, in_state(Status::Done)),
            summary.error == count(self@.states, in_state(Status::Error)),
            summary.canceled == count(self@.states, in_state(Status::Canceled)),
            summary.totals.records == self@.records.len(),
            summary.totals.words == total(self@.records, words_of()),
            summary.totals.lines == total(self@.records, lines_of()),
            summary.totals.bytes == total(self@.records, bytes_of()),
            summary.totals.errors == total(self@.records, errors_of()),
            self@.wf() ==> summary.totals.records == summary.done + summary.error,
            self@.wf() && self@.finished() ==> summary.done + summary.error + summary.canceled
                == self@.paths.len(),
    {
        proof {
            if self@.wf() && self@.finished() {
                self@.lemma_finished_run();
            }
        }
        Summary {
            done: self.registry.count(Status::Done),
            error: self.registry.count(Status::Error),
            canceled: self.registry.count(Status::Canceled),
            totals: self.results.totals(),
        }
    }

    /// The number of items.
    pub fn total(&self) -> (n: usize)
        ensures
            n == self@.total(),
    {
        self.registry.len()
    }

    /// The number of items submitted so far.
    pub fn submitted(&self) -> (n: usize)
        ensures
            n == self@.cursor,
    {
        self.cursor
    }

    /// Whether cancellation has been requested.
    pub fn is_canceled(&self) -> (b: bool)
        ensures
            b == self@.canceled,
    {
        self.token.is_set()
    }

    /// Whether submission has ended.
    pub fn is_closed(&self) -> (b: bool)
        ensures
            b == self@.closed,
    {
        self.closed
    }

    /// The path of item `id`, if there is such an item.
    pub fn path(&self, id: usize) -> (path: Option<&String>)
        ensures
            path == if id < self@.paths.len() {
                Some(&self@.paths[id as int])
            } else {
                None
            },
    {
        if id < self.files.len() {
            Some(&self.files[id])
        } else {
            None
        }
    }

    /// The item that worker `worker` is analyzing, if it holds one.
    pub fn holding(&self, worker: usize) -> (item: Option<usize>)
        ensures
            item == if worker < self@.assigned.len() {
                self@.assigned[worker as int]
            } else {
                None
            },
    {
        if worker < self.assigned.len() {
            self.assigned[worker]
        } else {
            None
        }
    }

    /// The states of the items.
    pub fn registry(&self) -> (registry: &StatusRegistry)
        ensures
            registry@ == self@.states,
    {
        &self.registry
    }

    /// The records handed in so far.
    pub fn results(&self) -> (results: &ResultCollector)
        ensures
            results@ == self@.records,
    {
        &self.results
    }

    /// The pool.
    pub fn pool(&self) -> (pool: &ThreadPool<usize>)
        ensures
            pool@ == self@.pool,
    {
        &self.pool
    }
}

} // verus!
