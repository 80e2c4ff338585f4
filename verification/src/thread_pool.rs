//! A resizable pool of workers fed from one FIFO queue.
//!
//! The pool is a state machine. It owns the queue and knows the phase of each
//! worker; it does not own threads. A caller that does keeps the pool behind a
//! lock and reports what its threads do: a waiting thread calls `claim`, a
//! thread that has run its job calls `finish`. Which idle worker claims the
//! next message is the caller's choice, so which workers end when the pool
//! shrinks is not determined; only their number is.

use crate::counting::{
    count, lemma_count_add, lemma_count_drop_first, lemma_count_full, lemma_count_le_len,
    lemma_count_push, lemma_count_update, lemma_count_zero,
};
use std::collections::VecDeque;
use vstd::prelude::*;

verus! {

/// What the queue carries: a job, or the order to end one worker.
pub enum Message<J> {
    NewJob(J),
    Terminate,
}

/// What a worker is doing.
#[derive(Clone, Copy, Debug, PartialEq, Eq, Structural)]
pub enum WorkerPhase {
    /// Waiting for a message.
    Idle,
    /// Running a job it has claimed.
    Busy,
    /// Ended, after claiming a `Terminate`.
    Exited,
}

/// The predicate "is in phase `which`".
pub open spec fn in_phase(which: WorkerPhase) -> spec_fn(WorkerPhase) -> bool {
    |p: WorkerPhase| p == which
}

/// The predicate "is a `Terminate`".
pub open spec fn is_terminate<J>() -> spec_fn(Message<J>) -> bool {
    |m: Message<J>| m is Terminate
}

/// The jobs among `queue`, in order.
pub open spec fn jobs_of<J>(queue: Seq<Message<J>>) -> Seq<J>
    decreases queue.len(),
{
    if queue.len() == 0 {
        Seq::empty()
    } else {
        match queue.last() {
            Message::NewJob(job) => jobs_of(queue.drop_last()).push(job),
            Message::Terminate => jobs_of(queue.drop_last()),
        }
    }
}

/// `n` workers that wait.
pub open spec fn idle_workers(n: nat) -> Seq<WorkerPhase> {
    Seq::new(n, |i: int| WorkerPhase::Idle)
}

/// `n` workers that hold no job.
pub open spec fn empty_hands<J>(n: nat) -> Seq<Option<J>> {
    Seq::new(n, |i: int| None::<J>)
}

/// The predicate "is the job `job`".
pub open spec fn is_job<J>(job: J) -> spec_fn(J) -> bool {
    |j: J| j == job
}

/// The predicate "holds the job `job`".
pub open spec fn holds_job<J>(job: J) -> spec_fn(Option<J>) -> bool {
    |held: Option<J>| held == Some(job)
}

/// `n` orders to end.
pub open spec fn terminates<J>(n: nat) -> Seq<Message<J>> {
    Seq::new(n, |i: int| Message::<J>::Terminate)
}

/// The state of a pool.
pub struct PoolView<J> {
    /// The messages not yet claimed, oldest first.
    pub queue: Seq<Message<J>>,
    /// The phase of each worker ever started, by its number.
    pub workers: Seq<WorkerPhase>,
    /// The number of workers the pool is meant to have.
    pub size: nat,
    /// The jobs claimed so far, in the order in which they were claimed.
    pub claimed: Seq<J>,
    /// The job each worker is running, by the worker's number.
    pub holding: Seq<Option<J>>,
    /// The jobs run to their end, in the order in which they ended.
    pub finished: Seq<J>,
}

/// What can happen to a pool.
pub enum PoolEvent<J> {
    /// The owner submits a job.
    Execute(J),
    /// The owner sets the number of workers.
    Resize(nat),
    /// The owner shuts the pool down.
    Shutdown,
    /// The worker of this number takes the next message.
    Claim(int),
    /// The worker of this number has run its job.
    Finish(int),
}

impl<J> PoolEvent<J> {
    /// Whether this is something a worker does.
    pub open spec fn by_worker(self) -> bool {
        self is Claim || self is Finish
    }

    /// Whether the pool still has workers after this: any event but a
    /// shutdown or a resize to zero.
    pub open spec fn keeps_workers(self) -> bool {
        match self {
            PoolEvent::Shutdown => false,
            PoolEvent::Resize(n) => n > 0,
            _ => true,
        }
    }
}

/// The jobs submitted by `events`, in order.
pub open spec fn jobs_submitted<J>(events: Seq<PoolEvent<J>>) -> Seq<J>
    decreases events.len(),
{
    if events.len() == 0 {
        Seq::empty()
    } else {
        match events.last() {
            PoolEvent::Execute(job) => jobs_submitted(events.drop_last()).push(job),
            _ => jobs_submitted(events.drop_last()),
        }
    }
}

impl<J> PoolView<J> {
    /// A pool of `size` idle workers with an empty queue.
    pub open spec fn fresh(size: nat) -> PoolView<J> {
        PoolView {
            queue: Seq::empty(),
            workers: idle_workers(size),
            size,
            claimed: Seq::empty(),
            holding: empty_hands(size),
            finished: Seq::empty(),
        }
    }

    /// How many claimed jobs have been run to their end.
    pub open spec fn completed(self) -> nat {
        self.finished.len()
    }

    /// The number of workers in phase `which`.
    pub open spec fn workers_in(self, which: WorkerPhase) -> nat {
        count(self.workers, in_phase(which))
    }

    /// The number of workers that have not ended.
    pub open spec fn live(self) -> nat {
        self.workers_in(WorkerPhase::Idle) + self.workers_in(WorkerPhase::Busy)
    }

    /// The number of `Terminate` messages not yet claimed.
    pub open spec fn pending_exits(self) -> nat {
        count(self.queue, is_terminate::<J>())
    }

    /// The jobs not yet claimed, oldest first.
    pub open spec fn pending_jobs(self) -> Seq<J> {
        jobs_of(self.queue)
    }

    /// Every job ever submitted, in the order of submission.
    pub open spec fn submitted(self) -> Seq<J> {
        self.claimed + self.pending_jobs()
    }

    /// What holds of every pool: each worker that has not ended either counts
    /// toward the size or has a `Terminate` waiting for it; the busy workers
    /// are those that hold a job; and each job occurs among the jobs claimed
    /// as often as among the jobs finished and the jobs held together, so
    /// that a claimed job has been run once or is being run by one worker.
    pub open spec fn wf(self) -> bool {
        &&& self.live() == self.size + self.pending_exits()
        &&& self.claimed.len() == self.completed() + self.workers_in(WorkerPhase::Busy)
        &&& self.holding.len() == self.workers.len()
        &&& forall|w: int|
            0 <= w < self.workers.len() ==> ((#[trigger] self.holding[w]) is Some
                <==> self.workers[w] is Busy)
        &&& forall|job: J| #[trigger]
            count(self.claimed, is_job(job)) == count(self.finished, is_job(job)) + count(
                self.holding,
                holds_job(job),
            )
    }

    /// No job is left behind: the pool has workers, or nothing is queued, or
    /// the queue ends with a `Terminate`, so that a worker outlives every job.
    pub open spec fn covered(self) -> bool {
        self.size > 0 || self.queue.len() == 0 || self.queue.last() is Terminate
    }

    /// All workers have ended: a shutdown has returned.
    pub open spec fn stopped(self) -> bool {
        self.live() == 0
    }

    /// The work left for the workers, in steps: two for each message (claim
    /// it, then run it) and one for each job being run.
    pub open spec fn work_left(self) -> nat {
        2 * self.queue.len() + self.workers_in(WorkerPhase::Busy)
    }

    /// The pool after a job is submitted.
    pub open spec fn execute(self, job: J) -> PoolView<J> {
        PoolView { queue: self.queue.push(Message::NewJob(job)), ..self }
    }

    /// The pool after its size is set to `n`: new idle workers where it
    /// grows, one `Terminate` for each worker too many where it shrinks,
    /// no change where it has that size.
    pub open spec fn resize(self, n: nat) -> PoolView<J> {
        if n == self.size {
            self
        } else if n > self.size {
            PoolView {
                workers: self.workers + idle_workers((n - self.size) as nat),
                holding: self.holding + empty_hands((n - self.size) as nat),
                size: n,
                ..self
            }
        } else {
            PoolView { queue: self.queue + terminates((self.size - n) as nat), size: n, ..self }
        }
    }

    /// The pool after a shutdown: one `Terminate` for each of its workers.
    pub open spec fn shutdown(self) -> PoolView<J> {
        self.resize(0)
    }

    /// Whether worker `w` can take a message: it waits, and there is one.
    pub open spec fn can_claim(self, w: int) -> bool {
        0 <= w < self.workers.len() && self.workers[w] is Idle && self.queue.len() > 0
    }

    /// The pool after worker `w` takes the oldest message, if it can.
    pub open spec fn claim(self, w: int) -> PoolView<J> {
        if !self.can_claim(w) {
            self
        } else {
            match self.queue[0] {
                Message::NewJob(job) => PoolView {
                    queue: self.queue.drop_first(),
                    workers: self.workers.update(w, WorkerPhase::Busy),
                    claimed: self.claimed.push(job),
                    holding: self.held_after(w, Some(job)),
                    ..self
                },
                Message::Terminate => PoolView {
                    queue: self.queue.drop_first(),
                    workers: self.workers.update(w, WorkerPhase::Exited),
                    ..self
                },
            }
        }
    }

    /// What the workers hold once worker `w` holds `held`.
    pub open spec fn held_after(self, w: int, held: Option<J>) -> Seq<Option<J>> {
        if 0 <= w < self.holding.len() {
            self.holding.update(w, held)
        } else {
            self.holding
        }
    }

    /// The jobs finished once worker `w` has run what it holds.
    pub open spec fn finished_after(self, w: int) -> Seq<J> {
        if 0 <= w < self.holding.len() && self.holding[w] is Some {
            self.finished.push(self.holding[w]->0)
        } else {
            self.finished
        }
    }

    /// Whether worker `w` is running a job.
    pub open spec fn can_finish(self, w: int) -> bool {
        0 <= w < self.workers.len() && self.workers[w] is Busy
    }

    /// The pool after worker `w` has run its job, if it had one.
    pub open spec fn finish(self, w: int) -> PoolView<J> {
        if !self.can_finish(w) {
            self
        } else {
            PoolView {
                workers: self.workers.update(w, WorkerPhase::Idle),
                holding: self.held_after(w, None),
                finished: self.finished_after(w),
                ..self
            }
        }
    }

    /// The pool after one event.
    pub open spec fn step(self, event: PoolEvent<J>) -> PoolView<J> {
        match event {
            PoolEvent::Execute(job) => self.execute(job),
            PoolEvent::Resize(n) => self.resize(n),
            PoolEvent::Shutdown => self.shutdown(),
            PoolEvent::Claim(w) => self.claim(w),
            PoolEvent::Finish(w) => self.finish(w),
        }
    }

    /// The pool after a sequence of events.
    pub open spec fn run(self, events: Seq<PoolEvent<J>>) -> PoolView<J>
        decreases events.len(),
    {
        if events.len() == 0 {
            self
        } else {
            self.run(events.drop_last()).step(events.last())
        }
    }
}

/// A job at the end of the queue is the last of its jobs.
pub proof fn lemma_jobs_of_push<J>(queue: Seq<Message<J>>, message: Message<J>)
    ensures
        jobs_of(queue.push(message)) == match message {
            Message::NewJob(job) => jobs_of(queue).push(job),
            Message::Terminate => jobs_of(queue),
        },
{
    assert(queue.push(message).drop_last() =~= queue);
}

/// `Terminate` messages add no job.
pub proof fn lemma_jobs_of_terminates<J>(queue: Seq<Message<J>>, n: nat)
    ensures
        jobs_of(queue + terminates(n)) == jobs_of(queue),
    decreases n,
{
    if n == 0 {
        assert(queue + terminates::<J>(n) =~= queue);
    } else {
        assert((queue + terminates::<J>(n)).drop_last() =~= queue + terminates::<J>(
            (n - 1) as nat,
        ));
        lemma_jobs_of_terminates(queue, (n - 1) as nat);
    }
}

/// A job at the head of the queue is the first of its jobs.
pub proof fn lemma_jobs_of_drop_first<J>(queue: Seq<Message<J>>)
    requires
        queue.len() > 0,
    ensures
        jobs_of(queue) == match queue[0] {
            Message::NewJob(job) => seq![job] + jobs_of(queue.drop_first()),
            Message::Terminate => jobs_of(queue.drop_first()),
        },
    decreases queue.len(),
{
    if queue.len() == 1 {
        assert(queue.drop_last() =~= Seq::<Message<J>>::empty());
        assert(queue.drop_first() =~= Seq::<Message<J>>::empty());
        assert(jobs_of(queue.drop_last()) =~= Seq::<J>::empty());
        match queue[0] {
            Message::NewJob(job) => {
                assert(jobs_of(queue) =~= seq![job] + jobs_of(queue.drop_first()));
            },
            Message::Terminate => {},
        }
    } else {
        let front = queue.drop_last();
        lemma_jobs_of_drop_first(front);
        assert(front.drop_first() =~= queue.drop_first().drop_last());
        assert(front[0] == queue[0]);
        assert(queue.drop_first().last() == queue.last());
        match queue[0] {
            Message::NewJob(job) => {
                match queue.last() {
                    Message::NewJob(last) => {
                        assert((seq![job] + jobs_of(front.drop_first())).push(last) =~= seq![job]
                            + jobs_of(front.drop_first()).push(last));
                    },
                    Message::Terminate => {},
                }
            },
            Message::Terminate => {},
        }
    }
}

/// Among `n` idle workers, `n` are idle and none is anything else.
pub proof fn lemma_count_idle_workers(n: nat, which: WorkerPhase)
    ensures
        count(idle_workers(n), in_phase(which)) == if which is Idle {
            n
        } else {
            0
        },
{
    if which is Idle {
        lemma_count_full(idle_workers(n), in_phase(which));
    } else {
        lemma_count_zero(idle_workers(n), in_phase(which));
    }
}

/// Among `n` orders to end, all `n` are.
pub proof fn lemma_count_terminates<J>(n: nat)
    ensures
        count(terminates::<J>(n), is_terminate::<J>()) == n,
{
    lemma_count_full(terminates::<J>(n), is_terminate::<J>());
}

/// Setting one worker's phase moves it from one count to another.
pub proof fn lemma_phase_change(workers: Seq<WorkerPhase>, w: int, to: WorkerPhase)
    requires
        0 <= w < workers.len(),
    ensures
        forall|which: WorkerPhase|
            #![trigger count(workers.update(w, to), in_phase(which))]
            count(workers.update(w, to), in_phase(which)) + (if workers[w] == which {
                1nat
            } else {
                0nat
            }) == count(workers, in_phase(which)) + (if to == which {
                1nat
            } else {
                0nat
            }),
{
    assert forall|which: WorkerPhase|
        #![trigger count(workers.update(w, to), in_phase(which))]
        count(workers.update(w, to), in_phase(which)) + (if workers[w] == which {
            1nat
        } else {
            0nat
        }) == count(workers, in_phase(which)) + (if to == which {
            1nat
        } else {
            0nat
        }) by {
        lemma_count_update(workers, w, to, in_phase(which));
    }
}

impl<J> PoolView<J> {
    /// A fresh pool is well formed, and none of its work is claimed.
    pub proof fn lemma_fresh_wf(size: nat)
        ensures
            Self::fresh(size).wf(),
            Self::fresh(size).covered(),
            Self::fresh(size).live() == size,
            Self::fresh(size).submitted() == Seq::<J>::empty(),
    {
        lemma_count_idle_workers(size, WorkerPhase::Idle);
        lemma_count_idle_workers(size, WorkerPhase::Busy);
        assert(Self::fresh(size).submitted() =~= Seq::<J>::empty());
        assert forall|job: J| count(empty_hands::<J>(size), holds_job(job)) == 0 by {
            lemma_count_zero(empty_hands::<J>(size), holds_job(job));
        }
    }

    /// Every event keeps the pool well formed.
    pub proof fn lemma_step_keeps_wf(self, event: PoolEvent<J>)
        requires
            self.wf(),
        ensures
            self.step(event).wf(),
    {
        match event {
            PoolEvent::Execute(job) => {
                lemma_count_push(self.queue, Message::NewJob(job), is_terminate::<J>());
            },
            PoolEvent::Resize(n) => {
                self.lemma_resize_counts(n);
            },
            PoolEvent::Shutdown => {
                self.lemma_resize_counts(0);
            },
            PoolEvent::Claim(w) => {
                if self.can_claim(w) {
                    lemma_count_drop_first(self.queue, is_terminate::<J>());
                    match self.queue[0] {
                        Message::NewJob(taken) => {
                            lemma_phase_change(self.workers, w, WorkerPhase::Busy);
                            let next = self.claim(w);
                            assert(self.holding[w] is None);
                            assert forall|job: J| #[trigger]
                                count(next.claimed, is_job(job)) == count(
                                    next.finished,
                                    is_job(job),
                                ) + count(next.holding, holds_job(job)) by {
                                lemma_count_push(self.claimed, taken, is_job(job));
                                lemma_count_update(self.holding, w, Some(taken), holds_job(job));
                                assert(count(self.claimed, is_job(job)) == count(
                                    self.finished,
                                    is_job(job),
                                ) + count(self.holding, holds_job(job)));
                            }
                        },
                        Message::Terminate => {
                            lemma_phase_change(self.workers, w, WorkerPhase::Exited);
                            assert(self.holding[w] is None);
                        },
                    }
                }
            },
            PoolEvent::Finish(w) => {
                if self.can_finish(w) {
                    lemma_phase_change(self.workers, w, WorkerPhase::Idle);
                    let next = self.finish(w);
                    assert(self.holding[w] is Some);
                    let done = self.holding[w]->0;
                    assert forall|job: J| #[trigger]
                        count(next.claimed, is_job(job)) == count(next.finished, is_job(job))
                            + count(next.holding, holds_job(job)) by {
                        lemma_count_push(self.finished, done, is_job(job));
                        lemma_count_update(self.holding, w, None, holds_job(job));
                        assert(count(self.claimed, is_job(job)) == count(
                            self.finished,
                            is_job(job),
                        ) + count(self.holding, holds_job(job)));
                    }
                }
            },
        }
    }

    /// What a resize does to the counts: the live workers grow by the workers
    /// added, the pending exits by the workers too many, and no worker
    /// becomes busy.
    pub proof fn lemma_resize_counts(self, n: nat)
        ensures
            self.resize(n).size == n,
            self.resize(n).live() == self.live() + if n >= self.size {
                n - self.size
            } else {
                0
            },
            self.resize(n).pending_exits() == self.pending_exits() + if n >= self.size {
                0
            } else {
                self.size - n
            },
            self.resize(n).workers_in(WorkerPhase::Busy) == self.workers_in(WorkerPhase::Busy),
            self.resize(n).submitted() == self.submitted(),
            forall|job: J| #[trigger]
                count(self.resize(n).holding, holds_job(job)) == count(
                    self.holding,
                    holds_job(job),
                ),
    {
        if n > self.size {
            let added = (n - self.size) as nat;
            lemma_count_idle_workers(added, WorkerPhase::Idle);
            lemma_count_idle_workers(added, WorkerPhase::Busy);
            lemma_count_add(self.workers, idle_workers(added), in_phase(WorkerPhase::Idle));
            lemma_count_add(self.workers, idle_workers(added), in_phase(WorkerPhase::Busy));
            assert forall|job: J| #[trigger]
                count(self.resize(n).holding, holds_job(job)) == count(
                    self.holding,
                    holds_job(job),
                ) by {
                lemma_count_add(self.holding, empty_hands::<J>(added), holds_job(job));
                lemma_count_zero(empty_hands::<J>(added), holds_job(job));
            }
        } else if n < self.size {
            let removed = (self.size - n) as nat;
            lemma_count_terminates::<J>(removed);
            lemma_count_add(self.queue, terminates::<J>(removed), is_terminate::<J>());
            lemma_jobs_of_terminates(self.queue, removed);
        }
    }

    /// Only a submission adds to the jobs submitted, and it adds its job at
    /// the end: no event drops, repeats or reorders a job.
    pub proof fn lemma_step_submitted(self, event: PoolEvent<J>)
        ensures
            self.step(event).submitted() == match event {
                PoolEvent::Execute(job) => self.submitted().push(job),
                _ => self.submitted(),
            },
    {
        match event {
            PoolEvent::Execute(job) => {
                lemma_jobs_of_push(self.queue, Message::NewJob(job));
                assert(self.claimed + jobs_of(self.queue).push(job) =~= (self.claimed + jobs_of(
                    self.queue,
                )).push(job));
            },
            PoolEvent::Resize(n) => {
                self.lemma_resize_counts(n);
            },
            PoolEvent::Shutdown => {
                self.lemma_resize_counts(0);
            },
            PoolEvent::Claim(w) => {
                if self.can_claim(w) {
                    lemma_jobs_of_drop_first(self.queue);
                    match self.queue[0] {
                        Message::NewJob(job) => {
                            assert(self.claimed.push(job) + jobs_of(self.queue.drop_first())
                                =~= self.claimed + (seq![job] + jobs_of(
                                self.queue.drop_first(),
                            )));
                        },
                        Message::Terminate => {},
                    }
                }
            },
            PoolEvent::Finish(w) => {},
        }
    }

    /// No event leaves a job behind, but a submission to a pool without
    /// workers.
    pub proof fn lemma_step_keeps_covered(self, event: PoolEvent<J>)
        requires
            self.covered(),
            event is Execute ==> self.size > 0,
        ensures
            self.step(event).covered(),
    {
        match event {
            PoolEvent::Claim(w) => {
                if self.can_claim(w) && self.queue.len() > 1 {
                    assert(self.queue.drop_first().last() == self.queue.last());
                }
            },
            _ => {},
        }
    }

    /// Once all workers have ended, nothing is queued and every job that was
    /// submitted has been claimed and run.
    pub proof fn lemma_stopped_means_drained(self)
        requires
            self.wf(),
            self.covered(),
            self.stopped(),
        ensures
            self.queue.len() == 0,
            self.claimed == self.submitted(),
            self.completed() == self.submitted().len(),
            forall|job: J| #[trigger]
                count(self.finished, is_job(job)) == count(self.submitted(), is_job(job)),
    {
        if self.queue.len() > 0 {
            lemma_count_le_len(self.queue.drop_last(), is_terminate::<J>());
        }
        assert(self.claimed + jobs_of(self.queue) =~= self.claimed);
        lemma_count_zero(self.workers, in_phase(WorkerPhase::Busy));
        assert forall|job: J| #[trigger]
            count(self.finished, is_job(job)) == count(self.submitted(), is_job(job)) by {
            assert forall|w: int| 0 <= w < self.holding.len() implies !holds_job(job)(
                #[trigger] self.holding[w],
            ) by {
                assert(!in_phase(WorkerPhase::Busy)(self.workers[w]));
            }
            lemma_count_zero(self.holding, holds_job(job));
            assert(count(self.claimed, is_job(job)) == count(self.finished, is_job(job)) + count(
                self.holding,
                holds_job(job),
            ));
        }
    }

    /// A pool that is shutting down is never stuck: while a worker lives, some
    /// worker can claim a message or finish its job.
    pub proof fn lemma_never_stuck(self)
        requires
            self.wf(),
            self.size == 0,
            !self.stopped(),
        ensures
            exists|w: int| self.can_claim(w) || self.can_finish(w),
    {
        lemma_count_zero(self.workers, in_phase(WorkerPhase::Busy));
        lemma_count_zero(self.workers, in_phase(WorkerPhase::Idle));
        if self.workers_in(WorkerPhase::Busy) > 0 {
            let w = choose|w: int|
                0 <= w < self.workers.len() && in_phase(WorkerPhase::Busy)(
                    #[trigger] self.workers[w],
                );
            assert(self.can_finish(w));
        } else {
            let w = choose|w: int|
                0 <= w < self.workers.len() && in_phase(WorkerPhase::Idle)(
                    #[trigger] self.workers[w],
                );
            lemma_count_le_len(self.queue, is_terminate::<J>());
            assert(self.can_claim(w));
        }
    }

    /// Each step a worker takes uses up work: no schedule runs forever.
    pub proof fn lemma_worker_step_uses_work(self, w: int)
        ensures
            self.can_claim(w) ==> self.claim(w).work_left() < self.work_left(),
            self.can_finish(w) ==> self.finish(w).work_left() < self.work_left(),
    {
        if self.can_claim(w) {
            match self.queue[0] {
                Message::NewJob(_) => {
                    lemma_phase_change(self.workers, w, WorkerPhase::Busy);
                },
                Message::Terminate => {
                    lemma_phase_change(self.workers, w, WorkerPhase::Exited);
                },
            }
        }
        if self.can_finish(w) {
            lemma_phase_change(self.workers, w, WorkerPhase::Idle);
        }
    }

    /// Once the `Terminate` messages of a resize have been claimed, the
    /// workers that live are as many as the size that was asked for.
    pub proof fn lemma_settled_live_is_size(self)
        requires
            self.wf(),
        ensures
            self.pending_exits() == 0 <==> self.live() == self.size,
    {
    }

    /// Whatever happens to a well-formed pool, it stays well formed.
    pub proof fn lemma_run_keeps_wf(self, events: Seq<PoolEvent<J>>)
        requires
            self.wf(),
        ensures
            self.run(events).wf(),
        decreases events.len(),
    {
        if events.len() > 0 {
            self.lemma_run_keeps_wf(events.drop_last());
            self.run(events.drop_last()).lemma_step_keeps_wf(events.last());
        }
    }

    /// After any sequence of resizes, the size is the last one asked for,
    /// whatever the workers did in between.
    pub proof fn lemma_resize_sets_size(self, events: Seq<PoolEvent<J>>, n: nat)
        ensures
            self.run(events.push(PoolEvent::Resize(n))).size == n,
    {
        assert(events.push(PoolEvent::<J>::Resize(n)).drop_last() =~= events);
    }

    /// Resizing settles. Take a pool of at least one worker, anything that
    /// can happen to it short of a shutdown (`before`), a resize to `n`
    /// workers, `n` at least one, and any schedule of the workers after it
    /// (`after`). Then the size is `n`, and once the workers have claimed
    /// every `Terminate`, exactly `n` workers live.
    pub proof fn lemma_resize_settles(
        size: nat,
        before: Seq<PoolEvent<J>>,
        n: nat,
        after: Seq<PoolEvent<J>>,
    )
        requires
            size > 0,
            n > 0,
            forall|i: int| 0 <= i < before.len() ==> (#[trigger] before[i]).keeps_workers(),
            forall|i: int| 0 <= i < after.len() ==> (#[trigger] after[i]).by_worker(),
        ensures
            ({
                let end = Self::fresh(size).run(before).resize(n).run(after);
                &&& end.wf()
                &&& end.size == n
                &&& end.pending_exits() == 0 ==> end.live() == n
            }),
    {
        let start = Self::fresh(size).run(before);
        Self::lemma_run_with_workers(size, before);
        start.lemma_step_keeps_wf(PoolEvent::Resize(n));
        let resized = start.resize(n);
        assert(resized == start.step(PoolEvent::Resize(n)));
        resized.lemma_run_by_workers(after);
    }

    /// While the pool is never shut down, it keeps workers, and the jobs
    /// submitted to it are those of the events, in their order.
    pub proof fn lemma_run_with_workers(size: nat, events: Seq<PoolEvent<J>>)
        requires
            size > 0,
            forall|i: int| 0 <= i < events.len() ==> (#[trigger] events[i]).keeps_workers(),
        ensures
            Self::fresh(size).run(events).wf(),
            Self::fresh(size).run(events).size > 0,
            Self::fresh(size).run(events).submitted() == jobs_submitted(events),
        decreases events.len(),
    {
        Self::lemma_fresh_wf(size);
        if events.len() > 0 {
            let earlier = events.drop_last();
            assert forall|i: int| 0 <= i < earlier.len() implies (
            #[trigger] earlier[i]).keeps_workers() by {
                assert(earlier[i] == events[i]);
            }
            Self::lemma_run_with_workers(size, earlier);
            let before = Self::fresh(size).run(earlier);
            before.lemma_step_keeps_wf(events.last());
            before.lemma_step_submitted(events.last());
            assert(events.last().keeps_workers());
        }
    }

    /// What the workers do to a pool that has been shut down: it stays well
    /// formed, gets no workers, leaves no job behind and keeps its jobs.
    pub proof fn lemma_run_by_workers(self, events: Seq<PoolEvent<J>>)
        requires
            self.wf(),
            self.covered(),
            forall|i: int| 0 <= i < events.len() ==> (#[trigger] events[i]).by_worker(),
        ensures
            self.run(events).wf(),
            self.run(events).covered(),
            self.run(events).size == self.size,
            self.run(events).submitted() == self.submitted(),
        decreases events.len(),
    {
        if events.len() > 0 {
            let earlier = events.drop_last();
            assert forall|i: int| 0 <= i < earlier.len() implies (
            #[trigger] earlier[i]).by_worker() by {
                assert(earlier[i] == events[i]);
            }
            self.lemma_run_by_workers(earlier);
            let before = self.run(earlier);
            assert(events.last().by_worker());
            before.lemma_step_keeps_wf(events.last());
            before.lemma_step_submitted(events.last());
            before.lemma_step_keeps_covered(events.last());
        }
    }

    /// The drain guarantee. Take a pool of at least one worker, anything that
    /// can happen before a shutdown (`before`: submissions, resizes to a
    /// positive size, workers claiming and finishing in any order), the
    /// shutdown, and any schedule of the workers after it (`after`). Then
    /// the jobs claimed and still queued are exactly the jobs submitted, in
    /// their order, so no job is lost or handed out twice; while a worker
    /// lives, one of them can act; and once all have ended, every submitted
    /// job has been claimed and run to its end exactly once: each job occurs
    /// among the jobs finished as often as among the jobs submitted.
    pub proof fn lemma_shutdown_drains(
        size: nat,
        before: Seq<PoolEvent<J>>,
        after: Seq<PoolEvent<J>>,
    )
        requires
            size > 0,
            forall|i: int| 0 <= i < before.len() ==> (#[trigger] before[i]).keeps_workers(),
            forall|i: int| 0 <= i < after.len() ==> (#[trigger] after[i]).by_worker(),
        ensures
            ({
                let end = Self::fresh(size).run(before).shutdown().run(after);
                &&& end.wf()
                &&& end.submitted() == jobs_submitted(before)
                &&& end.completed() <= end.claimed.len()
                &&& !end.stopped() ==> exists|w: int| end.can_claim(w) || end.can_finish(w)
                &&& end.stopped() ==> {
                    &&& end.queue.len() == 0
                    &&& end.claimed == jobs_submitted(before)
                    &&& end.finished.len() == jobs_submitted(before).len()
                    &&& forall|job: J| #[trigger]
                        count(end.finished, is_job(job)) == count(
                            jobs_submitted(before),
                            is_job(job),
                        )
                }
            }),
    {
        let open = Self::fresh(size).run(before);
        Self::lemma_run_with_workers(size, before);
        open.lemma_step_keeps_wf(PoolEvent::Shutdown);
        open.lemma_step_submitted(PoolEvent::Shutdown);
        open.lemma_step_keeps_covered(PoolEvent::Shutdown);
        let closed = open.shutdown();
        assert(closed == open.step(PoolEvent::Shutdown));
        closed.lemma_run_by_workers(after);
        let end = closed.run(after);
        if end.stopped() {
            end.lemma_stopped_means_drained();
        } else {
            end.lemma_never_stuck();
        }
    }
}

/// The pool: the queue, the phase of each worker, and the size asked for.
///
/// `J` is what a job is to the caller: a closure, a file to analyze, a number.
pub struct ThreadPool<J> {
    queue: VecDeque<Message<J>>,
    workers: Vec<WorkerPhase>,
    size: usize,
    claimed: Ghost<Seq<J>>,
    holding: Ghost<Seq<Option<J>>>,
    finished: Ghost<Seq<J>>,
}

impl<J> View for ThreadPool<J> {
    type V = PoolView<J>;

    closed spec fn view(&self) -> PoolView<J> {
        PoolView {
            queue: self.queue@,
            workers: self.workers@,
            size: self.size as nat,
            claimed: self.claimed@,
            holding: self.holding@,
            finished: self.finished@,
        }
    }
}

impl<J> ThreadPool<J> {
    /// A pool of `size` workers, all waiting, with nothing queued. The caller
    /// starts one thread for each of the workers `0..size`.
    pub fn new(size: usize) -> (pool: ThreadPool<J>)
        requires
            size > 0,
        ensures
            pool@ == PoolView::<J>::fresh(size as nat),
            pool@.wf(),
    {
        let mut workers: Vec<WorkerPhase> = Vec::with_capacity(size);
        let mut id: usize = 0;
        while id < size
            invariant
                id <= size,
                workers@ == idle_workers(id as nat),
            decreases size - id,
        {
            workers.push(WorkerPhase::Idle);
            id += 1;
            assert(workers@ =~= idle_workers(id as nat));
        }
        let pool = ThreadPool {
            queue: VecDeque::new(),
            workers,
            size,
            claimed: Ghost(Seq::empty()),
            holding: Ghost(empty_hands(size as nat)),
            finished: Ghost(Seq::empty()),
        };
        proof {
            assert(pool@.queue =~= Seq::<Message<J>>::empty());
            PoolView::<J>::lemma_fresh_wf(size as nat);
        }
        pool
    }

    /// Puts `job` at the end of the queue. It never waits: the queue has no
    /// bound.
    pub fn execute(&mut self, job: J)
        ensures
            final(self)@ == old(self)@.execute(job),
            old(self)@.wf() ==> final(self)@.wf(),
            old(self)@.size > 0 ==> final(self)@.covered(),
    {
        self.queue.push_back(Message::NewJob(job));
        proof {
            if old(self)@.wf() {
                old(self)@.lemma_step_keeps_wf(PoolEvent::Execute(job));
            }
        }
    }

    /// Sets the number of workers to `new_size`.
    ///
    /// Where the pool grows, it gets new workers, numbered from the number of
    /// workers it has had so far; the caller starts their threads. Where it
    /// shrinks, it queues one `Terminate` for each worker too many, behind
    /// everything queued before; the caller joins the workers that end.
    pub fn resize(&mut self, new_size: usize)
        requires
            new_size > 0,
        ensures
            final(self)@ == old(self)@.resize(new_size as nat),
            final(self)@.size == new_size,
            final(self)@.covered(),
            old(self)@.wf() ==> final(self)@.wf(),
    {
        proof {
            if old(self)@.wf() {
                old(self)@.lemma_step_keeps_wf(PoolEvent::Resize(new_size as nat));
            }
        }
        let current: usize = self.size;
        if new_size > current {
            let mut id: usize = current;
            while id < new_size
                invariant
                    current <= id <= new_size,
                    self.workers@ == old(self).workers@ + idle_workers((id - current) as nat),
                    self.queue == old(self).queue,
                    self.size == old(self).size,
                    self.claimed == old(self).claimed,
                    self.holding == old(self).holding,
                    self.finished == old(self).finished,
                decreases new_size - id,
            {
                self.workers.push(WorkerPhase::Idle);
                id += 1;
                assert(self.workers@ =~= old(self).workers@ + idle_workers((id - current) as nat));
            }
            proof {
                self.holding = Ghost(self.holding@ + empty_hands((new_size - current) as nat));
            }
            self.size = new_size;
        } else if new_size < current {
            self.retire(current - new_size);
        }
    }

    /// Queues one `Terminate` for each worker of the pool, behind everything
    /// queued before, and sets the size to zero. The caller joins the workers
    /// as they end. On a pool without workers it changes nothing.
    pub fn shutdown(&mut self)
        ensures
            final(self)@ == old(self)@.shutdown(),
            final(self)@.size == 0,
            old(self)@.size == 0 ==> final(self)@ == old(self)@,
            old(self)@.wf() ==> final(self)@.wf(),
            old(self)@.covered() ==> final(self)@.covered(),
    {
        proof {
            if old(self)@.wf() {
                old(self)@.lemma_step_keeps_wf(PoolEvent::Shutdown);
            }
            if old(self)@.covered() {
                old(self)@.lemma_step_keeps_covered(PoolEvent::Shutdown);
            }
        }
        if self.size > 0 {
            self.retire(self.size);
        }
    }

    /// Queues `leaving` orders to end and takes as many workers off the size.
    fn retire(&mut self, leaving: usize)
        requires
            0 < leaving <= old(self).size,
        ensures
            final(self)@ == old(self)@.resize((old(self).size - leaving) as nat),
    {
        let mut sent: usize = 0;
        while sent < leaving
            invariant
                sent <= leaving,
                self.queue@ == old(self).queue@ + terminates::<J>(sent as nat),
                self.workers == old(self).workers,
                self.size == old(self).size,
                self.claimed == old(self).claimed,
                self.holding == old(self).holding,
                self.finished == old(self).finished,
            decreases leaving - sent,
        {
            self.queue.push_back(Message::Terminate);
            sent += 1;
            assert(self.queue@ =~= old(self).queue@ + terminates::<J>(sent as nat));
        }
        self.size = self.size - leaving;
    }

    /// Worker `worker` takes the oldest message, if it waits and there is one.
    ///
    /// With a job the worker becomes busy; with a `Terminate` it ends.
    /// Otherwise nothing changes and the result is `None`.
    pub fn claim(&mut self, worker: usize) -> (message: Option<Message<J>>)
        ensures
            final(self)@ == old(self)@.claim(worker as int),
            message == if old(self)@.can_claim(worker as int) {
                Some(old(self)@.queue[0])
            } else {
                None
            },
            old(self)@.wf() ==> final(self)@.wf(),
            old(self)@.covered() ==> final(self)@.covered(),
    {
        proof {
            if old(self)@.wf() {
                old(self)@.lemma_step_keeps_wf(PoolEvent::Claim(worker as int));
            }
            if old(self)@.covered() {
                old(self)@.lemma_step_keeps_covered(PoolEvent::Claim(worker as int));
            }
        }
        if worker >= self.workers.len() || self.queue.len() == 0 {
            return None;
        }
        match self.workers[worker] {
            WorkerPhase::Idle => {},
            _ => {
                return None;
            },
        }
        let message = self.queue.pop_front();
        assert(self.queue@ =~= old(self).queue@.drop_first());
        match &message {
            Some(Message::NewJob(job)) => {
                self.workers.set(worker, WorkerPhase::Busy);
                proof {
                    self.holding = Ghost(self@.held_after(worker as int, Some(*job)));
                    self.claimed = Ghost(self.claimed@.push(*job));
                }
            },
            _ => {
                self.workers.set(worker, WorkerPhase::Exited);
            },
        }
        message
    }

    /// Worker `worker` has run its job and waits again. Says whether it was
    /// busy; if it was not, nothing changes.
    pub fn finish(&mut self, worker: usize) -> (finished: bool)
        ensures
            final(self)@ == old(self)@.finish(worker as int),
            finished == old(self)@.can_finish(worker as int),
            old(self)@.wf() ==> final(self)@.wf(),
            old(self)@.covered() ==> final(self)@.covered(),
    {
        proof {
            if old(self)@.wf() {
                old(self)@.lemma_step_keeps_wf(PoolEvent::Finish(worker as int));
            }
        }
        if worker >= self.workers.len() {
            return false;
        }
        match self.workers[worker] {
            WorkerPhase::Busy => {
                proof {
                    self.finished = Ghost(self@.finished_after(worker as int));
                    self.holding = Ghost(self@.held_after(worker as int, None));
                }
                self.workers.set(worker, WorkerPhase::Idle);
                true
            },
            _ => false,
        }
    }

    /// The number of workers the pool is meant to have: the size it was made
    /// with or last resized to, zero after a shutdown.
    pub fn worker_count(&self) -> (n: usize)
        ensures
            n == self@.size,
    {
        self.size
    }

    /// The number of workers the pool has ever had. Workers are numbered
    /// below it.
    pub fn workers_started(&self) -> (n: usize)
        ensures
            n == self@.workers.len(),
    {
        self.workers.len()
    }

    /// The phase of worker `worker`, if there is such a worker.
    pub fn phase(&self, worker: usize) -> (phase: Option<WorkerPhase>)
        ensures
            phase == if worker < self@.workers.len() {
                Some(self@.workers[worker as int])
            } else {
                None
            },
    {
        if worker < self.workers.len() {
            Some(self.workers[worker])
        } else {
            None
        }
    }

    /// The number of workers that have not ended.
    pub fn live_workers(&self) -> (n: usize)
        ensures
            n == self@.live(),
    {
        let mut idle: usize = 0;
        let mut busy: usize = 0;
        let mut i: usize = 0;
        let len: usize = self.workers.len();
        while i < len
            invariant
                i <= len,
                len == self.workers@.len(),
                idle == count(self.workers@.take(i as int), in_phase(WorkerPhase::Idle)),
                busy == count(self.workers@.take(i as int), in_phase(WorkerPhase::Busy)),
                idle + busy <= i,
            decreases len - i,
        {
            proof {
                let seen = self.workers@.take(i as int);
                assert(self.workers@.take(i + 1) =~= seen.push(self.workers@[i as int]));
                lemma_count_push(seen, self.workers@[i as int], in_phase(WorkerPhase::Idle));
                lemma_count_push(seen, self.workers@[i as int], in_phase(WorkerPhase::Busy));
            }
            match self.workers[i] {
                WorkerPhase::Idle => {
                    idle += 1;
                },
                WorkerPhase::Busy => {
                    busy += 1;
                },
                WorkerPhase::Exited => {},
            }
            i += 1;
        }
        proof {
            assert(self.workers@.take(len as int) =~= self.workers@);
        }
        idle + busy
    }

    /// The number of messages not yet claimed.
    pub fn queue_len(&self) -> (n: usize)
        ensures
            n == self@.queue.len(),
    {
        self.queue.len()
    }

    /// Whether the live workers are as many as the size asked for: in a
    /// well-formed pool, whether every `Terminate` has been claimed.
    pub fn settled(&self) -> (b: bool)
        ensures
            b == (self@.live() == self@.size),
            self@.wf() ==> b == (self@.pending_exits() == 0),
    {
        self.live_workers() == self.size
    }
}

} // verus!
