//! The worker pool as a state machine: a fixed set of workers and the queue
//! of jobs that they claim in the order of submission.
//!
//! The pool holds no threads. The program around it runs one thread for
//! each worker and reports to the pool what happens: a job is submitted, a
//! worker asks for work, finishes a job or dies in one, the pool is closed.
//! The pool decides what each worker does next.
use std::collections::VecDeque;
use vstd::prelude::*;

verus! {

/// The state of one worker.
#[derive(Debug, Clone, Copy, PartialEq, Eq, Structural)]
pub enum WorkerState {
    /// Waiting for a job.
    Idle,
    /// Running a job.
    Busy,
    /// Left after the queue was closed and empty.
    Stopped,
    /// Died while it ran a job.
    Crashed,
}

/// What a worker that asked for work does next.
pub enum Claim<J> {
    /// Run this job, then report that it is finished.
    Run(J),
    /// No job is queued and more may come: wait.
    Wait,
    /// No job is queued and none will come: leave.
    Exit,
}

/// Why the pool refused a call.
#[derive(Debug, Clone, Copy, PartialEq, Eq, Structural)]
pub enum PoolError {
    /// A pool needs at least one worker.
    NoWorkers,
    /// The pool is closed and takes no more jobs.
    Closed,
    /// The worker does not exist or is not idle.
    NotIdle,
    /// The worker does not exist or is not running a job.
    NotBusy,
}

/// A pool of workers with its queue of jobs of type `J`.
pub struct ThreadPool<J> {
    workers: Vec<WorkerState>,
    queue: VecDeque<J>,
    open: bool,
}

/// What a pool holds.
pub struct PoolView<J> {
    /// The state of each worker, by its number.
    pub workers: Seq<WorkerState>,
    /// The jobs that wait, the oldest first.
    pub queue: Seq<J>,
    /// Whether jobs can still be submitted.
    pub open: bool,
}

/// What can happen to a pool.
pub enum Event<J> {
    /// A job is submitted.
    Submit(J),
    /// The worker of this number asks for work.
    Claim(usize),
    /// The worker of this number has finished its job.
    Finish(usize),
    /// The worker of this number died in its job.
    Crash(usize),
    /// The pool is closed to further jobs.
    Close,
}

impl<J> PoolView<J> {
    /// Worker `w` exists and is in state `state`.
    pub open spec fn worker_is(self, w: usize, state: WorkerState) -> bool {
        w < self.workers.len() && self.workers[w as int] == state
    }

    /// The pool with worker `w` in state `state`.
    pub open spec fn with_worker(self, w: usize, state: WorkerState) -> PoolView<J> {
        PoolView { workers: self.workers.update(w as int, state), ..self }
    }

    /// Some worker has left after the queue was closed and empty.
    pub open spec fn some_stopped(self) -> bool {
        exists|w: usize| self.worker_is(w, WorkerState::Stopped)
    }

    /// A pool has at least one worker, and a worker leaves only once the
    /// queue is closed and empty.
    pub open spec fn wf(self) -> bool {
        &&& self.workers.len() > 0
        &&& self.some_stopped() ==> !self.open && self.queue.len() == 0
    }

    /// The job that the event hands to a worker, if it hands one out.
    pub open spec fn handed(self, event: Event<J>) -> Option<J> {
        match event {
            Event::Claim(w) => if self.worker_is(w, WorkerState::Idle) && self.queue.len() > 0 {
                Some(self.queue[0])
            } else {
                None
            },
            _ => None,
        }
    }

    /// The job that the event adds to the queue, if it adds one.
    pub open spec fn accepted(self, event: Event<J>) -> Option<J> {
        match event {
            Event::Submit(job) => if self.open {
                Some(job)
            } else {
                None
            },
            _ => None,
        }
    }

    /// The pool after the event.
    ///
    /// A job is queued while the pool is open. An idle worker that asks for
    /// work takes the oldest job; with none queued it waits while the pool
    /// is open and leaves once it is closed. A busy worker becomes idle
    /// when it finishes and is lost when it dies. An event that does not
    /// fit the state changes nothing.
    pub open spec fn step(self, event: Event<J>) -> PoolView<J> {
        match event {
            Event::Submit(job) => if self.open {
                PoolView { queue: self.queue.push(job), ..self }
            } else {
                self
            },
            Event::Claim(w) => if !self.worker_is(w, WorkerState::Idle) {
                self
            } else if self.queue.len() > 0 {
                PoolView { queue: self.queue.drop_first(), ..self.with_worker(
                    w,
                    WorkerState::Busy,
                ) }
            } else if self.open {
                self
            } else {
                self.with_worker(w, WorkerState::Stopped)
            },
            Event::Finish(w) => if self.worker_is(w, WorkerState::Busy) {
                self.with_worker(w, WorkerState::Idle)
            } else {
                self
            },
            Event::Crash(w) => if self.worker_is(w, WorkerState::Busy) {
                self.with_worker(w, WorkerState::Crashed)
            } else {
                self
            },
            Event::Close => PoolView { open: false, ..self },
        }
    }

    /// The pool after a sequence of events.
    pub open spec fn run(self, events: Seq<Event<J>>) -> PoolView<J>
        decreases events.len(),
    {
        if events.len() == 0 {
            self
        } else {
            self.run(events.drop_last()).step(events.last())
        }
    }

    /// The jobs handed to workers in the course of the events, in the
    /// order in which they were handed out.
    pub open spec fn handed_out(self, events: Seq<Event<J>>) -> Seq<J>
        decreases events.len(),
    {
        if events.len() == 0 {
            Seq::empty()
        } else {
            let earlier = self.handed_out(events.drop_last());
            match self.run(events.drop_last()).handed(events.last()) {
                Some(job) => earlier.push(job),
                None => earlier,
            }
        }
    }

    /// The jobs added to the queue in the course of the events, in the
    /// order of their submission.
    pub open spec fn taken_in(self, events: Seq<Event<J>>) -> Seq<J>
        decreases events.len(),
    {
        if events.len() == 0 {
            Seq::empty()
        } else {
            let earlier = self.taken_in(events.drop_last());
            match self.run(events.drop_last()).accepted(events.last()) {
                Some(job) => earlier.push(job),
                None => earlier,
            }
        }
    }
}

impl<J> View for ThreadPool<J> {
    type V = PoolView<J>;

    closed spec fn view(&self) -> PoolView<J> {
        PoolView { workers: self.workers@, queue: self.queue@, open: self.open }
    }
}

impl<J> ThreadPool<J> {
    /// A pool of `num_workers` idle workers with an empty, open queue.
    /// A pool without workers is refused.
    pub fn new(num_workers: usize) -> (r: Result<ThreadPool<J>, PoolError>)
        ensures
            match r {
                Ok(pool) => num_workers > 0 && pool@ == (PoolView::<J> {
                    workers: Seq::new(num_workers as nat, |i: int| WorkerState::Idle),
                    queue: Seq::empty(),
                    open: true,
                }) && pool@.wf(),
                Err(e) => num_workers == 0 && e == PoolError::NoWorkers,
            },
    {
        if num_workers == 0 {
            return Err(PoolError::NoWorkers);
        }
        let mut workers: Vec<WorkerState> = Vec::new();
        let mut i: usize = 0;
        while i < num_workers
            invariant
                i <= num_workers,
                workers@ == Seq::new(i as nat, |k: int| WorkerState::Idle),
            decreases num_workers - i,
        {
            workers.push(WorkerState::Idle);
            i = i + 1;
            assert(workers@ =~= Seq::new(i as nat, |k: int| WorkerState::Idle));
        }
        let pool = ThreadPool { workers, queue: VecDeque::new(), open: true };
        assert(!pool@.some_stopped());
        Ok(pool)
    }

    /// Submits a job. It is queued behind the jobs submitted before it,
    /// unless the pool is closed.
    pub fn execute(&mut self, job: J) -> (r: Result<(), PoolError>)
        ensures
            final(self)@ == old(self)@.step(Event::Submit(job)),
            old(self)@.wf() ==> final(self)@.wf(),
            match r {
                Ok(()) => old(self)@.open,
                Err(e) => !old(self)@.open && e == PoolError::Closed,
            },
    {
        proof {
            if self@.wf() {
                lemma_step_keeps_wf(self@, Event::Submit(job));
            }
        }
        if !self.open {
            return Err(PoolError::Closed);
        }
        self.queue.push_back(job);
        Ok(())
    }

    /// Worker `worker` asks for work. An idle worker is handed the oldest
    /// queued job; with no job queued it is told to wait while the pool is
    /// open and to leave once it is closed.
    pub fn claim(&mut self, worker: usize) -> (r: Result<Claim<J>, PoolError>)
        ensures
            final(self)@ == old(self)@.step(Event::Claim(worker)),
            old(self)@.wf() ==> final(self)@.wf(),
            match r {
                Ok(Claim::Run(job)) => old(self)@.handed(Event::Claim(worker)) == Some(job),
                Ok(Claim::Wait) => old(self)@.worker_is(worker, WorkerState::Idle) && old(
                    self,
                )@.queue.len() == 0 && old(self)@.open,
                Ok(Claim::Exit) => old(self)@.worker_is(worker, WorkerState::Idle) && old(
                    self,
                )@.queue.len() == 0 && !old(self)@.open,
                Err(e) => !old(self)@.worker_is(worker, WorkerState::Idle) && e
                    == PoolError::NotIdle,
            },
    {
        proof {
            if self@.wf() {
                lemma_step_keeps_wf(self@, Event::Claim(worker));
            }
        }
        if !self.in_state(worker, WorkerState::Idle) {
            return Err(PoolError::NotIdle);
        }
        match self.queue.pop_front() {
            Some(job) => {
                self.workers.set(worker, WorkerState::Busy);
                assert(self@.queue =~= old(self)@.queue.drop_first());
                Ok(Claim::Run(job))
            },
            None => {
                if self.open {
                    Ok(Claim::Wait)
                } else {
                    self.workers.set(worker, WorkerState::Stopped);
                    Ok(Claim::Exit)
                }
            },
        }
    }

    /// Worker `worker` has finished its job and is idle again.
    pub fn finish(&mut self, worker: usize) -> (r: Result<(), PoolError>)
        ensures
            final(self)@ == old(self)@.step(Event::Finish(worker)),
            old(self)@.wf() ==> final(self)@.wf(),
            match r {
                Ok(()) => old(self)@.worker_is(worker, WorkerState::Busy),
                Err(e) => !old(self)@.worker_is(worker, WorkerState::Busy) && e
                    == PoolError::NotBusy,
            },
    {
        proof {
            if self@.wf() {
                lemma_step_keeps_wf(self@, Event::Finish(worker));
            }
        }
        if !self.in_state(worker, WorkerState::Busy) {
            return Err(PoolError::NotBusy);
        }
        self.workers.set(worker, WorkerState::Idle);
        Ok(())
    }

    /// Worker `worker` died in its job. It never takes another one.
    pub fn crash(&mut self, worker: usize) -> (r: Result<(), PoolError>)
        ensures
            final(self)@ == old(self)@.step(Event::Crash(worker)),
            old(self)@.wf() ==> final(self)@.wf(),
            match r {
                Ok(()) => old(self)@.worker_is(worker, WorkerState::Busy),
                Err(e) => !old(self)@.worker_is(worker, WorkerState::Busy) && e
                    == PoolError::NotBusy,
            },
    {
        proof {
            if self@.wf() {
                lemma_step_keeps_wf(self@, Event::Crash(worker));
            }
        }
        if !self.in_state(worker, WorkerState::Busy) {
            return Err(PoolError::NotBusy);
        }
        self.workers.set(worker, WorkerState::Crashed);
        Ok(())
    }

    /// Closes the pool to further jobs. The jobs that are queued stay
    /// queued.
    pub fn close(&mut self)
        ensures
            final(self)@ == old(self)@.step(Event::Close),
            old(self)@.wf() ==> final(self)@.wf(),
    {
        proof {
            if self@.wf() {
                lemma_step_keeps_wf(self@, Event::<J>::Close);
            }
        }
        self.open = false;
    }

    /// Whether worker `worker` exists and is in state `state`.
    pub fn in_state(&self, worker: usize, state: WorkerState) -> (r: bool)
        ensures
            r == self@.worker_is(worker, state),
    {
        worker < self.workers.len() && self.workers[worker] == state
    }

    /// The number of workers that the pool was made with.
    pub fn size(&self) -> (r: usize)
        ensures
            r == self@.workers.len(),
    {
        self.workers.len()
    }

    /// The number of jobs that wait in the queue.
    pub fn queued(&self) -> (r: usize)
        ensures
            r == self@.queue.len(),
    {
        proof {
            vstd::std_specs::vecdeque::axiom_spec_len(&self.queue);
        }
        self.queue.len()
    }

    /// Whether jobs can still be submitted.
    pub fn is_open(&self) -> (r: bool)
        ensures
            r == self@.open,
    {
        self.open
    }

    /// Whether every worker has left or died, so that nothing is left to
    /// wait for.
    pub fn is_finished(&self) -> (r: bool)
        ensures
            r == forall|w: usize|
                w < self@.workers.len() ==> !self@.worker_is(w, WorkerState::Idle)
                    && !self@.worker_is(w, WorkerState::Busy),
    {
        let mut i: usize = 0;
        while i < self.workers.len()
            invariant
                i <= self.workers@.len(),
                forall|w: usize|
                    w < i ==> !self@.worker_is(w, WorkerState::Idle) && !self@.worker_is(
                        w,
                        WorkerState::Busy,
                    ),
            decreases self.workers@.len() - i,
        {
            if self.in_state(i, WorkerState::Idle) || self.in_state(i, WorkerState::Busy) {
                return false;
            }
            i = i + 1;
        }
        true
    }
}

/// An event leaves a well-formed pool well formed: no worker leaves while a
/// job is queued or may still come.
pub proof fn lemma_step_keeps_wf<J>(pool: PoolView<J>, event: Event<J>)
    requires
        pool.wf(),
    ensures
        pool.step(event).wf(),
{
    let after = pool.step(event);
    if after.some_stopped() {
        let s = choose|w: usize| after.worker_is(w, WorkerState::Stopped);
        match event {
            Event::Submit(_) => {
                assert(pool.worker_is(s, WorkerState::Stopped));
            },
            Event::Claim(w) => {
                if s != w || after.workers == pool.workers {
                    assert(pool.worker_is(s, WorkerState::Stopped));
                }
            },
            Event::Finish(w) => {
                assert(pool.worker_is(s, WorkerState::Stopped));
            },
            Event::Crash(w) => {
                assert(pool.worker_is(s, WorkerState::Stopped));
            },
            Event::Close => {
                assert(pool.worker_is(s, WorkerState::Stopped));
            },
        }
    }
}

/// A sequence of events leaves a well-formed pool well formed.
pub proof fn lemma_run_keeps_wf<J>(pool: PoolView<J>, events: Seq<Event<J>>)
    requires
        pool.wf(),
    ensures
        pool.run(events).wf(),
    decreases events.len(),
{
    if events.len() > 0 {
        lemma_run_keeps_wf(pool, events.drop_last());
        lemma_step_keeps_wf(pool.run(events.drop_last()), events.last());
    }
}

/// The number of workers never changes, and a worker that has left or died
/// stays so: the pool never grows.
pub proof fn lemma_step_never_revives<J>(pool: PoolView<J>, event: Event<J>, w: usize)
    ensures
        pool.step(event).workers.len() == pool.workers.len(),
        pool.worker_is(w, WorkerState::Stopped) ==> pool.step(event).worker_is(
            w,
            WorkerState::Stopped,
        ),
        pool.worker_is(w, WorkerState::Crashed) ==> pool.step(event).worker_is(
            w,
            WorkerState::Crashed,
        ),
{
}

/// A closed pool stays closed and takes in no job.
pub proof fn lemma_closed_takes_nothing<J>(pool: PoolView<J>, events: Seq<Event<J>>)
    requires
        !pool.open,
    ensures
        !pool.run(events).open,
        pool.taken_in(events) == Seq::<J>::empty(),
    decreases events.len(),
{
    if events.len() > 0 {
        lemma_closed_takes_nothing(pool, events.drop_last());
    }
}

/// Jobs are neither lost nor handed out twice, and they leave in the order
/// in which they came: the jobs handed to workers, followed by those still
/// queued, are the jobs that were queued at first followed by those taken
/// in since.
pub proof fn lemma_jobs_conserved<J>(pool: PoolView<J>, events: Seq<Event<J>>)
    ensures
        pool.handed_out(events) + pool.run(events).queue == pool.queue + pool.taken_in(events),
    decreases events.len(),
{
    if events.len() == 0 {
        assert(pool.handed_out(events) + pool.run(events).queue =~= pool.queue + pool.taken_in(
            events,
        ));
    } else {
        let earlier = events.drop_last();
        let before = pool.run(earlier);
        lemma_jobs_conserved(pool, earlier);
        assert(pool.handed_out(events) + before.step(events.last()).queue =~= (pool.handed_out(
            earlier,
        ) + before.queue) + match before.accepted(events.last()) {
            Some(job) => seq![job],
            None => Seq::empty(),
        });
        assert(pool.queue + pool.taken_in(events) =~= (pool.queue + pool.taken_in(earlier))
            + match before.accepted(events.last()) {
            Some(job) => seq![job],
            None => Seq::empty(),
        });
    }
}

/// Closing the pool drops no job: once any worker of a closed pool has
/// left, every job that was queued when the pool was closed has been handed
/// to a worker, in the order of the queue.
pub proof fn lemma_shutdown_drains<J>(pool: PoolView<J>, events: Seq<Event<J>>)
    requires
        pool.wf(),
        !pool.open,
        pool.run(events).some_stopped(),
    ensures
        pool.handed_out(events) == pool.queue,
{
    lemma_run_keeps_wf(pool, events);
    lemma_closed_takes_nothing(pool, events);
    lemma_jobs_conserved(pool, events);
    assert(pool.handed_out(events) =~= pool.handed_out(events) + pool.run(events).queue);
    assert(pool.queue =~= pool.queue + pool.taken_in(events));
}

/// The events of submitting the jobs one after another.
pub open spec fn submissions<J>(jobs: Seq<J>) -> Seq<Event<J>> {
    Seq::new(jobs.len(), |i: int| Event::Submit(jobs[i]))
}

/// The events of one worker's turns: in each turn it asks for work and
/// then finishes what it was given.
pub open spec fn turns<J>(w: usize, rounds: nat) -> Seq<Event<J>>
    decreases rounds,
{
    if rounds == 0 {
        Seq::empty()
    } else {
        turns::<J>(w, (rounds - 1) as nat).push(Event::Claim(w)).push(Event::Finish(w))
    }
}

/// An open pool refuses no job: whatever their number, the jobs submitted
/// are queued behind those that wait, in the order of submission, and
/// nothing else changes.
pub proof fn lemma_submissions_queue<J>(pool: PoolView<J>, jobs: Seq<J>)
    requires
        pool.open,
    ensures
        pool.run(submissions(jobs)).queue == pool.queue + jobs,
        pool.run(submissions(jobs)).workers == pool.workers,
        pool.run(submissions(jobs)).open,
        pool.taken_in(submissions(jobs)) == jobs,
    decreases jobs.len(),
{
    let events = submissions(jobs);
    if jobs.len() == 0 {
        assert(pool.queue + jobs =~= pool.queue);
        assert(pool.taken_in(events) =~= jobs);
    } else {
        let earlier = jobs.drop_last();
        assert(events.drop_last() =~= submissions(earlier));
        assert(events.last() == Event::Submit(jobs.last()));
        lemma_submissions_queue(pool, earlier);
        assert((pool.queue + earlier).push(jobs.last()) =~= pool.queue + jobs);
        assert(earlier.push(jobs.last()) =~= jobs);
    }
}

/// A worker that keeps asking for work and finishing it is handed the
/// queued jobs one by one, the oldest first, and is idle again after each.
pub proof fn lemma_worker_takes_jobs_in_turn<J>(pool: PoolView<J>, w: usize, rounds: nat)
    requires
        pool.worker_is(w, WorkerState::Idle),
        rounds <= pool.queue.len(),
    ensures
        pool.handed_out(turns(w, rounds)) == pool.queue.subrange(0, rounds as int),
        pool.run(turns(w, rounds)).queue == pool.queue.subrange(
            rounds as int,
            pool.queue.len() as int,
        ),
        pool.run(turns(w, rounds)).workers == pool.workers,
        pool.run(turns(w, rounds)).open == pool.open,
    decreases rounds,
{
    let events = turns::<J>(w, rounds);
    if rounds == 0 {
        assert(pool.handed_out(events) =~= pool.queue.subrange(0, 0));
        assert(pool.queue.subrange(0, pool.queue.len() as int) =~= pool.queue);
    } else {
        let before = turns::<J>(w, (rounds - 1) as nat);
        let asked = before.push(Event::Claim(w));
        lemma_worker_takes_jobs_in_turn(pool, w, (rounds - 1) as nat);
        assert(events.drop_last() =~= asked);
        assert(asked.drop_last() =~= before);
        let idle = pool.run(before);
        let busy = idle.step(Event::Claim(w));
        assert(idle.worker_is(w, WorkerState::Idle));
        assert(idle.queue.len() > 0);
        assert(idle.queue[0] == pool.queue[rounds - 1]);
        assert(pool.run(asked) == busy);
        assert(busy.queue =~= pool.queue.subrange(rounds as int, pool.queue.len() as int));
        assert(busy.worker_is(w, WorkerState::Busy));
        assert(busy.step(Event::Finish(w)).workers =~= pool.workers);
        assert(pool.handed_out(asked) == pool.handed_out(before).push(pool.queue[rounds - 1]));
        assert(pool.handed_out(events) == pool.handed_out(asked));
        assert(pool.queue.subrange(0, rounds - 1).push(pool.queue[rounds - 1])
            =~= pool.queue.subrange(0, rounds as int));
    }
}

/// However many jobs are submitted to an open pool, and however few
/// workers it has, every job reaches a worker exactly once: the jobs wait
/// in the queue, and one worker that keeps asking is handed all of them in
/// the order of submission and leaves the queue empty.
pub proof fn lemma_every_job_reaches_a_worker<J>(pool: PoolView<J>, jobs: Seq<J>, w: usize)
    requires
        pool.open,
        pool.worker_is(w, WorkerState::Idle),
    ensures
        ({
            let queued = pool.run(submissions(jobs));
            let rounds = queued.queue.len();
            &&& queued.queue == pool.queue + jobs
            &&& queued.handed_out(turns(w, rounds)) == pool.queue + jobs
            &&& queued.run(turns(w, rounds)).queue.len() == 0
        }),
{
    lemma_submissions_queue(pool, jobs);
    let queued = pool.run(submissions(jobs));
    let rounds = queued.queue.len();
    lemma_worker_takes_jobs_in_turn(queued, w, rounds);
    assert(queued.queue.subrange(0, rounds as int) =~= queued.queue);
}

} // verus!
