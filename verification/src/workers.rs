//! The pool manager: which worker gets which job, and when the manager has to
//! wait for a worker to become free.
//!
//! The manager never touches a channel or a process itself. It is told what
//! happened ([`Event`]), updates its record of the pool, and answers with what
//! has to be done next ([`Action`]).

use crate::config::WorkerConfig;
use crate::job_stream::Job;
use crate::pool::{
    all_busy, appended, busy_channels, first_idle, first_listener, first_seen, flagged,
    grouped, idle_pool, idled, lemma_first_idle, lemma_first_idle_is, lemma_first_listener,
    lemma_first_listener_is, lemma_first_seen, lemma_grouped_buckets, lemma_grouped_idle,
    lemma_grouped_push, lemma_plan_prefix, lemma_roster_is_complete, marked, plan, roster,
    types_of, Pool, Worker,
};
use crate::wire::{to_native_bytes, word};
use std::collections::HashMap;
use vstd::prelude::*;

verus! {

/// What the manager is told.
#[derive(Debug, PartialEq, Eq)]
pub enum Event {
    /// The job source produced this job.
    Job(Job),
    /// The wait that the manager asked for returned: these completion
    /// channels are readable.
    Ready(Vec<i32>),
}

/// What the manager asks for.
#[derive(Debug, Clone, Copy, PartialEq, Eq)]
pub enum Action {
    /// Write `payload` to the job channel of `worker`, which was idle and is
    /// now recorded as busy.
    Send { worker: Worker, payload: [u8; 4] },
    /// No worker of type `job_type` is idle: block until a completion channel
    /// of [`Manager::wait_set`] is readable and report which.
    Wait { job_type: u16 },
    /// Consume the completion signal on `channel`, then write `payload` to the
    /// job channel of `worker`.
    Reuse { channel: i32, worker: Worker, payload: [u8; 4] },
}

/// Why the manager refuses an event. The pool is left as it was.
#[derive(Debug, Clone, Copy, PartialEq, Eq)]
pub enum DispatchError {
    /// The pool has no worker of the job's type.
    NoWorkers,
    /// A job was offered while an earlier job still waits for a worker.
    JobPending,
    /// Readiness was reported though no job waits for a worker.
    NotWaiting,
    /// Readiness was reported with no channel in it.
    NothingReady,
    /// The channel reported ready belongs to no worker of the pending job's
    /// type.
    UnknownChannel,
}

/// Why a pool cannot be built.
#[derive(Debug, Clone, Copy, PartialEq, Eq)]
pub enum PoolError {
    /// The sizing asks for more workers than can be listed.
    TooManyWorkers,
    /// The workers handed over are not the ones that the sizing asks for.
    Mismatch,
}

/// The two ends of a one-way channel.
#[derive(Debug, Clone, Copy, PartialEq, Eq)]
pub struct Pipe {
    /// The end that is read from.
    pub read: i32,
    /// The end that is written to.
    pub write: i32,
}

/// Which side of a fork the caller is on.
#[derive(Debug, Clone, Copy, PartialEq, Eq)]
pub enum Fork {
    /// The manager's side; `child` is the process id of the new worker.
    Parent { child: i32 },
    /// The new worker's side.
    Child,
}

/// What a process does after the fork that creates a worker.
#[derive(Debug, Clone, Copy, PartialEq, Eq)]
pub enum Spawned {
    /// The manager closes the channel ends in `close`, in that order, and
    /// keeps `worker` as its record of the new process.
    Parent { worker: Worker, close: [i32; 2] },
    /// The worker closes the channel ends in `close`, in that order, then
    /// reads jobs from `job_receiver` and signals completion on
    /// `completion_sender` until it terminates.
    Child { job_receiver: i32, completion_sender: i32, close: [i32; 2] },
}

/// The outcome of one wait for a child process.
#[derive(Debug, Clone, Copy, PartialEq, Eq)]
pub enum WaitOutcome {
    /// The child `pid` exited with `status`.
    Exited { pid: i32, status: i32 },
    /// The child `pid` was ended by the signal `signal`.
    Signaled { pid: i32, signal: i32 },
    /// A child was stopped or went on after a stop; it has not ended.
    Changed,
    /// No child is left.
    NoChildren,
    /// The wait failed with the error number `errno`.
    Failed { errno: i32 },
}

/// What follows from one wait for a child process.
#[derive(Debug, Clone, Copy, PartialEq, Eq)]
pub enum ReapAction {
    /// Report that worker `pid` exited with `status`, then wait again.
    Report { pid: i32, status: i32 },
    /// Report that worker `pid` was ended by the signal `signal`, then wait
    /// again.
    ReportSignal { pid: i32, signal: i32 },
    /// Wait again.
    Again,
    /// Every child was reaped: shutdown is complete.
    Done,
    /// The wait failed for another reason than the absence of children.
    Fatal { errno: i32 },
}

/// The manager as its contracts see it.
#[verifier::ext_equal]
pub struct ManagerView {
    /// The workers, by type.
    pub pool: Pool,
    /// The job that was accepted but is not handed to a worker yet.
    pub pending: Option<Job>,
}

/// Every bucket has a worker, holds only workers of its own type, and a job
/// is pending only while every worker of its type is busy.
pub open spec fn well_formed(s: ManagerView) -> bool {
    &&& forall|t: u16| #[trigger] s.pool.contains_key(t) ==> s.pool[t].len() > 0
    &&& forall|t: u16, i: int|
        s.pool.contains_key(t) && 0 <= i < s.pool[t].len() ==> (#[trigger] s.pool[t][i]).worker_type
            == t
    &&& s.pending matches Some(job) ==> s.pool.contains_key(job.job_type) && all_busy(
        s.pool[job.job_type],
    )
}

/// What the manager does with a job while none is pending: the first idle
/// worker of the job's type gets it; if every worker of that type is busy,
/// the job becomes pending and the manager asks for a wait.
pub open spec fn accept(s: ManagerView, job: Job) -> (ManagerView, Result<Action, DispatchError>) {
    let t = job.job_type;
    if s.pending is Some {
        (s, Err(DispatchError::JobPending))
    } else if !s.pool.contains_key(t) {
        (s, Err(DispatchError::NoWorkers))
    } else {
        match first_idle(s.pool[t]) {
            Some(k) => (
                ManagerView { pool: marked(s.pool, t, k, true), pending: None },
                Ok(
                    Action::Send {
                        worker: flagged(s.pool[t][k], true),
                        payload: word(job.job_duration),
                    },
                ),
            ),
            None => (ManagerView { pool: s.pool, pending: Some(job) }, Ok(Action::Wait { job_type: t })),
        }
    }
}

/// What the manager does when told which channels are readable: the first
/// worker of the pending job's type that listens on the first of them is
/// recorded as idle, and the pending job is then dispatched again.
pub open spec fn resume(s: ManagerView, ready: Seq<i32>) -> (
    ManagerView,
    Result<Action, DispatchError>,
) {
    match s.pending {
        None => (s, Err(DispatchError::NotWaiting)),
        Some(job) => {
            let t = job.job_type;
            if ready.len() == 0 {
                (s, Err(DispatchError::NothingReady))
            } else {
                match first_listener(s.pool[t], ready[0]) {
                    None => (s, Err(DispatchError::UnknownChannel)),
                    Some(k) => {
                        let freed = ManagerView {
                            pool: marked(s.pool, t, k, false),
                            pending: None,
                        };
                        let (next, answer) = accept(freed, job);
                        match answer {
                            Ok(Action::Send { worker, payload }) => (
                                next,
                                Ok(Action::Reuse { channel: ready[0], worker, payload }),
                            ),
                            _ => (next, answer),
                        }
                    },
                }
            }
        },
    }
}

/// The channels to watch while a job is pending: the completion channels of
/// the busy workers of its type, in bucket order. None while no job is
/// pending.
pub open spec fn waiting_on(s: ManagerView) -> Seq<i32> {
    match s.pending {
        Some(job) => busy_channels(s.pool[job.job_type]),
        None => Seq::empty(),
    }
}

/// The manager's whole behaviour: the state after `event` and the answer to
/// it.
pub open spec fn step(s: ManagerView, event: Event) -> (ManagerView, Result<Action, DispatchError>) {
    match event {
        Event::Job(job) => accept(s, job),
        Event::Ready(channels) => resume(s, channels@),
    }
}

/// Setting the busy flag of one worker keeps a pool well formed, as long as no
/// job is pending afterwards.
pub proof fn lemma_marked_well_formed(s: ManagerView, t: u16, k: int, working: bool)
    requires
        well_formed(s),
        s.pool.contains_key(t),
        0 <= k < s.pool[t].len(),
    ensures
        well_formed(ManagerView { pool: marked(s.pool, t, k, working), pending: None }),
{
    let next = ManagerView { pool: marked(s.pool, t, k, working), pending: None };
    assert forall|u: u16| #[trigger] next.pool.contains_key(u) implies next.pool[u].len() > 0 by {
        assert(s.pool.contains_key(u));
    }
    assert forall|u: u16, i: int|
        next.pool.contains_key(u) && 0 <= i < next.pool[u].len() implies (
    #[trigger] next.pool[u][i]).worker_type == u by {
        assert(s.pool.contains_key(u));
        assert(s.pool[u][i].worker_type == u);
    }
}

/// Every state that the manager reaches from a well-formed state is well
/// formed.
pub proof fn lemma_step_well_formed(s: ManagerView, event: Event)
    requires
        well_formed(s),
    ensures
        well_formed(step(s, event).0),
{
    match event {
        Event::Job(job) => {
            lemma_accept_well_formed(s, job);
        },
        Event::Ready(channels) => {
            let ready = channels@;
            if let Some(job) = s.pending {
                let t = job.job_type;
                if ready.len() > 0 {
                    if let Some(k) = first_listener(s.pool[t], ready[0]) {
                        lemma_first_listener(s.pool[t], ready[0]);
                        lemma_marked_well_formed(s, t, k, false);
                        let freed = ManagerView { pool: marked(s.pool, t, k, false), pending: None };
                        lemma_accept_well_formed(freed, job);
                    }
                }
            }
        },
    }
}

/// Dispatching a job keeps the manager well formed.
pub proof fn lemma_accept_well_formed(s: ManagerView, job: Job)
    requires
        well_formed(s),
    ensures
        well_formed(accept(s, job).0),
{
    let t = job.job_type;
    if s.pending is None && s.pool.contains_key(t) {
        match first_idle(s.pool[t]) {
            Some(k) => {
                lemma_first_idle(s.pool[t]);
                lemma_marked_well_formed(s, t, k, true);
            },
            None => {},
        }
    }
}

/// Owner of every worker's record, grouped by worker type.
pub struct Manager {
    workers: HashMap<u16, Vec<Worker>>,
    types: Vec<u16>,
    pending: Option<Job>,
}

impl View for Manager {
    type V = ManagerView;

    closed spec fn view(&self) -> ManagerView {
        ManagerView {
            pool: Map::new(
                |t: u16| self.workers@.contains_key(t),
                |t: u16| self.workers@[t]@,
            ),
            pending: self.pending,
        }
    }
}

/// The position of the first idle worker of `bucket`.
fn find_idle(bucket: &Vec<Worker>) -> (found: Option<usize>)
    ensures
        found matches Some(k) ==> first_idle(bucket@) == Some(k as int) && k < bucket.len(),
        found is None ==> first_idle(bucket@) is None,
{
    let mut i: usize = 0;
    while i < bucket.len()
        invariant
            i <= bucket.len(),
            forall|j: int| 0 <= j < i ==> (#[trigger] bucket@[j]).working,
        decreases bucket.len() - i,
    {
        if !bucket[i].working {
            proof {
                lemma_first_idle_is(bucket@, i as int);
            }
            return Some(i);
        }
        i += 1;
    }
    None
}

/// The position of the first worker of `bucket` whose completion channel is
/// `channel`.
fn find_listener(bucket: &Vec<Worker>, channel: i32) -> (found: Option<usize>)
    ensures
        found matches Some(k) ==> first_listener(bucket@, channel) == Some(k as int) && k
            < bucket.len(),
        found is None ==> first_listener(bucket@, channel) is None,
{
    let mut i: usize = 0;
    while i < bucket.len()
        invariant
            i <= bucket.len(),
            forall|j: int| 0 <= j < i ==> (#[trigger] bucket@[j]).completion_receiver != channel,
        decreases bucket.len() - i,
    {
        if bucket[i].completion_receiver == channel {
            proof {
                lemma_first_listener_is(bucket@, channel, i as int);
            }
            return Some(i);
        }
        i += 1;
    }
    None
}

/// Decides what follows from one wait for a child during shutdown. Every
/// child that ended is reported, whether it exited or was ended by a signal,
/// and nothing else is done about it. A child that was only stopped or
/// continued is passed over. The absence of children ends the loop. Any other
/// failure of the wait is fatal.
pub fn reap(outcome: WaitOutcome) -> (action: ReapAction)
    ensures
        action == (match outcome {
            WaitOutcome::Exited { pid, status } => ReapAction::Report { pid, status },
            WaitOutcome::Signaled { pid, signal } => ReapAction::ReportSignal { pid, signal },
            WaitOutcome::Changed => ReapAction::Again,
            WaitOutcome::NoChildren => ReapAction::Done,
            WaitOutcome::Failed { errno } => ReapAction::Fatal { errno },
        }),
{
    match outcome {
        WaitOutcome::Exited { pid, status } => ReapAction::Report { pid, status },
        WaitOutcome::Signaled { pid, signal } => ReapAction::ReportSignal { pid, signal },
        WaitOutcome::Changed => ReapAction::Again,
        WaitOutcome::NoChildren => ReapAction::Done,
        WaitOutcome::Failed { errno } => ReapAction::Fatal { errno },
    }
}

impl Manager {
    /// Decides what each side does after the fork that creates a worker of
    /// type `worker_type`. `to_worker` carries jobs to the worker and
    /// `from_worker` carries its completion signals back; each side keeps the
    /// ends it uses and closes the two others. The manager's record of the
    /// new worker is idle.
    pub fn spawn_worker(worker_type: u16, to_worker: Pipe, from_worker: Pipe, fork: Fork) -> (spawned:
        Spawned)
        ensures
            spawned == (match fork {
                Fork::Parent { child } => Spawned::Parent {
                    worker: Worker {
                        pid: child,
                        worker_type,
                        completion_receiver: from_worker.read,
                        job_sender: to_worker.write,
                        working: false,
                    },
                    close: [from_worker.write, to_worker.read],
                },
                Fork::Child => Spawned::Child {
                    job_receiver: to_worker.read,
                    completion_sender: from_worker.write,
                    close: [from_worker.read, to_worker.write],
                },
            }),
    {
        match fork {
            Fork::Parent { child } => Spawned::Parent {
                worker: Worker {
                    pid: child,
                    worker_type,
                    completion_receiver: from_worker.read,
                    job_sender: to_worker.write,
                    working: false,
                },
                close: [from_worker.write, to_worker.read],
            },
            Fork::Child => Spawned::Child {
                job_receiver: to_worker.read,
                completion_sender: from_worker.write,
                close: [from_worker.read, to_worker.write],
            },
        }
    }

    /// The worker types of the pool, in the order in which their first
    /// workers were spawned.
    pub closed spec fn order(&self) -> Seq<u16> {
        self.types@
    }

    /// The record is consistent: `order` lists each worker type of the pool
    /// once.
    pub closed spec fn inv(&self) -> bool {
        &&& self.types@.no_duplicates()
        &&& forall|t: u16| self.types@.contains(t) <==> self.workers@.contains_key(t)
    }

    /// The manager is in a state that its operations can start from. Every
    /// manager that this module hands out is.
    pub open spec fn wf(&self) -> bool {
        self.inv() && well_formed(self@)
    }

    /// Lists the types of the workers to spawn for `worker_configs`, in
    /// spawning order: for each entry in turn, its type as many times as its
    /// count.
    pub fn spawn_plan(worker_configs: &[WorkerConfig]) -> (result: Result<Vec<u16>, PoolError>)
        ensures
            match result {
                Ok(types) => types@ == plan(worker_configs@),
                Err(e) => e == PoolError::TooManyWorkers && plan(worker_configs@).len()
                    > usize::MAX,
            },
    {
        let mut types: Vec<u16> = Vec::new();
        let mut i: usize = 0;
        while i < worker_configs.len()
            invariant
                i <= worker_configs.len(),
                types@ == plan(worker_configs@.take(i as int)),
            decreases worker_configs.len() - i,
        {
            let config = worker_configs[i];
            let ghost done = plan(worker_configs@.take(i as int));
            let ghost entries = worker_configs@.take(i + 1);
            assert(entries.drop_last() =~= worker_configs@.take(i as int));
            assert(entries.last() == config);
            let mut made: u32 = 0;
            while made < config.worker_count
                invariant
                    made <= config.worker_count,
                    i < worker_configs.len(),
                    done.len() + config.worker_count == plan(
                        worker_configs@.take(i + 1),
                    ).len(),
                    types@ == done + Seq::new(made as nat, |k: int| config.worker_type),
                decreases config.worker_count - made,
            {
                if types.len() == usize::MAX {
                    proof {
                        lemma_plan_prefix(worker_configs@, i + 1);
                    }
                    return Err(PoolError::TooManyWorkers);
                }
                types.push(config.worker_type);
                made += 1;
                assert(types@ =~= done + Seq::new(made as nat, |k: int| config.worker_type));
            }
            i += 1;
        }
        assert(worker_configs@.take(i as int) =~= worker_configs@);
        Ok(types)
    }

    /// Adds `worker` at the end of the bucket of its type.
    fn insert(&mut self, worker: Worker)
        requires
            old(self).inv(),
        ensures
            final(self).inv(),
            final(self)@.pool =~= appended(old(self)@.pool, worker),
            final(self)@.pending == old(self)@.pending,
            final(self).order() == if old(self).order().contains(worker.worker_type) {
                old(self).order()
            } else {
                old(self).order().push(worker.worker_type)
            },
    {
        broadcast use vstd::std_specs::hash::group_hash_axioms;

        let t = worker.worker_type;
        let ghost held = self.workers@;
        match self.workers.remove(&t) {
            Some(bucket) => {
                let mut bucket = bucket;
                bucket.push(worker);
                self.workers.insert(t, bucket);
                assert forall|u: u16| self.types@.contains(u) <==> self.workers@.contains_key(
                    u,
                ) by {
                    assert(self.workers@.contains_key(u) <==> held.contains_key(u));
                }
            },
            None => {
                let mut bucket: Vec<Worker> = Vec::new();
                bucket.push(worker);
                self.workers.insert(t, bucket);
                let ghost before = self.types@;
                assert(!before.contains(t));
                self.types.push(t);
                assert(self.types@[before.len() as int] == t);
                assert forall|u: u16| self.types@.contains(u) <==> self.workers@.contains_key(
                    u,
                ) by {
                    assert(self.workers@.contains_key(u) <==> (u == t || held.contains_key(u)));
                    if before.contains(u) {
                        let i = choose|i: int| 0 <= i < before.len() && before[i] == u;
                        assert(self.types@[i] == u);
                    }
                    if self.types@.contains(u) && u != t {
                        let i = choose|i: int| 0 <= i < self.types@.len() && self.types@[i] == u;
                        assert(before[i] == u);
                    }
                }
                assert forall|i: int, j: int|
                    0 <= i < self.types@.len() && 0 <= j < self.types@.len() && i
                        != j implies self.types@[i] != self.types@[j] by {
                    if i < before.len() {
                        assert(before[i] == self.types@[i]);
                    }
                    if j < before.len() {
                        assert(before[j] == self.types@[j]);
                    }
                }
            },
        }
    }

    /// Builds the manager of the pool that `worker_configs` asks for, from
    /// the records of the workers that were spawned for it. `workers` holds
    /// them in spawning order, so their types have to be those of
    /// [`Manager::spawn_plan`]. Each worker goes to the end of the bucket of
    /// its type and is recorded as idle, whatever its record says: no job was
    /// sent to a worker of a new pool. No job is pending.
    pub fn new(worker_configs: &[WorkerConfig], workers: Vec<Worker>) -> (result: Result<
        Manager,
        PoolError,
    >)
        ensures
            match result {
                Ok(manager) => {
                    &&& types_of(workers@) == plan(worker_configs@)
                    &&& manager.wf()
                    &&& manager@.pool == grouped(idled(workers@))
                    &&& idle_pool(manager@.pool)
                    &&& manager@.pending is None
                    &&& manager.order() == first_seen(idled(workers@))
                },
                Err(e) => e == PoolError::Mismatch && types_of(workers@) != plan(worker_configs@),
            },
    {
        let count = workers.len();
        let types = match Manager::spawn_plan(worker_configs) {
            Ok(types) => types,
            Err(_) => {
                assert(types_of(workers@).len() == count);
                assert(types_of(workers@).len() != plan(worker_configs@).len());
                return Err(PoolError::Mismatch);
            },
        };
        if types.len() != count {
            assert(types_of(workers@).len() != plan(worker_configs@).len());
            return Err(PoolError::Mismatch);
        }
        let mut manager = Manager { workers: HashMap::new(), types: Vec::new(), pending: None };
        let ghost fresh = idled(workers@);
        assert(manager@.pool =~= grouped(fresh.take(0))) by {
            reveal(Seq::filter);
        }
        let mut i: usize = 0;
        while i < workers.len()
            invariant
                i <= workers.len(),
                types@ == plan(worker_configs@),
                types.len() == workers.len(),
                fresh == idled(workers@),
                forall|j: int| 0 <= j < i ==> (#[trigger] workers@[j]).worker_type == types@[j],
                manager.inv(),
                manager@.pool =~= grouped(fresh.take(i as int)),
                manager@.pending is None,
                manager.order() == first_seen(fresh.take(i as int)),
            decreases workers.len() - i,
        {
            let worker = Worker { working: false, ..workers[i] };
            if worker.worker_type != types[i] {
                assert(types_of(workers@)[i as int] != plan(worker_configs@)[i as int]);
                return Err(PoolError::Mismatch);
            }
            proof {
                let before = fresh.take(i as int);
                assert(fresh.take(i + 1) =~= before.push(worker));
                assert(fresh.take(i + 1).drop_last() =~= before);
                lemma_grouped_push(before, worker);
                lemma_first_seen(before);
            }
            manager.insert(worker);
            i += 1;
        }
        proof {
            assert(fresh.take(i as int) =~= fresh);
            lemma_grouped_buckets(fresh);
            lemma_grouped_idle(workers@);
            assert(types_of(workers@) =~= plan(worker_configs@));
        }
        Ok(manager)
    }

    /// The job that was taken but is not handed to a worker yet.
    pub fn pending(&self) -> (job: Option<Job>)
        ensures
            job == self@.pending,
    {
        self.pending
    }

    /// The records of the workers of type `worker_type`, in bucket order, if
    /// the pool has any.
    pub fn bucket(&self, worker_type: u16) -> (workers: Option<Vec<Worker>>)
        ensures
            match workers {
                Some(workers) => self@.pool.contains_key(worker_type) && workers@
                    == self@.pool[worker_type],
                None => !self@.pool.contains_key(worker_type),
            },
    {
        broadcast use vstd::std_specs::hash::group_hash_axioms;

        match self.workers.get(&worker_type) {
            None => None,
            Some(bucket) => {
                let mut workers: Vec<Worker> = Vec::new();
                let mut i: usize = 0;
                while i < bucket.len()
                    invariant
                        i <= bucket.len(),
                        workers@ == bucket@.take(i as int),
                    decreases bucket.len() - i,
                {
                    workers.push(bucket[i]);
                    assert(workers@ =~= bucket@.take(i + 1));
                    i += 1;
                }
                assert(bucket@.take(i as int) =~= bucket@);
                Some(workers)
            },
        }
    }

    /// The completion channels to watch when [`Action::Wait`] was answered.
    pub fn wait_set(&self) -> (channels: Vec<i32>)
        requires
            self.wf(),
        ensures
            channels@ == waiting_on(self@),
    {
        broadcast use vstd::std_specs::hash::group_hash_axioms;

        let mut channels: Vec<i32> = Vec::new();
        let job = match self.pending {
            None => {
                return channels;
            },
            Some(job) => job,
        };
        let bucket = match self.workers.get(&job.job_type) {
            None => {
                return channels;
            },
            Some(bucket) => bucket,
        };
        assert(busy_channels(bucket@.take(0)) =~= Seq::empty()) by {
            reveal(Seq::filter);
        }
        let mut i: usize = 0;
        while i < bucket.len()
            invariant
                i <= bucket.len(),
                channels@ == busy_channels(bucket@.take(i as int)),
            decreases bucket.len() - i,
        {
            proof {
                reveal(Seq::filter);
                assert(bucket@.take(i + 1).drop_last() =~= bucket@.take(i as int));
            }
            if bucket[i].working {
                channels.push(bucket[i].completion_receiver);
            }
            assert(channels@ =~= busy_channels(bucket@.take(i + 1)));
            i += 1;
        }
        assert(bucket@.take(i as int) =~= bucket@);
        channels
    }

    /// The list that `shutdown` gives holds every worker of the pool once, in
    /// the order of its bucket: grouped by type it is the pool again. So the
    /// job channel of every worker is among those to close, and every worker
    /// reads the end of its job channel.
    pub proof fn lemma_shutdown_reaches_every_worker(&self)
        requires
            self.wf(),
        ensures
            self.order().no_duplicates(),
            forall|t: u16| self.order().contains(t) <==> self@.pool.contains_key(t),
            grouped(roster(self.order(), self@.pool)) == self@.pool,
    {
        lemma_roster_is_complete(self.order(), self@.pool);
    }

    /// Ends the manager's work: lists every worker of the pool, bucket after
    /// bucket in the order of `order`, so that the job channel of each can be
    /// closed. Every worker is listed once. A job that is still pending is
    /// dropped.
    pub fn shutdown(self) -> (workers: Vec<Worker>)
        requires
            self.wf(),
        ensures
            workers@ == roster(self.order(), self@.pool),
            grouped(workers@) == self@.pool,
    {
        broadcast use vstd::std_specs::hash::group_hash_axioms;

        proof {
            self.lemma_shutdown_reaches_every_worker();
        }

        let mut workers: Vec<Worker> = Vec::new();
        let mut i: usize = 0;
        while i < self.types.len()
            invariant
                i <= self.types.len(),
                self.inv(),
                workers@ == roster(self.types@.take(i as int), self@.pool),
            decreases self.types.len() - i,
        {
            let t = self.types[i];
            assert(self.types@.contains(t));
            assert(self.types@.take(i + 1).drop_last() =~= self.types@.take(i as int));
            let ghost before = workers@;
            match self.workers.get(&t) {
                None => {},
                Some(bucket) => {
                    let mut k: usize = 0;
                    while k < bucket.len()
                        invariant
                            k <= bucket.len(),
                            workers@ == before + bucket@.take(k as int),
                        decreases bucket.len() - k,
                    {
                        workers.push(bucket[k]);
                        assert(workers@ =~= before + bucket@.take(k + 1));
                        k += 1;
                    }
                    assert(bucket@.take(k as int) =~= bucket@);
                },
            }
            i += 1;
        }
        assert(self.types@.take(i as int) =~= self.types@);
        workers
    }

    /// Sets the busy flag of worker `k` of bucket `t` and returns its record.
    fn mark(&mut self, t: u16, k: usize, working: bool) -> (worker: Worker)
        requires
            old(self)@.pool.contains_key(t),
            k < old(self)@.pool[t].len(),
        ensures
            final(self)@.pool =~= marked(old(self)@.pool, t, k as int, working),
            final(self)@.pending == old(self)@.pending,
            final(self).order() == old(self).order(),
            old(self).inv() ==> final(self).inv(),
            worker == flagged(old(self)@.pool[t][k as int], working),
    {
        broadcast use vstd::std_specs::hash::group_hash_axioms;

        let taken = self.workers.remove(&t);
        let mut bucket = taken.unwrap();
        let worker = Worker { working, ..bucket[k] };
        bucket.set(k, worker);
        self.workers.insert(t, bucket);
        worker
    }

    /// Dispatches `job` while no job is pending.
    fn accept(&mut self, job: Job) -> (answer: Result<Action, DispatchError>)
        requires
            old(self).inv(),
        ensures
            final(self).inv(),
            final(self).order() == old(self).order(),
            final(self)@ =~= accept(old(self)@, job).0,
            answer == accept(old(self)@, job).1,
    {
        broadcast use vstd::std_specs::hash::group_hash_axioms;

        if self.pending.is_some() {
            return Err(DispatchError::JobPending);
        }
        let found = match self.workers.get(&job.job_type) {
            None => {
                return Err(DispatchError::NoWorkers);
            },
            Some(bucket) => find_idle(bucket),
        };
        match found {
            Some(k) => {
                let worker = self.mark(job.job_type, k, true);
                let payload = to_native_bytes(job.job_duration);
                Ok(Action::Send { worker, payload })
            },
            None => {
                self.pending = Some(job);
                Ok(Action::Wait { job_type: job.job_type })
            },
        }
    }

    /// Advances job processing by one event: takes the next job of the job
    /// source, or the report of the wait that the last answer asked for, and
    /// answers with what has to be done.
    ///
    /// A job goes to the first idle worker of its type. If there is none, the
    /// job is kept and `Wait` is answered; the report of that wait frees the
    /// worker whose completion channel comes first in it, and the kept job
    /// goes to the first idle worker. While a job is kept, no other job is
    /// taken.
    pub fn process_jobs(&mut self, event: &Event) -> (answer: Result<Action, DispatchError>)
        requires
            old(self).wf(),
        ensures
            final(self).wf(),
            final(self).order() == old(self).order(),
            final(self)@ == step(old(self)@, *event).0,
            answer == step(old(self)@, *event).1,
    {
        broadcast use vstd::std_specs::hash::group_hash_axioms;

        proof {
            lemma_step_well_formed(self@, *event);
        }
        match event {
            Event::Job(job) => {
                let answer = self.accept(*job);
                answer
            },
            Event::Ready(channels) => {
                let job = match self.pending {
                    None => {
                        return Err(DispatchError::NotWaiting);
                    },
                    Some(job) => job,
                };
                if channels.len() == 0 {
                    return Err(DispatchError::NothingReady);
                }
                let channel = channels[0];
                let found = match self.workers.get(&job.job_type) {
                    None => None,
                    Some(bucket) => find_listener(bucket, channel),
                };
                match found {
                    None => Err(DispatchError::UnknownChannel),
                    Some(k) => {
                        self.mark(job.job_type, k, false);
                        self.pending = None;
                        match self.accept(job) {
                            Ok(Action::Send { worker, payload }) => Ok(
                                Action::Reuse { channel, worker, payload },
                            ),
                            other => other,
                        }
                    },
                }
            },
        }
    }
}

} // verus!
