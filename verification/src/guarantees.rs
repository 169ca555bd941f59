//! What holds of the manager and its workers over any run: theorems about the
//! transition functions of [`crate::workers`] and [`crate::runtime`].

use crate::job_stream::Job;
use crate::pool::{
    all_busy, busy, busy_count, first_idle, first_listener, flagged, lemma_first_idle,
    lemma_first_idle_is, lemma_first_listener, marked, Pool,
};
use crate::runtime::{worker_step, WorkerAction, WorkerEvent, WorkerState, COMPLETION};
use crate::wire::{lemma_word_round_trip, word};
use crate::workers::{
    accept, lemma_marked_well_formed, lemma_step_well_formed, resume, step, well_formed, Action,
    DispatchError, Event, ManagerView,
};
use vstd::prelude::*;

verus! {

/// What a run of the manager amounts to.
pub struct Trace {
    /// The state that the run ends in.
    pub state: ManagerView,
    /// The jobs that the manager took, in the order in which they came.
    pub admitted: Seq<Job>,
    /// The payloads that the manager asked to be written to a worker's job
    /// channel, in the order in which it asked.
    pub handed: Seq<[u8; 4]>,
}

/// The run of the manager that starts in `s` and is told `events` in turn.
pub open spec fn trace(s: ManagerView, events: Seq<Event>) -> Trace
    decreases events.len(),
{
    if events.len() == 0 {
        Trace { state: s, admitted: Seq::empty(), handed: Seq::empty() }
    } else {
        let before = trace(s, events.drop_last());
        let (next, answer) = step(before.state, events.last());
        Trace {
            state: next,
            admitted: match (events.last(), answer) {
                (Event::Job(job), Ok(_)) => before.admitted.push(job),
                _ => before.admitted,
            },
            handed: match answer {
                Ok(Action::Send { worker, payload }) => before.handed.push(payload),
                Ok(Action::Reuse { channel, worker, payload }) => before.handed.push(payload),
                _ => before.handed,
            },
        }
    }
}

/// The two pools hold the same workers in the same places; only busy flags
/// may differ.
pub open spec fn same_members(p: Pool, q: Pool) -> bool {
    &&& forall|t: u16| p.contains_key(t) <==> q.contains_key(t)
    &&& forall|t: u16| #[trigger] p.contains_key(t) ==> p[t].len() == q[t].len()
    &&& forall|t: u16, i: int|
        #![trigger p[t][i]]
        #![trigger q[t][i]]
        p.contains_key(t) && 0 <= i < p[t].len() ==> flagged(p[t][i], false) == flagged(
            q[t][i],
            false,
        )
}

/// Setting a busy flag changes no membership.
proof fn lemma_marked_same_members(p: Pool, q: Pool, t: u16, k: int, working: bool)
    requires
        same_members(p, q),
        q.contains_key(t),
        0 <= k < q[t].len(),
    ensures
        same_members(p, marked(q, t, k, working)),
{
    let r = marked(q, t, k, working);
    assert forall|u: u16, i: int|
        #![trigger p[u][i]]
        #![trigger r[u][i]]
        p.contains_key(u) && 0 <= i < p[u].len() implies flagged(p[u][i], false) == flagged(
        r[u][i],
        false,
    ) by {
        assert(flagged(p[u][i], false) == flagged(q[u][i], false));
    }
}

/// One step of the manager changes no membership: no type and no worker is
/// added or removed.
pub proof fn lemma_step_keeps_members(s: ManagerView, event: Event)
    requires
        well_formed(s),
    ensures
        same_members(s.pool, step(s, event).0.pool),
{
    match event {
        Event::Job(job) => {
            lemma_accept_keeps_members(s.pool, s, job);
        },
        Event::Ready(channels) => {
            let ready = channels@;
            if let Some(job) = s.pending {
                let t = job.job_type;
                if ready.len() > 0 {
                    if let Some(k) = first_listener(s.pool[t], ready[0]) {
                        lemma_first_listener(s.pool[t], ready[0]);
                        lemma_marked_same_members(s.pool, s.pool, t, k, false);
                        lemma_marked_well_formed(s, t, k, false);
                        let freed = ManagerView { pool: marked(s.pool, t, k, false), pending: None };
                        lemma_accept_keeps_members(s.pool, freed, job);
                    }
                }
            }
        },
    }
}

/// Dispatching a job changes no membership.
proof fn lemma_accept_keeps_members(p: Pool, s: ManagerView, job: Job)
    requires
        same_members(p, s.pool),
    ensures
        same_members(p, accept(s, job).0.pool),
{
    let t = job.job_type;
    if s.pending is None && s.pool.contains_key(t) {
        if let Some(k) = first_idle(s.pool[t]) {
            lemma_first_idle(s.pool[t]);
            lemma_marked_same_members(p, s.pool, t, k, true);
        }
    }
}

/// The worker types of the pool and the workers of each type are fixed:
/// whatever the manager is told, the pool keeps its members, and it stays
/// well formed.
pub proof fn lemma_pool_is_fixed(s: ManagerView, events: Seq<Event>)
    requires
        well_formed(s),
    ensures
        well_formed(trace(s, events).state),
        same_members(s.pool, trace(s, events).state.pool),
    decreases events.len(),
{
    if events.len() > 0 {
        lemma_pool_is_fixed(s, events.drop_last());
        let before = trace(s, events.drop_last()).state;
        lemma_step_well_formed(before, events.last());
        lemma_step_keeps_members(before, events.last());
        let after = step(before, events.last()).0;
        assert(after == trace(s, events).state);
        assert forall|t: u16, i: int|
            #![trigger s.pool[t][i]]
            #![trigger after.pool[t][i]]
            s.pool.contains_key(t) && 0 <= i < s.pool[t].len() implies flagged(
            s.pool[t][i],
            false,
        ) == flagged(after.pool[t][i], false) by {
            assert(flagged(s.pool[t][i], false) == flagged(before.pool[t][i], false));
            assert(flagged(before.pool[t][i], false) == flagged(after.pool[t][i], false));
        }
    }
}

/// Dispatch respects capacity: whatever jobs and reports the manager is
/// told, the number of workers of a type that are recorded as busy never
/// exceeds the number of workers of that type that the pool was built with.
pub proof fn lemma_capacity_respected(s: ManagerView, events: Seq<Event>, t: u16)
    requires
        well_formed(s),
        s.pool.contains_key(t),
    ensures
        trace(s, events).state.pool.contains_key(t),
        trace(s, events).state.pool[t].len() == s.pool[t].len(),
        busy_count(trace(s, events).state.pool[t]) <= s.pool[t].len(),
{
    lemma_pool_is_fixed(s, events);
    trace(s, events).state.pool[t].lemma_filter_len(busy());
}

/// A job goes to a worker of its own type, and that worker was idle: the
/// worker named in `Send` is recorded as busy afterwards and was the first
/// idle worker of the job's bucket.
pub proof fn lemma_job_goes_to_its_type(s: ManagerView, job: Job)
    requires
        well_formed(s),
    ensures
        accept(s, job).1 matches Ok(Action::Send { worker, payload }) ==> {
            &&& worker.worker_type == job.job_type
            &&& worker.working
            &&& payload == word(job.job_duration)
            &&& (first_idle(s.pool[job.job_type]) matches Some(k) && !s.pool[job.job_type][k].working
                && accept(s, job).0.pool[job.job_type][k] == worker)
        },
        accept(s, job).1 is Err <==> s.pending is Some || !s.pool.contains_key(job.job_type),
        accept(s, job).1 matches Ok(Action::Wait { job_type }) ==> all_busy(s.pool[job.job_type]),
{
    let t = job.job_type;
    if s.pending is None && s.pool.contains_key(t) {
        lemma_first_idle(s.pool[t]);
    }
}

/// A busy worker is idle again once its completion signal is consumed, and
/// the job that waited for it is the one it gets: the report of a wait frees
/// the worker that listens on the reported channel, the retry finds that
/// worker as the first idle one, and the answer asks to drain its channel and
/// to send it the pending job. The pool is then as it was before the report,
/// with every worker of the type busy, and no job is pending.
pub proof fn lemma_completion_frees_worker(s: ManagerView, job: Job, ready: Seq<i32>, k: int)
    requires
        well_formed(s),
        s.pending == Some(job),
        ready.len() > 0,
        first_listener(s.pool[job.job_type], ready[0]) == Some(k),
    ensures
        !marked(s.pool, job.job_type, k, false)[job.job_type][k].working,
        first_idle(marked(s.pool, job.job_type, k, false)[job.job_type]) == Some(k),
        resume(s, ready).0 == (ManagerView { pool: s.pool, pending: None }),
        resume(s, ready).1 == Ok::<Action, DispatchError>(
            Action::Reuse {
                channel: ready[0],
                worker: s.pool[job.job_type][k],
                payload: word(job.job_duration),
            },
        ),
        s.pool[job.job_type][k].completion_receiver == ready[0],
{
    let t = job.job_type;
    let bucket = s.pool[t];
    lemma_first_listener(bucket, ready[0]);
    let freed = marked(s.pool, t, k, false);
    assert(bucket[k].working);
    assert forall|i: int| 0 <= i < k implies (#[trigger] freed[t][i]).working by {
        assert(bucket[i].working);
    }
    lemma_first_idle_is(freed[t], k);
    assert(flagged(freed[t][k], true) == bucket[k]);
    assert(freed[t].update(k, flagged(freed[t][k], true)) =~= bucket);
    assert(s.pool.contains_key(t));
    assert(marked(freed, t, k, true) =~= s.pool);
}

/// Jobs are admitted one at a time and handed over in the order in which
/// they came. In any run that starts with no job pending, the payloads handed
/// to workers are, in order, the durations of the jobs admitted, and at most
/// the last admitted job is still to be handed over: it is the pending one.
/// So while a job waits for a worker no later job is admitted, sent or waited
/// for.
pub proof fn lemma_first_come_first_served(s: ManagerView, events: Seq<Event>)
    requires
        well_formed(s),
        s.pending is None,
    ensures
        ({
            let run = trace(s, events);
            &&& run.handed.len() <= run.admitted.len()
            &&& forall|i: int|
                0 <= i < run.handed.len() ==> #[trigger] run.handed[i] == word(
                    run.admitted[i].job_duration,
                )
            &&& match run.state.pending {
                Some(job) => run.admitted.len() == run.handed.len() + 1 && run.admitted.last()
                    == job,
                None => run.admitted.len() == run.handed.len(),
            }
        }),
    decreases events.len(),
{
    if events.len() > 0 {
        lemma_first_come_first_served(s, events.drop_last());
        lemma_pool_is_fixed(s, events.drop_last());
        let before = trace(s, events.drop_last());
        let run = trace(s, events);
        match events.last() {
            Event::Job(job) => {
                lemma_job_goes_to_its_type(before.state, job);
            },
            Event::Ready(channels) => {
                let ready = channels@;
                if let Some(job) = before.state.pending {
                    if ready.len() > 0 {
                        if let Some(k) = first_listener(
                            before.state.pool[job.job_type],
                            ready[0],
                        ) {
                            lemma_completion_frees_worker(before.state, job, ready, k);
                        }
                    }
                }
            },
        }
        assert forall|i: int| 0 <= i < run.handed.len() implies #[trigger] run.handed[i] == word(
            run.admitted[i].job_duration,
        ) by {
            if i < before.handed.len() {
                assert(run.handed[i] == before.handed[i]);
                assert(run.admitted[i] == before.admitted[i]);
            }
        }
    }
}

/// While a job is pending, a further job is refused and changes nothing: it
/// is neither sent nor waited for before the pending one has been handed to
/// a worker.
pub proof fn lemma_pending_job_goes_first(s: ManagerView, later: Job)
    requires
        s.pending is Some,
    ensures
        step(s, Event::Job(later)) == (s, Err::<Action, DispatchError>(DispatchError::JobPending)),
{
}

/// A job's duration reaches the worker unchanged: the worker that reads the
/// payload of a job of `duration` seconds works for `duration` seconds.
pub proof fn lemma_duration_arrives_intact(duration: u32, count: usize)
    requires
        count > 0,
    ensures
        worker_step(WorkerState::Idle, WorkerEvent::Read { count, bytes: word(duration) })
            == Some(
            (WorkerState::Busy { duration }, WorkerAction::Work { seconds: duration as u64 }),
        ),
{
    lemma_word_round_trip(duration);
}

/// A worker never terminates in the middle of a job: the only thing that
/// can happen to a busy worker is that its work finishes, and then it signals
/// completion and is idle. Only an idle worker that reads the end of its job
/// channel terminates, and a terminated worker does nothing more.
pub proof fn lemma_worker_finishes_its_job(state: WorkerState, event: WorkerEvent)
    ensures
        state is Busy ==> worker_step(state, event) is None || worker_step(state, event) == Some(
            (WorkerState::Idle, WorkerAction::Signal { payload: word(COMPLETION) }),
        ),
        (worker_step(state, event) matches Some(after) && after.0 is Terminated) ==> (state
            is Idle && (event matches WorkerEvent::Read { count, .. } && count == 0)),
        state is Terminated ==> worker_step(state, event) is None,
{
}

} // verus!
