//! The mathematical model of a worker pool: buckets of workers keyed by the
//! type of job they take, and the questions the manager asks of a bucket.

use crate::config::WorkerConfig;
use vstd::prelude::*;

verus! {

/// One worker process as the manager sees it: its identity, the manager's ends
/// of its two channels, and whether a job was sent to it whose completion
/// signal has not been consumed yet.
#[derive(Debug, Clone, Copy, PartialEq, Eq)]
pub struct Worker {
    /// Process id of the worker.
    pub pid: i32,
    /// The type of job this worker takes.
    pub worker_type: u16,
    /// Read end of the channel on which the worker signals completion.
    pub completion_receiver: i32,
    /// Write end of the channel on which the manager sends jobs.
    pub job_sender: i32,
    /// Whether the worker is busy.
    pub working: bool,
}

/// A pool: for each worker type that has workers, its workers in the order in
/// which they were spawned.
pub type Pool = Map<u16, Seq<Worker>>;

/// `worker` with its busy flag set to `working`.
pub open spec fn flagged(worker: Worker, working: bool) -> Worker {
    Worker { working, ..worker }
}

/// Every worker of the bucket is busy.
pub open spec fn all_busy(bucket: Seq<Worker>) -> bool {
    forall|i: int| 0 <= i < bucket.len() ==> (#[trigger] bucket[i]).working
}

/// `k` is the position of the first idle worker of the bucket.
pub open spec fn is_first_idle(bucket: Seq<Worker>, k: int) -> bool {
    &&& 0 <= k < bucket.len()
    &&& !bucket[k].working
    &&& forall|i: int| 0 <= i < k ==> (#[trigger] bucket[i]).working
}

/// The position of the first idle worker of the bucket, if it has one.
pub open spec fn first_idle(bucket: Seq<Worker>) -> Option<int> {
    if all_busy(bucket) {
        None
    } else {
        Some(choose|k: int| is_first_idle(bucket, k))
    }
}

/// No worker of the bucket listens on `channel` for completion signals.
pub open spec fn no_listener(bucket: Seq<Worker>, channel: i32) -> bool {
    forall|i: int| 0 <= i < bucket.len() ==> (#[trigger] bucket[i]).completion_receiver != channel
}

/// `k` is the position of the first worker of the bucket whose completion
/// channel is `channel`.
pub open spec fn is_first_listener(bucket: Seq<Worker>, channel: i32, k: int) -> bool {
    &&& 0 <= k < bucket.len()
    &&& bucket[k].completion_receiver == channel
    &&& forall|i: int| 0 <= i < k ==> (#[trigger] bucket[i]).completion_receiver != channel
}

/// The position of the first worker of the bucket whose completion channel is
/// `channel`, if there is one.
pub open spec fn first_listener(bucket: Seq<Worker>, channel: i32) -> Option<int> {
    if no_listener(bucket, channel) {
        None
    } else {
        Some(choose|k: int| is_first_listener(bucket, channel, k))
    }
}

/// The test for a busy worker.
pub open spec fn busy() -> spec_fn(Worker) -> bool {
    |w: Worker| w.working
}

/// The test for a worker of type `t`.
pub open spec fn of_type(t: u16) -> spec_fn(Worker) -> bool {
    |w: Worker| w.worker_type == t
}

/// The number of busy workers of the bucket.
pub open spec fn busy_count(bucket: Seq<Worker>) -> nat {
    bucket.filter(busy()).len()
}

/// The completion channels of the busy workers of the bucket, in bucket order.
pub open spec fn busy_channels(bucket: Seq<Worker>) -> Seq<i32> {
    bucket.filter(busy()).map_values(|w: Worker| w.completion_receiver)
}

/// The worker types to spawn for `configs`, in spawning order: for each entry
/// in turn, its type as many times as its count.
pub open spec fn plan(configs: Seq<WorkerConfig>) -> Seq<u16>
    decreases configs.len(),
{
    if configs.len() == 0 {
        Seq::empty()
    } else {
        plan(configs.drop_last()) + Seq::new(
            configs.last().worker_count as nat,
            |i: int| configs.last().worker_type,
        )
    }
}

/// `workers`, each recorded as idle.
pub open spec fn idled(workers: Seq<Worker>) -> Seq<Worker> {
    workers.map_values(|w: Worker| flagged(w, false))
}

/// Every worker of the pool is idle.
pub open spec fn idle_pool(pool: Pool) -> bool {
    forall|t: u16, i: int|
        pool.contains_key(t) && 0 <= i < pool[t].len() ==> !(#[trigger] pool[t][i]).working
}

/// The type of each worker of `workers`.
pub open spec fn types_of(workers: Seq<Worker>) -> Seq<u16> {
    workers.map_values(|w: Worker| w.worker_type)
}

/// The workers of type `t` among `workers`, in order.
pub open spec fn bucket_of(workers: Seq<Worker>, t: u16) -> Seq<Worker> {
    workers.filter(of_type(t))
}

/// The pool that holds `workers`: each worker in the bucket of its type, in
/// the order of `workers`. Only types that have a worker have a bucket.
pub open spec fn grouped(workers: Seq<Worker>) -> Pool {
    Map::new(|t: u16| bucket_of(workers, t).len() > 0, |t: u16| bucket_of(workers, t))
}

/// The types of `workers`, each once, in the order in which they first
/// occur.
pub open spec fn first_seen(workers: Seq<Worker>) -> Seq<u16>
    decreases workers.len(),
{
    if workers.len() == 0 {
        Seq::empty()
    } else {
        let before = first_seen(workers.drop_last());
        if before.contains(workers.last().worker_type) {
            before
        } else {
            before.push(workers.last().worker_type)
        }
    }
}

/// The workers of the buckets that `order` names, bucket after bucket.
pub open spec fn roster(order: Seq<u16>, pool: Pool) -> Seq<Worker>
    decreases order.len(),
{
    if order.len() == 0 {
        Seq::empty()
    } else {
        roster(order.drop_last(), pool) + pool[order.last()]
    }
}

/// The pool with `worker` added at the end of the bucket of its type.
pub open spec fn appended(pool: Pool, worker: Worker) -> Pool {
    let t = worker.worker_type;
    if pool.contains_key(t) {
        pool.insert(t, pool[t].push(worker))
    } else {
        pool.insert(t, seq![worker])
    }
}

/// The pool in which worker `k` of bucket `t` has its busy flag set to
/// `working` and every other worker is as in `pool`.
pub open spec fn marked(pool: Pool, t: u16, k: int, working: bool) -> Pool {
    pool.insert(t, pool[t].update(k, flagged(pool[t][k], working)))
}

/// Below an idle worker at position `n` there is a first idle worker.
proof fn lemma_idle_has_first(bucket: Seq<Worker>, n: int)
    requires
        0 <= n < bucket.len(),
        !bucket[n].working,
    ensures
        exists|k: int| is_first_idle(bucket, k),
    decreases n,
{
    if forall|i: int| 0 <= i < n ==> (#[trigger] bucket[i]).working {
        assert(is_first_idle(bucket, n));
    } else {
        let i = choose|i: int| 0 <= i < n && !(#[trigger] bucket[i]).working;
        lemma_idle_has_first(bucket, i);
    }
}

/// Below a listener on `channel` at position `n` there is a first one.
proof fn lemma_listener_has_first(bucket: Seq<Worker>, channel: i32, n: int)
    requires
        0 <= n < bucket.len(),
        bucket[n].completion_receiver == channel,
    ensures
        exists|k: int| is_first_listener(bucket, channel, k),
    decreases n,
{
    if forall|i: int| 0 <= i < n ==> (#[trigger] bucket[i]).completion_receiver != channel {
        assert(is_first_listener(bucket, channel, n));
    } else {
        let i = choose|i: int| 0 <= i < n && (#[trigger] bucket[i]).completion_receiver == channel;
        lemma_listener_has_first(bucket, channel, i);
    }
}

/// What `first_idle` answers: the position of the first idle worker, or
/// nothing when every worker is busy.
pub proof fn lemma_first_idle(bucket: Seq<Worker>)
    ensures
        match first_idle(bucket) {
            Some(k) => is_first_idle(bucket, k),
            None => all_busy(bucket),
        },
{
    if !all_busy(bucket) {
        let n = choose|n: int| 0 <= n < bucket.len() && !(#[trigger] bucket[n]).working;
        lemma_idle_has_first(bucket, n);
    }
}

/// What `first_listener` answers: the position of the first worker that
/// listens on `channel`, or nothing when no worker does.
pub proof fn lemma_first_listener(bucket: Seq<Worker>, channel: i32)
    ensures
        match first_listener(bucket, channel) {
            Some(k) => is_first_listener(bucket, channel, k),
            None => no_listener(bucket, channel),
        },
{
    if !no_listener(bucket, channel) {
        let n = choose|n: int|
            0 <= n < bucket.len() && (#[trigger] bucket[n]).completion_receiver == channel;
        lemma_listener_has_first(bucket, channel, n);
    }
}

/// The position found by a scan for the first idle worker is the one that
/// `first_idle` names.
pub proof fn lemma_first_idle_is(bucket: Seq<Worker>, k: int)
    requires
        is_first_idle(bucket, k),
    ensures
        first_idle(bucket) == Some(k),
{
    assert(!bucket[k].working);
    let c = choose|c: int| is_first_idle(bucket, c);
    assert(is_first_idle(bucket, c));
    if c < k {
        assert(bucket[c].working);
    }
    if k < c {
        assert(bucket[k].working);
    }
}

/// The position found by a scan for the first listener on `channel` is the
/// one that `first_listener` names.
pub proof fn lemma_first_listener_is(bucket: Seq<Worker>, channel: i32, k: int)
    requires
        is_first_listener(bucket, channel, k),
    ensures
        first_listener(bucket, channel) == Some(k),
{
    assert(bucket[k].completion_receiver == channel);
    let c = choose|c: int| is_first_listener(bucket, channel, c);
    assert(is_first_listener(bucket, channel, c));
    if c < k {
        assert(bucket[c].completion_receiver != channel);
    }
    if k < c {
        assert(bucket[k].completion_receiver != channel);
    }
}

/// One more worker goes to the end of the bucket of its type and leaves the
/// other buckets as they are.
pub proof fn lemma_grouped_push(workers: Seq<Worker>, worker: Worker)
    ensures
        grouped(workers.push(worker)) =~= appended(grouped(workers), worker),
{
    let more = workers.push(worker);
    assert(more.drop_last() =~= workers);
    assert forall|t: u16| #[trigger]
        bucket_of(more, t) == if t == worker.worker_type {
            bucket_of(workers, t).push(worker)
        } else {
            bucket_of(workers, t)
        } by {
        reveal(Seq::filter);
    }
    let t = worker.worker_type;
    assert(bucket_of(more, t) == bucket_of(workers, t).push(worker));
    if !grouped(workers).contains_key(t) {
        assert(bucket_of(workers, t) =~= Seq::empty());
        assert(bucket_of(workers, t).push(worker) =~= seq![worker]);
    }
    assert forall|u: u16| grouped(more).contains_key(u) <==> appended(
        grouped(workers),
        worker,
    ).contains_key(u) by {
        assert(bucket_of(more, u).len() > 0 <==> (u == t || bucket_of(workers, u).len() > 0));
    }
}

/// A type is listed by `first_seen` exactly if some worker has it, and no
/// type is listed twice.
pub proof fn lemma_first_seen(workers: Seq<Worker>)
    ensures
        first_seen(workers).no_duplicates(),
        forall|t: u16| first_seen(workers).contains(t) <==> #[trigger] grouped(workers).contains_key(t),
    decreases workers.len(),
{
    if workers.len() == 0 {
        assert forall|t: u16| !(#[trigger] grouped(workers).contains_key(t)) by {
            reveal(Seq::filter);
        }
    } else {
        let before = workers.drop_last();
        let w = workers.last();
        lemma_first_seen(before);
        assert(before.push(w) =~= workers);
        lemma_grouped_push(before, w);
        let seen = first_seen(before);
        assert forall|t: u16| first_seen(workers).contains(t) <==> #[trigger] grouped(
            workers,
        ).contains_key(t) by {
            if seen.contains(w.worker_type) {
            } else {
                let grown = seen.push(w.worker_type);
                assert(grown.last() == w.worker_type);
                if grown.contains(t) {
                    let i = choose|i: int| 0 <= i < grown.len() && grown[i] == t;
                    if i < seen.len() {
                        assert(seen[i] == t);
                    }
                }
                if seen.contains(t) {
                    let i = choose|i: int| 0 <= i < seen.len() && seen[i] == t;
                    assert(grown[i] == t);
                }
                assert(grown[seen.len() as int] == w.worker_type);
            }
            assert(grouped(before).contains_key(t) <==> seen.contains(t));
        }
    }
}

/// In the pool that holds `workers`, every bucket has a worker and holds
/// workers of its own type only.
pub proof fn lemma_grouped_buckets(workers: Seq<Worker>)
    ensures
        forall|t: u16| #[trigger] grouped(workers).contains_key(t) ==> grouped(workers)[t].len() > 0,
        forall|t: u16, i: int|
            grouped(workers).contains_key(t) && 0 <= i < grouped(workers)[t].len() ==> (
            #[trigger] grouped(workers)[t][i]).worker_type == t,
{
    assert forall|t: u16, i: int|
        grouped(workers).contains_key(t) && 0 <= i < grouped(workers)[t].len() implies (
    #[trigger] grouped(workers)[t][i]).worker_type == t by {
        workers.lemma_filter_pred(of_type(t), i);
    }
}

/// The plan for the first `n` entries is the beginning of the whole plan, so
/// it is not longer.
pub proof fn lemma_plan_prefix(configs: Seq<WorkerConfig>, n: int)
    requires
        0 <= n <= configs.len(),
    ensures
        plan(configs.take(n)).len() <= plan(configs).len(),
        plan(configs.take(n)) == plan(configs).take(plan(configs.take(n)).len() as int),
    decreases configs.len(),
{
    if n == configs.len() {
        assert(configs.take(n) =~= configs);
        assert(plan(configs).take(plan(configs).len() as int) =~= plan(configs));
    } else {
        lemma_plan_prefix(configs.drop_last(), n);
        assert(configs.drop_last().take(n) =~= configs.take(n));
        let short = plan(configs.take(n));
        assert(short =~= plan(configs).take(short.len() as int));
    }
}

/// A pool of records that were all set idle is idle.
pub proof fn lemma_grouped_idle(workers: Seq<Worker>)
    ensures
        idle_pool(grouped(idled(workers))),
        types_of(idled(workers)) == types_of(workers),
{
    let fresh = idled(workers);
    let pool = grouped(fresh);
    assert forall|t: u16, i: int| pool.contains_key(t) && 0 <= i < pool[t].len() implies !(
    #[trigger] pool[t][i]).working by {
        let bucket = bucket_of(fresh, t);
        let w = bucket[i];
        assert(bucket.contains(w));
        fresh.lemma_filter_contains_rev(of_type(t), w);
        let j = choose|j: int| 0 <= j < fresh.len() && fresh[j] == w;
        assert(fresh[j] == flagged(workers[j], false));
    }
    assert(types_of(fresh) =~= types_of(workers));
}

/// Where every worker passes the test, the test keeps all of them.
proof fn lemma_filter_keeps_all(s: Seq<Worker>, pred: spec_fn(Worker) -> bool)
    requires
        forall|i: int| 0 <= i < s.len() ==> pred(#[trigger] s[i]),
    ensures
        s.filter(pred) == s,
    decreases s.len(),
{
    reveal(Seq::filter);
    if s.len() > 0 {
        lemma_filter_keeps_all(s.drop_last(), pred);
        assert(s.drop_last().push(s.last()) =~= s);
    }
}

/// Where no worker passes the test, the test keeps none.
proof fn lemma_filter_keeps_none(s: Seq<Worker>, pred: spec_fn(Worker) -> bool)
    requires
        forall|i: int| 0 <= i < s.len() ==> !pred(#[trigger] s[i]),
    ensures
        s.filter(pred) == Seq::<Worker>::empty(),
    decreases s.len(),
{
    reveal(Seq::filter);
    if s.len() > 0 {
        lemma_filter_keeps_none(s.drop_last(), pred);
    } else {
        assert(s =~= Seq::<Worker>::empty());
    }
}

/// The workers of type `t` in a roster are the bucket of `t`, if `order`
/// names `t`, and none otherwise.
pub proof fn lemma_roster_bucket(order: Seq<u16>, pool: Pool, t: u16)
    requires
        order.no_duplicates(),
        forall|i: int| 0 <= i < order.len() ==> pool.contains_key(#[trigger] order[i]),
        forall|u: u16, i: int|
            pool.contains_key(u) && 0 <= i < pool[u].len() ==> (#[trigger] pool[u][i]).worker_type
                == u,
    ensures
        bucket_of(roster(order, pool), t) == if order.contains(t) {
            pool[t]
        } else {
            Seq::<Worker>::empty()
        },
    decreases order.len(),
{
    if order.len() == 0 {
        lemma_filter_keeps_none(roster(order, pool), of_type(t));
    } else {
        let rest = order.drop_last();
        let u = order.last();
        lemma_roster_bucket(rest, pool, t);
        Seq::filter_distributes_over_add(roster(rest, pool), pool[u], of_type(t));
        assert(pool.contains_key(u));
        if u == t {
            lemma_filter_keeps_all(pool[u], of_type(t));
            if rest.contains(t) {
                let i = choose|i: int| 0 <= i < rest.len() && rest[i] == t;
                assert(order[i] == order[order.len() - 1]);
            }
            assert(order.contains(t));
            assert(Seq::<Worker>::empty() + pool[t] =~= pool[t]);
        } else {
            lemma_filter_keeps_none(pool[u], of_type(t));
            assert(order.contains(t) <==> rest.contains(t)) by {
                if rest.contains(t) {
                    let i = choose|i: int| 0 <= i < rest.len() && rest[i] == t;
                    assert(order[i] == t);
                }
                if order.contains(t) {
                    let i = choose|i: int| 0 <= i < order.len() && order[i] == t;
                    assert(rest[i] == t);
                }
            }
            assert(roster(rest, pool) + Seq::<Worker>::empty() =~= roster(rest, pool));
        }
    }
}

/// A roster holds every worker of the pool once and keeps the order of each
/// bucket: grouping it by type gives the pool back. This holds where `order`
/// names each type of the pool once, and every bucket has a worker and holds
/// workers of its own type only.
pub proof fn lemma_roster_is_complete(order: Seq<u16>, pool: Pool)
    requires
        order.no_duplicates(),
        forall|t: u16| order.contains(t) <==> pool.contains_key(t),
        forall|t: u16| #[trigger] pool.contains_key(t) ==> pool[t].len() > 0,
        forall|u: u16, i: int|
            pool.contains_key(u) && 0 <= i < pool[u].len() ==> (#[trigger] pool[u][i]).worker_type
                == u,
    ensures
        grouped(roster(order, pool)) =~= pool,
{
    assert forall|i: int| 0 <= i < order.len() implies pool.contains_key(#[trigger] order[i]) by {
        assert(order.contains(order[i]));
    }
    assert forall|t: u16|
        bucket_of(roster(order, pool), t) == if pool.contains_key(t) {
            pool[t]
        } else {
            Seq::<Worker>::empty()
        } by {
        lemma_roster_bucket(order, pool, t);
    }
    assert forall|t: u16| grouped(roster(order, pool)).contains_key(t) <==> pool.contains_key(
        t,
    ) by {
        lemma_roster_bucket(order, pool, t);
    }
}

} // verus!
