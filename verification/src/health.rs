//! Scores, thresholds and the arithmetic of health: clamping, staleness of
//! observations, and what the observations of other nodes add up to.
use vstd::prelude::*;

verus! {

/// Consecutive failures after which a provider's circuit breaker trips.
pub const CIRCUIT_BREAKER_THRESHOLD: u64 = 3;

/// How long a tripped circuit breaker stays open, in nanoseconds (five minutes).
pub const CIRCUIT_BREAKER_COOLDOWN_NANOS: u128 = 300_000_000_000;

/// Age from which another node's observation is ignored, in nanoseconds
/// (five minutes).
pub const REMOTE_OBSERVATION_TTL_NANOS: i128 = 300_000_000_000;

/// Silence after which a peer is no longer healthy, in nanoseconds (ten
/// minutes).
pub const PEER_STALE_AFTER_NANOS: i128 = 600_000_000_000;

/// The highest score.
pub const MAX_HEALTH_SCORE: i64 = 100;

/// The lowest score.
pub const MIN_HEALTH_SCORE: i64 = 0;

/// The score of a configured provider at start-up.
pub const LOCAL_PROVIDER_STARTING_SCORE: i64 = 70;

/// The score of a provider learnt from a peer, and the floor from which a
/// successful request lets a provider recover.
pub const DISCOVERED_PROVIDER_STARTING_SCORE: i64 = 55;

/// The score of a peer when it is first learnt of.
pub const PEER_STARTING_SCORE: i64 = 60;

/// Points for a successful request through a provider.
pub const LOCAL_SUCCESS_BONUS: i64 = 12;

/// Points lost for a failed request through a provider.
pub const LOCAL_FAILURE_PENALTY: i64 = 25;

/// Points for a successful health probe.
pub const PROBE_SUCCESS_BONUS: i64 = 6;

/// Points lost for a failed health probe.
pub const PROBE_FAILURE_PENALTY: i64 = 15;

/// Points for a successful gossip exchange with a peer.
pub const PEER_SUCCESS_BONUS: i64 = 8;

/// Points lost for a failed gossip exchange with a peer.
pub const PEER_FAILURE_PENALTY: i64 = 20;

/// Effective score from which a provider counts as healthy.
pub const MIN_PROVIDER_SCORE: i64 = 25;

/// At most this many providers are read from, or written into, a snapshot.
pub const MAX_GOSSIP_PROVIDERS: usize = 64;

/// At most this many peers are read from, or written into, a snapshot.
pub const MAX_GOSSIP_PEERS: usize = 64;

/// `score` brought into `[MIN_HEALTH_SCORE, MAX_HEALTH_SCORE]`.
pub open spec fn clamped(score: int) -> int {
    if score < MIN_HEALTH_SCORE {
        MIN_HEALTH_SCORE as int
    } else if score > MAX_HEALTH_SCORE {
        MAX_HEALTH_SCORE as int
    } else {
        score
    }
}

/// Whether `score` lies in `[MIN_HEALTH_SCORE, MAX_HEALTH_SCORE]`.
pub open spec fn score_in_range(score: int) -> bool {
    MIN_HEALTH_SCORE <= score <= MAX_HEALTH_SCORE
}

/// Brings `score` into `[MIN_HEALTH_SCORE, MAX_HEALTH_SCORE]`.
pub fn clamp_score(score: i64) -> (r: i64)
    ensures
        r == clamped(score as int),
        score_in_range(r as int),
{
    if score < MIN_HEALTH_SCORE {
        MIN_HEALTH_SCORE
    } else if score > MAX_HEALTH_SCORE {
        MAX_HEALTH_SCORE
    } else {
        score
    }
}

/// `current` moved by `delta`, then clamped.
pub fn adjust_score(current: i64, delta: i64) -> (r: i64)
    requires
        i64::MIN <= current + delta <= i64::MAX,
    ensures
        r == clamped(current + delta),
        score_in_range(r as int),
{
    clamp_score(current + delta)
}

/// Whether an observation made at `observed_at` is too old at `now`. An
/// observation stamped in the future is fresh.
pub open spec fn observation_stale(observed_at: i128, now: i128) -> bool {
    now - observed_at >= REMOTE_OBSERVATION_TTL_NANOS
}

/// Whether an observation made at `observed_at` is too old at `now`.
pub fn is_observation_stale(observed_at: i128, now: i128) -> (r: bool)
    ensures
        r == observation_stale(observed_at, now),
{
    observed_at <= i128::MAX - REMOTE_OBSERVATION_TTL_NANOS && now >= observed_at
        + REMOTE_OBSERVATION_TTL_NANOS
}

/// Whether a peer last heard from at `last_seen_at` still counts as live at
/// `now`. A peer never heard from counts as live.
pub open spec fn peer_recent(last_seen_at: Option<i128>, now: i128) -> bool {
    match last_seen_at {
        None => true,
        Some(t) => now - t < PEER_STALE_AFTER_NANOS,
    }
}

/// Whether a peer last heard from at `last_seen_at` still counts as live at `now`.
pub fn is_peer_recent(last_seen_at: Option<i128>, now: i128) -> (r: bool)
    ensures
        r == peer_recent(last_seen_at, now),
{
    match last_seen_at {
        None => true,
        Some(t) => !(t <= i128::MAX - PEER_STALE_AFTER_NANOS && now >= t + PEER_STALE_AFTER_NANOS),
    }
}

/// Whether a circuit breaker tripped at `tripped_at` is still open at the
/// monotonic time `now`.
pub open spec fn trip_active(tripped_at: Option<u128>, now: u128) -> bool {
    match tripped_at {
        None => false,
        Some(t) => now < t + CIRCUIT_BREAKER_COOLDOWN_NANOS,
    }
}

/// `tripped_at` with an expired trip forgotten.
pub open spec fn trip_after_expiry(tripped_at: Option<u128>, now: u128) -> Option<u128> {
    if trip_active(tripped_at, now) {
        tripped_at
    } else {
        None
    }
}

/// Whether the circuit breaker tripped at `tripped_at` is still open at `now`.
pub fn is_trip_active(tripped_at: Option<u128>, now: u128) -> (r: bool)
    ensures
        r == trip_active(tripped_at, now),
{
    match tripped_at {
        None => false,
        Some(t) => now < t || now - t < CIRCUIT_BREAKER_COOLDOWN_NANOS,
    }
}

/// A failure counter after one more failure; like an atomic increment, it wraps.
pub open spec fn next_failure_count(count: u64) -> u64 {
    if count == u64::MAX {
        0
    } else {
        (count + 1) as u64
    }
}

/// Whether a failure that follows `previous` failures reaches the threshold.
pub open spec fn reaches_threshold(previous: u64) -> bool {
    previous + 1 >= CIRCUIT_BREAKER_THRESHOLD
}

/// One more failure after `count`.
pub fn bump_failures(count: u64) -> (r: u64)
    ensures
        r == next_failure_count(count),
{
    if count == u64::MAX {
        0
    } else {
        count + 1
    }
}

/// What another node reported about a provider.
#[derive(Clone, Copy, Debug)]
pub struct RemoteProviderObservation {
    pub score: i64,
    pub latest_ledger: u64,
    pub consecutive_failures: u64,
    pub healthy: bool,
    pub observed_at: i128,
}

/// The observations among `obs` that are still fresh at `now`, in order.
pub open spec fn fresh_observations(obs: Seq<RemoteProviderObservation>, now: i128) -> Seq<
    RemoteProviderObservation,
>
    decreases obs.len(),
{
    if obs.len() == 0 {
        Seq::empty()
    } else {
        let rest = fresh_observations(obs.drop_last(), now);
        if observation_stale(obs.last().observed_at, now) {
            rest
        } else {
            rest.push(obs.last())
        }
    }
}

/// The sum of the scores in `obs`.
pub open spec fn score_total(obs: Seq<RemoteProviderObservation>) -> int
    decreases obs.len(),
{
    if obs.len() == 0 {
        0
    } else {
        score_total(obs.drop_last()) + obs.last().score
    }
}

/// The mean score of `obs`, rounded down, and 0 for none.
pub open spec fn mean_score(obs: Seq<RemoteProviderObservation>) -> int {
    if obs.len() == 0 {
        0
    } else {
        score_total(obs) / (obs.len() as int)
    }
}

/// Whether some observation in `obs` calls the provider healthy.
pub open spec fn any_healthy(obs: Seq<RemoteProviderObservation>) -> bool {
    exists|i: int| 0 <= i < obs.len() && #[trigger] obs[i].healthy
}

/// The highest ledger in `obs`, and 0 for none.
pub open spec fn best_ledger(obs: Seq<RemoteProviderObservation>) -> u64
    decreases obs.len(),
{
    if obs.len() == 0 {
        0
    } else {
        let rest = best_ledger(obs.drop_last());
        if obs.last().latest_ledger > rest {
            obs.last().latest_ledger
        } else {
            rest
        }
    }
}

/// The lowest failure count in `obs`, if there is one.
pub open spec fn fewest_failures(obs: Seq<RemoteProviderObservation>) -> Option<u64>
    decreases obs.len(),
{
    if obs.len() == 0 {
        None
    } else {
        let last = obs.last().consecutive_failures;
        match fewest_failures(obs.drop_last()) {
            None => Some(last),
            Some(m) => Some(
                if last < m {
                    last
                } else {
                    m
                },
            ),
        }
    }
}

/// Whether every score in `obs` lies in the score range.
pub open spec fn scores_in_range(obs: Seq<RemoteProviderObservation>) -> bool {
    forall|i: int| 0 <= i < obs.len() ==> score_in_range(#[trigger] obs[i].score as int)
}

/// What the fresh observations of a provider add up to.
pub struct ObservationSummary {
    pub count: usize,
    pub peer_score: i64,
    pub any_healthy: bool,
    pub best_ledger: u64,
    pub fewest_failures: Option<u64>,
}

/// Scores in range add up to at most the maximum score per observation.
pub proof fn lemma_score_total_bounds(obs: Seq<RemoteProviderObservation>)
    requires
        scores_in_range(obs),
    ensures
        0 <= score_total(obs) <= MAX_HEALTH_SCORE * obs.len(),
    decreases obs.len(),
{
    if obs.len() > 0 {
        lemma_score_total_bounds(obs.drop_last());
    }
}

/// The fresh observations are among the observations, so their scores
/// stay in range.
pub proof fn lemma_fresh_in_range(obs: Seq<RemoteProviderObservation>, now: i128)
    requires
        scores_in_range(obs),
    ensures
        scores_in_range(fresh_observations(obs, now)),
        fresh_observations(obs, now).len() <= obs.len(),
    decreases obs.len(),
{
    if obs.len() > 0 {
        lemma_fresh_in_range(obs.drop_last(), now);
    }
}

/// The mean of scores in range lies in range.
pub proof fn lemma_mean_score_in_range(obs: Seq<RemoteProviderObservation>)
    requires
        scores_in_range(obs),
    ensures
        score_in_range(mean_score(obs)),
{
    if obs.len() > 0 {
        lemma_score_total_bounds(obs);
        let n = obs.len() as int;
        let t = score_total(obs);
        assert(0 <= t / n <= MAX_HEALTH_SCORE) by (nonlinear_arith)
            requires
                0 <= t <= MAX_HEALTH_SCORE * n,
                n > 0,
        ;
    }
}

/// Sums up the observations in `obs` that are fresh at `now`.
pub fn summarize_observations(obs: &Vec<RemoteProviderObservation>, now: i128) -> (r:
    ObservationSummary)
    requires
        scores_in_range(obs@),
    ensures
        r.count == fresh_observations(obs@, now).len(),
        r.peer_score == mean_score(fresh_observations(obs@, now)),
        r.any_healthy == any_healthy(fresh_observations(obs@, now)),
        r.best_ledger == best_ledger(fresh_observations(obs@, now)),
        r.fewest_failures == fewest_failures(fresh_observations(obs@, now)),
        score_in_range(r.peer_score as int),
{
    let mut count: usize = 0;
    let mut total: i128 = 0;
    let mut healthy = false;
    let mut ledger: u64 = 0;
    let mut fewest: Option<u64> = None;
    let mut i: usize = 0;
    while i < obs.len()
        invariant
            i <= obs.len(),
            scores_in_range(obs@),
            ({
                let f = fresh_observations(obs@.take(i as int), now);
                &&& count == f.len()
                &&& total == score_total(f)
                &&& healthy == any_healthy(f)
                &&& ledger == best_ledger(f)
                &&& fewest == fewest_failures(f)
                &&& 0 <= total <= MAX_HEALTH_SCORE * count
                &&& count <= i
            }),
        decreases obs.len() - i,
    {
        let ghost before = fresh_observations(obs@.take(i as int), now);
        proof {
            assert(obs@.take(i + 1).drop_last() =~= obs@.take(i as int));
            assert(obs@.take(i + 1).last() == obs@[i as int]);
        }
        let o = obs[i];
        if !is_observation_stale(o.observed_at, now) {
            let ghost after = before.push(o);
            assert(score_in_range(o.score as int));
            count = count + 1;
            total = total + o.score as i128;
            proof {
                assert(after.drop_last() =~= before);
                assert forall|j: int| 0 <= j < after.len() && #[trigger] after[j].healthy implies (
                j == before.len() || (0 <= j < before.len() && before[j].healthy)) by {}
                if healthy {
                    let k = choose|k: int| 0 <= k < before.len() && #[trigger] before[k].healthy;
                    assert(after[k].healthy);
                }
                if o.healthy {
                    assert(after[before.len() as int].healthy);
                }
            }
            healthy = healthy || o.healthy;
            if o.latest_ledger > ledger {
                ledger = o.latest_ledger;
            }
            fewest = match fewest {
                None => Some(o.consecutive_failures),
                Some(m) => Some(
                    if o.consecutive_failures < m {
                        o.consecutive_failures
                    } else {
                        m
                    },
                ),
            };
        }
        i = i + 1;
    }
    proof {
        assert(obs@.take(obs.len() as int) =~= obs@);
        lemma_fresh_in_range(obs@, now);
        lemma_mean_score_in_range(fresh_observations(obs@, now));
    }
    let peer_score: i64 = if count == 0 {
        0
    } else {
        let m = total / (count as i128);
        proof {
            let n = count as int;
            let t = total as int;
            assert(0 <= t / n <= MAX_HEALTH_SCORE) by (nonlinear_arith)
                requires
                    0 <= t <= MAX_HEALTH_SCORE * n,
                    n > 0,
            ;
        }
        m as i64
    };
    ObservationSummary {
        count,
        peer_score,
        any_healthy: healthy,
        best_ledger: ledger,
        fewest_failures: fewest,
    }
}

} // verus!
