//! What the registry remembers of one provider and of one peer node, how
//! each event changes it, and the health report that it gives.
use vstd::prelude::*;
use crate::health::{adjust_score, any_healthy, best_ledger, bump_failures, clamp_score, clamped,
    fewest_failures, fresh_observations, is_peer_recent, is_trip_active, mean_score,
    next_failure_count, peer_recent, reaches_threshold, score_in_range, scores_in_range,
    summarize_observations, trip_active, trip_after_expiry, RemoteProviderObservation,
    CIRCUIT_BREAKER_THRESHOLD, DISCOVERED_PROVIDER_STARTING_SCORE, LOCAL_SUCCESS_BONUS,
    MAX_HEALTH_SCORE, MIN_PROVIDER_SCORE, PEER_FAILURE_PENALTY, PEER_STARTING_SCORE,
    PEER_SUCCESS_BONUS, PROBE_SUCCESS_BONUS};
use crate::provider::{copy_opt_string, PeerHealthReport, ProviderHealthReport, ProviderView,
    RpcProvider};

verus! {

/// How the registry learnt of a provider.
#[derive(Clone, Copy, Debug, PartialEq, Eq, Structural)]
pub enum ProviderSource {
    /// Configured at start-up.
    Seed,
    /// Learnt from a peer's snapshot.
    Gossip,
}

/// The label of a source in reports.
pub open spec fn source_label(source: ProviderSource) -> Seq<char> {
    match source {
        ProviderSource::Seed => "seed"@,
        ProviderSource::Gossip => "gossip"@,
    }
}

/// The label of `source` in reports.
pub fn source_text(source: ProviderSource) -> (r: String)
    ensures
        r@ == source_label(source),
{
    match source {
        ProviderSource::Seed => String::from_str("seed"),
        ProviderSource::Gossip => String::from_str("gossip"),
    }
}

/// What the registry remembers of one provider.
pub struct ProviderState {
    provider: RpcProvider,
    source: ProviderSource,
    local_score: i64,
    consecutive_failures: u64,
    /// Monotonic time at which the circuit breaker last tripped.
    tripped_at: Option<u128>,
    latest_ledger: u64,
    last_local_observed_at: Option<i128>,
    /// Who made each observation: a peer's base URL, or its instance id.
    observation_keys: Vec<String>,
    observations: Vec<RemoteProviderObservation>,
}

/// What the logic sees of a [`ProviderState`].
#[verifier::ext_equal]
pub struct ProviderStateView {
    pub provider: ProviderView,
    pub source: ProviderSource,
    pub local_score: i64,
    pub consecutive_failures: u64,
    pub tripped_at: Option<u128>,
    pub latest_ledger: u64,
    pub last_local_observed_at: Option<i128>,
    pub observation_keys: Seq<Seq<char>>,
    pub observations: Seq<RemoteProviderObservation>,
}

impl View for ProviderState {
    type V = ProviderStateView;

    closed spec fn view(&self) -> ProviderStateView {
        ProviderStateView {
            provider: self.provider@,
            source: self.source,
            local_score: self.local_score,
            consecutive_failures: self.consecutive_failures,
            tripped_at: self.tripped_at,
            latest_ledger: self.latest_ledger,
            last_local_observed_at: self.last_local_observed_at,
            observation_keys: self.observation_keys@.map_values(|k: String| k@),
            observations: self.observations@,
        }
    }
}

/// What the logic sees of a [`ProviderHealthReport`].
#[verifier::ext_equal]
pub struct ProviderReportView {
    pub name: Seq<char>,
    pub url: Seq<char>,
    pub effective_score: i64,
    pub local_score: i64,
    pub peer_score: i64,
    pub latest_ledger: u64,
    pub consecutive_failures: u64,
    pub healthy: bool,
    pub source: Seq<char>,
    pub observation_count: nat,
}

impl View for ProviderHealthReport {
    type V = ProviderReportView;

    open spec fn view(&self) -> ProviderReportView {
        ProviderReportView {
            name: self.name@,
            url: self.url@,
            effective_score: self.effective_score,
            local_score: self.local_score,
            peer_score: self.peer_score,
            latest_ledger: self.latest_ledger,
            consecutive_failures: self.consecutive_failures,
            healthy: self.healthy,
            source: self.source@,
            observation_count: self.observation_count as nat,
        }
    }
}

/// Whether no element of `s` occurs twice.
pub open spec fn distinct<A>(s: Seq<A>) -> bool {
    forall|i: int, j: int| 0 <= i < j < s.len() ==> s[i] != s[j]
}

/// The index of `x` in `s`, if it occurs there.
pub open spec fn index_of<A>(s: Seq<A>, x: A) -> Option<int> {
    if exists|i: int| 0 <= i < s.len() && s[i] == x {
        Some(choose|i: int| 0 <= i < s.len() && s[i] == x)
    } else {
        None
    }
}

impl ProviderStateView {
    /// The state's internal consistency.
    pub open spec fn wf(self) -> bool {
        &&& score_in_range(self.local_score as int)
        &&& self.observation_keys.len() == self.observations.len()
        &&& distinct(self.observation_keys)
        &&& scores_in_range(self.observations)
    }

    /// A provider just registered.
    pub open spec fn fresh(provider: ProviderView, source: ProviderSource, score: i64) -> Self {
        ProviderStateView {
            provider,
            source,
            local_score: score,
            consecutive_failures: 0,
            tripped_at: None,
            latest_ledger: 0,
            last_local_observed_at: None,
            observation_keys: Seq::empty(),
            observations: Seq::empty(),
        }
    }

    /// After a request through this provider succeeded at `now`.
    pub open spec fn after_request_success(self, now: i128) -> Self {
        let base = if self.local_score > DISCOVERED_PROVIDER_STARTING_SCORE {
            self.local_score
        } else {
            DISCOVERED_PROVIDER_STARTING_SCORE
        };
        ProviderStateView {
            consecutive_failures: 0,
            local_score: clamped(base + LOCAL_SUCCESS_BONUS) as i64,
            last_local_observed_at: Some(now),
            tripped_at: None,
            ..self
        }
    }

    /// After a failure observed at `now` (wall clock) and `mono` (monotonic
    /// clock) that costs `penalty` points.
    pub open spec fn after_failure(self, penalty: i64, now: i128, mono: u128) -> Self {
        ProviderStateView {
            consecutive_failures: next_failure_count(self.consecutive_failures),
            local_score: clamped(self.local_score - penalty) as i64,
            last_local_observed_at: Some(now),
            tripped_at: if reaches_threshold(self.consecutive_failures) {
                Some(mono)
            } else {
                self.tripped_at
            },
            ..self
        }
    }

    /// After a health probe found the provider at `ledger` at `now`.
    pub open spec fn after_probe_success(self, ledger: u64, now: i128) -> Self {
        ProviderStateView {
            latest_ledger: ledger,
            consecutive_failures: 0,
            local_score: clamped(self.local_score + PROBE_SUCCESS_BONUS) as i64,
            last_local_observed_at: Some(now),
            tripped_at: None,
            ..self
        }
    }

    /// With a trip that has cooled down by `mono` forgotten.
    pub open spec fn after_expiry(self, mono: u128) -> Self {
        ProviderStateView { tripped_at: trip_after_expiry(self.tripped_at, mono), ..self }
    }

    /// With `obs` recorded as what `key` reports, replacing what `key`
    /// reported before.
    pub open spec fn with_observation(self, key: Seq<char>, obs: RemoteProviderObservation) -> Self {
        match index_of(self.observation_keys, key) {
            Some(i) => ProviderStateView {
                observations: self.observations.update(i, obs),
                ..self
            },
            None => ProviderStateView {
                observation_keys: self.observation_keys.push(key),
                observations: self.observations.push(obs),
                ..self
            },
        }
    }

    /// With the placeholder name `discovered` replaced by `name`.
    pub open spec fn with_learnt_name(self, name: Seq<char>) -> Self {
        if self.provider.name == "discovered"@ && name != "discovered"@ {
            ProviderStateView { provider: ProviderView { name, ..self.provider }, ..self }
        } else {
            self
        }
    }

    /// The health report of this provider at `now`, `tripped` telling
    /// whether its circuit breaker is open.
    pub open spec fn report(self, now: i128, tripped: bool) -> ProviderReportView {
        let fresh = fresh_observations(self.observations, now);
        let peer_score = mean_score(fresh);
        let effective = clamped((2 * self.local_score + peer_score) / 3);
        let remote_healthy = any_healthy(fresh);
        let best = best_ledger(fresh);
        ProviderReportView {
            name: self.provider.name,
            url: self.provider.url,
            effective_score: effective as i64,
            local_score: self.local_score,
            peer_score: peer_score as i64,
            latest_ledger: if self.latest_ledger > best {
                self.latest_ledger
            } else {
                best
            },
            consecutive_failures: match fewest_failures(fresh) {
                None => self.consecutive_failures,
                Some(m) => if m < self.consecutive_failures {
                    m
                } else {
                    self.consecutive_failures
                },
            },
            healthy: !tripped && (effective >= MIN_PROVIDER_SCORE || remote_healthy) && (
            self.consecutive_failures < CIRCUIT_BREAKER_THRESHOLD || remote_healthy),
            source: source_label(self.source),
            observation_count: fresh.len(),
        }
    }
}

impl ProviderState {
    /// A provider just registered from `source` with `score` points.
    pub fn new(provider: RpcProvider, source: ProviderSource, score: i64) -> (r: Self)
        requires
            score_in_range(score as int),
        ensures
            r@ == ProviderStateView::fresh(provider@, source, score),
            r@.wf(),
    {
        let r = ProviderState {
            provider,
            source,
            local_score: score,
            consecutive_failures: 0,
            tripped_at: None,
            latest_ledger: 0,
            last_local_observed_at: None,
            observation_keys: Vec::new(),
            observations: Vec::new(),
        };
        assert(r@.observation_keys =~= Seq::<Seq<char>>::empty());
        r
    }

    /// The provider, credentials included.
    pub fn provider(&self) -> (r: &RpcProvider)
        ensures
            r@ == self@.provider,
    {
        &self.provider
    }

    /// The URL under which the provider is registered.
    pub fn url(&self) -> (r: &String)
        ensures
            r@ == self@.provider.url,
    {
        &self.provider.url
    }

    /// Records a successful request at `now`.
    pub fn record_request_success(&mut self, now: i128)
        requires
            old(self)@.wf(),
        ensures
            final(self)@ == old(self)@.after_request_success(now),
            final(self)@.wf(),
    {
        self.consecutive_failures = 0;
        let base = if self.local_score > DISCOVERED_PROVIDER_STARTING_SCORE {
            self.local_score
        } else {
            DISCOVERED_PROVIDER_STARTING_SCORE
        };
        self.local_score = clamp_score(base + LOCAL_SUCCESS_BONUS);
        self.last_local_observed_at = Some(now);
        self.tripped_at = None;
    }

    /// Records a failure at `now` and `mono` that costs `penalty` points.
    pub fn record_failure(&mut self, penalty: i64, now: i128, mono: u128)
        requires
            old(self)@.wf(),
            0 <= penalty <= MAX_HEALTH_SCORE,
        ensures
            final(self)@ == old(self)@.after_failure(penalty, now, mono),
            final(self)@.wf(),
    {
        let previous = self.consecutive_failures;
        self.consecutive_failures = bump_failures(previous);
        self.local_score = adjust_score(self.local_score, -penalty);
        self.last_local_observed_at = Some(now);
        if previous >= CIRCUIT_BREAKER_THRESHOLD - 1 {
            self.tripped_at = Some(mono);
        }
    }

    /// Records a successful probe that found the provider at `ledger`.
    pub fn record_probe_success(&mut self, ledger: u64, now: i128)
        requires
            old(self)@.wf(),
        ensures
            final(self)@ == old(self)@.after_probe_success(ledger, now),
            final(self)@.wf(),
    {
        self.latest_ledger = ledger;
        self.consecutive_failures = 0;
        self.local_score = adjust_score(self.local_score, PROBE_SUCCESS_BONUS);
        self.last_local_observed_at = Some(now);
        self.tripped_at = None;
    }

    /// Whether the circuit breaker is open at `mono`; a trip that has
    /// cooled down is forgotten.
    pub fn check_tripped(&mut self, mono: u128) -> (r: bool)
        requires
            old(self)@.wf(),
        ensures
            r == trip_active(old(self)@.tripped_at, mono),
            final(self)@ == old(self)@.after_expiry(mono),
            final(self)@.wf(),
    {
        let active = is_trip_active(self.tripped_at, mono);
        if !active {
            self.tripped_at = None;
        }
        active
    }

    /// Records `obs` as what `key` reports of this provider.
    pub fn record_observation(&mut self, key: &String, obs: RemoteProviderObservation)
        requires
            old(self)@.wf(),
            score_in_range(obs.score as int),
        ensures
            final(self)@ == old(self)@.with_observation(key@, obs),
            final(self)@.wf(),
    {
        let ghost keys = self@.observation_keys;
        let mut i: usize = 0;
        while i < self.observation_keys.len()
            invariant
                self@ == old(self)@,
                self@.wf(),
                keys == self@.observation_keys,
                score_in_range(obs.score as int),
                i <= self.observation_keys.len(),
                forall|j: int| 0 <= j < i ==> keys[j] != key@,
            decreases self.observation_keys.len() - i,
        {
            assert(keys[i as int] == self.observation_keys@[i as int]@);
            if self.observation_keys[i] == *key {
                proof {
                    assert(keys[i as int] == key@);
                    assert(index_of(keys, key@) == Some(i as int)) by {
                        let k = choose|k: int| 0 <= k < keys.len() && keys[k] == key@;
                        assert(k == i) by {
                            if k < i {
                            } else if k > i {
                                assert(keys[i as int] != keys[k]);
                            }
                        }
                    }
                }
                self.observations.set(i, obs);
                assert(self@ =~= old(self)@.with_observation(key@, obs));
                assert(scores_in_range(self@.observations)) by {
                    let os = old(self)@.observations;
                    assert(self@.observations =~= os.update(i as int, obs));
                    assert forall|j: int| 0 <= j < os.len() implies score_in_range(
                        #[trigger] os.update(i as int, obs)[j].score as int,
                    ) by {
                        if j != i {
                            assert(score_in_range(os[j].score as int));
                        }
                    }
                }
                return;
            }
            i = i + 1;
        }
        proof {
            assert(index_of(keys, key@) is None);
        }
        self.observation_keys.push(key.clone());
        self.observations.push(obs);
        assert(self@.observation_keys =~= keys.push(key@));
        assert(self@ =~= old(self)@.with_observation(key@, obs));
    }

    /// Replaces the placeholder name `discovered` with `name`.
    pub fn learn_name(&mut self, name: &String)
        requires
            old(self)@.wf(),
        ensures
            final(self)@ == old(self)@.with_learnt_name(name@),
            final(self)@.wf(),
    {
        let placeholder = String::from_str("discovered");
        if self.provider.name == placeholder && *name != placeholder {
            self.provider.name = name.clone();
        }
    }

    /// The health report of this provider at `now`.
    pub fn report(&self, now: i128, tripped: bool) -> (r: ProviderHealthReport)
        requires
            self@.wf(),
        ensures
            r@ == self@.report(now, tripped),
    {
        let summary = summarize_observations(&self.observations, now);
        let effective = clamp_score((self.local_score * 2 + summary.peer_score) / 3);
        let remote_healthy = summary.any_healthy;
        let healthy = !tripped && (effective >= MIN_PROVIDER_SCORE || remote_healthy) && (
        self.consecutive_failures < CIRCUIT_BREAKER_THRESHOLD || remote_healthy);
        let latest_ledger = if self.latest_ledger > summary.best_ledger {
            self.latest_ledger
        } else {
            summary.best_ledger
        };
        let consecutive_failures = match summary.fewest_failures {
            None => self.consecutive_failures,
            Some(m) => if m < self.consecutive_failures {
                m
            } else {
                self.consecutive_failures
            },
        };
        ProviderHealthReport {
            name: self.provider.name.clone(),
            url: self.provider.url.clone(),
            effective_score: effective,
            local_score: self.local_score,
            peer_score: summary.peer_score,
            latest_ledger,
            consecutive_failures,
            healthy,
            source: source_text(self.source),
            observation_count: summary.count,
        }
    }
}

/// What the registry remembers of one peer node.
pub struct PeerState {
    base_url: String,
    instance_id: Option<String>,
    score: i64,
    consecutive_failures: u64,
    last_seen_at: Option<i128>,
    discovered_from: Vec<String>,
    last_error: Option<String>,
}

/// What the logic sees of a [`PeerState`].
#[verifier::ext_equal]
pub struct PeerStateView {
    pub base_url: Seq<char>,
    pub instance_id: Option<Seq<char>>,
    pub score: i64,
    pub consecutive_failures: u64,
    pub last_seen_at: Option<i128>,
    pub discovered_from: Seq<Seq<char>>,
    pub last_error: Option<Seq<char>>,
}

impl View for PeerState {
    type V = PeerStateView;

    closed spec fn view(&self) -> PeerStateView {
        PeerStateView {
            base_url: self.base_url@,
            instance_id: self.instance_id.deep_view(),
            score: self.score,
            consecutive_failures: self.consecutive_failures,
            last_seen_at: self.last_seen_at,
            discovered_from: self.discovered_from@.map_values(|s: String| s@),
            last_error: self.last_error.deep_view(),
        }
    }
}

/// What the logic sees of a [`PeerHealthReport`].
#[verifier::ext_equal]
pub struct PeerReportView {
    pub base_url: Seq<char>,
    pub instance_id: Option<Seq<char>>,
    pub score: i64,
    pub consecutive_failures: u64,
    pub healthy: bool,
    pub last_seen_at: Option<i128>,
    pub discovered_from: Seq<Seq<char>>,
    pub last_error: Option<Seq<char>>,
}

impl View for PeerHealthReport {
    type V = PeerReportView;

    open spec fn view(&self) -> PeerReportView {
        PeerReportView {
            base_url: self.base_url@,
            instance_id: self.instance_id.deep_view(),
            score: self.score,
            consecutive_failures: self.consecutive_failures,
            healthy: self.healthy,
            last_seen_at: self.last_seen_at,
            discovered_from: self.discovered_from@.map_values(|s: String| s@),
            last_error: self.last_error.deep_view(),
        }
    }
}

/// The lowest score at which a peer still counts as healthy.
pub open spec fn peer_healthy_floor() -> int {
    PEER_STARTING_SCORE / 2
}

impl PeerStateView {
    /// The peer's internal consistency.
    pub open spec fn wf(self) -> bool {
        &&& score_in_range(self.score as int)
        &&& distinct(self.discovered_from)
    }

    /// A peer just learnt of.
    pub open spec fn fresh(base_url: Seq<char>, instance_id: Option<Seq<char>>) -> Self {
        PeerStateView {
            base_url,
            instance_id,
            score: PEER_STARTING_SCORE,
            consecutive_failures: 0,
            last_seen_at: None,
            discovered_from: Seq::empty(),
            last_error: None,
        }
    }

    /// With the instance id replaced, where one is given.
    pub open spec fn with_instance_id(self, instance_id: Option<Seq<char>>) -> Self {
        match instance_id {
            Some(id) => PeerStateView { instance_id: Some(id), ..self },
            None => self,
        }
    }

    /// With `source` among those that told of this peer, where one is given.
    pub open spec fn with_source(self, source: Option<Seq<char>>) -> Self {
        match source {
            Some(s) => if self.discovered_from.contains(s) {
                self
            } else {
                PeerStateView { discovered_from: self.discovered_from.push(s), ..self }
            },
            None => self,
        }
    }

    /// After a gossip exchange with this peer succeeded at `now`.
    pub open spec fn after_success(self, now: i128) -> Self {
        PeerStateView {
            consecutive_failures: 0,
            score: clamped(self.score + PEER_SUCCESS_BONUS) as i64,
            last_seen_at: Some(now),
            last_error: None,
            ..self
        }
    }

    /// After a gossip exchange with this peer failed with `error`.
    pub open spec fn after_failure(self, error: Seq<char>) -> Self {
        PeerStateView {
            consecutive_failures: next_failure_count(self.consecutive_failures),
            score: clamped(self.score - PEER_FAILURE_PENALTY) as i64,
            last_error: Some(error),
            ..self
        }
    }

    /// The health report of this peer at `now`.
    pub open spec fn report(self, now: i128) -> PeerReportView {
        PeerReportView {
            base_url: self.base_url,
            instance_id: self.instance_id,
            score: self.score,
            consecutive_failures: self.consecutive_failures,
            healthy: self.score >= peer_healthy_floor() && peer_recent(self.last_seen_at, now),
            last_seen_at: self.last_seen_at,
            discovered_from: self.discovered_from,
            last_error: self.last_error,
        }
    }
}

/// A copy of a list of strings.
pub fn copy_strings(v: &Vec<String>) -> (r: Vec<String>)
    ensures
        r@.map_values(|s: String| s@) == v@.map_values(|s: String| s@),
{
    let mut r: Vec<String> = Vec::new();
    let mut i: usize = 0;
    while i < v.len()
        invariant
            i <= v.len(),
            r@.map_values(|s: String| s@) == v@.take(i as int).map_values(|s: String| s@),
        decreases v.len() - i,
    {
        let ghost before = r@;
        let item = v[i].clone();
        assert(item@ == v@[i as int]@);
        r.push(item);
        proof {
            assert(r@ == before.push(item));
            assert(r@.map_values(|s: String| s@) =~= before.map_values(|s: String| s@).push(
                item@,
            ));
            assert(v@.take(i + 1) =~= v@.take(i as int).push(v@[i as int]));
            assert(r@.map_values(|s: String| s@) =~= v@.take(i + 1).map_values(|s: String| s@));
        }
        i = i + 1;
    }
    assert(v@.take(v.len() as int) =~= v@);
    r
}

impl PeerState {
    /// A peer at `base_url` just learnt of.
    pub fn new(base_url: String, instance_id: Option<String>) -> (r: Self)
        ensures
            r@ == PeerStateView::fresh(base_url@, instance_id.deep_view()),
            r@.wf(),
    {
        let r = PeerState {
            base_url,
            instance_id,
            score: PEER_STARTING_SCORE,
            consecutive_failures: 0,
            last_seen_at: None,
            discovered_from: Vec::new(),
            last_error: None,
        };
        assert(r@.discovered_from =~= Seq::<Seq<char>>::empty());
        r
    }

    /// The base URL under which the peer is registered.
    pub fn base_url(&self) -> (r: &String)
        ensures
            r@ == self@.base_url,
    {
        &self.base_url
    }

    /// Replaces the instance id, where one is given.
    pub fn set_instance_id(&mut self, instance_id: Option<String>)
        requires
            old(self)@.wf(),
        ensures
            final(self)@ == old(self)@.with_instance_id(instance_id.deep_view()),
            final(self)@.wf(),
    {
        if let Some(id) = instance_id {
            self.instance_id = Some(id);
        }
    }

    /// Adds `source` to those that told of this peer, where one is given.
    pub fn add_source(&mut self, source: Option<&str>)
        requires
            old(self)@.wf(),
        ensures
            final(self)@ == old(self)@.with_source(
                match source {
                    Some(s) => Some(s@),
                    None => None,
                },
            ),
            final(self)@.wf(),
    {
        if let Some(s) = source {
            let target = String::from_str(s);
            let ghost seen = self@.discovered_from;
            let mut i: usize = 0;
            while i < self.discovered_from.len()
                invariant
                    self@ == old(self)@,
                    seen == self@.discovered_from,
                    target@ == s@,
                    source == Some(s),
                    self@.wf(),
                    i <= self.discovered_from.len(),
                    forall|j: int| 0 <= j < i ==> seen[j] != s@,
                decreases self.discovered_from.len() - i,
            {
                assert(seen[i as int] == self.discovered_from@[i as int]@);
                if self.discovered_from[i] == target {
                    assert(seen[i as int] == s@);
                    assert(seen.contains(s@));
                    return;
                }
                i = i + 1;
            }
            assert(!seen.contains(s@));
            self.discovered_from.push(target);
            assert(self@ =~= old(self)@.with_source(Some(s@)));
        }
    }

    /// Records a successful gossip exchange at `now`.
    pub fn record_success(&mut self, now: i128)
        requires
            old(self)@.wf(),
        ensures
            final(self)@ == old(self)@.after_success(now),
            final(self)@.wf(),
    {
        self.consecutive_failures = 0;
        self.score = adjust_score(self.score, PEER_SUCCESS_BONUS);
        self.last_seen_at = Some(now);
        self.last_error = None;
    }

    /// Records a failed gossip exchange.
    pub fn record_failure(&mut self, error: String)
        requires
            old(self)@.wf(),
        ensures
            final(self)@ == old(self)@.after_failure(error@),
            final(self)@.wf(),
    {
        self.consecutive_failures = bump_failures(self.consecutive_failures);
        self.score = adjust_score(self.score, -PEER_FAILURE_PENALTY);
        self.last_error = Some(error);
    }

    /// The health report of this peer at `now`.
    pub fn report(&self, now: i128) -> (r: PeerHealthReport)
        requires
            self@.wf(),
        ensures
            r@ == self@.report(now),
    {
        PeerHealthReport {
            base_url: self.base_url.clone(),
            instance_id: copy_opt_string(&self.instance_id),
            score: self.score,
            consecutive_failures: self.consecutive_failures,
            healthy: self.score >= PEER_STARTING_SCORE / 2 && is_peer_recent(
                self.last_seen_at,
                now,
            ),
            last_seen_at: self.last_seen_at,
            discovered_from: copy_strings(&self.discovered_from),
            last_error: copy_opt_string(&self.last_error),
        }
    }
}

} // verus!
