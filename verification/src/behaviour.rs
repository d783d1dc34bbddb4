//! What the registry's listings, reports, probes and merges do, stated over
//! the fields of what goes in and comes out.
use vstd::prelude::*;
use crate::clock::Moment;
use crate::health::{
    best_ledger, fewest_failures, CIRCUIT_BREAKER_THRESHOLD, MAX_HEALTH_SCORE, MIN_HEALTH_SCORE,
    PROBE_FAILURE_PENALTY, PROBE_SUCCESS_BONUS, DISCOVERED_PROVIDER_STARTING_SCORE,
    LOCAL_SUCCESS_BONUS, LOCAL_FAILURE_PENALTY, PEER_SUCCESS_BONUS, PEER_FAILURE_PENALTY, MAX_GOSSIP_PEERS, MAX_GOSSIP_PROVIDERS, fresh_observations, mean_score, RemoteProviderObservation,
    REMOTE_OBSERVATION_TTL_NANOS,
};
use crate::provider::{GossipProviderView, ProviderView, SnapshotView};
use crate::ranking::{lemma_rank_sorted_properties, rank_sorted};
use crate::registry::{first_n, urls_of, entry_healthy, healthy_rank, peer_rank, report_rank, RegistryView};
use crate::state::{index_of, PeerReportView, ProviderReportView, ProviderStateView};
use crate::text::text_lt;

verus! {

/// Whether the providers in `es`, each with its report, go from the highest
/// effective score down; among equal effective scores from the highest
/// score from peers down; among those by provider name in ascending order;
/// and among equal names by URL in ascending order.
pub open spec fn listed_by_health(es: Seq<(ProviderView, ProviderReportView)>) -> bool {
    forall|i: int, j: int|
        0 <= i < j < es.len() ==> {
            let a = #[trigger] es[i];
            let b = #[trigger] es[j];
            &&& a.1.effective_score >= b.1.effective_score
            &&& a.1.effective_score == b.1.effective_score ==> a.1.peer_score >= b.1.peer_score
            &&& a.1.effective_score == b.1.effective_score && a.1.peer_score == b.1.peer_score
                ==> !text_lt(b.0.name, a.0.name)
            &&& a.1.effective_score == b.1.effective_score && a.1.peer_score == b.1.peer_score
                && a.0.name == b.0.name ==> !text_lt(b.1.url, a.1.url)
        }
}

/// Healthy providers: the providers listed at `at` are exactly those whose
/// report at `at` is healthy, each once, ordered best effective score first,
/// then best score from peers, then by name, then by URL.
pub proof fn law_healthy_providers_order(m: RegistryView, at: Moment)
    ensures
        exists|es: Seq<(ProviderView, ProviderReportView)>|
            {
                &&& es.to_multiset() == m.entries(at).filter(
                    |e: (ProviderView, ProviderReportView)| e.1.healthy,
                ).to_multiset()
                &&& es.map_values(|e: (ProviderView, ProviderReportView)| e.0) == m.listed_healthy(at)
                &&& #[trigger] listed_by_health(es)
            },
{
    let healthy = m.entries(at).filter(|e: (ProviderView, ProviderReportView)| entry_healthy(e));
    let p1 = |e: (ProviderView, ProviderReportView)| entry_healthy(e);
    let p2 = |e: (ProviderView, ProviderReportView)| e.1.healthy;
    assert(p1 =~= p2);
    assert(healthy == m.entries(at).filter(p2));
    let key = |e: (ProviderView, ProviderReportView)| healthy_rank(e);
    let es = rank_sorted(healthy, key);
    lemma_rank_sorted_properties(healthy, key);
    assert forall|i: int, j: int| 0 <= i < j < es.len() implies {
        let a = #[trigger] es[i];
        let b = #[trigger] es[j];
        &&& a.1.effective_score >= b.1.effective_score
        &&& a.1.effective_score == b.1.effective_score ==> a.1.peer_score >= b.1.peer_score
        &&& a.1.effective_score == b.1.effective_score && a.1.peer_score == b.1.peer_score
            ==> !text_lt(b.0.name, a.0.name)
        &&& a.1.effective_score == b.1.effective_score && a.1.peer_score == b.1.peer_score
            && a.0.name == b.0.name ==> !text_lt(b.1.url, a.1.url)
    } by {
        assert(crate::ranking::rank_le(key(es[i]), key(es[j])));
    }
    assert(listed_by_health(es));
}

/// Provider reports: the reports listed at `at` are the reports of all
/// providers, each once, ordered best effective score first, then best
/// score from peers, then by URL.
pub proof fn law_provider_reports_order(m: RegistryView, at: Moment)
    ensures
        m.listed_reports(at).to_multiset() == m.reports(at).to_multiset(),
        forall|i: int, j: int|
            0 <= i < j < m.listed_reports(at).len() ==> {
                let a = #[trigger] m.listed_reports(at)[i];
                let b = #[trigger] m.listed_reports(at)[j];
                &&& a.effective_score >= b.effective_score
                &&& a.effective_score == b.effective_score ==> a.peer_score >= b.peer_score
                &&& a.effective_score == b.effective_score && a.peer_score == b.peer_score
                    ==> !text_lt(b.url, a.url)
            },
{
    let key = |r: ProviderReportView| report_rank(r);
    let l = m.listed_reports(at);
    lemma_rank_sorted_properties(m.reports(at), key);
    assert forall|i: int, j: int| 0 <= i < j < l.len() implies {
        let a = #[trigger] l[i];
        let b = #[trigger] l[j];
        &&& a.effective_score >= b.effective_score
        &&& a.effective_score == b.effective_score ==> a.peer_score >= b.peer_score
        &&& a.effective_score == b.effective_score && a.peer_score == b.peer_score
            ==> !text_lt(b.url, a.url)
    } by {
        assert(crate::ranking::rank_le(key(l[i]), key(l[j])));
    }
}

/// Peer reports: the reports listed at `now` are the reports of all peers,
/// each once, ordered by score from the highest down, then by base URL.
pub proof fn law_peer_reports_order(m: RegistryView, now: i128)
    ensures
        m.listed_peers(now).to_multiset() == m.peer_reports(now).to_multiset(),
        forall|i: int, j: int|
            0 <= i < j < m.listed_peers(now).len() ==> {
                let a = #[trigger] m.listed_peers(now)[i];
                let b = #[trigger] m.listed_peers(now)[j];
                &&& a.score >= b.score
                &&& a.score == b.score ==> !text_lt(b.base_url, a.base_url)
            },
{
    let key = |r: PeerReportView| peer_rank(r);
    let l = m.listed_peers(now);
    lemma_rank_sorted_properties(m.peer_reports(now), key);
    assert forall|i: int, j: int| 0 <= i < j < l.len() implies {
        let a = #[trigger] l[i];
        let b = #[trigger] l[j];
        &&& a.score >= b.score
        &&& a.score == b.score ==> !text_lt(b.base_url, a.base_url)
    } by {
        assert(crate::ranking::rank_le(key(l[i]), key(l[j])));
    }
}

/// The observations among `obs` made less than the time-to-live before
/// `now`, in order.
pub open spec fn younger_than_ttl(
    obs: Seq<RemoteProviderObservation>,
    now: i128,
) -> Seq<RemoteProviderObservation> {
    obs.filter(|o: RemoteProviderObservation| now - o.observed_at < REMOTE_OBSERVATION_TTL_NANOS)
}

/// The fresh observations are exactly those made less than the
/// time-to-live before `now`.
proof fn lemma_fresh_are_young(obs: Seq<RemoteProviderObservation>, now: i128)
    ensures
        fresh_observations(obs, now) == younger_than_ttl(obs, now),
    decreases obs.len(),
{
    if obs.len() == 0 {
        reveal(Seq::filter);
        assert(younger_than_ttl(obs, now) =~= obs);
    } else {
        lemma_fresh_are_young(obs.drop_last(), now);
        let pred = |o: RemoteProviderObservation| now - o.observed_at < REMOTE_OBSERVATION_TTL_NANOS;
        obs.drop_last().lemma_filter_push(obs.last(), pred);
        assert(obs.drop_last().push(obs.last()) =~= obs);
    }
}

/// Reports count only fresh observations: what a provider's report at
/// `now` says of scores from peers, the remote ledger, the failure floor and
/// the number of observations is drawn from exactly the observations made
/// less than `REMOTE_OBSERVATION_TTL_NANOS` before `now`; an older
/// observation changes nothing in the report.
pub proof fn law_report_uses_fresh_observations(
    s: crate::state::ProviderStateView,
    now: i128,
    tripped: bool,
    old_key: Seq<char>,
    old_obs: RemoteProviderObservation,
)
    requires
        s.wf(),
    ensures
        ({
            let young = younger_than_ttl(s.observations, now);
            let r = s.report(now, tripped);
            &&& r.observation_count == young.len()
            &&& r.peer_score == mean_score(young)
            &&& r.latest_ledger == if s.latest_ledger > best_ledger(young) {
                s.latest_ledger
            } else {
                best_ledger(young)
            }
            &&& r.consecutive_failures == match fewest_failures(young) {
                None => s.consecutive_failures,
                Some(f) => if f < s.consecutive_failures {
                    f
                } else {
                    s.consecutive_failures
                },
            }
        }),
        forall|o: RemoteProviderObservation|
            #[trigger] younger_than_ttl(s.observations, now).contains(o) <==> (s.observations.contains(
                o,
            ) && now - o.observed_at < REMOTE_OBSERVATION_TTL_NANOS),
        now - old_obs.observed_at >= REMOTE_OBSERVATION_TTL_NANOS ==> (crate::state::ProviderStateView {
            observation_keys: s.observation_keys.push(old_key),
            observations: s.observations.push(old_obs),
            ..s
        }).report(now, tripped) == s.report(now, tripped),
{
    lemma_fresh_are_young(s.observations, now);
    crate::health::lemma_fresh_in_range(s.observations, now);
    crate::health::lemma_mean_score_in_range(fresh_observations(s.observations, now));
    let pred = |o: RemoteProviderObservation| now - o.observed_at < REMOTE_OBSERVATION_TTL_NANOS;
    assert forall|o: RemoteProviderObservation|
        #[trigger] younger_than_ttl(s.observations, now).contains(o) <==> (s.observations.contains(o)
            && now - o.observed_at < REMOTE_OBSERVATION_TTL_NANOS) by {
        crate::laws::lemma_filter_member(s.observations, pred, o);
    }
    if now - old_obs.observed_at >= REMOTE_OBSERVATION_TTL_NANOS {
        let t = crate::state::ProviderStateView {
            observation_keys: s.observation_keys.push(old_key),
            observations: s.observations.push(old_obs),
            ..s
        };
        assert(t.observations.drop_last() =~= s.observations);
        assert(fresh_observations(t.observations, now) == fresh_observations(s.observations, now));
    }
}

/// Probes: a successful probe of the provider at `url` stores the ledger it
/// found, clears the provider's failures and closes its circuit breaker,
/// raises its score by `PROBE_SUCCESS_BONUS` up to the highest score and
/// notes the time; from then on its report shows no failures. A failed
/// probe counts one more failure, lowers the score by
/// `PROBE_FAILURE_PENALTY` down to the lowest score, and trips the breaker
/// when the failures reach `CIRCUIT_BREAKER_THRESHOLD`. Other providers,
/// and everything else the registry knows, stay as they are; an unknown URL
/// changes nothing.
pub proof fn law_probe_outcome(
    m: RegistryView,
    url: Seq<char>,
    ledger: u64,
    at: Moment,
    later: i128,
    tripped: bool,
)
    requires
        m.wf(),
    ensures
        m.provider_index(url) is None ==> m.after_probe(url, Some(ledger), at) == m
            && m.after_probe(url, None, at) == m,
        m.provider_index(url) matches Some(i) ==> {
            let before = m.providers[i];
            let ok = m.after_probe(url, Some(ledger), at);
            let failed = m.after_probe(url, None, at);
            &&& ok.providers.len() == m.providers.len()
            &&& failed.providers.len() == m.providers.len()
            &&& forall|k: int|
                0 <= k < m.providers.len() && k != i ==> ok.providers[k] == m.providers[k]
                    && failed.providers[k] == m.providers[k]
            &&& ok.peers == m.peers && failed.peers == m.peers
            &&& ok.providers[i].provider == before.provider
            &&& ok.providers[i].observations == before.observations
            &&& ok.providers[i].latest_ledger == ledger
            &&& ok.providers[i].consecutive_failures == 0
            &&& ok.providers[i].tripped_at is None
            &&& ok.providers[i].local_score == if before.local_score + PROBE_SUCCESS_BONUS
                > MAX_HEALTH_SCORE {
                MAX_HEALTH_SCORE as int
            } else {
                before.local_score + PROBE_SUCCESS_BONUS
            }
            &&& ok.providers[i].last_local_observed_at == Some(at.wall_nanos)
            &&& ok.providers[i].report(later, tripped).consecutive_failures == 0
            &&& failed.providers[i].provider == before.provider
            &&& failed.providers[i].observations == before.observations
            &&& failed.providers[i].latest_ledger == before.latest_ledger
            &&& failed.providers[i].consecutive_failures == (if before.consecutive_failures
                == u64::MAX {
                0
            } else {
                before.consecutive_failures + 1
            })
            &&& failed.providers[i].local_score == if before.local_score - PROBE_FAILURE_PENALTY
                < MIN_HEALTH_SCORE {
                MIN_HEALTH_SCORE as int
            } else {
                before.local_score - PROBE_FAILURE_PENALTY
            }
            &&& failed.providers[i].last_local_observed_at == Some(at.wall_nanos)
            &&& failed.providers[i].tripped_at == if before.consecutive_failures + 1 >= CIRCUIT_BREAKER_THRESHOLD {
                Some(at.monotonic_nanos)
            } else {
                before.tripped_at
            }
        },
{
    if let Some(i) = m.provider_index(url) {
        assert(0 <= i < m.providers.len());
        let before = m.providers[i];
        assert(before.wf());
        let ok = m.after_probe(url, Some(ledger), at);
        let st = ok.providers[i];
        let fresh = fresh_observations(st.observations, later);
        match fewest_failures(fresh) {
            Some(f) => {},
            None => {},
        }
    }
}

/// What a snapshot entry `g` says of its provider, as an observation: its
/// score kept within the score range, its ledger (0 when it gives none), its
/// failures, its health and when it was made.
pub open spec fn entry_observation(g: GossipProviderView) -> RemoteProviderObservation {
    RemoteProviderObservation {
        score: if g.score < MIN_HEALTH_SCORE {
            MIN_HEALTH_SCORE
        } else if g.score > MAX_HEALTH_SCORE {
            MAX_HEALTH_SCORE
        } else {
            g.score
        },
        latest_ledger: match g.latest_ledger {
            Some(l) => l,
            None => 0,
        },
        consecutive_failures: g.consecutive_failures,
        healthy: g.healthy,
        observed_at: g.observed_at,
    }
}

/// Whether `s` holds `o` as what `key` reports.
pub open spec fn holds_observation(s: ProviderStateView, key: Seq<char>, o: RemoteProviderObservation) -> bool {
    exists|j: int|
        0 <= j < s.observation_keys.len() && j < s.observations.len() && s.observation_keys[j] == key
            && #[trigger] s.observations[j] == o
}

/// Whether the snapshot entry `g` is fresh enough at `now` to be recorded.
pub open spec fn entry_fresh(g: GossipProviderView, now: i128) -> bool {
    g.url.len() > 0 && now - g.observed_at < REMOTE_OBSERVATION_TTL_NANOS
}

/// Recording `obs` as what `key` reports leaves `obs` held under `key`.
proof fn lemma_with_observation_holds(s: ProviderStateView, key: Seq<char>, o: RemoteProviderObservation)
    requires
        s.observation_keys.len() == s.observations.len(),
    ensures
        holds_observation(s.with_observation(key, o), key, o),
        s.with_observation(key, o).observation_keys.len() == s.with_observation(key, o).observations.len(),
{
    let t = s.with_observation(key, o);
    match index_of(s.observation_keys, key) {
        Some(j) => {
            assert(t.observations[j] == o);
        },
        None => {
            assert(t.observations[s.observations.len() as int] == o);
        },
    }
}

/// Merging one fresh snapshot entry: afterwards a provider under the
/// entry's URL holds the entry's observation, with the entry's own failure
/// count, under the sender's key; a provider that had no observations then
/// reports the fewer of its own failures and the entry's while the entry
/// stays fresh. A stale entry, or one without a URL, changes nothing.
pub proof fn law_merge_entry_records_observation(
    m: RegistryView,
    g: GossipProviderView,
    key: Seq<char>,
    now: i128,
    later: i128,
    tripped: bool,
)
    requires
        m.wf(),
    ensures
        !entry_fresh(g, now) ==> m.merge_gossip_provider(g, key, now) == m,
        entry_fresh(g, now) ==> exists|i: int|
            0 <= i < m.merge_gossip_provider(g, key, now).providers.len()
                && (#[trigger] m.merge_gossip_provider(g, key, now).providers[i]).provider.url == g.url
                && holds_observation(
                m.merge_gossip_provider(g, key, now).providers[i],
                key,
                entry_observation(g),
            ),
        entry_fresh(g, now) && later - g.observed_at < REMOTE_OBSERVATION_TTL_NANOS ==> (
        m.provider_index(g.url) matches Some(i) ==> m.providers[i].observations.len() == 0 ==> {
            let f = m.providers[i].consecutive_failures;
            let r = m.merge_gossip_provider(g, key, now).providers[i].report(later, tripped);
            r.consecutive_failures == if g.consecutive_failures < f {
                g.consecutive_failures
            } else {
                f
            }
        }),
{
    let r = m.merge_gossip_provider(g, key, now);
    assert(entry_fresh(g, now) <==> !(g.url.len() == 0 || crate::health::observation_stale(g.observed_at, now)));
    if entry_fresh(g, now) {
        let mid = m.with_gossip_provider(g);
        assert(crate::registry::observation_of(g) == entry_observation(g));
        if m.provider_index(g.url) is None {
            let fresh = crate::state::ProviderStateView::fresh(
                crate::registry::discovered_provider(g),
                crate::state::ProviderSource::Gossip,
                crate::health::DISCOVERED_PROVIDER_STARTING_SCORE,
            );
            assert(urls_of(mid.providers) =~= urls_of(m.providers).push(g.url));
            assert(urls_of(mid.providers)[m.providers.len() as int] == g.url);
        }
        let i = mid.provider_index(g.url)->0;
        assert(0 <= i < mid.providers.len() && urls_of(mid.providers)[i] == g.url);
        let st = mid.providers[i];
        if m.provider_index(g.url) is Some {
            assert(st.wf());
        } else {
            if i < m.providers.len() {
                assert(urls_of(m.providers)[i] == g.url);
                assert(false);
            }
            assert(st.observation_keys =~= Seq::<Seq<char>>::empty());
        }
        lemma_with_observation_holds(st, key, entry_observation(g));
        let st1 = st.with_observation(key, entry_observation(g));
        let st2 = st1.with_learnt_name(g.name);
        assert(r.providers[i] == st2);
        assert(st2.observations == st1.observations && st2.observation_keys == st1.observation_keys);
        let j = choose|j: int|
            0 <= j < st1.observation_keys.len() && j < st1.observations.len()
                && st1.observation_keys[j] == key && #[trigger] st1.observations[j]
                == entry_observation(g);
        assert(st2.observations[j] == entry_observation(g));
        assert(holds_observation(r.providers[i], key, entry_observation(g)));
        if later - g.observed_at < REMOTE_OBSERVATION_TTL_NANOS {
            if let Some(k) = m.provider_index(g.url) {
                if m.providers[k].observations.len() == 0 {
                    assert(k == i);
                    let os = st2.observations;
                    assert(os =~= seq![entry_observation(g)]) by {
                        assert(index_of(st.observation_keys, key) is None);
                    }
                    assert(os.drop_last() =~= Seq::<RemoteProviderObservation>::empty());
                    assert(fresh_observations(os, later) =~= seq![entry_observation(g)]) by {
                        reveal_with_fuel(fresh_observations, 2);
                    }
                    let fr = fresh_observations(os, later);
                    assert(fr.drop_last() =~= Seq::<RemoteProviderObservation>::empty());
                    assert(fewest_failures(fr) == Some(g.consecutive_failures)) by {
                        reveal_with_fuel(fewest_failures, 2);
                    }
                }
            }
        }
    }
}

/// Whether every provider state of `m` holds as many observations as keys.
pub open spec fn observations_keyed(m: RegistryView) -> bool {
    forall|i: int|
        0 <= i < m.providers.len() ==> (#[trigger] m.providers[i]).observation_keys.len()
            == m.providers[i].observations.len()
}

/// One snapshot entry: a fresh one leaves its observation held under `key`
/// by a provider under its URL; providers under other URLs stay as they are.
proof fn lemma_entry_step(m: RegistryView, g: GossipProviderView, key: Seq<char>, now: i128)
    requires
        observations_keyed(m),
    ensures
        observations_keyed(m.merge_gossip_provider(g, key, now)),
        m.providers.len() <= m.merge_gossip_provider(g, key, now).providers.len(),
        forall|i: int|
            0 <= i < m.providers.len() && m.providers[i].provider.url != g.url ==> (
            #[trigger] m.merge_gossip_provider(g, key, now).providers[i]) == m.providers[i],
        entry_fresh(g, now) ==> exists|i: int|
            0 <= i < m.merge_gossip_provider(g, key, now).providers.len()
                && (#[trigger] m.merge_gossip_provider(g, key, now).providers[i]).provider.url == g.url
                && holds_observation(
                m.merge_gossip_provider(g, key, now).providers[i],
                key,
                entry_observation(g),
            ),
{
    let r = m.merge_gossip_provider(g, key, now);
    assert(entry_fresh(g, now) <==> !(g.url.len() == 0 || crate::health::observation_stale(g.observed_at, now)));
    if entry_fresh(g, now) {
        let mid = m.with_gossip_provider(g);
        assert(crate::registry::observation_of(g) == entry_observation(g));
        if m.provider_index(g.url) is None {
            assert(urls_of(mid.providers) =~= urls_of(m.providers).push(g.url));
            assert(urls_of(mid.providers)[m.providers.len() as int] == g.url);
            assert(mid.providers[m.providers.len() as int].observation_keys =~= Seq::<Seq<char>>::empty());
        }
        assert(observations_keyed(mid));
        let i = mid.provider_index(g.url)->0;
        assert(0 <= i < mid.providers.len() && urls_of(mid.providers)[i] == g.url);
        let st = mid.providers[i];
        lemma_with_observation_holds(st, key, entry_observation(g));
        let st1 = st.with_observation(key, entry_observation(g));
        let st2 = st1.with_learnt_name(g.name);
        assert(r.providers[i] == st2);
        assert(st2.observations == st1.observations && st2.observation_keys == st1.observation_keys);
        let j = choose|j: int|
            0 <= j < st1.observation_keys.len() && j < st1.observations.len()
                && st1.observation_keys[j] == key && #[trigger] st1.observations[j]
                == entry_observation(g);
        assert(st2.observations[j] == entry_observation(g));
        assert(holds_observation(r.providers[i], key, entry_observation(g)));
        assert(r.providers =~= mid.providers.update(i, st2));
        assert forall|k: int| 0 <= k < m.providers.len() && m.providers[k].provider.url != g.url implies (
            #[trigger] r.providers[k]) == m.providers[k] by {
            assert(k != i);
            assert(mid.providers[k] == m.providers[k]);
        }
        assert forall|k: int| 0 <= k < r.providers.len() implies (#[trigger] r.providers[k]).observation_keys.len()
            == r.providers[k].observations.len() by {
            if k != i {
                assert(r.providers[k] == mid.providers[k]);
            }
        }
    }
}

/// Entries merged in order: each fresh entry that no later entry overrides
/// with the same URL leaves its observation held under `key`.
proof fn lemma_entries_held(m: RegistryView, gs: Seq<GossipProviderView>, key: Seq<char>, now: i128)
    requires
        observations_keyed(m),
    ensures
        observations_keyed(m.merge_gossip_providers(gs, key, now)),
        forall|k: int|
            0 <= k < gs.len() && entry_fresh(#[trigger] gs[k], now) && (forall|j: int|
                k < j < gs.len() ==> gs[j].url != gs[k].url) ==> exists|i: int|
                0 <= i < m.merge_gossip_providers(gs, key, now).providers.len()
                    && m.merge_gossip_providers(gs, key, now).providers[i].provider.url == gs[k].url
                    && holds_observation(
                    m.merge_gossip_providers(gs, key, now).providers[i],
                    key,
                    entry_observation(gs[k]),
                ),
    decreases gs.len(),
{
    if gs.len() > 0 {
        let prev = m.merge_gossip_providers(gs.drop_last(), key, now);
        lemma_entries_held(m, gs.drop_last(), key, now);
        let g = gs.last();
        lemma_entry_step(prev, g, key, now);
        let after = m.merge_gossip_providers(gs, key, now);
        assert(after == prev.merge_gossip_provider(g, key, now));
        assert forall|k: int|
            0 <= k < gs.len() && entry_fresh(#[trigger] gs[k], now) && (forall|j: int|
                k < j < gs.len() ==> gs[j].url != gs[k].url) implies exists|i: int|
                0 <= i < after.providers.len() && after.providers[i].provider.url == gs[k].url
                    && holds_observation(after.providers[i], key, entry_observation(gs[k])) by {
            if k == gs.len() - 1 {
            } else {
                assert(gs.drop_last()[k] == gs[k]);
                assert forall|j: int| k < j < gs.drop_last().len() implies gs.drop_last()[j].url != gs.drop_last()[k].url by {
                    assert(gs.drop_last()[j] == gs[j]);
                }
                assert(gs[gs.len() - 1].url != gs[k].url);
                let i = choose|i: int|
                    0 <= i < prev.providers.len() && prev.providers[i].provider.url == gs[k].url
                        && holds_observation(prev.providers[i], key, entry_observation(gs[k]));
                assert(after.providers[i] == prev.providers[i]);
            }
        }
    }
}

/// Merging a snapshot records what it says of providers: for each fresh
/// entry among the first `MAX_GOSSIP_PROVIDERS`, unless a later one there
/// names the same URL, a provider under that URL afterwards holds the
/// entry's observation (its score kept in range, its ledger, its own
/// failure count, its health and its time) as what the sender reports,
/// filed under the sender's URL or, when it gives none, its instance id.
pub proof fn law_merge_records_observations(m: RegistryView, snap: SnapshotView, now: i128)
    requires
        m.wf(),
        snap.instance_id != m.instance_id,
    ensures
        ({
            let after = m.after_merge(snap, now);
            let gs = first_n(snap.providers, MAX_GOSSIP_PROVIDERS as int);
            let key = match snap.base_url {
                Some(b) => b,
                None => snap.instance_id,
            };
            forall|k: int|
                0 <= k < gs.len() && entry_fresh(#[trigger] gs[k], now) && (forall|j: int|
                    k < j < gs.len() ==> gs[j].url != gs[k].url) ==> exists|i: int|
                    0 <= i < after.providers.len() && after.providers[i].provider.url == gs[k].url
                        && holds_observation(after.providers[i], key, entry_observation(gs[k]))
        }),
{
    let ads = first_n(snap.peers, MAX_GOSSIP_PEERS as int);
    let gs = first_n(snap.providers, MAX_GOSSIP_PROVIDERS as int);
    let m1 = match snap.base_url {
        Some(b) => m.with_peer(b, Some(snap.instance_id), Some("gossip-response"@)),
        None => m,
    };
    if let Some(b) = snap.base_url {
        crate::laws::lemma_with_peer_urls(m, b, Some(snap.instance_id), Some("gossip-response"@));
    }
    let m2 = m1.merge_peer_ads(ads, snap.instance_id);
    crate::laws::lemma_merge_ads_urls(m1, ads, snap.instance_id);
    let key = match snap.base_url {
        Some(b) => b,
        None => snap.instance_id,
    };
    assert forall|i: int| 0 <= i < m2.providers.len() implies (#[trigger] m2.providers[i]).observation_keys.len()
        == m2.providers[i].observations.len() by {
        assert(m.providers[i].wf());
    }
    lemma_entries_held(m2, gs, key, now);
}

/// Requests: a request that succeeded through the provider at `url`
/// clears its failures, closes its circuit breaker, and sets its score to
/// the higher of its score and `DISCOVERED_PROVIDER_STARTING_SCORE`, plus
/// `LOCAL_SUCCESS_BONUS`, up to the highest score. A request that failed
/// counts one more failure, lowers the score by `LOCAL_FAILURE_PENALTY`
/// down to the lowest score, and trips the breaker when the failures reach
/// `CIRCUIT_BREAKER_THRESHOLD`. Both note the time; other providers and the
/// peers stay as they are; an unknown URL changes nothing.
pub proof fn law_request_outcome(m: RegistryView, url: Seq<char>, now: i128, at: Moment)
    requires
        m.wf(),
    ensures
        m.provider_index(url) is None ==> m.after_request_success(url, now) == m
            && m.after_request_failure(url, at) == m,
        m.provider_index(url) matches Some(i) ==> {
            let before = m.providers[i];
            let ok = m.after_request_success(url, now);
            let failed = m.after_request_failure(url, at);
            let base = if before.local_score > DISCOVERED_PROVIDER_STARTING_SCORE {
                before.local_score as int
            } else {
                DISCOVERED_PROVIDER_STARTING_SCORE as int
            };
            &&& ok.providers.len() == m.providers.len()
            &&& failed.providers.len() == m.providers.len()
            &&& forall|k: int|
                0 <= k < m.providers.len() && k != i ==> ok.providers[k] == m.providers[k]
                    && failed.providers[k] == m.providers[k]
            &&& ok.peers == m.peers && failed.peers == m.peers
            &&& ok.providers[i].provider == before.provider
            &&& ok.providers[i].observations == before.observations
            &&& ok.providers[i].latest_ledger == before.latest_ledger
            &&& ok.providers[i].consecutive_failures == 0
            &&& ok.providers[i].tripped_at is None
            &&& ok.providers[i].local_score == if base + LOCAL_SUCCESS_BONUS > MAX_HEALTH_SCORE {
                MAX_HEALTH_SCORE as int
            } else {
                base + LOCAL_SUCCESS_BONUS
            }
            &&& ok.providers[i].last_local_observed_at == Some(now)
            &&& failed.providers[i].provider == before.provider
            &&& failed.providers[i].observations == before.observations
            &&& failed.providers[i].latest_ledger == before.latest_ledger
            &&& failed.providers[i].consecutive_failures == (if before.consecutive_failures
                == u64::MAX {
                0
            } else {
                before.consecutive_failures + 1
            })
            &&& failed.providers[i].local_score == if before.local_score - LOCAL_FAILURE_PENALTY
                < MIN_HEALTH_SCORE {
                MIN_HEALTH_SCORE as int
            } else {
                before.local_score - LOCAL_FAILURE_PENALTY
            }
            &&& failed.providers[i].last_local_observed_at == Some(at.wall_nanos)
            &&& failed.providers[i].tripped_at == if before.consecutive_failures + 1
                >= CIRCUIT_BREAKER_THRESHOLD {
                Some(at.monotonic_nanos)
            } else {
                before.tripped_at
            }
        },
{
    if let Some(i) = m.provider_index(url) {
        assert(0 <= i < m.providers.len());
        assert(m.providers[i].wf());
    }
}

/// Exchanges with peers: a successful exchange with the peer at `base_url`
/// clears its failures and last error, raises its score by
/// `PEER_SUCCESS_BONUS` up to the highest score and notes `now` as when it
/// was last seen; a failed one counts one more failure, lowers its score by
/// `PEER_FAILURE_PENALTY` down to the lowest score and records the error.
/// The peer is found under its normalized URL (one that normalizing again
/// leaves as it is); other peers and the providers stay as they are.
pub proof fn law_peer_exchange_outcome(m: RegistryView, base_url: Seq<char>, now: i128, error: Seq<char>)
    requires
        m.wf(),
    ensures
        ({
            let url = crate::text::normalized_base_url(base_url);
            crate::text::normalized_base_url(url) == url ==> (m.peer_index(url) matches Some(i) ==> {
                let before = m.peers[i];
                let ok = m.after_peer_success(base_url, now);
                let failed = m.after_peer_failure(base_url, error);
                &&& ok.providers == m.providers && failed.providers == m.providers
                &&& ok.peers.len() == m.peers.len() && failed.peers.len() == m.peers.len()
                &&& forall|k: int|
                    0 <= k < m.peers.len() && k != i ==> ok.peers[k] == m.peers[k]
                        && failed.peers[k] == m.peers[k]
                &&& ok.peers[i].base_url == url && failed.peers[i].base_url == url
                &&& ok.peers[i].consecutive_failures == 0
                &&& ok.peers[i].last_error is None
                &&& ok.peers[i].last_seen_at == Some(now)
                &&& ok.peers[i].score == if before.score + PEER_SUCCESS_BONUS > MAX_HEALTH_SCORE {
                    MAX_HEALTH_SCORE as int
                } else {
                    before.score + PEER_SUCCESS_BONUS
                }
                &&& failed.peers[i].consecutive_failures == (if before.consecutive_failures
                    == u64::MAX {
                    0
                } else {
                    before.consecutive_failures + 1
                })
                &&& failed.peers[i].last_error == Some(error)
                &&& failed.peers[i].last_seen_at == before.last_seen_at
                &&& failed.peers[i].score == if before.score - PEER_FAILURE_PENALTY
                    < MIN_HEALTH_SCORE {
                    MIN_HEALTH_SCORE as int
                } else {
                    before.score - PEER_FAILURE_PENALTY
                }
            })
        }),
{
    let url = crate::text::normalized_base_url(base_url);
    if crate::text::normalized_base_url(url) == url && m.peer_index(url) is Some {
        let i = m.peer_index(url)->0;
        assert(0 <= i < m.peers.len());
        assert(crate::registry::base_urls_of(m.peers)[i] == url);
        assert(m.peers[i].wf());
        assert(url.len() > 0);
        let mid = m.with_peer(url, None, None);
        assert(mid == m) by {
            if m.public_base_url == Some(url) {
            } else {
                assert(m.peers[i].with_instance_id(None).with_source(None) == m.peers[i]);
                assert(m.peers.update(i, m.peers[i]) =~= m.peers);
            }
        }
    }
}

} // verus!
