//! Properties of the registry that span its operations, proved over the
//! views that the operations' contracts use.
use vstd::prelude::*;
use crate::clock::Moment;
use crate::health::{
    clamped, lemma_fresh_in_range, lemma_mean_score_in_range, mean_score, fresh_observations,
    reaches_threshold, score_in_range, trip_active, CIRCUIT_BREAKER_COOLDOWN_NANOS,
    LOCAL_PROVIDER_STARTING_SCORE, MAX_GOSSIP_PEERS, MAX_GOSSIP_PROVIDERS, PEER_FAILURE_PENALTY,
};
use crate::provider::{GossipProviderView, PeerAdvertisementView, ProviderView, SnapshotView};
use crate::health::observation_stale;
use crate::ranking::{lemma_rank_sorted_properties, rank_sorted, ranked_in_order, RankView};
use crate::registry::{base_urls_of, seeded_peers, with_seed_peer, GossipOutcome, entry_advertised, entry_healthy, first_n, gossip_entry,
    gossip_rank, healthy_rank, peer_rank, report_rank, seeded_providers, urls_of, with_seed_provider,
    RegistryView};
use crate::state::{index_of, PeerReportView, PeerStateView, ProviderReportView, ProviderSource,
    ProviderStateView};
use crate::text::{
    is_whitespace_char, normalized_base_url, strip_trailing_char, trim_leading, trim_trailing,
};

verus! {

/// What a filtered sequence holds: the elements that pass.
pub proof fn lemma_filter_member<A>(s: Seq<A>, p: spec_fn(A) -> bool, x: A)
    ensures
        s.filter(p).contains(x) <==> (s.contains(x) && p(x)),
    decreases s.len(),
{
    if s.len() > 0 {
        let t = s.drop_last();
        let y = s.last();
        lemma_filter_member(t, p, x);
        assert(t.push(y) =~= s);
        t.lemma_filter_push(y, p);
        let f = t.filter(p);
        if t.contains(x) {
            let k = choose|k: int| 0 <= k < t.len() && t[k] == x;
            assert(s[k] == x);
        }
        if s.contains(x) && !t.contains(x) {
            let k = choose|k: int| 0 <= k < s.len() && s[k] == x;
            if k < s.len() - 1 {
                assert(t[k] == x);
            }
            assert(y == x);
        }
        if p(y) {
            let g = f.push(y);
            if g.contains(x) && x != y {
                let k = choose|k: int| 0 <= k < g.len() && g[k] == x;
                assert(f[k] == x);
            }
            if f.contains(x) {
                let k = choose|k: int| 0 <= k < f.len() && f[k] == x;
                assert(g[k] == x);
            }
            if x == y {
                assert(g[f.len() as int] == x);
            }
        }
    } else {
        assert(s.filter(p).len() == 0) by {
            s.lemma_filter_len(p);
        }
    }
}

/// A listing by rank holds exactly what it lists.
pub proof fn lemma_rank_sorted_member<T>(s: Seq<T>, key: spec_fn(T) -> RankView, x: T)
    ensures
        rank_sorted(s, key).contains(x) <==> s.contains(x),
{
    lemma_rank_sorted_properties(s, key);
    vstd::seq_lib::to_multiset_contains(s, x);
    vstd::seq_lib::to_multiset_contains(rank_sorted(s, key), x);
}

/// The first `n` elements of a sequence are elements of it.
pub proof fn lemma_first_n_member<A>(s: Seq<A>, n: int, x: A)
    requires
        n >= 0,
        first_n(s, n).contains(x),
    ensures
        s.contains(x),
{
    if s.len() > n {
        let k = choose|k: int| 0 <= k < first_n(s, n).len() && first_n(s, n)[k] == x;
        assert(s[k] == x);
    }
}

/// An element of a mapped sequence is the image of an element.
pub proof fn lemma_map_member<A, B>(s: Seq<A>, f: spec_fn(A) -> B, y: B) -> (x: A)
    requires
        s.map_values(f).contains(y),
    ensures
        s.contains(x),
        f(x) == y,
{
    let k = choose|k: int| 0 <= k < s.map_values(f).len() && s.map_values(f)[k] == y;
    assert(s[k] == s[k]);
    s[k]
}

/// The image of an element is an element of the mapped sequence.
pub proof fn lemma_map_contains<A, B>(s: Seq<A>, f: spec_fn(A) -> B, x: A)
    requires
        s.contains(x),
    ensures
        s.map_values(f).contains(f(x)),
{
    let k = choose|k: int| 0 <= k < s.len() && s[k] == x;
    assert(s.map_values(f)[k] == f(x));
}

/// The entry of the provider at `i` has that provider's URL, and no other
/// entry has it.
proof fn lemma_entry_of_url(m: RegistryView, at: Moment, e: (ProviderView, ProviderReportView))
    requires
        m.wf(),
        m.entries(at).contains(e),
    ensures
        m.provider_index(e.0.url) is Some,
        e == m.entries(at)[m.provider_index(e.0.url)->0],
{
    let k = choose|k: int| 0 <= k < m.entries(at).len() && m.entries(at)[k] == e;
    assert(urls_of(m.providers)[k] == e.0.url);
    crate::registry::lemma_index_of_distinct(urls_of(m.providers), k);
}

/// A provider whose report at `at` is healthy is among the healthy providers
/// listed at `at`.
proof fn lemma_healthy_entry_listed(m: RegistryView, at: Moment, i: int)
    requires
        0 <= i < m.providers.len(),
        m.entries(at)[i].1.healthy,
    ensures
        m.listed_healthy(at).contains(m.providers[i].provider),
{
    let pred = |e: (ProviderView, ProviderReportView)| entry_healthy(e);
    let key = |e: (ProviderView, ProviderReportView)| healthy_rank(e);
    let e = m.entries(at)[i];
    assert(m.entries(at).contains(e));
    lemma_filter_member(m.entries(at), pred, e);
    lemma_rank_sorted_member(m.entries(at).filter(pred), key, e);
    lemma_map_contains(
        rank_sorted(m.entries(at).filter(pred), key),
        |e: (ProviderView, ProviderReportView)| e.0,
        e,
    );
}

/// Circuit breaker: a failure that brings a provider's consecutive failures
/// to `CIRCUIT_BREAKER_THRESHOLD` takes it off the healthy providers until
/// the cool-down has passed.
pub proof fn law_breaker_opens_at_threshold(
    m: RegistryView,
    url: Seq<char>,
    at: Moment,
    later: Moment,
)
    requires
        m.wf(),
        m.provider_index(url) is Some,
        reaches_threshold(m.providers[m.provider_index(url)->0].consecutive_failures),
        later.monotonic_nanos < at.monotonic_nanos + CIRCUIT_BREAKER_COOLDOWN_NANOS,
    ensures
        forall|p: ProviderView| #[trigger]
            m.after_request_failure(url, at).listed_healthy(later).contains(p) ==> p.url != url,
{
    let i = m.provider_index(url)->0;
    let m2 = m.after_request_failure(url, at);
    assert(urls_of(m2.providers) =~= urls_of(m.providers));
    assert forall|p: ProviderView| #[trigger] m2.listed_healthy(later).contains(p) implies p.url
        != url by {
        let pred = |e: (ProviderView, ProviderReportView)| entry_healthy(e);
        let key = |e: (ProviderView, ProviderReportView)| healthy_rank(e);
        let sorted = rank_sorted(m2.entries(later).filter(pred), key);
        let e = lemma_map_member(sorted, |e: (ProviderView, ProviderReportView)| e.0, p);
        lemma_rank_sorted_member(m2.entries(later).filter(pred), key, e);
        lemma_filter_member(m2.entries(later), pred, e);
        let k = choose|k: int| 0 <= k < m2.entries(later).len() && m2.entries(later)[k] == e;
        if p.url == url {
            assert(urls_of(m2.providers)[k] == url);
            assert(urls_of(m2.providers)[i] == url);
            if k != i {
                if k < i {
                    assert(urls_of(m.providers)[k] != urls_of(m.providers)[i]);
                } else {
                    assert(urls_of(m.providers)[i] != urls_of(m.providers)[k]);
                }
            }
            assert(trip_active(m2.providers[i].tripped_at, later.monotonic_nanos));
        }
    }
}

/// A successful request through a known provider makes it healthy: it is
/// among the healthy providers listed at any moment until something else
/// happens to it.
pub proof fn law_success_restores_health(m: RegistryView, url: Seq<char>, now: i128, at: Moment)
    requires
        m.wf(),
        m.provider_index(url) is Some,
    ensures
        m.after_request_success(url, now).listed_healthy(at).contains(
            m.after_request_success(url, now).providers[m.provider_index(url)->0].provider,
        ),
        m.after_request_success(url, now).providers[m.provider_index(url)->0].provider.url == url,
{
    let i = m.provider_index(url)->0;
    let m2 = m.after_request_success(url, now);
    let s = m2.providers[i];
    assert(m.providers[i].wf());
    lemma_fresh_in_range(s.observations, at.wall_nanos);
    lemma_mean_score_in_range(fresh_observations(s.observations, at.wall_nanos));
    let peer = mean_score(fresh_observations(s.observations, at.wall_nanos));
    assert(s.local_score >= 67);
    assert((2 * s.local_score + peer) / 3 >= 44);
    assert(m2.entries(at)[i].1.healthy);
    lemma_healthy_entry_listed(m2, at, i);
    assert(urls_of(m.providers)[i] == url);
}

/// Every element of a seeded provider list is a freshly seeded provider.
proof fn lemma_seeded_fresh(seeds: Seq<ProviderView>, i: int)
    requires
        0 <= i < seeded_providers(seeds).len(),
    ensures
        exists|p: ProviderView| seeded_providers(seeds)[i] == ProviderStateView::fresh(
            p,
            ProviderSource::Seed,
            LOCAL_PROVIDER_STARTING_SCORE,
        ),
    decreases seeds.len(),
{
    if seeds.len() > 0 {
        let prev = seeded_providers(seeds.drop_last());
        let p = seeds.last();
        let fresh = ProviderStateView::fresh(p, ProviderSource::Seed, LOCAL_PROVIDER_STARTING_SCORE);
        match index_of(urls_of(prev), p.url) {
            Some(j) => {
                assert(with_seed_provider(prev, p) == prev.update(j, fresh));
                if i != j {
                    lemma_seeded_fresh(seeds.drop_last(), i);
                }
            },
            None => {
                if i < prev.len() {
                    lemma_seeded_fresh(seeds.drop_last(), i);
                }
            },
        }
    }
}

/// A new registry reports every one of its providers healthy, at any moment.
pub proof fn law_seed_providers_start_healthy(
    providers: Seq<ProviderView>,
    instance_id: Seq<char>,
    public_base_url: Option<Seq<char>>,
    seed_peers: Seq<Seq<char>>,
    at: Moment,
)
    ensures
        ({
            let m = RegistryView::initial(providers, instance_id, public_base_url, seed_peers);
            forall|i: int| 0 <= i < m.providers.len() ==> (#[trigger] m.entries(at)[i]).1.healthy
        }),
{
    let m = RegistryView::initial(providers, instance_id, public_base_url, seed_peers);
    assert forall|i: int| 0 <= i < m.providers.len() implies (#[trigger] m.entries(at)[i]).1.healthy by {
        lemma_seeded_fresh(providers, i);
        let p = choose|p: ProviderView| seeded_providers(providers)[i] == ProviderStateView::fresh(
            p,
            ProviderSource::Seed,
            LOCAL_PROVIDER_STARTING_SCORE,
        );
        let s = m.providers[i];
        assert(s.observations =~= Seq::empty());
        assert(fresh_observations(s.observations, at.wall_nanos) =~= Seq::empty());
    }
}

/// A snapshot advertises only providers that may be advertised, and at
/// most `MAX_GOSSIP_PROVIDERS` of them; it carries no credentials.
pub proof fn law_snapshot_advertises_only_public_providers(m: RegistryView, at: Moment)
    requires
        m.wf(),
    ensures
        m.snapshot(at).providers.len() <= MAX_GOSSIP_PROVIDERS,
        forall|g: GossipProviderView| #[trigger] m.snapshot(at).providers.contains(g) ==> ({
            &&& m.provider_index(g.url) is Some
            &&& m.providers[m.provider_index(g.url)->0].provider.advertised()
        }),
{
    let pred = |e: (ProviderView, ProviderReportView)| entry_advertised(e);
    let to_g = |e: (ProviderView, ProviderReportView)| gossip_entry(e, at.wall_nanos);
    let key = |g: GossipProviderView| gossip_rank(g);
    let chosen = first_n(m.entries(at).filter(pred), MAX_GOSSIP_PROVIDERS as int);
    lemma_rank_sorted_properties(chosen.map_values(to_g), key);
    assert forall|g: GossipProviderView| #[trigger] m.snapshot(at).providers.contains(g) implies ({
        &&& m.provider_index(g.url) is Some
        &&& m.providers[m.provider_index(g.url)->0].provider.advertised()
    }) by {
        lemma_rank_sorted_member(chosen.map_values(to_g), key, g);
        let e = lemma_map_member(chosen, to_g, g);
        lemma_first_n_member(m.entries(at).filter(pred), MAX_GOSSIP_PROVIDERS as int, e);
        lemma_filter_member(m.entries(at), pred, e);
        lemma_entry_of_url(m, at, e);
    }
}

/// A snapshot vouches for at most `MAX_GOSSIP_PEERS` peers, each of them
/// known to this node.
pub proof fn law_snapshot_vouches_for_known_peers(m: RegistryView, at: Moment)
    ensures
        m.snapshot(at).peers.len() <= MAX_GOSSIP_PEERS,
        forall|i: int| 0 <= i < m.snapshot(at).peers.len() ==> base_urls_of(m.peers).contains(
            (#[trigger] m.snapshot(at).peers[i]).base_url,
        ),
{
    let now = at.wall_nanos;
    let pred = |r: PeerReportView| crate::registry::peer_advertisable(r);
    let key = |r: PeerReportView| peer_rank(r);
    let listed = m.listed_peers(now);
    let chosen = first_n(listed.filter(pred), MAX_GOSSIP_PEERS as int);
    let ads = m.snapshot(at).peers;
    assert forall|i: int| 0 <= i < ads.len() implies base_urls_of(m.peers).contains(
        (#[trigger] ads[i]).base_url,
    ) by {
        let to_ad = |r: PeerReportView| crate::registry::advertisement_of(r);
        assert(ads.contains(ads[i]));
        let r = lemma_map_member(chosen, to_ad, ads[i]);
        lemma_first_n_member(listed.filter(pred), MAX_GOSSIP_PEERS as int, r);
        lemma_filter_member(listed, pred, r);
        lemma_rank_sorted_member(m.peer_reports(now), key, r);
        let k = choose|k: int| 0 <= k < m.peer_reports(now).len() && m.peer_reports(now)[k] == r;
        assert(base_urls_of(m.peers)[k] == r.base_url);
    }
}

/// Provider reports are listed best first and hold the report of every
/// provider exactly once; so are peer reports and healthy providers.
pub proof fn law_listings_are_ordered(m: RegistryView, at: Moment)
    ensures
        ranked_in_order(m.listed_reports(at), |r: ProviderReportView| report_rank(r)),
        m.listed_reports(at).to_multiset() == m.reports(at).to_multiset(),
        ranked_in_order(m.listed_peers(at.wall_nanos), |r: PeerReportView| peer_rank(r)),
        m.listed_peers(at.wall_nanos).to_multiset() == m.peer_reports(at.wall_nanos).to_multiset(),
{
    lemma_rank_sorted_properties(m.reports(at), |r: ProviderReportView| report_rank(r));
    lemma_rank_sorted_properties(m.peer_reports(at.wall_nanos), |r: PeerReportView| peer_rank(r));
}

/// Merging a snapshot that this node itself made changes nothing.
pub proof fn law_own_snapshot_ignored(m: RegistryView, snap: SnapshotView, now: i128)
    requires
        snap.instance_id == m.instance_id,
    ensures
        m.after_merge(snap, now) == m,
{
}

/// A failed exchange lowers a peer's score by the failure penalty, down to
/// the minimum, and records the error.
pub proof fn law_peer_failure_lowers_score(m: RegistryView, url: Seq<char>, error: Seq<char>)
    requires
        m.wf(),
        normalized_base_url(url) == url,
        m.peer_index(url) is Some,
    ensures
        ({
            let i = m.peer_index(url)->0;
            let after = m.after_peer_failure(url, error);
            &&& after.peer_index(url) == Some(i)
            &&& after.peers[i].score == clamped(m.peers[i].score - PEER_FAILURE_PENALTY)
            &&& m.peers[i].score > 0 ==> after.peers[i].score < m.peers[i].score
            &&& after.peers[i].last_error == Some(error)
        }),
{
    let i = m.peer_index(url)->0;
    let mid = m.with_peer(url, None, None);
    if url.len() == 0 || m.public_base_url == Some(url) {
        assert(mid == m);
    } else {
        assert(mid.peers =~= m.peers.update(i, m.peers[i]));
        assert(mid =~= m);
    }
    assert(m.peers[i].wf());
    let after = m.after_peer_failure(url, error);
    assert(base_urls_of(after.peers) =~= base_urls_of(m.peers));
}

proof fn lemma_trim_leading_start(s: Seq<char>)
    ensures
        trim_leading(s).len() > 0 ==> !is_whitespace_char(trim_leading(s)[0]),
        exists|k: int| 0 <= k <= s.len() && trim_leading(s) == s.subrange(k, s.len() as int),
    decreases s.len(),
{
    if s.len() > 0 && is_whitespace_char(s[0]) {
        lemma_trim_leading_start(s.drop_first());
        let k = choose|k: int| 0 <= k <= s.drop_first().len() && trim_leading(s.drop_first())
            == s.drop_first().subrange(k, s.drop_first().len() as int);
        assert(s.drop_first().subrange(k, s.drop_first().len() as int) =~= s.subrange(
            k + 1,
            s.len() as int,
        ));
    } else {
        assert(s.subrange(0, s.len() as int) =~= s);
    }
}

proof fn lemma_trim_trailing_prefix(s: Seq<char>)
    ensures
        trim_trailing(s).len() <= s.len(),
        trim_trailing(s) == s.take(trim_trailing(s).len() as int),
        trim_trailing(s).len() > 0 ==> !is_whitespace_char(trim_trailing(s).last()),
    decreases s.len(),
{
    if s.len() > 0 && is_whitespace_char(s.last()) {
        lemma_trim_trailing_prefix(s.drop_last());
        let t = trim_trailing(s.drop_last());
        assert(s.drop_last().take(t.len() as int) =~= s.take(t.len() as int));
    } else {
        assert(s.take(s.len() as int) =~= s);
    }
}

proof fn lemma_strip_prefix(s: Seq<char>, c: char)
    ensures
        strip_trailing_char(s, c).len() <= s.len(),
        strip_trailing_char(s, c) == s.take(strip_trailing_char(s, c).len() as int),
        strip_trailing_char(s, c).len() > 0 ==> strip_trailing_char(s, c).last() != c,
    decreases s.len(),
{
    if s.len() > 0 && s.last() == c {
        lemma_strip_prefix(s.drop_last(), c);
        let t = strip_trailing_char(s.drop_last(), c);
        assert(s.drop_last().take(t.len() as int) =~= s.take(t.len() as int));
    } else {
        assert(s.take(s.len() as int) =~= s);
    }
}

/// Normalizing a normalized base URL changes nothing, unless stripping the
/// slashes left white space at its end.
pub proof fn law_normalization_idempotent(s: Seq<char>)
    requires
        normalized_base_url(s).len() > 0 ==> !is_whitespace_char(normalized_base_url(s).last()),
    ensures
        normalized_base_url(normalized_base_url(s)) == normalized_base_url(s),
{
    let n = normalized_base_url(s);
    let a = trim_leading(s);
    let t = trim_trailing(a);
    lemma_trim_leading_start(a);
    lemma_trim_leading_start(s);
    lemma_trim_trailing_prefix(a);
    lemma_strip_prefix(t, '/');
    if n.len() > 0 {
        assert(n[0] == t[0]);
        assert(t[0] == a[0]);
        assert(!is_whitespace_char(n[0]));
    }
    assert(trim_leading(n) == n);
    assert(trim_trailing(n) == n);
    assert(strip_trailing_char(n, '/') == n);
}

/// What registering a peer does to the known base URLs.
pub proof fn lemma_with_peer_urls(
    m: RegistryView,
    b: Seq<char>,
    id: Option<Seq<char>>,
    src: Option<Seq<char>>,
)
    ensures
        ({
            let url = normalized_base_url(b);
            let after = m.with_peer(b, id, src);
            &&& after.providers == m.providers
            &&& after.instance_id == m.instance_id
            &&& after.public_base_url == m.public_base_url
            &&& if url.len() == 0 || m.public_base_url == Some(url) || base_urls_of(
                m.peers,
            ).contains(url) {
                base_urls_of(after.peers) == base_urls_of(m.peers)
            } else {
                base_urls_of(after.peers) == base_urls_of(m.peers).push(url)
            }
        }),
{
    let url = normalized_base_url(b);
    let after = m.with_peer(b, id, src);
    if url.len() == 0 || m.public_base_url == Some(url) {
    } else {
        match m.peer_index(url) {
            Some(i) => {
                assert(base_urls_of(after.peers) =~= base_urls_of(m.peers));
            },
            None => {
                if base_urls_of(m.peers).contains(url) {
                    let k = choose|k: int| 0 <= k < base_urls_of(m.peers).len() && base_urls_of(m.peers)[k] == url;
                    assert(base_urls_of(m.peers)[k] == url);
                }
                assert(base_urls_of(after.peers) =~= base_urls_of(m.peers).push(url));
            },
        }
    }
}

/// Whether registering the peer advertised as `base_url` makes it known.
pub open spec fn registers(m: RegistryView, base_url: Seq<char>) -> bool {
    let url = normalized_base_url(base_url);
    base_url.len() > 0 && url.len() > 0 && m.public_base_url != Some(url)
}

proof fn lemma_push_contains<A>(s: Seq<A>, x: A, y: A)
    ensures
        s.push(x).contains(y) <==> (s.contains(y) || y == x),
{
    if s.contains(y) {
        let k = choose|k: int| 0 <= k < s.len() && s[k] == y;
        assert(s.push(x)[k] == y);
    }
    if y == x {
        assert(s.push(x)[s.len() as int] == y);
    }
    if s.push(x).contains(y) && y != x {
        let k = choose|k: int| 0 <= k < s.push(x).len() && s.push(x)[k] == y;
        assert(s[k] == y);
    }
}

/// Registering the peers of advertisements keeps the known peers, learns the
/// advertised ones, and learns no URL that is this node's own.
pub proof fn lemma_merge_ads_urls(m: RegistryView, ads: Seq<PeerAdvertisementView>, origin: Seq<char>)
    ensures
        ({
            let after = m.merge_peer_ads(ads, origin);
            &&& after.providers == m.providers
            &&& after.instance_id == m.instance_id
            &&& after.public_base_url == m.public_base_url
            &&& forall|u: Seq<char>| #[trigger] base_urls_of(m.peers).contains(u) ==> base_urls_of(
                after.peers,
            ).contains(u)
            &&& forall|k: int| 0 <= k < ads.len() && registers(m, (#[trigger] ads[k]).base_url)
                ==> base_urls_of(after.peers).contains(normalized_base_url(ads[k].base_url))
            &&& forall|u: Seq<char>| #[trigger] base_urls_of(after.peers).contains(u) ==> (
            base_urls_of(m.peers).contains(u) || m.public_base_url != Some(u))
        }),
    decreases ads.len(),
{
    if ads.len() > 0 {
        let prev = m.merge_peer_ads(ads.drop_last(), origin);
        lemma_merge_ads_urls(m, ads.drop_last(), origin);
        let ad = ads.last();
        let after = m.merge_peer_ads(ads, origin);
        if ad.base_url.len() > 0 {
            lemma_with_peer_urls(prev, ad.base_url, ad.instance_id, Some(origin));
            let url = normalized_base_url(ad.base_url);
            assert forall|u: Seq<char>| #[trigger] base_urls_of(m.peers).contains(u) implies base_urls_of(
                after.peers,
            ).contains(u) by {
                lemma_push_contains(base_urls_of(prev.peers), url, u);
            }
            assert forall|u: Seq<char>| #[trigger] base_urls_of(after.peers).contains(u) implies (
            base_urls_of(m.peers).contains(u) || m.public_base_url != Some(u)) by {
                lemma_push_contains(base_urls_of(prev.peers), url, u);
            }
            assert forall|k: int| 0 <= k < ads.len() && registers(m, (#[trigger] ads[k]).base_url)
                implies base_urls_of(after.peers).contains(normalized_base_url(ads[k].base_url)) by {
                let v = normalized_base_url(ads[k].base_url);
                lemma_push_contains(base_urls_of(prev.peers), url, v);
                if k < ads.len() - 1 {
                    assert(ads.drop_last()[k] == ads[k]);
                }
            }
        } else {
            assert forall|k: int| 0 <= k < ads.len() && registers(m, (#[trigger] ads[k]).base_url)
                implies base_urls_of(after.peers).contains(normalized_base_url(ads[k].base_url)) by {
                if k < ads.len() - 1 {
                    assert(ads.drop_last()[k] == ads[k]);
                }
            }
        }
    }
}

/// Whether the snapshot entry `g` is recorded when it arrives at `now`.
pub open spec fn recorded(g: GossipProviderView, now: i128) -> bool {
    g.url.len() > 0 && !observation_stale(g.observed_at, now)
}

/// Recording snapshot entries leaves the peers alone, keeps the known
/// providers, and learns the providers of the entries that are recorded.
proof fn lemma_merge_providers_urls(
    m: RegistryView,
    gs: Seq<GossipProviderView>,
    key: Seq<char>,
    now: i128,
)
    ensures
        ({
            let after = m.merge_gossip_providers(gs, key, now);
            &&& after.peers == m.peers
            &&& after.public_base_url == m.public_base_url
            &&& forall|u: Seq<char>| #[trigger] urls_of(m.providers).contains(u) ==> urls_of(
                after.providers,
            ).contains(u)
            &&& forall|k: int| 0 <= k < gs.len() && recorded(#[trigger] gs[k], now) ==> urls_of(
                after.providers,
            ).contains(gs[k].url)
        }),
    decreases gs.len(),
{
    if gs.len() > 0 {
        let prev = m.merge_gossip_providers(gs.drop_last(), key, now);
        lemma_merge_providers_urls(m, gs.drop_last(), key, now);
        let g = gs.last();
        let after = m.merge_gossip_providers(gs, key, now);
        if recorded(g, now) {
            let mid = prev.with_gossip_provider(g);
            let new_urls = if prev.provider_index(g.url) is Some {
                urls_of(prev.providers)
            } else {
                urls_of(prev.providers).push(g.url)
            };
            assert(urls_of(mid.providers) =~= new_urls);
            assert(new_urls.contains(g.url)) by {
                if prev.provider_index(g.url) is Some {
                } else {
                    lemma_push_contains(urls_of(prev.providers), g.url, g.url);
                }
            }
            match mid.provider_index(g.url) {
                Some(i) => {
                    assert(urls_of(after.providers) =~= urls_of(mid.providers));
                },
                None => {},
            }
            assert forall|u: Seq<char>| #[trigger] urls_of(m.providers).contains(u) implies urls_of(
                after.providers,
            ).contains(u) by {
                lemma_push_contains(urls_of(prev.providers), g.url, u);
            }
            assert forall|k: int| 0 <= k < gs.len() && recorded(#[trigger] gs[k], now) implies urls_of(
                after.providers,
            ).contains(gs[k].url) by {
                lemma_push_contains(urls_of(prev.providers), g.url, gs[k].url);
                if k < gs.len() - 1 {
                    assert(gs.drop_last()[k] == gs[k]);
                }
            }
        } else {
            assert forall|k: int| 0 <= k < gs.len() && recorded(#[trigger] gs[k], now) implies urls_of(
                after.providers,
            ).contains(gs[k].url) by {
                if k < gs.len() - 1 {
                    assert(gs.drop_last()[k] == gs[k]);
                }
            }
        }
    }
}

/// Gossip: merging a peer's snapshot makes its sender known as a peer (when
/// it gives a usable URL that is not this node's), makes known every peer
/// that it vouches for within the first `MAX_GOSSIP_PEERS`, and every
/// provider that it describes freshly within the first
/// `MAX_GOSSIP_PROVIDERS`; nothing known is forgotten, and this node never
/// becomes its own peer.
pub proof fn law_merge_learns_from_snapshot(m: RegistryView, snap: SnapshotView, now: i128)
    requires
        snap.instance_id != m.instance_id,
    ensures
        ({
            let after = m.after_merge(snap, now);
            let ads = first_n(snap.peers, MAX_GOSSIP_PEERS as int);
            let gs = first_n(snap.providers, MAX_GOSSIP_PROVIDERS as int);
            &&& (snap.base_url is Some && registers(m, snap.base_url->0)) ==> base_urls_of(
                after.peers,
            ).contains(normalized_base_url(snap.base_url->0))
            &&& forall|k: int| 0 <= k < ads.len() && registers(m, (#[trigger] ads[k]).base_url)
                ==> base_urls_of(after.peers).contains(normalized_base_url(ads[k].base_url))
            &&& forall|k: int| 0 <= k < gs.len() && recorded(#[trigger] gs[k], now) ==> urls_of(
                after.providers,
            ).contains(gs[k].url)
            &&& forall|u: Seq<char>| #[trigger] base_urls_of(m.peers).contains(u) ==> base_urls_of(
                after.peers,
            ).contains(u)
            &&& forall|u: Seq<char>| #[trigger] urls_of(m.providers).contains(u) ==> urls_of(
                after.providers,
            ).contains(u)
            &&& forall|u: Seq<char>|
                m.public_base_url == Some(u) && !base_urls_of(m.peers).contains(u) ==> !(
                #[trigger] base_urls_of(after.peers).contains(u))
        }),
{
    let ads = first_n(snap.peers, MAX_GOSSIP_PEERS as int);
    let gs = first_n(snap.providers, MAX_GOSSIP_PROVIDERS as int);
    let m1 = match snap.base_url {
        Some(b) => m.with_peer(b, Some(snap.instance_id), Some("gossip-response"@)),
        None => m,
    };
    let m2 = m1.merge_peer_ads(ads, snap.instance_id);
    let key = match snap.base_url {
        Some(b) => b,
        None => snap.instance_id,
    };
    let after = m2.merge_gossip_providers(gs, key, now);
    assert(after == m.after_merge(snap, now));
    match snap.base_url {
        Some(b) => {
            lemma_with_peer_urls(m, b, Some(snap.instance_id), Some("gossip-response"@));
            let url = normalized_base_url(b);
            assert forall|u: Seq<char>| #[trigger] base_urls_of(m.peers).contains(u) implies base_urls_of(
                m1.peers,
            ).contains(u) by {
                lemma_push_contains(base_urls_of(m.peers), url, u);
            }
            assert forall|u: Seq<char>| #[trigger] base_urls_of(m1.peers).contains(u) implies (
            base_urls_of(m.peers).contains(u) || m.public_base_url != Some(u)) by {
                lemma_push_contains(base_urls_of(m.peers), url, u);
            }
            if registers(m, b) {
                lemma_push_contains(base_urls_of(m.peers), url, url);
            }
        },
        None => {},
    }
    lemma_merge_ads_urls(m1, ads, snap.instance_id);
    lemma_merge_providers_urls(m2, gs, key, now);
    assert forall|k: int| 0 <= k < ads.len() && registers(m, (#[trigger] ads[k]).base_url) implies base_urls_of(
        after.peers,
    ).contains(normalized_base_url(ads[k].base_url)) by {
        assert(registers(m1, ads[k].base_url));
    }
}

/// Registering a provider from gossip: a provider already known under the
/// URL stays exactly as it is and keeps its position; an unknown one is
/// appended fresh, with the given source and starting score. Either way the
/// URL is known afterwards, and registering under the same URL again, with
/// any data, changes nothing.
pub proof fn law_get_or_insert_provider(
    m: RegistryView,
    p: ProviderView,
    source: ProviderSource,
    starting_score: i64,
    again: ProviderView,
    again_source: ProviderSource,
    again_score: i64,
)
    requires
        m.wf(),
        score_in_range(starting_score as int),
        again.url == p.url,
    ensures
        ({
            let r = m.with_registered_provider(p, source, starting_score);
            &&& m.provider_index(p.url) is Some ==> r == m
            &&& m.provider_index(p.url) is None ==> r == (RegistryView {
                providers: m.providers.push(ProviderStateView::fresh(p, source, starting_score)),
                ..m
            })
            &&& m.provider_index(p.url) is None ==> r.provider_index(p.url) == Some(
                m.providers.len() as int,
            )
            &&& r.provider_index(p.url) is Some
            &&& r.wf()
            &&& r.with_registered_provider(again, again_source, again_score) == r
        }),
{
    let r = m.with_registered_provider(p, source, starting_score);
    if m.provider_index(p.url) is None {
        let fresh = ProviderStateView::fresh(p, source, starting_score);
        assert(urls_of(m.providers.push(fresh)) =~= urls_of(m.providers).push(p.url));
        crate::registry::lemma_distinct_push(urls_of(m.providers), p.url);
        crate::registry::lemma_index_of_distinct(urls_of(r.providers), m.providers.len() as int);
        assert(fresh.observation_keys =~= Seq::<Seq<char>>::empty());
        assert forall|i: int| 0 <= i < r.providers.len() implies (#[trigger] r.providers[i]).wf() by {
            if i < m.providers.len() {
                assert(r.providers[i] == m.providers[i]);
            }
        }
    }
}

/// Whether every peer that `m` knows is still known in `after`.
pub open spec fn keeps_peers(m: RegistryView, after: RegistryView) -> bool {
    forall|u: Seq<char>| #[trigger] base_urls_of(m.peers).contains(u) ==> base_urls_of(after.peers).contains(u)
}

/// Seeding peers never registers `own` when it is given normalized.
proof fn lemma_seeded_peers_skip_own(seeds: Seq<Seq<char>>, own: Seq<char>)
    requires
        normalized_base_url(own) == own,
    ensures
        !base_urls_of(seeded_peers(seeds, Some(own))).contains(own),
    decreases seeds.len(),
{
    if seeds.len() > 0 {
        let prev = seeded_peers(seeds.drop_last(), Some(own));
        lemma_seeded_peers_skip_own(seeds.drop_last(), own);
        let url = normalized_base_url(seeds.last());
        let after = with_seed_peer(prev, seeds.last(), Some(own));
        if url.len() == 0 || Some(own) == Some(url) {
        } else {
            let fresh = PeerStateView::fresh(url, None);
            match index_of(base_urls_of(prev), url) {
                Some(i) => {
                    assert(base_urls_of(prev.update(i, fresh)) =~= base_urls_of(prev).update(i, url));
                    if base_urls_of(after).contains(own) {
                        let k = choose|k: int| 0 <= k < base_urls_of(after).len() && base_urls_of(after)[k] == own;
                        assert(base_urls_of(prev)[k] == own);
                    }
                },
                None => {
                    assert(base_urls_of(prev.push(fresh)) =~= base_urls_of(prev).push(url));
                    lemma_push_contains(base_urls_of(prev), url, own);
                },
            }
        }
    }
}

/// A new registry is not among its own peers when its public URL is
/// configured normalized, or not at all. (A seed peer is compared with the
/// public URL as configured, so a public URL configured with a trailing
/// slash does not keep out a seed peer that names the same node.)
pub proof fn law_new_registry_excludes_self(
    providers: Seq<ProviderView>,
    instance_id: Seq<char>,
    public_base_url: Option<Seq<char>>,
    seed_peers: Seq<Seq<char>>,
)
    requires
        public_base_url matches Some(u) ==> normalized_base_url(u) == u,
    ensures
        RegistryView::initial(providers, instance_id, public_base_url, seed_peers).excludes_self(),
{
    if let Some(u) = public_base_url {
        lemma_seeded_peers_skip_own(seed_peers, u);
    }
}

/// Updating the peer at `i` with a state of the same URL keeps the URLs.
proof fn lemma_peer_update_urls(m: RegistryView, i: int, p: PeerStateView)
    requires
        0 <= i < m.peers.len(),
        p.base_url == m.peers[i].base_url,
    ensures
        base_urls_of(m.with_peer_at(i, p).peers) == base_urls_of(m.peers),
{
    assert(base_urls_of(m.with_peer_at(i, p).peers) =~= base_urls_of(m.peers));
}

/// Registering a peer forgets no peer, and never registers this node.
proof fn lemma_with_peer_keeps(
    m: RegistryView,
    b: Seq<char>,
    id: Option<Seq<char>>,
    src: Option<Seq<char>>,
)
    requires
        m.excludes_self(),
    ensures
        keeps_peers(m, m.with_peer(b, id, src)),
        m.with_peer(b, id, src).excludes_self(),
        m.with_peer(b, id, src).public_base_url == m.public_base_url,
{
    let url = normalized_base_url(b);
    let after = m.with_peer(b, id, src);
    lemma_with_peer_urls(m, b, id, src);
    assert forall|u: Seq<char>| #[trigger] base_urls_of(m.peers).contains(u) implies base_urls_of(
        after.peers,
    ).contains(u) by {
        lemma_push_contains(base_urls_of(m.peers), url, u);
    }
    if let Some(own) = m.public_base_url {
        lemma_push_contains(base_urls_of(m.peers), url, own);
    }
}

/// A success or failure of an exchange with a peer forgets no peer, and
/// never registers this node.
proof fn lemma_peer_outcome_keeps(m: RegistryView, b: Seq<char>, now: i128, error: Seq<char>)
    requires
        m.excludes_self(),
    ensures
        keeps_peers(m, m.after_peer_success(b, now)),
        m.after_peer_success(b, now).excludes_self(),
        m.after_peer_success(b, now).public_base_url == m.public_base_url,
        keeps_peers(m, m.after_peer_failure(b, error)),
        m.after_peer_failure(b, error).excludes_self(),
        m.after_peer_failure(b, error).public_base_url == m.public_base_url,
{
    let url = normalized_base_url(b);
    let mid = m.with_peer(url, None, None);
    lemma_with_peer_keeps(m, url, None, None);
    match mid.peer_index(url) {
        Some(i) => {
            assert(0 <= i < mid.peers.len() && base_urls_of(mid.peers)[i] == url);
            lemma_peer_update_urls(mid, i, mid.peers[i].after_success(now));
            lemma_peer_update_urls(mid, i, mid.peers[i].after_failure(error));
        },
        None => {},
    }
}

/// This node never becomes its own peer, and no peer is ever forgotten:
/// registering a peer, the outcome of an exchange with one, merging a
/// snapshot and recording a gossip exchange keep every known peer and keep
/// this node out of its peers; requests and probes leave the peers alone.
pub proof fn law_peers_exclude_self(
    m: RegistryView,
    base_url: Seq<char>,
    instance_id: Option<Seq<char>>,
    source: Option<Seq<char>>,
    now: i128,
    error: Seq<char>,
    snap: SnapshotView,
    outcome: GossipOutcome,
    url: Seq<char>,
    ledger: Option<u64>,
    at: Moment,
)
    requires
        m.excludes_self(),
    ensures
        ({
            let r = m.with_peer(base_url, instance_id, source);
            keeps_peers(m, r) && r.excludes_self()
        }),
        ({
            let r = m.after_peer_success(base_url, now);
            keeps_peers(m, r) && r.excludes_self()
        }),
        ({
            let r = m.after_peer_failure(base_url, error);
            keeps_peers(m, r) && r.excludes_self()
        }),
        ({
            let r = m.after_merge(snap, now);
            keeps_peers(m, r) && r.excludes_self()
        }),
        ({
            let r = m.after_gossip(base_url, outcome, now);
            keeps_peers(m, r) && r.excludes_self()
        }),
        m.after_request_success(url, now).peers == m.peers,
        m.after_request_failure(url, at).peers == m.peers,
        m.after_probe(url, ledger, at).peers == m.peers,
        m.after_trip_expiry(at.monotonic_nanos).peers == m.peers,
{
    lemma_with_peer_keeps(m, base_url, instance_id, source);
    lemma_peer_outcome_keeps(m, base_url, now, error);
    let merged = m.after_merge(snap, now);
    if snap.instance_id != m.instance_id {
        law_merge_learns_from_snapshot(m, snap, now);
        assert(merged.public_base_url == m.public_base_url) by {
            lemma_merge_keeps_public_url(m, snap, now);
        }
    }
    assert(keeps_peers(m, merged) && merged.excludes_self());
    match outcome {
        GossipOutcome::Answered(s) => {
            let mm = m.after_merge(s@, now);
            if s@.instance_id != m.instance_id {
                law_merge_learns_from_snapshot(m, s@, now);
                lemma_merge_keeps_public_url(m, s@, now);
            }
            lemma_peer_outcome_keeps(mm, base_url, now, error);
            let r = m.after_gossip(base_url, outcome, now);
            assert forall|u: Seq<char>| #[trigger] base_urls_of(m.peers).contains(u) implies base_urls_of(
                r.peers,
            ).contains(u) by {
                assert(base_urls_of(mm.peers).contains(u));
            }
        },
        _ => {
            lemma_peer_outcome_keeps(m, base_url, now, crate::registry::gossip_error(outcome));
        },
    }
}

/// Merging a snapshot keeps this node's public URL.
proof fn lemma_merge_keeps_public_url(m: RegistryView, snap: SnapshotView, now: i128)
    ensures
        m.after_merge(snap, now).public_base_url == m.public_base_url,
{
    if snap.instance_id != m.instance_id {
        let ads = first_n(snap.peers, MAX_GOSSIP_PEERS as int);
        let gs = first_n(snap.providers, MAX_GOSSIP_PROVIDERS as int);
        let m1 = match snap.base_url {
            Some(b) => m.with_peer(b, Some(snap.instance_id), Some("gossip-response"@)),
            None => m,
        };
        if let Some(b) = snap.base_url {
            lemma_with_peer_urls(m, b, Some(snap.instance_id), Some("gossip-response"@));
        }
        let m2 = m1.merge_peer_ads(ads, snap.instance_id);
        lemma_merge_ads_urls(m1, ads, snap.instance_id);
        let key = match snap.base_url {
            Some(b) => b,
            None => snap.instance_id,
        };
        lemma_merge_providers_urls(m2, gs, key, now);
    }
}

/// Whether no peer that `m` knows is keyed by an empty URL.
pub open spec fn peer_urls_nonempty(m: RegistryView) -> bool {
    forall|u: Seq<char>| #[trigger] base_urls_of(m.peers).contains(u) ==> u.len() > 0
}

/// Registering a peer never keys one by an empty URL.
proof fn lemma_with_peer_nonempty(
    m: RegistryView,
    b: Seq<char>,
    id: Option<Seq<char>>,
    src: Option<Seq<char>>,
)
    requires
        peer_urls_nonempty(m),
    ensures
        peer_urls_nonempty(m.with_peer(b, id, src)),
{
    let url = normalized_base_url(b);
    let after = m.with_peer(b, id, src);
    lemma_with_peer_urls(m, b, id, src);
    assert forall|u: Seq<char>| #[trigger] base_urls_of(after.peers).contains(u) implies u.len() > 0 by {
        lemma_push_contains(base_urls_of(m.peers), url, u);
    }
}

/// The outcome of an exchange with a peer never keys one by an empty URL.
proof fn lemma_peer_outcome_nonempty(m: RegistryView, b: Seq<char>, now: i128, error: Seq<char>)
    requires
        peer_urls_nonempty(m),
    ensures
        peer_urls_nonempty(m.after_peer_success(b, now)),
        peer_urls_nonempty(m.after_peer_failure(b, error)),
{
    let url = normalized_base_url(b);
    let mid = m.with_peer(url, None, None);
    lemma_with_peer_nonempty(m, url, None, None);
    match mid.peer_index(url) {
        Some(i) => {
            assert(0 <= i < mid.peers.len() && base_urls_of(mid.peers)[i] == url);
            lemma_peer_update_urls(mid, i, mid.peers[i].after_success(now));
            lemma_peer_update_urls(mid, i, mid.peers[i].after_failure(error));
        },
        None => {},
    }
}

/// Registering the peers of advertisements never keys one by an empty URL.
proof fn lemma_merge_ads_nonempty(m: RegistryView, ads: Seq<PeerAdvertisementView>, origin: Seq<char>)
    requires
        peer_urls_nonempty(m),
    ensures
        peer_urls_nonempty(m.merge_peer_ads(ads, origin)),
    decreases ads.len(),
{
    if ads.len() > 0 {
        lemma_merge_ads_nonempty(m, ads.drop_last(), origin);
        let prev = m.merge_peer_ads(ads.drop_last(), origin);
        let ad = ads.last();
        if ad.base_url.len() > 0 {
            lemma_with_peer_nonempty(prev, ad.base_url, ad.instance_id, Some(origin));
        }
    }
}

/// Merging a snapshot never keys a peer by an empty URL.
proof fn lemma_merge_nonempty(m: RegistryView, snap: SnapshotView, now: i128)
    requires
        peer_urls_nonempty(m),
    ensures
        peer_urls_nonempty(m.after_merge(snap, now)),
{
    if snap.instance_id != m.instance_id {
        let ads = first_n(snap.peers, MAX_GOSSIP_PEERS as int);
        let gs = first_n(snap.providers, MAX_GOSSIP_PROVIDERS as int);
        let m1 = match snap.base_url {
            Some(b) => m.with_peer(b, Some(snap.instance_id), Some("gossip-response"@)),
            None => m,
        };
        if let Some(b) = snap.base_url {
            lemma_with_peer_nonempty(m, b, Some(snap.instance_id), Some("gossip-response"@));
        }
        let m2 = m1.merge_peer_ads(ads, snap.instance_id);
        lemma_merge_ads_nonempty(m1, ads, snap.instance_id);
        let key = match snap.base_url {
            Some(b) => b,
            None => snap.instance_id,
        };
        lemma_merge_providers_urls(m2, gs, key, now);
    }
}

/// One change that the registry's operations make to what it knows: a peer
/// registered, an exchange with a peer that succeeded or failed, a snapshot
/// merged, a gossip exchange recorded, a request that succeeded or failed, a
/// probe, or circuit breakers that cooled down.
pub enum RegistryStep {
    RegisterPeer(Seq<char>, Option<Seq<char>>, Option<Seq<char>>),
    PeerSuccess(Seq<char>, i128),
    PeerFailure(Seq<char>, Seq<char>),
    Merge(SnapshotView, i128),
    Gossip(Seq<char>, GossipOutcome, i128),
    RequestSuccess(Seq<char>, i128),
    RequestFailure(Seq<char>, Moment),
    Probe(Seq<char>, Option<u64>, Moment),
    TripExpiry(u128),
}

/// What the registry knows after the step `step`.
pub open spec fn after_step(m: RegistryView, step: RegistryStep) -> RegistryView {
    match step {
        RegistryStep::RegisterPeer(b, id, src) => m.with_peer(b, id, src),
        RegistryStep::PeerSuccess(b, now) => m.after_peer_success(b, now),
        RegistryStep::PeerFailure(b, error) => m.after_peer_failure(b, error),
        RegistryStep::Merge(snap, now) => m.after_merge(snap, now),
        RegistryStep::Gossip(b, outcome, now) => m.after_gossip(b, outcome, now),
        RegistryStep::RequestSuccess(url, now) => m.after_request_success(url, now),
        RegistryStep::RequestFailure(url, at) => m.after_request_failure(url, at),
        RegistryStep::Probe(url, ledger, at) => m.after_probe(url, ledger, at),
        RegistryStep::TripExpiry(mono) => m.after_trip_expiry(mono),
    }
}

/// What the registry knows after the steps `steps`, in order.
pub open spec fn after_steps(m: RegistryView, steps: Seq<RegistryStep>) -> RegistryView
    decreases steps.len(),
{
    if steps.len() == 0 {
        m
    } else {
        after_step(after_steps(m, steps.drop_last()), steps.last())
    }
}

/// One step keeps every known peer, keeps this node out of its peers, and
/// keys no peer by an empty URL.
proof fn lemma_step_keeps(m: RegistryView, step: RegistryStep)
    requires
        m.excludes_self(),
        peer_urls_nonempty(m),
    ensures
        keeps_peers(m, after_step(m, step)),
        after_step(m, step).excludes_self(),
        peer_urls_nonempty(after_step(m, step)),
{
    match step {
        RegistryStep::RegisterPeer(b, id, src) => {
            lemma_with_peer_keeps(m, b, id, src);
            lemma_with_peer_nonempty(m, b, id, src);
        },
        RegistryStep::PeerSuccess(b, now) => {
            lemma_peer_outcome_keeps(m, b, now, Seq::empty());
            lemma_peer_outcome_nonempty(m, b, now, Seq::empty());
        },
        RegistryStep::PeerFailure(b, error) => {
            lemma_peer_outcome_keeps(m, b, 0, error);
            lemma_peer_outcome_nonempty(m, b, 0, error);
        },
        RegistryStep::Merge(snap, now) => {
            law_peers_exclude_self(m, Seq::empty(), None, None, now, Seq::empty(), snap,
                GossipOutcome::HttpStatus(0), Seq::empty(), None, Moment { wall_nanos: 0, monotonic_nanos: 0 });
            lemma_merge_nonempty(m, snap, now);
        },
        RegistryStep::Gossip(b, outcome, now) => {
            law_peers_exclude_self(m, b, None, None, now, Seq::empty(), SnapshotView {
                instance_id: Seq::empty(), base_url: None, generated_at: 0, peers: Seq::empty(),
                providers: Seq::empty() }, outcome, Seq::empty(), None,
                Moment { wall_nanos: 0, monotonic_nanos: 0 });
            match outcome {
                GossipOutcome::Answered(s) => {
                    lemma_merge_nonempty(m, s@, now);
                    lemma_peer_outcome_nonempty(m.after_merge(s@, now), b, now, Seq::empty());
                },
                _ => {
                    lemma_peer_outcome_nonempty(m, b, now, crate::registry::gossip_error(outcome));
                },
            }
        },
        _ => {
            assert(after_step(m, step).peers == m.peers);
            assert(after_step(m, step).public_base_url == m.public_base_url);
        },
    }
}

/// Whatever steps the registry goes through, no peer is ever forgotten,
/// this node never becomes its own peer, and no peer is keyed by an empty
/// URL, provided none of this held at the start.
pub proof fn law_steps_keep_peers(m: RegistryView, steps: Seq<RegistryStep>)
    requires
        m.excludes_self(),
        peer_urls_nonempty(m),
    ensures
        keeps_peers(m, after_steps(m, steps)),
        after_steps(m, steps).excludes_self(),
        peer_urls_nonempty(after_steps(m, steps)),
    decreases steps.len(),
{
    if steps.len() > 0 {
        law_steps_keep_peers(m, steps.drop_last());
        let prev = after_steps(m, steps.drop_last());
        lemma_step_keeps(prev, steps.last());
    }
}

/// Seeding peers never keys one by an empty URL.
proof fn lemma_seeded_peers_nonempty(seeds: Seq<Seq<char>>, own: Option<Seq<char>>)
    ensures
        forall|u: Seq<char>| #[trigger] base_urls_of(seeded_peers(seeds, own)).contains(u) ==> u.len() > 0,
    decreases seeds.len(),
{
    if seeds.len() > 0 {
        let prev = seeded_peers(seeds.drop_last(), own);
        lemma_seeded_peers_nonempty(seeds.drop_last(), own);
        let url = normalized_base_url(seeds.last());
        let after = with_seed_peer(prev, seeds.last(), own);
        if !(url.len() == 0 || own == Some(url)) {
            let fresh = PeerStateView::fresh(url, None);
            match index_of(base_urls_of(prev), url) {
                Some(i) => {
                    assert(0 <= i < base_urls_of(prev).len());
                    assert(base_urls_of(prev.update(i, fresh)) =~= base_urls_of(prev).update(i, url));
                    assert forall|u: Seq<char>| #[trigger] base_urls_of(after).contains(u) implies u.len() > 0 by {
                        let k = choose|k: int| 0 <= k < base_urls_of(after).len() && base_urls_of(after)[k] == u;
                        if k != i {
                            assert(base_urls_of(prev)[k] == u);
                            assert(base_urls_of(prev).contains(u));
                        } else {
                            assert(u == url);
                        }
                    }
                },
                None => {
                    assert(base_urls_of(prev.push(fresh)) =~= base_urls_of(prev).push(url));
                    assert forall|u: Seq<char>| #[trigger] base_urls_of(after).contains(u) implies u.len() > 0 by {
                        lemma_push_contains(base_urls_of(prev), url, u);
                    }
                },
            }
        }
    }
}

/// The node never lists itself as a peer: in a registry made with its
/// public URL configured normalized, or with none, after any steps, no peer
/// is keyed by an empty URL or by this node's own, and every peer it ever
/// knew is still known.
pub proof fn law_never_own_peer(
    providers: Seq<ProviderView>,
    instance_id: Seq<char>,
    public_base_url: Option<Seq<char>>,
    seed_peers: Seq<Seq<char>>,
    steps: Seq<RegistryStep>,
    before: Seq<RegistryStep>,
)
    requires
        public_base_url matches Some(u) ==> normalized_base_url(u) == u,
        before.len() <= steps.len(),
        before == steps.take(before.len() as int),
    ensures
        ({
            let start = RegistryView::initial(providers, instance_id, public_base_url, seed_peers);
            let end = after_steps(start, steps);
            &&& end.excludes_self()
            &&& peer_urls_nonempty(end)
            &&& keeps_peers(after_steps(start, before), end)
        }),
{
    let start = RegistryView::initial(providers, instance_id, public_base_url, seed_peers);
    law_new_registry_excludes_self(providers, instance_id, public_base_url, seed_peers);
    lemma_seeded_peers_nonempty(seed_peers, public_base_url);
    law_steps_keep_peers(start, before);
    let mid = after_steps(start, before);
    let rest = steps.skip(before.len() as int);
    law_steps_keep_peers(mid, rest);
    lemma_steps_concat(start, before, rest);
    assert(before + rest =~= steps);
}

/// Taking steps one after another is taking them all.
proof fn lemma_steps_concat(m: RegistryView, a: Seq<RegistryStep>, b: Seq<RegistryStep>)
    ensures
        after_steps(m, a + b) == after_steps(after_steps(m, a), b),
    decreases b.len(),
{
    if b.len() > 0 {
        lemma_steps_concat(m, a, b.drop_last());
        assert((a + b).drop_last() =~= a + b.drop_last());
        assert((a + b).last() == b.last());
    } else {
        assert(a + b =~= a);
    }
}

/// Every score that a report shows lies between the lowest and the highest
/// score.
pub proof fn law_report_scores_in_range(m: RegistryView, at: Moment)
    requires
        m.wf(),
    ensures
        forall|i: int| 0 <= i < m.providers.len() ==> {
            let r = (#[trigger] m.reports(at)[i]);
            &&& score_in_range(r.effective_score as int)
            &&& score_in_range(r.local_score as int)
            &&& score_in_range(r.peer_score as int)
        },
{
    assert forall|i: int| 0 <= i < m.providers.len() implies {
        let r = (#[trigger] m.reports(at)[i]);
        &&& score_in_range(r.effective_score as int)
        &&& score_in_range(r.local_score as int)
        &&& score_in_range(r.peer_score as int)
    } by {
        let s = m.providers[i];
        assert(s.wf());
        lemma_fresh_in_range(s.observations, at.wall_nanos);
        lemma_mean_score_in_range(fresh_observations(s.observations, at.wall_nanos));
    }
}

} // verus!
