//! The provider registry: which providers and peers this node knows, how
//! requests, probes and gossip change what it knows, and what it reports.
use vstd::prelude::*;
use crate::clock::{monotonic_nanos_since, monotonic_now, wall_clock_nanos, Moment};
use crate::health::{clamp_score, clamped, is_observation_stale, observation_stale, trip_active,
    RemoteProviderObservation, DISCOVERED_PROVIDER_STARTING_SCORE, LOCAL_FAILURE_PENALTY,
    LOCAL_PROVIDER_STARTING_SCORE, MAX_GOSSIP_PEERS, MAX_GOSSIP_PROVIDERS, PEER_STARTING_SCORE,
    PROBE_FAILURE_PENALTY, score_in_range};
use crate::provider::{copy_opt_string, GossipProviderSnapshot, GossipProviderView,
    PeerAdvertisement, PeerAdvertisementView, PeerHealthReport, ProviderHealthReport, ProviderView,
    RegistryConfig, RegistrySnapshot, RpcProvider, SnapshotView};
use crate::ranking::{list_by_rank, rank_sorted, Rank, RankView};
use crate::state::{distinct, index_of, peer_healthy_floor, PeerReportView, PeerState,
    PeerStateView, ProviderReportView, ProviderSource, ProviderState, ProviderStateView};
use crate::text::{chars_of, decimal, normalize_base_url, normalized_base_url, push_decimal};

verus! {

/// The registry of providers and peer nodes.
pub struct ProviderRegistry {
    core: RegistryCore,
    /// The start of the registry's monotonic clock.
    clock_origin: std::time::Instant,
}

/// What the registry knows of providers and peers.
struct RegistryCore {
    states: Vec<ProviderState>,
    peers: Vec<PeerState>,
    instance_id: String,
    public_base_url: Option<String>,
}

/// What the logic sees of a [`ProviderRegistry`].
#[verifier::ext_equal]
pub struct RegistryView {
    pub providers: Seq<ProviderStateView>,
    pub peers: Seq<PeerStateView>,
    pub instance_id: Seq<char>,
    pub public_base_url: Option<Seq<char>>,
}

impl View for ProviderRegistry {
    type V = RegistryView;

    closed spec fn view(&self) -> RegistryView {
        self.core@
    }
}

impl View for RegistryCore {
    type V = RegistryView;

    closed spec fn view(&self) -> RegistryView {
        RegistryView {
            providers: self.states@.map_values(|s: ProviderState| s@),
            peers: self.peers@.map_values(|p: PeerState| p@),
            instance_id: self.instance_id@,
            public_base_url: self.public_base_url.deep_view(),
        }
    }
}

/// The URLs of `providers`, in order.
pub open spec fn urls_of(providers: Seq<ProviderStateView>) -> Seq<Seq<char>> {
    providers.map_values(|p: ProviderStateView| p.provider.url)
}

/// The base URLs of `peers`, in order.
pub open spec fn base_urls_of(peers: Seq<PeerStateView>) -> Seq<Seq<char>> {
    peers.map_values(|p: PeerStateView| p.base_url)
}

/// `providers` with `p` registered as a seed: a provider already known by
/// its URL starts over.
pub open spec fn with_seed_provider(providers: Seq<ProviderStateView>, p: ProviderView) -> Seq<
    ProviderStateView,
> {
    let fresh = ProviderStateView::fresh(p, ProviderSource::Seed, LOCAL_PROVIDER_STARTING_SCORE);
    match index_of(urls_of(providers), p.url) {
        Some(i) => providers.update(i, fresh),
        None => providers.push(fresh),
    }
}

/// The providers of a registry seeded with `seeds`.
pub open spec fn seeded_providers(seeds: Seq<ProviderView>) -> Seq<ProviderStateView>
    decreases seeds.len(),
{
    if seeds.len() == 0 {
        Seq::empty()
    } else {
        with_seed_provider(seeded_providers(seeds.drop_last()), seeds.last())
    }
}

/// `peers` with the seed peer `raw` registered, unless its normalized URL is
/// empty or is `own_url` as configured.
pub open spec fn with_seed_peer(
    peers: Seq<PeerStateView>,
    raw: Seq<char>,
    own_url: Option<Seq<char>>,
) -> Seq<PeerStateView> {
    let url = normalized_base_url(raw);
    if url.len() == 0 || own_url == Some(url) {
        peers
    } else {
        let fresh = PeerStateView::fresh(url, None);
        match index_of(base_urls_of(peers), url) {
            Some(i) => peers.update(i, fresh),
            None => peers.push(fresh),
        }
    }
}

/// The peers of a registry seeded with `seeds`.
pub open spec fn seeded_peers(seeds: Seq<Seq<char>>, own_url: Option<Seq<char>>) -> Seq<
    PeerStateView,
>
    decreases seeds.len(),
{
    if seeds.len() == 0 {
        Seq::empty()
    } else {
        with_seed_peer(seeded_peers(seeds.drop_last(), own_url), seeds.last(), own_url)
    }
}

/// The ledger that a probe found, or nothing when the probe failed.
pub open spec fn probe_ledger(result: Result<u64, String>) -> Option<u64> {
    match result {
        Ok(ledger) => Some(ledger),
        Err(_) => None,
    }
}

/// Where a provider's report is listed: best effective score first, then best
/// score from peers, then by URL.
pub open spec fn report_rank(r: ProviderReportView) -> RankView {
    RankView {
        major: r.effective_score as int,
        minor: r.peer_score as int,
        first: r.url,
        second: Seq::empty(),
    }
}

/// Where a healthy provider is listed: best effective score first, then best
/// score from peers, then by name, then by URL.
pub open spec fn healthy_rank(e: (ProviderView, ProviderReportView)) -> RankView {
    RankView {
        major: e.1.effective_score as int,
        minor: e.1.peer_score as int,
        first: e.0.name,
        second: e.1.url,
    }
}

/// The first `n` elements of `s`, or all of them when there are fewer.
pub open spec fn first_n<A>(s: Seq<A>, n: int) -> Seq<A> {
    if s.len() <= n {
        s
    } else {
        s.take(n)
    }
}

/// The observation that a snapshot entry contributes: its score clamped,
/// an absent ledger read as 0.
pub open spec fn observation_of(g: GossipProviderView) -> RemoteProviderObservation {
    RemoteProviderObservation {
        score: clamped(g.score as int) as i64,
        latest_ledger: match g.latest_ledger {
            Some(l) => l,
            None => 0,
        },
        consecutive_failures: g.consecutive_failures,
        healthy: g.healthy,
        observed_at: g.observed_at,
    }
}

/// The provider that a snapshot entry tells of: no credentials, and free to
/// be advertised further.
pub open spec fn discovered_provider(g: GossipProviderView) -> ProviderView {
    ProviderView {
        name: g.name,
        url: g.url,
        auth_header: None,
        auth_value: None,
        advertise: Some(true),
    }
}

/// How a snapshot describes a provider and its report at `now`.
pub open spec fn gossip_entry(e: (ProviderView, ProviderReportView), now: i128) -> GossipProviderView {
    GossipProviderView {
        name: e.0.name,
        url: e.0.url,
        score: e.1.effective_score,
        latest_ledger: if e.1.latest_ledger > 0 {
            Some(e.1.latest_ledger)
        } else {
            None
        },
        consecutive_failures: e.1.consecutive_failures,
        healthy: e.1.healthy,
        observed_at: now,
    }
}

/// Where a snapshot lists a provider: best score first, then by URL.
pub open spec fn gossip_rank(g: GossipProviderView) -> RankView {
    RankView { major: g.score as int, minor: 0, first: g.url, second: Seq::empty() }
}

/// Whether a provider may go into a snapshot.
pub open spec fn entry_advertised(e: (ProviderView, ProviderReportView)) -> bool {
    e.0.advertised()
}

/// Whether a peer may go into a snapshot: healthy, or scored at least the
/// healthy floor.
pub open spec fn peer_advertisable(r: PeerReportView) -> bool {
    r.healthy || r.score >= peer_healthy_floor()
}

/// How a snapshot describes a peer.
pub open spec fn advertisement_of(r: PeerReportView) -> PeerAdvertisementView {
    PeerAdvertisementView { instance_id: r.instance_id, base_url: r.base_url }
}

/// Appending to a sequence appends to its first `n` elements while there
/// are fewer than `n`.
proof fn lemma_first_n_push<A>(s: Seq<A>, x: A, n: int)
    requires
        n >= 0,
    ensures
        first_n(s.push(x), n) == if s.len() < n {
            first_n(s, n).push(x)
        } else {
            first_n(s, n)
        },
{
    if s.len() >= n {
        assert(first_n(s.push(x), n) =~= first_n(s, n));
    }
}

/// How one gossip exchange with a peer ended.
#[derive(Debug)]
pub enum GossipOutcome {
    /// The peer answered with its snapshot.
    Answered(RegistrySnapshot),
    /// The peer answered with a body that is no snapshot; the text says why.
    InvalidPayload(String),
    /// The peer answered with this unsuccessful HTTP status.
    HttpStatus(u16),
    /// The request did not get an answer; the text says why.
    RequestFailed(String),
}

/// The error recorded against a peer for an exchange that failed.
pub open spec fn gossip_error(outcome: GossipOutcome) -> Seq<char> {
    match outcome {
        GossipOutcome::Answered(_) => Seq::empty(),
        GossipOutcome::InvalidPayload(e) => "invalid gossip payload: "@ + e@,
        GossipOutcome::HttpStatus(code) => "HTTP "@ + decimal(code as nat),
        GossipOutcome::RequestFailed(e) => e@,
    }
}

/// Where a peer's report is listed: best score first, then by URL.
pub open spec fn peer_rank(r: PeerReportView) -> RankView {
    RankView { major: r.score as int, minor: 0, first: r.base_url, second: Seq::empty() }
}

/// Whether a report calls its provider healthy.
pub open spec fn entry_healthy(e: (ProviderView, ProviderReportView)) -> bool {
    e.1.healthy
}

/// A rank from two scores and two texts.
fn make_rank(major: i64, minor: i64, first: &str, second: &str) -> (r: Rank)
    ensures
        r@ == (RankView { major: major as int, minor: minor as int, first: first@, second: second@ }),
{
    Rank { major, minor, first: chars_of(first), second: chars_of(second) }
}

impl RegistryView {
    /// Each provider with its report at `at`, in registry order.
    pub open spec fn entries(self, at: Moment) -> Seq<(ProviderView, ProviderReportView)> {
        Seq::new(
            self.providers.len(),
            |i: int|
                (
                    self.providers[i].provider,
                    self.providers[i].report(
                        at.wall_nanos,
                        trip_active(self.providers[i].tripped_at, at.monotonic_nanos),
                    ),
                ),
        )
    }

    /// The report of each provider at `at`, in registry order.
    pub open spec fn reports(self, at: Moment) -> Seq<ProviderReportView> {
        self.entries(at).map_values(|e: (ProviderView, ProviderReportView)| e.1)
    }

    /// With every circuit breaker that has cooled down by `mono` closed.
    pub open spec fn after_trip_expiry(self, mono: u128) -> Self {
        RegistryView {
            providers: self.providers.map_values(|p: ProviderStateView| p.after_expiry(mono)),
            ..self
        }
    }

    /// The reports at `at`, listed by rank.
    pub open spec fn listed_reports(self, at: Moment) -> Seq<ProviderReportView> {
        rank_sorted(self.reports(at), |r: ProviderReportView| report_rank(r))
    }

    /// The providers that are healthy at `at`, listed by rank.
    pub open spec fn listed_healthy(self, at: Moment) -> Seq<ProviderView> {
        rank_sorted(
            self.entries(at).filter(|e: (ProviderView, ProviderReportView)| entry_healthy(e)),
            |e: (ProviderView, ProviderReportView)| healthy_rank(e),
        ).map_values(|e: (ProviderView, ProviderReportView)| e.0)
    }

    /// With the peer at `base_url` registered (under its normalized URL) or
    /// updated: its instance id replaced where one is given, and `source`
    /// added to those that told of it. An empty URL, or this node's own,
    /// changes nothing.
    pub open spec fn with_peer(
        self,
        base_url: Seq<char>,
        instance_id: Option<Seq<char>>,
        source: Option<Seq<char>>,
    ) -> Self {
        let url = normalized_base_url(base_url);
        if url.len() == 0 || self.public_base_url == Some(url) {
            self
        } else {
            match self.peer_index(url) {
                Some(i) => self.with_peer_at(
                    i,
                    self.peers[i].with_instance_id(instance_id).with_source(source),
                ),
                None => RegistryView {
                    peers: self.peers.push(
                        PeerStateView::fresh(url, instance_id).with_instance_id(
                            instance_id,
                        ).with_source(source),
                    ),
                    ..self
                },
            }
        }
    }

    /// After a gossip exchange with the peer at `base_url` succeeded at `now`.
    /// An unknown URL is registered first (unless empty or this node's own);
    /// a peer already known under the URL is updated, even one under this
    /// node's own URL.
    pub open spec fn after_peer_success(self, base_url: Seq<char>, now: i128) -> Self {
        let url = normalized_base_url(base_url);
        let m = self.with_peer(url, None, None);
        match m.peer_index(url) {
            Some(i) => m.with_peer_at(i, m.peers[i].after_success(now)),
            None => m,
        }
    }

    /// After a gossip exchange with the peer at `base_url` failed with
    /// `error`; registered and updated as in `after_peer_success`.
    pub open spec fn after_peer_failure(self, base_url: Seq<char>, error: Seq<char>) -> Self {
        let url = normalized_base_url(base_url);
        let m = self.with_peer(url, None, None);
        match m.peer_index(url) {
            Some(i) => m.with_peer_at(i, m.peers[i].after_failure(error)),
            None => m,
        }
    }

    /// The report of each peer at `now`, in registry order.
    pub open spec fn peer_reports(self, now: i128) -> Seq<PeerReportView> {
        self.peers.map_values(|p: PeerStateView| p.report(now))
    }

    /// The peer reports at `now`, listed by rank.
    pub open spec fn listed_peers(self, now: i128) -> Seq<PeerReportView> {
        rank_sorted(self.peer_reports(now), |r: PeerReportView| peer_rank(r))
    }

    /// With the peers that `ads` vouch for registered, each with `origin` as
    /// a source; advertisements without a URL are skipped.
    pub open spec fn merge_peer_ads(self, ads: Seq<PeerAdvertisementView>, origin: Seq<char>) -> Self
        decreases ads.len(),
    {
        if ads.len() == 0 {
            self
        } else {
            let m = self.merge_peer_ads(ads.drop_last(), origin);
            let ad = ads.last();
            if ad.base_url.len() == 0 {
                m
            } else {
                m.with_peer(ad.base_url, ad.instance_id, Some(origin))
            }
        }
    }

    /// With `p` registered, as learnt from `source` with `starting_score`,
    /// unless a provider is known under its URL already; the known one then
    /// stays as it is.
    pub open spec fn with_registered_provider(
        self,
        p: ProviderView,
        source: ProviderSource,
        starting_score: i64,
    ) -> Self {
        match self.provider_index(p.url) {
            Some(_) => self,
            None => RegistryView {
                providers: self.providers.push(ProviderStateView::fresh(p, source, starting_score)),
                ..self
            },
        }
    }

    /// The provider that a snapshot entry `g` makes known: registered from
    /// gossip with the starting score of a discovered provider.
    pub open spec fn with_gossip_provider(self, g: GossipProviderView) -> Self {
        self.with_registered_provider(
            discovered_provider(g),
            ProviderSource::Gossip,
            DISCOVERED_PROVIDER_STARTING_SCORE,
        )
    }

    /// With the snapshot entry `g` that `key` sent recorded at `now`: entries
    /// without a URL, or stale at `now`, are skipped; an unknown provider is
    /// registered; the entry's observation replaces what `key` said before,
    /// and a provider still named `discovered` takes the entry's name.
    pub open spec fn merge_gossip_provider(self, g: GossipProviderView, key: Seq<char>, now: i128) -> Self {
        if g.url.len() == 0 || observation_stale(g.observed_at, now) {
            self
        } else {
            let m = self.with_gossip_provider(g);
            match m.provider_index(g.url) {
                Some(i) => m.with_provider_at(
                    i,
                    m.providers[i].with_observation(key, observation_of(g)).with_learnt_name(
                        g.name,
                    ),
                ),
                None => m,
            }
        }
    }

    /// With every entry of `gs` recorded in order.
    pub open spec fn merge_gossip_providers(
        self,
        gs: Seq<GossipProviderView>,
        key: Seq<char>,
        now: i128,
    ) -> Self
        decreases gs.len(),
    {
        if gs.len() == 0 {
            self
        } else {
            self.merge_gossip_providers(gs.drop_last(), key, now).merge_gossip_provider(
                gs.last(),
                key,
                now,
            )
        }
    }

    /// After merging the snapshot `snap` received at `now`. A snapshot of
    /// this node itself changes nothing. Otherwise its sender is registered
    /// as a peer (when it gives its URL), then the peers it vouches for, then
    /// what it says of providers, at most the first
    /// `MAX_GOSSIP_PEERS` and `MAX_GOSSIP_PROVIDERS` of each. Observations
    /// are filed under the sender's URL, or its instance id when it gives none.
    pub open spec fn after_merge(self, snap: SnapshotView, now: i128) -> Self {
        if snap.instance_id == self.instance_id {
            self
        } else {
            let m1 = match snap.base_url {
                Some(b) => self.with_peer(b, Some(snap.instance_id), Some("gossip-response"@)),
                None => self,
            };
            let m2 = m1.merge_peer_ads(first_n(snap.peers, MAX_GOSSIP_PEERS as int), snap.instance_id);
            let key = match snap.base_url {
                Some(b) => b,
                None => snap.instance_id,
            };
            m2.merge_gossip_providers(first_n(snap.providers, MAX_GOSSIP_PROVIDERS as int), key, now)
        }
    }

    /// The providers that a snapshot made at `at` describes: those that may
    /// be advertised, at most `MAX_GOSSIP_PROVIDERS` of them in registry
    /// order, listed best first.
    pub open spec fn advertised_providers(self, at: Moment) -> Seq<GossipProviderView> {
        rank_sorted(
            first_n(
                self.entries(at).filter(|e: (ProviderView, ProviderReportView)| entry_advertised(e)),
                MAX_GOSSIP_PROVIDERS as int,
            ).map_values(|e: (ProviderView, ProviderReportView)| gossip_entry(e, at.wall_nanos)),
            |g: GossipProviderView| gossip_rank(g),
        )
    }

    /// The peers that a snapshot made at `now` vouches for: the first
    /// `MAX_GOSSIP_PEERS` advertisable ones in listing order.
    pub open spec fn advertised_peers(self, now: i128) -> Seq<PeerAdvertisementView> {
        first_n(
            self.listed_peers(now).filter(|r: PeerReportView| peer_advertisable(r)),
            MAX_GOSSIP_PEERS as int,
        ).map_values(|r: PeerReportView| advertisement_of(r))
    }

    /// The snapshot that this node sends at `at`.
    pub open spec fn snapshot(self, at: Moment) -> SnapshotView {
        SnapshotView {
            instance_id: self.instance_id,
            base_url: self.public_base_url,
            generated_at: at.wall_nanos,
            peers: self.advertised_peers(at.wall_nanos),
            providers: self.advertised_providers(at),
        }
    }

    /// After a gossip exchange with the peer at `base_url` ended with
    /// `outcome` at `now`: an answer is merged and counts as a success, any
    /// other outcome as a failure.
    pub open spec fn after_gossip(self, base_url: Seq<char>, outcome: GossipOutcome, now: i128) -> Self {
        match outcome {
            GossipOutcome::Answered(snapshot) => self.after_merge(snapshot@, now).after_peer_success(
                base_url,
                now,
            ),
            _ => self.after_peer_failure(base_url, gossip_error(outcome)),
        }
    }

    /// Whether this node is not among its own peers.
    pub open spec fn excludes_self(self) -> bool {
        match self.public_base_url {
            Some(u) => !base_urls_of(self.peers).contains(u),
            None => true,
        }
    }

    /// The registry's internal consistency: every state consistent, no URL
    /// registered twice, and no peer keyed by an empty URL.
    pub open spec fn wf(self) -> bool {
        &&& forall|i: int| 0 <= i < self.providers.len() ==> (#[trigger] self.providers[i]).wf()
        &&& distinct(urls_of(self.providers))
        &&& forall|i: int| 0 <= i < self.peers.len() ==> (#[trigger] self.peers[i]).wf()
        &&& distinct(base_urls_of(self.peers))
        &&& forall|i: int| 0 <= i < self.peers.len() ==> (#[trigger] self.peers[i]).base_url.len() > 0
    }

    /// The position of the provider registered under `url`.
    pub open spec fn provider_index(self, url: Seq<char>) -> Option<int> {
        index_of(urls_of(self.providers), url)
    }

    /// The position of the peer registered under `base_url`.
    pub open spec fn peer_index(self, base_url: Seq<char>) -> Option<int> {
        index_of(base_urls_of(self.peers), base_url)
    }

    /// A new registry of `providers`, named `instance_id`, reachable at
    /// `public_base_url` as configured, with the peers `seed_peers`.
    pub open spec fn initial(
        providers: Seq<ProviderView>,
        instance_id: Seq<char>,
        public_base_url: Option<Seq<char>>,
        seed_peers: Seq<Seq<char>>,
    ) -> Self {
        RegistryView {
            providers: seeded_providers(providers),
            peers: seeded_peers(seed_peers, public_base_url),
            instance_id,
            public_base_url: match public_base_url {
                Some(u) => Some(normalized_base_url(u)),
                None => None,
            },
        }
    }

    /// With the provider at `i` replaced by `s`.
    pub open spec fn with_provider_at(self, i: int, s: ProviderStateView) -> Self {
        RegistryView { providers: self.providers.update(i, s), ..self }
    }

    /// With the peer at `i` replaced by `p`.
    pub open spec fn with_peer_at(self, i: int, p: PeerStateView) -> Self {
        RegistryView { peers: self.peers.update(i, p), ..self }
    }

    /// After a request through the provider at `url` succeeded at `now`; an
    /// unknown URL changes nothing.
    pub open spec fn after_request_success(self, url: Seq<char>, now: i128) -> Self {
        match self.provider_index(url) {
            Some(i) => self.with_provider_at(i, self.providers[i].after_request_success(now)),
            None => self,
        }
    }

    /// After a request through the provider at `url` failed at `at`; an
    /// unknown URL changes nothing.
    pub open spec fn after_request_failure(self, url: Seq<char>, at: Moment) -> Self {
        match self.provider_index(url) {
            Some(i) => self.with_provider_at(
                i,
                self.providers[i].after_failure(
                    LOCAL_FAILURE_PENALTY,
                    at.wall_nanos,
                    at.monotonic_nanos,
                ),
            ),
            None => self,
        }
    }

    /// After a health probe of the provider at `url` found it at the ledger
    /// in `outcome`, or failed, at `at`.
    pub open spec fn after_probe(self, url: Seq<char>, outcome: Option<u64>, at: Moment) -> Self {
        match self.provider_index(url) {
            Some(i) => self.with_provider_at(
                i,
                match outcome {
                    Some(ledger) => self.providers[i].after_probe_success(ledger, at.wall_nanos),
                    None => self.providers[i].after_failure(
                        PROBE_FAILURE_PENALTY,
                        at.wall_nanos,
                        at.monotonic_nanos,
                    ),
                },
            ),
            None => self,
        }
    }
}

proof fn lemma_update_map<A, B>(s: Seq<A>, i: int, x: A, f: spec_fn(A) -> B)
    requires
        0 <= i < s.len(),
    ensures
        s.update(i, x).map_values(f) == s.map_values(f).update(i, f(x)),
{
    assert(s.update(i, x).map_values(f) =~= s.map_values(f).update(i, f(x)));
}

proof fn lemma_push_map<A, B>(s: Seq<A>, x: A, f: spec_fn(A) -> B)
    ensures
        s.push(x).map_values(f) == s.map_values(f).push(f(x)),
{
    assert(s.push(x).map_values(f) =~= s.map_values(f).push(f(x)));
}

/// `index_of` finds the one position of an element of a sequence without
/// repetitions.
pub proof fn lemma_index_of_distinct<A>(s: Seq<A>, i: int)
    requires
        distinct(s),
        0 <= i < s.len(),
    ensures
        index_of(s, s[i]) == Some(i),
{
    let k = choose|k: int| 0 <= k < s.len() && s[k] == s[i];
    if k != i {
        if k < i {
            assert(s[k] != s[i]);
        } else {
            assert(s[i] != s[k]);
        }
    }
}

/// An element missing from a sequence without repetitions keeps it so when
/// appended.
pub proof fn lemma_distinct_push<A>(s: Seq<A>, x: A)
    requires
        distinct(s),
        index_of(s, x) is None,
    ensures
        distinct(s.push(x)),
{
    assert forall|i: int, j: int| 0 <= i < j < s.push(x).len() implies s.push(x)[i] != s.push(
        x,
    )[j] by {
        if j == s.len() {
            assert(s[i] == s.push(x)[i]);
        }
    }
}

impl RegistryCore {
    /// The position of the provider registered under `url`.
    fn find_provider(&self, url: &str) -> (r: Option<usize>)
        requires
            self@.wf(),
        ensures
            match r {
                Some(i) => self@.provider_index(url@) == Some(i as int) && i < self.states@.len(),
                None => self@.provider_index(url@) is None,
            },
            self.states@.len() == self@.providers.len(),
    {
        let ghost urls = urls_of(self@.providers);
        let target = String::from_str(url);
        let mut i: usize = 0;
        while i < self.states.len()
            invariant
                self@.wf(),
                urls == urls_of(self@.providers),
                self.states@.len() == self@.providers.len(),
                target@ == url@,
                i <= self.states.len(),
                forall|j: int| 0 <= j < i ==> urls[j] != url@,
            decreases self.states.len() - i,
        {
            assert(urls[i as int] == self.states@[i as int]@.provider.url);
            if *self.states[i].url() == target {
                proof {
                    lemma_index_of_distinct(urls, i as int);
                }
                return Some(i);
            }
            i = i + 1;
        }
        None
    }

    /// The position of the peer registered under `base_url`.
    fn find_peer(&self, base_url: &String) -> (r: Option<usize>)
        requires
            self@.wf(),
        ensures
            match r {
                Some(i) => self@.peer_index(base_url@) == Some(i as int) && i < self.peers@.len(),
                None => self@.peer_index(base_url@) is None,
            },
            self.peers@.len() == self@.peers.len(),
    {
        let ghost urls = base_urls_of(self@.peers);
        let mut i: usize = 0;
        while i < self.peers.len()
            invariant
                self@.wf(),
                urls == base_urls_of(self@.peers),
                self.peers@.len() == self@.peers.len(),
                i <= self.peers.len(),
                forall|j: int| 0 <= j < i ==> urls[j] != base_url@,
            decreases self.peers.len() - i,
        {
            assert(urls[i as int] == self.peers@[i as int]@.base_url);
            if *self.peers[i].base_url() == *base_url {
                proof {
                    lemma_index_of_distinct(urls, i as int);
                }
                return Some(i);
            }
            i = i + 1;
        }
        None
    }

    /// Registers `provider` as a seed.
    fn put_seed(&mut self, provider: RpcProvider)
        requires
            old(self)@.wf(),
        ensures
            final(self)@ == (RegistryView {
                providers: with_seed_provider(old(self)@.providers, provider@),
                ..old(self)@
            }),
            final(self)@.wf(),
    {
        let ghost f = |s: ProviderState| s@;
        let ghost p = provider@;
        let idx = self.find_provider(provider.url.as_str());
        let st = ProviderState::new(provider, ProviderSource::Seed, LOCAL_PROVIDER_STARTING_SCORE);
        match idx {
            Some(i) => {
                let ghost old_states = self.states@;
                self.states.set(i, st);
                proof {
                    lemma_update_map(old_states, i as int, st, f);
                    let ps = old(self)@.providers;
                    assert(urls_of(ps.update(i as int, st@)) =~= urls_of(ps));
                    lemma_index_of_distinct(urls_of(ps), i as int);
                }
            },
            None => {
                let ghost old_states = self.states@;
                self.states.push(st);
                proof {
                    lemma_push_map(old_states, st, f);
                    let ps = old(self)@.providers;
                    assert(urls_of(ps.push(st@)) =~= urls_of(ps).push(p.url));
                    lemma_distinct_push(urls_of(ps), p.url);
                }
            },
        }
        assert(self@ =~= (RegistryView {
            providers: with_seed_provider(old(self)@.providers, p),
            ..old(self)@
        }));
    }

    /// Registers the seed peer `raw`, unless its normalized URL is empty or is
    /// `own_url` as configured.
    fn put_seed_peer(&mut self, raw: &String, own_url: &Option<String>)
        requires
            old(self)@.wf(),
        ensures
            final(self)@ == (RegistryView {
                peers: with_seed_peer(old(self)@.peers, raw@, own_url.deep_view()),
                ..old(self)@
            }),
            final(self)@.wf(),
    {
        let ghost f = |p: PeerState| p@;
        let url = normalize_base_url(raw.as_str());
        let is_own = match own_url {
            Some(o) => *o == url,
            None => false,
        };
        if url.as_str().is_empty() || is_own {
            return;
        }
        let idx = self.find_peer(&url);
        let ghost u = url@;
        let peer = PeerState::new(url, None);
        match idx {
            Some(i) => {
                let ghost old_peers = self.peers@;
                self.peers.set(i, peer);
                proof {
                    lemma_update_map(old_peers, i as int, peer, f);
                    let ps = old(self)@.peers;
                    assert(base_urls_of(ps.update(i as int, peer@)) =~= base_urls_of(ps));
                    lemma_index_of_distinct(base_urls_of(ps), i as int);
                }
            },
            None => {
                let ghost old_peers = self.peers@;
                self.peers.push(peer);
                proof {
                    lemma_push_map(old_peers, peer, f);
                    let ps = old(self)@.peers;
                    assert(base_urls_of(ps.push(peer@)) =~= base_urls_of(ps).push(u));
                    lemma_distinct_push(base_urls_of(ps), u);
                }
            },
        }
        assert(self@ =~= (RegistryView {
            peers: with_seed_peer(old(self)@.peers, raw@, own_url.deep_view()),
            ..old(self)@
        }));
    }

    /// A registry of `providers` configured by `config`. Seed peers are
    /// normalized; those that come out empty, or equal to the configured
    /// public URL as written, are left out.
    fn new_with_config(providers: Vec<RpcProvider>, config: RegistryConfig) -> (r: Self)
        ensures
            r@ == RegistryView::initial(
                providers@.map_values(|p: RpcProvider| p@),
                config.instance_id@,
                config.public_base_url.deep_view(),
                config.seed_peers@.map_values(|s: String| s@),
            ),
            r@.wf(),
    {
        let ghost seeds = providers@.map_values(|p: RpcProvider| p@);
        let ghost seed_urls = config.seed_peers@.map_values(|s: String| s@);
        let ghost own = config.public_base_url.deep_view();
        let mut registry = RegistryCore {
            states: Vec::new(),
            peers: Vec::new(),
            instance_id: config.instance_id,
            public_base_url: None,
        };
        proof {
            assert(registry@.providers =~= Seq::<ProviderStateView>::empty());
            assert(registry@.peers =~= Seq::<PeerStateView>::empty());
        }
        let mut remaining = providers;
        let total = remaining.len();
        let mut done: usize = 0;
        assert(seeds.take(0) =~= Seq::<ProviderView>::empty());
        while remaining.len() > 0
            invariant
                registry@.wf(),
                registry@.peers.len() == 0,
                registry@.instance_id == config.instance_id@,
                registry@.public_base_url is None,
                done <= total,
                remaining@.len() + done == total,
                seeds.len() == total,
                forall|k: int| 0 <= k < remaining@.len() ==> #[trigger] remaining@[k]@ == seeds[done
                    + k],
                registry@.providers == seeded_providers(seeds.take(done as int)),
            decreases remaining.len(),
        {
            let ghost before = remaining@;
            let provider = remaining.remove(0);
            assert(provider@ == seeds[done as int]);
            proof {
                assert(seeds.take(done + 1).drop_last() =~= seeds.take(done as int));
                assert(seeds.take(done + 1).last() == seeds[done as int]);
                assert forall|k: int| 0 <= k < remaining@.len() implies #[trigger] remaining@[k]@
                    == seeds[done + 1 + k] by {
                    assert(remaining@[k] == before[k + 1]);
                }
            }
            registry.put_seed(provider);
            done = done + 1;
        }
        assert(seeds.take(total as int) =~= seeds);
        let mut i: usize = 0;
        let n = config.seed_peers.len();
        assert(seed_urls.take(0) =~= Seq::<Seq<char>>::empty());
        while i < n
            invariant
                registry@.wf(),
                registry@.providers == seeded_providers(seeds),
                registry@.instance_id == config.instance_id@,
                registry@.public_base_url is None,
                n == config.seed_peers@.len(),
                seed_urls == config.seed_peers@.map_values(|s: String| s@),
                own == config.public_base_url.deep_view(),
                i <= n,
                registry@.peers == seeded_peers(seed_urls.take(i as int), own),
            decreases n - i,
        {
            proof {
                assert(seed_urls.take(i + 1).drop_last() =~= seed_urls.take(i as int));
                assert(seed_urls.take(i + 1).last() == config.seed_peers@[i as int]@);
            }
            registry.put_seed_peer(&config.seed_peers[i], &config.public_base_url);
            i = i + 1;
        }
        assert(seed_urls.take(n as int) =~= seed_urls);
        registry.public_base_url = match &config.public_base_url {
            Some(u) => Some(normalize_base_url(u.as_str())),
            None => None,
        };
        assert(registry@ =~= RegistryView::initial(seeds, config.instance_id@, own, seed_urls));
        registry
    }
}

impl RegistryCore {
    /// Records that a request through the provider at `url` succeeded at `now`:
    /// its failures are forgotten, its circuit breaker closes, and its score
    /// recovers to at least the starting score of a discovered provider plus
    /// the success bonus.
    fn report_success_at(&mut self, url: &str, now: i128)
        requires
            old(self)@.wf(),
        ensures
            final(self)@ == old(self)@.after_request_success(url@, now),
            final(self)@.wf(),
    {
        if let Some(i) = self.find_provider(url) {
            let ghost old_states = self.states@;
            self.states[i].record_request_success(now);
            proof {
                self.lemma_provider_changed(old_states, i as int);
            }
        }
    }

    /// Records that a request through the provider at `url` failed at `at`:
    /// one more failure, a lower score, and the circuit breaker trips from
    /// the threshold on.
    fn report_failure_at(&mut self, url: &str, at: Moment)
        requires
            old(self)@.wf(),
        ensures
            final(self)@ == old(self)@.after_request_failure(url@, at),
            final(self)@.wf(),
    {
        if let Some(i) = self.find_provider(url) {
            let ghost old_states = self.states@;
            self.states[i].record_failure(LOCAL_FAILURE_PENALTY, at.wall_nanos, at.monotonic_nanos);
            proof {
                self.lemma_provider_changed(old_states, i as int);
            }
        }
    }

    /// Records the outcome of a health probe of the provider at `url` at
    /// `at`: the ledger it reported, or the error that the probe met.
    fn record_probe_result_at(&mut self, url: &str, result: Result<u64, String>, at: Moment)
        requires
            old(self)@.wf(),
        ensures
            final(self)@ == old(self)@.after_probe(
                url@,
                probe_ledger(result),
                at,
            ),
            final(self)@.wf(),
    {
        if let Some(i) = self.find_provider(url) {
            let ghost old_states = self.states@;
            match result {
                Ok(ledger) => self.states[i].record_probe_success(ledger, at.wall_nanos),
                Err(_) => self.states[i].record_failure(
                    PROBE_FAILURE_PENALTY,
                    at.wall_nanos,
                    at.monotonic_nanos,
                ),
            }
            proof {
                self.lemma_provider_changed(old_states, i as int);
            }
        }
    }

    /// The providers to probe in a health-check round, credentials included.
    fn probe_targets(&self) -> (r: Vec<RpcProvider>)
        ensures
            r@.map_values(|p: RpcProvider| p@) == self@.providers.map_values(
                |s: ProviderStateView| s.provider,
            ),
    {
        let mut r: Vec<RpcProvider> = Vec::new();
        let mut i: usize = 0;
        while i < self.states.len()
            invariant
                i <= self.states.len(),
                r@.map_values(|p: RpcProvider| p@) == self.states@.take(i as int).map_values(
                    |s: ProviderState| s@.provider,
                ),
            decreases self.states.len() - i,
        {
            let ghost before = r@;
            let p = self.states[i].provider().duplicate();
            assert(p@ == self.states@[i as int]@.provider);
            r.push(p);
            proof {
                lemma_push_map(before, p, |p: RpcProvider| p@);
                lemma_push_map(
                    self.states@.take(i as int),
                    self.states@[i as int],
                    |s: ProviderState| s@.provider,
                );
                assert(self.states@.take(i + 1) =~= self.states@.take(i as int).push(
                    self.states@[i as int],
                ));
                assert(r@.map_values(|p: RpcProvider| p@) =~= self.states@.take(
                    i + 1,
                ).map_values(|s: ProviderState| s@.provider));
            }
            i = i + 1;
        }
        proof {
            assert(self.states@.take(self.states.len() as int) =~= self.states@);
            assert(self@.providers.map_values(|s: ProviderStateView| s.provider)
                =~= self.states@.map_values(|s: ProviderState| s@.provider));
        }
        r
    }

    /// After the provider at `i` changed in a way that keeps its URL and its
    /// consistency, the registry view changed in exactly that place.
    proof fn lemma_provider_changed(&self, old_states: Seq<ProviderState>, i: int)
        requires
            0 <= i < old_states.len(),
            self.states@ == old_states.update(i, self.states@[i]),
            self.states@[i]@.provider.url == old_states[i]@.provider.url,
            self.states@[i]@.wf(),
            (RegistryView {
                providers: old_states.map_values(|s: ProviderState| s@),
                peers: self@.peers,
                instance_id: self@.instance_id,
                public_base_url: self@.public_base_url,
            }).wf(),
        ensures
            self@ == (RegistryView {
                providers: old_states.map_values(|s: ProviderState| s@),
                ..self@
            }).with_provider_at(i, self.states@[i]@),
            self@.wf(),
    {
        let f = |s: ProviderState| s@;
        lemma_update_map(old_states, i, self.states@[i], f);
        let ps = old_states.map_values(f);
        assert(urls_of(ps.update(i, self.states@[i]@)) =~= urls_of(ps));
        assert(self@.providers =~= ps.update(i, self.states@[i]@));
    }
}

impl RegistryCore {
    /// Each provider with its report at `at`; circuit breakers that have
    /// cooled down are closed on the way.
    fn collect_provider_reports(&mut self, at: Moment) -> (r: Vec<(RpcProvider, ProviderHealthReport)>)
        requires
            old(self)@.wf(),
        ensures
            final(self)@ == old(self)@.after_trip_expiry(at.monotonic_nanos),
            final(self)@.wf(),
            r@.map_values(|e: (RpcProvider, ProviderHealthReport)| (e.0@, e.1@)) == old(
                self,
            )@.entries(at),
    {
        let ghost start = self@;
        let ghost g = |e: (RpcProvider, ProviderHealthReport)| (e.0@, e.1@);
        let mut r: Vec<(RpcProvider, ProviderHealthReport)> = Vec::new();
        let mut i: usize = 0;
        while i < self.states.len()
            invariant
                i <= self.states.len(),
                start.wf(),
                self.states@.len() == start.providers.len(),
                self@.peers == start.peers,
                self@.instance_id == start.instance_id,
                self@.public_base_url == start.public_base_url,
                forall|k: int| 0 <= k < i ==> self@.providers[k] == start.providers[k].after_expiry(at.monotonic_nanos),
                forall|k: int| i <= k < self.states@.len() ==> self@.providers[k] == start.providers[k],
                r@.map_values(g) == start.entries(at).take(i as int),
                g == (|e: (RpcProvider, ProviderHealthReport)| (e.0@, e.1@)),
            decreases self.states.len() - i,
        {
            let ghost states_before = self.states@;
            let ghost r_before = r@;
            assert(self.states@[i as int]@ == self@.providers[i as int]);
            assert(start.providers[i as int].wf());
            let tripped = self.states[i].check_tripped(at.monotonic_nanos);
            let report = self.states[i].report(at.wall_nanos, tripped);
            let provider = self.states[i].provider().duplicate();
            r.push((provider, report));
            proof {
                let f = |s: ProviderState| s@;
                lemma_update_map(states_before, i as int, self.states@[i as int], f);
                assert(self.states@ =~= states_before.update(i as int, self.states@[i as int]));
                lemma_push_map(r_before, (provider, report), g);
                assert(start.entries(at).take(i + 1) =~= start.entries(at).take(i as int).push(
                    start.entries(at)[i as int],
                ));
                assert(r@.map_values(g) =~= start.entries(at).take(i + 1));
            }
            i = i + 1;
        }
        proof {
            assert(start.entries(at).take(i as int) =~= start.entries(at));
            assert(self@.providers =~= start.providers.map_values(
                |p: ProviderStateView| p.after_expiry(at.monotonic_nanos),
            ));
            assert(urls_of(self@.providers) =~= urls_of(start.providers));
            assert(self@ =~= start.after_trip_expiry(at.monotonic_nanos));
        }
        r
    }

    /// The report of every provider at `at`, listed best first. Circuit
    /// breakers that have cooled down are closed on the way.
    fn provider_reports_at(&mut self, at: Moment) -> (r: Vec<ProviderHealthReport>)
        requires
            old(self)@.wf(),
        ensures
            final(self)@ == old(self)@.after_trip_expiry(at.monotonic_nanos),
            final(self)@.wf(),
            r@.map_values(|x: ProviderHealthReport| x@) == old(self)@.listed_reports(at),
    {
        let ghost start = self@;
        let entries = self.collect_provider_reports(at);
        let ghost g = |e: (RpcProvider, ProviderHealthReport)| (e.0@, e.1@);
        let ghost view_of = |x: ProviderHealthReport| x@;
        let ghost key = |x: ProviderReportView| report_rank(x);
        let mut pairs: Vec<(Rank, ProviderHealthReport)> = Vec::new();
        let mut rest = entries;
        let total = rest.len();
        let ghost all = rest@;
        let mut done: usize = 0;
        while rest.len() > 0
            invariant
                done <= total,
                rest@.len() + done == total,
                all.len() == total,
                forall|k: int| 0 <= k < rest@.len() ==> #[trigger] rest@[k] == all[done + k],
                pairs@.len() == done,
                forall|k: int| 0 <= k < done ==> (#[trigger] pairs@[k]).1@ == all[k].1@,
                forall|k: int| 0 <= k < done ==> (#[trigger] pairs@[k]).0@ == key(view_of(pairs@[k].1)),
                key == (|x: ProviderReportView| report_rank(x)),
                view_of == (|x: ProviderHealthReport| x@),
            decreases rest.len(),
        {
            let ghost before = rest@;
            let (_, report) = rest.remove(0);
            let rank = make_rank(report.effective_score, report.peer_score, report.url.as_str(), "");
            proof {
                reveal_strlit("");
            }
            pairs.push((rank, report));
            proof {
                assert forall|k: int| 0 <= k < rest@.len() implies #[trigger] rest@[k] == all[done + 1 + k] by {
                    assert(rest@[k] == before[k + 1]);
                }
            }
            done = done + 1;
        }
        proof {
            assert(pairs@.map_values(|p: (Rank, ProviderHealthReport)| view_of(p.1))
                =~= start.reports(at));
        }
        list_by_rank::<ProviderHealthReport, ProviderReportView>(pairs, Ghost(view_of), Ghost(key))
    }
}

impl RegistryCore {
    /// The providers that are healthy at `at`, listed best first. Circuit
    /// breakers that have cooled down are closed on the way.
    fn healthy_providers_at(&mut self, at: Moment) -> (r: Vec<RpcProvider>)
        requires
            old(self)@.wf(),
        ensures
            final(self)@ == old(self)@.after_trip_expiry(at.monotonic_nanos),
            final(self)@.wf(),
            r@.map_values(|p: RpcProvider| p@) == old(self)@.listed_healthy(at),
    {
        let ghost start = self@;
        let entries = self.collect_provider_reports(at);
        let ghost g = |e: (RpcProvider, ProviderHealthReport)| (e.0@, e.1@);
        let ghost pred = |e: (ProviderView, ProviderReportView)| entry_healthy(e);
        let ghost view_of = |x: (RpcProvider, ProviderHealthReport)| (x.0@, x.1@);
        let ghost key = |e: (ProviderView, ProviderReportView)| healthy_rank(e);
        let ghost all = entries@.map_values(g);
        let mut pairs: Vec<(Rank, (RpcProvider, ProviderHealthReport))> = Vec::new();
        let mut rest = entries;
        let total = rest.len();
        let ghost rest0 = rest@;
        let mut done: usize = 0;
        assert(all.take(0) =~= Seq::<(ProviderView, ProviderReportView)>::empty());
        while rest.len() > 0
            invariant
                done <= total,
                rest@.len() + done == total,
                all.len() == total,
                all == rest0.map_values(g),
                forall|k: int| 0 <= k < rest@.len() ==> #[trigger] rest@[k] == rest0[done + k],
                pairs@.map_values(|p: (Rank, (RpcProvider, ProviderHealthReport))| view_of(p.1))
                    == all.take(done as int).filter(pred),
                forall|k: int| 0 <= k < pairs@.len() ==> (#[trigger] pairs@[k]).0@ == key(view_of(pairs@[k].1)),
                key == (|e: (ProviderView, ProviderReportView)| healthy_rank(e)),
                view_of == (|x: (RpcProvider, ProviderHealthReport)| (x.0@, x.1@)),
                pred == (|e: (ProviderView, ProviderReportView)| entry_healthy(e)),
                g == (|e: (RpcProvider, ProviderHealthReport)| (e.0@, e.1@)),
            decreases rest.len(),
        {
            let ghost before = rest@;
            let ghost pairs_before = pairs@;
            let entry = rest.remove(0);
            assert(entry == rest0[done as int]);
            assert(g(entry) == all[done as int]);
            proof {
                assert(all.take(done + 1) =~= all.take(done as int).push(all[done as int]));
                all.take(done as int).lemma_filter_push(all[done as int], pred);
            }
            if entry.1.healthy {
                let rank = make_rank(
                    entry.1.effective_score,
                    entry.1.peer_score,
                    entry.0.name.as_str(),
                    entry.1.url.as_str(),
                );
                pairs.push((rank, entry));
                proof {
                    lemma_push_map(
                        pairs_before,
                        (rank, entry),
                        |p: (Rank, (RpcProvider, ProviderHealthReport))| view_of(p.1),
                    );
                }
            }
            proof {
                assert forall|k: int| 0 <= k < rest@.len() implies #[trigger] rest@[k] == rest0[done + 1 + k] by {
                    assert(rest@[k] == before[k + 1]);
                }
            }
            done = done + 1;
        }
        proof {
            assert(all.take(total as int) =~= all);
        }
        let listed = list_by_rank::<(RpcProvider, ProviderHealthReport), (ProviderView, ProviderReportView)>(
            pairs,
            Ghost(view_of),
            Ghost(key),
        );
        let ghost listed_views = listed@.map_values(view_of);
        let mut out: Vec<RpcProvider> = Vec::new();
        let mut j: usize = 0;
        while j < listed.len()
            invariant
                j <= listed.len(),
                listed_views == listed@.map_values(view_of),
                view_of == (|x: (RpcProvider, ProviderHealthReport)| (x.0@, x.1@)),
                out@.map_values(|p: RpcProvider| p@) == listed_views.take(j as int).map_values(
                    |e: (ProviderView, ProviderReportView)| e.0,
                ),
            decreases listed.len() - j,
        {
            let ghost out_before = out@;
            let p = listed[j].0.duplicate();
            out.push(p);
            proof {
                lemma_push_map(out_before, p, |p: RpcProvider| p@);
                assert(listed_views.take(j + 1) =~= listed_views.take(j as int).push(listed_views[j as int]));
                lemma_push_map(
                    listed_views.take(j as int),
                    listed_views[j as int],
                    |e: (ProviderView, ProviderReportView)| e.0,
                );
            }
            j = j + 1;
        }
        proof {
            assert(listed_views.take(j as int) =~= listed_views);
            assert(all =~= start.entries(at));
        }
        out
    }

}

/// The optional text of an optional string slice.
pub open spec fn opt_str_view(s: Option<&str>) -> Option<Seq<char>> {
    match s {
        Some(t) => Some(t@),
        None => None,
    }
}

impl RegistryCore {
    /// Registers the peer at `base_url` or updates it; see
    /// [`RegistryView::with_peer`].
    fn register_peer(
        &mut self,
        base_url: &str,
        instance_id: Option<String>,
        discovered_from: Option<&str>,
    )
        requires
            old(self)@.wf(),
        ensures
            final(self)@ == old(self)@.with_peer(
                base_url@,
                instance_id.deep_view(),
                opt_str_view(discovered_from),
            ),
            final(self)@.wf(),
    {
        let ghost f = |p: PeerState| p@;
        let ghost id = instance_id.deep_view();
        let url = normalize_base_url(base_url);
        let own = match &self.public_base_url {
            Some(o) => *o == url,
            None => false,
        };
        if url.as_str().is_empty() || own {
            return;
        }
        let idx = self.find_peer(&url);
        match idx {
            Some(i) => {
                let ghost old_peers = self.peers@;
                assert(self.peers@[i as int]@ == self@.peers[i as int]);
                self.peers[i].set_instance_id(instance_id);
                self.peers[i].add_source(discovered_from);
                proof {
                    lemma_update_map(old_peers, i as int, self.peers@[i as int], f);
                    assert(self.peers@ =~= old_peers.update(i as int, self.peers@[i as int]));
                    let ps = old(self)@.peers;
                    assert(base_urls_of(ps.update(i as int, self.peers@[i as int]@)) =~= base_urls_of(ps));
                }
            },
            None => {
                let ghost u = url@;
                let mut peer = PeerState::new(url, copy_opt_string(&instance_id));
                peer.set_instance_id(instance_id);
                peer.add_source(discovered_from);
                let ghost old_peers = self.peers@;
                self.peers.push(peer);
                proof {
                    lemma_push_map(old_peers, peer, f);
                    let ps = old(self)@.peers;
                    assert(base_urls_of(ps.push(peer@)) =~= base_urls_of(ps).push(u));
                    lemma_distinct_push(base_urls_of(ps), u);
                }
            },
        }
        assert(self@ =~= old(self)@.with_peer(base_url@, id, opt_str_view(discovered_from)));
    }

    /// Records that a gossip exchange with the peer at `base_url` succeeded
    /// at `now`; the peer is registered first if it is new.
    fn report_peer_success_at(&mut self, base_url: &str, now: i128)
        requires
            old(self)@.wf(),
        ensures
            final(self)@ == old(self)@.after_peer_success(base_url@, now),
            final(self)@.wf(),
    {
        let url = normalize_base_url(base_url);
        self.register_peer(url.as_str(), None, None);
        if let Some(i) = self.find_peer(&url) {
            let ghost old_peers = self.peers@;
            let ghost mid = self@;
            self.peers[i].record_success(now);
            proof {
                let f = |p: PeerState| p@;
                lemma_update_map(old_peers, i as int, self.peers@[i as int], f);
                assert(self.peers@ =~= old_peers.update(i as int, self.peers@[i as int]));
                let ps = mid.peers;
                assert(base_urls_of(ps.update(i as int, self.peers@[i as int]@)) =~= base_urls_of(ps));
                assert(self@ =~= mid.with_peer_at(i as int, mid.peers[i as int].after_success(now)));
            }
        }
    }

    /// Records that a gossip exchange with the peer at `base_url` failed
    /// with `error`; the peer is registered first if it is new.
    fn report_peer_failure(&mut self, base_url: &str, error: String)
        requires
            old(self)@.wf(),
        ensures
            final(self)@ == old(self)@.after_peer_failure(base_url@, error@),
            final(self)@.wf(),
    {
        let ghost e = error@;
        let url = normalize_base_url(base_url);
        self.register_peer(url.as_str(), None, None);
        if let Some(i) = self.find_peer(&url) {
            let ghost old_peers = self.peers@;
            let ghost mid = self@;
            self.peers[i].record_failure(error);
            proof {
                let f = |p: PeerState| p@;
                lemma_update_map(old_peers, i as int, self.peers@[i as int], f);
                assert(self.peers@ =~= old_peers.update(i as int, self.peers@[i as int]));
                let ps = mid.peers;
                assert(base_urls_of(ps.update(i as int, self.peers@[i as int]@)) =~= base_urls_of(ps));
                assert(self@ =~= mid.with_peer_at(i as int, mid.peers[i as int].after_failure(e)));
            }
        }
    }

    /// The report of every peer at `now`, listed best first.
    fn peer_reports_at(&self, now: i128) -> (r: Vec<PeerHealthReport>)
        requires
            self@.wf(),
        ensures
            r@.map_values(|x: PeerHealthReport| x@) == self@.listed_peers(now),
    {
        let ghost view_of = |x: PeerHealthReport| x@;
        let ghost key = |x: PeerReportView| peer_rank(x);
        let mut pairs: Vec<(Rank, PeerHealthReport)> = Vec::new();
        let mut i: usize = 0;
        while i < self.peers.len()
            invariant
                i <= self.peers.len(),
                self@.wf(),
                self.peers@.len() == self@.peers.len(),
                pairs@.map_values(|p: (Rank, PeerHealthReport)| view_of(p.1)) == self@.peer_reports(now).take(i as int),
                forall|k: int| 0 <= k < pairs@.len() ==> (#[trigger] pairs@[k]).0@ == key(view_of(pairs@[k].1)),
                key == (|x: PeerReportView| peer_rank(x)),
                view_of == (|x: PeerHealthReport| x@),
            decreases self.peers.len() - i,
        {
            let ghost before = pairs@;
            assert(self.peers@[i as int]@ == self@.peers[i as int]);
            let report = self.peers[i].report(now);
            let rank = make_rank(report.score, 0, report.base_url.as_str(), "");
            proof {
                reveal_strlit("");
            }
            pairs.push((rank, report));
            proof {
                lemma_push_map(before, (rank, report), |p: (Rank, PeerHealthReport)| view_of(p.1));
                assert(self@.peer_reports(now).take(i + 1) =~= self@.peer_reports(now).take(i as int).push(
                    self@.peer_reports(now)[i as int],
                ));
            }
            i = i + 1;
        }
        assert(self@.peer_reports(now).take(i as int) =~= self@.peer_reports(now));
        list_by_rank::<PeerHealthReport, PeerReportView>(pairs, Ghost(view_of), Ghost(key))
    }

    /// The base URLs of the peers to gossip with, in registry order.
    fn gossip_targets(&self) -> (r: Vec<String>)
        ensures
            r@.map_values(|s: String| s@) == base_urls_of(self@.peers),
    {
        let mut r: Vec<String> = Vec::new();
        let mut i: usize = 0;
        while i < self.peers.len()
            invariant
                i <= self.peers.len(),
                r@.map_values(|s: String| s@) == self.peers@.take(i as int).map_values(|p: PeerState| p@.base_url),
            decreases self.peers.len() - i,
        {
            let ghost before = r@;
            let u = self.peers[i].base_url().clone();
            r.push(u);
            proof {
                lemma_push_map(before, u, |s: String| s@);
                assert(self.peers@.take(i + 1) =~= self.peers@.take(i as int).push(self.peers@[i as int]));
                lemma_push_map(self.peers@.take(i as int), self.peers@[i as int], |p: PeerState| p@.base_url);
            }
            i = i + 1;
        }
        proof {
            assert(self.peers@.take(i as int) =~= self.peers@);
            assert(base_urls_of(self@.peers) =~= self.peers@.map_values(|p: PeerState| p@.base_url));
        }
        r
    }
}

impl RegistryCore {
    /// The position of the provider known under the URL of `provider`; an
    /// unknown one is registered first, as learnt from `source` with
    /// `starting_score`. A known provider is left as it is.
    fn get_or_insert_provider(
        &mut self,
        provider: RpcProvider,
        source: ProviderSource,
        starting_score: i64,
    ) -> (r: usize)
        requires
            old(self)@.wf(),
            score_in_range(starting_score as int),
        ensures
            final(self)@ == old(self)@.with_registered_provider(provider@, source, starting_score),
            final(self)@.wf(),
            final(self)@.provider_index(provider@.url) == Some(r as int),
            r < final(self)@.providers.len(),
    {
        let ghost f = |s: ProviderState| s@;
        let ghost start = self@;
        let ghost p = provider@;
        match self.find_provider(provider.url.as_str()) {
            Some(i) => i,
            None => {
                let st = ProviderState::new(provider, source, starting_score);
                let ghost old_states = self.states@;
                self.states.push(st);
                proof {
                    lemma_push_map(old_states, st, f);
                    let ps = start.providers;
                    assert(urls_of(ps.push(st@)) =~= urls_of(ps).push(p.url));
                    lemma_distinct_push(urls_of(ps), p.url);
                    assert(self@ =~= start.with_registered_provider(p, source, starting_score));
                    lemma_index_of_distinct(urls_of(self@.providers), ps.len() as int);
                }
                self.states.len() - 1
            },
        }
    }

    /// Records the snapshot entry `g` that `key` sent; see
    /// [`RegistryView::merge_gossip_provider`].
    fn merge_gossip_provider(&mut self, g: &GossipProviderSnapshot, key: &String, now: i128)
        requires
            old(self)@.wf(),
        ensures
            final(self)@ == old(self)@.merge_gossip_provider(g@, key@, now),
            final(self)@.wf(),
    {
        let ghost f = |s: ProviderState| s@;
        if g.provider.url.as_str().is_empty() || is_observation_stale(g.observed_at, now) {
            return;
        }
        let ghost start = self@;
        let p = RpcProvider {
            name: g.provider.name.clone(),
            url: g.provider.url.clone(),
            auth_header: None,
            auth_value: None,
            advertise: Some(true),
        };
        assert(p@ =~= discovered_provider(g@));
        let idx = self.get_or_insert_provider(p, ProviderSource::Gossip, DISCOVERED_PROVIDER_STARTING_SCORE);
        let ghost mid = self@;
        assert(mid == start.with_gossip_provider(g@));
        let obs = RemoteProviderObservation {
            score: clamp_score(g.score),
            latest_ledger: match g.latest_ledger {
                Some(l) => l,
                None => 0,
            },
            consecutive_failures: g.consecutive_failures,
            healthy: g.healthy,
            observed_at: g.observed_at,
        };
        let ghost old_states = self.states@;
        assert(self.states@[idx as int]@ == mid.providers[idx as int]);
        self.states[idx].record_observation(key, obs);
        self.states[idx].learn_name(&g.provider.name);
        proof {
            lemma_update_map(old_states, idx as int, self.states@[idx as int], f);
            assert(self.states@ =~= old_states.update(idx as int, self.states@[idx as int]));
            let ps = mid.providers;
            assert(urls_of(ps.update(idx as int, self.states@[idx as int]@)) =~= urls_of(ps));
            assert(self@ =~= mid.with_provider_at(
                idx as int,
                mid.providers[idx as int].with_observation(key@, observation_of(g@)).with_learnt_name(g@.name),
            ));
        }
    }

    /// Merges the snapshot `snapshot` that a peer sent, received at `now`; see
    /// [`RegistryView::after_merge`].
    fn merge_snapshot_at(&mut self, snapshot: RegistrySnapshot, now: i128)
        requires
            old(self)@.wf(),
        ensures
            final(self)@ == old(self)@.after_merge(snapshot@, now),
            final(self)@.wf(),
    {
        let ghost snap = snapshot@;
        if snapshot.instance_id == self.instance_id {
            return;
        }
        match &snapshot.base_url {
            Some(b) => {
                proof {
                    reveal_strlit("gossip-response");
                }
                self.register_peer(b.as_str(), Some(snapshot.instance_id.clone()), Some("gossip-response"));
            },
            None => {},
        }
        let ghost m1 = self@;
        let np = if snapshot.peers.len() < MAX_GOSSIP_PEERS {
            snapshot.peers.len()
        } else {
            MAX_GOSSIP_PEERS
        };
        let ghost ads = first_n(snap.peers, MAX_GOSSIP_PEERS as int);
        assert(ads.len() == np);
        assert(ads.take(0) =~= Seq::<PeerAdvertisementView>::empty());
        let mut i: usize = 0;
        while i < np
            invariant
                i <= np,
                np <= snapshot.peers@.len(),
                snap == snapshot@,
                ads == first_n(snap.peers, MAX_GOSSIP_PEERS as int),
                ads.len() == np,
                self@.wf(),
                self@ == m1.merge_peer_ads(ads.take(i as int), snap.instance_id),
            decreases np - i,
        {
            let ad = &snapshot.peers[i];
            proof {
                assert(ads.take(i + 1).drop_last() =~= ads.take(i as int));
                assert(ads.take(i + 1).last() == ad@);
            }
            if !ad.base_url.as_str().is_empty() {
                self.register_peer(
                    ad.base_url.as_str(),
                    copy_opt_string(&ad.instance_id),
                    Some(snapshot.instance_id.as_str()),
                );
            }
            i = i + 1;
        }
        assert(ads.take(np as int) =~= ads);
        let ghost m2 = self@;
        let key = match &snapshot.base_url {
            Some(b) => b.clone(),
            None => snapshot.instance_id.clone(),
        };
        let nv = if snapshot.providers.len() < MAX_GOSSIP_PROVIDERS {
            snapshot.providers.len()
        } else {
            MAX_GOSSIP_PROVIDERS
        };
        let ghost gs = first_n(snap.providers, MAX_GOSSIP_PROVIDERS as int);
        assert(gs.len() == nv);
        assert(gs.take(0) =~= Seq::<GossipProviderView>::empty());
        let mut j: usize = 0;
        while j < nv
            invariant
                j <= nv,
                nv <= snapshot.providers@.len(),
                snap == snapshot@,
                gs == first_n(snap.providers, MAX_GOSSIP_PROVIDERS as int),
                gs.len() == nv,
                self@.wf(),
                self@ == m2.merge_gossip_providers(gs.take(j as int), key@, now),
            decreases nv - j,
        {
            proof {
                assert(gs.take(j + 1).drop_last() =~= gs.take(j as int));
                assert(gs.take(j + 1).last() == snapshot.providers@[j as int]@);
            }
            self.merge_gossip_provider(&snapshot.providers[j], &key, now);
            j = j + 1;
        }
        assert(gs.take(nv as int) =~= gs);
    }

}

impl RegistryCore {
    /// The snapshot that this node sends to its peers at `at`; circuit
    /// breakers that have cooled down are closed on the way.
    fn registry_snapshot_at(&mut self, at: Moment) -> (r: RegistrySnapshot)
        requires
            old(self)@.wf(),
        ensures
            final(self)@ == old(self)@.after_trip_expiry(at.monotonic_nanos),
            final(self)@.wf(),
            r@ == old(self)@.snapshot(at),
    {
        let ghost start = self@;
        let entries = self.collect_provider_reports(at);
        let ghost g = |e: (RpcProvider, ProviderHealthReport)| (e.0@, e.1@);
        let ghost pred = |e: (ProviderView, ProviderReportView)| entry_advertised(e);
        let ghost to_gossip = |e: (ProviderView, ProviderReportView)| gossip_entry(e, at.wall_nanos);
        let ghost view_of = |x: GossipProviderSnapshot| x@;
        let ghost key = |x: GossipProviderView| gossip_rank(x);
        let ghost all = entries@.map_values(g);
        let mut pairs: Vec<(Rank, GossipProviderSnapshot)> = Vec::new();
        let mut rest = entries;
        let total = rest.len();
        let ghost rest0 = rest@;
        let mut done: usize = 0;
        assert(all.take(0) =~= Seq::<(ProviderView, ProviderReportView)>::empty());
        while rest.len() > 0
            invariant
                done <= total,
                rest@.len() + done == total,
                all.len() == total,
                all == rest0.map_values(g),
                forall|k: int| 0 <= k < rest@.len() ==> #[trigger] rest@[k] == rest0[done + k],
                pairs@.map_values(|p: (Rank, GossipProviderSnapshot)| view_of(p.1)) == first_n(
                    all.take(done as int).filter(pred),
                    MAX_GOSSIP_PROVIDERS as int,
                ).map_values(to_gossip),
                pairs@.len() == first_n(all.take(done as int).filter(pred), MAX_GOSSIP_PROVIDERS as int).len(),
                forall|k: int| 0 <= k < pairs@.len() ==> (#[trigger] pairs@[k]).0@ == key(view_of(pairs@[k].1)),
                key == (|x: GossipProviderView| gossip_rank(x)),
                view_of == (|x: GossipProviderSnapshot| x@),
                pred == (|e: (ProviderView, ProviderReportView)| entry_advertised(e)),
                to_gossip == (|e: (ProviderView, ProviderReportView)| gossip_entry(e, at.wall_nanos)),
                g == (|e: (RpcProvider, ProviderHealthReport)| (e.0@, e.1@)),
            decreases rest.len(),
        {
            let ghost before = rest@;
            let ghost pairs_before = pairs@;
            let ghost filtered = all.take(done as int).filter(pred);
            let entry = rest.remove(0);
            assert(entry == rest0[done as int]);
            assert(g(entry) == all[done as int]);
            proof {
                assert(all.take(done + 1) =~= all.take(done as int).push(all[done as int]));
                all.take(done as int).lemma_filter_push(all[done as int], pred);
                lemma_first_n_push(filtered, all[done as int], MAX_GOSSIP_PROVIDERS as int);
                if filtered.len() >= MAX_GOSSIP_PROVIDERS {
                    assert(first_n(filtered, MAX_GOSSIP_PROVIDERS as int).len() == MAX_GOSSIP_PROVIDERS);
                } else {
                    assert(first_n(filtered, MAX_GOSSIP_PROVIDERS as int) == filtered);
                }
            }
            if entry.0.should_advertise() && pairs.len() < MAX_GOSSIP_PROVIDERS {
                let report = &entry.1;
                let snap = GossipProviderSnapshot {
                    provider: entry.0.public_provider(),
                    score: report.effective_score,
                    latest_ledger: if report.latest_ledger > 0 {
                        Some(report.latest_ledger)
                    } else {
                        None
                    },
                    consecutive_failures: report.consecutive_failures,
                    healthy: report.healthy,
                    observed_at: at.wall_nanos,
                };
                assert(snap@ == to_gossip(g(entry)));
                let rank = make_rank(snap.score, 0, snap.provider.url.as_str(), "");
                proof {
                    reveal_strlit("");
                }
                pairs.push((rank, snap));
                proof {
                    lemma_push_map(
                        pairs_before,
                        (rank, snap),
                        |p: (Rank, GossipProviderSnapshot)| view_of(p.1),
                    );
                    lemma_push_map(first_n(filtered, MAX_GOSSIP_PROVIDERS as int), g(entry), to_gossip);
                }
            }
            proof {
                assert forall|k: int| 0 <= k < rest@.len() implies #[trigger] rest@[k] == rest0[done + 1 + k] by {
                    assert(rest@[k] == before[k + 1]);
                }
            }
            done = done + 1;
        }
        proof {
            assert(all.take(total as int) =~= all);
            assert(all =~= start.entries(at));
        }
        let providers = list_by_rank::<GossipProviderSnapshot, GossipProviderView>(
            pairs,
            Ghost(view_of),
            Ghost(key),
        );
        let peers = self.advertised_peers_at(at.wall_nanos);
        proof {
            assert(self@.peers == start.peers);
            assert(self@.listed_peers(at.wall_nanos) == start.listed_peers(at.wall_nanos));
        }
        let r = RegistrySnapshot {
            instance_id: self.instance_id.clone(),
            base_url: copy_opt_string(&self.public_base_url),
            generated_at: at.wall_nanos,
            peers,
            providers,
        };
        assert(r@ =~= start.snapshot(at));
        r
    }

    /// The peers that a snapshot made at `now` vouches for.
    fn advertised_peers_at(&self, now: i128) -> (r: Vec<PeerAdvertisement>)
        requires
            self@.wf(),
        ensures
            r@.map_values(|a: PeerAdvertisement| a@) == self@.advertised_peers(now),
    {
        let ghost pred = |r: PeerReportView| peer_advertisable(r);
        let ghost to_ad = |r: PeerReportView| advertisement_of(r);
        let mut rest = self.peer_reports_at(now);
        let ghost all = rest@.map_values(|x: PeerHealthReport| x@);
        let ghost rest0 = rest@;
        let total = rest.len();
        let mut out: Vec<PeerAdvertisement> = Vec::new();
        let mut done: usize = 0;
        assert(all.take(0) =~= Seq::<PeerReportView>::empty());
        while rest.len() > 0
            invariant
                done <= total,
                rest@.len() + done == total,
                all.len() == total,
                all == rest0.map_values(|x: PeerHealthReport| x@),
                forall|k: int| 0 <= k < rest@.len() ==> #[trigger] rest@[k] == rest0[done + k],
                out@.map_values(|a: PeerAdvertisement| a@) == first_n(
                    all.take(done as int).filter(pred),
                    MAX_GOSSIP_PEERS as int,
                ).map_values(to_ad),
                out@.len() == first_n(all.take(done as int).filter(pred), MAX_GOSSIP_PEERS as int).len(),
                pred == (|r: PeerReportView| peer_advertisable(r)),
                to_ad == (|r: PeerReportView| advertisement_of(r)),
            decreases rest.len(),
        {
            let ghost before = rest@;
            let ghost out_before = out@;
            let ghost filtered = all.take(done as int).filter(pred);
            let report = rest.remove(0);
            assert(report == rest0[done as int]);
            assert(report@ == all[done as int]);
            proof {
                assert(all.take(done + 1) =~= all.take(done as int).push(all[done as int]));
                all.take(done as int).lemma_filter_push(all[done as int], pred);
                lemma_first_n_push(filtered, all[done as int], MAX_GOSSIP_PEERS as int);
                if filtered.len() >= MAX_GOSSIP_PEERS {
                    assert(first_n(filtered, MAX_GOSSIP_PEERS as int).len() == MAX_GOSSIP_PEERS);
                } else {
                    assert(first_n(filtered, MAX_GOSSIP_PEERS as int) == filtered);
                }
            }
            if (report.healthy || report.score >= PEER_STARTING_SCORE / 2) && out.len() < MAX_GOSSIP_PEERS {
                let ad = PeerAdvertisement { instance_id: report.instance_id, base_url: report.base_url };
                out.push(ad);
                proof {
                    lemma_push_map(out_before, ad, |a: PeerAdvertisement| a@);
                    lemma_push_map(first_n(filtered, MAX_GOSSIP_PEERS as int), all[done as int], to_ad);
                }
            }
            proof {
                assert forall|k: int| 0 <= k < rest@.len() implies #[trigger] rest@[k] == rest0[done + 1 + k] by {
                    assert(rest@[k] == before[k + 1]);
                }
            }
            done = done + 1;
        }
        proof {
            assert(all.take(total as int) =~= all);
        }
        out
    }

}

impl RegistryCore {
    /// Records how a gossip exchange with the peer at `base_url` ended, at `now`.
    fn record_gossip_outcome_at(&mut self, base_url: &str, outcome: GossipOutcome, now: i128)
        requires
            old(self)@.wf(),
        ensures
            final(self)@ == old(self)@.after_gossip(base_url@, outcome, now),
            final(self)@.wf(),
    {
        let ghost o = outcome;
        match outcome {
            GossipOutcome::Answered(snapshot) => {
                self.merge_snapshot_at(snapshot, now);
                self.report_peer_success_at(base_url, now);
            },
            GossipOutcome::InvalidPayload(e) => {
                let mut message = String::from_str("invalid gossip payload: ");
                message.append(e.as_str());
                assert(message@ == gossip_error(o));
                self.report_peer_failure(base_url, message);
            },
            GossipOutcome::HttpStatus(code) => {
                let mut message = String::from_str("HTTP ");
                push_decimal(&mut message, code as u64);
                assert(message@ == gossip_error(o));
                self.report_peer_failure(base_url, message);
            },
            GossipOutcome::RequestFailed(e) => {
                self.report_peer_failure(base_url, e);
            },
        }
    }

}

impl RegistryCore {
    /// A registry that knows nothing.
    fn empty() -> (r: Self)
        ensures
            r@.wf(),
            r@.providers.len() == 0,
            r@.peers.len() == 0,
    {
        let r = RegistryCore {
            states: Vec::new(),
            peers: Vec::new(),
            instance_id: String::new(),
            public_base_url: None,
        };
        assert(r@.providers =~= Seq::<ProviderStateView>::empty());
        assert(r@.peers =~= Seq::<PeerStateView>::empty());
        r
    }
}

/// Whether `r` is what a gossip round at `at` starts from, taking the
/// registry `before` to `after`; see [`ProviderRegistry::gossip_plan_at`].
pub open spec fn gossip_plan_made(
    before: ProviderRegistry,
    after: ProviderRegistry,
    at: Moment,
    r: Option<(Vec<String>, RegistrySnapshot)>,
) -> bool {
    match r {
        None => before@.peers.len() == 0 && after@ == before@,
        Some(plan) => {
            &&& before@.peers.len() > 0
            &&& plan.0@.map_values(|s: String| s@) == base_urls_of(before@.peers)
            &&& plan.1@ == before@.snapshot(at)
            &&& after@ == before@.after_trip_expiry(at.monotonic_nanos)
        },
    }
}

impl ProviderRegistry {
    /// Every registry is well formed.
    #[verifier::type_invariant]
    spec fn well_formed(self) -> bool {
        self.core@.wf()
    }

    /// Takes what the registry knows out of it, leaving an empty registry.
    fn take_core(&mut self) -> (r: RegistryCore)
        ensures
            r@ == old(self)@,
            r@.wf(),
    {
        proof {
            use_type_invariant(&*self);
        }
        let mut core = RegistryCore::empty();
        std::mem::swap(&mut core, &mut self.core);
        core
    }

    /// A registry of `providers`, named `local`, with no public URL and no
    /// seed peers.
    pub fn new(providers: Vec<RpcProvider>) -> (r: Self)
        ensures
            r@ == RegistryView::initial(
                providers@.map_values(|p: RpcProvider| p@),
                "local"@,
                None,
                Seq::empty(),
            ),
            r@.wf(),
    {
        let config = RegistryConfig::default();
        let r = Self::new_with_config(providers, config);
        assert(config.seed_peers@.map_values(|s: String| s@) =~= Seq::<Seq<char>>::empty());
        r
    }

    /// A registry of `providers` configured by `config`. Seed peers are
    /// normalized; those that come out empty, or equal to the configured
    /// public URL as written, are left out.
    pub fn new_with_config(providers: Vec<RpcProvider>, config: RegistryConfig) -> (r: Self)
        ensures
            r@ == RegistryView::initial(
                providers@.map_values(|p: RpcProvider| p@),
                config.instance_id@,
                config.public_base_url.deep_view(),
                config.seed_peers@.map_values(|s: String| s@),
            ),
            r@.wf(),
    {
        let ghost seeds = providers@.map_values(|p: RpcProvider| p@);
        let ghost id = config.instance_id@;
        let ghost own = config.public_base_url.deep_view();
        let ghost seed_urls = config.seed_peers@.map_values(|s: String| s@);
        let core = RegistryCore::new_with_config(providers, config);
        assert(core@ == RegistryView::initial(seeds, id, own, seed_urls));
        ProviderRegistry { core, clock_origin: monotonic_now() }
    }

    /// The name under which this node gossips.
    pub fn instance_id(&self) -> (r: &str)
        ensures
            r@ == self@.instance_id,
    {
        self.core.instance_id.as_str()
    }

    /// The normalized URL at which peers reach this node, if it has one.
    pub fn public_base_url(&self) -> (r: Option<&str>)
        ensures
            match r {
                Some(u) => self@.public_base_url == Some(u@),
                None => self@.public_base_url is None,
            },
    {
        match &self.core.public_base_url {
            Some(u) => Some(u.as_str()),
            None => None,
        }
    }

    /// Both clocks, read now.
    pub fn now(&self) -> (r: Moment)
        ensures
            r.wall_nanos > i128::MIN,
    {
        Moment {
            wall_nanos: wall_clock_nanos(),
            monotonic_nanos: monotonic_nanos_since(&self.clock_origin),
        }
    }

    /// Whether an upstream answer with this HTTP status is worth retrying
    /// with another provider.
    pub fn is_retryable_status(status: u16) -> (r: bool)
        ensures
            r == (status == 429 || status >= 500),
    {
        status == 429 || status >= 500
    }

    /// Records that a request through the provider at `url` succeeded at `now`:
    /// its failures are forgotten, its circuit breaker closes, and its score
    /// recovers to at least the starting score of a discovered provider plus
    /// the success bonus.
    pub fn report_success_at(&mut self, url: &str, now: i128)
        ensures
            final(self)@ == old(self)@.after_request_success(url@, now),
            final(self)@.wf(),
    {
        let mut core = self.take_core();
        core.report_success_at(url, now);
        self.core = core;
    }

    /// Records that a request through the provider at `url` succeeded now.
    pub fn report_success(&mut self, url: &str)
        ensures
            exists|now: i128|
                final(self)@ == #[trigger] old(self)@.after_request_success(url@, now),
            final(self)@.wf(),
    {
        let now = wall_clock_nanos();
        self.report_success_at(url, now);
    }

    /// Records that a request through the provider at `url` failed at `at`:
    /// one more failure, a lower score, and the circuit breaker trips from
    /// the threshold on.
    pub fn report_failure_at(&mut self, url: &str, at: Moment)
        ensures
            final(self)@ == old(self)@.after_request_failure(url@, at),
            final(self)@.wf(),
    {
        let mut core = self.take_core();
        core.report_failure_at(url, at);
        self.core = core;
    }

    /// Records that a request through the provider at `url` failed now.
    pub fn report_failure(&mut self, url: &str)
        ensures
            exists|at: Moment|
                final(self)@ == #[trigger] old(self)@.after_request_failure(
                    url@,
                    at,
                ),
            final(self)@.wf(),
    {
        let at = self.now();
        self.report_failure_at(url, at);
    }

    /// Records the outcome of a health probe of the provider at `url` at
    /// `at`: the ledger it reported, or the error that the probe met.
    pub fn record_probe_result_at(&mut self, url: &str, result: Result<u64, String>, at: Moment)
        ensures
            final(self)@ == old(self)@.after_probe(url@, probe_ledger(result), at),
            final(self)@.wf(),
    {
        let mut core = self.take_core();
        core.record_probe_result_at(url, result, at);
        self.core = core;
    }

    /// Records the outcome of a health probe of the provider at `url`, now.
    pub fn record_probe_result(&mut self, url: &str, result: Result<u64, String>)
        ensures
            exists|at: Moment|
                final(self)@ == #[trigger] old(self)@.after_probe(
                    url@,
                    probe_ledger(result),
                    at,
                ),
            final(self)@.wf(),
    {
        let at = self.now();
        self.record_probe_result_at(url, result, at);
    }

    /// The providers to probe in a health-check round, credentials included.
    pub fn probe_targets(&self) -> (r: Vec<RpcProvider>)
        ensures
            r@.map_values(|p: RpcProvider| p@) == self@.providers.map_values(
                |s: ProviderStateView| s.provider,
            ),
    {
        self.core.probe_targets()
    }

    /// The report of every provider at `at`, listed best first. Circuit
    /// breakers that have cooled down are closed on the way.
    pub fn provider_reports_at(&mut self, at: Moment) -> (r: Vec<ProviderHealthReport>)
        ensures
            final(self)@ == old(self)@.after_trip_expiry(at.monotonic_nanos),
            final(self)@.wf(),
            r@.map_values(|x: ProviderHealthReport| x@) == old(self)@.listed_reports(at),
    {
        let mut core = self.take_core();
        let r = core.provider_reports_at(at);
        self.core = core;
        r
    }

    /// The report of every provider now, listed best first.
    pub fn provider_reports(&mut self) -> (r: Vec<ProviderHealthReport>)
        ensures
            exists|at: Moment|
                final(self)@ == old(self)@.after_trip_expiry(at.monotonic_nanos)
                && r@.map_values(|x: ProviderHealthReport| x@) == #[trigger] old(self)@.listed_reports(at),
            final(self)@.wf(),
    {
        let at = self.now();
        self.provider_reports_at(at)
    }

    /// The providers that are healthy at `at`, listed best first. Circuit
    /// breakers that have cooled down are closed on the way.
    pub fn healthy_providers_at(&mut self, at: Moment) -> (r: Vec<RpcProvider>)
        ensures
            final(self)@ == old(self)@.after_trip_expiry(at.monotonic_nanos),
            final(self)@.wf(),
            r@.map_values(|p: RpcProvider| p@) == old(self)@.listed_healthy(at),
    {
        let mut core = self.take_core();
        let r = core.healthy_providers_at(at);
        self.core = core;
        r
    }

    /// The providers that are healthy now, listed best first.
    pub fn healthy_providers(&mut self) -> (r: Vec<RpcProvider>)
        ensures
            exists|at: Moment|
                final(self)@ == old(self)@.after_trip_expiry(at.monotonic_nanos)
                && r@.map_values(|p: RpcProvider| p@) == #[trigger] old(self)@.listed_healthy(at),
            final(self)@.wf(),
    {
        let at = self.now();
        self.healthy_providers_at(at)
    }

    /// Records that a gossip exchange with the peer at `base_url` succeeded
    /// at `now`; the peer is registered first if it is new.
    pub fn report_peer_success_at(&mut self, base_url: &str, now: i128)
        ensures
            final(self)@ == old(self)@.after_peer_success(base_url@, now),
            final(self)@.wf(),
    {
        let mut core = self.take_core();
        core.report_peer_success_at(base_url, now);
        self.core = core;
    }

    /// Records that a gossip exchange with the peer at `base_url` succeeded now.
    pub fn report_peer_success(&mut self, base_url: &str)
        ensures
            exists|now: i128|
                final(self)@ == #[trigger] old(self)@.after_peer_success(base_url@, now),
            final(self)@.wf(),
    {
        let now = wall_clock_nanos();
        self.report_peer_success_at(base_url, now);
    }

    /// Records that a gossip exchange with the peer at `base_url` failed
    /// with `error`; the peer is registered first if it is new.
    pub fn report_peer_failure(&mut self, base_url: &str, error: String)
        ensures
            final(self)@ == old(self)@.after_peer_failure(base_url@, error@),
            final(self)@.wf(),
    {
        let mut core = self.take_core();
        core.report_peer_failure(base_url, error);
        self.core = core;
    }

    /// The report of every peer at `now`, listed best first.
    pub fn peer_reports_at(&self, now: i128) -> (r: Vec<PeerHealthReport>)
        ensures
            r@.map_values(|x: PeerHealthReport| x@) == self@.listed_peers(now),
    {
        proof {
            use_type_invariant(self);
        }
        self.core.peer_reports_at(now)
    }

    /// The report of every peer now, listed best first.
    pub fn peer_reports(&self) -> (r: Vec<PeerHealthReport>)
        ensures
            exists|now: i128|
                r@.map_values(|x: PeerHealthReport| x@) == #[trigger] self@.listed_peers(
                    now,
                ),
    {
        let now = wall_clock_nanos();
        self.peer_reports_at(now)
    }

    /// The base URLs of the peers to gossip with, in registry order.
    pub fn gossip_targets(&self) -> (r: Vec<String>)
        ensures
            r@.map_values(|s: String| s@) == base_urls_of(self@.peers),
    {
        self.core.gossip_targets()
    }

    /// What a gossip round at `at` starts from: nothing when no peer is
    /// known, and the registry is left as it is; otherwise the base URL of
    /// every peer, in registry order, and the snapshot made at `at` to send
    /// them.
    pub fn gossip_plan_at(&mut self, at: Moment) -> (r: Option<(Vec<String>, RegistrySnapshot)>)
        ensures
            gossip_plan_made(*old(self), *final(self), at, r),
            final(self)@.wf(),
    {
        proof {
            use_type_invariant(&*self);
        }
        let targets = self.gossip_targets();
        if targets.len() == 0 {
            assert(base_urls_of(self@.peers).len() == self@.peers.len());
            return None;
        }
        let snapshot = self.registry_snapshot_at(at);
        Some((targets, snapshot))
    }

    /// What a gossip round now starts from; see
    /// [`ProviderRegistry::gossip_plan_at`].
    pub fn gossip_plan(&mut self) -> (r: Option<(Vec<String>, RegistrySnapshot)>)
        ensures
            exists|at: Moment|
                #[trigger] gossip_plan_made(*old(self), *final(self), at, r),
            final(self)@.wf(),
    {
        let at = self.now();
        let r = self.gossip_plan_at(at);
        assert(gossip_plan_made(*old(self), *self, at, r));
        r
    }

    /// Merges the snapshot `snapshot` that a peer sent, received at `now`; see
    /// [`RegistryView::after_merge`].
    pub fn merge_snapshot_at(&mut self, snapshot: RegistrySnapshot, now: i128)
        ensures
            final(self)@ == old(self)@.after_merge(snapshot@, now),
            final(self)@.wf(),
    {
        let mut core = self.take_core();
        core.merge_snapshot_at(snapshot, now);
        self.core = core;
    }

    /// Merges the snapshot `snapshot` that a peer sent, now.
    pub fn merge_snapshot(&mut self, snapshot: RegistrySnapshot)
        ensures
            exists|now: i128|
                final(self)@ == #[trigger] old(self)@.after_merge(snapshot@, now),
            final(self)@.wf(),
    {
        let now = wall_clock_nanos();
        self.merge_snapshot_at(snapshot, now);
    }

    /// The snapshot that this node sends to its peers at `at`; circuit
    /// breakers that have cooled down are closed on the way.
    pub fn registry_snapshot_at(&mut self, at: Moment) -> (r: RegistrySnapshot)
        ensures
            final(self)@ == old(self)@.after_trip_expiry(at.monotonic_nanos),
            final(self)@.wf(),
            r@ == old(self)@.snapshot(at),
    {
        let mut core = self.take_core();
        let r = core.registry_snapshot_at(at);
        self.core = core;
        r
    }

    /// The snapshot that this node sends to its peers now.
    pub fn registry_snapshot(&mut self) -> (r: RegistrySnapshot)
        ensures
            exists|at: Moment|
                final(self)@ == old(self)@.after_trip_expiry(at.monotonic_nanos)
                && r@ == #[trigger] old(self)@.snapshot(at),
            final(self)@.wf(),
    {
        let at = self.now();
        self.registry_snapshot_at(at)
    }

    /// Records how a gossip exchange with the peer at `base_url` ended, at `now`.
    pub fn record_gossip_outcome_at(&mut self, base_url: &str, outcome: GossipOutcome, now: i128)
        ensures
            final(self)@ == old(self)@.after_gossip(base_url@, outcome, now),
            final(self)@.wf(),
    {
        let mut core = self.take_core();
        core.record_gossip_outcome_at(base_url, outcome, now);
        self.core = core;
    }

    /// Records how a gossip exchange with the peer at `base_url` ended, now.
    pub fn record_gossip_outcome(&mut self, base_url: &str, outcome: GossipOutcome)
        ensures
            exists|now: i128|
                final(self)@ == #[trigger] old(self)@.after_gossip(base_url@, outcome, now),
            final(self)@.wf(),
    {
        let now = wall_clock_nanos();
        self.record_gossip_outcome_at(base_url, outcome, now);
    }
}

} // verus!
