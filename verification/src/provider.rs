//! Providers, registry configuration, and the values that the registry hands
//! out: health reports and the snapshot exchanged with peer nodes.
//!
//! Points in time are nanoseconds since the Unix epoch (UTC).
use vstd::prelude::*;

verus! {

/// An upstream RPC endpoint, with the credentials that requests to it carry.
#[derive(Clone, Debug, PartialEq, Eq)]
pub struct RpcProvider {
    pub name: String,
    pub url: String,
    pub auth_header: Option<String>,
    pub auth_value: Option<String>,
    /// Controls whether this provider can be advertised to peer nodes.
    ///
    /// When omitted, providers with credentials are kept local-only.
    pub advertise: Option<bool>,
}

/// What the logic sees of an [`RpcProvider`].
#[verifier::ext_equal]
pub struct ProviderView {
    pub name: Seq<char>,
    pub url: Seq<char>,
    pub auth_header: Option<Seq<char>>,
    pub auth_value: Option<Seq<char>>,
    pub advertise: Option<bool>,
}

impl View for RpcProvider {
    type V = ProviderView;

    open spec fn view(&self) -> ProviderView {
        ProviderView {
            name: self.name@,
            url: self.url@,
            auth_header: self.auth_header.deep_view(),
            auth_value: self.auth_value.deep_view(),
            advertise: self.advertise,
        }
    }
}

impl ProviderView {
    /// Whether the provider may be advertised to peers: as configured, and
    /// by default only when it has no credential.
    pub open spec fn advertised(self) -> bool {
        match self.advertise {
            Some(b) => b,
            None => self.auth_value is None,
        }
    }
}

/// A copy of an optional string.
pub fn copy_opt_string(s: &Option<String>) -> (r: Option<String>)
    ensures
        r.deep_view() == s.deep_view(),
{
    match s {
        Some(v) => Some(v.clone()),
        None => None,
    }
}

impl RpcProvider {
    /// Whether this provider may be advertised to peer nodes.
    pub fn should_advertise(&self) -> (r: bool)
        ensures
            r == self@.advertised(),
    {
        match self.advertise {
            Some(b) => b,
            None => self.auth_value.is_none(),
        }
    }

    /// The provider without its credentials.
    pub fn public_provider(&self) -> (r: PublicRpcProvider)
        ensures
            r.name@ == self.name@,
            r.url@ == self.url@,
    {
        PublicRpcProvider { name: self.name.clone(), url: self.url.clone() }
    }

    /// A copy of this provider.
    pub fn duplicate(&self) -> (r: RpcProvider)
        ensures
            r@ == self@,
    {
        RpcProvider {
            name: self.name.clone(),
            url: self.url.clone(),
            auth_header: copy_opt_string(&self.auth_header),
            auth_value: copy_opt_string(&self.auth_value),
            advertise: self.advertise,
        }
    }
}

/// A provider as peers see it: no credentials.
#[derive(Clone, Debug, PartialEq, Eq)]
pub struct PublicRpcProvider {
    pub name: String,
    pub url: String,
}

/// How a registry names itself and whom it gossips with first.
#[derive(Clone, Debug)]
pub struct RegistryConfig {
    pub instance_id: String,
    pub public_base_url: Option<String>,
    pub seed_peers: Vec<String>,
}

impl Default for RegistryConfig {
    /// A node named `local`, with no public URL and no seed peers.
    fn default() -> (r: Self)
        ensures
            r.instance_id@ == "local"@,
            r.public_base_url is None,
            r.seed_peers@.len() == 0,
    {
        RegistryConfig {
            instance_id: String::from_str("local"),
            public_base_url: None,
            seed_peers: Vec::new(),
        }
    }
}

/// A peer node that a snapshot vouches for.
#[derive(Clone, Debug)]
pub struct PeerAdvertisement {
    pub instance_id: Option<String>,
    pub base_url: String,
}

/// One provider as a snapshot describes it.
#[derive(Clone, Debug)]
pub struct GossipProviderSnapshot {
    pub provider: PublicRpcProvider,
    pub score: i64,
    pub latest_ledger: Option<u64>,
    pub consecutive_failures: u64,
    pub healthy: bool,
    pub observed_at: i128,
}

/// What one registry tells another in a gossip round.
#[derive(Clone, Debug)]
pub struct RegistrySnapshot {
    pub instance_id: String,
    pub base_url: Option<String>,
    pub generated_at: i128,
    pub peers: Vec<PeerAdvertisement>,
    pub providers: Vec<GossipProviderSnapshot>,
}

/// The health of one provider as this node sees it.
#[derive(Clone, Debug)]
pub struct ProviderHealthReport {
    pub name: String,
    pub url: String,
    pub effective_score: i64,
    pub local_score: i64,
    pub peer_score: i64,
    pub latest_ledger: u64,
    pub consecutive_failures: u64,
    pub healthy: bool,
    pub source: String,
    pub observation_count: usize,
}

/// The health of one peer node.
#[derive(Clone, Debug)]
pub struct PeerHealthReport {
    pub base_url: String,
    pub instance_id: Option<String>,
    pub score: i64,
    pub consecutive_failures: u64,
    pub healthy: bool,
    pub last_seen_at: Option<i128>,
    pub discovered_from: Vec<String>,
    pub last_error: Option<String>,
}

/// What the logic sees of a [`GossipProviderSnapshot`].
#[verifier::ext_equal]
pub struct GossipProviderView {
    pub name: Seq<char>,
    pub url: Seq<char>,
    pub score: i64,
    pub latest_ledger: Option<u64>,
    pub consecutive_failures: u64,
    pub healthy: bool,
    pub observed_at: i128,
}

impl View for GossipProviderSnapshot {
    type V = GossipProviderView;

    open spec fn view(&self) -> GossipProviderView {
        GossipProviderView {
            name: self.provider.name@,
            url: self.provider.url@,
            score: self.score,
            latest_ledger: self.latest_ledger,
            consecutive_failures: self.consecutive_failures,
            healthy: self.healthy,
            observed_at: self.observed_at,
        }
    }
}

/// What the logic sees of a [`PeerAdvertisement`].
#[verifier::ext_equal]
pub struct PeerAdvertisementView {
    pub instance_id: Option<Seq<char>>,
    pub base_url: Seq<char>,
}

impl View for PeerAdvertisement {
    type V = PeerAdvertisementView;

    open spec fn view(&self) -> PeerAdvertisementView {
        PeerAdvertisementView { instance_id: self.instance_id.deep_view(), base_url: self.base_url@ }
    }
}

/// What the logic sees of a [`RegistrySnapshot`].
#[verifier::ext_equal]
pub struct SnapshotView {
    pub instance_id: Seq<char>,
    pub base_url: Option<Seq<char>>,
    pub generated_at: i128,
    pub peers: Seq<PeerAdvertisementView>,
    pub providers: Seq<GossipProviderView>,
}

impl View for RegistrySnapshot {
    type V = SnapshotView;

    open spec fn view(&self) -> SnapshotView {
        SnapshotView {
            instance_id: self.instance_id@,
            base_url: self.base_url.deep_view(),
            generated_at: self.generated_at,
            peers: self.peers@.map_values(|p: PeerAdvertisement| p@),
            providers: self.providers@.map_values(|g: GossipProviderSnapshot| g@),
        }
    }
}

} // verus!
