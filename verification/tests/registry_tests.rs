use rpc_core::clock::Moment;
use rpc_core::health::{CIRCUIT_BREAKER_COOLDOWN_NANOS, CIRCUIT_BREAKER_THRESHOLD, PEER_STARTING_SCORE};
use rpc_core::provider::{
    GossipProviderSnapshot, PeerAdvertisement, PublicRpcProvider, RegistryConfig, RegistrySnapshot,
    RpcProvider,
};
use rpc_core::registry::{GossipOutcome, ProviderRegistry};

fn make_provider(name: &str, url: &str) -> RpcProvider {
    RpcProvider {
        name: name.to_string(),
        url: url.to_string(),
        auth_header: None,
        auth_value: None,
        advertise: None,
    }
}

fn now_nanos() -> i128 {
    let now = chrono::Utc::now();
    now.timestamp() as i128 * 1_000_000_000 + now.timestamp_subsec_nanos() as i128
}

fn gossip_entry(name: &str, url: &str, score: i64, healthy: bool, observed_at: i128) -> GossipProviderSnapshot {
    GossipProviderSnapshot {
        provider: PublicRpcProvider { name: name.to_string(), url: url.to_string() },
        score,
        latest_ledger: Some(123),
        consecutive_failures: 0,
        healthy,
        observed_at,
    }
}

fn snapshot_from(
    instance_id: &str,
    base_url: Option<&str>,
    peers: Vec<PeerAdvertisement>,
    providers: Vec<GossipProviderSnapshot>,
) -> RegistrySnapshot {
    RegistrySnapshot {
        instance_id: instance_id.to_string(),
        base_url: base_url.map(|u| u.to_string()),
        generated_at: now_nanos(),
        peers,
        providers,
    }
}

fn node_a(seed_peers: Vec<String>) -> ProviderRegistry {
    ProviderRegistry::new_with_config(
        vec![make_provider("seed", "http://seed.test")],
        RegistryConfig {
            instance_id: "node-a".to_string(),
            public_base_url: Some("http://node-a.test".to_string()),
            seed_peers,
        },
    )
}

#[test]
fn test_all_seed_providers_are_healthy_initially() {
    let mut registry = ProviderRegistry::new(vec![
        make_provider("a", "http://a.test"),
        make_provider("b", "http://b.test"),
    ]);

    let providers = registry.healthy_providers();
    assert_eq!(providers.len(), 2);
    assert_eq!(providers[0].url, "http://a.test");
    assert_eq!(providers[1].url, "http://b.test");
}

#[test]
fn test_circuit_breaker_trips_after_threshold() {
    let mut registry = ProviderRegistry::new(vec![make_provider("a", "http://a.test")]);

    for _ in 0..CIRCUIT_BREAKER_THRESHOLD {
        registry.report_failure("http://a.test");
    }

    assert!(registry.healthy_providers().is_empty());
}

#[test]
fn test_success_clears_tripped_provider() {
    let mut registry = ProviderRegistry::new(vec![make_provider("a", "http://a.test")]);

    for _ in 0..CIRCUIT_BREAKER_THRESHOLD {
        registry.report_failure("http://a.test");
    }
    assert!(registry.healthy_providers().is_empty());

    registry.report_success("http://a.test");
    assert_eq!(registry.healthy_providers().len(), 1);
}

#[test]
fn test_gossip_discovers_provider_and_peer() {
    let mut registry = node_a(Vec::new());

    registry.merge_snapshot(snapshot_from(
        "node-b",
        Some("http://node-b.test"),
        vec![PeerAdvertisement {
            instance_id: Some("node-c".to_string()),
            base_url: "http://node-c.test".to_string(),
        }],
        vec![gossip_entry("shared", "http://shared.test", 90, true, now_nanos())],
    ));

    let providers = registry.healthy_providers();
    assert!(providers.iter().any(|provider| provider.url == "http://shared.test"));

    let peers = registry.peer_reports();
    assert!(peers.iter().any(|peer| peer.base_url == "http://node-b.test"));
    assert!(peers.iter().any(|peer| peer.base_url == "http://node-c.test"));
}

#[test]
fn test_snapshot_omits_private_provider_credentials() {
    let mut registry = ProviderRegistry::new(vec![
        make_provider("public", "http://public.test"),
        RpcProvider {
            name: "private".to_string(),
            url: "http://private.test".to_string(),
            auth_header: Some("Authorization".to_string()),
            auth_value: Some("secret".to_string()),
            advertise: None,
        },
    ]);

    let snapshot = registry.registry_snapshot();
    assert!(snapshot.providers.iter().any(|provider| provider.provider.url == "http://public.test"));
    assert!(!snapshot.providers.iter().any(|provider| provider.provider.url == "http://private.test"));
}

#[test]
fn test_peer_failures_lower_peer_score() {
    let mut registry = node_a(vec!["http://node-b.test".to_string()]);

    registry.report_peer_failure("http://node-b.test", "timeout".to_string());

    let report = registry
        .peer_reports()
        .into_iter()
        .find(|peer| peer.base_url == "http://node-b.test")
        .unwrap();

    assert!(report.score < PEER_STARTING_SCORE);
    assert_eq!(report.last_error.as_deref(), Some("timeout"));
}

#[test]
fn two_failures_lower_the_score_below_the_floor() {
    let mut registry = ProviderRegistry::new(vec![make_provider("a", "http://a.test")]);
    registry.report_failure("http://a.test");
    registry.report_failure("http://a.test");
    let reports = registry.provider_reports();
    assert_eq!(reports[0].consecutive_failures, 2);
    assert_eq!(reports[0].local_score, 20);
    assert_eq!(reports[0].effective_score, 13);
    assert!(!reports[0].healthy);
}

#[test]
fn reports_about_unknown_providers_change_nothing() {
    let mut registry = ProviderRegistry::new(vec![make_provider("a", "http://a.test")]);
    registry.report_failure("http://other.test");
    registry.report_success("http://other.test");
    let reports = registry.provider_reports();
    assert_eq!(reports.len(), 1);
    assert_eq!(reports[0].local_score, 70);
    assert_eq!(reports[0].effective_score, 46);
    assert_eq!(reports[0].consecutive_failures, 0);
    assert_eq!(reports[0].source, "seed");
}

#[test]
fn success_recovers_score_from_the_discovered_floor() {
    let mut registry = ProviderRegistry::new(vec![make_provider("a", "http://a.test")]);
    for _ in 0..3 {
        registry.report_failure("http://a.test");
    }
    registry.report_success("http://a.test");
    let reports = registry.provider_reports();
    assert_eq!(reports[0].local_score, 67);
    assert_eq!(reports[0].consecutive_failures, 0);
    assert_eq!(reports[0].effective_score, 44);
}

#[test]
fn tripped_breaker_closes_after_cooldown() {
    let mut registry = node_a(Vec::new());
    let t0 = now_nanos();
    registry.merge_snapshot_at(
        snapshot_from("node-b", Some("http://node-b.test"), Vec::new(), vec![gossip_entry(
            "seed",
            "http://seed.test",
            0,
            true,
            t0,
        )]),
        t0,
    );
    let failure_at = Moment { wall_nanos: t0, monotonic_nanos: 1_000 };
    for _ in 0..CIRCUIT_BREAKER_THRESHOLD {
        registry.report_failure_at("http://seed.test", failure_at);
    }
    let during = Moment { wall_nanos: t0, monotonic_nanos: 1_000 + CIRCUIT_BREAKER_COOLDOWN_NANOS - 1 };
    assert!(registry.healthy_providers_at(during).is_empty());
    let after = Moment { wall_nanos: t0, monotonic_nanos: 1_000 + CIRCUIT_BREAKER_COOLDOWN_NANOS };
    let healthy = registry.healthy_providers_at(after);
    assert_eq!(healthy.len(), 1);
    assert_eq!(healthy[0].url, "http://seed.test");
}

#[test]
fn healthy_providers_are_ordered_by_score_then_name() {
    let mut registry = ProviderRegistry::new(vec![
        make_provider("c", "http://c.test"),
        make_provider("b", "http://b.test"),
        make_provider("a", "http://a.test"),
    ]);
    registry.report_success("http://c.test");
    let providers = registry.healthy_providers();
    let urls: Vec<&str> = providers.iter().map(|p| p.url.as_str()).collect();
    assert_eq!(urls, vec!["http://c.test", "http://a.test", "http://b.test"]);
}

#[test]
fn provider_reports_are_ordered_by_score_then_url() {
    let mut registry = ProviderRegistry::new(vec![
        make_provider("z", "http://b.test"),
        make_provider("y", "http://a.test"),
        make_provider("x", "http://c.test"),
    ]);
    registry.report_failure("http://a.test");
    let reports = registry.provider_reports();
    let urls: Vec<&str> = reports.iter().map(|r| r.url.as_str()).collect();
    assert_eq!(urls, vec!["http://b.test", "http://c.test", "http://a.test"]);
    assert_eq!(reports[2].effective_score, 30);
}

#[test]
fn duplicate_seed_urls_are_registered_once() {
    let mut registry = ProviderRegistry::new(vec![
        make_provider("first", "http://a.test"),
        make_provider("second", "http://a.test"),
    ]);
    let providers = registry.healthy_providers();
    assert_eq!(providers.len(), 1);
    assert_eq!(providers[0].name, "second");
}

#[test]
fn seed_peers_are_normalized_and_own_url_skipped() {
    let registry = ProviderRegistry::new_with_config(
        Vec::new(),
        RegistryConfig {
            instance_id: "node-a".to_string(),
            public_base_url: Some("http://node-a.test".to_string()),
            seed_peers: vec![
                "  http://node-b.test//  ".to_string(),
                "http://node-a.test/".to_string(),
                "   ".to_string(),
            ],
        },
    );
    assert_eq!(registry.public_base_url(), Some("http://node-a.test"));
    assert_eq!(registry.instance_id(), "node-a");
    let targets = registry.gossip_targets();
    assert_eq!(targets, vec!["http://node-b.test".to_string()]);
}

#[test]
fn seed_peers_are_compared_with_the_public_url_as_configured() {
    let registry = ProviderRegistry::new_with_config(
        Vec::new(),
        RegistryConfig {
            instance_id: "node-a".to_string(),
            public_base_url: Some("http://node-a.test/".to_string()),
            seed_peers: vec!["http://node-a.test/".to_string()],
        },
    );
    assert_eq!(registry.public_base_url(), Some("http://node-a.test"));
    assert_eq!(registry.gossip_targets(), vec!["http://node-a.test".to_string()]);
}

#[test]
fn default_registry_is_named_local() {
    let registry = ProviderRegistry::new(Vec::new());
    assert_eq!(registry.instance_id(), "local");
    assert_eq!(registry.public_base_url(), None);
    assert!(registry.gossip_targets().is_empty());
    let config = RegistryConfig::default();
    assert_eq!(config.instance_id, "local");
    assert!(config.public_base_url.is_none());
    assert!(config.seed_peers.is_empty());
}

#[test]
fn own_snapshot_is_ignored() {
    let mut registry = node_a(Vec::new());
    registry.merge_snapshot(snapshot_from(
        "node-a",
        Some("http://node-b.test"),
        Vec::new(),
        vec![gossip_entry("shared", "http://shared.test", 90, true, now_nanos())],
    ));
    assert!(registry.peer_reports().is_empty());
    assert_eq!(registry.provider_reports().len(), 1);
}

#[test]
fn gossip_never_registers_own_url_as_peer() {
    let mut registry = node_a(Vec::new());
    registry.merge_snapshot(snapshot_from(
        "node-b",
        Some("http://node-b.test/"),
        vec![
            PeerAdvertisement { instance_id: Some("node-a".to_string()), base_url: "http://node-a.test/".to_string() },
            PeerAdvertisement { instance_id: None, base_url: String::new() },
        ],
        Vec::new(),
    ));
    let peers = registry.peer_reports();
    assert_eq!(peers.len(), 1);
    assert_eq!(peers[0].base_url, "http://node-b.test");
    assert_eq!(peers[0].instance_id.as_deref(), Some("node-b"));
    assert_eq!(peers[0].discovered_from, vec!["gossip-response".to_string()]);
}

#[test]
fn stale_and_nameless_gossip_entries_are_skipped() {
    let mut registry = node_a(Vec::new());
    let now = now_nanos();
    registry.merge_snapshot_at(
        snapshot_from(
            "node-b",
            Some("http://node-b.test"),
            Vec::new(),
            vec![
                gossip_entry("old", "http://old.test", 90, true, now - 300_000_000_000),
                gossip_entry("empty", "", 90, true, now),
                gossip_entry("future", "http://future.test", 90, true, now + 60_000_000_000),
            ],
        ),
        now,
    );
    let reports = registry.provider_reports_at(Moment { wall_nanos: now, monotonic_nanos: 0 });
    let urls: Vec<&str> = reports.iter().map(|r| r.url.as_str()).collect();
    assert_eq!(urls, vec!["http://future.test", "http://seed.test"]);
}

#[test]
fn observations_from_one_sender_replace_each_other() {
    let mut registry = node_a(Vec::new());
    let now = now_nanos();
    for score in [90, 150] {
        registry.merge_snapshot_at(
            snapshot_from("node-b", Some("http://node-b.test"), Vec::new(), vec![gossip_entry(
                "shared",
                "http://shared.test",
                score,
                true,
                now,
            )]),
            now,
        );
    }
    registry.merge_snapshot_at(
        snapshot_from("node-c", None, Vec::new(), vec![gossip_entry(
            "shared",
            "http://shared.test",
            40,
            false,
            now,
        )]),
        now,
    );
    let reports = registry.provider_reports_at(Moment { wall_nanos: now, monotonic_nanos: 0 });
    let shared = reports.iter().find(|r| r.url == "http://shared.test").unwrap();
    assert_eq!(shared.observation_count, 2);
    assert_eq!(shared.peer_score, 70);
    assert_eq!(shared.local_score, 55);
    assert_eq!(shared.effective_score, 60);
    assert_eq!(shared.latest_ledger, 123);
    assert_eq!(shared.source, "gossip");
    assert!(shared.healthy);
}

#[test]
fn discovered_placeholder_name_is_replaced() {
    let mut registry = ProviderRegistry::new(vec![make_provider("discovered", "http://x.test")]);
    let now = now_nanos();
    registry.merge_snapshot_at(
        snapshot_from("node-b", None, Vec::new(), vec![gossip_entry("real", "http://x.test", 50, true, now)]),
        now,
    );
    let reports = registry.provider_reports_at(Moment { wall_nanos: now, monotonic_nanos: 0 });
    assert_eq!(reports[0].name, "real");
}

#[test]
fn snapshot_lists_providers_and_peers() {
    let mut registry = node_a(vec!["http://node-b.test".to_string(), "http://node-c.test".to_string()]);
    registry.report_peer_failure("http://node-c.test", "down".to_string());
    registry.report_peer_failure("http://node-c.test", "down".to_string());
    registry.report_success("http://seed.test");
    let at = Moment { wall_nanos: 5_000, monotonic_nanos: 0 };
    let snapshot = registry.registry_snapshot_at(at);
    assert_eq!(snapshot.instance_id, "node-a");
    assert_eq!(snapshot.base_url.as_deref(), Some("http://node-a.test"));
    assert_eq!(snapshot.generated_at, 5_000);
    assert_eq!(snapshot.providers.len(), 1);
    assert_eq!(snapshot.providers[0].score, 54);
    assert_eq!(snapshot.providers[0].latest_ledger, None);
    assert_eq!(snapshot.providers[0].observed_at, 5_000);
    let peers: Vec<&str> = snapshot.peers.iter().map(|p| p.base_url.as_str()).collect();
    assert_eq!(peers, vec!["http://node-b.test"]);
}

#[test]
fn gossip_outcomes_update_the_peer() {
    let mut registry = node_a(vec!["http://node-b.test".to_string()]);
    registry.record_gossip_outcome("http://node-b.test", GossipOutcome::HttpStatus(503));
    let report = registry.peer_reports().into_iter().next().unwrap();
    assert_eq!(report.last_error.as_deref(), Some("HTTP 503"));
    assert_eq!(report.score, 40);
    assert_eq!(report.consecutive_failures, 1);

    registry.record_gossip_outcome(
        "http://node-b.test",
        GossipOutcome::InvalidPayload("bad json".to_string()),
    );
    let report = registry.peer_reports().into_iter().next().unwrap();
    assert_eq!(report.last_error.as_deref(), Some("invalid gossip payload: bad json"));
    assert_eq!(report.score, 20);
    assert!(!report.healthy);

    registry.record_gossip_outcome(
        "http://node-b.test",
        GossipOutcome::Answered(snapshot_from("node-b", Some("http://node-b.test"), Vec::new(), Vec::new())),
    );
    let report = registry.peer_reports().into_iter().next().unwrap();
    assert_eq!(report.last_error, None);
    assert_eq!(report.score, 28);
    assert_eq!(report.consecutive_failures, 0);
    let seen = report.last_seen_at.unwrap();
    assert!((seen - now_nanos()).abs() < 60_000_000_000);
    assert_eq!(report.instance_id.as_deref(), Some("node-b"));
}

#[test]
fn silent_peer_becomes_unhealthy() {
    let mut registry = node_a(vec!["http://node-b.test".to_string()]);
    registry.report_peer_success_at("http://node-b.test", 1_000);
    assert!(registry.peer_reports_at(1_000 + 599_999_999_999)[0].healthy);
    assert!(!registry.peer_reports_at(1_000 + 600_000_000_000)[0].healthy);
}

#[test]
fn probe_results_update_the_provider() {
    let mut registry = ProviderRegistry::new(vec![make_provider("a", "http://a.test")]);
    registry.record_probe_result("http://a.test", Ok(4242));
    let reports = registry.provider_reports();
    assert_eq!(reports[0].latest_ledger, 4242);
    assert_eq!(reports[0].local_score, 76);
    registry.record_probe_result("http://a.test", Err("timeout".to_string()));
    let reports = registry.provider_reports();
    assert_eq!(reports[0].local_score, 61);
    assert_eq!(reports[0].consecutive_failures, 1);
    let targets = registry.probe_targets();
    assert_eq!(targets.len(), 1);
    assert_eq!(targets[0], make_provider("a", "http://a.test"));
}

#[test]
fn retryable_statuses() {
    assert!(ProviderRegistry::is_retryable_status(429));
    assert!(ProviderRegistry::is_retryable_status(500));
    assert!(ProviderRegistry::is_retryable_status(503));
    assert!(!ProviderRegistry::is_retryable_status(404));
    assert!(!ProviderRegistry::is_retryable_status(499));
}

#[test]
fn gossip_plan_is_empty_without_peers() {
    let mut registry = node_a(Vec::new());
    assert!(registry.gossip_plan().is_none());
}

#[test]
fn gossip_plan_lists_peers_and_snapshot() {
    let mut registry = node_a(vec!["http://node-b.test/".to_string(), "http://node-c.test".to_string()]);
    let (targets, snapshot) = registry.gossip_plan().expect("peers are known");
    assert_eq!(
        targets,
        vec!["http://node-b.test".to_string(), "http://node-c.test".to_string()]
    );
    assert_eq!(snapshot.instance_id, "node-a");
    assert_eq!(snapshot.base_url.as_deref(), Some("http://node-a.test"));
    assert_eq!(snapshot.providers.len(), 1);
    assert_eq!(snapshot.providers[0].provider.url, "http://seed.test");
}

#[test]
fn a_provider_learnt_twice_is_registered_once() {
    let mut registry = node_a(Vec::new());
    registry.merge_snapshot(snapshot_from(
        "node-b",
        Some("http://node-b.test"),
        Vec::new(),
        vec![gossip_entry("shared", "http://shared.test", 90, true, now_nanos())],
    ));
    registry.merge_snapshot(snapshot_from(
        "node-c",
        Some("http://node-c.test"),
        Vec::new(),
        vec![
            gossip_entry("other-name", "http://shared.test", 80, true, now_nanos()),
            gossip_entry("seed-again", "http://seed.test", 10, true, now_nanos()),
        ],
    ));
    let reports = registry.provider_reports();
    assert_eq!(reports.len(), 2);
    let shared = reports.iter().find(|r| r.url == "http://shared.test").unwrap();
    assert_eq!(shared.name, "shared");
    assert_eq!(shared.source, "gossip");
    assert_eq!(shared.observation_count, 2);
    let seed = reports.iter().find(|r| r.url == "http://seed.test").unwrap();
    assert_eq!(seed.name, "seed");
    assert_eq!(seed.source, "seed");
}

#[test]
fn exchanges_under_own_url_never_make_a_peer() {
    let mut registry = node_a(Vec::new());
    registry.report_peer_success("http://node-a.test/");
    registry.report_peer_failure("  http://node-a.test", "refused".to_string());
    registry.record_gossip_outcome("http://node-a.test", GossipOutcome::HttpStatus(500));
    registry.report_peer_success("   ");
    assert!(registry.gossip_targets().is_empty());
    assert!(registry.peer_reports().is_empty());
}

#[test]
fn a_peer_kept_under_own_url_is_still_updated() {
    let mut registry = ProviderRegistry::new_with_config(
        Vec::new(),
        RegistryConfig {
            instance_id: "node-a".to_string(),
            public_base_url: Some("http://node-a.test/".to_string()),
            seed_peers: vec!["http://node-a.test/".to_string()],
        },
    );
    registry.report_peer_failure("http://node-a.test", "refused".to_string());
    let peers = registry.peer_reports();
    assert_eq!(peers.len(), 1);
    assert_eq!(peers[0].base_url, "http://node-a.test");
    assert_eq!(peers[0].consecutive_failures, 1);
    assert_eq!(peers[0].last_error.as_deref(), Some("refused"));
}
