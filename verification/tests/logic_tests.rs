use rpc_core::errors::{AppError, SimulationError};
use rpc_core::health::{adjust_score, clamp_score, is_observation_stale};
use rpc_core::probe::{is_success_status, ledger_from_response_body, probe_outcome, ProbeAnswer};
use rpc_core::provider::RpcProvider;
use rpc_core::text::normalize_base_url;

#[test]
fn status_codes_and_kinds() {
    let e = AppError::NotFound("x".to_string());
    assert_eq!(e.status_code(), 404);
    assert_eq!(e.error_type(), "NOT_FOUND");
    assert_eq!(e.message(), "Not found: x");
    let e = AppError::Internal("secret detail".to_string());
    assert_eq!(e.status_code(), 500);
    assert_eq!(e.error_type(), "INTERNAL_SERVER_ERROR");
    assert_eq!(e.message(), "Internal server error");
    let e = AppError::BadRequest("y".to_string());
    assert_eq!(e.status_code(), 400);
    assert_eq!(e.error_type(), "BAD_REQUEST");
    assert_eq!(e.message(), "Bad request: y");
    let e = AppError::Unauthorized("z".to_string());
    assert_eq!(e.status_code(), 401);
    assert_eq!(e.error_type(), "UNAUTHORIZED");
    assert_eq!(e.message(), "Unauthorized: z");
}

#[test]
fn simulation_errors_map_to_client_or_server_errors() {
    match AppError::from(SimulationError::NodeError("bad id".to_string())) {
        AppError::BadRequest(m) => assert_eq!(m, "RPC node error: bad id"),
        other => panic!("unexpected {:?}", other),
    }
    match AppError::from(SimulationError::Base64Error("padding".to_string())) {
        AppError::BadRequest(m) => assert_eq!(m, "Base64 decode error: padding"),
        other => panic!("unexpected {:?}", other),
    }
    match AppError::from(SimulationError::NodeTimeout) {
        AppError::Internal(m) => assert_eq!(m, "RPC request timed out"),
        other => panic!("unexpected {:?}", other),
    }
    match AppError::from(SimulationError::InsufficientConsensusProviders("1 of 3".to_string())) {
        AppError::Internal(m) => assert_eq!(m, "Insufficient providers for consensus: 1 of 3"),
        other => panic!("unexpected {:?}", other),
    }
    assert_eq!(AppError::from(SimulationError::Io("eof".to_string())).status_code(), 500);
    assert_eq!(AppError::from(SimulationError::XdrError("eof".to_string())).status_code(), 400);
}

#[test]
fn base_urls_are_trimmed_of_space_and_slashes() {
    assert_eq!(normalize_base_url("  http://node.test//  "), "http://node.test");
    assert_eq!(normalize_base_url("\u{3000}http://node.test/\t"), "http://node.test");
    assert_eq!(normalize_base_url("http://node.test"), "http://node.test");
    assert_eq!(normalize_base_url("///"), "");
    assert_eq!(normalize_base_url(" / "), "");
    assert_eq!(normalize_base_url("a /"), "a ");
    let once = normalize_base_url(" http://n.test/ ");
    assert_eq!(normalize_base_url(&once), once);
}

#[test]
fn scores_are_clamped() {
    assert_eq!(clamp_score(-5), 0);
    assert_eq!(clamp_score(101), 100);
    assert_eq!(clamp_score(42), 42);
    assert_eq!(adjust_score(90, 12), 100);
    assert_eq!(adjust_score(10, -25), 0);
    assert_eq!(adjust_score(50, 6), 56);
}

#[test]
fn observations_go_stale_after_five_minutes() {
    assert!(!is_observation_stale(0, 299_999_999_999));
    assert!(is_observation_stale(0, 300_000_000_000));
    assert!(!is_observation_stale(1_000_000, 0));
    assert!(is_observation_stale(i128::MIN, i128::MAX));
    assert!(!is_observation_stale(i128::MAX, i128::MAX));
}

#[test]
fn advertising_defaults_to_credential_free_providers() {
    let mut p = RpcProvider {
        name: "n".to_string(),
        url: "http://n.test".to_string(),
        auth_header: None,
        auth_value: None,
        advertise: None,
    };
    assert!(p.should_advertise());
    p.auth_value = Some("secret".to_string());
    assert!(!p.should_advertise());
    p.advertise = Some(true);
    assert!(p.should_advertise());
    p.auth_value = None;
    p.advertise = Some(false);
    assert!(!p.should_advertise());
    let public = p.public_provider();
    assert_eq!(public.name, "n");
    assert_eq!(public.url, "http://n.test");
    assert_eq!(p.duplicate(), p);
}

#[test]
fn ledger_is_read_from_probe_answers() {
    assert_eq!(
        ledger_from_response_body(br#"{"jsonrpc":"2.0","id":1,"result":{"sequence":123}}"#),
        Ok(123)
    );
    assert_eq!(
        ledger_from_response_body(br#"{"jsonrpc":"2.0","id":1,"result":{}}"#),
        Err("missing sequence in response".to_string())
    );
    assert_eq!(
        ledger_from_response_body(br#"{"result":{"sequence":-1}}"#),
        Err("missing sequence in response".to_string())
    );
    assert_eq!(
        ledger_from_response_body(b"not json"),
        Err("parse error: error decoding response body".to_string())
    );
    assert_eq!(
        ledger_from_response_body(b"{\"result\":{\"sequence\":5},\"x\":\"\xff\"}"),
        Err("parse error: error decoding response body".to_string())
    );
}

#[test]
fn probe_outcomes_name_what_went_wrong() {
    assert_eq!(probe_outcome(ProbeAnswer::TimedOut), Err("timeout".to_string()));
    assert_eq!(
        probe_outcome(ProbeAnswer::RequestFailed("connection refused".to_string())),
        Err("request error: connection refused".to_string())
    );
    assert_eq!(probe_outcome(ProbeAnswer::HttpStatus(503)), Err("HTTP 503".to_string()));
    assert_eq!(probe_outcome(ProbeAnswer::HttpStatus(404)), Err("HTTP 404".to_string()));
    assert_eq!(
        probe_outcome(ProbeAnswer::BodyUnreadable("error decoding response body".to_string())),
        Err("parse error: error decoding response body".to_string())
    );
    assert_eq!(
        probe_outcome(ProbeAnswer::Body(br#"{"result":{"sequence":77}}"#.to_vec())),
        Ok(77)
    );
    assert_eq!(
        probe_outcome(ProbeAnswer::Body(br#"{"result":null}"#.to_vec())),
        Err("missing sequence in response".to_string())
    );
    assert_eq!(
        probe_outcome(ProbeAnswer::Body(b"<html>".to_vec())),
        Err("parse error: error decoding response body".to_string())
    );
}

#[test]
fn success_statuses_are_the_two_hundreds() {
    assert!(is_success_status(200));
    assert!(is_success_status(204));
    assert!(is_success_status(299));
    assert!(!is_success_status(199));
    assert!(!is_success_status(300));
    assert!(!is_success_status(404));
    assert!(!is_success_status(503));
}
