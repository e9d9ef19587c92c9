use load_balancer::services::hosts::HostAddr;
use load_balancer::services::load_balancer::{
    adaptive_step, handle_request, is_switch_request, next_strategy, strategy_from_pairs,
    switch_algorithm, upstream_uri, Dispatch, Reply,
};
use load_balancer::services::load_balancer_state::LoadBalancerState;
use load_balancer::services::strategies::Strategy;
use load_balancer::utils::configuration::Config;

fn make_addr(octet: u8) -> HostAddr {
    HostAddr::v4(127, 0, 0, octet, 8080)
}

fn make_lb() -> LoadBalancerState {
    LoadBalancerState::new(&Config { hosts: vec![make_addr(1), make_addr(2), make_addr(3)] })
}

fn pairs(items: &[(&str, &str)]) -> Vec<(String, String)> {
    items.iter().map(|(k, v)| (k.to_string(), v.to_string())).collect()
}

#[test]
fn replies_carry_status_and_message() {
    let all = [
        (Reply::NoAvailableWorkers, 503, "No available workers"),
        (Reply::InvalidStrategy, 400, "Invalid or missing strategy"),
        (Reply::StrategyUpdated, 200, "Strategy updated"),
        (Reply::InvalidUri, 500, "Invalid URI"),
        (Reply::UpstreamFailed, 502, "Upstream request failed"),
    ];
    for (r, status, msg) in all {
        assert_eq!(r.status(), status);
        assert_eq!(r.message(), msg);
    }
}

#[test]
fn switch_requests_are_gets_of_the_endpoint() {
    assert!(is_switch_request("GET", "/switch-algorithm"));
    assert!(!is_switch_request("POST", "/switch-algorithm"));
    assert!(!is_switch_request("GET", "/switch-algorithm/"));
    assert!(!is_switch_request("GET", "/work"));
}

#[test]
fn last_strategy_parameter_wins() {
    assert_eq!(strategy_from_pairs(&pairs(&[("strategy", "LeastConnections")])), Some(Strategy::LeastConnections));
    assert_eq!(
        strategy_from_pairs(&pairs(&[("strategy", "LeastConnections"), ("x", "1"), ("strategy", "RoundRobin")])),
        Some(Strategy::RoundRobin)
    );
    assert_eq!(strategy_from_pairs(&pairs(&[("strategy", "RoundRobin"), ("strategy", "bogus")])), None);
    assert_eq!(strategy_from_pairs(&pairs(&[("other", "RoundRobin")])), None);
    assert_eq!(strategy_from_pairs(&pairs(&[])), None);
}

#[test]
fn switch_algorithm_applies_named_strategy() {
    let mut lb = make_lb();
    assert_eq!(switch_algorithm(&mut lb, Some("strategy=LeastConnections")), Reply::StrategyUpdated);
    assert_eq!(lb.strategy(), Strategy::LeastConnections);
    assert_eq!(switch_algorithm(&mut lb, Some("strategy=LeastConnections")), Reply::StrategyUpdated);
    assert_eq!(lb.strategy(), Strategy::LeastConnections);
    assert_eq!(switch_algorithm(&mut lb, Some("foo=bar&strategy=RoundRobin")), Reply::StrategyUpdated);
    assert_eq!(lb.strategy(), Strategy::RoundRobin);
}

#[test]
fn switch_algorithm_decodes_the_query() {
    let mut lb = make_lb();
    // percent-encoded "C" and "t"
    assert_eq!(switch_algorithm(&mut lb, Some("s%74rategy=Least%43onnections")), Reply::StrategyUpdated);
    assert_eq!(lb.strategy(), Strategy::LeastConnections);
    // a "+" decodes to a space, which no strategy name has
    assert_eq!(switch_algorithm(&mut lb, Some("strategy=Round+Robin")), Reply::InvalidStrategy);
    assert_eq!(lb.strategy(), Strategy::LeastConnections);
}

#[test]
fn switch_algorithm_refuses_unknown_or_missing_strategy() {
    let mut lb = make_lb();
    assert_eq!(switch_algorithm(&mut lb, None), Reply::InvalidStrategy);
    assert_eq!(switch_algorithm(&mut lb, Some("")), Reply::InvalidStrategy);
    assert_eq!(switch_algorithm(&mut lb, Some("strategy=EWMA")), Reply::InvalidStrategy);
    assert_eq!(switch_algorithm(&mut lb, Some("strategy")), Reply::InvalidStrategy);
    assert_eq!(lb.strategy(), Strategy::RoundRobin);
}

#[test]
fn handle_request_forwards_and_counts() {
    let mut lb = make_lb();
    assert_eq!(handle_request(&mut lb, "GET", "/work", None), Dispatch::Forward(make_addr(2)));
    assert_eq!(lb.hosts().get(&make_addr(2)).unwrap().open_connections, 1);
    assert_eq!(handle_request(&mut lb, "POST", "/switch-algorithm", Some("strategy=LeastConnections")), Dispatch::Forward(make_addr(3)));
    assert_eq!(lb.strategy(), Strategy::RoundRobin);
}

#[test]
fn handle_request_switches_on_the_endpoint() {
    let mut lb = make_lb();
    assert_eq!(
        handle_request(&mut lb, "GET", "/switch-algorithm", Some("strategy=LeastConnections")),
        Dispatch::Respond(Reply::StrategyUpdated)
    );
    assert_eq!(lb.strategy(), Strategy::LeastConnections);
    for h in lb.hosts().keys() {
        assert_eq!(lb.hosts().get(&h).unwrap().open_connections, 0);
    }
    assert_eq!(
        handle_request(&mut lb, "GET", "/switch-algorithm", Some("strategy=nope")),
        Dispatch::Respond(Reply::InvalidStrategy)
    );
}

#[test]
fn handle_request_without_healthy_hosts_is_unavailable() {
    let mut lb = make_lb();
    for h in lb.hosts().keys() {
        lb.set_host_health(&h, false);
    }
    assert_eq!(handle_request(&mut lb, "GET", "/work", None), Dispatch::Respond(Reply::NoAvailableWorkers));
}

#[test]
fn adaptive_engine_follows_the_load() {
    assert_eq!(next_strategy(true), Strategy::LeastConnections);
    assert_eq!(next_strategy(false), Strategy::RoundRobin);

    let mut lb = make_lb();
    assert!(!adaptive_step(&mut lb));
    assert_eq!(lb.strategy(), Strategy::RoundRobin);

    // pile connections onto one host
    lb.set_host_health(&make_addr(1), false);
    lb.set_host_health(&make_addr(3), false);
    for _ in 0..50 {
        lb.get_host().unwrap();
    }
    assert!(lb.is_worker_overloaded());
    assert!(adaptive_step(&mut lb));
    assert_eq!(lb.strategy(), Strategy::LeastConnections);
    assert!(!adaptive_step(&mut lb));

    for _ in 0..50 {
        lb.on_disconnect(&make_addr(2));
    }
    assert!(adaptive_step(&mut lb));
    assert_eq!(lb.strategy(), Strategy::RoundRobin);
}

#[test]
fn upstream_uri_points_at_the_chosen_host() {
    let u = upstream_uri(None, Some("/work?duration_millis=5"), make_addr(2)).ok().unwrap();
    assert_eq!(u.scheme, "http");
    assert_eq!(u.authority, make_addr(2));
    assert_eq!(u.path_and_query, "/work?duration_millis=5");

    let v = upstream_uri(Some("https"), Some("/"), make_addr(3)).ok().unwrap();
    assert_eq!(v.scheme, "https");
    assert_eq!(v.authority, make_addr(3));
    assert_eq!(v.path_and_query, "/");
}

#[test]
fn upstream_uri_without_path_is_invalid() {
    assert!(matches!(upstream_uri(None, None, make_addr(1)), Err(Reply::InvalidUri)));
    assert!(matches!(upstream_uri(Some("http"), None, make_addr(1)), Err(Reply::InvalidUri)));
}
