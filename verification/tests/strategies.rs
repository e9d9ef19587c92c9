use load_balancer::services::hosts::{HostAddr, HostStatus, HostTable};
use load_balancer::services::strategies::{Algorithm, LeastConnections, RoundRobin, Strategy};

fn make_addr(octet: u8) -> HostAddr {
    HostAddr::v4(127, 0, 0, octet, 8080)
}

fn host(healthy: bool, open_connections: u32) -> HostStatus {
    HostStatus { healthy, open_connections }
}

fn healthy_hosts() -> HostTable {
    let mut hosts = HostTable::new();
    hosts.insert(make_addr(1), host(true, 0));
    hosts.insert(make_addr(2), host(true, 0));
    hosts.insert(make_addr(3), host(true, 0));
    hosts.insert(make_addr(4), host(true, 0));
    hosts
}

#[test]
fn test_round_robin_cycles() {
    let mut healthy_hosts = healthy_hosts();
    let mut rr = RoundRobin::new(&mut healthy_hosts);
    let first_host = rr.get_host(&mut healthy_hosts);

    for _ in 0..healthy_hosts.keys().len() - 1 {
        let _ = rr.get_host(&mut healthy_hosts);
    }

    let first_after_cycle = rr.get_host(&mut healthy_hosts);
    assert_eq!(first_host, first_after_cycle);
}

#[test]
fn round_robin_hands_out_each_host_once_per_turn() {
    let mut hosts = healthy_hosts();
    let mut rr = RoundRobin::new(&mut hosts);
    let mut seen = Vec::new();
    for _ in 0..4 {
        seen.push(rr.get_host(&mut hosts).unwrap());
    }
    // the cursor starts on the first host, so the turn begins after it
    assert_eq!(seen, vec![make_addr(2), make_addr(3), make_addr(4), make_addr(1)]);
}

#[test]
fn test_round_robin_skips_unhealthy() {
    let mut hosts = HostTable::new();
    hosts.insert(make_addr(1), host(true, 5));
    hosts.insert(make_addr(2), host(false, 10));

    let mut rr = RoundRobin::new(&mut hosts);

    assert_eq!(rr.get_host(&mut hosts), Some(make_addr(1)));
    assert_eq!(rr.get_host(&mut hosts), Some(make_addr(1)));
}

#[test]
fn test_round_robin_all_unhealthy() {
    let mut hosts = HostTable::new();
    hosts.insert(make_addr(1), host(false, 2));
    hosts.insert(make_addr(2), host(false, 7));

    let mut rr = RoundRobin::new(&mut hosts);

    assert_eq!(rr.get_host(&mut hosts), None);
}

#[test]
fn test_round_robin_empty_hosts() {
    let mut hosts = HostTable::new();
    let mut rr = RoundRobin::new(&mut hosts);

    assert_eq!(rr.get_host(&mut hosts), None);
}

#[test]
fn round_robin_peek_does_not_move() {
    let mut hosts = healthy_hosts();
    let mut rr = RoundRobin::new(&mut hosts);
    assert_eq!(rr.peek(&hosts), Some(make_addr(2)));
    assert_eq!(rr.peek(&hosts), Some(make_addr(2)));
    assert_eq!(rr.get_host(&mut hosts), Some(make_addr(2)));
    assert_eq!(rr.peek(&hosts), Some(make_addr(3)));
    let copy = rr.clone();
    assert_eq!(copy.peek(&hosts), Some(make_addr(3)));
}

#[test]
fn round_robin_default_has_no_hosts() {
    let mut rr = RoundRobin::default();
    let mut hosts = healthy_hosts();
    assert_eq!(rr.get_host(&mut hosts), None);
    assert_eq!(rr.get_strategy(), Strategy::RoundRobin);
}

#[test]
fn test_choose_host_with_least_connections() {
    let mut hosts = HostTable::new();
    hosts.insert(make_addr(1), host(true, 5));
    hosts.insert(make_addr(2), host(true, 2));
    hosts.insert(make_addr(3), host(true, 7));

    let mut lb = LeastConnections;
    let chosen = lb.get_host(&mut hosts);

    assert_eq!(chosen, Some(make_addr(2)));
}

#[test]
fn test_skip_unhealthy_hosts() {
    let mut hosts = HostTable::new();
    hosts.insert(make_addr(1), host(false, 0));
    hosts.insert(make_addr(2), host(true, 10));

    let mut lb = LeastConnections;
    let chosen = lb.get_host(&mut hosts);

    assert_eq!(chosen, Some(make_addr(2)));
}

#[test]
fn test_all_unhealthy_returns_none() {
    let mut hosts = HostTable::new();
    hosts.insert(make_addr(1), host(false, 1));
    hosts.insert(make_addr(2), host(false, 5));

    let mut lb = LeastConnections;
    let chosen = lb.get_host(&mut hosts);

    assert_eq!(chosen, None);
}

#[test]
fn test_empty_hosts_returns_none() {
    let mut hosts = HostTable::new();

    let mut lb = LeastConnections;
    let chosen = lb.get_host(&mut hosts);

    assert_eq!(chosen, None);
}

#[test]
fn test_tie_returns_one_of_min_hosts() {
    let mut hosts = HostTable::new();
    let h1 = make_addr(1);
    let h2 = make_addr(2);

    hosts.insert(h1, host(true, 3));
    hosts.insert(h2, host(true, 3));

    let mut lb = LeastConnections;
    let chosen = lb.get_host(&mut hosts);

    assert!(chosen == Some(h1) || chosen == Some(h2));
}

#[test]
fn least_connections_reports_its_strategy() {
    let mut lb = LeastConnections::default();
    assert_eq!(lb.get_strategy(), Strategy::LeastConnections);
}

#[test]
fn strategy_names_round_trip() {
    for s in [Strategy::RoundRobin, Strategy::LeastConnections] {
        assert_eq!(Strategy::from_name(s.as_ref()), Some(s));
    }
    assert_eq!(Strategy::RoundRobin.as_ref(), "RoundRobin");
    assert_eq!(Strategy::LeastConnections.as_ref(), "LeastConnections");
    assert_eq!(Strategy::from_name("roundrobin"), None);
    assert_eq!(Strategy::from_name(""), None);
    assert_eq!(Strategy::from_name("EWMA"), None);
}
