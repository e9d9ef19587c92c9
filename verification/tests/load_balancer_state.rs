use load_balancer::services::hosts::HostAddr;
use load_balancer::services::load_balancer_state::LoadBalancerState;
use load_balancer::services::strategies::Strategy;
use load_balancer::utils::configuration::Config;

fn make_addr(octet: u8) -> HostAddr {
    HostAddr::v4(127, 0, 0, octet, 8080)
}

fn make_lb_with_round_robin() -> LoadBalancerState {
    let config = Config { hosts: vec![make_addr(1), make_addr(2), make_addr(3)] };
    LoadBalancerState::new(&config)
}

fn make_lb_with_least_connections() -> LoadBalancerState {
    let mut lb = make_lb_with_round_robin();
    assert!(lb.set_algorithm(Strategy::LeastConnections));
    lb
}

fn connections(lb: &LoadBalancerState, h: &HostAddr) -> u32 {
    lb.hosts().get(h).unwrap().open_connections
}

#[test]
fn new_state_holds_configured_hosts() {
    let config = Config { hosts: vec![make_addr(1), make_addr(2), make_addr(1)] };
    let lb = LoadBalancerState::new(&config);
    assert_eq!(lb.hosts().len(), 2);
    assert_eq!(lb.hosts().keys(), vec![make_addr(1), make_addr(2)]);
    assert_eq!(lb.strategy(), Strategy::RoundRobin);
    for h in lb.hosts().keys() {
        let s = lb.hosts().get(&h).unwrap();
        assert!(s.healthy);
        assert_eq!(s.open_connections, 0);
    }
}

#[test]
fn test_round_robin_get_host_increases_connections() {
    let mut lb = make_lb_with_round_robin();

    let h1 = lb.get_host().unwrap();
    assert_eq!(connections(&lb, &h1), 1);

    let h2 = lb.get_host().unwrap();
    assert_eq!(connections(&lb, &h2), 1);

    let h3 = lb.get_host().unwrap();
    assert_eq!(connections(&lb, &h3), 1);
}

#[test]
fn test_on_disconnect_decreases_connections() {
    let mut lb = make_lb_with_round_robin();

    let h1 = lb.get_host().unwrap();
    assert_eq!(connections(&lb, &h1), 1);

    lb.on_disconnect(&h1);
    assert_eq!(connections(&lb, &h1), 0);
}

#[test]
fn disconnect_of_unknown_host_changes_nothing() {
    let mut lb = make_lb_with_round_robin();
    let h = lb.get_host().unwrap();
    lb.on_disconnect(&make_addr(99));
    assert_eq!(connections(&lb, &h), 1);
}

#[test]
fn test_set_algorithm_switches_strategy() {
    let mut lb = make_lb_with_round_robin();
    assert!(lb.set_algorithm(Strategy::LeastConnections));
    assert_eq!(lb.strategy(), Strategy::LeastConnections);

    assert!(lb.get_host().is_some());
}

#[test]
fn set_algorithm_twice_switches_once() {
    let mut lb = make_lb_with_round_robin();
    assert!(!lb.set_algorithm(Strategy::RoundRobin));
    assert!(lb.set_algorithm(Strategy::LeastConnections));
    assert!(!lb.set_algorithm(Strategy::LeastConnections));
    assert!(lb.set_algorithm(Strategy::RoundRobin));
    // a fresh round robin starts over
    assert_eq!(lb.get_host(), Some(make_addr(2)));
}

#[test]
fn test_set_host_health_skips_unhealthy() {
    let mut lb = make_lb_with_least_connections();
    let h1 = make_addr(1);

    lb.set_host_health(&h1, false);

    for _ in 0..5 {
        let chosen = lb.get_host().unwrap();
        assert_ne!(chosen, h1);
    }
}

#[test]
fn set_host_health_touches_only_that_host() {
    let mut lb = make_lb_with_round_robin();
    lb.set_host_health(&make_addr(2), false);
    assert!(!lb.hosts().get(&make_addr(2)).unwrap().healthy);
    assert!(lb.hosts().get(&make_addr(1)).unwrap().healthy);
    assert!(lb.hosts().get(&make_addr(3)).unwrap().healthy);
    lb.set_host_health(&make_addr(42), false);
    assert_eq!(lb.hosts().len(), 3);
    lb.set_host_health(&make_addr(2), true);
    assert!(lb.hosts().get(&make_addr(2)).unwrap().healthy);
}

#[test]
fn test_get_host_returns_none_if_all_unhealthy() {
    let mut lb = make_lb_with_round_robin();
    for host in lb.hosts().keys() {
        lb.set_host_health(&host, false);
    }

    assert_eq!(lb.get_host(), None);
    assert!(lb.set_algorithm(Strategy::LeastConnections));
    assert_eq!(lb.get_host(), None);
}

#[test]
fn least_connections_balances_picks() {
    let mut lb = make_lb_with_least_connections();
    for _ in 0..30 {
        lb.get_host().unwrap();
    }
    for h in lb.hosts().keys() {
        assert_eq!(connections(&lb, &h), 10);
    }
}

#[test]
fn test_is_worker_overloaded_detects_outlier() {
    let mut lb = make_lb_with_least_connections();

    for _ in 0..30 {
        lb.get_host().unwrap();
    }
    assert!(!lb.is_worker_overloaded());

    let first_host = lb.hosts().keys()[0];
    for h in lb.hosts().keys() {
        if h != first_host {
            lb.set_host_health(&h, false);
        }
    }
    for _ in 0..990 {
        assert_eq!(lb.get_host(), Some(first_host));
    }
    assert_eq!(connections(&lb, &first_host), 1000);

    assert!(lb.is_worker_overloaded());
}

#[test]
fn pick_fits_while_connections_are_low() {
    let mut lb = make_lb_with_round_robin();
    assert!(lb.pick_fits());
    lb.get_host();
    assert!(lb.pick_fits());
    let mut lc = make_lb_with_least_connections();
    assert!(lc.pick_fits());
    lc.get_host();
    assert!(lc.pick_fits());
}

#[test]
fn empty_state_picks_nothing_and_is_not_overloaded() {
    let mut lb = LoadBalancerState::new(&Config { hosts: vec![] });
    assert!(lb.pick_fits());
    assert_eq!(lb.get_host(), None);
    assert!(!lb.is_worker_overloaded());
}

#[test]
fn least_connections_breaks_ties_in_table_order() {
    let mut lb = make_lb_with_least_connections();
    assert_eq!(lb.get_host(), Some(make_addr(1)));
    assert_eq!(lb.get_host(), Some(make_addr(2)));
    assert_eq!(lb.get_host(), Some(make_addr(3)));
    lb.on_disconnect(&make_addr(2));
    assert_eq!(lb.get_host(), Some(make_addr(2)));
}

#[test]
fn round_robin_state_cycles_through_hosts() {
    let mut lb = make_lb_with_round_robin();
    let picks: Vec<HostAddr> = (0..6).map(|_| lb.get_host().unwrap()).collect();
    assert_eq!(
        picks,
        vec![make_addr(2), make_addr(3), make_addr(1), make_addr(2), make_addr(3), make_addr(1)]
    );
    for h in lb.hosts().keys() {
        assert_eq!(connections(&lb, &h), 2);
    }
}

#[test]
fn round_robin_serves_every_healthy_host_with_some_down() {
    let config = Config { hosts: (1..=5).map(make_addr).collect() };
    let mut lb = LoadBalancerState::new(&config);
    lb.set_host_health(&make_addr(2), false);
    lb.set_host_health(&make_addr(4), false);
    for _ in 0..7 {
        let picks: Vec<HostAddr> = (0..5).map(|_| lb.get_host().unwrap()).collect();
        for h in [make_addr(1), make_addr(3), make_addr(5)] {
            assert!(picks.contains(&h));
        }
        assert!(!picks.contains(&make_addr(2)));
        assert!(!picks.contains(&make_addr(4)));
    }
}
