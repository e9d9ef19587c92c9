use load_balancer::services::hosts::HostAddr;
use load_balancer::services::load_balancer_strategy::{Algorithm, RoundRobin};

fn make_addr(octet: u8) -> HostAddr {
    HostAddr::v4(127, 0, 0, octet, 8080)
}

#[test]
fn plain_round_robin_wraps_around() {
    let hosts = vec![make_addr(1), make_addr(2), make_addr(3)];
    let mut rr = RoundRobin::default();
    assert_eq!(rr.get_host(&hosts), make_addr(2));
    assert_eq!(rr.get_host(&hosts), make_addr(3));
    assert_eq!(rr.get_host(&hosts), make_addr(1));
    let mut copy = rr.clone();
    assert_eq!(copy.get_host(&hosts), make_addr(2));
    assert_eq!(rr.get_host(&hosts), make_addr(2));
}

#[test]
fn plain_round_robin_follows_a_shorter_list() {
    let mut rr = RoundRobin::default();
    let long = vec![make_addr(1), make_addr(2), make_addr(3)];
    rr.get_host(&long);
    rr.get_host(&long);
    let short = vec![make_addr(7)];
    assert_eq!(rr.get_host(&short), make_addr(7));
}
