use load_balancer::services::hosts::{HostAddr, HostIp, HostStatus, HostTable};

fn make_addr(octet: u8) -> HostAddr {
    HostAddr::v4(127, 0, 0, octet, 8080)
}

#[test]
fn v4_address_packs_octets() {
    let a = HostAddr::v4(127, 0, 0, 1, 8080);
    assert_eq!(a.ip, HostIp::V4(0x7f00_0001));
    assert_eq!(a.port, 8080);
    let b = HostAddr::v4(10, 1, 2, 3, 80);
    assert_eq!(b.ip, HostIp::V4((10 << 24) | (1 << 16) | (2 << 8) | 3));
}

#[test]
fn new_host_is_healthy_and_idle() {
    let s = HostStatus::new();
    assert!(s.healthy);
    assert_eq!(s.open_connections, 0);
    let d = HostStatus::default();
    assert!(!d.healthy);
    assert_eq!(d.open_connections, 0);
}

#[test]
fn table_insert_get_replace() {
    let mut t = HostTable::new();
    assert_eq!(t.len(), 0);
    t.insert(make_addr(1), HostStatus::new());
    t.insert(make_addr(2), HostStatus { healthy: false, open_connections: 3 });
    assert_eq!(t.len(), 2);
    assert_eq!(t.get(&make_addr(2)), Some(HostStatus { healthy: false, open_connections: 3 }));
    assert_eq!(t.get(&make_addr(3)), None);
    assert!(t.contains_key(&make_addr(1)));
    assert!(!t.contains_key(&make_addr(3)));

    // inserting an address again replaces its row
    t.insert(make_addr(1), HostStatus { healthy: true, open_connections: 7 });
    assert_eq!(t.len(), 2);
    assert_eq!(t.get(&make_addr(1)).unwrap().open_connections, 7);

    // replacing an absent address does nothing
    t.replace(&make_addr(9), HostStatus::new());
    assert_eq!(t.len(), 2);
    t.replace(&make_addr(2), HostStatus::new());
    assert_eq!(t.get(&make_addr(2)), Some(HostStatus::new()));

    assert_eq!(t.keys(), vec![make_addr(1), make_addr(2)]);
    assert_eq!(t.entry(1).addr, make_addr(2));
}
