use wren::babel::METRIC_INFINITY;
use wren::babel::neighbor::{NOMINAL_RXCOST, NeighbourTable};
use wren::net::{IpAddr, Ipv4Addr, Ipv6Addr};

fn v4_of(s: &str) -> Ipv4Addr {
    let o: Vec<u8> = s.split('.').map(|x| x.parse().unwrap()).collect();
    Ipv4Addr::new(o[0], o[1], o[2], o[3])
}

fn v6_of(s: &str) -> Ipv6Addr {
    let words = |t: &str| -> Vec<u16> {
        t.split(':').filter(|w| !w.is_empty()).map(|w| u16::from_str_radix(w, 16).unwrap()).collect()
    };
    let (head, tail) = s.split_once("::").unwrap_or((s, ""));
    let (head, tail) = (words(head), words(tail));
    let mut octets = [0u8; 16];
    for (i, w) in head.iter().enumerate() {
        octets[2 * i..2 * i + 2].copy_from_slice(&w.to_be_bytes());
    }
    for (i, w) in tail.iter().enumerate() {
        let k = 16 - 2 * (tail.len() - i);
        octets[k..k + 2].copy_from_slice(&w.to_be_bytes());
    }
    Ipv6Addr::new(octets)
}

fn ip_of(s: &str) -> IpAddr {
    if s.contains(':') {
        IpAddr::V6(v6_of(s))
    } else {
        IpAddr::V4(v4_of(s))
    }
}

fn ip(s: &str) -> IpAddr {
    ip_of(s)
}

#[test]
fn two_of_three_hellos_bring_rxcost_finite() {
    let mut t = NeighbourTable::new();
    let n = ip("fe80::1");
    t.on_hello(n, 1, 0);
    assert_eq!(t.rxcost(&n), METRIC_INFINITY);
    t.on_hello(n, 2, 1);
    assert_eq!(t.rxcost(&n), NOMINAL_RXCOST);
}

#[test]
fn cost_needs_an_ihu_for_txcost() {
    let mut t = NeighbourTable::new();
    let n = ip("fe80::1");
    t.on_hello(n, 1, 0);
    t.on_hello(n, 2, 1);
    assert_eq!(t.cost(&n), METRIC_INFINITY);
    t.on_ihu(n, 96, 2);
    assert_eq!(t.cost(&n), 96);
}

#[test]
fn a_missed_hello_drops_the_link() {
    let mut t = NeighbourTable::new();
    let n = ip("fe80::1");
    t.on_hello(n, 1, 0);
    t.on_hello(n, 2, 1);
    assert_eq!(t.rxcost(&n), NOMINAL_RXCOST);
    t.on_hello(n, 5, 2);
    assert_eq!(t.rxcost(&n), METRIC_INFINITY);
}

#[test]
fn reordered_seqno_resyncs() {
    let mut t = NeighbourTable::new();
    let n = ip("fe80::1");
    t.on_hello(n, 10, 0);
    t.on_hello(n, 11, 1);
    assert_eq!(t.rxcost(&n), NOMINAL_RXCOST);
    t.on_hello(n, 1, 2);
    assert_eq!(t.rxcost(&n), METRIC_INFINITY);
}

#[test]
fn stale_ihu_makes_cost_infinite_then_hello_timeout_drops_neighbour() {
    let mut t = NeighbourTable::new();
    let n = ip("fe80::1");
    t.on_hello(n, 1, 0);
    t.on_hello(n, 2, 1);
    t.on_ihu(n, 96, 1);
    assert_eq!(t.cost(&n), 96);

    let dead = t.expire(10, 20, 5);
    assert!(dead.is_empty());
    assert!(t.contains(&n));
    assert_eq!(t.cost(&n), METRIC_INFINITY);

    let dead = t.expire(30, 20, 5);
    assert_eq!(dead, vec![n]);
    assert!(t.is_empty());
}
