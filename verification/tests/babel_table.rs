use wren::babel::METRIC_INFINITY;
use wren::babel::table::{BabelEvent, RouteTable, add_metric, seqno_newer};
use wren::net::{IpAddr, Ipv4Addr, Ipv6Addr, Prefix};

fn v4_of(s: &str) -> Ipv4Addr {
    let o: Vec<u8> = s.split('.').map(|x| x.parse().unwrap()).collect();
    Ipv4Addr::new(o[0], o[1], o[2], o[3])
}

fn v6_of(s: &str) -> Ipv6Addr {
    let words = |t: &str| -> Vec<u16> {
        t.split(':').filter(|w| !w.is_empty()).map(|w| u16::from_str_radix(w, 16).unwrap()).collect()
    };
    let (head, tail) = s.split_once("::").unwrap_or((s, ""));
    let (head, tail) = (words(head), words(tail));
    let mut octets = [0u8; 16];
    for (i, w) in head.iter().enumerate() {
        octets[2 * i..2 * i + 2].copy_from_slice(&w.to_be_bytes());
    }
    for (i, w) in tail.iter().enumerate() {
        let k = 16 - 2 * (tail.len() - i);
        octets[k..k + 2].copy_from_slice(&w.to_be_bytes());
    }
    Ipv6Addr::new(octets)
}

fn ip_of(s: &str) -> IpAddr {
    if s.contains(':') {
        IpAddr::V6(v6_of(s))
    } else {
        IpAddr::V4(v4_of(s))
    }
}

fn prefix_of(s: &str) -> Prefix {
    let (addr, len) = s.split_once('/').unwrap();
    Prefix::new(ip_of(addr), len.parse().unwrap()).unwrap()
}

fn pfx(s: &str) -> Prefix {
    prefix_of(s)
}
fn ip(s: &str) -> IpAddr {
    ip_of(s)
}
const RID: [u8; 8] = [1, 1, 1, 1, 1, 1, 1, 1];

#[test]
fn seqno_comparison_wraps() {
    assert!(seqno_newer(5, 4));
    assert!(!seqno_newer(4, 5));
    assert!(!seqno_newer(4, 4));
    assert!(seqno_newer(0, 65535));
    assert!(!seqno_newer(65535, 0));
}

#[test]
fn metric_addition_saturates() {
    assert_eq!(add_metric(100, 50), 150);
    assert_eq!(add_metric(METRIC_INFINITY, 1), METRIC_INFINITY);
    assert_eq!(add_metric(60000, 60000), METRIC_INFINITY);
}

#[test]
fn first_route_is_selected_and_sets_feasibility_distance() {
    let mut t = RouteTable::new();
    let ev = t.update(pfx("10.0.0.0/8"), RID, ip("fe80::1"), ip("fe80::1"), 1, 100, 10);
    assert_eq!(
        ev,
        Some(BabelEvent::Select {
            prefix: pfx("10.0.0.0/8"),
            next_hop: ip("fe80::1"),
            metric: 110,
        })
    );
    assert_eq!(t.selected(&pfx("10.0.0.0/8")), Some((ip("fe80::1"), 110)));
}

#[test]
fn worse_metric_same_seqno_is_infeasible() {
    let mut t = RouteTable::new();
    let dst = pfx("10.0.0.0/8");
    t.update(dst, RID, ip("fe80::1"), ip("fe80::1"), 1, 100, 0);
    let ev = t.update(dst, RID, ip("fe80::2"), ip("fe80::2"), 1, 150, 0);
    assert_eq!(ev, None);
    assert_eq!(t.selected(&dst), Some((ip("fe80::1"), 100)));
}

#[test]
fn newer_seqno_is_feasible_even_with_higher_metric() {
    let mut t = RouteTable::new();
    let dst = pfx("10.0.0.0/8");
    t.update(dst, RID, ip("fe80::1"), ip("fe80::1"), 1, 100, 0);
    let ev = t.update(dst, RID, ip("fe80::1"), ip("fe80::1"), 2, 150, 0);
    assert_eq!(
        ev,
        Some(BabelEvent::Select {
            prefix: dst,
            next_hop: ip("fe80::1"),
            metric: 150,
        })
    );
}

#[test]
fn lower_metric_neighbour_wins_then_loss_falls_back() {
    let mut t = RouteTable::new();
    let dst = pfx("203.0.113.0/24");
    t.update(dst, RID, ip("fe80::1"), ip("fe80::1"), 1, 100, 50);
    let ev = t.update(dst, RID, ip("fe80::2"), ip("fe80::2"), 2, 100, 10);
    assert!(matches!(ev, Some(BabelEvent::Select { next_hop, .. }) if next_hop == ip("fe80::2")));

    let evs = t.neighbour_lost(ip("fe80::2"));
    assert!(evs
        .iter()
        .any(|e| matches!(e, BabelEvent::Select { next_hop, .. } if *next_hop == ip("fe80::1"))));
}

#[test]
fn retraction_withdraws_the_prefix() {
    let mut t = RouteTable::new();
    let dst = pfx("10.0.0.0/8");
    t.update(dst, RID, ip("fe80::1"), ip("fe80::1"), 1, 100, 0);
    let ev = t.update(dst, RID, ip("fe80::1"), ip("fe80::1"), 1, METRIC_INFINITY, 0);
    assert_eq!(ev, Some(BabelEvent::Retract(dst)));
    assert!(t.is_empty());
}

#[test]
fn re_announcing_the_same_route_is_a_no_op() {
    let mut t = RouteTable::new();
    let dst = pfx("10.0.0.0/8");
    assert!(t
        .update(dst, RID, ip("fe80::1"), ip("fe80::1"), 1, 100, 10)
        .is_some());
    assert!(t
        .update(dst, RID, ip("fe80::1"), ip("fe80::1"), 1, 100, 10)
        .is_none());
}
