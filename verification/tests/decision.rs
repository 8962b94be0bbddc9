use wren::bgp::attr::{AsPathSegment, Origin};
use wren::bgp::decision::{DEFAULT_LOCAL_PREF, Path, best_path, is_better};
use wren::net::{IpAddr, Ipv4Addr, Ipv6Addr, Prefix};
use wren::route::{NextHop, Protocol};

fn v4_of(s: &str) -> Ipv4Addr {
    let o: Vec<u8> = s.split('.').map(|x| x.parse().unwrap()).collect();
    Ipv4Addr::new(o[0], o[1], o[2], o[3])
}

fn v6_of(s: &str) -> Ipv6Addr {
    let words = |t: &str| -> Vec<u16> {
        t.split(':').filter(|w| !w.is_empty()).map(|w| u16::from_str_radix(w, 16).unwrap()).collect()
    };
    let (head, tail) = s.split_once("::").unwrap_or((s, ""));
    let (head, tail) = (words(head), words(tail));
    let mut octets = [0u8; 16];
    for (i, w) in head.iter().enumerate() {
        octets[2 * i..2 * i + 2].copy_from_slice(&w.to_be_bytes());
    }
    for (i, w) in tail.iter().enumerate() {
        let k = 16 - 2 * (tail.len() - i);
        octets[k..k + 2].copy_from_slice(&w.to_be_bytes());
    }
    Ipv6Addr::new(octets)
}

fn ip_of(s: &str) -> IpAddr {
    if s.contains(':') {
        IpAddr::V6(v6_of(s))
    } else {
        IpAddr::V4(v4_of(s))
    }
}

fn prefix_of(s: &str) -> Prefix {
    let (addr, len) = s.split_once('/').unwrap();
    Prefix::new(ip_of(addr), len.parse().unwrap()).unwrap()
}

fn ip(o: [u8; 4]) -> Ipv4Addr {
    Ipv4Addr { octets: o }
}

fn base() -> Path {
    Path {
        origin: Origin::Igp,
        as_path: vec![AsPathSegment::Sequence(vec![65001, 65002])],
        next_hop: IpAddr::V4(ip([192, 0, 2, 1])),
        next_hop_iface: None,
        local_pref: DEFAULT_LOCAL_PREF,
        med: 0,
        from_ebgp: true,
        from_confed: false,
        peer_as: 65001,
        igp_metric: 10,
        peer_id: ip([10, 0, 0, 1]),
        peer_addr: IpAddr::V4(ip([10, 0, 0, 1])),
        from_client: false,
        originator_id: None,
        cluster_list: vec![],
        communities: vec![],
        large_communities: vec![],
        ext_communities: vec![],
        srv6_sid: None,
    }
}

#[test]
fn as_path_length_counts_sequences_and_sets() {
    let p = Path {
        as_path: vec![
            AsPathSegment::Sequence(vec![1, 2, 3]),
            AsPathSegment::AsSet(vec![10, 11, 12]),
        ],
        ..base()
    };
    assert_eq!(p.as_path_len(), 4);
}

#[test]
fn as_path_length_excludes_confederation_segments() {
    let p = Path {
        as_path: vec![
            AsPathSegment::ConfedSequence(vec![65001, 65002]),
            AsPathSegment::ConfedSet(vec![65003]),
            AsPathSegment::Sequence(vec![64500, 64501]),
        ],
        ..base()
    };
    assert_eq!(p.as_path_len(), 2);
}

#[test]
fn local_pref_wins_first() {
    let hi = Path { local_pref: 200, ..base() };
    let lo = Path {
        local_pref: 100,
        as_path: vec![AsPathSegment::Sequence(vec![65001])],
        origin: Origin::Igp,
        ..base()
    };
    assert!(is_better(&hi, &lo));
    assert!(!is_better(&lo, &hi));
}

#[test]
fn shorter_as_path_then_origin() {
    let short = Path { as_path: vec![AsPathSegment::Sequence(vec![65001])], ..base() };
    let long = Path { as_path: vec![AsPathSegment::Sequence(vec![65001, 65002, 65003])], ..base() };
    assert!(is_better(&short, &long));

    let igp = Path { origin: Origin::Igp, ..base() };
    let inc = Path { origin: Origin::Incomplete, ..base() };
    assert!(is_better(&igp, &inc));
}

#[test]
fn med_compared_only_within_same_peer_as() {
    let lo_med = Path { med: 50, peer_as: 65001, ..base() };
    let hi_med = Path { med: 100, peer_as: 65001, ..base() };
    assert!(is_better(&lo_med, &hi_med));

    let a = Path { med: 100, peer_as: 65001, ..base() };
    let b = Path { med: 50, peer_as: 65002, ..base() };
    assert!(!(is_better(&a, &b) && is_better(&b, &a)));
}

#[test]
fn ebgp_preferred_over_ibgp() {
    let ebgp = Path { from_ebgp: true, ..base() };
    let ibgp = Path { from_ebgp: false, ..base() };
    assert!(is_better(&ebgp, &ibgp));
}

#[test]
fn igp_metric_then_router_id_tie_breaks() {
    let near = Path { igp_metric: 5, ..base() };
    let far = Path { igp_metric: 50, ..base() };
    assert!(is_better(&near, &far));

    let lo = Path { peer_id: ip([10, 0, 0, 1]), ..base() };
    let hi = Path { peer_id: ip([10, 0, 0, 9]), ..base() };
    assert!(is_better(&lo, &hi));
}

#[test]
fn shorter_cluster_list_breaks_the_tie_before_router_id() {
    let short = Path { cluster_list: vec![ip([1, 1, 1, 1])], peer_id: ip([10, 0, 0, 9]), ..base() };
    let long = Path {
        cluster_list: vec![ip([1, 1, 1, 1]), ip([2, 2, 2, 2])],
        peer_id: ip([10, 0, 0, 1]),
        ..base()
    };
    assert!(is_better(&short, &long));
    assert!(!is_better(&long, &short));
}

#[test]
fn best_path_picks_the_winner() {
    let paths = vec![
        Path { local_pref: 100, ..base() },
        Path { local_pref: 300, peer_id: ip([10, 0, 0, 5]), ..base() },
        Path { local_pref: 200, ..base() },
    ];
    assert_eq!(best_path(&paths), Some(1));
    assert_eq!(best_path(&[]), None);
}

#[test]
fn to_route_is_bgp_with_next_hop() {
    let p = base();
    let route = p.to_route(prefix_of("203.0.113.0/24"));
    assert_eq!(route.protocol, Protocol::Bgp);
    assert_eq!(route.metric, 2);
    assert_eq!(route.nexthops, vec![NextHop::via(IpAddr::V4(ip([192, 0, 2, 1])))]);
}

#[test]
fn to_route_pins_a_link_local_next_hop_to_its_interface() {
    let p = Path {
        next_hop: IpAddr::V6(v6_of("fe80::1")),
        next_hop_iface: Some("eth0".into()),
        ..base()
    };
    let route = p.to_route(prefix_of("2001:db8:99::/64"));
    assert_eq!(
        route.nexthops,
        vec![NextHop::via_dev(IpAddr::V6(v6_of("fe80::1")), "eth0".to_string())]
    );
}
