use wren::bgp::attr::{AsPathSegment, Origin};
use wren::bgp::decision::{DEFAULT_LOCAL_PREF, Path};
use wren::bgp::rib::{BgpRib, RibEvent};
use wren::net::{IpAddr, Ipv4Addr, Ipv6Addr, Prefix};
use wren::route::NextHop;

fn v4_of(s: &str) -> Ipv4Addr {
    let o: Vec<u8> = s.split('.').map(|x| x.parse().unwrap()).collect();
    Ipv4Addr::new(o[0], o[1], o[2], o[3])
}

fn v6_of(s: &str) -> Ipv6Addr {
    let words = |t: &str| -> Vec<u16> {
        t.split(':').filter(|w| !w.is_empty()).map(|w| u16::from_str_radix(w, 16).unwrap()).collect()
    };
    let (head, tail) = s.split_once("::").unwrap_or((s, ""));
    let (head, tail) = (words(head), words(tail));
    let mut octets = [0u8; 16];
    for (i, w) in head.iter().enumerate() {
        octets[2 * i..2 * i + 2].copy_from_slice(&w.to_be_bytes());
    }
    for (i, w) in tail.iter().enumerate() {
        let k = 16 - 2 * (tail.len() - i);
        octets[k..k + 2].copy_from_slice(&w.to_be_bytes());
    }
    Ipv6Addr::new(octets)
}

fn ip_of(s: &str) -> IpAddr {
    if s.contains(':') {
        IpAddr::V6(v6_of(s))
    } else {
        IpAddr::V4(v4_of(s))
    }
}

fn prefix_of(s: &str) -> Prefix {
    let (addr, len) = s.split_once('/').unwrap();
    Prefix::new(ip_of(addr), len.parse().unwrap()).unwrap()
}

fn ip(o: [u8; 4]) -> IpAddr {
    IpAddr::V4(Ipv4Addr { octets: o })
}
fn id(o: [u8; 4]) -> Ipv4Addr {
    Ipv4Addr { octets: o }
}
fn pfx(s: &str) -> Prefix {
    prefix_of(s)
}

fn path(local_pref: u32, peer: [u8; 4]) -> Path {
    Path {
        origin: Origin::Igp,
        as_path: vec![AsPathSegment::Sequence(vec![65001])],
        next_hop: ip(peer),
        next_hop_iface: None,
        local_pref,
        med: 0,
        from_ebgp: true,
        from_confed: false,
        peer_as: 65001,
        igp_metric: 10,
        peer_id: id(peer),
        peer_addr: ip(peer),
        from_client: false,
        originator_id: None,
        cluster_list: vec![],
        communities: vec![],
        large_communities: vec![],
        ext_communities: vec![],
        srv6_sid: None,
    }
}

#[test]
fn first_path_is_selected_best() {
    let mut rib = BgpRib::new();
    let dst = pfx("10.0.0.0/8");
    let ev = rib.update(ip([10, 0, 0, 1]), dst, path(DEFAULT_LOCAL_PREF, [10, 0, 0, 1]));
    assert!(matches!(ev, Some(RibEvent::Best { prefix, .. }) if prefix == dst));
    assert!(rib.best(&dst).is_some());
    assert_eq!(rib.len(), 1);
}

#[test]
fn better_path_supersedes_and_withdraw_falls_back() {
    let mut rib = BgpRib::new();
    let dst = pfx("203.0.113.0/24");
    let p1 = ip([10, 0, 0, 1]);
    let p2 = ip([10, 0, 0, 2]);

    rib.update(p1, dst, path(100, [10, 0, 0, 1]));
    let ev = rib.update(p2, dst, path(200, [10, 0, 0, 2]));
    assert!(matches!(ev, Some(RibEvent::Best { ref path, .. }) if path.peer_addr == p2));

    assert!(rib.update(ip([10, 0, 0, 3]), dst, path(50, [10, 0, 0, 3])).is_none());

    let ev = rib.withdraw(p2, dst).unwrap();
    assert!(matches!(ev, RibEvent::Best { ref path, .. } if path.peer_addr == p1));
}

#[test]
fn last_withdraw_removes_the_prefix() {
    let mut rib = BgpRib::new();
    let dst = pfx("10.0.0.0/8");
    let peer = ip([10, 0, 0, 1]);
    rib.update(peer, dst, path(100, [10, 0, 0, 1]));
    assert_eq!(rib.withdraw(peer, dst), Some(RibEvent::Withdrawn(dst)));
    assert!(rib.is_empty());
    assert_eq!(rib.withdraw(peer, dst), None);
}

#[test]
fn re_announcing_the_same_path_is_a_no_op() {
    let mut rib = BgpRib::new();
    let dst = pfx("10.0.0.0/8");
    let peer = ip([10, 0, 0, 1]);
    assert!(rib.update(peer, dst, path(100, [10, 0, 0, 1])).is_some());
    assert!(rib.update(peer, dst, path(100, [10, 0, 0, 1])).is_none());
}

#[test]
fn prefixes_from_lists_a_peers_destinations() {
    let mut rib = BgpRib::new();
    let peer = ip([10, 0, 0, 1]);
    let other = ip([10, 0, 0, 2]);
    rib.update(peer, pfx("10.0.0.0/8"), path(100, [10, 0, 0, 1]));
    rib.update(peer, pfx("172.16.0.0/12"), path(100, [10, 0, 0, 1]));
    rib.update(other, pfx("192.168.0.0/16"), path(100, [10, 0, 0, 2]));
    let mut from_peer = rib.prefixes_from(peer);
    from_peer.sort();
    assert_eq!(from_peer, vec![pfx("10.0.0.0/8"), pfx("172.16.0.0/12")]);
    assert_eq!(rib.prefixes_from(other), vec![pfx("192.168.0.0/16")]);
    assert!(rib.prefixes_from(ip([9, 9, 9, 9])).is_empty());
}

fn hop(o: [u8; 4]) -> NextHop {
    NextHop::via(ip(o))
}

#[test]
fn multipath_installs_equal_cost_next_hops() {
    let mut rib = BgpRib::with_max_paths(2);
    let dst = pfx("10.99.0.0/24");
    let p1 = ip([10, 0, 0, 1]);
    let p2 = ip([10, 1, 0, 1]);

    let ev = rib.update(p1, dst, path(100, [10, 0, 0, 1])).unwrap();
    assert!(matches!(ev, RibEvent::Best { ref hops, .. } if hops.len() == 1));

    let ev = rib.update(p2, dst, path(100, [10, 1, 0, 1])).unwrap();
    match ev {
        RibEvent::Best { hops, .. } => {
            assert_eq!(hops.len(), 2);
            assert!(hops.contains(&hop([10, 0, 0, 1])));
            assert!(hops.contains(&hop([10, 1, 0, 1])));
        }
        _ => panic!("expected Best"),
    }

    let ev = rib.withdraw(p2, dst).unwrap();
    assert!(matches!(ev, RibEvent::Best { ref hops, .. } if hops.len() == 1));
}

#[test]
fn multipath_is_off_by_default() {
    let mut rib = BgpRib::new();
    let dst = pfx("10.99.0.0/24");
    let ev = rib.update(ip([10, 0, 0, 1]), dst, path(100, [10, 0, 0, 1])).unwrap();
    assert!(matches!(ev, RibEvent::Best { ref hops, .. } if hops.len() == 1));
    assert!(rib.update(ip([10, 1, 0, 1]), dst, path(100, [10, 1, 0, 1])).is_none());
}

#[test]
fn multipath_caps_at_max_paths() {
    let mut rib = BgpRib::with_max_paths(2);
    let dst = pfx("10.99.0.0/24");
    rib.update(ip([10, 0, 0, 1]), dst, path(100, [10, 0, 0, 1]));
    rib.update(ip([10, 1, 0, 1]), dst, path(100, [10, 1, 0, 1]));
    assert!(rib.update(ip([10, 2, 0, 1]), dst, path(100, [10, 2, 0, 1])).is_none());
    assert_eq!(rib.hops(&dst).map(|h| h.len()), Some(2));
}

#[test]
fn add_path_keeps_two_paths_from_one_peer() {
    let mut rib = BgpRib::new();
    let dst = pfx("10.50.0.0/24");
    let peer = ip([10, 0, 0, 1]);
    rib.update_with_id(peer, 1, dst, path(100, [10, 0, 0, 1]));
    rib.update_with_id(peer, 2, dst, path(200, [10, 0, 0, 2]));
    assert_eq!(rib.paths(&dst).len(), 2);
    assert_eq!(rib.best(&dst).unwrap().local_pref, 200);
    let ev = rib.withdraw_with_id(peer, 2, dst).unwrap();
    assert!(matches!(ev, RibEvent::Best { ref path, .. } if path.local_pref == 100));
    assert_eq!(rib.paths(&dst).len(), 1);
}

#[test]
fn withdraw_peer_clears_all_its_prefixes() {
    let mut rib = BgpRib::new();
    let peer = ip([10, 0, 0, 1]);
    let other = ip([10, 0, 0, 2]);
    rib.update(peer, pfx("10.0.0.0/8"), path(200, [10, 0, 0, 1]));
    rib.update(peer, pfx("172.16.0.0/12"), path(200, [10, 0, 0, 1]));
    rib.update(other, pfx("172.16.0.0/12"), path(100, [10, 0, 0, 2]));

    let events = rib.withdraw_peer(peer);
    assert!(events.contains(&RibEvent::Withdrawn(pfx("10.0.0.0/8"))));
    assert!(events
        .iter()
        .any(|e| matches!(e, RibEvent::Best { prefix, path, .. } if *prefix == pfx("172.16.0.0/12") && path.peer_addr == other)));
    assert_eq!(rib.len(), 1);
}
