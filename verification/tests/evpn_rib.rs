use wren::bgp::attr::{AsPathSegment, Origin};
use wren::bgp::decision::Path;
use wren::bgp::evpn::{Esi, EvpnNlri, Rd};
use wren::bgp::evpn_rib::{
    EviChange, EviTable, EvpnRib, EvpnRibEvent, IpVrfChange, IpVrfTable, RemoteMac,
    auto_route_target, build_router_mac, router_mac,
};
use wren::net::{IpAddr, Ipv4Addr, Ipv6Addr, Prefix};

fn v4_of(s: &str) -> Ipv4Addr {
    let o: Vec<u8> = s.split('.').map(|x| x.parse().unwrap()).collect();
    Ipv4Addr::new(o[0], o[1], o[2], o[3])
}

fn v6_of(s: &str) -> Ipv6Addr {
    let words = |t: &str| -> Vec<u16> {
        t.split(':').filter(|w| !w.is_empty()).map(|w| u16::from_str_radix(w, 16).unwrap()).collect()
    };
    let (head, tail) = s.split_once("::").unwrap_or((s, ""));
    let (head, tail) = (words(head), words(tail));
    let mut octets = [0u8; 16];
    for (i, w) in head.iter().enumerate() {
        octets[2 * i..2 * i + 2].copy_from_slice(&w.to_be_bytes());
    }
    for (i, w) in tail.iter().enumerate() {
        let k = 16 - 2 * (tail.len() - i);
        octets[k..k + 2].copy_from_slice(&w.to_be_bytes());
    }
    Ipv6Addr::new(octets)
}

fn ip_of(s: &str) -> IpAddr {
    if s.contains(':') {
        IpAddr::V6(v6_of(s))
    } else {
        IpAddr::V4(v4_of(s))
    }
}

fn prefix_of(s: &str) -> Prefix {
    let (addr, len) = s.split_once('/').unwrap();
    Prefix::new(ip_of(addr), len.parse().unwrap()).unwrap()
}

fn ip(o: [u8; 4]) -> IpAddr {
    IpAddr::V4(Ipv4Addr { octets: o })
}

fn path(local_pref: u32, peer: [u8; 4], rts: Vec<[u8; 8]>) -> Path {
    Path {
        origin: Origin::Igp,
        as_path: vec![AsPathSegment::Sequence(vec![65001])],
        next_hop: ip(peer),
        next_hop_iface: None,
        local_pref,
        med: 0,
        from_ebgp: true,
        from_confed: false,
        peer_as: 65001,
        igp_metric: 10,
        peer_id: Ipv4Addr { octets: peer },
        peer_addr: ip(peer),
        from_client: false,
        originator_id: None,
        cluster_list: vec![],
        communities: vec![],
        large_communities: vec![],
        ext_communities: rts,
        srv6_sid: None,
    }
}

fn mac_route(rd_val: u16, mac_last: u8, vni: u32) -> EvpnNlri {
    EvpnNlri::MacIp {
        rd: Rd::from_ip(Ipv4Addr::new(192, 0, 2, rd_val as u8), rd_val),
        esi: Esi::zero(),
        eth_tag: 0,
        mac: [0x02, 0, 0, 0, 0, mac_last],
        ip: None,
        label1: vni,
        label2: None,
    }
}

fn prefix_route(rd_val: u16, prefix: &str, vni: u32, gw: IpAddr) -> EvpnNlri {
    EvpnNlri::IpPrefix {
        rd: Rd::from_ip(Ipv4Addr::new(192, 0, 2, rd_val as u8), rd_val),
        esi: Esi::zero(),
        eth_tag: 0,
        prefix: prefix_of(prefix),
        gw,
        label: vni,
    }
}

fn irb_path(peer: [u8; 4], pe_mac: [u8; 6]) -> Path {
    let mut p = path(100, peer, vec![RT]);
    p.ext_communities.push(build_router_mac(pe_mac));
    p
}

#[test]
fn ip_vrf_imports_type5_prefixes_and_normalises_the_gateway() {
    let mut vrf = IpVrfTable::new(vec![RT]);
    let pe_mac = [0x02, 0xAA, 0, 0, 0, 0x01];
    let unspecified: IpAddr = IpAddr::V4(Ipv4Addr::new(0, 0, 0, 0));

    let nlri = prefix_route(1, "10.20.0.0/24", 50100, unspecified);
    let change = vrf.apply(&EvpnRibEvent::Best {
        nlri: nlri.clone(),
        path: irb_path([10, 0, 0, 1], pe_mac),
    });
    let entry = match change {
        Some(IpVrfChange::PrefixLearned { ref entry, .. }) => entry.clone(),
        other => panic!("expected the prefix to be learned, got {other:?}"),
    };
    assert_eq!(entry.vtep, ip([10, 0, 0, 1]));
    assert_eq!(entry.vni, 50100, "the L3 VNI, not an L2 one");
    assert_eq!(entry.gw, None, "an unspecified gateway is not a next hop");
    assert_eq!(entry.router_mac, Some(pe_mac));

    let with_gw = prefix_route(1, "10.30.0.0/24", 50100, ip([10, 20, 0, 254]));
    vrf.apply(&EvpnRibEvent::Best {
        nlri: with_gw,
        path: irb_path([10, 0, 0, 1], pe_mac),
    });
    let e = vrf.lookup(&prefix_of("10.30.0.0/24")).expect("known");
    assert_eq!(e.gw, Some(ip([10, 20, 0, 254])));

    let mut other = IpVrfTable::new(vec![[0x00, 0x02, 0, 1, 0, 0, 0, 9]]);
    assert_eq!(
        other.apply(&EvpnRibEvent::Best {
            nlri: nlri.clone(),
            path: irb_path([10, 0, 0, 1], pe_mac)
        }),
        None
    );

    assert_eq!(
        vrf.apply(&EvpnRibEvent::Best {
            nlri: mac_route(1, 0x01, 10100),
            path: irb_path([10, 0, 0, 1], pe_mac)
        }),
        None
    );
}

#[test]
fn a_foreign_rds_withdrawal_does_not_tear_down_the_prefix() {
    let mut vrf = IpVrfTable::new(vec![RT]);
    let pe_mac = [0x02, 0xAA, 0, 0, 0, 0x01];
    let mine = prefix_route(1, "10.20.0.0/24", 50100, IpAddr::V4(Ipv4Addr::new(0, 0, 0, 0)));
    let theirs = prefix_route(2, "10.20.0.0/24", 50100, IpAddr::V4(Ipv4Addr::new(0, 0, 0, 0)));

    vrf.apply(&EvpnRibEvent::Best {
        nlri: mine.clone(),
        path: irb_path([10, 0, 0, 1], pe_mac),
    });
    assert_eq!(vrf.apply(&EvpnRibEvent::Withdrawn(theirs)), None);
    assert!(vrf.lookup(&prefix_of("10.20.0.0/24")).is_some());

    assert_eq!(
        vrf.apply(&EvpnRibEvent::Withdrawn(mine)),
        Some(IpVrfChange::PrefixForgotten {
            prefix: prefix_of("10.20.0.0/24")
        })
    );
    assert!(vrf.lookup(&prefix_of("10.20.0.0/24")).is_none());
}

fn mm_ec(seq: u32, sticky: bool) -> [u8; 8] {
    let s = seq.to_be_bytes();
    [0x06, 0x00, if sticky { 0x01 } else { 0 }, 0, s[0], s[1], s[2], s[3]]
}

fn mob_path(peer: [u8; 4], seq: u32, sticky: bool) -> Path {
    let mut p = path(100, peer, vec![RT]);
    p.ext_communities.push(mm_ec(seq, sticky));
    p
}

#[test]
fn routers_mac_community_round_trips_and_reaches_the_imported_entry() {
    let pe_mac = [0x02, 0xAA, 0xBB, 0xCC, 0xDD, 0xEE];
    let ec = build_router_mac(pe_mac);
    assert_eq!(ec, [0x06, 0x03, 0x02, 0xAA, 0xBB, 0xCC, 0xDD, 0xEE]);

    let mut p = path(100, [10, 0, 0, 1], vec![RT]);
    p.ext_communities.push(ec);
    assert_eq!(router_mac(&p), Some(pe_mac));

    let mut evi = EviTable::new(vec![RT]);
    evi.apply(&EvpnRibEvent::Best {
        nlri: mac_route(1, 0x01, 10100),
        path: p,
    });
    let entry = evi.lookup_mac(0, [0x02, 0, 0, 0, 0, 0x01]).expect("imported");
    assert_eq!(entry.router_mac, Some(pe_mac));
}

#[test]
fn a_route_without_the_routers_mac_community_carries_none() {
    assert_eq!(router_mac(&path(100, [10, 0, 0, 1], vec![RT])), None);
    assert_eq!(router_mac(&mob_path([10, 0, 0, 1], 7, false)), None);
}

#[test]
fn mac_mobility_higher_sequence_wins_and_stale_is_ignored() {
    let mut evi = EviTable::new(vec![RT]);
    let mac = [0x02, 0, 0, 0, 0, 0x01];
    let a = mac_route(1, 0x01, 10100);
    let b = mac_route(2, 0x01, 10100);

    let _ = evi.apply(&EvpnRibEvent::Best { nlri: a.clone(), path: mob_path([10, 0, 0, 1], 0, false) });
    assert_eq!(evi.lookup_mac(0, mac).unwrap().vtep, ip([10, 0, 0, 1]));

    assert!(evi
        .apply(&EvpnRibEvent::Best { nlri: b, path: mob_path([10, 0, 0, 2], 1, false) })
        .is_some());
    assert_eq!(evi.lookup_mac(0, mac).unwrap().vtep, ip([10, 0, 0, 2]));

    assert!(evi
        .apply(&EvpnRibEvent::Best { nlri: a, path: mob_path([10, 0, 0, 1], 0, false) })
        .is_none());
    assert_eq!(evi.lookup_mac(0, mac).unwrap().vtep, ip([10, 0, 0, 2]));
}

#[test]
fn mac_mobility_sticky_mac_is_not_hijacked() {
    let mut evi = EviTable::new(vec![RT]);
    let mac = [0x02, 0, 0, 0, 0, 0x01];
    let _ = evi.apply(&EvpnRibEvent::Best {
        nlri: mac_route(1, 0x01, 10100),
        path: mob_path([10, 0, 0, 1], 0, true),
    });
    assert!(evi
        .apply(&EvpnRibEvent::Best {
            nlri: mac_route(2, 0x01, 10100),
            path: mob_path([10, 0, 0, 2], 5, false),
        })
        .is_none());
    assert_eq!(evi.lookup_mac(0, mac).unwrap().vtep, ip([10, 0, 0, 1]));
}

fn imet(rd_val: u16, orig: [u8; 4]) -> EvpnNlri {
    EvpnNlri::Imet {
        rd: Rd::from_ip(Ipv4Addr::new(192, 0, 2, rd_val as u8), rd_val),
        eth_tag: 0,
        orig_ip: ip(orig),
    }
}

const RT: [u8; 8] = [0x00, 0x02, 0xfd, 0xe9, 0, 0, 0x27, 0x74];

#[test]
fn auto_route_target_matches_as_vni() {
    assert_eq!(auto_route_target(65001, 10100), RT);
}

#[test]
fn evpn_rib_best_path_selection_and_fallback() {
    let mut rib = EvpnRib::new();
    let nlri = mac_route(1, 0x01, 10100);
    let p1 = ip([10, 0, 0, 1]);
    let p2 = ip([10, 0, 0, 2]);
    assert!(matches!(
        rib.update(p1, nlri.clone(), path(100, [10, 0, 0, 1], vec![RT])),
        Some(EvpnRibEvent::Best { .. })
    ));
    let ev = rib.update(p2, nlri.clone(), path(200, [10, 0, 0, 2], vec![RT]));
    assert!(matches!(ev, Some(EvpnRibEvent::Best { ref path, .. }) if path.peer_addr == p2));
    let ev = rib.withdraw(p2, nlri.clone()).unwrap();
    assert!(matches!(ev, EvpnRibEvent::Best { ref path, .. } if path.peer_addr == p1));
    assert_eq!(rib.withdraw(p1, nlri.clone()), Some(EvpnRibEvent::Withdrawn(nlri)));
    assert!(rib.is_empty());
}

#[test]
fn withdraw_peer_clears_only_its_routes() {
    let mut rib = EvpnRib::new();
    let p1 = ip([10, 0, 0, 1]);
    let p2 = ip([10, 0, 0, 2]);
    rib.update(p1, mac_route(1, 0x01, 10100), path(100, [10, 0, 0, 1], vec![RT]));
    rib.update(p2, mac_route(2, 0x02, 10100), path(100, [10, 0, 0, 2], vec![RT]));
    let evs = rib.withdraw_peer(p1);
    assert_eq!(evs.len(), 1);
    assert_eq!(rib.len(), 1);
}

#[test]
fn evi_imports_only_matching_rt() {
    let mut rib = EvpnRib::new();
    let mut evi = EviTable::new(vec![RT]);
    let peer = ip([10, 0, 0, 1]);

    let ev = rib
        .update(peer, mac_route(1, 0x01, 10100), path(100, [10, 0, 0, 1], vec![RT]))
        .unwrap();
    assert!(evi.apply(&ev).is_some());
    assert_eq!(
        evi.lookup_mac(0, [0x02, 0, 0, 0, 0, 0x01]),
        Some(&RemoteMac { vtep: peer, vni: 10100, ip: None, srv6_sid: None, router_mac: None })
    );

    let other_rt = auto_route_target(65001, 99);
    let ev = rib
        .update(peer, mac_route(1, 0x02, 99), path(100, [10, 0, 0, 1], vec![other_rt]))
        .unwrap();
    assert!(evi.apply(&ev).is_none());
    assert!(evi.lookup_mac(0, [0x02, 0, 0, 0, 0, 0x02]).is_none());
}

#[test]
fn evi_tracks_vtep_flood_set_from_imet() {
    let mut rib = EvpnRib::new();
    let mut evi = EviTable::new(vec![RT]);
    let peer = ip([10, 0, 0, 1]);
    let nlri = imet(1, [192, 0, 2, 1]);

    let ev = rib.update(peer, nlri.clone(), path(100, [10, 0, 0, 1], vec![RT])).unwrap();
    assert!(evi.apply(&ev).is_some());
    assert_eq!(evi.iter_vteps(), vec![ip([192, 0, 2, 1])]);

    let ev = rib.withdraw(peer, nlri).unwrap();
    assert!(evi.apply(&ev).is_some());
    assert_eq!(evi.iter_vteps().len(), 0);
}

#[test]
fn withdrawal_of_other_rd_does_not_steal_mac() {
    let mut evi = EviTable::new(vec![RT]);
    let a = mac_route(1, 0x01, 10100);
    let b = EvpnNlri::MacIp {
        rd: Rd::from_ip(Ipv4Addr::new(192, 0, 2, 2), 2),
        esi: Esi::zero(),
        eth_tag: 0,
        mac: [0x02, 0, 0, 0, 0, 0x01],
        ip: None,
        label1: 10100,
        label2: None,
    };
    let _ = evi.apply(&EvpnRibEvent::Best { nlri: a.clone(), path: path(100, [10, 0, 0, 1], vec![RT]) });
    let _ = evi.apply(&EvpnRibEvent::Best { nlri: b.clone(), path: path(100, [10, 0, 0, 2], vec![RT]) });
    assert!(evi.apply(&EvpnRibEvent::Withdrawn(a)).is_none());
    assert!(evi.lookup_mac(0, [0x02, 0, 0, 0, 0, 0x01]).is_some());
    assert!(evi.apply(&EvpnRibEvent::Withdrawn(b)).is_some());
    assert!(evi.lookup_mac(0, [0x02, 0, 0, 0, 0, 0x01]).is_none());
}

#[test]
fn rt_change_out_of_import_set_acts_as_withdraw() {
    let mut evi = EviTable::new(vec![RT]);
    let nlri = mac_route(1, 0x01, 10100);
    let _ = evi.apply(&EvpnRibEvent::Best { nlri: nlri.clone(), path: path(100, [10, 0, 0, 1], vec![RT]) });
    assert!(evi.lookup_mac(0, [0x02, 0, 0, 0, 0, 0x01]).is_some());
    let foreign = auto_route_target(65001, 99);
    let changed = evi.apply(&EvpnRibEvent::Best { nlri, path: path(100, [10, 0, 0, 1], vec![foreign]) });
    assert!(changed.is_some());
    assert!(evi.lookup_mac(0, [0x02, 0, 0, 0, 0, 0x01]).is_none());
}

#[test]
fn apply_reports_precise_forwarding_deltas() {
    let mut evi = EviTable::new(vec![RT]);
    let peer = ip([10, 0, 0, 1]);

    let mac = [0x02, 0, 0, 0, 0, 0x01];
    let ev = EvpnRibEvent::Best {
        nlri: mac_route(1, 0x01, 10100),
        path: path(100, [10, 0, 0, 1], vec![RT]),
    };
    assert_eq!(
        evi.apply(&ev),
        Some(EviChange::MacLearned {
            eth_tag: 0,
            mac,
            entry: RemoteMac { vtep: peer, vni: 10100, ip: None, srv6_sid: None, router_mac: None },
        })
    );
    assert_eq!(evi.apply(&ev), None);
    assert_eq!(
        evi.apply(&EvpnRibEvent::Withdrawn(mac_route(1, 0x01, 10100))),
        Some(EviChange::MacForgotten { eth_tag: 0, mac })
    );

    let imet_nlri = imet(1, [192, 0, 2, 1]);
    assert_eq!(
        evi.apply(&EvpnRibEvent::Best { nlri: imet_nlri.clone(), path: path(100, [10, 0, 0, 1], vec![RT]) }),
        Some(EviChange::VtepAdded { vtep: ip([192, 0, 2, 1]) })
    );
    assert_eq!(
        evi.apply(&EvpnRibEvent::Withdrawn(imet_nlri)),
        Some(EviChange::VtepRemoved { vtep: ip([192, 0, 2, 1]) })
    );
}
