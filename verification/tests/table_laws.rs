use wren::bgp::attr::{AsPathSegment, Origin};
use wren::bgp::decision::{best_path, is_better, multipath_eligible, Path};
use wren::bgp::evpn::{Esi, EvpnNlri, Rd};
use wren::bgp::evpn_rib::{EviChange, EviTable, EvpnRib, EvpnRibEvent, IpVrfTable};
use wren::bgp::flowspec::{Component, FlowSpec, NumOp};
use wren::bgp::flowspec_rib::{FlowSpecNlri, FlowSpecRib, FlowSpecRibEvent};
use wren::bgp::link_state::{BgpLsAttribute, LinkStateNlri, LsObjectKind, LsTlv};
use wren::bgp::link_state_rib::{LinkStateEntry, LinkStateRib, LinkStateRibEvent};
use wren::bgp::rib::{BgpRib, RibEvent};
use wren::bgp::sr_policy::{SrPolicyEncoding, SrPolicyNlri};
use wren::bgp::sr_policy_rib::{SrPolicyEntry, SrPolicyRib};
use wren::net::{IpAddr, Ipv4Addr, Prefix};
use wren::route::{NextHop, Protocol};

const RT: [u8; 8] = [0, 2, 0xfd, 0xe9, 0, 0, 0, 1];

fn ip(last: u8) -> IpAddr {
    IpAddr::V4(Ipv4Addr::new(10, 0, 0, last))
}

fn net(third: u8) -> Prefix {
    Prefix::new(IpAddr::V4(Ipv4Addr::new(10, 1, third, 0)), 24).unwrap()
}

fn path(local_pref: u32, last: u8) -> Path {
    Path {
        origin: Origin::Igp,
        as_path: vec![AsPathSegment::Sequence(vec![65001])],
        next_hop: ip(last),
        next_hop_iface: None,
        local_pref,
        med: 0,
        from_ebgp: true,
        from_confed: false,
        peer_as: 65001,
        igp_metric: 10,
        peer_id: Ipv4Addr::new(10, 0, 0, last),
        peer_addr: ip(last),
        from_client: false,
        originator_id: None,
        cluster_list: vec![],
        communities: vec![],
        large_communities: vec![],
        ext_communities: vec![RT],
        srv6_sid: None,
    }
}

fn snapshot(rib: &BgpRib) -> Vec<(Prefix, IpAddr, u32, Path)> {
    rib.iter_paths().into_iter().map(|(p, a, i, x)| (*p, a, i, x.clone())).collect()
}

#[test]
fn the_order_in_which_peers_speak_does_not_matter() {
    let offers = [(1u8, 100u32), (2, 200), (3, 200), (4, 150)];
    let mut forth = BgpRib::with_max_paths(3);
    let mut back = BgpRib::with_max_paths(3);
    for (peer, pref) in offers {
        forth.update(ip(peer), net(0), path(pref, peer));
    }
    for (peer, pref) in offers.iter().rev() {
        back.update(ip(*peer), net(0), path(*pref, *peer));
    }
    assert_eq!(snapshot(&forth), snapshot(&back));
    assert_eq!(forth.best(&net(0)), back.best(&net(0)));
    assert_eq!(forth.hops(&net(0)), back.hops(&net(0)));
    assert_eq!(forth.hops(&net(0)), Some(&vec![NextHop::via(ip(2)), NextHop::via(ip(3))]));
}

#[test]
fn taking_back_a_new_offer_gives_back_the_table() {
    let mut rib = BgpRib::new();
    rib.update(ip(1), net(0), path(100, 1));
    rib.update(ip(2), net(1), path(100, 2));
    let was = snapshot(&rib);
    let copy = rib.clone();
    rib.update_with_id(ip(3), 9, net(0), path(300, 3));
    assert_ne!(snapshot(&rib), was);
    rib.withdraw_with_id(ip(3), 9, net(0));
    assert_eq!(snapshot(&rib), was);
    assert_eq!(snapshot(&copy), was);
    assert!(rib.withdraw(ip(7), net(0)).is_none());
    assert!(rib.withdraw(ip(1), net(9)).is_none());
    assert_eq!(snapshot(&rib), was);
}

#[test]
fn a_peer_that_goes_takes_its_offers_and_no_others() {
    let mut rib = BgpRib::new();
    rib.update_with_id(ip(1), 1, net(0), path(300, 1));
    rib.update_with_id(ip(1), 2, net(0), path(200, 1));
    rib.update(ip(2), net(0), path(100, 2));
    rib.update(ip(1), net(1), path(100, 1));
    rib.update(ip(2), net(2), path(100, 2));
    rib.update(ip(1), net(2), path(50, 1));
    let events = rib.withdraw_peer(ip(1));
    assert_eq!(
        events,
        vec![
            RibEvent::Best { prefix: net(0), path: path(100, 2), hops: vec![NextHop::via(ip(2))] },
            RibEvent::Withdrawn(net(1)),
        ]
    );
    assert!(rib.prefixes_from(ip(1)).is_empty());
    assert_eq!(rib.prefixes_from(ip(2)), vec![net(0), net(2)]);
    let best = rib.iter_best();
    assert_eq!(best.len(), 2);
    assert_eq!((*best[0].0, best[0].1.local_pref), (net(0), 100));
    assert_eq!(rib.paths(&net(0)), vec![((ip(2), 0), &path(100, 2))]);
}

#[test]
fn max_paths_of_zero_is_one() {
    let mut rib = BgpRib::with_max_paths(0);
    rib.update(ip(1), net(0), path(100, 1));
    assert!(rib.update(ip(2), net(0), path(100, 2)).is_none());
    assert_eq!(rib.hops(&net(0)).map(|h| h.len()), Some(1));
}

#[test]
fn one_next_hop_is_installed_once() {
    let mut rib = BgpRib::with_max_paths(4);
    rib.update(ip(1), net(0), path(100, 1));
    let mut same = path(100, 2);
    same.next_hop = ip(1);
    assert!(rib.update(ip(2), net(0), same).is_none());
    assert_eq!(rib.hops(&net(0)), Some(&vec![NextHop::via(ip(1))]));
}

#[test]
fn the_decision_goes_round_in_a_circle_where_med_counts_for_some_only() {
    let a = Path { med: 1, igp_metric: 30, ..path(100, 1) };
    let b = Path { med: 2, igp_metric: 10, ..path(100, 2) };
    let c = Path { med: 0, igp_metric: 20, peer_as: 65002, ..path(100, 3) };
    assert!(is_better(&a, &b) && is_better(&b, &c) && is_better(&c, &a));
    assert_eq!(best_path(&[a.clone(), b.clone(), c.clone()]), Some(2));
    assert_eq!(best_path(&[c, b, a]), Some(2));
}

#[test]
fn paths_tie_until_the_clusters_count() {
    let a = path(100, 1);
    let b = Path { cluster_list: vec![Ipv4Addr::new(1, 1, 1, 1)], ..path(100, 2) };
    assert!(multipath_eligible(&a, &b) && multipath_eligible(&b, &a));
    assert!(is_better(&a, &b) && !is_better(&b, &a) && !is_better(&a, &a));
    assert!(!multipath_eligible(&a, &Path { med: 1, ..path(100, 2) }));
    assert!(multipath_eligible(&a, &Path { med: 1, peer_as: 65002, ..path(100, 2) }));
    let far = Path { peer_addr: ip(9), ..path(100, 1) };
    assert!(is_better(&a, &far));
    let route = a.to_route(net(0));
    assert_eq!((route.protocol, route.metric, a.as_path_len()), (Protocol::Bgp, 1, 1));
}

fn mac_route(rd: u32) -> EvpnNlri {
    EvpnNlri::MacIp {
        rd: Rd::from_as2(65001, rd),
        esi: Esi::zero(),
        eth_tag: 5,
        mac: [2, 0, 0, 0, 0, 1],
        ip: None,
        label1: 100,
        label2: None,
    }
}

fn moved(last: u8, seq: u32) -> Path {
    let s = seq.to_be_bytes();
    let mut p = path(100, last);
    p.ext_communities.push([6, 0, 0, 0, s[0], s[1], s[2], s[3]]);
    p
}

#[test]
fn routes_that_differ_in_their_distinguisher_stay_apart() {
    let mut rib = EvpnRib::new();
    rib.update(ip(1), mac_route(1), path(100, 1));
    rib.update(ip(2), mac_route(2), path(100, 2));
    assert_eq!(rib.len(), 2);
    assert_eq!(rib.best(&mac_route(1)), Some(&path(100, 1)));
    let ev = rib.update(ip(1), mac_route(1), path(100, 1));
    assert_eq!(ev, None);
    let keys: Vec<EvpnNlri> = rib.iter_best().into_iter().map(|(k, _)| k.clone()).collect();
    assert_eq!(keys, vec![mac_route(1), mac_route(2)]);
}

#[test]
fn one_sequence_number_for_two_endpoints_moves_nothing() {
    let mut evi = EviTable::new(vec![RT]);
    let best = |nlri: EvpnNlri, path: Path| EvpnRibEvent::Best { nlri, path };
    assert!(evi.apply(&best(mac_route(1), moved(1, 3))).is_some());
    assert_eq!(evi.apply(&best(mac_route(2), moved(2, 3))), None);
    assert_eq!(evi.lookup_mac(5, [2, 0, 0, 0, 0, 1]).unwrap().vtep, ip(1));
    assert!(matches!(
        evi.apply(&best(mac_route(2), path(100, 2))),
        None
    ));
    let change = evi.apply(&best(mac_route(2), moved(2, 4)));
    assert!(matches!(change, Some(EviChange::MacLearned { eth_tag: 5, entry, .. }) if entry.vtep == ip(2)));
    assert_eq!(evi.apply(&best(mac_route(2), moved(2, 4))), None);
    assert_eq!(evi.apply(&EvpnRibEvent::Withdrawn(mac_route(1))), None);
    let copy = evi.clone();
    assert_eq!(copy.iter_macs().len(), 1);
    assert_eq!(copy.iter_macs()[0].0, (5, [2, 0, 0, 0, 0, 1]));
    assert!(evi.apply(&EvpnRibEvent::Withdrawn(mac_route(2))).is_some());
    assert!(evi.iter_macs().is_empty());
}

#[test]
fn a_mover_that_tells_no_sequence_number_moves_one_that_tells_none() {
    let mut evi = EviTable::new(vec![RT]);
    evi.apply(&EvpnRibEvent::Best { nlri: mac_route(1), path: path(100, 1) });
    evi.apply(&EvpnRibEvent::Best { nlri: mac_route(2), path: path(100, 2) });
    assert_eq!(evi.lookup_mac(5, [2, 0, 0, 0, 0, 1]).unwrap().vtep, ip(2));
}

#[test]
fn an_ip_vrf_takes_whoever_was_heard_last() {
    let route = |rd: u32| EvpnNlri::IpPrefix {
        rd: Rd::from_as2(65001, rd),
        esi: Esi::zero(),
        eth_tag: 0,
        prefix: net(0),
        gw: ip(0),
        label: 7,
    };
    let mut vrf = IpVrfTable::new(vec![RT]);
    let a = EvpnRibEvent::Best { nlri: route(1), path: path(100, 1) };
    let b = EvpnRibEvent::Best { nlri: route(2), path: path(100, 2) };
    assert!(vrf.apply(&a).is_some());
    assert_eq!(vrf.apply(&a), None);
    assert!(vrf.apply(&b).is_some());
    assert_eq!(vrf.lookup(&net(0)).unwrap().vtep, ip(2));
    assert_eq!(vrf.apply(&EvpnRibEvent::Withdrawn(route(1))), None);
    assert_eq!(vrf.clone().iter_prefixes().len(), 1);
    assert!(vrf.apply(&EvpnRibEvent::Withdrawn(route(2))).is_some());
    assert_eq!(vrf.lookup(&net(0)), None);
}

fn rule(swapped: bool) -> FlowSpecNlri {
    let mut components =
        vec![Component::DestPrefix(net(0)), Component::IpProto(vec![NumOp::eq(6)])];
    if swapped {
        components.reverse();
    }
    FlowSpecNlri::v4(FlowSpec { components })
}

#[test]
fn a_rule_is_one_in_whatever_order_its_components_stand() {
    let mut rib = FlowSpecRib::new();
    rib.update(ip(1), rule(false), path(100, 1));
    let ev = rib.update(ip(2), rule(true), path(200, 2));
    assert!(matches!(ev, Some(FlowSpecRibEvent::Best { nlri, .. }) if nlri == rule(true)));
    assert_eq!(rib.len(), 1);
    assert_eq!(rib.iter_best()[0].0, &rule(false));
    assert_eq!(rib.best(&rule(true)), Some(&path(200, 2)));
}

#[test]
fn another_attribute_of_an_object_is_a_change() {
    let nlri = LinkStateNlri {
        kind: LsObjectKind::Node,
        protocol: 3,
        identifier: 1,
        descriptors: vec![LsTlv { typ: 256, value: vec![1, 2] }],
    };
    let entry = |b: u8| LinkStateEntry {
        path: path(100, 1),
        attr: BgpLsAttribute::new(vec![LsTlv { typ: 1026, value: vec![b] }]),
    };
    let mut rib = LinkStateRib::default();
    assert!(rib.update(ip(1), nlri.clone(), entry(b'a')).is_some());
    assert_eq!(rib.update(ip(1), nlri.clone(), entry(b'a')), None);
    assert_eq!(
        rib.update(ip(1), nlri.clone(), entry(b'b')),
        Some(LinkStateRibEvent::Best { nlri: nlri.clone(), entry: entry(b'b') })
    );
    let longer = LinkStateNlri { descriptors: vec![LsTlv { typ: 256, value: vec![1, 2, 0] }], ..nlri };
    rib.update(ip(1), longer, entry(b'c'));
    assert_eq!(rib.len(), 2);
}

#[test]
fn of_candidates_with_one_preference_the_higher_distinguisher_is_in_force() {
    let nlri = |color: u32, last: u8, d: u32| SrPolicyNlri {
        color,
        endpoint: ip(last),
        distinguisher: d,
    };
    let entry = |preference: Option<u32>| SrPolicyEntry {
        path: path(100, 1),
        encoding: SrPolicyEncoding { preference, ..SrPolicyEncoding::default() },
    };
    let mut rib = SrPolicyRib::new();
    rib.update(ip(1), nlri(2, 1, 5), entry(None));
    rib.update(ip(1), nlri(1, 2, 3), entry(Some(100)));
    rib.update(ip(1), nlri(1, 2, 4), entry(None));
    rib.update(ip(1), nlri(1, 2, 9), entry(Some(99)));
    rib.update(ip(1), nlri(1, 1, 1), entry(Some(0)));
    let got: Vec<(u32, IpAddr, u32)> =
        rib.installed().iter().map(|p| (p.color, p.endpoint, p.distinguisher)).collect();
    assert_eq!(got, vec![(1, ip(1), 1), (1, ip(2), 4), (2, ip(1), 5)]);
}
