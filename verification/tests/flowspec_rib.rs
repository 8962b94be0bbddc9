use wren::bgp::attr::{AsPathSegment, Origin};
use wren::bgp::decision::Path;
use wren::bgp::flowspec::{Action, Component, FlowSpec, NumOp};
use wren::bgp::flowspec_rib::{FlowSpecNlri, FlowSpecRib, FlowSpecRibEvent, actions_of};
use wren::net::{IpAddr, Ipv4Addr, Prefix};

fn ip(o: [u8; 4]) -> IpAddr {
    IpAddr::V4(Ipv4Addr { octets: o })
}

fn v4(a: [u8; 4], len: u8) -> Prefix {
    Prefix::new(IpAddr::V4(Ipv4Addr { octets: a }), len).expect("valid prefix")
}

fn rule(dst: [u8; 4], len: u8) -> FlowSpecNlri {
    FlowSpecNlri::v4(FlowSpec {
        components: vec![
            Component::DestPrefix(v4(dst, len)),
            Component::IpProto(vec![NumOp::eq(6)]),
            Component::DestPort(vec![NumOp::eq(22)]),
        ],
    })
}

fn path(local_pref: u32, peer: [u8; 4], ext: Vec<[u8; 8]>) -> Path {
    Path {
        origin: Origin::Igp,
        as_path: vec![AsPathSegment::Sequence(vec![65001])],
        next_hop: ip(peer),
        next_hop_iface: None,
        local_pref,
        med: 0,
        from_ebgp: false,
        from_confed: false,
        peer_as: 65001,
        igp_metric: 10,
        peer_id: Ipv4Addr { octets: peer },
        peer_addr: ip(peer),
        from_client: false,
        originator_id: None,
        cluster_list: vec![],
        communities: vec![],
        large_communities: vec![],
        ext_communities: ext,
        srv6_sid: None,
    }
}

#[test]
fn flowspec_rib_best_path_selection_and_fallback() {
    let mut rib = FlowSpecRib::new();
    let nlri = rule([10, 50, 0, 0], 24);
    let p1 = ip([10, 0, 0, 1]);
    let p2 = ip([10, 0, 0, 2]);
    assert!(matches!(
        rib.update(p1, nlri.clone(), path(100, [10, 0, 0, 1], vec![])),
        Some(FlowSpecRibEvent::Best { .. })
    ));
    let ev = rib.update(p2, nlri.clone(), path(200, [10, 0, 0, 2], vec![]));
    assert!(
        matches!(ev, Some(FlowSpecRibEvent::Best { ref path, .. }) if path.peer_addr == p2)
    );
    let ev = rib.withdraw(p2, nlri.clone()).unwrap();
    assert!(matches!(ev, FlowSpecRibEvent::Best { ref path, .. } if path.peer_addr == p1));
    assert_eq!(
        rib.withdraw(p1, nlri.clone()),
        Some(FlowSpecRibEvent::Withdrawn(nlri))
    );
    assert!(rib.is_empty());
}

#[test]
fn withdraw_peer_clears_only_its_rules() {
    let mut rib = FlowSpecRib::new();
    let p1 = ip([10, 0, 0, 1]);
    let p2 = ip([10, 0, 0, 2]);
    rib.update(
        p1,
        rule([10, 50, 0, 0], 24),
        path(100, [10, 0, 0, 1], vec![]),
    );
    rib.update(
        p2,
        rule([10, 60, 0, 0], 24),
        path(100, [10, 0, 0, 2], vec![]),
    );
    let evs = rib.withdraw_peer(p1);
    assert_eq!(evs.len(), 1);
    assert_eq!(rib.len(), 1);
}

#[test]
fn actions_recovered_from_ext_communities() {
    let mut rib = FlowSpecRib::new();
    let nlri = rule([10, 50, 0, 0], 24);
    let peer = ip([10, 0, 0, 1]);
    rib.update(
        peer,
        nlri.clone(),
        path(100, [10, 0, 0, 1], vec![Action::discard().encode()]),
    );
    let best = rib.best(&nlri).unwrap();
    assert_eq!(actions_of(best), vec![Action::discard()]);
}

#[test]
fn nlri_ordering_is_by_canonical_encoding() {
    let a = rule([10, 50, 0, 0], 24);
    let b = rule([10, 60, 0, 0], 24);
    assert_ne!(a.cmp(&b), std::cmp::Ordering::Equal);
    let unsorted = FlowSpecNlri::v4(FlowSpec {
        components: vec![
            Component::DestPort(vec![NumOp::eq(22)]),
            Component::IpProto(vec![NumOp::eq(6)]),
            Component::DestPrefix(v4([10, 50, 0, 0], 24)),
        ],
    });
    assert_eq!(a.cmp(&unsorted), std::cmp::Ordering::Equal);
}
