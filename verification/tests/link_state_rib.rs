use wren::bgp::attr::{AsPathSegment, Origin};
use wren::bgp::decision::Path;
use wren::bgp::link_state::{
    ATTR_NODE_NAME, BgpLsAttribute, LinkStateNlri, LsObjectKind, LsTlv, SUBTLV_IGP_ROUTER_ID,
    TLV_LOCAL_NODE_DESCRIPTORS,
};
use wren::bgp::link_state_rib::{LinkStateEntry, LinkStateRib, LinkStateRibEvent};
use wren::net::{IpAddr, Ipv4Addr};

fn ip(o: [u8; 4]) -> IpAddr {
    IpAddr::V4(Ipv4Addr { octets: o })
}

fn path(local_pref: u32, peer: [u8; 4]) -> Path {
    Path {
        origin: Origin::Igp,
        as_path: vec![AsPathSegment::Sequence(vec![65001])],
        next_hop: ip(peer),
        next_hop_iface: None,
        local_pref,
        med: 0,
        from_ebgp: false,
        from_confed: false,
        peer_as: 65001,
        igp_metric: 0,
        peer_id: Ipv4Addr { octets: peer },
        peer_addr: ip(peer),
        from_client: false,
        originator_id: None,
        cluster_list: vec![],
        communities: vec![],
        large_communities: vec![],
        ext_communities: vec![],
        srv6_sid: None,
    }
}

fn node_nlri(router_id: [u8; 4]) -> LinkStateNlri {
    let mut sub = Vec::new();
    LsTlv {
        typ: SUBTLV_IGP_ROUTER_ID,
        value: router_id.to_vec(),
    }
    .encode(&mut sub);
    LinkStateNlri {
        kind: LsObjectKind::Node,
        protocol: 3,
        identifier: 0,
        descriptors: vec![LsTlv {
            typ: TLV_LOCAL_NODE_DESCRIPTORS,
            value: sub,
        }],
    }
}

fn entry(name: &str, peer: [u8; 4]) -> LinkStateEntry {
    LinkStateEntry {
        path: path(100, peer),
        attr: BgpLsAttribute::new(vec![LsTlv {
            typ: ATTR_NODE_NAME,
            value: name.as_bytes().to_vec(),
        }]),
    }
}

#[test]
fn first_object_is_best() {
    let mut rib = LinkStateRib::new();
    let n = node_nlri([10, 0, 0, 1]);
    let ev = rib.update(ip([10, 0, 0, 1]), n.clone(), entry("r1", [10, 0, 0, 1]));
    assert!(matches!(ev, Some(LinkStateRibEvent::Best { .. })));
    assert_eq!(rib.len(), 1);
    assert_eq!(
        rib.best(&n).unwrap().attr.node_name().as_deref(),
        Some("r1")
    );
}

#[test]
fn reannouncing_same_object_is_noop() {
    let mut rib = LinkStateRib::new();
    let n = node_nlri([10, 0, 0, 1]);
    rib.update(ip([10, 0, 0, 1]), n.clone(), entry("r1", [10, 0, 0, 1]));
    let ev = rib.update(ip([10, 0, 0, 1]), n, entry("r1", [10, 0, 0, 1]));
    assert_eq!(ev, None);
}

#[test]
fn withdraw_removes_the_object() {
    let mut rib = LinkStateRib::new();
    let n = node_nlri([10, 0, 0, 1]);
    rib.update(ip([10, 0, 0, 1]), n.clone(), entry("r1", [10, 0, 0, 1]));
    let ev = rib.withdraw(ip([10, 0, 0, 1]), n.clone());
    assert_eq!(ev, Some(LinkStateRibEvent::Withdrawn(n)));
    assert!(rib.is_empty());
}

#[test]
fn withdraw_peer_drops_all_its_objects() {
    let mut rib = LinkStateRib::new();
    rib.update(
        ip([10, 0, 0, 1]),
        node_nlri([10, 0, 0, 1]),
        entry("r1", [10, 0, 0, 1]),
    );
    rib.update(
        ip([10, 0, 0, 1]),
        node_nlri([10, 0, 0, 2]),
        entry("r2", [10, 0, 0, 1]),
    );
    let events = rib.withdraw_peer(ip([10, 0, 0, 1]));
    assert_eq!(events.len(), 2);
    assert!(rib.is_empty());
}
