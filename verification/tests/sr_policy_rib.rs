use wren::bgp::attr::{AsPathSegment, Origin};
use wren::bgp::decision::Path;
use wren::bgp::sr_policy::{BindingSid, Segment, SegmentList, SrPolicyEncoding, SrPolicyNlri};
use wren::bgp::sr_policy_rib::{SrPolicyEntry, SrPolicyRib, SrPolicyRibEvent};
use wren::net::{IpAddr, Ipv4Addr};

fn ip(o: [u8; 4]) -> IpAddr {
    IpAddr::V4(Ipv4Addr { octets: o })
}

fn path(local_pref: u32, peer: [u8; 4]) -> Path {
    Path {
        origin: Origin::Igp,
        as_path: vec![AsPathSegment::Sequence(vec![65001])],
        next_hop: ip(peer),
        next_hop_iface: None,
        local_pref,
        med: 0,
        from_ebgp: false,
        from_confed: false,
        peer_as: 65001,
        igp_metric: 0,
        peer_id: Ipv4Addr { octets: peer },
        peer_addr: ip(peer),
        from_client: false,
        originator_id: None,
        cluster_list: vec![],
        communities: vec![],
        large_communities: vec![],
        ext_communities: vec![],
        srv6_sid: None,
    }
}

fn nlri(color: u32, endpoint: [u8; 4], disc: u32) -> SrPolicyNlri {
    SrPolicyNlri {
        color,
        endpoint: ip(endpoint),
        distinguisher: disc,
    }
}

fn enc(pref: u32, seg: u8) -> SrPolicyEncoding {
    SrPolicyEncoding {
        preference: Some(pref),
        binding_sid: BindingSid::Absent,
        priority: None,
        policy_name: None,
        segment_lists: vec![SegmentList {
            weight: None,
            segments: vec![Segment::MplsLabel(16000 + seg as u32)],
        }],
    }
}

fn entry(pref: u32, seg: u8, peer: [u8; 4]) -> SrPolicyEntry {
    SrPolicyEntry {
        path: path(100, peer),
        encoding: enc(pref, seg),
    }
}

#[test]
fn first_candidate_is_best_and_installed() {
    let mut rib = SrPolicyRib::new();
    let n = nlri(100, [10, 0, 0, 9], 1);
    let ev = rib.update(ip([10, 0, 0, 1]), n, entry(100, 1, [10, 0, 0, 1]));
    assert!(matches!(ev, Some(SrPolicyRibEvent::Best { .. })));
    assert_eq!(rib.len(), 1);
    let installed = rib.installed();
    assert_eq!(installed.len(), 1);
    assert_eq!(installed[0].color, 100);
    assert_eq!(installed[0].distinguisher, 1);
}

#[test]
fn higher_preference_candidate_wins_the_policy() {
    let mut rib = SrPolicyRib::new();
    let ep = [10, 0, 0, 9];
    rib.update(
        ip([10, 0, 0, 1]),
        nlri(100, ep, 1),
        entry(100, 1, [10, 0, 0, 1]),
    );
    rib.update(
        ip([10, 0, 0, 2]),
        nlri(100, ep, 2),
        entry(200, 2, [10, 0, 0, 2]),
    );
    assert_eq!(rib.len(), 2);
    let installed = rib.installed();
    assert_eq!(installed.len(), 1);
    assert_eq!(installed[0].distinguisher, 2);
    assert_eq!(installed[0].encoding.effective_preference(), 200);
}

#[test]
fn distinct_colours_are_distinct_policies() {
    let mut rib = SrPolicyRib::new();
    let ep = [10, 0, 0, 9];
    rib.update(
        ip([10, 0, 0, 1]),
        nlri(100, ep, 1),
        entry(100, 1, [10, 0, 0, 1]),
    );
    rib.update(
        ip([10, 0, 0, 1]),
        nlri(200, ep, 1),
        entry(100, 2, [10, 0, 0, 1]),
    );
    assert_eq!(rib.installed().len(), 2);
}

#[test]
fn withdraw_removes_the_candidate_and_policy() {
    let mut rib = SrPolicyRib::new();
    let n = nlri(100, [10, 0, 0, 9], 1);
    rib.update(ip([10, 0, 0, 1]), n, entry(100, 1, [10, 0, 0, 1]));
    let ev = rib.withdraw(ip([10, 0, 0, 1]), n);
    assert_eq!(ev, Some(SrPolicyRibEvent::Withdrawn(n)));
    assert!(rib.is_empty());
    assert!(rib.installed().is_empty());
}

#[test]
fn withdraw_peer_drops_all_its_candidates() {
    let mut rib = SrPolicyRib::new();
    let ep = [10, 0, 0, 9];
    rib.update(
        ip([10, 0, 0, 1]),
        nlri(100, ep, 1),
        entry(100, 1, [10, 0, 0, 1]),
    );
    rib.update(
        ip([10, 0, 0, 1]),
        nlri(200, ep, 1),
        entry(100, 2, [10, 0, 0, 1]),
    );
    let events = rib.withdraw_peer(ip([10, 0, 0, 1]));
    assert_eq!(events.len(), 2);
    assert!(rib.is_empty());
}
