use wren::bgp::{AFI_IPV4, AFI_IPV6, AS_TRANS, SAFI_UNICAST};
use wren::bgp::attr::{
    AsPathSegment, AttrOutcome, FLAG_EXTENDED_LEN, FLAG_OPTIONAL, FLAG_PARTIAL, FLAG_TRANSITIVE,
    Origin, PathAttribute, reconstruct_as_path,
};
use wren::bgp::community::{NO_ADVERTISE, NO_EXPORT};
use wren::bgp::evpn::{Esi, EvpnNlri, Rd};
use wren::bgp::flowspec::{Component, FlowSpec, NumOp};
use wren::bgp::link_state::{BgpLsAttribute, LinkStateNlri, LsObjectKind, LsTlv};
use wren::bgp::sr_policy::{SrPolicyNlri, TunnelTlv};
use wren::bgp::srv6::{Srv6ServiceSid, Srv6ServiceTlv, build_service_sid};
use wren::bgp::srv6::behavior::END_DT2U;
use wren::net::{IpAddr, Ipv4Addr, Ipv6Addr, Prefix};

fn v4_of(s: &str) -> Ipv4Addr {
    let o: Vec<u8> = s.split('.').map(|x| x.parse().unwrap()).collect();
    Ipv4Addr::new(o[0], o[1], o[2], o[3])
}

fn v6_of(s: &str) -> Ipv6Addr {
    let words = |t: &str| -> Vec<u16> {
        t.split(':').filter(|w| !w.is_empty()).map(|w| u16::from_str_radix(w, 16).unwrap()).collect()
    };
    let (head, tail) = s.split_once("::").unwrap_or((s, ""));
    let (head, tail) = (words(head), words(tail));
    let mut octets = [0u8; 16];
    for (i, w) in head.iter().enumerate() {
        octets[2 * i..2 * i + 2].copy_from_slice(&w.to_be_bytes());
    }
    for (i, w) in tail.iter().enumerate() {
        let k = 16 - 2 * (tail.len() - i);
        octets[k..k + 2].copy_from_slice(&w.to_be_bytes());
    }
    Ipv6Addr::new(octets)
}

fn ip_of(s: &str) -> IpAddr {
    if s.contains(':') {
        IpAddr::V6(v6_of(s))
    } else {
        IpAddr::V4(v4_of(s))
    }
}

fn prefix_of(s: &str) -> Prefix {
    let (addr, len) = s.split_once('/').unwrap();
    Prefix::new(ip_of(addr), len.parse().unwrap()).unwrap()
}

fn ip(o: [u8; 4]) -> Ipv4Addr {
    Ipv4Addr { octets: o }
}

fn decode_kept(buf: &[u8], four_octet: bool) -> Option<(PathAttribute, usize)> {
    match PathAttribute::decode(buf, four_octet)? {
        (AttrOutcome::Keep(a), used) => Some((a, used)),
        (AttrOutcome::Discard { type_code }, _) => {
            panic!("attribute type {type_code} was discarded, expected it to be kept")
        }
    }
}

fn roundtrip_w(attr: PathAttribute, four_octet: bool) {
    let mut buf = Vec::new();
    attr.encode(&mut buf, four_octet);
    let (decoded, used) = decode_kept(&buf, four_octet).expect("decodes");
    assert_eq!(decoded, attr);
    assert_eq!(used, buf.len());
}

fn roundtrip(attr: PathAttribute) {
    roundtrip_w(attr.clone(), true);
    roundtrip_w(attr, false);
}

#[test]
fn prefix_sid_srv6_roundtrips() {
    let (sid, structure) = build_service_sid(v6_of("fc00:0:1::"), 48, 0, 10100);
    let attr = PathAttribute::PrefixSid {
        srv6: vec![Srv6ServiceTlv {
            is_l2: true,
            sids: vec![Srv6ServiceSid {
                sid,
                behavior: END_DT2U,
                flags: 0,
                structure,
            }],
        }],
        other: vec![(3u8, vec![0u8; 5])],
    };
    roundtrip(attr);
}

#[test]
fn origin_roundtrips() {
    for o in [Origin::Igp, Origin::Egp, Origin::Incomplete] {
        assert_eq!(Origin::from_u8(o.as_u8()), Some(o));
        roundtrip(PathAttribute::Origin(o));
    }
    assert_eq!(Origin::from_u8(3), None);
}

#[test]
fn as_path_roundtrips_sets_and_sequences() {
    roundtrip(PathAttribute::AsPath(vec![
        AsPathSegment::Sequence(vec![65001, 65002, 65003]),
        AsPathSegment::AsSet(vec![65010, 65011]),
    ]));
    roundtrip(PathAttribute::AsPath(vec![]));
}

#[test]
fn as_path_roundtrips_confederation_segments() {
    roundtrip(PathAttribute::AsPath(vec![
        AsPathSegment::ConfedSequence(vec![65001, 65002]),
        AsPathSegment::ConfedSet(vec![65003, 65004]),
        AsPathSegment::Sequence(vec![64500]),
    ]));
}

#[test]
fn reconstruct_preserves_leading_confederation_segments() {
    let as_path = vec![
        AsPathSegment::ConfedSequence(vec![65001]),
        AsPathSegment::Sequence(vec![AS_TRANS as u32, 64500]),
    ];
    let as4 = vec![AsPathSegment::Sequence(vec![196_618, 64500])];
    assert_eq!(
        reconstruct_as_path(&as_path, &as4),
        vec![
            AsPathSegment::ConfedSequence(vec![65001]),
            AsPathSegment::Sequence(vec![196_618, 64500]),
        ]
    );
}

#[test]
fn four_octet_as_path_roundtrips_at_full_width() {
    roundtrip_w(
        PathAttribute::AsPath(vec![AsPathSegment::Sequence(vec![196_618, 65001, 4_200_000_000])]),
        true,
    );
}

#[test]
fn two_octet_encoding_substitutes_as_trans() {
    let attr = PathAttribute::AsPath(vec![AsPathSegment::Sequence(vec![196_618, 65001])]);
    let mut buf = Vec::new();
    attr.encode(&mut buf, false);
    let (decoded, _) = decode_kept(&buf, false).unwrap();
    assert_eq!(
        decoded,
        PathAttribute::AsPath(vec![AsPathSegment::Sequence(vec![
            AS_TRANS as u32,
            65001
        ])])
    );
}

#[test]
fn as4_path_and_as4_aggregator_are_always_four_octet() {
    let p = PathAttribute::As4Path(vec![AsPathSegment::Sequence(vec![196_618, 4_200_000_000])]);
    roundtrip_w(p.clone(), false);
    roundtrip_w(p, true);
    let agg = PathAttribute::As4Aggregator { asn: 196_618, id: ip([10, 0, 0, 1]) };
    roundtrip_w(agg.clone(), false);
    roundtrip_w(agg, true);
}

#[test]
fn well_known_attributes_roundtrip() {
    roundtrip(PathAttribute::NextHop(ip([192, 0, 2, 1])));
    roundtrip(PathAttribute::MultiExitDisc(100));
    roundtrip(PathAttribute::LocalPref(150));
    roundtrip(PathAttribute::AtomicAggregate);
    roundtrip(PathAttribute::Aggregator { asn: 65001, id: ip([10, 0, 0, 1]) });
    roundtrip_w(PathAttribute::Aggregator { asn: 196_618, id: ip([10, 0, 0, 1]) }, true);
}

#[test]
fn only_to_customer_roundtrips() {
    roundtrip(PathAttribute::OnlyToCustomer(65001));
    roundtrip(PathAttribute::OnlyToCustomer(4_200_000_000));
    let mut buf = Vec::new();
    PathAttribute::OnlyToCustomer(65001).encode(&mut buf, true);
    assert_eq!(buf[0], FLAG_OPTIONAL | FLAG_TRANSITIVE);
    assert_eq!(buf[1], 35);
    assert_eq!(buf[2], 4);
}

#[test]
fn flags_are_canonical() {
    let mut buf = Vec::new();
    PathAttribute::Origin(Origin::Igp).encode(&mut buf, true);
    assert_eq!(buf[0], FLAG_TRANSITIVE);
    assert_eq!(buf[1], 1);

    let mut buf = Vec::new();
    PathAttribute::MultiExitDisc(5).encode(&mut buf, true);
    assert_eq!(buf[0], FLAG_OPTIONAL);
    assert_eq!(buf[1], 4);

    let mut buf = Vec::new();
    PathAttribute::Aggregator { asn: 1, id: ip([1, 2, 3, 4]) }.encode(&mut buf, true);
    assert_eq!(buf[0], FLAG_OPTIONAL | FLAG_TRANSITIVE);

    let mut buf = Vec::new();
    PathAttribute::As4Path(vec![]).encode(&mut buf, true);
    assert_eq!(buf[0], FLAG_OPTIONAL | FLAG_TRANSITIVE);
    assert_eq!(buf[1], 17);
}

#[test]
fn communities_roundtrip() {
    roundtrip(PathAttribute::Communities(vec![0xFDE9_0064, NO_EXPORT, NO_ADVERTISE]));
    roundtrip(PathAttribute::Communities(vec![]));
}

#[test]
fn large_communities_roundtrip() {
    roundtrip(PathAttribute::LargeCommunities(vec![
        (65536, 1, 2),
        (4_200_000_000, 4_294_967_295, 0),
    ]));
    roundtrip(PathAttribute::LargeCommunities(vec![]));
}

#[test]
fn extended_communities_roundtrip() {
    roundtrip(PathAttribute::ExtendedCommunities(vec![
        [0x00, 0x02, 0xFD, 0xE9, 0x00, 0x00, 0x00, 0x64],
        [0x02, 0x03, 0x00, 0x01, 0x00, 0x00, 0x00, 0x01],
    ]));
    roundtrip(PathAttribute::ExtendedCommunities(vec![]));
    let mut buf = Vec::new();
    PathAttribute::Communities(vec![1]).encode(&mut buf, true);
    assert_eq!(buf[0], FLAG_OPTIONAL | FLAG_TRANSITIVE);
    assert_eq!(buf[1], 8);
}

fn p(s: &str) -> Prefix {
    prefix_of(s)
}

#[test]
fn mp_reach_nlri_roundtrips_ipv6_unicast() {
    let attr = PathAttribute::MpReachNlri {
        afi: AFI_IPV6,
        safi: SAFI_UNICAST,
        next_hop: v6_of("2001:db8::1").octets().to_vec(),
        nlri: vec![p("2001:db8:99::/64"), p("2001:db8:a::/48")],
    };
    roundtrip(attr.clone());
    let mut buf = Vec::new();
    attr.encode(&mut buf, true);
    assert_eq!(buf[0], FLAG_OPTIONAL);
    assert_eq!(buf[1], 14);
}

#[test]
fn mp_reach_nlri_carries_a_linklocal_next_hop() {
    let mut nh = v6_of("2001:db8::1").octets().to_vec();
    nh.extend_from_slice(&v6_of("fe80::1").octets());
    roundtrip(PathAttribute::MpReachNlri {
        afi: AFI_IPV6,
        safi: SAFI_UNICAST,
        next_hop: nh,
        nlri: vec![p("2001:db8::/32")],
    });
}

#[test]
fn mp_unreach_nlri_roundtrips_ipv6_withdrawals() {
    let attr = PathAttribute::MpUnreachNlri {
        afi: AFI_IPV6,
        safi: SAFI_UNICAST,
        withdrawn: vec![p("2001:db8:99::/64"), p("2001:db8::1/128")],
    };
    roundtrip(attr.clone());
    let mut buf = Vec::new();
    attr.encode(&mut buf, true);
    assert_eq!(buf[0], FLAG_OPTIONAL);
    assert_eq!(buf[1], 15);
    roundtrip(PathAttribute::MpUnreachNlri {
        afi: AFI_IPV6,
        safi: SAFI_UNICAST,
        withdrawn: vec![],
    });
}

#[test]
fn mp_reach_evpn_roundtrips() {
    let attr = PathAttribute::MpReachEvpn {
        next_hop: Ipv4Addr::new(192, 0, 2, 1).octets().to_vec(),
        nlri: vec![
            EvpnNlri::MacIp {
                rd: Rd::from_ip(Ipv4Addr::new(192, 0, 2, 1), 100),
                esi: Esi::zero(),
                eth_tag: 0,
                mac: [0x02, 0, 0x5e, 0x10, 0, 0x01],
                ip: Some(ip_of("10.0.0.5")),
                label1: 10100,
                label2: None,
            },
            EvpnNlri::Imet {
                rd: Rd::from_ip(Ipv4Addr::new(192, 0, 2, 1), 100),
                eth_tag: 0,
                orig_ip: ip_of("192.0.2.1"),
            },
        ],
    };
    roundtrip(attr.clone());
    let mut buf = Vec::new();
    attr.encode(&mut buf, true);
    assert_eq!(buf[0], FLAG_OPTIONAL);
    assert_eq!(buf[1], 14);
}

#[test]
fn mp_unreach_evpn_roundtrips_including_empty() {
    roundtrip(PathAttribute::MpUnreachEvpn {
        withdrawn: vec![EvpnNlri::Imet {
            rd: Rd::from_ip(Ipv4Addr::new(192, 0, 2, 1), 100),
            eth_tag: 0,
            orig_ip: ip_of("192.0.2.1"),
        }],
    });
    roundtrip(PathAttribute::MpUnreachEvpn { withdrawn: vec![] });
}

fn mp_reach_value(afi: u16, safi: u8, nh: &[u8]) -> Vec<u8> {
    let mut v = afi.to_be_bytes().to_vec();
    v.push(safi);
    v.push(nh.len() as u8);
    v.extend_from_slice(nh);
    v.push(0);
    if afi == AFI_IPV6 {
        v.extend_from_slice(&[64, 0x20, 0x01, 0x0d, 0xb8, 0, 0, 0, 0]);
    } else {
        v.extend_from_slice(&[24, 10, 0, 0]);
    }
    v
}

fn decode_mp_reach(value: &[u8]) -> Option<PathAttribute> {
    let mut raw = vec![FLAG_OPTIONAL, 14, value.len() as u8];
    raw.extend_from_slice(value);
    PathAttribute::decode(&raw, true).map(|(o, _)| match o {
        AttrOutcome::Keep(a) => a,
        AttrOutcome::Discard { .. } => panic!("unexpected discard"),
    })
}

#[test]
fn a_next_hop_of_a_length_no_family_defines_is_refused() {
    for bad in [0usize, 1, 3, 5, 15, 17, 31, 33] {
        let nh = vec![0x22; bad];
        assert!(
            decode_mp_reach(&mp_reach_value(AFI_IPV6, SAFI_UNICAST, &nh)).is_none(),
            "an IPv6 next hop of {bad} octets was accepted"
        );
    }
    for good in [16usize, 32] {
        let nh = vec![0x22; good];
        assert!(
            decode_mp_reach(&mp_reach_value(AFI_IPV6, SAFI_UNICAST, &nh)).is_some(),
            "an IPv6 next hop of {good} octets was refused"
        );
    }
    for good in [4usize, 16, 32] {
        let nh = vec![0x22; good];
        let v = mp_reach_value(AFI_IPV4, SAFI_UNICAST, &nh);
        assert!(
            decode_mp_reach(&v).is_some(),
            "an IPv4 next hop of {good} octets was refused"
        );
    }
}

#[test]
fn a_family_this_speaker_does_not_know_is_refused_not_misparsed() {
    for (afi, safi) in [(1234u16, 77u8), (AFI_IPV4, 99), (AFI_IPV6, 4), (0, 0)] {
        let v = mp_reach_value(afi, safi, &[10, 0, 0, 1]);
        assert!(
            decode_mp_reach(&v).is_none(),
            "MP_REACH for the unknown family ({afi}, {safi}) was decoded"
        );
    }
    for (afi, safi) in [(1234u16, 77u8), (AFI_IPV4, 99)] {
        let mut v = afi.to_be_bytes().to_vec();
        v.push(safi);
        v.extend_from_slice(&[24, 10, 0, 0]);
        let mut raw = vec![FLAG_OPTIONAL, 15, v.len() as u8];
        raw.extend_from_slice(&v);
        assert!(
            PathAttribute::decode(&raw, true).is_none(),
            "MP_UNREACH for the unknown family ({afi}, {safi}) was decoded"
        );
    }
}

#[test]
fn flowspec_keeps_its_absent_next_hop() {
    let attr = PathAttribute::MpReachFlowSpec {
        afi: AFI_IPV4,
        next_hop: vec![],
        nlri: vec![FlowSpec {
            components: vec![Component::DestPrefix(prefix_of("10.50.0.0/24"))],
        }],
    };
    let mut buf = Vec::new();
    attr.encode(&mut buf, true);
    assert!(
        PathAttribute::decode(&buf, true).is_some(),
        "a zero-length FlowSpec next hop was refused"
    );
}

#[test]
fn mp_reach_flowspec_roundtrips() {
    let spec = FlowSpec {
        components: vec![
            Component::DestPrefix(prefix_of("10.50.0.0/24")),
            Component::IpProto(vec![NumOp::eq(6)]),
            Component::DestPort(vec![NumOp::eq(22)]),
        ],
    };
    let attr = PathAttribute::MpReachFlowSpec {
        afi: AFI_IPV4,
        next_hop: vec![],
        nlri: vec![spec],
    };
    roundtrip(attr.clone());
    let mut buf = Vec::new();
    attr.encode(&mut buf, true);
    assert_eq!(buf[0], FLAG_OPTIONAL);
    assert_eq!(buf[1], 14);
}

#[test]
fn mp_unreach_flowspec_roundtrips_including_empty() {
    roundtrip(PathAttribute::MpUnreachFlowSpec {
        afi: AFI_IPV4,
        withdrawn: vec![FlowSpec {
            components: vec![Component::DestPrefix(prefix_of("10.50.0.0/24"))],
        }],
    });
    roundtrip(PathAttribute::MpUnreachFlowSpec { afi: AFI_IPV4, withdrawn: vec![] });
}

#[test]
fn originator_id_and_cluster_list_roundtrip() {
    let oid = PathAttribute::OriginatorId(ip([10, 0, 0, 1]));
    roundtrip(oid.clone());
    let mut buf = Vec::new();
    oid.encode(&mut buf, true);
    assert_eq!(buf[0], FLAG_OPTIONAL);
    assert_eq!(buf[1], 9);

    let cl = PathAttribute::ClusterList(vec![ip([1, 1, 1, 1]), ip([2, 2, 2, 2])]);
    roundtrip(cl.clone());
    let mut buf = Vec::new();
    cl.encode(&mut buf, true);
    assert_eq!(buf[0], FLAG_OPTIONAL);
    assert_eq!(buf[1], 10);
    roundtrip(PathAttribute::ClusterList(vec![]));
    assert!(PathAttribute::decode(&[0x80, 10, 3, 1, 2, 3], true).is_none());
}

#[test]
fn communities_reject_non_multiple_of_four() {
    assert!(PathAttribute::decode(&[0xC0, 8, 3, 1, 2, 3], true).is_none());
}

#[test]
fn attribute_flags_are_validated_rfc7606() {
    assert!(PathAttribute::decode(&[FLAG_TRANSITIVE, 1, 1, 0], true).is_some());
    assert!(PathAttribute::decode(&[FLAG_OPTIONAL | FLAG_TRANSITIVE, 1, 1, 0], true).is_none());
    assert!(PathAttribute::decode(&[FLAG_TRANSITIVE | FLAG_PARTIAL, 1, 1, 0], true).is_none());
    assert!(PathAttribute::decode(&[FLAG_TRANSITIVE, 3, 4, 192, 0, 2, 1], true).is_some());
    assert!(
        PathAttribute::decode(&[FLAG_TRANSITIVE | FLAG_PARTIAL, 3, 4, 192, 0, 2, 1], true)
            .is_none()
    );
    assert!(PathAttribute::decode(&[FLAG_OPTIONAL, 4, 4, 0, 0, 0, 5], true).is_some());
    assert!(
        PathAttribute::decode(&[FLAG_OPTIONAL | FLAG_TRANSITIVE, 4, 4, 0, 0, 0, 5], true)
            .is_none()
    );
}

#[test]
fn as_path_with_as_zero_is_rejected_rfc7607() {
    let mut zero = Vec::new();
    PathAttribute::AsPath(vec![AsPathSegment::Sequence(vec![0])]).encode(&mut zero, true);
    assert!(PathAttribute::decode(&zero, true).is_none());
    let mut ok = Vec::new();
    PathAttribute::AsPath(vec![AsPathSegment::Sequence(vec![65001])]).encode(&mut ok, true);
    assert!(PathAttribute::decode(&ok, true).is_some());
}

#[test]
fn fixed_length_attributes_reject_wrong_length_rfc7606() {
    assert!(PathAttribute::decode(&[FLAG_TRANSITIVE, 1, 2, 0, 0], true).is_none());
    assert!(
        PathAttribute::decode(&[FLAG_TRANSITIVE, 3, 5, 192, 0, 2, 1, 9], true).is_none()
    );
    assert!(
        PathAttribute::decode(&[FLAG_OPTIONAL, 4, 5, 0, 0, 0, 5, 0], true).is_none()
    );
}

#[test]
fn variable_length_attributes_reject_wrong_length_rfc7606() {
    assert!(decode_kept(&[FLAG_TRANSITIVE, 6, 0], true).is_some());
    assert_eq!(
        PathAttribute::decode(&[FLAG_TRANSITIVE, 6, 1, 0], true),
        Some((AttrOutcome::Discard { type_code: 6 }, 4))
    );
    assert!(
        decode_kept(&[FLAG_OPTIONAL | FLAG_TRANSITIVE, 7, 8, 0, 0, 0, 1, 10, 0, 0, 1], true)
            .is_some()
    );
    assert_eq!(
        PathAttribute::decode(
            &[FLAG_OPTIONAL | FLAG_TRANSITIVE, 7, 10, 0, 0, 0, 1, 10, 0, 0, 1, 9, 9],
            true
        ),
        Some((AttrOutcome::Discard { type_code: 7 }, 13))
    );
    assert!(decode_kept(&[FLAG_OPTIONAL, 9, 4, 10, 0, 0, 1], true).is_some());
    assert!(PathAttribute::decode(&[FLAG_OPTIONAL, 9, 5, 10, 0, 0, 1, 0], true).is_none());
}

#[test]
fn attribute_discard_requires_canonical_flags_rfc7606() {
    let bad_len = |flags: u8| PathAttribute::decode(&[flags, 6, 1, 0], true);
    assert!(matches!(bad_len(FLAG_TRANSITIVE), Some((AttrOutcome::Discard { .. }, _))));
    assert!(bad_len(FLAG_OPTIONAL | FLAG_TRANSITIVE).is_none());
    assert!(bad_len(FLAG_TRANSITIVE | FLAG_PARTIAL).is_none());

    let agg = |flags: u8| PathAttribute::decode(&[flags, 7, 10, 0, 0, 0, 1, 10, 0, 0, 1, 9, 9], true);
    let canonical = FLAG_OPTIONAL | FLAG_TRANSITIVE;
    assert!(matches!(agg(canonical), Some((AttrOutcome::Discard { .. }, _))));
    assert!(matches!(agg(canonical | FLAG_PARTIAL), Some((AttrOutcome::Discard { .. }, _))));
    assert!(agg(FLAG_TRANSITIVE).is_none());
    assert!(agg(FLAG_OPTIONAL).is_none());
}

#[test]
fn unknown_attribute_is_preserved() {
    let raw = PathAttribute::Unknown {
        flags: FLAG_OPTIONAL | FLAG_TRANSITIVE,
        type_code: 99,
        value: vec![1, 2, 3, 4, 5],
    };
    roundtrip(raw);
}

#[test]
fn extended_length_used_for_long_values() {
    let big: Vec<u32> = (1..201).collect();
    let attr = PathAttribute::AsPath(vec![AsPathSegment::Sequence(big)]);
    let mut buf = Vec::new();
    attr.encode(&mut buf, true);
    assert_ne!(buf[0] & FLAG_EXTENDED_LEN, 0, "extended-length flag set");
    let (decoded, used) = decode_kept(&buf, true).unwrap();
    assert_eq!(decoded, attr);
    assert_eq!(used, buf.len());
}

#[test]
fn reconstruct_replaces_as_trans_tail_with_as4_path() {
    let as_path = vec![AsPathSegment::Sequence(vec![
        100,
        200,
        AS_TRANS as u32,
        AS_TRANS as u32,
    ])];
    let as4_path = vec![AsPathSegment::Sequence(vec![70_000, 80_000])];
    assert_eq!(
        reconstruct_as_path(&as_path, &as4_path),
        vec![AsPathSegment::Sequence(vec![100, 200, 70_000, 80_000])]
    );
}

#[test]
fn reconstruct_ignores_as4_path_longer_than_as_path() {
    let as_path = vec![AsPathSegment::Sequence(vec![100, 200])];
    let as4_path = vec![AsPathSegment::Sequence(vec![70_000, 80_000, 90_000])];
    assert_eq!(reconstruct_as_path(&as_path, &as4_path), as_path);
    assert_eq!(reconstruct_as_path(&as_path, &[]), as_path);
}

#[test]
fn reconstruct_preserves_a_leading_set() {
    let as_path = vec![
        AsPathSegment::AsSet(vec![500, 501]),
        AsPathSegment::Sequence(vec![100, AS_TRANS as u32]),
    ];
    let as4_path = vec![AsPathSegment::Sequence(vec![70_000])];
    assert_eq!(
        reconstruct_as_path(&as_path, &as4_path),
        vec![
            AsPathSegment::AsSet(vec![500, 501]),
            AsPathSegment::Sequence(vec![100, 70_000]),
        ]
    );
}

#[test]
fn an_attribute_header_uses_a_two_octet_length_exactly_above_255_octets() {
    let unknown = |n: usize| PathAttribute::Unknown {
        flags: FLAG_OPTIONAL | FLAG_TRANSITIVE,
        type_code: 200,
        value: vec![0xab; n],
    };
    let mut b = Vec::new();
    unknown(255).encode(&mut b, true);
    assert_eq!(b[0] & 0x10, 0, "255 octets is the largest one-octet length");
    assert_eq!(b[1], 200, "the type code is byte 1");
    assert_eq!(b[2], 255, "the length is a single octet at byte 2");
    assert_eq!(b.len(), 3 + 255, "3 octets of header");

    let mut b = Vec::new();
    unknown(256).encode(&mut b, true);
    assert_eq!(b[0] & 0x10, 0x10, "256 octets sets the Extended Length bit");
    assert_eq!(&b[2..4], &[0x01, 0x00], "the length is 2 octets at 2..4, big-endian");
    assert_eq!(b.len(), 4 + 256, "4 octets of header");

    for n in [255usize, 256] {
        let mut b = Vec::new();
        unknown(n).encode(&mut b, true);
        let (got, used) = decode_kept(&b, true).expect("decodes");
        assert_eq!(used, b.len(), "the header width is read back correctly");
        match got {
            PathAttribute::Unknown { type_code, value, .. } => {
                assert_eq!(type_code, 200);
                assert_eq!(value.len(), n, "a {n}-octet value survives");
                assert!(value.iter().all(|&x| x == 0xab));
            }
            other => panic!("expected an unknown attribute, got {other:?}"),
        }
    }
}

#[test]
fn the_attribute_type_codes_are_the_ones_the_rfcs_assign() {
    let code = |a: PathAttribute| {
        let mut b = Vec::new();
        a.encode(&mut b, true);
        (b[0], b[1])
    };
    assert_eq!(code(PathAttribute::Origin(Origin::Igp)), (0x40, 1));
    assert_eq!(code(PathAttribute::AsPath(vec![])), (0x40, 2));
    assert_eq!(code(PathAttribute::NextHop(ip([10, 0, 0, 1]))), (0x40, 3));
    assert_eq!(code(PathAttribute::MultiExitDisc(0)), (0x80, 4));
    assert_eq!(code(PathAttribute::LocalPref(0)), (0x40, 5));
    assert_eq!(code(PathAttribute::AtomicAggregate), (0x40, 6));
    assert_eq!(code(PathAttribute::Aggregator { asn: 1, id: ip([1, 2, 3, 4]) }), (0xc0, 7));
    assert_eq!(code(PathAttribute::Communities(vec![])), (0xc0, 8));
    assert_eq!(code(PathAttribute::OriginatorId(ip([1, 2, 3, 4]))), (0x80, 9));
    assert_eq!(code(PathAttribute::ClusterList(vec![])), (0x80, 10));
    assert_eq!(
        code(PathAttribute::MpReachNlri {
            afi: 2,
            safi: 1,
            next_hop: vec![0u8; 16],
            nlri: vec![],
        }),
        (0x80, 14),
        "MP_REACH_NLRI is optional non-transitive, type 14"
    );
    assert_eq!(
        code(PathAttribute::MpUnreachNlri { afi: 2, safi: 1, withdrawn: vec![] }),
        (0x80, 15),
        "MP_UNREACH_NLRI is optional non-transitive, type 15"
    );
    assert_eq!(code(PathAttribute::ExtendedCommunities(vec![])), (0xc0, 16));
    assert_eq!(code(PathAttribute::LargeCommunities(vec![])), (0xc0, 32));
    assert_eq!(code(PathAttribute::OnlyToCustomer(1)), (0xc0, 35));
}

#[test]
fn the_origin_codes_are_the_ones_the_rfc_assigns() {
    for (o, code) in [(Origin::Igp, 0u8), (Origin::Egp, 1), (Origin::Incomplete, 2)] {
        assert_eq!(o.as_u8(), code, "{o:?} is ORIGIN {code}");
        assert_eq!(Origin::from_u8(code), Some(o));
        let mut b = Vec::new();
        PathAttribute::Origin(o).encode(&mut b, true);
        assert_eq!(b[2], 1, "an ORIGIN value is one octet");
        assert_eq!(b[3], code, "the value is the code itself");
    }
    assert_eq!(Origin::from_u8(3), None);
}

#[test]
fn the_as_path_segment_types_are_the_ones_the_rfcs_assign() {
    let seg = |s: AsPathSegment| {
        let mut b = Vec::new();
        PathAttribute::AsPath(vec![s]).encode(&mut b, true);
        b
    };
    for (s, kind) in [
        (AsPathSegment::AsSet(vec![65001, 65002]), 1u8),
        (AsPathSegment::Sequence(vec![65001, 65002]), 2),
        (AsPathSegment::ConfedSequence(vec![65001, 65002]), 3),
        (AsPathSegment::ConfedSet(vec![65001, 65002]), 4),
    ] {
        let b = seg(s);
        assert_eq!(b[3], kind, "the segment type is the first value octet");
        assert_eq!(b[4], 2, "the count is a number of ASes, not octets");
        assert_eq!(
            &b[5..13],
            &[0, 0, 0xfd, 0xe9, 0, 0, 0xfd, 0xea],
            "the ASes follow, 4 octets each at the 4-octet width"
        );
        assert_eq!(b[2] as usize, b.len() - 3, "the attribute length covers the segment");
    }
    let b = {
        let mut v = Vec::new();
        PathAttribute::AsPath(vec![AsPathSegment::Sequence(vec![65001, 65002])])
            .encode(&mut v, false);
        v
    };
    assert_eq!(b[4], 2, "still two ASes");
    assert_eq!(&b[5..9], &[0xfd, 0xe9, 0xfd, 0xea], "2 octets each");
}

#[test]
fn an_mp_reach_value_has_a_reserved_octet_between_the_next_hop_and_the_nlri() {
    let nh: Vec<u8> = (0x20..0x30).collect();
    let mut b = Vec::new();
    PathAttribute::MpReachNlri {
        afi: AFI_IPV6,
        safi: SAFI_UNICAST,
        next_hop: nh.clone(),
        nlri: vec![p("2001:db8::/32")],
    }
    .encode(&mut b, true);
    let v = &b[3..];
    assert_eq!(&v[0..2], &[0, 2], "AFI is bytes 0..2 of the value; IPv6 is 2");
    assert_eq!(v[2], 1, "SAFI is byte 2; unicast is 1");
    assert_eq!(v[3], 16, "the Next Hop *length* is byte 3");
    assert_eq!(&v[4..20], &nh[..], "the next hop itself is bytes 4..20");
    assert_eq!(v[20], 0, "byte 20 is the Reserved octet and must be zero");
    assert_eq!(&v[21..], &[32, 0x20, 0x01, 0x0d, 0xb8], "the NLRI starts at byte 21");

    let mut b = Vec::new();
    PathAttribute::MpUnreachNlri {
        afi: AFI_IPV6,
        safi: SAFI_UNICAST,
        withdrawn: vec![p("2001:db8::/32")],
    }
    .encode(&mut b, true);
    let v = &b[3..];
    assert_eq!(&v[0..2], &[0, 2], "AFI is bytes 0..2");
    assert_eq!(v[2], 1, "SAFI is byte 2");
    assert_eq!(
        &v[3..],
        &[32, 0x20, 0x01, 0x0d, 0xb8],
        "the withdrawn NLRI follows the SAFI directly"
    );
}

#[test]
fn the_hard_coded_address_families_use_the_iana_assigned_numbers() {
    let value = |a: PathAttribute| {
        let mut b = Vec::new();
        a.encode(&mut b, true);
        let hdr = if b[0] & 0x10 != 0 { 4 } else { 3 };
        b[hdr..].to_vec()
    };
    let evpn = value(PathAttribute::MpReachEvpn { next_hop: vec![10, 0, 0, 1], nlri: vec![] });
    assert_eq!(&evpn[0..3], &[0, 25, 70], "EVPN is AFI 25 (L2VPN), SAFI 70");

    let ls = value(PathAttribute::MpReachLinkState { next_hop: vec![10, 0, 0, 1], nlri: vec![] });
    assert_eq!(
        &ls[0..3],
        &[0x40, 0x04, 71],
        "BGP-LS is AFI 16388 (0x4004), SAFI 71"
    );
    let ls_u = value(PathAttribute::MpUnreachLinkState { withdrawn: vec![] });
    assert_eq!(&ls_u[0..3], &[0x40, 0x04, 71]);

    let srp = value(PathAttribute::MpReachSrPolicy {
        afi: AFI_IPV4,
        next_hop: vec![10, 0, 0, 1],
        nlri: vec![],
    });
    assert_eq!(&srp[0..3], &[0, 1, 73], "SR Policy is SAFI 73 under the endpoint's AFI");
    let srp6 = value(PathAttribute::MpUnreachSrPolicy {
        afi: AFI_IPV6,
        withdrawn: vec![],
    });
    assert_eq!(&srp6[0..3], &[0, 2, 73]);

    let fs = value(PathAttribute::MpUnreachFlowSpec {
        afi: AFI_IPV4,
        withdrawn: vec![],
    });
    assert_eq!(&fs[0..3], &[0, 1, 133], "FlowSpec is SAFI 133");
}

#[test]
fn the_sr_policy_and_link_state_attributes_round_trip_and_keep_their_wire_shape() {

    let v4 = SrPolicyNlri {
        distinguisher: 1,
        color: 100,
        endpoint: ip_of("10.0.0.9"),
    };
    let attr = PathAttribute::MpReachSrPolicy {
        afi: AFI_IPV4,
        next_hop: vec![10, 0, 0, 1],
        nlri: vec![v4],
    };
    let mut b = Vec::new();
    attr.encode(&mut b, true);
    let n = &b[3 + 2 + 1 + 1 + 4 + 1..];
    assert_eq!(n[0], 96, "an IPv4 SR Policy NLRI is 96 bits (12 octets) long");
    assert_eq!(&n[1..5], &[0, 0, 0, 1], "the distinguisher is 4 octets");
    assert_eq!(&n[5..9], &[0, 0, 0, 100], "the colour is 4 octets");
    assert_eq!(&n[9..13], &[10, 0, 0, 9], "the endpoint follows its AFI's width");
    let (decoded, used) = decode_kept(&b, true).expect("decodes");
    assert_eq!(decoded, attr);
    assert_eq!(used, b.len());

    let v6 = SrPolicyNlri {
        distinguisher: 2,
        color: 200,
        endpoint: ip_of("2001:db8::9"),
    };
    let attr = PathAttribute::MpUnreachSrPolicy {
        afi: AFI_IPV6,
        withdrawn: vec![v6],
    };
    let mut b = Vec::new();
    attr.encode(&mut b, true);
    assert_eq!(b[3 + 3], 192, "an IPv6 SR Policy NLRI is 192 bits (24 octets) long");
    assert_eq!(decode_kept(&b, true).expect("decodes").0, attr);

    let attr = PathAttribute::TunnelEncap(vec![TunnelTlv::Other {
        tunnel_type: 3,
        value: vec![0xde, 0xad, 0xbe, 0xef],
    }]);
    let mut b = Vec::new();
    attr.encode(&mut b, true);
    assert_eq!(b[1], 23, "TUNNEL ENCAPSULATION is attribute type 23");
    assert_eq!(&b[3..5], &[0, 3], "Tunnel-Type is a 2-octet field");
    assert_eq!(&b[5..7], &[0, 4], "then a 2-octet Length");
    assert_eq!(&b[7..11], &[0xde, 0xad, 0xbe, 0xef], "then the value");
    assert_eq!(decode_kept(&b, true).expect("decodes").0, attr);

    let nlri = LinkStateNlri {
        kind: LsObjectKind::Node,
        protocol: 2,
        identifier: 0,
        descriptors: vec![LsTlv { typ: 512, value: vec![0, 0, 0xfd, 0xe8] }],
    };
    let attr = PathAttribute::MpReachLinkState {
        next_hop: vec![10, 0, 0, 1],
        nlri: vec![nlri.clone()],
    };
    let mut b = Vec::new();
    attr.encode(&mut b, true);
    let n = &b[3 + 2 + 1 + 1 + 4 + 1..];
    assert_eq!(&n[0..2], &[0, 1], "NLRI-Type is 2 octets; a Node NLRI is 1");
    assert_eq!(
        u16::from_be_bytes([n[2], n[3]]) as usize,
        n.len() - 4,
        "Total NLRI Length is bytes 2..4 and covers everything after it"
    );
    assert_eq!(n[4], 2, "Protocol-ID is byte 4");
    assert_eq!(&n[5..13], &[0u8; 8], "the Identifier is an 8-octet field at 5..13");
    assert_eq!(&n[13..17], &[0x02, 0x00, 0, 4], "then the descriptor TLVs (type 512, len 4)");
    assert_eq!(decode_kept(&b, true).expect("decodes").0, attr);

    let attr = PathAttribute::MpUnreachLinkState { withdrawn: vec![nlri] };
    let mut b = Vec::new();
    attr.encode(&mut b, true);
    assert_eq!(decode_kept(&b, true).expect("decodes").0, attr);

    let attr = PathAttribute::BgpLs(BgpLsAttribute::new(vec![
        LsTlv { typ: 1026, value: b"wren".to_vec() },
    ]));
    let mut b = Vec::new();
    attr.encode(&mut b, true);
    assert_eq!(b[0], 0x80, "BGP-LS_ATTRIBUTE is optional non-transitive");
    assert_eq!(b[1], 29, "BGP-LS_ATTRIBUTE is type code 29");
    assert_eq!(&b[3..5], &[0x04, 0x02], "the node-name TLV type is 1026");
    assert_eq!(&b[5..7], &[0, 4], "then its 2-octet length");
    assert_eq!(&b[7..11], b"wren");
    assert_eq!(decode_kept(&b, true).expect("decodes").0, attr);
}
