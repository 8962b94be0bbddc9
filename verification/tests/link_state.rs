use wren::bgp::link_state::{
    ATTR_ADJ_SID, ATTR_ADMIN_GROUP, ATTR_IGP_METRIC, ATTR_NODE_NAME, ATTR_SRLG, BgpLsAttribute,
    LinkStateNlri, LsObjectKind, LsTlv, SUBTLV_AUTONOMOUS_SYSTEM, SUBTLV_IGP_ROUTER_ID,
    TLV_IP_REACHABILITY, TLV_LOCAL_NODE_DESCRIPTORS, TLV_REMOTE_NODE_DESCRIPTORS, decode_nlris,
    decode_tlvs, format_router_id,
};
use wren::net::{IpAddr, Ipv4Addr, Ipv6Addr, Prefix};

fn v4_of(s: &str) -> Ipv4Addr {
    let o: Vec<u8> = s.split('.').map(|x| x.parse().unwrap()).collect();
    Ipv4Addr::new(o[0], o[1], o[2], o[3])
}

fn v6_of(s: &str) -> Ipv6Addr {
    let words = |t: &str| -> Vec<u16> {
        t.split(':').filter(|w| !w.is_empty()).map(|w| u16::from_str_radix(w, 16).unwrap()).collect()
    };
    let (head, tail) = s.split_once("::").unwrap_or((s, ""));
    let (head, tail) = (words(head), words(tail));
    let mut octets = [0u8; 16];
    for (i, w) in head.iter().enumerate() {
        octets[2 * i..2 * i + 2].copy_from_slice(&w.to_be_bytes());
    }
    for (i, w) in tail.iter().enumerate() {
        let k = 16 - 2 * (tail.len() - i);
        octets[k..k + 2].copy_from_slice(&w.to_be_bytes());
    }
    Ipv6Addr::new(octets)
}

fn ip_of(s: &str) -> IpAddr {
    if s.contains(':') {
        IpAddr::V6(v6_of(s))
    } else {
        IpAddr::V4(v4_of(s))
    }
}

fn prefix_of(s: &str) -> Prefix {
    let (addr, len) = s.split_once('/').unwrap();
    Prefix::new(ip_of(addr), len.parse().unwrap()).unwrap()
}

fn local_node(as_num: u32, router_id: [u8; 4]) -> LsTlv {
    let mut sub = Vec::new();
    LsTlv {
        typ: SUBTLV_AUTONOMOUS_SYSTEM,
        value: as_num.to_be_bytes().to_vec(),
    }
    .encode(&mut sub);
    LsTlv {
        typ: SUBTLV_IGP_ROUTER_ID,
        value: router_id.to_vec(),
    }
    .encode(&mut sub);
    LsTlv {
        typ: TLV_LOCAL_NODE_DESCRIPTORS,
        value: sub,
    }
}

#[test]
fn node_nlri_roundtrips_and_extracts_descriptors() {
    let nlri = LinkStateNlri {
        kind: LsObjectKind::Node,
        protocol: 3,
        identifier: 0,
        descriptors: vec![local_node(65000, [10, 0, 0, 1])],
    };
    let mut buf = Vec::new();
    nlri.encode(&mut buf);
    let (dec, used) = LinkStateNlri::decode(&buf).unwrap();
    assert_eq!(dec, nlri);
    assert_eq!(used, buf.len());
    assert_eq!(dec.local_as(), Some(65000));
    assert_eq!(
        dec.igp_router_id(TLV_LOCAL_NODE_DESCRIPTORS),
        Some(vec![10, 0, 0, 1])
    );
    assert_eq!(
        format_router_id(&dec.igp_router_id(256).unwrap()),
        "10.0.0.1"
    );
}

#[test]
fn link_nlri_roundtrips_with_remote_node_and_link_descriptors() {
    let nlri = LinkStateNlri {
        kind: LsObjectKind::Link,
        protocol: 3,
        identifier: 0,
        descriptors: vec![
            local_node(65000, [10, 0, 0, 1]),
            LsTlv {
                typ: TLV_REMOTE_NODE_DESCRIPTORS,
                value: {
                    let mut sub = Vec::new();
                    LsTlv {
                        typ: SUBTLV_IGP_ROUTER_ID,
                        value: vec![10, 0, 0, 2],
                    }
                    .encode(&mut sub);
                    sub
                },
            },
            LsTlv {
                typ: 259,
                value: vec![192, 0, 2, 1],
            },
            LsTlv {
                typ: 260,
                value: vec![192, 0, 2, 2],
            },
        ],
    };
    let mut buf = Vec::new();
    nlri.encode(&mut buf);
    let (dec, _) = LinkStateNlri::decode(&buf).unwrap();
    assert_eq!(dec, nlri);
    assert_eq!(
        dec.igp_router_id(TLV_REMOTE_NODE_DESCRIPTORS),
        Some(vec![10, 0, 0, 2])
    );
}

#[test]
fn prefix_nlri_roundtrips_and_extracts_prefix() {
    let nlri = LinkStateNlri {
        kind: LsObjectKind::Ipv4Prefix,
        protocol: 3,
        identifier: 0,
        descriptors: vec![
            local_node(65000, [10, 0, 0, 1]),
            LsTlv {
                typ: TLV_IP_REACHABILITY,
                value: vec![24, 10, 20, 30],
            },
        ],
    };
    let mut buf = Vec::new();
    nlri.encode(&mut buf);
    let (dec, _) = LinkStateNlri::decode(&buf).unwrap();
    assert_eq!(dec, nlri);
    assert_eq!(dec.prefix(), Some(prefix_of("10.20.30.0/24")));
}

#[test]
fn link_state_multiple_nlris_decode() {
    let a = LinkStateNlri {
        kind: LsObjectKind::Node,
        protocol: 3,
        identifier: 0,
        descriptors: vec![local_node(65000, [10, 0, 0, 1])],
    };
    let b = LinkStateNlri {
        kind: LsObjectKind::Node,
        protocol: 3,
        identifier: 0,
        descriptors: vec![local_node(65000, [10, 0, 0, 2])],
    };
    let mut buf = Vec::new();
    a.encode(&mut buf);
    b.encode(&mut buf);
    assert_eq!(decode_nlris(&buf), Some(vec![a, b]));
}

#[test]
fn bgp_ls_attribute_roundtrips_and_extracts_fields() {
    let mut tlvs = vec![
        LsTlv {
            typ: ATTR_NODE_NAME,
            value: b"r1".to_vec(),
        },
        LsTlv {
            typ: ATTR_IGP_METRIC,
            value: vec![0x00, 0x0a],
        },
        LsTlv {
            typ: ATTR_ADMIN_GROUP,
            value: vec![0x00, 0x00, 0x00, 0x05],
        },
        LsTlv {
            typ: ATTR_SRLG,
            value: vec![0, 0, 0, 100, 0, 0, 0, 200],
        },
    ];
    tlvs.push(LsTlv {
        typ: ATTR_ADJ_SID,
        value: vec![0, 0, 0, 0, 0x3e, 0x80],
    });
    let attr = BgpLsAttribute::new(tlvs);
    let mut buf = Vec::new();
    attr.encode(&mut buf);
    let dec = BgpLsAttribute::decode(&buf).unwrap();
    assert_eq!(dec, attr);
    assert_eq!(dec.node_name().as_deref(), Some("r1"));
    assert_eq!(dec.igp_metric(), Some(10));
    assert_eq!(dec.admin_group(), Some(5));
    assert_eq!(dec.srlgs(), vec![100, 200]);
    assert!(dec.has_sr());
}

#[test]
fn truncated_tlv_is_rejected() {
    assert!(decode_tlvs(&[0x01, 0x00, 0x00, 0x28]).is_none());
    assert!(LinkStateNlri::decode(&[0x00, 0x01, 0x00, 0x40, 0x03]).is_none());
}

#[test]
fn isis_system_id_router_id_formats() {
    assert_eq!(
        format_router_id(&[0x19, 0x21, 0x68, 0x00, 0x10, 0x05]),
        "1921.6800.1005"
    );
}
