use wren::bgp::{AFI_IPV4, AFI_IPV6};
use wren::bgp::sr_policy::{
    BindingSid, Segment, SegmentList, SrPolicyEncoding, SrPolicyNlri, TUNNEL_TYPE_SR_POLICY,
    TunnelTlv, decode_nlris, decode_tunnel_encap, decode_tunnel_value, encode_tunnel_encap,
    encode_tunnel_tlv, sr_policy_of,
};
use wren::bgp::srv6::{Srv6Sid, Srv6SidStructure};
use wren::net::{IpAddr, Ipv4Addr, Ipv6Addr};

fn v4_of(s: &str) -> Ipv4Addr {
    let o: Vec<u8> = s.split('.').map(|x| x.parse().unwrap()).collect();
    Ipv4Addr::new(o[0], o[1], o[2], o[3])
}

fn v6_of(s: &str) -> Ipv6Addr {
    let words = |t: &str| -> Vec<u16> {
        t.split(':').filter(|w| !w.is_empty()).map(|w| u16::from_str_radix(w, 16).unwrap()).collect()
    };
    let (head, tail) = s.split_once("::").unwrap_or((s, ""));
    let (head, tail) = (words(head), words(tail));
    let mut octets = [0u8; 16];
    for (i, w) in head.iter().enumerate() {
        octets[2 * i..2 * i + 2].copy_from_slice(&w.to_be_bytes());
    }
    for (i, w) in tail.iter().enumerate() {
        let k = 16 - 2 * (tail.len() - i);
        octets[k..k + 2].copy_from_slice(&w.to_be_bytes());
    }
    Ipv6Addr::new(octets)
}

fn ip_of(s: &str) -> IpAddr {
    if s.contains(':') {
        IpAddr::V6(v6_of(s))
    } else {
        IpAddr::V4(v4_of(s))
    }
}

fn v6(s: &str) -> Srv6Sid {
    v6_of(s).octets()
}

#[test]
fn nlri_roundtrips_v4_and_v6() {
    let n4 = SrPolicyNlri {
        distinguisher: 1,
        color: 100,
        endpoint: ip_of("10.0.0.9"),
    };
    let mut buf = Vec::new();
    n4.encode(&mut buf);
    let (dec, used) = SrPolicyNlri::decode(&buf, AFI_IPV4).unwrap();
    assert_eq!(dec, n4);
    assert_eq!(used, buf.len());

    let n6 = SrPolicyNlri {
        distinguisher: 7,
        color: 200,
        endpoint: ip_of("2001:db8::1"),
    };
    let mut buf = Vec::new();
    n6.encode(&mut buf);
    let (dec, used) = SrPolicyNlri::decode(&buf, AFI_IPV6).unwrap();
    assert_eq!(dec, n6);
    assert_eq!(used, buf.len());
}

#[test]
fn sr_policy_multiple_nlris_decode() {
    let a = SrPolicyNlri {
        distinguisher: 1,
        color: 100,
        endpoint: ip_of("10.0.0.1"),
    };
    let b = SrPolicyNlri {
        distinguisher: 2,
        color: 100,
        endpoint: ip_of("10.0.0.2"),
    };
    let mut buf = Vec::new();
    a.encode(&mut buf);
    b.encode(&mut buf);
    assert_eq!(decode_nlris(&buf, AFI_IPV4), Some(vec![a, b]));
}

#[test]
fn tunnel_tlv_roundtrips_full_srv6_candidate() {
    let enc = SrPolicyEncoding {
        preference: Some(200),
        binding_sid: BindingSid::Srv6Sid(v6("2001:db8:b::1")),
        priority: Some(10),
        policy_name: Some("blue-te".to_string()),
        segment_lists: vec![SegmentList {
            weight: Some(1),
            segments: vec![
                Segment::Srv6Sid {
                    sid: v6("2001:db8:1::1"),
                    behavior: None,
                    structure: None,
                },
                Segment::Srv6Sid {
                    sid: v6("2001:db8:2::1"),
                    behavior: Some(0x0040),
                    structure: Some(Srv6SidStructure {
                        locator_block_len: 40,
                        locator_node_len: 24,
                        function_len: 16,
                        argument_len: 0,
                        transposition_len: 0,
                        transposition_offset: 0,
                    }),
                },
            ],
        }],
    };
    let mut buf = Vec::new();
    encode_tunnel_tlv(&mut buf, &enc);
    assert_eq!(u16::from_be_bytes([buf[0], buf[1]]), TUNNEL_TYPE_SR_POLICY);
    let len = u16::from_be_bytes([buf[2], buf[3]]) as usize;
    let value = &buf[4..4 + len];
    let dec = decode_tunnel_value(value).expect("decode");
    assert_eq!(dec, enc);
}

#[test]
fn tunnel_tlv_roundtrips_mpls_candidate() {
    let enc = SrPolicyEncoding {
        preference: Some(100),
        binding_sid: BindingSid::MplsLabel(24000),
        priority: None,
        policy_name: None,
        segment_lists: vec![SegmentList {
            weight: None,
            segments: vec![Segment::MplsLabel(16001), Segment::MplsLabel(16002)],
        }],
    };
    let mut buf = Vec::new();
    encode_tunnel_tlv(&mut buf, &enc);
    let len = u16::from_be_bytes([buf[2], buf[3]]) as usize;
    let dec = decode_tunnel_value(&buf[4..4 + len]).expect("decode");
    assert_eq!(dec, enc);
}

#[test]
fn default_preference_is_100() {
    let enc = SrPolicyEncoding::default();
    assert_eq!(enc.effective_preference(), 100);
    let enc = SrPolicyEncoding {
        preference: Some(250),
        ..Default::default()
    };
    assert_eq!(enc.effective_preference(), 250);
}

#[test]
fn tunnel_encap_attr_roundtrips_with_opaque_neighbour_tlv() {
    let enc = SrPolicyEncoding {
        preference: Some(150),
        binding_sid: BindingSid::Absent,
        priority: None,
        policy_name: Some("p1".to_string()),
        segment_lists: vec![SegmentList {
            weight: Some(2),
            segments: vec![Segment::Srv6Sid {
                sid: v6("2001:db8:1::1"),
                behavior: None,
                structure: None,
            }],
        }],
    };
    let tlvs = vec![
        TunnelTlv::Other {
            tunnel_type: 2,
            value: vec![0xaa, 0xbb, 0xcc],
        },
        TunnelTlv::SrPolicy(enc.clone()),
    ];
    let bytes = encode_tunnel_encap(&tlvs);
    let dec = decode_tunnel_encap(&bytes).expect("decode");
    assert_eq!(dec, tlvs);
    assert_eq!(sr_policy_of(&dec), Some(&enc));
}

#[test]
fn malformed_sub_tlv_length_is_rejected() {
    let buf = [128, 0x00, 0x40, 0x00];
    assert!(decode_tunnel_value(&buf).is_none());
}
