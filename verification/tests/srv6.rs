use wren::bgp::srv6::{
    Srv6ServiceSid, Srv6ServiceTlv, Srv6SidStructure, build_service_sid, decode_prefix_sid,
    encode_srv6_service_tlv,
};
use wren::bgp::srv6::behavior::{END_DT2M, END_DT2U};
use wren::net::Ipv6Addr;

fn v6_of(s: &str) -> Ipv6Addr {
    let words = |t: &str| -> Vec<u16> {
        t.split(':').filter(|w| !w.is_empty()).map(|w| u16::from_str_radix(w, 16).unwrap()).collect()
    };
    let (head, tail) = s.split_once("::").unwrap_or((s, ""));
    let (head, tail) = (words(head), words(tail));
    let mut octets = [0u8; 16];
    for (i, w) in head.iter().enumerate() {
        octets[2 * i..2 * i + 2].copy_from_slice(&w.to_be_bytes());
    }
    for (i, w) in tail.iter().enumerate() {
        let k = 16 - 2 * (tail.len() - i);
        octets[k..k + 2].copy_from_slice(&w.to_be_bytes());
    }
    Ipv6Addr::new(octets)
}

fn sample_sid() -> Srv6ServiceSid {
    let (sid, structure) = build_service_sid(v6_of("fc00:0:1::"), 48, 0x00, 10100);
    Srv6ServiceSid {
        sid,
        behavior: END_DT2U,
        flags: 0,
        structure,
    }
}

#[test]
fn build_service_sid_places_vni_after_locator() {
    let (sid, st) = build_service_sid(v6_of("fc00:0:1::"), 48, 0x00, 10100);
    assert_eq!(&sid[0..6], &[0xfc, 0x00, 0x00, 0x00, 0x00, 0x01]);
    assert_eq!(sid[6], 0x00);
    assert_eq!(&sid[7..10], &10100u32.to_be_bytes()[1..4]);
    assert_eq!(st.locator_block_len, 40);
    assert_eq!(st.locator_node_len, 8);
    assert_eq!(st.function_len, 32);
}

#[test]
fn discriminator_distinguishes_unicast_and_multicast() {
    let (u, _) = build_service_sid(v6_of("fc00:0:1::"), 48, 0x00, 10100);
    let (m, _) = build_service_sid(v6_of("fc00:0:1::"), 48, 0x01, 10100);
    assert_ne!(u, m);
    assert_eq!(m[6], 0x01);
}

#[test]
fn service_tlv_roundtrips() {
    let tlv = Srv6ServiceTlv {
        is_l2: true,
        sids: vec![sample_sid()],
    };
    let mut buf = Vec::new();
    encode_srv6_service_tlv(&mut buf, &tlv);
    let (srv6, other) = decode_prefix_sid(&buf).expect("decode");
    assert!(other.is_empty());
    assert_eq!(srv6, vec![tlv]);
}

#[test]
fn preserves_unknown_toplevel_tlv() {
    let mut buf = vec![1u8, 0x00, 0x07, 0, 0, 0, 0, 0, 0, 0];
    let tlv = Srv6ServiceTlv {
        is_l2: false,
        sids: vec![sample_sid()],
    };
    encode_srv6_service_tlv(&mut buf, &tlv);
    let (srv6, other) = decode_prefix_sid(&buf).expect("decode");
    assert_eq!(srv6, vec![tlv]);
    assert_eq!(other, vec![(1u8, vec![0u8; 7])]);
}

#[test]
fn rejects_truncated_tlv() {
    assert!(decode_prefix_sid(&[5u8, 0x00, 0x28]).is_none());
}

#[test]
fn sid_information_survives_missing_structure() {
    let s = Srv6ServiceSid {
        sid: [0x20; 16],
        behavior: END_DT2M,
        flags: 0,
        structure: Srv6SidStructure::default(),
    };
    let tlv = Srv6ServiceTlv {
        is_l2: true,
        sids: vec![s],
    };
    let mut buf = Vec::new();
    encode_srv6_service_tlv(&mut buf, &tlv);
    let (srv6, _) = decode_prefix_sid(&buf).expect("decode");
    assert_eq!(srv6[0].sids[0].sid, [0x20; 16]);
    assert_eq!(srv6[0].sids[0].behavior, END_DT2M);
}
