use wren::bgp::evpn::{
    Esi, EvpnNlri, ROUTE_TYPE_ETH_SEGMENT, ROUTE_TYPE_IMET, ROUTE_TYPE_MAC_IP, Rd,
    TUNNEL_TYPE_VXLAN, decode_evpn_nlri, decode_evpn_nlris, encap_ext_community, encode_evpn_nlri,
};
use wren::net::{IpAddr, Ipv4Addr, Ipv6Addr, Prefix};

fn v4_of(s: &str) -> Ipv4Addr {
    let o: Vec<u8> = s.split('.').map(|x| x.parse().unwrap()).collect();
    Ipv4Addr::new(o[0], o[1], o[2], o[3])
}

fn v6_of(s: &str) -> Ipv6Addr {
    let words = |t: &str| -> Vec<u16> {
        t.split(':').filter(|w| !w.is_empty()).map(|w| u16::from_str_radix(w, 16).unwrap()).collect()
    };
    let (head, tail) = s.split_once("::").unwrap_or((s, ""));
    let (head, tail) = (words(head), words(tail));
    let mut octets = [0u8; 16];
    for (i, w) in head.iter().enumerate() {
        octets[2 * i..2 * i + 2].copy_from_slice(&w.to_be_bytes());
    }
    for (i, w) in tail.iter().enumerate() {
        let k = 16 - 2 * (tail.len() - i);
        octets[k..k + 2].copy_from_slice(&w.to_be_bytes());
    }
    Ipv6Addr::new(octets)
}

fn ip_of(s: &str) -> IpAddr {
    if s.contains(':') {
        IpAddr::V6(v6_of(s))
    } else {
        IpAddr::V4(v4_of(s))
    }
}

fn prefix_of(s: &str) -> Prefix {
    let (addr, len) = s.split_once('/').unwrap();
    Prefix::new(ip_of(addr), len.parse().unwrap()).unwrap()
}

fn rd() -> Rd {
    Rd::from_ip(Ipv4Addr::new(192, 0, 2, 1), 100)
}

fn roundtrip(nlri: &EvpnNlri) {
    let mut buf = Vec::new();
    encode_evpn_nlri(&mut buf, nlri);
    let (decoded, used) = decode_evpn_nlri(&buf).expect("decodes");
    assert_eq!(used, buf.len());
    assert_eq!(&decoded, nlri);
}

#[test]
fn mac_ip_roundtrips_without_ip() {
    roundtrip(&EvpnNlri::MacIp {
        rd: rd(),
        esi: Esi::zero(),
        eth_tag: 0,
        mac: [0x02, 0x00, 0x5e, 0x10, 0x00, 0x01],
        ip: None,
        label1: 10100,
        label2: None,
    });
}

#[test]
fn mac_ip_roundtrips_with_v4_and_l3_label() {
    roundtrip(&EvpnNlri::MacIp {
        rd: rd(),
        esi: Esi::zero(),
        eth_tag: 0,
        mac: [0x02, 0x00, 0x5e, 0x10, 0x00, 0x01],
        ip: Some(IpAddr::V4(Ipv4Addr::new(10, 0, 0, 5))),
        label1: 10100,
        label2: Some(4001),
    });
}

#[test]
fn mac_ip_roundtrips_with_v6() {
    roundtrip(&EvpnNlri::MacIp {
        rd: rd(),
        esi: Esi::zero(),
        eth_tag: 0,
        mac: [0xaa, 0xbb, 0xcc, 0xdd, 0xee, 0xff],
        ip: Some(IpAddr::V6(v6_of("2001:db8::5"))),
        label1: 10100,
        label2: None,
    });
}

#[test]
fn imet_roundtrips_v4_and_v6() {
    roundtrip(&EvpnNlri::Imet {
        rd: rd(),
        eth_tag: 0,
        orig_ip: IpAddr::V4(Ipv4Addr::new(192, 0, 2, 1)),
    });
    roundtrip(&EvpnNlri::Imet {
        rd: rd(),
        eth_tag: 0,
        orig_ip: IpAddr::V6(v6_of("2001:db8::1")),
    });
}

#[test]
fn ip_prefix_roundtrips_v4_and_v6() {
    roundtrip(&EvpnNlri::IpPrefix {
        rd: rd(),
        esi: Esi::zero(),
        eth_tag: 0,
        prefix: Prefix::new(IpAddr::V4(Ipv4Addr::new(10, 1, 0, 0)), 24).unwrap(),
        gw: IpAddr::V4(Ipv4Addr::new(0, 0, 0, 0)),
        label: 4001,
    });
    roundtrip(&EvpnNlri::IpPrefix {
        rd: rd(),
        esi: Esi::zero(),
        eth_tag: 0,
        prefix: prefix_of("2001:db8:1::/64"),
        gw: IpAddr::V6(Ipv6Addr::new([0; 16])),
        label: 4001,
    });
}

#[test]
fn unknown_route_type_is_skipped_not_rejected() {
    let mut buf = vec![ROUTE_TYPE_ETH_SEGMENT, 3, 0xaa, 0xbb, 0xcc];
    buf.extend_from_slice(&[ROUTE_TYPE_IMET, 0]);
    let (first, used) = decode_evpn_nlri(&buf).unwrap();
    assert_eq!(
        first,
        EvpnNlri::Unknown {
            route_type: ROUTE_TYPE_ETH_SEGMENT,
            body: vec![0xaa, 0xbb, 0xcc],
        }
    );
    assert_eq!(used, 5);
}

#[test]
fn malformed_body_becomes_unknown_but_truncated_framing_fails() {
    let buf = [ROUTE_TYPE_MAC_IP, 2, 0x01, 0x02];
    let (nlri, used) = decode_evpn_nlri(&buf).unwrap();
    assert!(matches!(nlri, EvpnNlri::Unknown { .. }));
    assert_eq!(used, 4);
    assert!(decode_evpn_nlri(&[ROUTE_TYPE_MAC_IP, 40, 0x00]).is_none());
    assert!(decode_evpn_nlri(&[]).is_none());
}

#[test]
fn mac_len_other_than_48_is_ignored() {
    let mut buf = Vec::new();
    encode_evpn_nlri(
        &mut buf,
        &EvpnNlri::MacIp {
            rd: rd(),
            esi: Esi::zero(),
            eth_tag: 0,
            mac: [0; 6],
            ip: None,
            label1: 1,
            label2: None,
        },
    );
    buf[2 + 22] = 24;
    let (nlri, _) = decode_evpn_nlri(&buf).unwrap();
    assert!(matches!(nlri, EvpnNlri::Unknown { .. }));
}

#[test]
fn nlri_run_decodes_all_or_nothing() {
    let mut buf = Vec::new();
    encode_evpn_nlri(
        &mut buf,
        &EvpnNlri::Imet {
            rd: rd(),
            eth_tag: 0,
            orig_ip: IpAddr::V4(Ipv4Addr::new(192, 0, 2, 1)),
        },
    );
    let one = decode_evpn_nlris(&buf).unwrap();
    assert_eq!(one.len(), 1);
    buf.push(0x07);
    assert!(decode_evpn_nlris(&buf).is_none());
}

#[test]
fn rd_formats_by_type() {
    assert_eq!(rd().to_string(), "192.0.2.1:100");
    assert_eq!(Rd::from_as2(65001, 10100).to_string(), "65001:10100");
}

#[test]
fn encap_community_is_vxlan_shaped() {
    let c = encap_ext_community(TUNNEL_TYPE_VXLAN);
    assert_eq!(c, [0x03, 0x0c, 0, 0, 0, 0, 0, 8]);
}
