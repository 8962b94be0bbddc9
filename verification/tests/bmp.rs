use wren::bgp::bmp::{
    COMMON_HEADER_LEN, PEER_FLAG_V_IPV6, PER_PEER_HEADER_LEN, PerPeerHeader, VERSION, initiation,
    parse_common_header, peer_down, peer_up, route_monitoring, termination,
};
use wren::bgp::bmp::msg_type::{INITIATION, PEER_UP, ROUTE_MONITORING};
use wren::bgp::bmp::peer_down_reason::REMOTE_NO_NOTIFICATION;
use wren::bgp::bmp::peer_type::GLOBAL_INSTANCE;
use wren::net::{IpAddr, Ipv4Addr, Ipv6Addr};

fn v4_of(s: &str) -> Ipv4Addr {
    let o: Vec<u8> = s.split('.').map(|x| x.parse().unwrap()).collect();
    Ipv4Addr::new(o[0], o[1], o[2], o[3])
}

fn v6_of(s: &str) -> Ipv6Addr {
    let words = |t: &str| -> Vec<u16> {
        t.split(':').filter(|w| !w.is_empty()).map(|w| u16::from_str_radix(w, 16).unwrap()).collect()
    };
    let (head, tail) = s.split_once("::").unwrap_or((s, ""));
    let (head, tail) = (words(head), words(tail));
    let mut octets = [0u8; 16];
    for (i, w) in head.iter().enumerate() {
        octets[2 * i..2 * i + 2].copy_from_slice(&w.to_be_bytes());
    }
    for (i, w) in tail.iter().enumerate() {
        let k = 16 - 2 * (tail.len() - i);
        octets[k..k + 2].copy_from_slice(&w.to_be_bytes());
    }
    Ipv6Addr::new(octets)
}

fn ip_of(s: &str) -> IpAddr {
    if s.contains(':') {
        IpAddr::V6(v6_of(s))
    } else {
        IpAddr::V4(v4_of(s))
    }
}

fn pph() -> PerPeerHeader {
    PerPeerHeader::global(
        ip_of("10.0.0.2"),
        65002,
        v4_of("10.0.0.2"),
        0x1122_3344,
        0x5566_7788,
    )
}

#[test]
fn common_header_frames_every_message() {
    for msg in [
        initiation("r1", "wren"),
        termination(0),
        peer_up(&pph(), ip_of("10.0.0.1"), 179, 50000, &[1, 2, 3], &[4, 5]),
        peer_down(&pph(), REMOTE_NO_NOTIFICATION, &[]),
        route_monitoring(&pph(), &[9; 23]),
    ] {
        let (_, len) = parse_common_header(&msg).expect("header");
        assert_eq!(len, msg.len(), "Common Header length must match the buffer");
        assert_eq!(msg[0], VERSION);
    }
}

#[test]
fn per_peer_header_is_42_octets_with_ipv4_in_the_low_four() {
    let mut out = Vec::new();
    pph().encode(&mut out);
    assert_eq!(out.len(), PER_PEER_HEADER_LEN);
    assert_eq!(out[0], GLOBAL_INSTANCE);
    assert_eq!(out[1], 0);
    assert_eq!(&out[2..10], &[0u8; 8]);
    assert_eq!(&out[10..22], &[0u8; 12]);
    assert_eq!(&out[22..26], &[10, 0, 0, 2]);
    assert_eq!(&out[26..30], &65002u32.to_be_bytes());
    assert_eq!(&out[30..34], &[10, 0, 0, 2]);
}

#[test]
fn ipv6_peer_sets_the_v_flag_and_full_address() {
    let h = PerPeerHeader::global(ip_of("2001:db8::2"), 65002, v4_of("10.0.0.2"), 0, 0);
    assert_eq!(h.flags, PEER_FLAG_V_IPV6);
    let mut out = Vec::new();
    h.encode(&mut out);
    let addr = v6_of("2001:db8::2");
    assert_eq!(&out[10..26], &addr.octets());
}

#[test]
fn initiation_carries_sysname_and_sysdescr() {
    let msg = initiation("router-a", "wren 0.1");
    let (ty, _) = parse_common_header(&msg).unwrap();
    assert_eq!(ty, INITIATION);
    let body = &msg[COMMON_HEADER_LEN..];
    assert!(body.windows(8).any(|w| w == b"wren 0.1"));
    assert!(body.windows(8).any(|w| w == b"router-a"));
}

#[test]
fn peer_up_embeds_both_opens_and_the_ports() {
    let msg = peer_up(&pph(), ip_of("10.0.0.1"), 179, 50000, &[0xAA; 29], &[0xBB; 29]);
    let (ty, len) = parse_common_header(&msg).unwrap();
    assert_eq!(ty, PEER_UP);
    assert_eq!(len, msg.len());
    let off = COMMON_HEADER_LEN + PER_PEER_HEADER_LEN;
    assert_eq!(&msg[off + 16..off + 18], &179u16.to_be_bytes());
    assert_eq!(&msg[off + 18..off + 20], &50000u16.to_be_bytes());
    assert!(msg[off + 20..].starts_with(&[0xAA; 29]));
    assert!(msg.ends_with(&[0xBB; 29]));
}

#[test]
fn route_monitoring_appends_the_update_pdu() {
    let update = [7u8; 30];
    let msg = route_monitoring(&pph(), &update);
    let (ty, _) = parse_common_header(&msg).unwrap();
    assert_eq!(ty, ROUTE_MONITORING);
    assert!(msg.ends_with(&update));
    assert_eq!(msg.len(), COMMON_HEADER_LEN + PER_PEER_HEADER_LEN + update.len());
}

#[test]
fn parse_common_header_rejects_short_or_wrong_version() {
    assert!(parse_common_header(&[VERSION, 0, 0, 0, 6]).is_none());
    assert!(parse_common_header(&[2, 0, 0, 0, 6, 0]).is_none());
    assert!(parse_common_header(&[VERSION, 0, 0, 0, 3, 0]).is_none());
}
