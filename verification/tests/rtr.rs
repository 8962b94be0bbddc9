use wren::bgp::rtr::{Pdu, RtrError, pdu_length};
use wren::bgp::rtr::pdu_type::ROUTER_KEY;
use wren::net::{IpAddr, Ipv4Addr, Ipv6Addr, Prefix};

fn v4_of(s: &str) -> Ipv4Addr {
    let o: Vec<u8> = s.split('.').map(|x| x.parse().unwrap()).collect();
    Ipv4Addr::new(o[0], o[1], o[2], o[3])
}

fn v6_of(s: &str) -> Ipv6Addr {
    let words = |t: &str| -> Vec<u16> {
        t.split(':').filter(|w| !w.is_empty()).map(|w| u16::from_str_radix(w, 16).unwrap()).collect()
    };
    let (head, tail) = s.split_once("::").unwrap_or((s, ""));
    let (head, tail) = (words(head), words(tail));
    let mut octets = [0u8; 16];
    for (i, w) in head.iter().enumerate() {
        octets[2 * i..2 * i + 2].copy_from_slice(&w.to_be_bytes());
    }
    for (i, w) in tail.iter().enumerate() {
        let k = 16 - 2 * (tail.len() - i);
        octets[k..k + 2].copy_from_slice(&w.to_be_bytes());
    }
    Ipv6Addr::new(octets)
}

fn ip_of(s: &str) -> IpAddr {
    if s.contains(':') {
        IpAddr::V6(v6_of(s))
    } else {
        IpAddr::V4(v4_of(s))
    }
}

fn prefix_of(s: &str) -> Prefix {
    let (addr, len) = s.split_once('/').unwrap();
    Prefix::new(ip_of(addr), len.parse().unwrap()).unwrap()
}

fn roundtrip(pdu: Pdu) {
    let bytes = pdu.encode();
    assert_eq!(pdu_length(&bytes), Some(bytes.len() as u32));
    assert_eq!(Pdu::decode(&bytes), Ok(pdu));
}

#[test]
fn round_trips_every_pdu() {
    roundtrip(Pdu::SerialNotify { session_id: 7, serial: 42 });
    roundtrip(Pdu::SerialQuery { session_id: 7, serial: 42 });
    roundtrip(Pdu::ResetQuery);
    roundtrip(Pdu::CacheResponse { session_id: 7 });
    roundtrip(Pdu::IPv4Prefix {
        announce: true,
        prefix_len: 24,
        max_len: 24,
        addr: Ipv4Addr::new(10, 99, 0, 0),
        asn: 65002,
    });
    roundtrip(Pdu::IPv6Prefix {
        announce: false,
        prefix_len: 32,
        max_len: 48,
        addr: v6_of("2001:db8::"),
        asn: 65001,
    });
    roundtrip(Pdu::EndOfData { session_id: 7, serial: 42, refresh: 3600, retry: 600, expire: 7200 });
    roundtrip(Pdu::CacheReset);
    roundtrip(Pdu::ErrorReport { code: 2 });
}

#[test]
fn prefix_pdu_becomes_a_roa() {
    let (roa, announce) = Pdu::IPv4Prefix {
        announce: true,
        prefix_len: 24,
        max_len: 24,
        addr: Ipv4Addr::new(10, 99, 0, 0),
        asn: 65002,
    }
    .to_roa()
    .expect("a prefix PDU yields a ROA");
    assert!(announce);
    assert_eq!(roa.prefix, prefix_of("10.99.0.0/24"));
    assert_eq!(roa.max_length, 24);
    assert_eq!(roa.origin_as, 65002);
    assert_eq!(Pdu::CacheReset.to_roa(), None);
}

#[test]
fn decode_rejects_truncation_and_unknown_types() {
    let mut bytes = Pdu::CacheResponse { session_id: 1 }.encode();
    bytes[7] = 99;
    assert_eq!(Pdu::decode(&bytes), Err(RtrError::Truncated));
    assert_eq!(Pdu::decode(&[1, 3, 0]), Err(RtrError::Truncated));
    let mut unknown = Pdu::CacheReset.encode();
    unknown[1] = 200;
    assert_eq!(Pdu::decode(&unknown), Err(RtrError::UnknownType(200)));
}

#[test]
fn router_key_is_recognised_but_unsupported() {
    let pdu = Pdu::Unsupported { pdu_type: ROUTER_KEY };
    let bytes = pdu.encode();
    assert_eq!(Pdu::decode(&bytes), Ok(Pdu::Unsupported { pdu_type: ROUTER_KEY }));
}
