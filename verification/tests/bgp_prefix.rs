use wren::bgp::{decode_prefix, encode_prefix};
use wren::net::{IpAddr, Ipv4Addr, Ipv6Addr, Prefix};

fn v4_of(s: &str) -> Ipv4Addr {
    let o: Vec<u8> = s.split('.').map(|x| x.parse().unwrap()).collect();
    Ipv4Addr::new(o[0], o[1], o[2], o[3])
}

fn v6_of(s: &str) -> Ipv6Addr {
    let words = |t: &str| -> Vec<u16> {
        t.split(':').filter(|w| !w.is_empty()).map(|w| u16::from_str_radix(w, 16).unwrap()).collect()
    };
    let (head, tail) = s.split_once("::").unwrap_or((s, ""));
    let (head, tail) = (words(head), words(tail));
    let mut octets = [0u8; 16];
    for (i, w) in head.iter().enumerate() {
        octets[2 * i..2 * i + 2].copy_from_slice(&w.to_be_bytes());
    }
    for (i, w) in tail.iter().enumerate() {
        let k = 16 - 2 * (tail.len() - i);
        octets[k..k + 2].copy_from_slice(&w.to_be_bytes());
    }
    Ipv6Addr::new(octets)
}

fn ip_of(s: &str) -> IpAddr {
    if s.contains(':') {
        IpAddr::V6(v6_of(s))
    } else {
        IpAddr::V4(v4_of(s))
    }
}

fn prefix_of(s: &str) -> Prefix {
    let (addr, len) = s.split_once('/').unwrap();
    Prefix::new(ip_of(addr), len.parse().unwrap()).unwrap()
}

fn p(s: &str) -> Prefix {
    prefix_of(s)
}

#[test]
fn prefix_roundtrips_at_byte_boundaries() {
    for s in ["0.0.0.0/0", "10.0.0.0/8", "192.168.0.0/16", "203.0.113.0/24", "198.51.100.7/32"] {
        let mut buf = Vec::new();
        encode_prefix(&mut buf, &p(s));
        let (decoded, used) = decode_prefix(&buf).expect("decodes");
        assert_eq!(decoded, p(s));
        assert_eq!(used, buf.len());
    }
}

#[test]
fn prefix_uses_minimum_octets() {
    let mut buf = Vec::new();
    encode_prefix(&mut buf, &p("203.0.113.0/24"));
    assert_eq!(buf, vec![24, 203, 0, 113]);

    let mut buf = Vec::new();
    encode_prefix(&mut buf, &p("0.0.0.0/0"));
    assert_eq!(buf, vec![0]);

    let mut buf = Vec::new();
    encode_prefix(&mut buf, &p("10.128.0.0/9"));
    assert_eq!(buf, vec![9, 10, 128]);
}

#[test]
fn decode_rejects_overlong_and_truncated() {
    assert!(decode_prefix(&[33, 1, 2, 3, 4, 5]).is_none());
    assert!(decode_prefix(&[24, 203, 0]).is_none());
    assert!(decode_prefix(&[]).is_none());
}
