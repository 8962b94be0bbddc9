use wren::bgp::rpki::{Roa, RoaTable, Validity};
use wren::net::{IpAddr, Ipv4Addr, Ipv6Addr, Prefix};

fn v4_of(s: &str) -> Ipv4Addr {
    let o: Vec<u8> = s.split('.').map(|x| x.parse().unwrap()).collect();
    Ipv4Addr::new(o[0], o[1], o[2], o[3])
}

fn v6_of(s: &str) -> Ipv6Addr {
    let words = |t: &str| -> Vec<u16> {
        t.split(':').filter(|w| !w.is_empty()).map(|w| u16::from_str_radix(w, 16).unwrap()).collect()
    };
    let (head, tail) = s.split_once("::").unwrap_or((s, ""));
    let (head, tail) = (words(head), words(tail));
    let mut octets = [0u8; 16];
    for (i, w) in head.iter().enumerate() {
        octets[2 * i..2 * i + 2].copy_from_slice(&w.to_be_bytes());
    }
    for (i, w) in tail.iter().enumerate() {
        let k = 16 - 2 * (tail.len() - i);
        octets[k..k + 2].copy_from_slice(&w.to_be_bytes());
    }
    Ipv6Addr::new(octets)
}

fn ip_of(s: &str) -> IpAddr {
    if s.contains(':') {
        IpAddr::V6(v6_of(s))
    } else {
        IpAddr::V4(v4_of(s))
    }
}

fn prefix_of(s: &str) -> Prefix {
    let (addr, len) = s.split_once('/').unwrap();
    Prefix::new(ip_of(addr), len.parse().unwrap()).unwrap()
}

fn pfx(s: &str) -> Prefix {
    prefix_of(s)
}
fn roa(prefix: &str, max_length: u8, origin_as: u32) -> Roa {
    Roa { prefix: pfx(prefix), max_length, origin_as }
}

#[test]
fn not_found_when_no_roa_covers() {
    let t = RoaTable::new(vec![roa("10.0.0.0/8", 24, 65001)]);
    assert_eq!(t.validate(&pfx("192.0.2.0/24"), 65001), Validity::NotFound);
    assert_eq!(RoaTable::default().validate(&pfx("10.0.0.0/24"), 65001), Validity::NotFound);
}

#[test]
fn valid_when_a_roa_matches() {
    let t = RoaTable::new(vec![roa("10.0.0.0/8", 24, 65001)]);
    assert_eq!(t.validate(&pfx("10.0.0.0/8"), 65001), Validity::Valid);
    assert_eq!(t.validate(&pfx("10.1.2.0/24"), 65001), Validity::Valid);
}

#[test]
fn invalid_on_wrong_origin_or_too_specific() {
    let t = RoaTable::new(vec![roa("10.0.0.0/8", 24, 65001)]);
    assert_eq!(t.validate(&pfx("10.1.2.0/24"), 65002), Validity::Invalid);
    assert_eq!(t.validate(&pfx("10.1.2.0/25"), 65001), Validity::Invalid);
}

#[test]
fn a_matching_roa_outweighs_a_covering_non_matching_one() {
    let t = RoaTable::new(vec![roa("10.0.0.0/8", 16, 65002), roa("10.1.0.0/16", 24, 65001)]);
    assert_eq!(t.validate(&pfx("10.1.2.0/24"), 65001), Validity::Valid);
    assert_eq!(t.validate(&pfx("10.1.2.0/24"), 65003), Validity::Invalid);
}

#[test]
fn families_do_not_cross() {
    let t = RoaTable::new(vec![roa("2001:db8::/32", 48, 65001)]);
    assert_eq!(t.validate(&pfx("2001:db8:1::/48"), 65001), Validity::Valid);
    assert_eq!(t.validate(&pfx("2001:db8:1::/48"), 65002), Validity::Invalid);
    assert_eq!(t.validate(&pfx("10.0.0.0/24"), 65001), Validity::NotFound);
}

#[test]
fn as0_authorises_no_origin() {
    let t = RoaTable::new(vec![roa("10.0.0.0/8", 24, 0)]);
    assert_eq!(t.validate(&pfx("10.1.2.0/24"), 65001), Validity::Invalid);
}
