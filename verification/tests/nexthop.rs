use wren::bgp::nexthop::{decode_v6_next_hop, encode_v6_next_hop};
use wren::net::Ipv6Addr;

fn v6_of(s: &str) -> Ipv6Addr {
    let words = |t: &str| -> Vec<u16> {
        t.split(':').filter(|w| !w.is_empty()).map(|w| u16::from_str_radix(w, 16).unwrap()).collect()
    };
    let (head, tail) = s.split_once("::").unwrap_or((s, ""));
    let (head, tail) = (words(head), words(tail));
    let mut octets = [0u8; 16];
    for (i, w) in head.iter().enumerate() {
        octets[2 * i..2 * i + 2].copy_from_slice(&w.to_be_bytes());
    }
    for (i, w) in tail.iter().enumerate() {
        let k = 16 - 2 * (tail.len() - i);
        octets[k..k + 2].copy_from_slice(&w.to_be_bytes());
    }
    Ipv6Addr::new(octets)
}

fn v6(s: &str) -> Ipv6Addr {
    v6_of(s)
}

#[test]
fn global_only_next_hop_is_sixteen_octets() {
    let bytes = encode_v6_next_hop(v6("2001:db8::1"), None);
    assert_eq!(bytes.len(), 16);
    assert_eq!(decode_v6_next_hop(&bytes), Some((v6("2001:db8::1"), None)));
}

#[test]
fn global_plus_link_local_round_trips_to_thirty_two_octets() {
    let bytes = encode_v6_next_hop(v6("2001:db8::1"), Some(v6("fe80::1")));
    assert_eq!(bytes.len(), 32);
    assert_eq!(
        decode_v6_next_hop(&bytes),
        Some((v6("2001:db8::1"), Some(v6("fe80::1"))))
    );
}

#[test]
fn a_non_link_local_trailing_address_is_ignored() {
    let mut bytes = v6("2001:db8::1").octets().to_vec();
    bytes.extend_from_slice(&v6("2001:db8::2").octets());
    assert_eq!(decode_v6_next_hop(&bytes), Some((v6("2001:db8::1"), None)));
}

#[test]
fn a_too_short_field_is_rejected() {
    assert_eq!(decode_v6_next_hop(&[0u8; 8]), None);
}
