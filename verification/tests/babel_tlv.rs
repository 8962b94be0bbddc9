use wren::babel::{MAGIC, METRIC_INFINITY, Packet, VERSION};
use wren::babel::tlv::{TYPE_UPDATE, Tlv, UPDATE_FLAG_DEFAULT_PREFIX};
use wren::net::{IpAddr, Ipv4Addr, Ipv6Addr, Prefix};

fn v4_of(s: &str) -> Ipv4Addr {
    let o: Vec<u8> = s.split('.').map(|x| x.parse().unwrap()).collect();
    Ipv4Addr::new(o[0], o[1], o[2], o[3])
}

fn v6_of(s: &str) -> Ipv6Addr {
    let words = |t: &str| -> Vec<u16> {
        t.split(':').filter(|w| !w.is_empty()).map(|w| u16::from_str_radix(w, 16).unwrap()).collect()
    };
    let (head, tail) = s.split_once("::").unwrap_or((s, ""));
    let (head, tail) = (words(head), words(tail));
    let mut octets = [0u8; 16];
    for (i, w) in head.iter().enumerate() {
        octets[2 * i..2 * i + 2].copy_from_slice(&w.to_be_bytes());
    }
    for (i, w) in tail.iter().enumerate() {
        let k = 16 - 2 * (tail.len() - i);
        octets[k..k + 2].copy_from_slice(&w.to_be_bytes());
    }
    Ipv6Addr::new(octets)
}

fn ip_of(s: &str) -> IpAddr {
    if s.contains(':') {
        IpAddr::V6(v6_of(s))
    } else {
        IpAddr::V4(v4_of(s))
    }
}

fn prefix_of(s: &str) -> Prefix {
    let (addr, len) = s.split_once('/').unwrap();
    Prefix::new(ip_of(addr), len.parse().unwrap()).unwrap()
}

fn p(s: &str) -> Prefix {
    prefix_of(s)
}

fn roundtrip(tlv: Tlv) {
    let pkt = Packet::new(vec![tlv.clone()]);
    let decoded = Packet::decode(&pkt.encode()).expect("decodes");
    assert_eq!(decoded.body, vec![tlv]);
}

#[test]
fn control_tlvs_roundtrip() {
    roundtrip(Tlv::AckReq {
        nonce: 0x1234,
        interval: 150,
    });
    roundtrip(Tlv::Ack { nonce: 0x1234 });
    roundtrip(Tlv::Hello {
        flags: 0,
        seqno: 42,
        interval: 400,
    });
    roundtrip(Tlv::RouterId([1, 2, 3, 4, 5, 6, 7, 8]));
}

#[test]
fn ihu_with_and_without_address() {
    roundtrip(Tlv::Ihu {
        rxcost: 96,
        interval: 600,
        address: Some(ip_of("fe80::1")),
    });
    roundtrip(Tlv::Ihu {
        rxcost: 256,
        interval: 600,
        address: None,
    });
}

#[test]
fn next_hop_roundtrips_v4_and_linklocal() {
    roundtrip(Tlv::NextHop(ip_of("192.0.2.1")));
    roundtrip(Tlv::NextHop(ip_of("fe80::abcd")));
}

#[test]
fn update_roundtrips_v4_and_v6() {
    roundtrip(Tlv::Update {
        flags: 0,
        interval: 400,
        seqno: 7,
        metric: 256,
        prefix: p("10.0.0.0/8"),
    });
    roundtrip(Tlv::Update {
        flags: 0,
        interval: 400,
        seqno: 7,
        metric: METRIC_INFINITY,
        prefix: p("2001:db8::/32"),
    });
    roundtrip(Tlv::Update {
        flags: 0,
        interval: 400,
        seqno: 1,
        metric: 0,
        prefix: p("0.0.0.0/0"),
    });
}

#[test]
fn requests_roundtrip() {
    roundtrip(Tlv::RouteRequest { prefix: None });
    roundtrip(Tlv::RouteRequest {
        prefix: Some(p("203.0.113.0/24")),
    });
    roundtrip(Tlv::SeqnoRequest {
        seqno: 9,
        hop_count: 16,
        router_id: [8, 7, 6, 5, 4, 3, 2, 1],
        prefix: p("10.1.2.0/24"),
    });
}

#[test]
fn update_prefix_compression_is_decoded() {
    let mut body = Vec::new();
    Tlv::Update {
        flags: UPDATE_FLAG_DEFAULT_PREFIX,
        interval: 400,
        seqno: 1,
        metric: 100,
        prefix: p("10.1.0.0/16"),
    }
    .encode(&mut body);
    body.push(TYPE_UPDATE);
    let len_pos = body.len();
    body.push(0);
    body.extend_from_slice(&[1, 0, 24, 2]);
    body.extend_from_slice(&400u16.to_be_bytes());
    body.extend_from_slice(&2u16.to_be_bytes());
    body.extend_from_slice(&110u16.to_be_bytes());
    body.push(7);
    body[len_pos] = (body.len() - len_pos - 1) as u8;

    let mut pkt = vec![MAGIC, VERSION, 0, 0];
    pkt.extend_from_slice(&body);
    let blen = (pkt.len() - 4) as u16;
    pkt[2..4].copy_from_slice(&blen.to_be_bytes());

    let decoded = Packet::decode(&pkt).unwrap();
    match &decoded.body[1] {
        Tlv::Update { prefix, .. } => assert_eq!(*prefix, p("10.1.7.0/24")),
        other => panic!("expected Update, got {other:?}"),
    }
}

#[test]
fn the_packet_body_length_counts_the_tlvs_only() {
    let pkt = Packet::new(vec![Tlv::Ack { nonce: 0x1234 }]);
    let b = pkt.encode();
    assert_eq!(b[0], MAGIC, "byte 0 is the magic, 42");
    assert_eq!(b[1], VERSION, "byte 1 is the version, 2");
    assert_eq!(
        u16::from_be_bytes([b[2], b[3]]) as usize,
        b.len() - 4,
        "Body Length is bytes 2..4 and excludes the 4-octet header"
    );
    assert_eq!(b[4], 3, "the Ack TLV type is 3");
    assert_eq!(b[5], 2, "the TLV Length excludes its own 2 octets");
    assert_eq!(&b[6..8], &[0x12, 0x34], "then the 2-octet nonce");
    assert_eq!(b.len(), 8);
}

#[test]
fn the_tlv_type_codes_are_the_ones_the_rfc_assigns_and_pad1_has_no_length() {
    let first_two = |t: Tlv| {
        let b = Packet::new(vec![t]).encode();
        (b[4], b.len())
    };
    assert_eq!(first_two(Tlv::Pad1), (0, 5), "Pad1 is type 0 and one octet total");
    assert_eq!(first_two(Tlv::PadN(3)).0, 1, "PadN is type 1");
    assert_eq!(first_two(Tlv::AckReq { nonce: 0, interval: 0 }).0, 2, "AckReq is 2");
    assert_eq!(first_two(Tlv::Ack { nonce: 0 }).0, 3, "Ack is 3");
    assert_eq!(
        first_two(Tlv::Hello { flags: 0, seqno: 0, interval: 0 }).0,
        4,
        "Hello is 4"
    );
    assert_eq!(
        first_two(Tlv::Ihu { rxcost: 0, interval: 0, address: None }).0,
        5,
        "IHU is 5"
    );
    assert_eq!(first_two(Tlv::RouterId([0; 8])).0, 6, "Router-Id is 6");
    assert_eq!(first_two(Tlv::RouteRequest { prefix: None }).0, 9, "Route Req is 9");
    let b = Packet::new(vec![Tlv::Pad1, Tlv::Pad1, Tlv::Ack { nonce: 7 }]).encode();
    assert_eq!(&b[4..6], &[0, 0], "two bare Pad1 octets");
    assert_eq!(b[6], 3, "then the Ack TLV type");
    assert_eq!(b.len(), 4 + 1 + 1 + 4);
}

#[test]
fn an_update_tlv_is_encoded_in_the_rfc_field_order() {
    let pkt = Packet::new(vec![Tlv::Update {
        flags: 0,
        interval: 0x0064,
        seqno: 0x1122,
        metric: 0x3344,
        prefix: p("10.9.8.0/24"),
    }]);
    let b = pkt.encode();
    assert_eq!(b[4], 8, "the Update TLV type is 8");
    let v = &b[6..];
    assert_eq!(v[0], 1, "AE is byte 0 of the body; IPv4 is 1");
    assert_eq!(v[1], 0, "Flags is byte 1");
    assert_eq!(v[2], 24, "Plen is byte 2");
    assert_eq!(v[3], 0, "Omitted is byte 3 — wren never compresses on send");
    assert_eq!(&v[4..6], &[0x00, 0x64], "Interval is bytes 4..6");
    assert_eq!(&v[6..8], &[0x11, 0x22], "Seqno is bytes 6..8");
    assert_eq!(&v[8..10], &[0x33, 0x44], "Metric is bytes 8..10");
    assert_eq!(&v[10..13], &[10, 9, 8], "the prefix is ceil(24/8) = 3 octets");
    assert_eq!(b[5] as usize, 13, "the TLV Length covers exactly the body");
    assert_eq!(b.len(), 4 + 2 + 13);

    let b = Packet::new(vec![Tlv::Update {
        flags: 0,
        interval: 100,
        seqno: 1,
        metric: METRIC_INFINITY,
        prefix: p("2001:db8::/32"),
    }])
    .encode();
    let v = &b[6..];
    assert_eq!(v[0], 2, "AE 2 is IPv6");
    assert_eq!(v[2], 32, "Plen 32");
    assert_eq!(&v[8..10], &[0xff, 0xff], "an infinity metric retracts the route");
    assert_eq!(&v[10..14], &[0x20, 0x01, 0x0d, 0xb8], "four prefix octets for a /32");
    assert_eq!(b[5] as usize, 14);
}

#[test]
fn an_ihu_tlv_is_encoded_in_the_rfc_field_order() {
    let b = Packet::new(vec![Tlv::Ihu {
        rxcost: 0x0100,
        interval: 0x012c,
        address: Some(ip_of("10.0.0.2")),
    }])
    .encode();
    assert_eq!(b[4], 5, "the IHU TLV type is 5");
    let v = &b[6..];
    assert_eq!(v[0], 1, "AE is byte 0; IPv4 is 1");
    assert_eq!(v[1], 0, "byte 1 is Reserved and must be zero");
    assert_eq!(&v[2..4], &[0x01, 0x00], "Rxcost is bytes 2..4");
    assert_eq!(&v[4..6], &[0x01, 0x2c], "Interval is bytes 4..6");
    assert_eq!(&v[6..10], &[10, 0, 0, 2], "the address follows at byte 6");

    let b = Packet::new(vec![Tlv::Ihu { rxcost: 1, interval: 2, address: None }]).encode();
    assert_eq!(b[6], 0, "AE 0 means no address is present");
    assert_eq!(b[5], 6, "the body is just the six fixed octets");
}
