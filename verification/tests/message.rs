use wren::bgp::{
    AFI_IPV4, AFI_IPV6, AS_TRANS, DEFAULT_HOLD_TIME, DEFAULT_RESTART_TIME, HEADER_LEN, MARKER,
    MAX_MESSAGE_LEN, MessageType, SAFI_UNICAST, VERSION,
};
use wren::bgp::attr::{AsPathSegment, Origin, PathAttribute, reconstruct_as_path};
use wren::bgp::flowspec::SAFI_FLOWSPEC;
use wren::bgp::message::{
    AddPath, DecodeError, Message, Notification, Open, Update, decode_attributes,
};
use wren::net::{IpAddr, Ipv4Addr, Ipv6Addr, Prefix};

fn v4_of(s: &str) -> Ipv4Addr {
    let o: Vec<u8> = s.split('.').map(|x| x.parse().unwrap()).collect();
    Ipv4Addr::new(o[0], o[1], o[2], o[3])
}

fn v6_of(s: &str) -> Ipv6Addr {
    let words = |t: &str| -> Vec<u16> {
        t.split(':').filter(|w| !w.is_empty()).map(|w| u16::from_str_radix(w, 16).unwrap()).collect()
    };
    let (head, tail) = s.split_once("::").unwrap_or((s, ""));
    let (head, tail) = (words(head), words(tail));
    let mut octets = [0u8; 16];
    for (i, w) in head.iter().enumerate() {
        octets[2 * i..2 * i + 2].copy_from_slice(&w.to_be_bytes());
    }
    for (i, w) in tail.iter().enumerate() {
        let k = 16 - 2 * (tail.len() - i);
        octets[k..k + 2].copy_from_slice(&w.to_be_bytes());
    }
    Ipv6Addr::new(octets)
}

fn ip_of(s: &str) -> IpAddr {
    if s.contains(':') {
        IpAddr::V6(v6_of(s))
    } else {
        IpAddr::V4(v4_of(s))
    }
}

fn prefix_of(s: &str) -> Prefix {
    let (addr, len) = s.split_once('/').unwrap();
    Prefix::new(ip_of(addr), len.parse().unwrap()).unwrap()
}

#[test]
fn duplicate_attribute_is_rejected_rfc7606() {
    assert!(decode_attributes(&[0x40, 1, 1, 0], false).is_ok());
    assert!(decode_attributes(&[0x40, 1, 1, 0, 0x40, 1, 1, 0], false).is_err());
}

fn ip(o: [u8; 4]) -> Ipv4Addr {
    Ipv4Addr { octets: o }
}
fn p(s: &str) -> Prefix {
    prefix_of(s)
}

fn roundtrip(msg: Message) {
    roundtrip_w(msg, true);
}

fn roundtrip_w(msg: Message, four_octet: bool) {
    let bytes = msg.encode(four_octet, AddPath::none());
    assert_eq!(&bytes[..16], &MARKER);
    assert_eq!(u16::from_be_bytes([bytes[16], bytes[17]]) as usize, bytes.len());
    assert_eq!(Message::decode(&bytes, four_octet, AddPath::none()).expect("decodes"), msg);
}

#[test]
fn keepalive_is_header_only() {
    let bytes = Message::Keepalive.encode(true, AddPath::none());
    assert_eq!(bytes.len(), HEADER_LEN);
    roundtrip(Message::Keepalive);
}

fn frame_update(body: &[u8]) -> Vec<u8> {
    let mut m = Vec::with_capacity(HEADER_LEN + body.len());
    m.extend_from_slice(&MARKER);
    m.extend_from_slice(&((HEADER_LEN + body.len()) as u16).to_be_bytes());
    m.push(2);
    m.extend_from_slice(body);
    m
}

fn update_body(attrs: &[u8]) -> Vec<u8> {
    let mut body = vec![0, 0];
    body.extend_from_slice(&(attrs.len() as u16).to_be_bytes());
    body.extend_from_slice(attrs);
    body.extend_from_slice(&[24, 10, 0, 0]);
    body
}

#[test]
fn malformed_optional_attribute_treats_update_as_withdraw() {
    let mut attrs = Vec::new();
    PathAttribute::Origin(Origin::Igp).encode(&mut attrs, true);
    PathAttribute::AsPath(vec![AsPathSegment::Sequence(vec![65001])]).encode(&mut attrs, true);
    PathAttribute::NextHop(ip([10, 0, 0, 1])).encode(&mut attrs, true);
    attrs.extend_from_slice(&[0x80, 4, 3, 0, 0, 0]);

    let msg = frame_update(&update_body(&attrs));
    let decoded = Message::decode(&msg, true, AddPath::none()).expect("decodes, not a reset");
    let Message::Update(u) = decoded else { panic!("expected UPDATE") };
    assert_eq!(u.withdrawn, vec![p("10.0.0.0/24")], "NLRI must be withdrawn");
    assert!(u.nlri.is_empty(), "no NLRI is advertised");
    assert!(u.attributes.is_empty(), "attributes are dropped on treat-as-withdraw");
}

#[test]
fn missing_mandatory_attribute_treats_update_as_withdraw() {
    let mut attrs = Vec::new();
    PathAttribute::Origin(Origin::Igp).encode(&mut attrs, true);
    PathAttribute::NextHop(ip([10, 0, 0, 1])).encode(&mut attrs, true);

    let msg = frame_update(&update_body(&attrs));
    let decoded = Message::decode(&msg, true, AddPath::none()).expect("decodes, not a reset");
    let Message::Update(u) = decoded else { panic!("expected UPDATE") };
    assert_eq!(u.withdrawn, vec![p("10.0.0.0/24")], "NLRI must be withdrawn");
    assert!(u.nlri.is_empty());
    assert!(u.attributes.is_empty());
}

fn mp_only_body(attrs: &[u8]) -> Vec<u8> {
    let mut body = vec![0, 0];
    body.extend_from_slice(&(attrs.len() as u16).to_be_bytes());
    body.extend_from_slice(attrs);
    body
}

fn mp_reach_ipv6(nh: &[u8]) -> Vec<u8> {
    let mut value = vec![0, 2, 1, nh.len() as u8];
    value.extend_from_slice(nh);
    value.push(0);
    value.extend_from_slice(&[64, 0x20, 0x01, 0x0d, 0xb8, 0, 0, 0, 0]);
    let mut out = vec![0x80, 14, value.len() as u8];
    out.extend_from_slice(&value);
    out
}

#[test]
fn an_mp_only_update_still_needs_origin_and_as_path_rfc4760() {
    let bare = mp_reach_ipv6(&[0x20, 0x01, 0x0d, 0xb8, 0, 0, 0, 0, 0, 0, 0, 0, 0, 0, 0, 1]);
    let decoded = Message::decode(&frame_update(&mp_only_body(&bare)), true, AddPath::none())
        .expect("treat-as-withdraw, not a session reset");
    let Message::Update(u) = decoded else { panic!("expected UPDATE") };
    assert!(
        u.attributes.is_empty(),
        "an MP_REACH with no ORIGIN or AS_PATH was accepted: {:?}",
        u.attributes
    );

    let mut ok = Vec::new();
    PathAttribute::Origin(Origin::Igp).encode(&mut ok, true);
    PathAttribute::AsPath(vec![AsPathSegment::Sequence(vec![65001])]).encode(&mut ok, true);
    ok.extend_from_slice(&bare);
    let decoded = Message::decode(&frame_update(&mp_only_body(&ok)), true, AddPath::none())
        .expect("decodes");
    let Message::Update(u) = decoded else { panic!("expected UPDATE") };
    assert!(
        u.attributes.iter().any(|a| matches!(a, PathAttribute::MpReachNlri { .. })),
        "a complete MP UPDATE was rejected: {:?}",
        u.attributes
    );
}

#[test]
fn an_mp_only_update_does_not_need_a_next_hop_attribute_rfc4760() {
    let mut attrs = Vec::new();
    PathAttribute::Origin(Origin::Igp).encode(&mut attrs, true);
    PathAttribute::AsPath(vec![AsPathSegment::Sequence(vec![65001])]).encode(&mut attrs, true);
    attrs.extend_from_slice(&mp_reach_ipv6(&[
        0x20, 0x01, 0x0d, 0xb8, 0, 0, 0, 0, 0, 0, 0, 0, 0, 0, 0, 1,
    ]));
    let decoded = Message::decode(&frame_update(&mp_only_body(&attrs)), true, AddPath::none())
        .expect("decodes");
    let Message::Update(u) = decoded else { panic!("expected UPDATE") };
    assert!(
        u.attributes.iter().any(|a| matches!(a, PathAttribute::MpReachNlri { .. })),
        "an MP UPDATE was rejected for lacking a NEXT_HOP it must not carry"
    );
}

#[test]
fn a_message_longer_than_the_contract_allows_is_refused_rfc4271() {
    let body = vec![0u8; MAX_MESSAGE_LEN + 1 - HEADER_LEN];
    let mut m = Vec::new();
    m.extend_from_slice(&MARKER);
    m.extend_from_slice(&((HEADER_LEN + body.len()) as u16).to_be_bytes());
    m.push(4);
    m.extend_from_slice(&body);
    assert_eq!(m.len(), MAX_MESSAGE_LEN + 1);
    assert!(
        matches!(Message::decode(&m, true, AddPath::none()), Err(DecodeError::BadLength { .. })),
        "a {}-octet message was accepted",
        m.len()
    );

    let body = vec![0u8; MAX_MESSAGE_LEN - HEADER_LEN];
    let mut m = Vec::new();
    m.extend_from_slice(&MARKER);
    m.extend_from_slice(&(MAX_MESSAGE_LEN as u16).to_be_bytes());
    m.push(2);
    m.extend_from_slice(&body);
    assert!(
        !matches!(
            Message::decode(&m, true, AddPath::none()),
            Err(DecodeError::BadLength { .. })
        ),
        "the largest legal message was refused for its length"
    );
}

#[test]
fn an_open_with_a_reserved_as_or_a_zero_identifier_is_refused() {
    let open = |my_as: u16, id: [u8; 4]| {
        let mut body = vec![VERSION];
        body.extend_from_slice(&my_as.to_be_bytes());
        body.extend_from_slice(&180u16.to_be_bytes());
        body.extend_from_slice(&id);
        body.push(0);
        let mut m = Vec::new();
        m.extend_from_slice(&MARKER);
        m.extend_from_slice(&((HEADER_LEN + body.len()) as u16).to_be_bytes());
        m.push(1);
        m.extend_from_slice(&body);
        Message::decode(&m, true, AddPath::none())
    };
    assert!(open(0, [10, 0, 0, 1]).is_err(), "AS 0 was accepted in an OPEN");
    assert!(open(65001, [0, 0, 0, 0]).is_err(), "a zero BGP Identifier was accepted");
    assert!(open(23456, [10, 0, 0, 1]).is_ok(), "AS_TRANS was refused");
    assert!(open(65001, [10, 0, 0, 1]).is_ok(), "a valid OPEN was refused");
}

#[test]
fn atomic_aggregate_wrong_length_is_discard_not_withdraw_rfc7606() {
    for broken in [vec![0x40, 6, 1, 0], vec![0xC0, 7, 10, 0, 0, 0, 1, 10, 0, 0, 1, 9, 9]] {
        let type_code = broken[1];
        let mut attrs = Vec::new();
        PathAttribute::Origin(Origin::Igp).encode(&mut attrs, true);
        PathAttribute::AsPath(vec![AsPathSegment::Sequence(vec![65001])])
            .encode(&mut attrs, true);
        PathAttribute::NextHop(ip([10, 0, 0, 1])).encode(&mut attrs, true);
        attrs.extend_from_slice(&broken);

        let msg = frame_update(&update_body(&attrs));
        let Message::Update(u) = Message::decode(&msg, true, AddPath::none()).expect("decodes")
        else {
            panic!("expected UPDATE")
        };
        assert_eq!(u.nlri, vec![p("10.0.0.0/24")], "type {type_code}: NLRI is kept");
        assert!(u.withdrawn.is_empty(), "type {type_code}: nothing withdrawn");
        assert_eq!(u.attributes.len(), 3, "type {type_code}: only the good three");
        assert!(
            !u.attributes.iter().any(|a| a.type_code() == type_code),
            "type {type_code}: the malformed attribute itself is gone"
        );
    }
}

#[test]
fn a_discarded_attribute_still_counts_as_a_duplicate_rfc7606() {
    assert!(decode_attributes(&[0x40, 6, 1, 0], false).is_ok());
    assert!(decode_attributes(&[0x40, 6, 1, 0, 0x40, 6, 1, 0], false).is_err());
}

#[test]
fn malformed_mp_attributes_are_treated_as_withdraw() {
    let mut base = Vec::new();
    PathAttribute::Origin(Origin::Igp).encode(&mut base, true);
    PathAttribute::AsPath(vec![AsPathSegment::Sequence(vec![65001])]).encode(&mut base, true);
    PathAttribute::NextHop(ip([10, 0, 0, 1])).encode(&mut base, true);

    for type_code in [14u8, 15] {
        let broken = [0x80, type_code, 2, 0, 2];

        let mut body = vec![0, 0];
        body.extend_from_slice(&(broken.len() as u16).to_be_bytes());
        body.extend_from_slice(&broken);
        let msg = frame_update(&body);
        let decoded = Message::decode(&msg, true, AddPath::none()).expect("decodes, not a reset");
        let Message::Update(u) = decoded else { panic!("expected UPDATE") };
        assert!(u.attributes.is_empty(), "the malformed MP attribute is dropped");
        assert!(u.nlri.is_empty());
        assert!(u.withdrawn.is_empty());

        let mut attrs = base.clone();
        attrs.extend_from_slice(&broken);
        let msg = frame_update(&update_body(&attrs));
        let decoded = Message::decode(&msg, true, AddPath::none()).expect("decodes, not a reset");
        let Message::Update(u) = decoded else { panic!("expected UPDATE") };
        assert_eq!(u.withdrawn, vec![p("10.0.0.0/24")], "NLRI must be withdrawn");
        assert!(u.nlri.is_empty());
    }
}

#[test]
fn well_formed_update_still_decodes_normally() {
    let mut attrs = Vec::new();
    PathAttribute::Origin(Origin::Igp).encode(&mut attrs, true);
    PathAttribute::AsPath(vec![AsPathSegment::Sequence(vec![65001])]).encode(&mut attrs, true);
    PathAttribute::NextHop(ip([10, 0, 0, 1])).encode(&mut attrs, true);

    let msg = frame_update(&update_body(&attrs));
    let Message::Update(u) = Message::decode(&msg, true, AddPath::none()).expect("decodes") else {
        panic!("expected UPDATE")
    };
    assert_eq!(u.nlri, vec![p("10.0.0.0/24")], "NLRI is advertised");
    assert!(u.withdrawn.is_empty(), "nothing withdrawn");
    assert_eq!(u.attributes.len(), 3);
}

#[test]
fn route_refresh_roundtrips() {
    let bytes = Message::RouteRefresh { afi: AFI_IPV4, safi: SAFI_UNICAST }.encode(true, AddPath::none());
    assert_eq!(bytes.len(), HEADER_LEN + 4);
    assert_eq!(bytes[18], 5);
    roundtrip(Message::RouteRefresh { afi: AFI_IPV4, safi: SAFI_UNICAST });
    roundtrip(Message::RouteRefresh { afi: AFI_IPV6, safi: SAFI_UNICAST });
    let mut short = Message::RouteRefresh { afi: AFI_IPV4, safi: SAFI_UNICAST }.encode(true, AddPath::none());
    short.truncate(HEADER_LEN + 3);
    short[17] = (HEADER_LEN + 3) as u8;
    assert!(matches!(Message::decode(&short, true, AddPath::none()), Err(DecodeError::Malformed)));
}

#[test]
fn open_advertises_route_refresh_capability() {
    let open = Open::new(VERSION, 65001, DEFAULT_HOLD_TIME, ip([10, 0, 0, 1]));
    assert!(open.supports_route_refresh());
}

#[test]
fn open_advertises_graceful_restart_capability() {
    let open = Open::new(VERSION, 65001, DEFAULT_HOLD_TIME, ip([10, 0, 0, 1]));
    assert!(open.supports_graceful_restart());
    assert_eq!(open.gr_restart_time(), Some(DEFAULT_RESTART_TIME));
    assert!(open.gr_forwarding_preserved(AFI_IPV4, SAFI_UNICAST));
    assert!(open.gr_forwarding_preserved(AFI_IPV6, SAFI_UNICAST));
    assert!(!open.gr_forwarding_preserved(AFI_IPV6, 2));
    roundtrip(Message::Open(open));
}

#[test]
fn end_of_rib_markers_are_recognised() {
    let v4 = Update::end_of_rib_marker(AFI_IPV4, SAFI_UNICAST);
    assert_eq!(v4, Update::default());
    assert_eq!(v4.end_of_rib(), Some((AFI_IPV4, SAFI_UNICAST)));
    roundtrip(Message::Update(v4));
    let v6 = Update::end_of_rib_marker(AFI_IPV6, SAFI_UNICAST);
    assert_eq!(v6.end_of_rib(), Some((AFI_IPV6, SAFI_UNICAST)));
    roundtrip(Message::Update(v6));
    let real = Update { withdrawn: vec![p("10.0.0.0/8")], ..Update::default() };
    assert_eq!(real.end_of_rib(), None);
}

#[test]
fn open_roundtrips_with_four_octet_as_capability() {
    let open = Open::new(VERSION, 196_618, DEFAULT_HOLD_TIME, ip([10, 0, 0, 1]));
    assert_eq!(open.my_as, AS_TRANS);
    assert_eq!(open.effective_as(), 196_618);
    assert!(open.supports_four_octet_as());
    roundtrip(Message::Open(open));

    let open = Open::new(VERSION, 65001, DEFAULT_HOLD_TIME, ip([10, 0, 0, 1]));
    assert_eq!(open.my_as, 65001);
    assert_eq!(open.effective_as(), 65001);
    roundtrip(Message::Open(open));
}

#[test]
fn open_advertises_and_detects_multiprotocol() {
    let open = Open::new(VERSION, 65001, DEFAULT_HOLD_TIME, ip([10, 0, 0, 1]));
    assert!(open.supports_multiprotocol(AFI_IPV4, SAFI_UNICAST));
    assert!(open.supports_multiprotocol(AFI_IPV6, SAFI_UNICAST));
    assert!(!open.supports_multiprotocol(AFI_IPV6, SAFI_FLOWSPEC));
    roundtrip(Message::Open(open));
}

#[test]
fn update_roundtrips_with_attributes_and_nlri() {
    roundtrip(Message::Update(Update {
        withdrawn: vec![p("198.51.100.0/24")],
        attributes: vec![
            PathAttribute::Origin(Origin::Igp),
            PathAttribute::AsPath(vec![AsPathSegment::Sequence(vec![65001, 65002])]),
            PathAttribute::NextHop(ip([192, 0, 2, 1])),
            PathAttribute::LocalPref(100),
        ],
        nlri: vec![p("10.0.0.0/8"), p("203.0.113.0/24")],
        ..Default::default()
    }));
}

#[test]
fn empty_update_is_a_keepalive_of_routes() {
    roundtrip(Message::Update(Update::default()));
}

#[test]
fn update_roundtrips_with_add_path_identifiers() {
    let ap = AddPath::ipv4(true);
    let update = Update {
        withdrawn: vec![p("198.51.100.0/24")],
        withdrawn_path_ids: vec![7],
        attributes: vec![
            PathAttribute::Origin(Origin::Igp),
            PathAttribute::AsPath(vec![AsPathSegment::Sequence(vec![65001])]),
            PathAttribute::NextHop(ip([192, 0, 2, 1])),
        ],
        nlri: vec![p("10.0.0.0/8"), p("10.0.0.0/8")],
        nlri_path_ids: vec![1, 2],
    };
    let bytes = Message::Update(update.clone()).encode(false, ap);
    let Message::Update(decoded) = Message::decode(&bytes, false, ap).unwrap() else {
        panic!("not an update");
    };
    assert_eq!(decoded.nlri, update.nlri);
    assert_eq!(decoded.nlri_path_ids, vec![1, 2]);
    assert_eq!(decoded.withdrawn_path_ids, vec![7]);
    assert_eq!(decoded.nlri.len(), 2);

    assert!(Message::decode(&bytes, false, AddPath::none())
        .map(|m| matches!(m, Message::Update(u) if u.nlri != update.nlri))
        .unwrap_or(true));
}

#[test]
fn four_octet_speaker_interops_with_a_legacy_peer() {

    let update = Update {
        withdrawn: vec![],
        attributes: vec![
            PathAttribute::Origin(Origin::Igp),
            PathAttribute::AsPath(vec![AsPathSegment::Sequence(vec![196_618, 65001])]),
            PathAttribute::As4Path(vec![AsPathSegment::Sequence(vec![196_618, 65001])]),
            PathAttribute::NextHop(ip([192, 0, 2, 1])),
        ],
        nlri: vec![p("10.0.0.0/8")],
        ..Default::default()
    };
    let bytes = Message::Update(update).encode(false, AddPath::none());
    let Message::Update(decoded) = Message::decode(&bytes, false, AddPath::none()).unwrap() else {
        panic!("not an update");
    };

    let as_path = decoded.attributes.iter().find_map(|a| match a {
        PathAttribute::AsPath(s) => Some(s.clone()),
        _ => None,
    });
    assert_eq!(
        as_path,
        Some(vec![AsPathSegment::Sequence(vec![AS_TRANS as u32, 65001])])
    );
    let as4 = decoded.attributes.iter().find_map(|a| match a {
        PathAttribute::As4Path(s) => Some(s.clone()),
        _ => None,
    });
    assert_eq!(
        reconstruct_as_path(&as_path.unwrap(), &as4.unwrap()),
        vec![AsPathSegment::Sequence(vec![196_618, 65001])]
    );
}

#[test]
fn notification_roundtrips() {
    roundtrip(Message::Notification(Notification {
        code: 6,
        subcode: 2,
        data: vec![0xde, 0xad],
    }));
}

#[test]
fn decode_rejects_bad_marker_length_type_version() {
    let mut bytes = Message::Keepalive.encode(true, AddPath::none());
    bytes[0] ^= 0x01;
    assert_eq!(Message::decode(&bytes, true, AddPath::none()), Err(DecodeError::BadMarker));

    let mut bytes = Message::Keepalive.encode(true, AddPath::none());
    bytes.push(0);
    assert!(matches!(Message::decode(&bytes, true, AddPath::none()), Err(DecodeError::BadLength { .. })));

    let mut bytes = Message::Keepalive.encode(true, AddPath::none());
    bytes[18] = 9;
    assert_eq!(Message::decode(&bytes, true, AddPath::none()), Err(DecodeError::BadType(9)));

    let mut bytes = Message::Open(Open::new(VERSION, 1, 90, ip([1, 1, 1, 1]))).encode(true, AddPath::none());
    bytes[HEADER_LEN] = 3;
    assert_eq!(Message::decode(&bytes, true, AddPath::none()), Err(DecodeError::BadVersion(3)));
}

#[test]
fn the_message_header_and_type_codes_are_the_ones_the_rfc_assigns() {
    for (t, code) in [
        (MessageType::Open, 1u8),
        (MessageType::Update, 2),
        (MessageType::Notification, 3),
        (MessageType::Keepalive, 4),
        (MessageType::RouteRefresh, 5),
    ] {
        assert_eq!(t.as_u8(), code, "{t:?} is message type {code}");
        assert_eq!(MessageType::from_u8(code), Some(t));
    }
    assert_eq!(MessageType::from_u8(0), None);
    assert_eq!(MessageType::from_u8(6), None);

    let b = Message::Keepalive.encode(true, AddPath::none());
    assert_eq!(&b[0..16], &[0xffu8; 16], "the Marker is 16 octets of 0xff");
    assert_eq!(&b[16..18], &[0, 19], "Length is bytes 16..18; a KEEPALIVE is 19");
    assert_eq!(b[18], 4, "Type is byte 18");
    assert_eq!(b.len(), 19, "a KEEPALIVE is header-only");
}

#[test]
fn an_open_body_is_encoded_in_the_rfc_field_order() {
    let msg = Message::Open(Open {
        version: 4,
        my_as: 0xfde8,
        hold_time: 0x005a,
        identifier: ip([10, 0, 0, 1]),
        capabilities: vec![],
    });
    let b = msg.encode(true, AddPath::none());
    assert_eq!(b[18], 1, "an OPEN is Type 1");
    assert_eq!(b[19], 4, "Version is byte 19");
    assert_eq!(&b[20..22], &[0xfd, 0xe8], "My Autonomous System is bytes 20..22");
    assert_eq!(&b[22..24], &[0x00, 0x5a], "Hold Time is bytes 22..24");
    assert_eq!(&b[24..28], &[10, 0, 0, 1], "BGP Identifier is bytes 24..28");
    assert_eq!(b[28], 0, "Optional Parameters Length is byte 28");
    assert_eq!(b.len(), 29, "an OPEN with no parameters is 29 octets");
}

#[test]
fn an_update_body_is_encoded_in_the_rfc_field_order() {
    let msg = Message::Update(Update {
        withdrawn: vec![p("192.0.2.0/24")],
        attributes: vec![PathAttribute::Origin(Origin::Igp)],
        nlri: vec![p("10.0.0.0/24")],
        nlri_path_ids: vec![],
        withdrawn_path_ids: vec![],
    });
    let b = msg.encode(true, AddPath::none());
    assert_eq!(b[18], 2, "an UPDATE is Type 2");
    assert_eq!(&b[19..21], &[0, 4], "Withdrawn Routes Length is bytes 19..21");
    assert_eq!(&b[21..25], &[24, 192, 0, 2], "the withdrawn prefix follows it");
    assert_eq!(&b[25..27], &[0, 4], "Total Path Attribute Length follows the withdrawals");
    assert_eq!(&b[27..31], &[0x40, 1, 1, 0], "the ORIGIN attribute");
    assert_eq!(&b[31..], &[24, 10, 0, 0], "the NLRI runs to the end of the message");
    assert_eq!(
        u16::from_be_bytes([b[16], b[17]]) as usize,
        b.len(),
        "only the header Length bounds the NLRI"
    );

    let eor = Message::Update(Update {
        withdrawn: vec![],
        attributes: vec![],
        nlri: vec![],
        nlri_path_ids: vec![],
        withdrawn_path_ids: vec![],
    })
    .encode(true, AddPath::none());
    assert_eq!(eor.len(), 23);
    assert_eq!(&eor[19..23], &[0, 0, 0, 0]);
}

#[test]
fn a_notification_body_is_the_code_then_the_subcode_then_data() {
    let msg = Message::Notification(Notification {
        code: 6,
        subcode: 2,
        data: b"bye".to_vec(),
    });
    let b = msg.encode(true, AddPath::none());
    assert_eq!(b[18], 3, "a NOTIFICATION is Type 3");
    assert_eq!(b[19], 6, "Error code is byte 19");
    assert_eq!(b[20], 2, "Error subcode is byte 20");
    assert_eq!(&b[21..], b"bye", "the data follows from byte 21");
    assert_eq!(b.len(), 24);
}

#[test]
fn a_route_refresh_body_has_a_reserved_octet_between_afi_and_safi() {
    let b = Message::RouteRefresh { afi: AFI_IPV6, safi: SAFI_UNICAST }
        .encode(true, AddPath::none());
    assert_eq!(b[18], 5, "a ROUTE-REFRESH is Type 5");
    assert_eq!(&b[19..21], &[0, 2], "AFI is bytes 19..21; IPv6 is 2");
    assert_eq!(b[21], 0, "byte 21 is Reserved and must be zero");
    assert_eq!(b[22], 1, "SAFI is byte 22; unicast is 1");
    assert_eq!(b.len(), 23);
}

#[test]
fn a_hand_built_open_decodes_each_field_from_its_rfc_offset() {
    let mut w = vec![0xffu8; 16];
    w.extend_from_slice(&[0, 29]);
    w.push(1);
    w.push(4);
    w.extend_from_slice(&[0x5b, 0xa0]);
    w.extend_from_slice(&[0x00, 0xb4]);
    w.extend_from_slice(&[192, 0, 2, 1]);
    w.push(0);
    assert_eq!(w.len(), 29);
    match Message::decode(&w, true, AddPath::none()).expect("a well-formed OPEN decodes") {
        Message::Open(o) => {
            assert_eq!(o.version, 4);
            assert_eq!(o.my_as, 23456);
            assert_eq!(o.hold_time, 180);
            assert_eq!(o.identifier, ip([192, 0, 2, 1]));
            assert!(o.capabilities.is_empty());
        }
        other => panic!("expected an OPEN, got {other:?}"),
    }
}
