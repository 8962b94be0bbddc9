use wren::babel::table::{BabelEvent, RouteTable};
use wren::babel::tlv::Tlv;
use wren::babel::Packet;
use wren::bfd::auth::{within_replay_window, AuthConfig, AuthType};
use wren::bfd::digest::{md5, sha1};
use wren::bfd::packet::{ControlPacket, Diag, State as BfdState};
use wren::bgp::attr::{reconstruct_as_path, AsPathSegment, AttrOutcome, PathAttribute};
use wren::bgp::bmp::{parse_common_header, termination};
use wren::bgp::capability::{encode_optional_parameters, parse_optional_parameters, Capability};
use wren::bgp::decode_prefix_v6;
use wren::bgp::encode_prefix_any;
use wren::bgp::ext_community::parse_ext_community;
use wren::bgp::evpn_rib::{auto_route_target, build_router_mac};
use wren::bgp::flowspec::{Action, Component, FlowSpec, NumOp};
use wren::bgp::fsm::{Action as Todo, BgpFsm, Event, State};
use wren::bgp::message::{AddPath, Message, Notification, Update};
use wren::bgp::nexthop::{decode_v6_next_hop, encode_v6_next_hop};
use wren::bgp::rpki::{Roa, RoaTable, Validity};
use wren::bgp::rtr::{pdu_length, Pdu};
use wren::bgp::srv6::{
    build_service_sid, decode_prefix_sid, encode_srv6_service_tlv, Srv6ServiceSid, Srv6ServiceTlv,
};
use wren::bgp::MessageType;
use wren::net::{IpAddr, Ipv4Addr, Ipv6Addr, Prefix};

fn hex(b: &[u8]) -> String {
    b.iter().map(|x| format!("{x:02x}")).collect()
}

fn v6(first: u16, last: u16) -> Ipv6Addr {
    let mut o = [0u8; 16];
    o[..2].copy_from_slice(&first.to_be_bytes());
    o[14..].copy_from_slice(&last.to_be_bytes());
    Ipv6Addr::new(o)
}

#[test]
fn digests_of_messages_that_fill_their_blocks() {
    assert_eq!(hex(&md5(&[b'a'; 55])), "ef1772b6dff9a122358552954ad0df65");
    assert_eq!(hex(&md5(&[b'a'; 56])), "3b0c8ac703f828b04c6c197006d17218");
    assert_eq!(hex(&md5(&[b'a'; 64])), "014842d480b571495a4a0363793f7367");
    assert_eq!(hex(&sha1(&[b'a'; 55])), "c1c8bbdc22796e28c0e15163d20899b65621d65a");
    assert_eq!(hex(&sha1(&[b'a'; 56])), "c2db330f6083854c99d4b5bfb6e8f29f201be699");
    assert_eq!(hex(&sha1(&[b'a'; 64])), "0098ba824b5c16427bd7a1122a5a442a25ec644d");
}

#[test]
fn a_password_too_long_for_its_field_is_never_accepted() {
    let cfg = AuthConfig { auth_type: AuthType::SimplePassword, key_id: 1, secret: vec![7; 300] };
    let sent = cfg.new_state(3).append(&[0x20; 24]);
    assert!(!cfg.new_state(3).verify(&sent));
}

#[test]
fn a_nexthop_field_is_read_back() {
    let (g, l) = (v6(0x2001, 1), v6(0xfe80, 2));
    assert_eq!(decode_v6_next_hop(&encode_v6_next_hop(g, Some(l))), Some((g, Some(l))));
    let febf = v6(0xfebf, 2);
    assert_eq!(decode_v6_next_hop(&encode_v6_next_hop(g, Some(febf))), Some((g, Some(febf))));
    assert_eq!(decode_v6_next_hop(&encode_v6_next_hop(g, Some(v6(0xfec0, 2)))), Some((g, None)));
    assert_eq!(decode_v6_next_hop(&[0; 15]), None);
    assert_eq!(decode_v6_next_hop(&[0; 31]), Some((v6(0, 0), None)));
}

#[test]
fn a_pdu_is_read_from_in_front_of_anything() {
    let pdu = Pdu::EndOfData { session_id: 9, serial: 1, refresh: 2, retry: 3, expire: 4 };
    let mut bytes = pdu.encode();
    assert_eq!(
        bytes,
        [1, 7, 0, 9, 0, 0, 0, 24, 0, 0, 0, 1, 0, 0, 0, 2, 0, 0, 0, 3, 0, 0, 0, 4]
    );
    bytes.extend_from_slice(&[0xde, 0xad]);
    assert_eq!(Pdu::decode(&bytes), Ok(pdu));
    assert_eq!(pdu_length(&bytes), Some(24));
    assert_eq!(pdu_length(&bytes[..7]), None);
    let too_long = Pdu::IPv4Prefix {
        announce: true,
        prefix_len: 33,
        max_len: 33,
        addr: Ipv4Addr::new(10, 0, 0, 0),
        asn: 1,
    };
    assert_eq!(too_long.to_roa(), None);
}

#[test]
fn a_bmp_message_tells_its_length() {
    let m = termination(0x0102);
    assert_eq!(m, [3, 0, 0, 0, 12, 5, 0, 1, 0, 2, 1, 2]);
    assert_eq!(parse_common_header(&m), Some((5, 12)));
    assert_eq!(parse_common_header(&[3, 0, 0, 0, 5, 0]), None);
}

#[test]
fn more_roas_never_take_validity_away() {
    let net = |len: u8| Prefix::new(IpAddr::V4(Ipv4Addr::new(10, 0, 0, 0)), len).unwrap();
    let roa = |len: u8, max_length: u8, origin_as: u32| Roa { prefix: net(len), max_length, origin_as };
    let all = vec![roa(16, 16, 1), roa(8, 24, 2), roa(24, 24, 0)];
    assert_eq!(RoaTable::new(all[..1].to_vec()).validate(&net(16), 1), Validity::Valid);
    let t = RoaTable::new(all.clone());
    assert_eq!(t.validate(&net(16), 1), Validity::Valid);
    assert_eq!(t.validate(&net(24), 3), Validity::Invalid);
    assert_eq!(t.validate(&net(7), 2), Validity::NotFound);
    assert_eq!(t.iter(), &all[..]);
    assert_eq!((t.len(), t.is_empty(), RoaTable::default().is_empty()), (3, false, true));
}

#[test]
fn every_session_that_leaves_established_is_told_to_be_down() {
    let events = [
        Event::ManualStart,
        Event::ManualStop,
        Event::ConnectRetryTimerExpires,
        Event::HoldTimerExpires,
        Event::KeepaliveTimerExpires,
        Event::TcpConnected,
        Event::TcpConnectionFails,
        Event::OpenReceived,
        Event::KeepAliveReceived,
        Event::UpdateReceived,
        Event::NotificationReceived,
        Event::OpenError,
    ];
    let states = [
        State::Idle,
        State::Connect,
        State::Active,
        State::OpenSent,
        State::OpenConfirm,
        State::Established,
    ];
    for state in states {
        for ev in events {
            let mut fsm = BgpFsm { state };
            let acts = fsm.handle(ev);
            let left = state == State::Established && !fsm.is_established();
            let came = state != State::Established && fsm.is_established();
            assert_eq!(acts.contains(&Todo::SessionDown), left, "{state:?} {ev:?}");
            assert_eq!(acts.contains(&Todo::SessionEstablished), came, "{state:?} {ev:?}");
        }
    }
    assert_eq!(BgpFsm::default().handle(Event::NotificationReceived), vec![Todo::DropTcp]);
    assert!(BgpFsm::new().handle(Event::ManualStop).is_empty());
}

#[test]
fn an_ipv6_prefix_takes_its_octets_and_no_more() {
    let p = Prefix::new(IpAddr::V6(v6(0x2001, 0)), 33).unwrap();
    let mut out = Vec::new();
    encode_prefix_any(&mut out, &p);
    assert_eq!(out, [33, 0x20, 0x01, 0, 0, 0]);
    assert_eq!(decode_prefix_v6(&out), Some((p, 6)));
    assert_eq!(decode_prefix_v6(&[129; 18]), None);
}

#[test]
fn an_as_path_is_put_together_by_its_count() {
    let trans = 23456;
    let path = vec![
        AsPathSegment::ConfedSet(vec![1, 2]),
        AsPathSegment::Sequence(vec![3, trans]),
        AsPathSegment::AsSet(vec![4, 5]),
    ];
    let new = vec![AsPathSegment::Sequence(vec![70_000]), AsPathSegment::AsSet(vec![4, 80_000])];
    assert_eq!(
        reconstruct_as_path(&path, &new),
        vec![
            AsPathSegment::ConfedSet(vec![1, 2]),
            AsPathSegment::Sequence(vec![3, 70_000]),
            AsPathSegment::AsSet(vec![4, 80_000]),
        ]
    );
}

#[test]
fn only_two_attributes_are_ever_dropped_alone() {
    for type_code in 0..=255u8 {
        for flags in [0x00u8, 0x40, 0x80, 0xc0, 0xe0] {
            for body in [vec![], vec![0u8], vec![1u8; 9]] {
                let mut raw = vec![flags, type_code, body.len() as u8];
                raw.extend_from_slice(&body);
                if let Some((AttrOutcome::Discard { type_code: t }, used)) =
                    PathAttribute::decode(&raw, true)
                {
                    assert!(t == type_code && (t == 6 || t == 7));
                    assert_eq!(used, raw.len());
                }
            }
        }
    }
}

#[test]
fn a_message_that_was_written_is_read_back() {
    let v4 = |a: u8| Prefix::new(IpAddr::V4(Ipv4Addr::new(10, a, 0, 0)), 16).unwrap();
    let update = Update {
        withdrawn: vec![v4(1), v4(2)],
        withdrawn_path_ids: vec![5, 6],
        ..Update::default()
    };
    let ap = AddPath::ipv4(true);
    let bytes = Message::Update(update.clone()).encode(true, ap);
    assert_eq!(&bytes[19..28], &[0, 14, 0, 0, 0, 5, 16, 10, 1]);
    assert_eq!(Message::decode(&bytes, true, ap), Ok(Message::Update(update)));
    let n = Message::Notification(Notification { code: 1, subcode: 2, data: vec![] });
    assert_eq!(Message::decode(&n.encode(false, ap), false, ap), Ok(n));
}

#[test]
fn capabilities_behind_other_parameters_are_found() {
    let mut opt = vec![1, 2, 0xaa, 0xbb];
    opt.extend_from_slice(&encode_optional_parameters(&[Capability::RouteRefresh]));
    opt.extend_from_slice(&encode_optional_parameters(&[Capability::FourOctetAs(70_000)]));
    assert_eq!(
        parse_optional_parameters(&opt),
        vec![Capability::RouteRefresh, Capability::FourOctetAs(70_000)]
    );
}

#[test]
fn rules_are_written_in_the_order_of_types_and_read_back_so() {
    let port = Component::DestPort(vec![NumOp::eq(0x1_0000)]);
    let proto = Component::IpProto(vec![NumOp::eq(17)]);
    let mut out = Vec::new();
    FlowSpec { components: vec![port.clone(), proto.clone()] }.encode(&mut out);
    assert_eq!(out, [9, 3, 0x81, 17, 5, 0xa1, 0, 1, 0, 0]);
    let (back, used) = FlowSpec::decode(&out).unwrap();
    assert_eq!((back.components, used), (vec![proto, port], 10));
    let half = Action::RateLimit(0.5f32.to_bits());
    assert_eq!(half.encode(), [0x80, 6, 0, 0, 0x3f, 0, 0, 0]);
    assert_eq!(Action::decode(&half.encode()), Some(half));
    assert_eq!(half.to_string(), None);
    assert!(Action::RateLimit((-0.0f32).to_bits()).is_discard());
    assert_eq!(Action::decode(&Action::Marking(0xff).encode()), Some(Action::Marking(0x3f)));
}

#[test]
fn two_services_on_one_locator_have_two_sids() {
    let loc = v6(0xfc00, 0);
    let sids: Vec<[u8; 16]> = [(0u8, 1u32), (0, 2), (1, 1), (1, 2)]
        .iter()
        .map(|(d, vni)| build_service_sid(loc, 64, *d, *vni).0)
        .collect();
    for i in 0..sids.len() {
        for j in 0..i {
            assert_ne!(sids[i], sids[j]);
        }
    }
    assert_eq!(&sids[3][8..12], &[1, 0, 0, 2]);
}

#[test]
fn communities_of_evpn_have_their_octets() {
    assert_eq!(auto_route_target(0x0102, 0x0304_0506), [0, 2, 1, 2, 3, 4, 5, 6]);
    assert_eq!(build_router_mac([1, 2, 3, 4, 5, 6]), [6, 3, 1, 2, 3, 4, 5, 6]);
}

#[test]
fn padding_between_tlvs_changes_nothing_else() {
    let hello = Tlv::Hello { flags: 0x8000, seqno: 1, interval: 2 };
    let pkt = Packet::new(vec![Tlv::PadN(0), hello.clone(), Tlv::Pad1, hello]);
    let bytes = pkt.encode();
    assert_eq!(bytes.len(), 4 + 2 + 8 + 1 + 8);
    assert_eq!(Packet::decode(&bytes), Ok(pkt));
}

#[test]
fn an_empty_withdrawal_marks_its_family() {
    let alone = |a: PathAttribute| Update { attributes: vec![a], ..Update::default() };
    let ls = alone(PathAttribute::MpUnreachLinkState { withdrawn: vec![] });
    assert_eq!(ls.end_of_rib(), Some((16388, 71)));
    let sr = alone(PathAttribute::MpUnreachSrPolicy { afi: 2, withdrawn: vec![] });
    assert_eq!(sr.end_of_rib(), Some((2, 73)));
    let evpn = alone(PathAttribute::MpUnreachEvpn { withdrawn: vec![] });
    assert_eq!(evpn.end_of_rib(), Some((25, 70)));
    let flows = alone(PathAttribute::MpUnreachFlowSpec { afi: 1, withdrawn: vec![] });
    assert_eq!(flows.end_of_rib(), Some((1, 133)));
}

#[test]
fn a_marker_is_recognised_behind_the_wire() {
    let families = [
        (1u16, 1u8),
        (2, 1),
        (25, 70),
        (1, 133),
        (2, 133),
        (1, 73),
        (2, 73),
        (16388, 71),
    ];
    for (afi, safi) in families {
        for (four, ap) in [(true, AddPath::none()), (false, AddPath::ipv4(true))] {
            let bytes = Message::Update(Update::end_of_rib_marker(afi, safi)).encode(four, ap);
            match Message::decode(&bytes, four, ap) {
                Ok(Message::Update(u)) => assert_eq!(u.end_of_rib(), Some((afi, safi))),
                other => panic!("{:?}", other),
            }
        }
    }
}

#[test]
fn a_raw_extended_community_is_hexadecimal_digits_alone() {
    assert_eq!(parse_ext_community("0x+1+1+1+1+1+1+1+1"), None);
    assert_eq!(parse_ext_community("0x01010101010101+1"), None);
    assert_eq!(parse_ext_community("0x010101010101010g"), None);
    assert_eq!(parse_ext_community("0X01010101010101aF"), Some([1, 1, 1, 1, 1, 1, 1, 0xaf]));
}

#[test]
fn a_trailer_behind_a_packet_is_passed_over() {
    let pkt = Packet::new(vec![Tlv::Hello { flags: 0, seqno: 7, interval: 400 }]);
    let mut bytes = pkt.encode();
    bytes.extend_from_slice(&[4, 6, 0, 0]);
    assert_eq!(Packet::decode(&bytes), Ok(pkt));
    let control = ControlPacket {
        diag: Diag::NoDiagnostic,
        state: BfdState::Init,
        poll: false,
        final_: true,
        cpi: true,
        demand: false,
        detect_mult: 5,
        my_discr: 1,
        your_discr: 2,
        desired_min_tx: 3,
        required_min_rx: 4,
        required_min_echo_rx: 5,
        auth_present: false,
    };
    let mut bytes = control.encode().to_vec();
    bytes.extend_from_slice(&[0xff, 0xff]);
    assert_eq!(ControlPacket::decode(&bytes), Some(control));
}

#[test]
fn services_among_other_tlvs_are_found_in_their_order() {
    let service = |is_l2: bool, vni: u32| {
        let (sid, structure) = build_service_sid(v6(0xfc00, 0), 48, 0, vni);
        let sid = Srv6ServiceSid { sid, behavior: 23, flags: 0, structure };
        Srv6ServiceTlv { is_l2, sids: vec![sid] }
    };
    let (first, second) = (service(true, 1), service(false, 2));
    let mut bytes = vec![1u8, 0, 1, 9];
    encode_srv6_service_tlv(&mut bytes, &first);
    bytes.extend_from_slice(&[3, 0, 2, 8, 7]);
    encode_srv6_service_tlv(&mut bytes, &second);
    let (services, others) = decode_prefix_sid(&bytes).unwrap();
    assert_eq!(services, vec![first, second]);
    assert_eq!(others, vec![(1u8, vec![9u8]), (3, vec![8, 7])]);
}

#[test]
fn the_four_basic_message_types_are_read_back() {
    let types = [
        MessageType::Open,
        MessageType::Update,
        MessageType::Notification,
        MessageType::Keepalive,
    ];
    for t in types {
        assert_eq!(MessageType::from_u8(t.as_u8()), Some(t));
    }
    assert_eq!(MessageType::from_u8(0), None);
}

#[test]
fn nothing_is_accepted_twice_under_a_meticulous_type() {
    let cfg = AuthConfig {
        auth_type: AuthType::MeticulousKeyedMd5,
        key_id: 1,
        secret: b"key".to_vec(),
    };
    let (mut tx, mut rx) = (cfg.new_state(3), cfg.new_state(3));
    let sent: Vec<Vec<u8>> = (0..40).map(|_| tx.append(&[0; 24])).collect();
    for i in 0..sent.len() {
        assert!(rx.verify(&sent[i]));
        for old in &sent[..=i] {
            assert!(!rx.verify(old));
        }
    }
}

#[test]
fn a_number_from_behind_is_outside_the_window() {
    for meticulous in [false, true] {
        for behind in [1u32, 2, 765, 0x8000_0000, u32::MAX - 9] {
            assert!(!within_replay_window(7, 7u32.wrapping_sub(behind), 3, meticulous));
        }
        assert!(within_replay_window(7, 7u32.wrapping_sub(u32::MAX - 8), 3, meticulous));
        assert_eq!(within_replay_window(7, 7, 3, meticulous), !meticulous);
    }
}

#[test]
fn the_selected_route_is_heard_again_in_silence() {
    let dst = Prefix::new(IpAddr::V4(Ipv4Addr::new(10, 0, 0, 0)), 8).unwrap();
    let (a, b) = (IpAddr::V6(v6(0xfe80, 1)), IpAddr::V6(v6(0xfe80, 2)));
    let mut t = RouteTable::new();
    assert!(t.update(dst, [1; 8], a, a, 1, 100, 10).is_some());
    assert_eq!(t.update(dst, [2; 8], b, b, 1, 200, 10), None);
    let before = t.selected_routes();
    assert_eq!(t.update(dst, [1; 8], a, a, 1, 100, 10), None);
    assert_eq!(t.update(dst, [2; 8], b, b, 1, 200, 10), None);
    assert_eq!(t.selected_routes(), before);
    assert_eq!(
        t.update(dst, [1; 8], a, a, 1, 100, 11),
        Some(BabelEvent::Select { prefix: dst, next_hop: a, metric: 111 })
    );
}
