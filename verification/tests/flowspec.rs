use wren::bgp::flowspec::{Action, BitOp, Component, FlowSpec, NumOp};
use wren::bgp::flowspec::component_type::DEST_PREFIX;
use wren::net::{IpAddr, Ipv4Addr, Prefix};

fn v4(a: [u8; 4], len: u8) -> Prefix {
    Prefix::new(IpAddr::V4(Ipv4Addr { octets: a }), len).expect("valid prefix")
}

#[test]
fn nlri_roundtrips_prefix_proto_and_port() {
    let fs = FlowSpec {
        components: vec![
            Component::DestPrefix(v4([10, 5, 5, 0], 24)),
            Component::IpProto(vec![NumOp::eq(6)]),
            Component::DestPort(vec![NumOp::eq(80)]),
        ],
    };
    let mut buf = Vec::new();
    fs.encode(&mut buf);
    let (back, used) = FlowSpec::decode(&buf).expect("decode");
    assert_eq!(used, buf.len());
    assert_eq!(back, fs);
    assert_eq!(back.to_string(), "dst 10.5.5.0/24 proto =6 dport =80");
}

#[test]
fn components_are_sorted_by_type_on_encode() {
    let fs = FlowSpec {
        components: vec![
            Component::DestPort(vec![NumOp::eq(443)]),
            Component::DestPrefix(v4([192, 0, 2, 0], 24)),
        ],
    };
    let mut buf = Vec::new();
    fs.encode(&mut buf);
    assert_eq!(buf[1], DEST_PREFIX);
}

#[test]
fn numeric_op_range_roundtrips() {
    let ops = vec![
        NumOp { and: false, lt: false, gt: true, eq: true, value: 1024 },
        NumOp { and: true, lt: true, gt: false, eq: true, value: 2048 },
    ];
    let fs = FlowSpec { components: vec![Component::DestPort(ops.clone())] };
    let mut buf = Vec::new();
    fs.encode(&mut buf);
    let (back, _) = FlowSpec::decode(&buf).unwrap();
    assert_eq!(back.components, vec![Component::DestPort(ops)]);
    assert_eq!(back.to_string(), "dport >=1024&<=2048");
}

#[test]
fn tcp_flags_bitmask_roundtrips() {
    let fs = FlowSpec {
        components: vec![Component::TcpFlags(vec![BitOp {
            and: false,
            not: false,
            match_: false,
            value: 0x02,
        }])],
    };
    let mut buf = Vec::new();
    fs.encode(&mut buf);
    let (back, _) = FlowSpec::decode(&buf).unwrap();
    assert_eq!(back, fs);
}

#[test]
fn two_octet_value_uses_two_byte_length() {
    let fs = FlowSpec { components: vec![Component::DestPort(vec![NumOp::eq(8080)])] };
    let mut buf = Vec::new();
    fs.encode(&mut buf);
    assert_eq!(buf.len(), 5);
    let (back, _) = FlowSpec::decode(&buf).unwrap();
    assert_eq!(back, fs);
}

#[test]
fn rate_limit_action_roundtrips_and_zero_is_discard() {
    let ec = Action::discard().encode();
    assert_eq!(ec[0], 0x80);
    assert_eq!(ec[1], 0x06);
    assert_eq!(Action::decode(&ec), Some(Action::RateLimit(0.0f32.to_bits())));
    assert_eq!(Action::discard().to_string().as_deref(), Some("discard"));

    let rl = Action::RateLimit(1000.0f32.to_bits());
    assert_eq!(Action::decode(&rl.encode()), Some(rl));
}

#[test]
fn marking_action_roundtrips() {
    let m = Action::Marking(46);
    let ec = m.encode();
    assert_eq!((ec[0], ec[1]), (0x80, 0x09));
    assert_eq!(Action::decode(&ec), Some(m));
    assert_eq!(m.to_string().as_deref(), Some("mark dscp 46"));
}

#[test]
fn decode_rejects_unknown_action() {
    assert_eq!(Action::decode(&[0x00, 0x02, 0, 0, 0, 0, 0, 1]), None);
}
