use wren::bgp::community::{format_community, parse_community};
use wren::bgp::evpn::{Esi, EvpnNlri, Rd};
use wren::bgp::ext_community::{format_ext_community, parse_ext_community};
use wren::bgp::flowspec::{BitOp, Component, FlowSpec, NumOp};
use wren::bgp::flowspec_rib::FlowSpecNlri;
use wren::bgp::link_state::{BgpLsAttribute, LsObjectKind, LsTlv, ATTR_NODE_NAME};
use wren::bgp::rpki::Validity;
use wren::bgp::sr_policy::decode_tunnel_value;
use wren::bgp::srv6::sid_to_string;
use wren::bfd::packet::State;
use wren::net::{IpAddr, Ipv4Addr, Ipv6Addr, Prefix};

#[test]
fn a_node_name_that_is_not_utf8_is_repaired() {
    let name = |value: Vec<u8>| BgpLsAttribute::new(vec![LsTlv { typ: ATTR_NODE_NAME, value }]);
    assert_eq!(name(b"core-1".to_vec()).node_name().as_deref(), Some("core-1"));
    assert_eq!(name(vec![b'r', 0xff, b'1']).node_name().as_deref(), Some("r\u{fffd}1"));
    assert_eq!(name("zürich".as_bytes().to_vec()).node_name().as_deref(), Some("zürich"));
    assert_eq!(BgpLsAttribute::new(vec![]).node_name(), None);
}

#[test]
fn a_policy_name_that_is_not_utf8_is_repaired() {
    let enc = decode_tunnel_value(&[129, 0, 4, 0, b'a', 0xc3, b'b']).unwrap();
    assert_eq!(enc.policy_name.as_deref(), Some("a\u{fffd}b"));
}

#[test]
fn sids_are_written_as_ipv6_addresses() {
    let sid = |w: [u16; 8]| {
        let mut o = [0u8; 16];
        for (i, x) in w.iter().enumerate() {
            o[2 * i..2 * i + 2].copy_from_slice(&x.to_be_bytes());
        }
        sid_to_string(&o)
    };
    assert_eq!(sid([0; 8]), "::");
    assert_eq!(sid([0, 0, 0, 0, 0, 0, 0, 1]), "::1");
    assert_eq!(sid([0xfc00, 0, 1, 0, 0, 0, 0, 0]), "fc00:0:1::");
    assert_eq!(sid([0x2001, 0xdb8, 0, 0, 1, 0, 0, 1]), "2001:db8::1:0:0:1");
    assert_eq!(sid([1, 0, 2, 3, 4, 5, 6, 7]), "1:0:2:3:4:5:6:7");
    assert_eq!(sid([0, 0, 0, 0, 0, 0xffff, 0xc000, 0x0201]), "::ffff:192.0.2.1");
}

#[test]
fn communities_take_spaces_around_them() {
    assert_eq!(parse_community(" 65001:100 "), Some(0xfde9_0064));
    assert_eq!(format_community(0xffff_ff01), "no-export");
    assert_eq!(format_community(0xffff_ff02), "no-advertise");
    assert_eq!(format_community(0xffff_ff03), "no-export-subconfed");
    assert_eq!(format_community(0xffff_ff04), "65535:65284");
}

#[test]
fn a_four_octet_as_that_fits_two_octets_is_read_as_one_of_two() {
    let c = [0x02, 0x02, 0x00, 0x00, 0x00, 0x64, 0x00, 0x01];
    assert_eq!(format_ext_community(c), "rt:100:1");
    assert_eq!(parse_ext_community("rt:100:1"), Some([0x00, 0x02, 0, 100, 0, 0, 0, 1]));
}

#[test]
fn evpn_routes_have_texts() {
    assert_eq!(Rd([0, 2, 0, 1, 0, 0, 0, 5]).to_string(), "65536:5");
    assert_eq!(Rd([9, 9, 1, 2, 3, 4, 5, 6]).to_string(), "raw:0909010203040506");
    assert_eq!(Esi::zero().to_string(), "00:00:00:00:00:00:00:00:00:00");
    let imet = EvpnNlri::Imet {
        rd: Rd::from_as2(65001, 7),
        eth_tag: 0,
        orig_ip: IpAddr::V4(Ipv4Addr::new(192, 0, 2, 1)),
    };
    assert_eq!(imet.to_string(), "[3]:65001:7:192.0.2.1");
    assert_eq!(imet.route_type(), 3);
    assert_eq!(imet.rd(), Some(Rd::from_as2(65001, 7)));
}

#[test]
fn rules_have_texts() {
    let net = Prefix::new(IpAddr::V6(Ipv6Addr::new([0; 16])), 0).unwrap();
    let spec = FlowSpec {
        components: vec![
            Component::TcpFlags(vec![
                BitOp { and: false, not: true, match_: false, value: 2 },
                BitOp { and: true, not: false, match_: true, value: 16 },
            ]),
            Component::SrcPrefix(net),
            Component::PktLen(vec![NumOp { and: false, lt: true, gt: false, eq: false, value: 64 }]),
        ],
    };
    let text = spec.to_string();
    assert!(text.starts_with("src ::/0 tcp-flags "), "{text}");
    assert!(text.ends_with(" len <64"), "{text}");
    assert_eq!(FlowSpecNlri { afi: 2, spec: spec.clone() }.to_string(), format!("[ipv6] {text}"));
    assert_eq!(FlowSpecNlri { afi: 1, spec }.to_string(), text);
}

#[test]
fn labels_are_the_ones_operators_see() {
    assert_eq!(Validity::Valid.as_str(), "valid");
    assert_eq!(Validity::Invalid.as_str(), "invalid");
    assert_eq!(Validity::NotFound.as_str(), "notfound");
    assert_eq!(LsObjectKind::Node.to_string(), "node");
    assert_eq!(LsObjectKind::Ipv6Prefix.to_string(), "ipv6-prefix");
    assert_eq!(State::AdminDown.label(), "AdminDown");
    assert_eq!(State::Up.label(), "Up");
}
