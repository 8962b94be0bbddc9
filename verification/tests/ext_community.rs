use wren::bgp::ext_community::{format_ext_community, parse_ext_community};

#[test]
fn two_octet_as_route_target() {
    let c = parse_ext_community("rt:65001:100").unwrap();
    assert_eq!(c, [0x00, 0x02, 0xFD, 0xE9, 0x00, 0x00, 0x00, 0x64]);
    assert_eq!(format_ext_community(c), "rt:65001:100");
}

#[test]
fn four_octet_as_route_target() {
    let c = parse_ext_community("rt:65536:100").unwrap();
    assert_eq!(c, [0x02, 0x02, 0x00, 0x01, 0x00, 0x00, 0x00, 0x64]);
    assert_eq!(format_ext_community(c), "rt:65536:100");
}

#[test]
fn ipv4_route_origin() {
    let c = parse_ext_community("ro:192.0.2.1:100").unwrap();
    assert_eq!(c, [0x01, 0x03, 192, 0, 2, 1, 0x00, 0x64]);
    assert_eq!(format_ext_community(c), "ro:192.0.2.1:100");
}

#[test]
fn raw_hex_round_trips_unknown_types() {
    let c = parse_ext_community("0x4300000000000001").unwrap();
    assert_eq!(format_ext_community(c), "0x4300000000000001");
}

#[test]
fn rejects_garbage_and_overflow() {
    assert_eq!(parse_ext_community("rt:65001"), None);
    assert_eq!(parse_ext_community("xx:1:2"), None);
    assert_eq!(parse_ext_community("rt:65536:99999"), None);
    assert_eq!(parse_ext_community("rt:192.0.2.1:99999"), None);
    assert_eq!(parse_ext_community("0x1234"), None);
}

#[test]
fn ext_community_formats_round_trip() {
    for s in ["rt:65001:100", "ro:65001:0", "rt:65536:1", "ro:192.0.2.1:42"] {
        let c = parse_ext_community(s).unwrap();
        assert_eq!(parse_ext_community(&format_ext_community(c)), Some(c));
    }
}
