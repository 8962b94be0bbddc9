use wren::bgp::{AFI_IPV4, AFI_IPV6, SAFI_UNICAST};
use wren::bgp::capability::{
    ADD_PATH_BOTH, ADD_PATH_SEND, CAP_ADD_PATH, CAP_EXTENDED_NEXT_HOP, CAP_FOUR_OCTET_AS,
    CAP_GRACEFUL_RESTART, CAP_MULTIPROTOCOL, CAP_ROUTE_REFRESH, Capability,
    OPT_PARAM_CAPABILITIES, encode_optional_parameters, parse_optional_parameters,
};

#[test]
fn four_octet_as_capability_roundtrips() {
    let caps = vec![Capability::FourOctetAs(196_618)];
    let opt = encode_optional_parameters(&caps);
    assert_eq!(opt[0], OPT_PARAM_CAPABILITIES);
    assert_eq!(opt[2], CAP_FOUR_OCTET_AS);
    assert_eq!(opt[3], 4);
    assert_eq!(parse_optional_parameters(&opt), caps);
}

#[test]
fn empty_capabilities_encode_to_nothing() {
    assert!(encode_optional_parameters(&[]).is_empty());
    assert_eq!(parse_optional_parameters(&[]), vec![]);
}

#[test]
fn multiprotocol_capability_roundtrips() {
    let caps = vec![Capability::Multiprotocol { afi: AFI_IPV6, safi: SAFI_UNICAST }];
    let opt = encode_optional_parameters(&caps);
    assert_eq!(opt[0], OPT_PARAM_CAPABILITIES);
    assert_eq!(opt[2], CAP_MULTIPROTOCOL);
    assert_eq!(opt[3], 4);
    assert_eq!(&opt[4..8], &[0x00, 0x02, 0x00, 0x01]);
    assert_eq!(parse_optional_parameters(&opt), caps);
}

#[test]
fn route_refresh_capability_roundtrips() {
    let caps = vec![Capability::RouteRefresh];
    let opt = encode_optional_parameters(&caps);
    assert_eq!(opt[0], OPT_PARAM_CAPABILITIES);
    assert_eq!(opt[2], CAP_ROUTE_REFRESH);
    assert_eq!(opt[3], 0);
    assert_eq!(parse_optional_parameters(&opt), caps);
}

#[test]
fn graceful_restart_capability_roundtrips() {
    let caps = vec![Capability::GracefulRestart {
        restart_state: true,
        restart_time: 120,
        families: vec![(AFI_IPV4, SAFI_UNICAST, true), (AFI_IPV6, SAFI_UNICAST, false)],
    }];
    let opt = encode_optional_parameters(&caps);
    assert_eq!(opt[0], OPT_PARAM_CAPABILITIES);
    assert_eq!(opt[2], CAP_GRACEFUL_RESTART);
    assert_eq!(opt[3], 10);
    assert_eq!(u16::from_be_bytes([opt[4], opt[5]]), 0x8000 | 120);
    assert_eq!(parse_optional_parameters(&opt), caps);
}

#[test]
fn add_path_capability_roundtrips() {
    let caps = vec![Capability::AddPath(vec![
        (AFI_IPV4, SAFI_UNICAST, ADD_PATH_BOTH),
        (AFI_IPV6, SAFI_UNICAST, ADD_PATH_SEND),
    ])];
    let opt = encode_optional_parameters(&caps);
    assert_eq!(opt[0], OPT_PARAM_CAPABILITIES);
    assert_eq!(opt[2], CAP_ADD_PATH);
    assert_eq!(opt[3], 8);
    assert_eq!(&opt[4..8], &[0x00, 0x01, 0x01, ADD_PATH_BOTH]);
    assert_eq!(parse_optional_parameters(&opt), caps);
}

#[test]
fn extended_next_hop_capability_roundtrips() {
    let caps = vec![Capability::ExtendedNextHop(vec![(
        AFI_IPV4,
        SAFI_UNICAST as u16,
        AFI_IPV6,
    )])];
    let opt = encode_optional_parameters(&caps);
    assert_eq!(opt[0], OPT_PARAM_CAPABILITIES);
    assert_eq!(opt[2], CAP_EXTENDED_NEXT_HOP);
    assert_eq!(opt[3], 6);
    assert_eq!(&opt[4..10], &[0x00, 0x01, 0x00, 0x01, 0x00, 0x02]);
    assert_eq!(parse_optional_parameters(&opt), caps);
}

#[test]
fn unknown_capabilities_are_preserved_alongside_known() {
    let caps = vec![
        Capability::Unknown {
            code: 70,
            value: vec![0, 1, 0, 1],
        },
        Capability::FourOctetAs(65_536),
    ];
    let opt = encode_optional_parameters(&caps);
    assert_eq!(parse_optional_parameters(&opt), caps);
}

#[test]
fn truncated_optional_parameters_stop_cleanly() {
    let opt = [OPT_PARAM_CAPABILITIES, 10, CAP_FOUR_OCTET_AS, 4, 0, 0];
    assert_eq!(parse_optional_parameters(&opt), vec![]);
}
