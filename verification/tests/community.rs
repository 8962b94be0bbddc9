use wren::bgp::community::{
    NO_ADVERTISE, NO_EXPORT, NO_EXPORT_SUBCONFED, format_community, parse_community,
};

#[test]
fn parses_asn_value_form() {
    assert_eq!(parse_community("65001:100"), Some(0xFDE9_0064));
    assert_eq!(parse_community("0:0"), Some(0));
    assert_eq!(parse_community("65535:65535"), Some(0xFFFF_FFFF));
}

#[test]
fn parses_well_known_names_case_insensitively() {
    assert_eq!(parse_community("no-export"), Some(NO_EXPORT));
    assert_eq!(parse_community("NO-ADVERTISE"), Some(NO_ADVERTISE));
    assert_eq!(parse_community("No-Export-Subconfed"), Some(NO_EXPORT_SUBCONFED));
}

#[test]
fn parses_a_bare_integer() {
    assert_eq!(parse_community("4294967041"), Some(NO_EXPORT));
}

#[test]
fn rejects_garbage() {
    assert_eq!(parse_community("65001:"), None);
    assert_eq!(parse_community("foo"), None);
    assert_eq!(parse_community("65001:99999"), None);
    assert_eq!(parse_community("1:2:3"), None);
}

#[test]
fn community_formats_round_trip() {
    for s in ["65001:100", "no-export", "no-advertise", "no-export-subconfed", "0:42"] {
        let c = parse_community(s).unwrap();
        assert_eq!(parse_community(&format_community(c)), Some(c));
    }
    assert_eq!(format_community(0xFDE9_0064), "65001:100");
}
