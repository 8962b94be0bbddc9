use wren::bgp::large_community::{format_large_community, parse_large_community};

#[test]
fn parses_the_three_part_form() {
    assert_eq!(parse_large_community("65536:1:2"), Some((65536, 1, 2)));
    assert_eq!(parse_large_community("0:0:0"), Some((0, 0, 0)));
    assert_eq!(
        parse_large_community("4200000000:4294967295:0"),
        Some((4_200_000_000, 4_294_967_295, 0))
    );
}

#[test]
fn rejects_wrong_arity_and_garbage() {
    assert_eq!(parse_large_community("65001:100"), None);
    assert_eq!(parse_large_community("1:2:3:4"), None);
    assert_eq!(parse_large_community("foo:1:2"), None);
    assert_eq!(parse_large_community("65001:100:99999999999"), None);
    assert_eq!(parse_large_community(""), None);
}

#[test]
fn large_community_formats_round_trip() {
    for s in ["65536:1:2", "0:0:0", "4200000000:1:4294967295"] {
        let c = parse_large_community(s).unwrap();
        assert_eq!(parse_large_community(&format_large_community(c)), Some(c));
    }
    assert_eq!(format_large_community((65536, 1, 2)), "65536:1:2");
}
