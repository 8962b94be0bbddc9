use wren::babel;
use wren::babel::Packet;
use wren::bgp::message::{AddPath, DecodeError, Message, Open};
use wren::bgp::rtr::{Pdu, RtrError};
use wren::bgp::VERSION;
use wren::net::{IpAddr, Ipv4Addr, Ipv6Addr, Prefix, PrefixError};

#[test]
fn a_babel_packet_tells_why_it_is_refused() {
    let refused = |b: &[u8]| Packet::decode(b).unwrap_err();
    assert_eq!(refused(&[42, 2, 0]), babel::DecodeError::TooShort);
    assert_eq!(refused(&[7, 2, 0, 0]), babel::DecodeError::BadMagic(7));
    assert_eq!(refused(&[42, 3, 0, 0]), babel::DecodeError::BadVersion(3));
    assert_eq!(refused(&[42, 2, 0, 1]), babel::DecodeError::BadBodyLength);
    assert_eq!(refused(&[42, 2, 0, 3, 3, 2, 0]), babel::DecodeError::Malformed);
    assert_eq!(refused(&[42, 2, 0]).to_string(), "packet shorter than required");
    assert_eq!(refused(&[7, 2, 0, 0]).to_string(), "bad magic 7 (expected 42)");
    assert_eq!(refused(&[42, 3, 0, 0]).to_string(), "unsupported version 3");
    assert_eq!(refused(&[42, 2, 0, 1]).to_string(), "body length runs past the buffer");
    assert_eq!(refused(&[42, 2, 0, 3, 3, 2, 0]).to_string(), "malformed TLV body");
}

#[test]
fn a_bgp_message_tells_why_it_is_refused() {
    let refused = |b: &[u8]| Message::decode(b, true, AddPath::none()).unwrap_err();
    let keepalive = Message::Keepalive.encode(true, AddPath::none());
    assert_eq!(refused(&keepalive[..18]), DecodeError::TooShort);
    assert_eq!(refused(&[]).to_string(), "message shorter than required");

    let mut b = keepalive.clone();
    b[3] = 0;
    assert_eq!(refused(&b), DecodeError::BadMarker);
    assert_eq!(refused(&b).to_string(), "bad marker (not all ones)");

    let mut b = keepalive.clone();
    b[17] = 20;
    assert_eq!(refused(&b), DecodeError::BadLength { stated: 20, actual: 19 });
    assert_eq!(refused(&b).to_string(), "stated length 20 != actual 19");

    let mut b = keepalive.clone();
    b[18] = 77;
    assert_eq!(refused(&b).to_string(), "unknown message type 77");

    let id = Ipv4Addr::new(10, 0, 0, 1);
    let mut b = Message::Open(Open::new(VERSION, 1, 90, id)).encode(true, AddPath::none());
    b[19] = 5;
    assert_eq!(refused(&b), DecodeError::BadVersion(5));
    assert_eq!(refused(&b).to_string(), "unsupported BGP version 5");

    let mut b = keepalive.clone();
    b[18] = 3;
    assert_eq!(refused(&b), DecodeError::TooShort);

    let mut b = keepalive;
    b[18] = 5;
    assert_eq!(refused(&b), DecodeError::Malformed);
    assert_eq!(refused(&b).to_string(), "malformed message body");
}

#[test]
fn an_rtr_pdu_tells_why_it_is_refused() {
    assert_eq!(Pdu::decode(&[1, 8, 0, 0, 0, 0, 0]), Err(RtrError::Truncated));
    assert_eq!(Pdu::decode(&[1, 8, 0, 0, 0, 0, 0, 7]), Err(RtrError::BadLength));
    assert_eq!(Pdu::decode(&[1, 8, 0, 0, 0, 0, 0, 9]), Err(RtrError::Truncated));
    assert_eq!(Pdu::decode(&[1, 0, 0, 0, 0, 0, 0, 8]), Err(RtrError::BadLength));
    assert_eq!(Pdu::decode(&[1, 5, 0, 0, 0, 0, 0, 8]), Err(RtrError::UnknownType(5)));
    assert_eq!(RtrError::Truncated.to_string(), "truncated RTR PDU");
    assert_eq!(RtrError::BadLength.to_string(), "bad RTR PDU length");
    assert_eq!(RtrError::UnknownType(200).to_string(), "unknown RTR PDU type 200");
}

#[test]
fn a_prefix_longer_than_its_family_is_refused() {
    let v4 = IpAddr::V4(Ipv4Addr::new(10, 1, 2, 3));
    let v6 = IpAddr::V6(Ipv6Addr::new([0xff; 16]));
    assert_eq!(Prefix::new(v4, 33), Err(PrefixError::LengthTooLong));
    assert_eq!(Prefix::new(v6, 129), Err(PrefixError::LengthTooLong));
    assert!(Prefix::new(v6, 128).is_ok());
    let p = Prefix::new(v4, 9).unwrap();
    assert_eq!(p.addr(), IpAddr::V4(Ipv4Addr::new(10, 0, 0, 0)));
    assert_eq!(p.len(), 9);
    assert!(p.contains(IpAddr::V4(Ipv4Addr::new(10, 127, 255, 255))));
    assert!(!p.contains(IpAddr::V4(Ipv4Addr::new(10, 128, 0, 0))));
}
