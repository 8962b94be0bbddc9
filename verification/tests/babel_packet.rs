use wren::babel::{DecodeError, MAGIC, Packet, VERSION};
use wren::babel::tlv::Tlv;

#[test]
fn empty_packet_roundtrips() {
    let bytes = Packet::new(vec![]).encode();
    assert_eq!(bytes, vec![MAGIC, VERSION, 0, 0]);
    assert_eq!(Packet::decode(&bytes).unwrap(), Packet::new(vec![]));
}

#[test]
fn rejects_bad_magic_and_version() {
    assert_eq!(Packet::decode(&[0, 2, 0, 0]), Err(DecodeError::BadMagic(0)));
    assert_eq!(Packet::decode(&[42, 9, 0, 0]), Err(DecodeError::BadVersion(9)));
    assert_eq!(Packet::decode(&[42]), Err(DecodeError::TooShort));
    assert_eq!(Packet::decode(&[42, 2, 0, 5]), Err(DecodeError::BadBodyLength));
}

#[test]
fn pad1_and_padn_are_carried() {
    let pkt = Packet::new(vec![Tlv::Pad1, Tlv::PadN(3), Tlv::Pad1]);
    let bytes = pkt.encode();
    assert_eq!(Packet::decode(&bytes).unwrap(), pkt);
}

#[test]
fn unknown_tlv_is_preserved() {
    let pkt = Packet::new(vec![Tlv::Unknown {
        tlv_type: 200,
        body: vec![1, 2, 3],
    }]);
    let bytes = pkt.encode();
    assert_eq!(Packet::decode(&bytes).unwrap(), pkt);
}
