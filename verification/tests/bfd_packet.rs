use wren::bfd::packet::{
    ControlPacket, Diag, MANDATORY_LEN, MIN_AUTHENTICATED_LEN, State, VERSION,
};

fn sample() -> ControlPacket {
    ControlPacket {
        diag: Diag::ControlDetectionTimeExpired,
        state: State::Up,
        poll: true,
        final_: false,
        cpi: false,
        demand: false,
        detect_mult: 3,
        my_discr: 0x0a0b0c0d,
        your_discr: 0x11223344,
        desired_min_tx: 300_000,
        required_min_rx: 300_000,
        required_min_echo_rx: 0,
        auth_present: false,
    }
}

#[test]
fn round_trips_through_the_wire() {
    let p = sample();
    let bytes = p.encode();
    assert_eq!(bytes.len(), MANDATORY_LEN);
    assert_eq!(bytes[3], MANDATORY_LEN as u8);
    assert_eq!(bytes[0] >> 5, VERSION);
    let back = ControlPacket::decode(&bytes).expect("decodes");
    assert_eq!(back, p);
}

#[test]
fn encodes_the_first_two_octets_per_the_bit_layout() {
    let p = ControlPacket {
        state: State::Down,
        diag: Diag::NoDiagnostic,
        poll: false,
        ..sample()
    };
    let b = p.encode();
    assert_eq!(b[0], 0x20);
    assert_eq!(b[1], 0x40);
}

#[test]
fn rejects_wrong_version_and_zero_fields() {
    let mut b = sample().encode();
    b[0] = 2 << 5;
    assert!(ControlPacket::decode(&b).is_none());

    let mut b = sample().encode();
    b[2] = 0;
    assert!(ControlPacket::decode(&b).is_none());

    let mut b = sample().encode();
    b[4..8].copy_from_slice(&0u32.to_be_bytes());
    assert!(ControlPacket::decode(&b).is_none());
}

#[test]
fn rejects_multipoint_but_records_auth_present() {
    let mut b = sample().encode();
    b[1] |= 1;
    assert!(ControlPacket::decode(&b).is_none());

    let mut b = sample().encode().to_vec();
    b[1] |= 1 << 2;
    b[3] = MIN_AUTHENTICATED_LEN as u8;
    b.extend_from_slice(&[0, 0]);
    let p = ControlPacket::decode(&b).expect("auth-present packets still decode");
    assert!(p.auth_present);
    assert!(!ControlPacket::decode(&sample().encode()).unwrap().auth_present);
}

#[test]
fn the_a_bit_requires_room_for_an_authentication_section_rfc5880() {
    for stated in [MANDATORY_LEN, 25] {
        let mut b = sample().encode().to_vec();
        b[1] |= 1 << 2;
        b[3] = stated as u8;
        b.resize(stated.max(MANDATORY_LEN), 0);
        assert!(
            ControlPacket::decode(&b).is_none(),
            "a length of {stated} with the A bit set was accepted"
        );
    }
    let mut b = sample().encode().to_vec();
    b[1] |= 1 << 2;
    b[3] = MIN_AUTHENTICATED_LEN as u8;
    b.extend_from_slice(&[0, 0]);
    assert!(ControlPacket::decode(&b).is_some(), "the shortest legal authenticated packet was refused");
    assert!(ControlPacket::decode(&sample().encode()).is_some());
}

#[test]
fn rejects_zero_your_discr_when_sender_claims_up() {
    let mut b = sample().encode();
    b[1] = State::Up.to_bits() << 6;
    b[8..12].copy_from_slice(&0u32.to_be_bytes());
    assert!(ControlPacket::decode(&b).is_none());
    b[1] = State::Down.to_bits() << 6;
    assert!(ControlPacket::decode(&b).is_some());
}

#[test]
fn too_short_is_none() {
    assert!(ControlPacket::decode(&[0u8; 10]).is_none());
}

#[test]
fn the_mandatory_section_writes_each_field_at_the_offset_the_rfc_names() {
    let p = ControlPacket {
        detect_mult: 5,
        my_discr: 0x0a0b_0c0d,
        your_discr: 0x1122_3344,
        desired_min_tx: 0x0004_93e0,
        required_min_rx: 0x000f_4240,
        required_min_echo_rx: 0x0000_03e8,
        ..sample()
    };
    let b = p.encode();
    assert_eq!(b.len(), 24, "the mandatory section is 24 octets");
    assert_eq!(b[2], 5, "Detect Mult is byte 2");
    assert_eq!(b[3], 24, "Length is byte 3");
    assert_eq!(&b[4..8], &[0x0a, 0x0b, 0x0c, 0x0d], "My Discriminator is 4..8");
    assert_eq!(&b[8..12], &[0x11, 0x22, 0x33, 0x44], "Your Discriminator is 8..12");
    assert_eq!(&b[12..16], &[0x00, 0x04, 0x93, 0xe0], "Desired Min TX is 12..16");
    assert_eq!(&b[16..20], &[0x00, 0x0f, 0x42, 0x40], "Required Min RX is 16..20");
    assert_eq!(&b[20..24], &[0x00, 0x00, 0x03, 0xe8], "Required Min Echo RX is 20..24");
}

#[test]
fn each_control_flag_occupies_the_bit_the_rfc_assigns_it() {
    let base = ControlPacket {
        state: State::AdminDown,
        poll: false,
        final_: false,
        cpi: false,
        demand: false,
        ..sample()
    };
    let only = |f: &dyn Fn(&mut ControlPacket)| {
        let mut p = base;
        f(&mut p);
        p.encode()[1]
    };
    assert_eq!(only(&|p| p.poll = true), 0x20, "P is bit 5 (0x20)");
    assert_eq!(only(&|p| p.final_ = true), 0x10, "F is bit 4 (0x10)");
    assert_eq!(only(&|p| p.cpi = true), 0x08, "C is bit 3 (0x08)");
    assert_eq!(only(&|p| p.demand = true), 0x02, "D is bit 1 (0x02)");
    assert_eq!(base.encode()[1], 0x00, "no flags set leaves byte 1 zero");
    let all = ControlPacket {
        poll: true,
        final_: true,
        cpi: true,
        demand: true,
        ..base
    };
    assert_eq!(all.encode()[1] & 0x04, 0, "the A bit is never set by encode");
    assert_eq!(all.encode()[1] & 0x01, 0, "the M bit is never set by encode");
    assert_eq!(all.encode()[1], 0x3a, "P|F|C|D with State AdminDown");
}

#[test]
fn the_state_field_uses_the_codes_the_rfc_assigns() {
    for (state, bits) in [
        (State::AdminDown, 0b00u8),
        (State::Down, 0b01),
        (State::Init, 0b10),
        (State::Up, 0b11),
    ] {
        assert_eq!(state.to_bits(), bits, "{state:?} is state code {bits}");
        assert_eq!(State::from_bits(bits), state);
        let p = ControlPacket {
            state,
            poll: false,
            final_: false,
            cpi: false,
            demand: false,
            your_discr: 1,
            ..sample()
        };
        assert_eq!(p.encode()[1] >> 6, bits, "State is the top 2 bits of byte 1");
    }
}

#[test]
fn the_diagnostic_field_uses_the_codes_the_rfc_assigns() {
    for (diag, code) in [
        (Diag::NoDiagnostic, 0u8),
        (Diag::ControlDetectionTimeExpired, 1),
        (Diag::EchoFunctionFailed, 2),
        (Diag::NeighborSignaledDown, 3),
        (Diag::Other(4), 4),
        (Diag::Other(5), 5),
        (Diag::Other(6), 6),
        (Diag::AdministrativelyDown, 7),
        (Diag::Other(8), 8),
    ] {
        assert_eq!(diag.code(), code, "{diag:?} is diagnostic code {code}");
        assert_eq!(Diag::from_code(code), diag);
        let p = ControlPacket { diag, ..sample() };
        let b0 = p.encode()[0];
        assert_eq!(b0 & 0x1f, code, "Diag is the low 5 bits of byte 0");
        assert_eq!(b0 >> 5, 1, "Version 1 stays in the top 3 bits");
    }
}
