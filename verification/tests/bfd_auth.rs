use wren::bfd::auth::{AuthConfig, AuthType, digest_for, within_replay_window};
use wren::bfd::digest::{md5, sha1};

fn hex(b: &[u8]) -> String {
    b.iter().map(|x| format!("{x:02x}")).collect()
}

#[test]
fn md5_known_vectors() {
    assert_eq!(hex(&md5(b"")), "d41d8cd98f00b204e9800998ecf8427e");
    assert_eq!(hex(&md5(b"abc")), "900150983cd24fb0d6963f7d28e17f72");
    assert_eq!(
        hex(&md5(b"The quick brown fox jumps over the lazy dog")),
        "9e107d9d372bb6826bd81d3542a419d6"
    );
}

#[test]
fn sha1_known_vectors() {
    assert_eq!(hex(&sha1(b"")), "da39a3ee5e6b4b0d3255bfef95601890afd80709");
    assert_eq!(hex(&sha1(b"abc")), "a9993e364706816aba3e25717850c26c9cd0d89d");
    assert_eq!(
        hex(&sha1(b"The quick brown fox jumps over the lazy dog")),
        "2fd4e1c67a2d28fced849ee1bb76e7391b93eb12"
    );
}

fn mand() -> [u8; 24] {
    let mut b = [0u8; 24];
    b[0] = 0x20;
    b[1] = 0xc0;
    b[2] = 3;
    b[3] = 24;
    b[4] = 0;
    b[5] = 0;
    b[6] = 0;
    b[7] = 1;
    b
}

fn cfg(ty: AuthType, secret: &[u8]) -> AuthConfig {
    AuthConfig { auth_type: ty, key_id: 7, secret: secret.to_vec() }
}

#[test]
fn simple_password_round_trips_and_rejects_wrong_key() {
    let mut tx = cfg(AuthType::SimplePassword, b"hunter2").new_state(3);
    let bytes = tx.append(&mand());
    assert_ne!(bytes[1] & (1 << 2), 0);
    assert_eq!(bytes[3] as usize, bytes.len());
    let mut rx = cfg(AuthType::SimplePassword, b"hunter2").new_state(3);
    assert!(rx.verify(&bytes));
    let mut bad = cfg(AuthType::SimplePassword, b"nope").new_state(3);
    assert!(!bad.verify(&bytes));
}

#[test]
fn keyed_digests_round_trip_and_reject_tampering() {
    for ty in [
        AuthType::KeyedMd5,
        AuthType::MeticulousKeyedMd5,
        AuthType::KeyedSha1,
        AuthType::MeticulousKeyedSha1,
    ] {
        let mut tx = cfg(ty, b"sharedsecret").new_state(3);
        let mut rx = cfg(ty, b"sharedsecret").new_state(3);
        let p1 = tx.append(&mand());
        assert!(rx.verify(&p1), "{ty:?} first packet verifies");
        let p2 = tx.append(&mand());
        assert!(rx.verify(&p2), "{ty:?} second packet verifies (seq advanced)");
        let mut tampered = p2.clone();
        let last = tampered.len() - 1;
        tampered[last] ^= 0x01;
        let mut rx2 = cfg(ty, b"sharedsecret").new_state(3);
        assert!(!rx2.verify(&tampered), "{ty:?} tampered digest rejected");
        let mut rxbad = cfg(ty, b"othersecret").new_state(3);
        assert!(!rxbad.verify(&p1), "{ty:?} wrong key rejected");
    }
}

#[test]
fn meticulous_rejects_a_replayed_sequence_number() {
    let mut tx = cfg(AuthType::MeticulousKeyedSha1, b"k").new_state(3);
    let mut rx = cfg(AuthType::MeticulousKeyedSha1, b"k").new_state(3);
    let p1 = tx.append(&mand());
    let p2 = tx.append(&mand());
    assert!(rx.verify(&p1));
    assert!(rx.verify(&p2));
    assert!(!rx.verify(&p1));
}

fn forge(cfg: &AuthConfig, seq: u32) -> Vec<u8> {
    let ty = cfg.auth_type;
    let dlen = ty.digest_len();
    let mut out = mand().to_vec();
    out[1] |= 1 << 2;
    let auth_len = 8 + dlen;
    out[3] = (24 + auth_len) as u8;
    out.push(ty.code());
    out.push(auth_len as u8);
    out.push(cfg.key_id);
    out.push(0);
    out.extend_from_slice(&seq.to_be_bytes());
    let digest_off = out.len();
    let mut key = cfg.secret.clone();
    key.resize(dlen, 0);
    out.extend_from_slice(&key);
    let digest = digest_for(ty, &out);
    out[digest_off..digest_off + dlen].copy_from_slice(&digest);
    out
}

#[test]
fn the_replay_window_survives_the_sequence_wrapping_to_zero() {
    for ty in [AuthType::MeticulousKeyedSha1, AuthType::KeyedMd5] {
        let c = cfg(ty, b"k");
        let mut rx = c.new_state(3);
        assert!(rx.verify(&forge(&c, u32::MAX)), "{ty:?} seeds at u32::MAX");
        assert!(
            rx.verify(&forge(&c, 0)),
            "{ty:?} refused the packet after the sequence wrapped to 0"
        );
        assert!(rx.verify(&forge(&c, 1)), "{ty:?} refused the one after that");
    }
}

#[test]
fn the_replay_window_is_a_circular_range() {
    for meticulous in [false, true] {
        let floor = u32::from(meticulous);
        assert!(within_replay_window(u32::MAX, u32::MAX.wrapping_add(1), 3, meticulous));
        assert!(within_replay_window(u32::MAX, 8, 3, meticulous), "the far edge, wrapped");
        assert!(!within_replay_window(u32::MAX, 9, 3, meticulous), "one past the far edge");
        assert!(!within_replay_window(0, u32::MAX, 3, meticulous), "a replay was admitted");
        assert!(!within_replay_window(100, 99, 3, meticulous), "an older number was admitted");
        assert_eq!(within_replay_window(100, 100, 3, meticulous), floor == 0);
    }
}

#[test]
fn wrong_auth_type_is_rejected() {
    let mut tx = cfg(AuthType::KeyedMd5, b"k").new_state(3);
    let bytes = tx.append(&mand());
    let mut rx = cfg(AuthType::KeyedSha1, b"k").new_state(3);
    assert!(!rx.verify(&bytes));
}

#[test]
fn the_simple_password_section_matches_the_rfc_field_order() {
    let mut tx = cfg(AuthType::SimplePassword, b"hunter2").new_state(3);
    let b = tx.append(&mand());
    assert_eq!(b[1] & 0x04, 0x04, "the A bit is set in byte 1 of the header");
    assert_eq!(b[3] as usize, b.len(), "the header Length now covers the section");
    assert_eq!(b[24], 1, "Auth Type is byte 24; Simple Password is 1");
    assert_eq!(b[25], 3 + 7, "Auth Len is byte 26 and counts its own 3 octets");
    assert_eq!(b[26], 7, "Auth Key ID is byte 26");
    assert_eq!(&b[27..], b"hunter2", "the password starts at byte 27");
    assert_eq!(b.len(), 24 + 3 + 7);
}

#[test]
fn a_keyed_digest_section_matches_the_rfc_field_order() {
    for (ty, code, dlen) in [
        (AuthType::KeyedMd5, 2u8, 16usize),
        (AuthType::MeticulousKeyedMd5, 3, 16),
        (AuthType::KeyedSha1, 4, 20),
        (AuthType::MeticulousKeyedSha1, 5, 20),
    ] {
        let mut tx = cfg(ty, b"sharedsecret").new_state(3);
        tx.xmit_seq = 0x0102_0303;
        let b = tx.append(&mand());
        assert_eq!(ty.code(), code, "{ty:?} is auth type code {code}");
        assert_eq!(b[1] & 0x04, 0x04, "the A bit is set");
        assert_eq!(b[3] as usize, b.len(), "the header Length covers the section");
        assert_eq!(b[24], code, "Auth Type is byte 24");
        assert_eq!(b[25] as usize, 8 + dlen, "Auth Len is byte 25 = 8 + digest len");
        assert_eq!(b[26], 7, "Auth Key ID is byte 26");
        assert_eq!(b[27], 0, "byte 27 is Reserved and must be zero");
        assert_eq!(
            &b[28..32],
            &[0x01, 0x02, 0x03, 0x04],
            "the Sequence Number is bytes 28..32, big-endian, incremented on send"
        );
        assert_eq!(b.len(), 24 + 8 + dlen, "the digest occupies the last {dlen} octets");
        let mut key = b"sharedsecret".to_vec();
        key.resize(dlen, 0);
        assert_ne!(&b[32..], &key[..], "byte 32 onward is the digest, not the key");
    }
}

#[test]
fn the_keyed_md5_digest_is_taken_over_the_packet_with_the_key_in_its_own_field() {
    let mut tx = cfg(AuthType::KeyedMd5, b"sharedsecret").new_state(3);
    let b = tx.append(&mand());
    let mut image = b[..32].to_vec();
    let mut key = b"sharedsecret".to_vec();
    key.resize(16, 0);
    image.extend_from_slice(&key);
    assert_eq!(image.len(), b.len());
    assert_eq!(&b[32..], &md5(&image)[..], "the digest must match §4.3's construction");
    let mut other = image.clone();
    other[7] ^= 0xff;
    assert_ne!(md5(&other), md5(&image));
}
