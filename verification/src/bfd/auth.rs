//! BFD authentication (RFC 5880 §4.2–4.4, §6.7).
//!
//! An authenticated packet has its `A` bit set and an Authentication Section behind
//! the 24-octet mandatory section: a cleartext password, or a sequence number and a
//! digest over the whole packet in which the shared key stands in for the digest. The
//! meticulous types advance the sequence number with every packet; a receiver accepts
//! a sequence number that advances within three times the Detect Mult.

use vstd::prelude::*;

use crate::bfd::digest::{md5, sha1};
use crate::bfd::digest;
use crate::wire;

verus! {

/// Which authentication a session uses.
#[derive(Clone, Copy, PartialEq, Eq, Structural, Debug)]
pub enum AuthType {
    /// Simple Password (type 1).
    SimplePassword,
    /// Keyed MD5 (type 2).
    KeyedMd5,
    /// Meticulous Keyed MD5 (type 3).
    MeticulousKeyedMd5,
    /// Keyed SHA1 (type 4).
    KeyedSha1,
    /// Meticulous Keyed SHA1 (type 5).
    MeticulousKeyedSha1,
}

impl AuthType {
    /// The code that RFC 5880 §4.1 assigns to the type.
    pub open spec fn type_code(self) -> u8 {
        match self {
            AuthType::SimplePassword => 1,
            AuthType::KeyedMd5 => 2,
            AuthType::MeticulousKeyedMd5 => 3,
            AuthType::KeyedSha1 => 4,
            AuthType::MeticulousKeyedSha1 => 5,
        }
    }

    /// The length of the type's digest: none for a password.
    pub open spec fn digest_octets(self) -> nat {
        match self {
            AuthType::SimplePassword => 0,
            AuthType::KeyedMd5 => 16,
            AuthType::MeticulousKeyedMd5 => 16,
            AuthType::KeyedSha1 => 20,
            AuthType::MeticulousKeyedSha1 => 20,
        }
    }

    /// Whether the sequence number must advance with every packet.
    pub open spec fn is_meticulous(self) -> bool {
        self == AuthType::MeticulousKeyedMd5 || self == AuthType::MeticulousKeyedSha1
    }

    /// The type code.
    pub fn code(self) -> (r: u8)
        ensures
            r == self.type_code(),
    {
        match self {
            AuthType::SimplePassword => 1,
            AuthType::KeyedMd5 => 2,
            AuthType::MeticulousKeyedMd5 => 3,
            AuthType::KeyedSha1 => 4,
            AuthType::MeticulousKeyedSha1 => 5,
        }
    }

    /// The length of the digest.
    pub fn digest_len(self) -> (r: usize)
        ensures
            r == self.digest_octets(),
    {
        match self {
            AuthType::SimplePassword => 0,
            AuthType::KeyedMd5 => 16,
            AuthType::MeticulousKeyedMd5 => 16,
            AuthType::KeyedSha1 => 20,
            AuthType::MeticulousKeyedSha1 => 20,
        }
    }

    fn meticulous(self) -> (r: bool)
        ensures
            r == self.is_meticulous(),
    {
        self == AuthType::MeticulousKeyedMd5 || self == AuthType::MeticulousKeyedSha1
    }
}

/// A session's authentication: the type, the key id sent on the wire, and the shared
/// secret.
#[derive(Clone, PartialEq, Eq, Debug)]
pub struct AuthConfig {
    /// The authentication type.
    pub auth_type: AuthType,
    /// The key id of the Authentication Section.
    pub key_id: u8,
    /// The password, or the keying material of the digest types.
    pub secret: Vec<u8>,
}

/// The per-session authentication state.
#[derive(Clone, Debug)]
pub struct AuthState {
    cfg: AuthConfig,
    detect_mult: u8,
    /// The sequence number of the last packet sent.
    pub xmit_seq: u32,
    rx_seq: Option<u32>,
}

/// What an authentication state holds.
pub struct AuthView {
    pub auth_type: AuthType,
    pub key_id: u8,
    pub secret: Seq<u8>,
    /// The Detect Mult that sizes the replay window; at least 1.
    pub detect_mult: u8,
    /// The sequence number of the last packet sent.
    pub xmit_seq: u32,
    /// The sequence number of the last packet accepted.
    pub rx_seq: Option<u32>,
}

impl View for AuthState {
    type V = AuthView;

    closed spec fn view(&self) -> AuthView {
        AuthView {
            auth_type: self.cfg.auth_type,
            key_id: self.cfg.key_id,
            secret: self.cfg.secret@,
            detect_mult: self.detect_mult,
            xmit_seq: self.xmit_seq,
            rx_seq: self.rx_seq,
        }
    }
}

/// The octet with the Authentication Present bit (weight 4) set.
pub open spec fn with_auth_bit(b: u8) -> u8 {
    if wire::bit(b, 4) {
        b
    } else {
        (b + 4) as u8
    }
}

/// The mandatory section with the Authentication Present bit set and the Length field
/// holding `total` modulo 256.
pub open spec fn marked(mand: Seq<u8>, total: nat) -> Seq<u8> {
    mand.update(1, with_auth_bit(mand[1])).update(3, (total % 256) as u8)
}

/// The digest of `data` under the type: MD5 or SHA-1.
pub open spec fn keyed_digest(ty: AuthType, data: Seq<u8>) -> Seq<u8> {
    match ty {
        AuthType::KeyedMd5 => digest::md5_digest(data),
        AuthType::MeticulousKeyedMd5 => digest::md5_digest(data),
        AuthType::KeyedSha1 => digest::sha1_digest(data),
        AuthType::MeticulousKeyedSha1 => digest::sha1_digest(data),
        AuthType::SimplePassword => Seq::empty(),
    }
}

/// The secret cut, or filled up with zeros, to `len` octets.
pub open spec fn key_field(secret: Seq<u8>, len: nat) -> Seq<u8> {
    Seq::new(
        len,
        |i: int|
            if i < secret.len() {
                secret[i]
            } else {
                0u8
            },
    )
}

/// Whether `seq` lies in the replay window that opens at `last`: the distance from
/// `last` to `seq`, around the circle of 32-bit numbers, is at most three times the
/// Detect Mult, and not zero for a meticulous type.
pub open spec fn in_window(last: u32, seq: u32, detect_mult: u8, meticulous: bool) -> bool {
    let distance = (seq - last) % 0x1_0000_0000;
    distance <= 3 * detect_mult && (meticulous ==> distance != 0)
}

impl AuthView {
    /// Everything of a digest-type packet up to the digest: the marked mandatory
    /// section, type, length, key id, a reserved octet and the sequence number.
    pub open spec fn digest_head(self, mand: Seq<u8>, seq: u32) -> Seq<u8> {
        let len = 8 + self.auth_type.digest_octets();
        marked(mand, 24 + len) + seq![
            self.auth_type.type_code(),
            len as u8,
            self.key_id,
            0u8,
        ] + wire::be32(seq)
    }

    /// The datagram that authenticates `mand`, with sequence number `seq` for the
    /// digest types.
    pub open spec fn sealed(self, mand: Seq<u8>, seq: u32) -> Seq<u8> {
        if self.auth_type == AuthType::SimplePassword {
            let len = 3 + self.secret.len();
            marked(mand, 24 + len) + seq![1u8, (len % 256) as u8, self.key_id] + self.secret
        } else {
            let head = self.digest_head(mand, seq);
            head + keyed_digest(
                self.auth_type,
                head + key_field(self.secret, self.auth_type.digest_octets()),
            )
        }
    }

    /// Whether `buf` ends, within its stated Length, in a section of this type whose
    /// own length is right.
    pub open spec fn framed(self, buf: Seq<u8>) -> bool {
        &&& buf.len() >= 26
        &&& 26 <= buf[3] <= buf.len()
        &&& buf[25] == buf[3] - 24
        &&& buf[24] == self.auth_type.type_code()
    }

    /// Whether the section carries the password, or a digest of the packet made with
    /// the shared key.
    pub open spec fn authentic(self, buf: Seq<u8>) -> bool {
        let total = buf[3] as int;
        if self.auth_type == AuthType::SimplePassword {
            &&& total == 27 + self.secret.len()
            &&& buf[26] == self.key_id
            &&& buf.subrange(27, total) == self.secret
        } else {
            let n = self.auth_type.digest_octets();
            &&& total == 32 + n
            &&& buf[26] == self.key_id
            &&& buf.subrange(32, total) == keyed_digest(
                self.auth_type,
                buf.subrange(0, 32) + key_field(self.secret, n),
            )
        }
    }

    /// Whether the sequence number of the packet is new enough: any, for a password or
    /// for the first packet accepted.
    pub open spec fn timely(self, buf: Seq<u8>) -> bool {
        self.auth_type != AuthType::SimplePassword ==> match self.rx_seq {
            None => true,
            Some(last) => in_window(
                last,
                wire::u32_at(buf, 28),
                self.detect_mult,
                self.auth_type.is_meticulous(),
            ),
        }
    }

    /// Whether the datagram is accepted.
    pub open spec fn accepts(self, buf: Seq<u8>) -> bool {
        self.framed(buf) && self.authentic(buf) && self.timely(buf)
    }

    /// The state after an accepted datagram: its sequence number is remembered.
    pub open spec fn after_accepting(self, buf: Seq<u8>) -> AuthView {
        if self.auth_type == AuthType::SimplePassword {
            self
        } else {
            AuthView { rx_seq: Some(wire::u32_at(buf, 28)), ..self }
        }
    }

    /// The state after datagrams came in, one after the other: those that are accepted
    /// count, the others change nothing.
    pub open spec fn after_all(self, bufs: Seq<Seq<u8>>) -> AuthView
        decreases bufs.len(),
    {
        if bufs.len() == 0 {
            self
        } else {
            let v = self.after_all(bufs.drop_last());
            if v.accepts(bufs.last()) {
                v.after_accepting(bufs.last())
            } else {
                v
            }
        }
    }

    /// How far the accepted ones among `bufs` move the last accepted number, all told,
    /// where there is such a number at the start.
    pub open spec fn travelled(self, bufs: Seq<Seq<u8>>) -> int
        decreases bufs.len(),
    {
        if bufs.len() == 0 {
            0
        } else {
            let v = self.after_all(bufs.drop_last());
            let before = self.travelled(bufs.drop_last());
            if v.accepts(bufs.last()) && v.rx_seq is Some {
                before + (wire::u32_at(bufs.last(), 28) - v.rx_seq->0) % 0x1_0000_0000
            } else {
                before
            }
        }
    }

    /// The state after a packet was sent: a digest type takes the next number.
    pub open spec fn after_sending(self) -> AuthView {
        if self.auth_type == AuthType::SimplePassword {
            self
        } else {
            AuthView { xmit_seq: self.xmit_seq.wrapping_add(1), ..self }
        }
    }
}

impl AuthConfig {
    /// The state of a new session. `detect_mult` is this system's Detect Mult; zero
    /// counts as one.
    pub fn new_state(&self, detect_mult: u8) -> (r: AuthState)
        ensures
            r@ == (AuthView {
                auth_type: self.auth_type,
                key_id: self.key_id,
                secret: self.secret@,
                detect_mult: if detect_mult == 0 {
                    1u8
                } else {
                    detect_mult
                },
                xmit_seq: 1,
                rx_seq: None,
            }),
    {
        AuthState {
            cfg: AuthConfig {
                auth_type: self.auth_type,
                key_id: self.key_id,
                secret: wire::copy_of(self.secret.as_slice()),
            },
            detect_mult: if detect_mult == 0 {
                1
            } else {
                detect_mult
            },
            xmit_seq: 1,
            rx_seq: None,
        }
    }
}

/// The secret as a key of `len` octets.
fn key_of(secret: &[u8], len: usize) -> (r: Vec<u8>)
    ensures
        r@ == key_field(secret@, len as nat),
{
    let mut out: Vec<u8> = Vec::new();
    let mut i: usize = 0;
    while i < len
        invariant
            i <= len,
            out@ == key_field(secret@, i as nat),
        decreases len - i,
    {
        if i < secret.len() {
            out.push(secret[i]);
        } else {
            out.push(0);
        }
        i = i + 1;
        assert(out@ =~= key_field(secret@, i as nat));
    }
    out
}

/// The digest of `data` under an authentication type.
pub fn digest_for(ty: AuthType, data: &[u8]) -> (r: Vec<u8>)
    ensures
        r@ == keyed_digest(ty, data@),
{
    match ty {
        AuthType::KeyedMd5 => wire::copy_of(md5(data).as_slice()),
        AuthType::MeticulousKeyedMd5 => wire::copy_of(md5(data).as_slice()),
        AuthType::KeyedSha1 => wire::copy_of(sha1(data).as_slice()),
        AuthType::MeticulousKeyedSha1 => wire::copy_of(sha1(data).as_slice()),
        AuthType::SimplePassword => Vec::new(),
    }
}

/// Equality that looks at every octet whatever it finds, so that its duration does
/// not tell where two secrets first differ.
fn constant_eq(a: &[u8], b: &[u8]) -> (r: bool)
    ensures
        r == (a@ == b@),
{
    if a.len() != b.len() {
        return false;
    }
    let mut diff: u8 = 0;
    let mut i: usize = 0;
    while i < a.len()
        invariant
            i <= a.len(),
            a.len() == b.len(),
            diff == 0 <==> (forall|j: int| 0 <= j < i ==> a@[j] == b@[j]),
        decreases a.len() - i,
    {
        let x = a[i];
        let y = b[i];
        assert((diff | (x ^ y)) == 0 <==> (diff == 0 && x == y)) by (bit_vector);
        diff = diff | (x ^ y);
        i = i + 1;
    }
    assert(diff == 0 ==> a@ =~= b@);
    diff == 0
}

/// Whether a sequence number is acceptable after another.
pub fn within_replay_window(last: u32, seq: u32, detect_mult: u8, meticulous: bool) -> (r: bool)
    ensures
        r == in_window(last, seq, detect_mult, meticulous),
{
    let window: u32 = 3 * detect_mult as u32;
    let delta: u32 = seq.wrapping_sub(last);
    delta <= window && (delta != 0 || !meticulous)
}

fn mark(mand: &[u8; 24], total: u8) -> (r: Vec<u8>)
    ensures
        r@.len() == 24,
        forall|n: nat| n % 256 == total ==> r@ == #[trigger] marked(mand@, n),
{
    let mut out = wire::copy_of(mand.as_slice());
    let flags = out[1];
    let marked_flags: u8 = if wire::bit_of(flags, 4) {
        flags
    } else {
        flags + 4
    };
    out.set(1, marked_flags);
    out.set(3, total);
    assert forall|n: nat| n % 256 == total implies out@ == #[trigger] marked(mand@, n) by {
        assert(out@ =~= marked(mand@, n));
    }
    out
}

impl AuthState {
    /// Append the Authentication Section to a mandatory section, setting the `A` bit
    /// and the Length field. The digest types take the next sequence number.
    pub fn append(&mut self, mand: &[u8; 24]) -> (r: Vec<u8>)
        ensures
            r@ == old(self)@.sealed(mand@, old(self)@.xmit_seq.wrapping_add(1)),
            final(self)@ == old(self)@.after_sending(),
    {
        if self.cfg.auth_type == AuthType::SimplePassword {
            self.enclose(mand)
        } else {
            self.xmit_seq = self.xmit_seq.wrapping_add(1);
            self.seal(mand)
        }
    }

    fn enclose(&self, mand: &[u8; 24]) -> (r: Vec<u8>)
        requires
            self.cfg.auth_type == AuthType::SimplePassword,
        ensures
            forall|seq: u32| r@ == #[trigger] self@.sealed(mand@, seq),
    {
        let n: usize = self.cfg.secret.len() % 256;
        let mut out = mark(mand, ((27 + n) % 256) as u8);
        let ghost len = 3 + self.cfg.secret@.len();
        assert(out@ == marked(mand@, 24 + len));
        let ghost head = out@;
        out.push(1);
        out.push(((3 + n) % 256) as u8);
        out.push(self.cfg.key_id);
        assert(out@ =~= head + seq![1u8, (len % 256) as u8, self.cfg.key_id]);
        wire::push_all(&mut out, self.cfg.secret.as_slice());
        out
    }

    fn seal(&self, mand: &[u8; 24]) -> (r: Vec<u8>)
        requires
            self.cfg.auth_type != AuthType::SimplePassword,
        ensures
            r@ == self@.sealed(mand@, self@.xmit_seq),
    {
        let ty = self.cfg.auth_type;
        let dlen = ty.digest_len();
        let auth_len: usize = 8 + dlen;
        let mut out = mark(mand, (24 + auth_len) as u8);
        out.push(ty.code());
        out.push(auth_len as u8);
        out.push(self.cfg.key_id);
        out.push(0);
        wire::push_u32(&mut out, self.xmit_seq);
        assert(out@ =~= self@.digest_head(mand@, self@.xmit_seq));
        let mut keyed = wire::copy_of(out.as_slice());
        let key = key_of(self.cfg.secret.as_slice(), dlen);
        wire::push_all(&mut keyed, key.as_slice());
        let digest = digest_for(ty, keyed.as_slice());
        wire::push_all(&mut out, digest.as_slice());
        out
    }

    /// Check the Authentication Section of a datagram and, where it is accepted,
    /// remember its sequence number. A datagram that is not accepted changes nothing.
    pub fn verify(&mut self, buf: &[u8]) -> (r: bool)
        ensures
            r == old(self)@.accepts(buf@),
            final(self)@ == if r {
                old(self)@.after_accepting(buf@)
            } else {
                old(self)@
            },
    {
        if buf.len() < 25 {
            return false;
        }
        let total: usize = buf[3] as usize;
        if total < 26 || total > buf.len() {
            return false;
        }
        let sec = &buf[24..total];
        if sec.len() < 2 || sec[1] as usize != sec.len() {
            return false;
        }
        if sec[0] != self.cfg.auth_type.code() {
            return false;
        }
        let ty = self.cfg.auth_type;
        if ty == AuthType::SimplePassword {
            if self.cfg.secret.len() > 228 || sec.len() != 3 + self.cfg.secret.len() {
                return false;
            }
            assert(buf@.subrange(27, total as int) =~= sec@.subrange(3, sec@.len() as int));
            sec[2] == self.cfg.key_id && constant_eq(
                &sec[3..sec.len()],
                self.cfg.secret.as_slice(),
            )
        } else {
            let dlen = ty.digest_len();
            if sec.len() != 8 + dlen || sec[2] != self.cfg.key_id {
                return false;
            }
            let seq = wire::read_u32(buf, 28);
            let mut keyed = wire::copy_of(&buf[0..32]);
            let key = key_of(self.cfg.secret.as_slice(), dlen);
            wire::push_all(&mut keyed, key.as_slice());
            let calc = digest_for(ty, keyed.as_slice());
            if !constant_eq(calc.as_slice(), &buf[32..total]) {
                return false;
            }
            let ok = match self.rx_seq {
                None => true,
                Some(last) => within_replay_window(last, seq, self.detect_mult, ty.meticulous()),
            };
            if ok {
                self.rx_seq = Some(seq);
            }
            ok
        }
    }
}

/// The window is a range on a circle: moving both numbers by the same amount, past the
/// wrap or not, changes nothing.
pub proof fn lemma_window_is_circular(last: u32, seq: u32, by: u32, detect_mult: u8, meticulous: bool)
    ensures
        in_window(last.wrapping_add(by), seq.wrapping_add(by), detect_mult, meticulous)
            == in_window(last, seq, detect_mult, meticulous),
{
}

/// The next number is always in the window; the same number is in it for the plain
/// keyed types and outside it for the meticulous ones.
pub proof fn lemma_window_admits_the_next(last: u32, detect_mult: u8, meticulous: bool)
    requires
        detect_mult >= 1,
    ensures
        in_window(last, last.wrapping_add(1), detect_mult, meticulous),
        in_window(last, last, detect_mult, meticulous) == !meticulous,
{
}

proof fn lemma_digest_len(ty: AuthType, data: Seq<u8>)
    ensures
        keyed_digest(ty, data).len() == ty.digest_octets(),
{
}

/// A receiver that shares type, key id and secret with the sender accepts what the
/// sender seals, if it has accepted nothing yet or its last number is in the window.
/// A password of more than 228 octets does not fit the one-octet Length field.
pub proof fn lemma_sealed_is_accepted(a: AuthView, b: AuthView, mand: Seq<u8>, seq: u32)
    requires
        mand.len() == 24,
        a.auth_type == b.auth_type,
        a.key_id == b.key_id,
        a.secret == b.secret,
        a.auth_type == AuthType::SimplePassword ==> a.secret.len() <= 228,
        b.rx_seq matches Some(last) ==> in_window(
            last,
            seq,
            b.detect_mult,
            b.auth_type.is_meticulous(),
        ),
    ensures
        b.accepts(a.sealed(mand, seq)),
        a.auth_type != AuthType::SimplePassword ==> b.after_accepting(a.sealed(mand, seq)).rx_seq
            == Some(seq),
{
    let s = a.sealed(mand, seq);
    if a.auth_type == AuthType::SimplePassword {
        assert(s.subrange(27, s.len() as int) =~= a.secret);
    } else {
        let n = a.auth_type.digest_octets();
        let head = a.digest_head(mand, seq);
        lemma_digest_len(a.auth_type, head + key_field(a.secret, n));
        assert(head.len() == 32);
        assert(s.len() == 32 + n);
        assert(s[3] == s.len());
        assert(s.subrange(0, 32) =~= head);
        assert(s.subrange(32, s.len() as int) =~= keyed_digest(
            a.auth_type,
            head + key_field(a.secret, n),
        ));
        let pre = head.subrange(0, 28);
        wire::lemma_u32_back(pre, seq, s.subrange(32, s.len() as int));
        assert(s =~= pre + wire::be32(seq) + s.subrange(32, s.len() as int));
    }
}

/// A number from behind lies outside the window: a datagram whose number is `last` or was
/// passed on the way to it is refused under a meticulous type, and under a plain keyed one
/// unless it is `last` itself. Only the last three times Detect Mult steps of the circle
/// count as ahead.
pub proof fn lemma_behind_is_refused(v: AuthView, last: u32, buf: Seq<u8>)
    requires
        v.auth_type != AuthType::SimplePassword,
        v.rx_seq == Some(last),
        (last - wire::u32_at(buf, 28)) % 0x1_0000_0000 < 0x1_0000_0000 - 3 * v.detect_mult,
        v.auth_type.is_meticulous() || wire::u32_at(buf, 28) != last,
    ensures
        !v.accepts(buf),
{
}

/// Under a meticulous type a datagram that was accepted is refused when it comes next.
pub proof fn lemma_replay_is_refused(v: AuthView, buf: Seq<u8>)
    requires
        v.auth_type.is_meticulous(),
    ensures
        !v.after_accepting(buf).accepts(buf),
{
}

proof fn lemma_steps(start: int, middle: int, end: int, before: int)
    requires
        (middle - start) % 0x1_0000_0000 == before % 0x1_0000_0000,
    ensures
        (end - start) % 0x1_0000_0000 == (before + (end - middle) % 0x1_0000_0000)
            % 0x1_0000_0000,
{
}

proof fn lemma_travels(v: AuthView, start: u32, bufs: Seq<Seq<u8>>)
    requires
        v.auth_type != AuthType::SimplePassword,
        v.rx_seq == Some(start),
    ensures
        ({
            let w = v.after_all(bufs);
            &&& w == (AuthView { rx_seq: w.rx_seq, ..v })
            &&& v.travelled(bufs) >= 0
            &&& w.rx_seq matches Some(last) && (last - start) % 0x1_0000_0000 == v.travelled(bufs)
                % 0x1_0000_0000
        }),
    decreases bufs.len(),
{
    if bufs.len() > 0 {
        let front = bufs.drop_last();
        lemma_travels(v, start, front);
        let w = v.after_all(front);
        let seq = wire::u32_at(bufs.last(), 28);
        lemma_steps(start as int, w.rx_seq->0 as int, seq as int, v.travelled(front));
    }
}

/// Under a meticulous type no datagram is accepted twice, whatever came in between, until
/// the numbers have gone round: as long as the accepted ones have not moved to within
/// three times the Detect Mult of a whole turn, what was accepted before them is refused.
pub proof fn lemma_nothing_is_accepted_twice(v: AuthView, buf: Seq<u8>, bufs: Seq<Seq<u8>>)
    requires
        v.auth_type.is_meticulous(),
        v.after_accepting(buf).travelled(bufs) < 0x1_0000_0000 - 3 * v.detect_mult,
    ensures
        !v.after_accepting(buf).after_all(bufs).accepts(buf),
{
    let w = v.after_accepting(buf);
    let start = wire::u32_at(buf, 28);
    lemma_travels(w, start, bufs);
    let last = w.after_all(bufs).rx_seq->0;
    lemma_behind_is_refused(w.after_all(bufs), last, buf);
}

/// Each datagram moves the numbers by at most three times the Detect Mult, so that a whole
/// turn takes at least as many datagrams as such steps fit in it.
pub proof fn lemma_each_moves_little(v: AuthView, bufs: Seq<Seq<u8>>)
    requires
        v.auth_type != AuthType::SimplePassword,
        v.rx_seq is Some,
    ensures
        v.travelled(bufs) <= 3 * v.detect_mult * bufs.len(),
    decreases bufs.len(),
{
    if bufs.len() > 0 {
        lemma_each_moves_little(v, bufs.drop_last());
        lemma_travels(v, v.rx_seq->0, bufs.drop_last());
        let d = 3 * v.detect_mult;
        let n = bufs.len() as int;
        assert(d * (n - 1) + d == d * n) by (nonlinear_arith);
    }
}

/// A datagram whose section names another type, or another key, is refused.
pub proof fn lemma_foreign_section_is_refused(v: AuthView, buf: Seq<u8>)
    requires
        buf.len() >= 27,
        buf[24] != v.auth_type.type_code() || buf[26] != v.key_id,
    ensures
        !v.accepts(buf),
{
}

/// The window, step by step: a number `k` ahead is in it exactly where `k` is at most three
/// times the Detect Mult and, for a meticulous type, not zero.
pub proof fn lemma_window_by_steps(last: u32, k: u32, detect_mult: u8, meticulous: bool)
    ensures
        in_window(last, last.wrapping_add(k), detect_mult, meticulous) <==> k <= 3 * detect_mult
            && !(meticulous && k == 0),
{
}

/// What is sent: the mandatory section with the bit of weight 4 in its second octet set and
/// its fourth octet holding the length of the whole, then type, length of the section and
/// key id; then, under a password, the password.
pub proof fn lemma_what_is_enclosed(v: AuthView, mand: Seq<u8>, seq: u32, i: int)
    requires
        mand.len() == 24,
        v.auth_type is SimplePassword,
        v.secret.len() <= 228,
    ensures
        ({
            let s = v.sealed(mand, seq);
            &&& 0 <= i < 24 && i != 1 && i != 3 ==> s[i] == mand[i]
            &&& s[1] / 4 % 2 == 1
            &&& s[1] / 8 == mand[1] / 8 && s[1] % 4 == mand[1] % 4
            &&& s.len() == 27 + v.secret.len()
            &&& s[3] == s.len()
            &&& s[24] == 1
            &&& s[25] == s.len() - 24
            &&& s[26] == v.key_id
            &&& 0 <= i < v.secret.len() ==> s[27 + i] == v.secret[i]
        }),
{
}

/// What is sent under a digest type: behind the key id a zero and the number, and then the
/// digest of the packet in which the key, filled up with zeros, stands for the digest.
pub proof fn lemma_what_is_sealed(v: AuthView, mand: Seq<u8>, seq: u32, i: int, key: Seq<u8>)
    requires
        mand.len() == 24,
        v.auth_type !is SimplePassword,
        key.len() == (if v.auth_type is KeyedMd5 || v.auth_type is MeticulousKeyedMd5 {
            16int
        } else {
            20
        }),
        forall|k: int|
            0 <= k < key.len() ==> #[trigger] key[k] == (if k < v.secret.len() {
                v.secret[k]
            } else {
                0
            }),
    ensures
        ({
            let s = v.sealed(mand, seq);
            &&& 0 <= i < 24 && i != 1 && i != 3 ==> s[i] == mand[i]
            &&& s[1] / 4 % 2 == 1
            &&& s[1] / 8 == mand[1] / 8 && s[1] % 4 == mand[1] % 4
            &&& s.len() == 32 + key.len()
            &&& s[3] == s.len()
            &&& v.auth_type is KeyedMd5 ==> s[24] == 2
            &&& v.auth_type is MeticulousKeyedMd5 ==> s[24] == 3
            &&& v.auth_type is KeyedSha1 ==> s[24] == 4
            &&& v.auth_type is MeticulousKeyedSha1 ==> s[24] == 5
            &&& s[25] == s.len() - 24
            &&& s[26] == v.key_id
            &&& s[27] == 0
            &&& wire::u32_at(s, 28) == seq
            &&& key.len() == 16 ==> s.subrange(32, 48) == digest::md5_digest(s.subrange(0, 32) + key)
            &&& key.len() == 20 ==> s.subrange(32, 52) == digest::sha1_digest(
                s.subrange(0, 32) + key,
            )
        }),
{
    let s = v.sealed(mand, seq);
    let n = v.auth_type.digest_octets();
    let head = v.digest_head(mand, seq);
    assert(key =~= key_field(v.secret, n));
    lemma_digest_len(v.auth_type, head + key);
    let d = keyed_digest(v.auth_type, head + key);
    assert(head.len() == 32);
    assert(s == head + d);
    assert(s.subrange(0, 32) =~= head);
    assert(s.subrange(32, s.len() as int) =~= d);
    let pre = head.subrange(0, 28);
    assert(s =~= pre + wire::be32(seq) + d);
    wire::lemma_u32_back(pre, seq, d);
}

/// What is accepted was sealed by someone who holds the same secret: under a digest type
/// the octets are those that the secret seals for the mandatory section and the number in
/// them, the reserved octet aside, and under a password the section ends in that password.
pub proof fn lemma_what_is_accepted(v: AuthView, buf: Seq<u8>)
    requires
        v.accepts(buf),
    ensures
        ({
            let total = buf[3] as int;
            &&& total <= buf.len()
            &&& buf[24] == (match v.auth_type {
                AuthType::SimplePassword => 1u8,
                AuthType::KeyedMd5 => 2,
                AuthType::MeticulousKeyedMd5 => 3,
                AuthType::KeyedSha1 => 4,
                AuthType::MeticulousKeyedSha1 => 5,
            })
            &&& buf[25] == total - 24
            &&& buf[26] == v.key_id
            &&& v.auth_type is SimplePassword ==> total == 27 + v.secret.len() && forall|i: int|
                0 <= i < v.secret.len() ==> #[trigger] v.secret[i] == buf[27 + i]
            &&& v.auth_type is KeyedMd5 || v.auth_type is MeticulousKeyedMd5 ==> total == 48
                && buf.subrange(32, 48) == digest::md5_digest(
                buf.subrange(0, 32) + key_field(v.secret, 16),
            )
            &&& v.auth_type is KeyedSha1 || v.auth_type is MeticulousKeyedSha1 ==> total == 52
                && buf.subrange(32, 52) == digest::sha1_digest(
                buf.subrange(0, 32) + key_field(v.secret, 20),
            )
            &&& v.auth_type !is SimplePassword ==> v.after_accepting(buf).rx_seq == Some(
                (buf[28] * 16777216 + buf[29] * 65536 + buf[30] * 256 + buf[31]) as u32,
            )
        }),
{
    if v.auth_type is SimplePassword {
        assert forall|i: int| 0 <= i < v.secret.len() implies #[trigger] v.secret[i] == buf[27
            + i] by {
            assert(v.secret[i] == buf.subrange(27, buf[3] as int)[i]);
        }
    }
}

/// Sending takes the next number under a digest type and none under a password; nothing
/// else changes.
pub proof fn lemma_numbers_go_up(v: AuthView)
    ensures
        v.auth_type !is SimplePassword ==> v.after_sending().xmit_seq == (v.xmit_seq + 1)
            % 0x1_0000_0000,
        v.auth_type is SimplePassword ==> v.after_sending().xmit_seq == v.xmit_seq,
        v.after_sending().rx_seq == v.rx_seq,
        v.after_sending().secret == v.secret,
        v.after_sending().key_id == v.key_id,
        v.after_sending().detect_mult == v.detect_mult,
        v.after_sending().auth_type == v.auth_type,
{
}

} // verus!
