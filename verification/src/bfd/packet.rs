//! The BFD Control packet (RFC 5880 §4.1): 24 octets of mandatory section.
//!
//! ```text
//!  0                   1                   2                   3
//!  0 1 2 3 4 5 6 7 8 9 0 1 2 3 4 5 6 7 8 9 0 1 2 3 4 5 6 7 8 9 0 1
//! +-+-+-+-+-+-+-+-+-+-+-+-+-+-+-+-+-+-+-+-+-+-+-+-+-+-+-+-+-+-+-+-+
//! |Vers|  Diag   |Sta|P|F|C|A|D|M|  Detect Mult  |    Length     |
//! +-+-+-+-+-+-+-+-+-+-+-+-+-+-+-+-+-+-+-+-+-+-+-+-+-+-+-+-+-+-+-+-+
//! |                       My Discriminator                        |
//! |                      Your Discriminator                       |
//! |                    Desired Min TX Interval                    |
//! |                   Required Min RX Interval                    |
//! |                 Required Min Echo RX Interval                 |
//! +-+-+-+-+-+-+-+-+-+-+-+-+-+-+-+-+-+-+-+-+-+-+-+-+-+-+-+-+-+-+-+-+
//! ```
//!
//! The three intervals are microseconds.

use vstd::prelude::*;

use crate::wire;

verus! {

/// The BFD version spoken here.
pub const VERSION: u8 = 1;

/// The length in octets of the mandatory section.
pub const MANDATORY_LEN: usize = 24;

/// The shortest Length a packet may state when the `A` bit is set: the mandatory
/// section plus the two octets that an Authentication Section needs before its own
/// length field can be read (RFC 5880 §6.8.6).
pub const MIN_AUTHENTICATED_LEN: usize = 26;

/// The session state carried in the two-bit `Sta` field (RFC 5880 §6.8.1).
#[derive(Clone, Copy, PartialEq, Eq, Structural, Debug)]
pub enum State {
    /// The session is down, or has just been created.
    Down,
    /// The neighbour is heard but does not yet hear us.
    Init,
    /// Both systems hear each other.
    Up,
    /// The session is administratively down.
    AdminDown,
}

impl State {
    /// The code that RFC 5880 §4.1 assigns to the state.
    pub open spec fn bits(self) -> u8 {
        match self {
            State::AdminDown => 0,
            State::Down => 1,
            State::Init => 2,
            State::Up => 3,
        }
    }

    /// The state whose code is the low two bits of `bits`.
    pub open spec fn of_bits(bits: u8) -> State {
        if bits % 4 == 0 {
            State::AdminDown
        } else if bits % 4 == 1 {
            State::Down
        } else if bits % 4 == 2 {
            State::Init
        } else {
            State::Up
        }
    }

    /// The two-bit encoding on the wire.
    pub fn to_bits(self) -> (r: u8)
        ensures
            r == self.bits(),
    {
        match self {
            State::AdminDown => 0,
            State::Down => 1,
            State::Init => 2,
            State::Up => 3,
        }
    }

    /// Decode the two-bit `Sta` field.
    pub fn from_bits(bits: u8) -> (r: State)
        ensures
            r == State::of_bits(bits),
    {
        let low: u8 = bits % 4;
        if low == 0 {
            State::AdminDown
        } else if low == 1 {
            State::Down
        } else if low == 2 {
            State::Init
        } else {
            State::Up
        }
    }

    /// A short label for an operator.
    pub fn label(self) -> (r: &'static str)
        ensures
            r@ == match self {
                State::AdminDown => "AdminDown"@,
                State::Down => "Down"@,
                State::Init => "Init"@,
                State::Up => "Up"@,
            },
    {
        match self {
            State::AdminDown => "AdminDown",
            State::Down => "Down",
            State::Init => "Init",
            State::Up => "Up",
        }
    }
}

/// Why a session last changed state (RFC 5880 §4.1). Codes without a name of their
/// own are kept as their raw value.
#[derive(Clone, Copy, PartialEq, Eq, Structural, Debug)]
pub enum Diag {
    /// 0 — No Diagnostic.
    NoDiagnostic,
    /// 1 — Control Detection Time Expired: the neighbour is no longer heard.
    ControlDetectionTimeExpired,
    /// 2 — Echo Function Failed.
    EchoFunctionFailed,
    /// 3 — Neighbor Signaled Session Down.
    NeighborSignaledDown,
    /// 7 — Administratively Down.
    AdministrativelyDown,
    /// Any other code.
    Other(u8),
}

impl Diag {
    /// The five-bit code of the diagnostic.
    pub open spec fn five_bits(self) -> u8 {
        match self {
            Diag::NoDiagnostic => 0,
            Diag::ControlDetectionTimeExpired => 1,
            Diag::EchoFunctionFailed => 2,
            Diag::NeighborSignaledDown => 3,
            Diag::AdministrativelyDown => 7,
            Diag::Other(c) => c % 32,
        }
    }

    /// The diagnostic whose code is the low five bits of `code`.
    pub open spec fn of_code(code: u8) -> Diag {
        if code % 32 == 0 {
            Diag::NoDiagnostic
        } else if code % 32 == 1 {
            Diag::ControlDetectionTimeExpired
        } else if code % 32 == 2 {
            Diag::EchoFunctionFailed
        } else if code % 32 == 3 {
            Diag::NeighborSignaledDown
        } else if code % 32 == 7 {
            Diag::AdministrativelyDown
        } else {
            Diag::Other(code % 32)
        }
    }

    /// Whether the diagnostic is the one that its own code denotes: an `Other`
    /// holds a five-bit code that has no name.
    pub open spec fn canonical(self) -> bool {
        Diag::of_code(self.five_bits()) == self
    }

    /// The five-bit diagnostic code.
    pub fn code(self) -> (r: u8)
        ensures
            r == self.five_bits(),
            r < 32,
    {
        match self {
            Diag::NoDiagnostic => 0,
            Diag::ControlDetectionTimeExpired => 1,
            Diag::EchoFunctionFailed => 2,
            Diag::NeighborSignaledDown => 3,
            Diag::AdministrativelyDown => 7,
            Diag::Other(c) => c % 32,
        }
    }

    /// Decode a five-bit diagnostic code.
    pub fn from_code(code: u8) -> (r: Diag)
        ensures
            r == Diag::of_code(code),
    {
        let c: u8 = code % 32;
        if c == 0 {
            Diag::NoDiagnostic
        } else if c == 1 {
            Diag::ControlDetectionTimeExpired
        } else if c == 2 {
            Diag::EchoFunctionFailed
        } else if c == 3 {
            Diag::NeighborSignaledDown
        } else if c == 7 {
            Diag::AdministrativelyDown
        } else {
            Diag::Other(c)
        }
    }
}

/// A BFD Control packet's mandatory section (RFC 5880 §4.1).
#[derive(Clone, Copy, PartialEq, Eq, Structural, Debug)]
pub struct ControlPacket {
    /// Why the sender's state last changed.
    pub diag: Diag,
    /// The sender's session state.
    pub state: State,
    /// Poll: the sender asks for an immediate answer with the Final bit set.
    pub poll: bool,
    /// Final: this packet answers a received Poll.
    pub final_: bool,
    /// Control Plane Independent (`C`).
    pub cpi: bool,
    /// Demand (`D`): the sender wishes to operate in Demand mode.
    pub demand: bool,
    /// Detect Mult: the sender's detection-time multiplier.
    pub detect_mult: u8,
    /// My Discriminator: the sender's session id, not zero.
    pub my_discr: u32,
    /// Your Discriminator: the receiver's session id as the sender knows it.
    pub your_discr: u32,
    /// Desired Min TX Interval.
    pub desired_min_tx: u32,
    /// Required Min RX Interval.
    pub required_min_rx: u32,
    /// Required Min Echo RX Interval; 0 disables Echo.
    pub required_min_echo_rx: u32,
    /// Authentication Present (`A`): the packet carried an Authentication Section.
    /// `encode` clears it: the section, and the bit, are added to the encoded octets.
    pub auth_present: bool,
}

impl ControlPacket {
    /// The 24 octets of the packet: version 1, the `A` and `M` bits clear, Length 24.
    pub open spec fn octets(self) -> Seq<u8> {
        seq![
            (32 + self.diag.five_bits()) as u8,
            (64 * self.state.bits() + wire::flag(self.poll, 32) + wire::flag(self.final_, 16) + wire::flag(
                self.cpi,
                8,
            ) + wire::flag(self.demand, 2)) as u8,
            self.detect_mult,
            24,
        ] + wire::be32(self.my_discr) + wire::be32(self.your_discr) + wire::be32(self.desired_min_tx) + wire::be32(
            self.required_min_rx,
        ) + wire::be32(self.required_min_echo_rx)
    }

    /// The packet that the first 24 octets of `s` hold, whatever the reception rules
    /// say of it.
    pub open spec fn fields(s: Seq<u8>) -> ControlPacket {
        ControlPacket {
            diag: Diag::of_code(s[0]),
            state: State::of_bits(s[1] / 64),
            poll: wire::bit(s[1], 32),
            final_: wire::bit(s[1], 16),
            cpi: wire::bit(s[1], 8),
            demand: wire::bit(s[1], 2),
            detect_mult: s[2],
            my_discr: wire::u32_at(s, 4),
            your_discr: wire::u32_at(s, 8),
            desired_min_tx: wire::u32_at(s, 12),
            required_min_rx: wire::u32_at(s, 16),
            required_min_echo_rx: wire::u32_at(s, 20),
            auth_present: wire::bit(s[1], 4),
        }
    }

    /// The reception rules of RFC 5880 §6.8.6 that the packet alone decides: version
    /// 1, Multipoint clear, a Detect Mult that is not zero, a Length of at least 24
    /// (26 with the `A` bit) that the datagram holds, a My Discriminator that is not
    /// zero, and a Your Discriminator that is zero only in state Down or AdminDown.
    pub open spec fn acceptable(s: Seq<u8>) -> bool {
        &&& s.len() >= 24
        &&& s[0] / 32 == 1
        &&& !wire::bit(s[1], 1)
        &&& s[2] != 0
        &&& s[3] >= (if wire::bit(s[1], 4) {
            26int
        } else {
            24int
        })
        &&& s[3] <= s.len()
        &&& wire::u32_at(s, 4) != 0
        &&& (wire::u32_at(s, 8) != 0 || State::of_bits(s[1] / 64) == State::Down || State::of_bits(
            s[1] / 64,
        ) == State::AdminDown)
    }

    /// The packet that a datagram decodes to.
    pub open spec fn decoded(s: Seq<u8>) -> Option<ControlPacket> {
        if ControlPacket::acceptable(s) {
            Some(ControlPacket::fields(s))
        } else {
            None
        }
    }

    /// What RFC 5880 asks of a packet that is sent: the conditions under which the
    /// receiver accepts it.
    pub open spec fn sendable(self) -> bool {
        &&& self.detect_mult != 0
        &&& self.my_discr != 0
        &&& (self.your_discr != 0 || self.state == State::Down || self.state == State::AdminDown)
    }

    /// Serialise into the 24-octet mandatory form.
    pub fn encode(&self) -> (r: [u8; 24])
        ensures
            r@ == self.octets(),
    {
        let flags: u8 = 64 * self.state.to_bits() + wire::flag_of(self.poll, 32) + wire::flag_of(
            self.final_,
            16,
        ) + wire::flag_of(self.cpi, 8) + wire::flag_of(self.demand, 2);
        let a = self.my_discr;
        let b = self.your_discr;
        let c = self.desired_min_tx;
        let d = self.required_min_rx;
        let e = self.required_min_echo_rx;
        let r: [u8; 24] = [
            32 + self.diag.code(),
            flags,
            self.detect_mult,
            24,
            (a / 16777216) as u8,
            (a / 65536 % 256) as u8,
            (a / 256 % 256) as u8,
            (a % 256) as u8,
            (b / 16777216) as u8,
            (b / 65536 % 256) as u8,
            (b / 256 % 256) as u8,
            (b % 256) as u8,
            (c / 16777216) as u8,
            (c / 65536 % 256) as u8,
            (c / 256 % 256) as u8,
            (c % 256) as u8,
            (d / 16777216) as u8,
            (d / 65536 % 256) as u8,
            (d / 256 % 256) as u8,
            (d % 256) as u8,
            (e / 16777216) as u8,
            (e / 65536 % 256) as u8,
            (e / 256 % 256) as u8,
            (e % 256) as u8,
        ];
        assert(r@ =~= self.octets());
        r
    }

    /// Parse a received datagram under the reception rules of RFC 5880 §6.8.6 that
    /// can be applied to the packet alone. `None` is a packet to discard silently.
    /// The `A` bit is recorded, not acted on: whether an authenticated packet is
    /// wanted depends on the session.
    pub fn decode(buf: &[u8]) -> (r: Option<ControlPacket>)
        ensures
            r == ControlPacket::decoded(buf@),
    {
        if buf.len() < MANDATORY_LEN {
            return None;
        }
        if buf[0] / 32 != VERSION {
            return None;
        }
        let state = State::from_bits(buf[1] / 64);
        let auth_present = wire::bit_of(buf[1], 4);
        let length: usize = buf[3] as usize;
        if wire::bit_of(buf[1], 1) || buf[2] == 0 {
            return None;
        }
        let min_len: usize = if auth_present {
            MIN_AUTHENTICATED_LEN
        } else {
            MANDATORY_LEN
        };
        if length < min_len || length > buf.len() {
            return None;
        }
        let my_discr = wire::read_u32(buf, 4);
        if my_discr == 0 {
            return None;
        }
        let your_discr = wire::read_u32(buf, 8);
        if your_discr == 0 && state != State::Down && state != State::AdminDown {
            return None;
        }
        Some(
            ControlPacket {
                diag: Diag::from_code(buf[0]),
                state,
                poll: wire::bit_of(buf[1], 32),
                final_: wire::bit_of(buf[1], 16),
                cpi: wire::bit_of(buf[1], 8),
                demand: wire::bit_of(buf[1], 2),
                detect_mult: buf[2],
                my_discr,
                your_discr,
                desired_min_tx: wire::read_u32(buf, 12),
                required_min_rx: wire::read_u32(buf, 16),
                required_min_echo_rx: wire::read_u32(buf, 20),
                auth_present,
            },
        )
    }
}

/// Every state survives its two-bit code.
pub proof fn lemma_state_round_trip(state: State)
    ensures
        State::of_bits(state.bits()) == state,
{
}

/// Every five-bit code survives its diagnostic, and so does every diagnostic that
/// is not an `Other` of a named or oversized code.
pub proof fn lemma_diag_round_trip(code: u8, diag: Diag)
    requires
        code < 32,
    ensures
        Diag::of_code(code).five_bits() == code,
        Diag::of_code(code).canonical(),
        diag !is Other ==> diag.canonical(),
{
}

/// The second octet of a packet gives back the state and the flags it was made of.
proof fn lemma_flag_octet(st: u8, poll: bool, final_: bool, cpi: bool, demand: bool)
    requires
        st < 4,
    ensures
        ({
            let b = (64 * st + wire::flag(poll, 32) + wire::flag(final_, 16) + wire::flag(cpi, 8) + wire::flag(
                demand,
                2,
            )) as u8;
            &&& b / 64 == st
            &&& wire::bit(b, 32) == poll
            &&& wire::bit(b, 16) == final_
            &&& wire::bit(b, 8) == cpi
            &&& wire::bit(b, 2) == demand
            &&& !wire::bit(b, 4)
            &&& !wire::bit(b, 1)
        }),
{
}

/// A packet that may be sent decodes, from its own octets and whatever stands behind them,
/// to itself with the Authentication Present mark clear.
pub proof fn lemma_packet_round_trip(p: ControlPacket, rest: Seq<u8>)
    requires
        p.sendable(),
        p.diag.canonical(),
    ensures
        ControlPacket::decoded(p.octets() + rest) == Some(
            (ControlPacket { auth_present: false, ..p }),
        ),
{
    let s = p.octets() + rest;
    let head = s.subrange(0, 4);
    let (a, b, c, d, e) = (
        wire::be32(p.my_discr),
        wire::be32(p.your_discr),
        wire::be32(p.desired_min_tx),
        wire::be32(p.required_min_rx),
        wire::be32(p.required_min_echo_rx),
    );
    assert(wire::u32_at(s, 4) == p.my_discr) by {
        wire::lemma_u32_back(head, p.my_discr, b + c + d + e + rest);
        assert(s =~= head + a + (b + c + d + e + rest));
    }
    assert(wire::u32_at(s, 8) == p.your_discr) by {
        wire::lemma_u32_back(head + a, p.your_discr, c + d + e + rest);
        assert(s =~= head + a + b + (c + d + e + rest));
    }
    assert(wire::u32_at(s, 12) == p.desired_min_tx) by {
        wire::lemma_u32_back(head + a + b, p.desired_min_tx, d + e + rest);
        assert(s =~= head + a + b + c + (d + e + rest));
    }
    assert(wire::u32_at(s, 16) == p.required_min_rx) by {
        wire::lemma_u32_back(head + a + b + c, p.required_min_rx, e + rest);
        assert(s =~= head + a + b + c + d + (e + rest));
    }
    assert(wire::u32_at(s, 20) == p.required_min_echo_rx) by {
        wire::lemma_u32_back(head + a + b + c + d, p.required_min_echo_rx, rest);
        assert(s =~= head + a + b + c + d + e + rest);
    }
    lemma_flag_octet(p.state.bits(), p.poll, p.final_, p.cpi, p.demand);
    lemma_state_round_trip(p.state);
    assert(Diag::of_code(s[0]) == Diag::of_code(p.diag.five_bits()));
}

/// Which datagrams are taken for a packet, octet by octet, and what is read from them.
/// Whatever follows the length that the packet tells does not count.
pub proof fn lemma_which_packets_are_accepted(s: Seq<u8>)
    ensures
        ControlPacket::decoded(s) is Some <==> s.len() >= 24 && 32 <= s[0] < 64 && s[1] % 2 == 0
            && s[2] > 0 && 24 <= s[3] <= s.len() && (s[1] / 4 % 2 == 1 ==> s[3] >= 26) && !(s[4] == 0
            && s[5] == 0 && s[6] == 0 && s[7] == 0) && (s[1] >= 128 ==> !(s[8] == 0 && s[9] == 0
            && s[10] == 0 && s[11] == 0)),
        ControlPacket::decoded(s) matches Some(p) ==> {
            &&& p.diag.five_bits() == s[0] % 32
            &&& p.state is AdminDown <==> s[1] < 64
            &&& p.state is Down <==> 64 <= s[1] < 128
            &&& p.state is Init <==> 128 <= s[1] < 192
            &&& p.state is Up <==> s[1] >= 192
            &&& p.poll == (s[1] / 32 % 2 == 1)
            &&& p.final_ == (s[1] / 16 % 2 == 1)
            &&& p.cpi == (s[1] / 8 % 2 == 1)
            &&& p.auth_present == (s[1] / 4 % 2 == 1)
            &&& p.demand == (s[1] / 2 % 2 == 1)
            &&& p.detect_mult == s[2]
            &&& p.my_discr == s[4] * 16777216 + s[5] * 65536 + s[6] * 256 + s[7]
            &&& p.your_discr == s[8] * 16777216 + s[9] * 65536 + s[10] * 256 + s[11]
            &&& p.desired_min_tx == s[12] * 16777216 + s[13] * 65536 + s[14] * 256 + s[15]
            &&& p.required_min_rx == s[16] * 16777216 + s[17] * 65536 + s[18] * 256 + s[19]
            &&& p.required_min_echo_rx == s[20] * 16777216 + s[21] * 65536 + s[22] * 256 + s[23]
        },
{
}

/// The codes of the diagnostics.
pub proof fn lemma_diagnostics_by_code(code: u8)
    ensures
        Diag::of_code(code).five_bits() == code % 32,
        code % 32 == 0 <==> Diag::of_code(code) is NoDiagnostic,
        code % 32 == 1 <==> Diag::of_code(code) is ControlDetectionTimeExpired,
        code % 32 == 2 <==> Diag::of_code(code) is EchoFunctionFailed,
        code % 32 == 3 <==> Diag::of_code(code) is NeighborSignaledDown,
        code % 32 == 7 <==> Diag::of_code(code) is AdministrativelyDown,
{
}

} // verus!
