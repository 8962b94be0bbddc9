//! Capabilities (RFC 5492), carried in the optional parameters of an OPEN message.
//!
//! An optional parameter is its type, its length and its value; the value of a parameter
//! of type 2 is a run of capabilities, each of them its code, its length and its value.
//! What is not understood is kept as it is.

use vstd::prelude::*;

use crate::run;
use crate::run::{Plain, Record};
use crate::wire;

verus! {

/// The optional parameter that holds capabilities.
pub const OPT_PARAM_CAPABILITIES: u8 = 2;

/// Multiprotocol Extensions (RFC 4760).
pub const CAP_MULTIPROTOCOL: u8 = 1;

/// Route Refresh (RFC 2918).
pub const CAP_ROUTE_REFRESH: u8 = 2;

/// Graceful Restart (RFC 4724).
pub const CAP_GRACEFUL_RESTART: u8 = 64;

/// AS numbers of four octets (RFC 6793).
pub const CAP_FOUR_OCTET_AS: u8 = 65;

/// Extended Next Hop Encoding (RFC 8950).
pub const CAP_EXTENDED_NEXT_HOP: u8 = 5;

/// Several paths for one destination (RFC 7911).
pub const CAP_ADD_PATH: u8 = 69;

/// Able to receive several paths.
pub const ADD_PATH_RECEIVE: u8 = 1;

/// Able to send several paths.
pub const ADD_PATH_SEND: u8 = 2;

/// Able to do both.
pub const ADD_PATH_BOTH: u8 = 3;

/// One capability.
#[derive(Clone, PartialEq, Eq, Debug)]
pub enum Capability {
    /// An address family that the speaker carries.
    Multiprotocol { afi: u16, safi: u8 },
    /// The speaker can be asked for its routes again.
    RouteRefresh,
    /// The speaker can be helped through a restart.
    GracefulRestart {
        /// It has just restarted.
        restart_state: bool,
        /// How long to keep its routes, in seconds, of 12 bits.
        restart_time: u16,
        /// Family, subsequent family, and whether forwarding goes on.
        families: Vec<(u16, u8, bool)>,
    },
    /// The AS number of the speaker.
    FourOctetAs(u32),
    /// Family, subsequent family, and what the speaker is able to do.
    AddPath(Vec<(u16, u8, u8)>),
    /// Family, subsequent family, and the family of the next hop.
    ExtendedNextHop(Vec<(u16, u16, u16)>),
    /// A capability that is not understood.
    Unknown { code: u8, value: Vec<u8> },
}

/// A capability as a mathematical value.
pub enum CapabilityView {
    Multiprotocol { afi: u16, safi: u8 },
    RouteRefresh,
    GracefulRestart { restart_state: bool, restart_time: u16, families: Seq<(u16, u8, bool)> },
    FourOctetAs(u32),
    AddPath(Seq<(u16, u8, u8)>),
    ExtendedNextHop(Seq<(u16, u16, u16)>),
    Unknown { code: u8, value: Seq<u8> },
}

impl View for Capability {
    type V = CapabilityView;

    open spec fn view(&self) -> CapabilityView {
        match *self {
            Capability::Multiprotocol { afi, safi } => CapabilityView::Multiprotocol { afi, safi },
            Capability::RouteRefresh => CapabilityView::RouteRefresh,
            Capability::GracefulRestart { restart_state, restart_time, families } =>
                CapabilityView::GracefulRestart {
                restart_state,
                restart_time,
                families: families@,
            },
            Capability::FourOctetAs(asn) => CapabilityView::FourOctetAs(asn),
            Capability::AddPath(families) => CapabilityView::AddPath(families@),
            Capability::ExtendedNextHop(tuples) => CapabilityView::ExtendedNextHop(tuples@),
            Capability::Unknown { code, value } => CapabilityView::Unknown { code, value: value@ },
        }
    }
}

/// A family of the Graceful Restart capability.
impl Record for (u16, u8, bool) {
    type Ctx = Plain;

    open spec fn carried(v: (u16, u8, bool), c: Plain) -> bool {
        true
    }

    open spec fn octets(v: (u16, u8, bool), c: Plain) -> Seq<u8> {
        wire::be16(v.0) + seq![v.1, wire::flag(v.2, 128)]
    }

    open spec fn front(s: Seq<u8>, c: Plain) -> Option<((u16, u8, bool), int)> {
        if s.len() < 4 {
            None
        } else {
            Some(((wire::u16_at(s, 0), s[2], wire::bit(s[3], 128)), 4))
        }
    }

    proof fn lemma_front(v: (u16, u8, bool), c: Plain, rest: Seq<u8>) {
        let s = Self::octets(v, c) + rest;
        assert(s.subrange(0, 2) =~= wire::be16(v.0));
        wire::lemma_u16_placed(s, 0, v.0);
    }

    fn write(&self, out: &mut Vec<u8>, c: Plain) {
        wire::push_u16(out, self.0);
        out.push(self.1);
        out.push(wire::flag_of(self.2, 128));
        assert(out@ =~= old(out)@ + Self::octets(self@, c));
    }

    fn read(s: &[u8], c: Plain) -> (r: Option<((u16, u8, bool), usize)>) {
        if s.len() < 4 {
            None
        } else {
            Some(((wire::read_u16(s, 0), s[2], wire::bit_of(s[3], 128)), 4))
        }
    }
}

/// A family of the capability of several paths.
impl Record for (u16, u8, u8) {
    type Ctx = Plain;

    open spec fn carried(v: (u16, u8, u8), c: Plain) -> bool {
        true
    }

    open spec fn octets(v: (u16, u8, u8), c: Plain) -> Seq<u8> {
        wire::be16(v.0) + seq![v.1, v.2]
    }

    open spec fn front(s: Seq<u8>, c: Plain) -> Option<((u16, u8, u8), int)> {
        if s.len() < 4 {
            None
        } else {
            Some(((wire::u16_at(s, 0), s[2], s[3]), 4))
        }
    }

    proof fn lemma_front(v: (u16, u8, u8), c: Plain, rest: Seq<u8>) {
        let s = Self::octets(v, c) + rest;
        assert(s.subrange(0, 2) =~= wire::be16(v.0));
        wire::lemma_u16_placed(s, 0, v.0);
    }

    fn write(&self, out: &mut Vec<u8>, c: Plain) {
        wire::push_u16(out, self.0);
        out.push(self.1);
        out.push(self.2);
        assert(out@ =~= old(out)@ + Self::octets(self@, c));
    }

    fn read(s: &[u8], c: Plain) -> (r: Option<((u16, u8, u8), usize)>) {
        if s.len() < 4 {
            None
        } else {
            Some(((wire::read_u16(s, 0), s[2], s[3]), 4))
        }
    }
}

/// A triple of the Extended Next Hop capability.
impl Record for (u16, u16, u16) {
    type Ctx = Plain;

    open spec fn carried(v: (u16, u16, u16), c: Plain) -> bool {
        true
    }

    open spec fn octets(v: (u16, u16, u16), c: Plain) -> Seq<u8> {
        wire::be16(v.0) + wire::be16(v.1) + wire::be16(v.2)
    }

    open spec fn front(s: Seq<u8>, c: Plain) -> Option<((u16, u16, u16), int)> {
        if s.len() < 6 {
            None
        } else {
            Some(((wire::u16_at(s, 0), wire::u16_at(s, 2), wire::u16_at(s, 4)), 6))
        }
    }

    proof fn lemma_front(v: (u16, u16, u16), c: Plain, rest: Seq<u8>) {
        let s = Self::octets(v, c) + rest;
        assert(s.subrange(0, 2) =~= wire::be16(v.0));
        assert(s.subrange(2, 4) =~= wire::be16(v.1));
        assert(s.subrange(4, 6) =~= wire::be16(v.2));
        wire::lemma_u16_placed(s, 0, v.0);
        wire::lemma_u16_placed(s, 2, v.1);
        wire::lemma_u16_placed(s, 4, v.2);
    }

    fn write(&self, out: &mut Vec<u8>, c: Plain) {
        wire::push_u16(out, self.0);
        wire::push_u16(out, self.1);
        wire::push_u16(out, self.2);
        assert(out@ =~= old(out)@ + Self::octets(self@, c));
    }

    fn read(s: &[u8], c: Plain) -> (r: Option<((u16, u16, u16), usize)>) {
        if s.len() < 6 {
            None
        } else {
            Some(((wire::read_u16(s, 0), wire::read_u16(s, 2), wire::read_u16(s, 4)), 6))
        }
    }
}

impl CapabilityView {
    /// The code.
    pub open spec fn code(self) -> u8 {
        match self {
            CapabilityView::Multiprotocol { .. } => 1,
            CapabilityView::RouteRefresh => 2,
            CapabilityView::GracefulRestart { .. } => 64,
            CapabilityView::FourOctetAs(_) => 65,
            CapabilityView::AddPath(_) => 69,
            CapabilityView::ExtendedNextHop(_) => 5,
            CapabilityView::Unknown { code, .. } => code,
        }
    }

    /// The value.
    pub open spec fn value(self) -> Seq<u8> {
        match self {
            CapabilityView::Multiprotocol { afi, safi } => wire::be16(afi) + seq![0u8, safi],
            CapabilityView::RouteRefresh => Seq::empty(),
            CapabilityView::GracefulRestart { restart_state, restart_time, families } => wire::be16(
                restart_word(restart_state, restart_time),
            ) + run::run_octets::<(u16, u8, bool)>(families, Plain),
            CapabilityView::FourOctetAs(asn) => wire::be32(asn),
            CapabilityView::AddPath(families) => run::run_octets::<(u16, u8, u8)>(families, Plain),
            CapabilityView::ExtendedNextHop(tuples) => run::run_octets::<(u16, u16, u16)>(
                tuples,
                Plain,
            ),
            CapabilityView::Unknown { value, .. } => value,
        }
    }
}

/// The restart flag in the highest bit, the low 12 bits of the time.
pub open spec fn restart_word(restart_state: bool, restart_time: u16) -> u16 {
    ((if restart_state {
        32768int
    } else {
        0
    }) + restart_time % 4096) as u16
}

/// The capability that a code and a value make, where it is understood.
pub open spec fn understood(code: u8, b: Seq<u8>) -> Option<CapabilityView> {
    if code == 1 && b.len() == 4 {
        Some(CapabilityView::Multiprotocol { afi: wire::u16_at(b, 0), safi: b[3] })
    } else if code == 2 && b.len() == 0 {
        Some(CapabilityView::RouteRefresh)
    } else if code == 64 && b.len() >= 2 {
        match run::run_values::<(u16, u8, bool)>(wire::from_at(b, 2), Plain) {
            Some(families) => Some(
                CapabilityView::GracefulRestart {
                    restart_state: wire::u16_at(b, 0) >= 32768,
                    restart_time: wire::u16_at(b, 0) % 4096,
                    families,
                },
            ),
            None => None,
        }
    } else if code == 65 && b.len() == 4 {
        Some(CapabilityView::FourOctetAs(wire::u32_at(b, 0)))
    } else if code == 69 {
        match run::run_values::<(u16, u8, u8)>(b, Plain) {
            Some(families) => Some(CapabilityView::AddPath(families)),
            None => None,
        }
    } else if code == 5 {
        match run::run_values::<(u16, u16, u16)>(b, Plain) {
            Some(tuples) => Some(CapabilityView::ExtendedNextHop(tuples)),
            None => None,
        }
    } else {
        None
    }
}

/// A capability: code, length, value.
pub open spec fn cap_octets(v: CapabilityView) -> Seq<u8> {
    seq![v.code(), (v.value().len() % 256) as u8] + v.value()
}

/// The capability at the front of `s`, and its length in octets.
pub open spec fn cap_front(s: Seq<u8>) -> Option<(CapabilityView, int)> {
    if s.len() < 2 || s.len() < 2 + s[1] {
        None
    } else {
        let b = s.subrange(2, 2 + s[1]);
        Some(
            (
                match understood(s[0], b) {
                    Some(v) => v,
                    None => CapabilityView::Unknown { code: s[0], value: b },
                },
                2 + s[1],
            ),
        )
    }
}

/// The capabilities that survive their encoding: a restart time of 12 bits, values that
/// fit the length octet, and unknown ones that are not understood.
pub open spec fn encodable(v: CapabilityView) -> bool {
    &&& v.value().len() <= 255
    &&& match v {
        CapabilityView::GracefulRestart { restart_time, .. } => restart_time < 4096,
        CapabilityView::Unknown { code, value } => understood(code, value) is None,
        _ => true,
    }
}

impl Capability {
    /// The code.
    pub fn code(&self) -> (r: u8)
        ensures
            r == self@.code(),
    {
        match self {
            Capability::Multiprotocol { .. } => CAP_MULTIPROTOCOL,
            Capability::RouteRefresh => CAP_ROUTE_REFRESH,
            Capability::GracefulRestart { .. } => CAP_GRACEFUL_RESTART,
            Capability::FourOctetAs(_) => CAP_FOUR_OCTET_AS,
            Capability::AddPath(_) => CAP_ADD_PATH,
            Capability::ExtendedNextHop(_) => CAP_EXTENDED_NEXT_HOP,
            Capability::Unknown { code, .. } => *code,
        }
    }

    fn push_value(&self, out: &mut Vec<u8>)
        ensures
            final(out)@ == old(out)@ + self@.value(),
    {
        match self {
            Capability::Multiprotocol { afi, safi } => {
                wire::push_u16(out, *afi);
                out.push(0);
                out.push(*safi);
            },
            Capability::RouteRefresh => {},
            Capability::GracefulRestart { restart_state, restart_time, families } => {
                let flag: u16 = if *restart_state {
                    32768
                } else {
                    0
                };
                wire::push_u16(out, flag + restart_time % 4096);
                run::write_run::<(u16, u8, bool)>(out, families.as_slice(), Plain);
                assert(wire::views(families@) =~= families@);
            },
            Capability::FourOctetAs(asn) => {
                wire::push_u32(out, *asn);
            },
            Capability::AddPath(families) => {
                run::write_run::<(u16, u8, u8)>(out, families.as_slice(), Plain);
                assert(wire::views(families@) =~= families@);
            },
            Capability::ExtendedNextHop(tuples) => {
                run::write_run::<(u16, u16, u16)>(out, tuples.as_slice(), Plain);
                assert(wire::views(tuples@) =~= tuples@);
            },
            Capability::Unknown { value, .. } => {
                wire::push_all(out, value.as_slice());
            },
        }
        assert(out@ =~= old(out)@ + self@.value());
    }

    /// Append code, length and value.
    pub fn encode(&self, out: &mut Vec<u8>)
        ensures
            final(out)@ == old(out)@ + cap_octets(self@),
    {
        let mut value: Vec<u8> = Vec::new();
        self.push_value(&mut value);
        assert(value@ =~= self@.value());
        out.push(self.code());
        out.push((value.len() % 256) as u8);
        wire::push_all(out, value.as_slice());
        assert(out@ =~= old(out)@ + cap_octets(self@));
    }

    fn understand(code: u8, b: &[u8]) -> (r: Option<Capability>)
        ensures
            match r {
                Some(v) => understood(code, b@) == Some(v@),
                None => understood(code, b@) is None,
            },
    {
        if code == CAP_MULTIPROTOCOL && b.len() == 4 {
            Some(Capability::Multiprotocol { afi: wire::read_u16(b, 0), safi: b[3] })
        } else if code == CAP_ROUTE_REFRESH && b.len() == 0 {
            Some(Capability::RouteRefresh)
        } else if code == CAP_GRACEFUL_RESTART && b.len() >= 2 {
            let word = wire::read_u16(b, 0);
            match run::read_run::<(u16, u8, bool)>(&b[2..b.len()], Plain) {
                Some(families) => {
                    assert(wire::views(families@) =~= families@);
                    Some(
                        Capability::GracefulRestart {
                            restart_state: word >= 32768,
                            restart_time: word % 4096,
                            families,
                        },
                    )
                },
                None => None,
            }
        } else if code == CAP_FOUR_OCTET_AS && b.len() == 4 {
            Some(Capability::FourOctetAs(wire::read_u32(b, 0)))
        } else if code == CAP_ADD_PATH {
            match run::read_run::<(u16, u8, u8)>(b, Plain) {
                Some(families) => {
                    assert(wire::views(families@) =~= families@);
                    Some(Capability::AddPath(families))
                },
                None => None,
            }
        } else if code == CAP_EXTENDED_NEXT_HOP {
            match run::read_run::<(u16, u16, u16)>(b, Plain) {
                Some(tuples) => {
                    assert(wire::views(tuples@) =~= tuples@);
                    Some(Capability::ExtendedNextHop(tuples))
                },
                None => None,
            }
        } else {
            None
        }
    }

    /// Decode one capability from the front of `buf`, with the number of octets it takes;
    /// `None` where it is cut short.
    pub fn decode_one(buf: &[u8]) -> (r: Option<(Capability, usize)>)
        ensures
            match r {
                Some((v, used)) => cap_front(buf@) == Some((v@, used as int)) && 0 < used
                    <= buf@.len(),
                None => cap_front(buf@) is None,
            },
    {
        if buf.len() < 2 {
            return None;
        }
        let len: usize = buf[1] as usize;
        if buf.len() < 2 + len {
            return None;
        }
        let b = &buf[2..2 + len];
        match Capability::understand(buf[0], b) {
            Some(v) => Some((v, 2 + len)),
            None => Some((Capability::Unknown { code: buf[0], value: wire::copy_of(b) }, 2 + len)),
        }
    }
}

impl Record for Capability {
    type Ctx = Plain;

    open spec fn carried(v: CapabilityView, c: Plain) -> bool {
        encodable(v)
    }

    open spec fn octets(v: CapabilityView, c: Plain) -> Seq<u8> {
        cap_octets(v)
    }

    open spec fn front(s: Seq<u8>, c: Plain) -> Option<(CapabilityView, int)> {
        cap_front(s)
    }

    proof fn lemma_front(v: CapabilityView, c: Plain, rest: Seq<u8>) {
        lemma_capability_round_trip(v, rest);
    }

    fn write(&self, out: &mut Vec<u8>, c: Plain) {
        self.encode(out);
    }

    fn read(s: &[u8], c: Plain) -> (r: Option<(Capability, usize)>) {
        Capability::decode_one(s)
    }
}

proof fn lemma_value_understood(v: CapabilityView)
    requires
        encodable(v),
    ensures
        !(v is Unknown) ==> understood(v.code(), v.value()) == Some(v),
{
    let b = v.value();
    match v {
        CapabilityView::Multiprotocol { afi, safi } => {
            assert(b.subrange(0, 2) =~= wire::be16(afi));
            wire::lemma_u16_placed(b, 0, afi);
        },
        CapabilityView::GracefulRestart { restart_state, restart_time, families } => {
            let word = restart_word(restart_state, restart_time);
            assert(b.subrange(0, 2) =~= wire::be16(word));
            wire::lemma_u16_placed(b, 0, word);
            run::lemma_run_round_trip::<(u16, u8, bool)>(families, Plain);
            assert(wire::from_at(b, 2) =~= run::run_octets::<(u16, u8, bool)>(families, Plain));
        },
        CapabilityView::FourOctetAs(asn) => {
            assert(b.subrange(0, 4) =~= b);
            wire::lemma_u32_placed(b, 0, asn);
        },
        CapabilityView::AddPath(families) => {
            run::lemma_run_round_trip::<(u16, u8, u8)>(families, Plain);
        },
        CapabilityView::ExtendedNextHop(tuples) => {
            run::lemma_run_round_trip::<(u16, u16, u16)>(tuples, Plain);
        },
        _ => {},
    }
}

/// A capability that survives its encoding is read back, from in front of anything.
pub proof fn lemma_capability_round_trip(v: CapabilityView, rest: Seq<u8>)
    requires
        encodable(v),
    ensures
        cap_front(cap_octets(v) + rest) == Some((v, cap_octets(v).len() as int)),
{
    lemma_value_understood(v);
    let s = cap_octets(v) + rest;
    assert(s.subrange(2, 2 + s[1]) =~= v.value());
}

/// The optional parameters that hold capabilities: one of type 2, or none where there
/// are no capabilities.
pub open spec fn parameters(caps: Seq<CapabilityView>) -> Seq<u8> {
    let blob = run::run_octets::<Capability>(caps, Plain);
    if caps.len() == 0 {
        Seq::empty()
    } else {
        seq![2u8, (blob.len() % 256) as u8] + blob
    }
}

/// The capabilities at the front of `s`, up to the first that is cut short.
pub open spec fn caps_in(s: Seq<u8>) -> Seq<CapabilityView>
    decreases s.len(),
{
    if s.len() == 0 {
        Seq::empty()
    } else {
        match cap_front(s) {
            None => Seq::empty(),
            Some((v, used)) => seq![v] + caps_in(wire::from_at(s, used)),
        }
    }
}

/// The capabilities in optional parameters, up to the first parameter that is cut short;
/// parameters of other types are passed over.
pub open spec fn parameter_caps(s: Seq<u8>) -> Seq<CapabilityView>
    decreases s.len(),
{
    if s.len() < 2 || s.len() < 2 + s[1] {
        Seq::empty()
    } else {
        let rest = parameter_caps(wire::from_at(s, 2 + s[1]));
        if s[0] == 2 {
            caps_in(s.subrange(2, 2 + s[1])) + rest
        } else {
            rest
        }
    }
}

/// The optional parameters that advertise `caps`.
pub fn encode_optional_parameters(caps: &[Capability]) -> (r: Vec<u8>)
    ensures
        r@ == parameters(wire::views(caps@)),
{
    let mut out: Vec<u8> = Vec::new();
    if caps.len() > 0 {
        let mut blob: Vec<u8> = Vec::new();
        run::write_run::<Capability>(&mut blob, caps, Plain);
        assert(blob@ =~= run::run_octets::<Capability>(wire::views(caps@), Plain));
        out.push(OPT_PARAM_CAPABILITIES);
        out.push((blob.len() % 256) as u8);
        wire::push_all(&mut out, blob.as_slice());
    }
    assert(out@ =~= parameters(wire::views(caps@)));
    out
}

fn push_caps(out: &mut Vec<Capability>, s: &[u8])
    ensures
        wire::views(final(out)@) == wire::views(old(out)@) + caps_in(s@),
{
    let ghost start = wire::views(out@);
    let mut i: usize = 0;
    assert(wire::from_at(s@, 0) =~= s@);
    while i < s.len()
        invariant
            i <= s.len(),
            start == wire::views(old(out)@),
            wire::views(out@) + caps_in(wire::from_at(s@, i as int)) =~= start + caps_in(s@),
        decreases s.len() - i,
    {
        let ghost rest = wire::from_at(s@, i as int);
        let ghost before = wire::views(out@);
        match Capability::decode_one(&s[i..s.len()]) {
            None => {
                assert(wire::views(out@) =~= start + caps_in(s@));
                return;
            },
            Some((v, used)) => {
                proof {
                    wire::lemma_views_push(out@, v);
                    assert(wire::from_at(rest, used as int) =~= wire::from_at(s@, i + used));
                }
                out.push(v);
                assert(wire::views(out@) + caps_in(wire::from_at(s@, i + used)) =~= before
                    + caps_in(rest));
                i = i + used;
            },
        }
    }
    assert(wire::views(out@) =~= start + caps_in(s@));
}

/// The capabilities in the optional parameters of an OPEN message.
pub fn parse_optional_parameters(opt: &[u8]) -> (r: Vec<Capability>)
    ensures
        wire::views(r@) == parameter_caps(opt@),
{
    let mut out: Vec<Capability> = Vec::new();
    let mut i: usize = 0;
    assert(wire::from_at(opt@, 0) =~= opt@);
    assert(wire::views(out@) + parameter_caps(opt@) =~= parameter_caps(opt@));
    while opt.len() - i >= 2
        invariant
            i <= opt.len(),
            wire::views(out@) + parameter_caps(wire::from_at(opt@, i as int)) =~= parameter_caps(
                opt@,
            ),
        decreases opt.len() - i,
    {
        let ghost rest = wire::from_at(opt@, i as int);
        let ghost before = wire::views(out@);
        let len: usize = opt[i + 1] as usize;
        assert(rest[0] == opt@[i as int] && rest[1] == opt@[i + 1]);
        if opt.len() - i < 2 + len {
            assert(wire::views(out@) =~= parameter_caps(opt@));
            return out;
        }
        assert(i + 2 + len <= opt.len());
        if opt[i] == OPT_PARAM_CAPABILITIES {
            let value = &opt[i + 2..i + 2 + len];
            assert(value@ =~= rest.subrange(2, 2 + len as int));
            push_caps(&mut out, value);
        }
        assert(wire::from_at(rest, 2 + len as int) =~= wire::from_at(opt@, i + 2 + len));
        assert(wire::views(out@) + parameter_caps(wire::from_at(opt@, i + 2 + len)) =~= before
            + parameter_caps(rest));
        i = i + 2 + len;
    }
    assert(wire::views(out@) =~= parameter_caps(opt@));
    out
}

proof fn lemma_caps_back(caps: Seq<CapabilityView>)
    requires
        forall|i: int| 0 <= i < caps.len() ==> encodable(#[trigger] caps[i]),
    ensures
        caps_in(run::run_octets::<Capability>(caps, Plain)) == caps,
    decreases caps.len(),
{
    let s = run::run_octets::<Capability>(caps, Plain);
    if caps.len() > 0 {
        let rest = run::run_octets::<Capability>(caps.drop_first(), Plain);
        assert forall|i: int| 0 <= i < caps.drop_first().len() implies encodable(
            #[trigger] caps.drop_first()[i],
        ) by {
            assert(caps.drop_first()[i] == caps[i + 1]);
        }
        lemma_caps_back(caps.drop_first());
        lemma_capability_round_trip(caps[0], rest);
        assert(wire::from_at(s, cap_octets(caps[0]).len() as int) =~= rest);
        assert(seq![caps[0]] + caps.drop_first() =~= caps);
    } else {
        assert(caps =~= Seq::empty());
    }
}

/// Capabilities that survive their encoding, and together fit one parameter, are read
/// back from the optional parameters that advertise them.
pub proof fn lemma_parameters_round_trip(caps: Seq<CapabilityView>)
    requires
        forall|i: int| 0 <= i < caps.len() ==> encodable(#[trigger] caps[i]),
        run::run_octets::<Capability>(caps, Plain).len() <= 255,
    ensures
        parameter_caps(parameters(caps)) == caps,
{
    let s = parameters(caps);
    let blob = run::run_octets::<Capability>(caps, Plain);
    lemma_caps_back(caps);
    if caps.len() > 0 {
        assert(s.subrange(2, 2 + s[1]) =~= blob);
        let rest = wire::from_at(s, 2 + s[1]);
        assert(rest =~= Seq::empty());
        assert(caps_in(blob) + parameter_caps(rest) =~= caps);
    } else {
        assert(caps =~= Seq::empty());
    }
}

/// What a capability is read as, by its code and the length of its value: one that does not
/// have a length of its code is kept as it is, and none is refused that is there as a
/// whole.
pub proof fn lemma_read_by_code(s: Seq<u8>)
    requires
        s.len() >= 2,
        s.len() >= 2 + s[1],
    ensures
        cap_front(s) matches Some((v, used)) && used == 2 + s[1] && ({
            let n = s[1];
            &&& v is Multiprotocol <==> s[0] == 1 && n == 4
            &&& v is RouteRefresh <==> s[0] == 2 && n == 0
            &&& v is GracefulRestart <==> s[0] == 64 && n >= 2 && (n - 2) % 4 == 0
            &&& v is FourOctetAs <==> s[0] == 65 && n == 4
            &&& v is AddPath <==> s[0] == 69 && n % 4 == 0
            &&& v is ExtendedNextHop <==> s[0] == 5 && n % 6 == 0
            &&& v matches CapabilityView::Unknown { code, value } ==> code == s[0] && value
                == s.subrange(2, 2 + n as int)
            &&& v matches CapabilityView::Multiprotocol { afi, safi } ==> afi == s[2] * 256 + s[3]
                && safi == s[5]
            &&& v matches CapabilityView::FourOctetAs(asn) ==> asn == s[2] * 16777216 + s[3] * 65536
                + s[4] * 256 + s[5]
            &&& v matches CapabilityView::GracefulRestart { restart_state, restart_time, families }
                ==> restart_state == (s[2] >= 128) && restart_time == s[2] % 16 * 256 + s[3]
                && families.len() == (n - 2) / 4
        }),
{
    let b = s.subrange(2, 2 + s[1]);
    lemma_families_fit(b);
    if s[1] >= 2 {
        lemma_families_fit(wire::from_at(b, 2));
    }
    assert(b.len() == s[1]);
    assert(b.len() > 0 ==> b[0] == s[2]);
    assert(b.len() > 1 ==> b[1] == s[3]);
    assert(b.len() > 2 ==> b[2] == s[4]);
    assert(b.len() > 3 ==> b[3] == s[5]);
}

proof fn lemma_families_fit(b: Seq<u8>)
    ensures
        run::run_values::<(u16, u8, bool)>(b, Plain) is Some <==> b.len() % 4 == 0,
        run::run_values::<(u16, u8, bool)>(b, Plain) matches Some(f) ==> f.len() == b.len() / 4,
        run::run_values::<(u16, u8, u8)>(b, Plain) is Some <==> b.len() % 4 == 0,
        run::run_values::<(u16, u16, u16)>(b, Plain) is Some <==> b.len() % 6 == 0,
    decreases b.len(),
{
    if b.len() >= 4 {
        lemma_families_fit(wire::from_at(b, 4));
    }
    if b.len() >= 6 {
        lemma_families_fit(wire::from_at(b, 6));
    }
}

/// Optional parameters are gone through one behind the other: those of type 2 add their
/// capabilities, those of other types add nothing, and one that is cut short ends them.
pub proof fn lemma_parameters_add_up(kind: u8, value: Seq<u8>, rest: Seq<u8>)
    requires
        value.len() <= 255,
    ensures
        parameter_caps(seq![kind, value.len() as u8] + value + rest) == (if kind == 2 {
            caps_in(value) + parameter_caps(rest)
        } else {
            parameter_caps(rest)
        }),
        rest.len() < 2 || rest.len() < 2 + rest[1] ==> parameter_caps(rest).len() == 0,
{
    let s = seq![kind, value.len() as u8] + value + rest;
    assert(s.subrange(2, 2 + s[1]) =~= value);
    assert(wire::from_at(s, 2 + s[1]) =~= rest);
}

} // verus!
