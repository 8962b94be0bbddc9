//! The Border Gateway Protocol (RFC 4271): messages, path attributes, the address
//! families that ride in MP-BGP, the decision process and the routing tables.
//!
//! AS numbers are held as 32 bits throughout (RFC 6793). Toward a peer that knows only
//! 16-bit numbers, [`AS_TRANS`] stands in for what does not fit.

use vstd::prelude::*;

use crate::net;
use crate::net::{IpAddr, Ipv4Addr, Ipv6Addr, Prefix};
use crate::run::Record;

pub mod attr;
pub mod bmp;
pub mod capability;
pub mod community;
pub mod decision;
pub mod evpn;
pub mod evpn_rib;
pub mod ext_community;
pub mod flowspec;
pub mod flowspec_rib;
pub mod fsm;
pub mod large_community;
pub mod link_state;
pub mod link_state_rib;
pub mod message;
pub mod nexthop;
pub mod rib;
pub mod rpki;
pub mod rtr;
pub mod selection;
pub mod sr_policy;
pub mod sr_policy_rib;
pub mod srv6;
pub mod table;
pub mod tlv;

verus! {

/// The BGP version spoken here (§4.2).
pub const VERSION: u8 = 4;

/// The well-known TCP port (§4).
pub const PORT: u16 = 179;

/// The message header length: marker, length and type.
pub const HEADER_LEN: usize = 19;

/// The message marker (§4.1).
pub const MARKER: [u8; 16] = [
    0xff, 0xff, 0xff, 0xff, 0xff, 0xff, 0xff, 0xff, 0xff, 0xff, 0xff, 0xff, 0xff, 0xff, 0xff, 0xff,
];

/// The largest message, header included (§4.1).
pub const MAX_MESSAGE_LEN: usize = 4096;

/// The smallest message: a header alone (§4.1).
pub const MIN_MESSAGE_LEN: usize = 19;

/// A conventional Hold Time, in seconds.
pub const DEFAULT_HOLD_TIME: u16 = 180;

/// The Restart Time of the Graceful Restart capability, in seconds.
pub const DEFAULT_RESTART_TIME: u16 = 120;

/// The 16-bit AS number that stands in for one that does not fit (RFC 6793 §4).
pub const AS_TRANS: u16 = 23456;

/// Address family: IPv4.
pub const AFI_IPV4: u16 = 1;

/// Address family: IPv6.
pub const AFI_IPV6: u16 = 2;

/// Subsequent address family: unicast.
pub const SAFI_UNICAST: u8 = 1;

/// An AS number in a 16-bit field: itself, or [`AS_TRANS`] where it does not fit.
pub open spec fn fitted(asn: u32) -> u16 {
    if asn > 65535 {
        23456
    } else {
        asn as u16
    }
}

pub(crate) fn as_trans_fit(as_num: u32) -> (r: u16)
    ensures
        r == fitted(as_num),
{
    if as_num > 65535 {
        AS_TRANS
    } else {
        as_num as u16
    }
}

/// The message types (§4.1, RFC 2918).
#[derive(Clone, Copy, PartialEq, Eq, Structural, Debug)]
pub enum MessageType {
    /// Open a session (§4.2).
    Open,
    /// Advertise and withdraw routes (§4.3).
    Update,
    /// Report an error and close the session (§4.5).
    Notification,
    /// Keep the session alive (§4.4).
    Keepalive,
    /// Ask for the routes of a family again (RFC 2918).
    RouteRefresh,
}

impl MessageType {
    /// The code of the type.
    pub open spec fn code(self) -> u8 {
        match self {
            MessageType::Open => 1,
            MessageType::Update => 2,
            MessageType::Notification => 3,
            MessageType::Keepalive => 4,
            MessageType::RouteRefresh => 5,
        }
    }

    /// The type with a code.
    pub open spec fn of_code(v: u8) -> Option<MessageType> {
        if v == 1 {
            Some(MessageType::Open)
        } else if v == 2 {
            Some(MessageType::Update)
        } else if v == 3 {
            Some(MessageType::Notification)
        } else if v == 4 {
            Some(MessageType::Keepalive)
        } else if v == 5 {
            Some(MessageType::RouteRefresh)
        } else {
            None
        }
    }

    /// Decode the type octet.
    pub fn from_u8(v: u8) -> (r: Option<MessageType>)
        ensures
            r == MessageType::of_code(v),
    {
        match v {
            1 => Some(MessageType::Open),
            2 => Some(MessageType::Update),
            3 => Some(MessageType::Notification),
            4 => Some(MessageType::Keepalive),
            5 => Some(MessageType::RouteRefresh),
            _ => None,
        }
    }

    /// The type octet.
    pub fn as_u8(self) -> (r: u8)
        ensures
            r == self.code(),
    {
        match self {
            MessageType::Open => 1,
            MessageType::Update => 2,
            MessageType::Notification => 3,
            MessageType::Keepalive => 4,
            MessageType::RouteRefresh => 5,
        }
    }
}

/// Every message type survives its code, and every code its type.
pub proof fn lemma_message_type_round_trip(t: MessageType, v: u8)
    ensures
        MessageType::of_code(t.code()) == Some(t),
        MessageType::of_code(v) matches Some(u) ==> u.code() == v,
{
}

/// A prefix in NLRI form (§4.3): its length in bits, then the octets that hold them.
pub open spec fn nlri_octets(p: Prefix) -> Seq<u8> {
    seq![p.len] + p.net_octets()
}

/// Octet `i` behind the length octet of `s`, or zero from the `n`th on.
pub open spec fn net_octet(s: Seq<u8>, n: int, i: int) -> u8 {
    if i < n {
        s[1 + i]
    } else {
        0
    }
}

/// The IPv4 prefix in NLRI form at the front of `s`, and its length in octets.
pub open spec fn nlri_v4(s: Seq<u8>) -> Option<(Prefix, int)> {
    let n = (s[0] + 7) / 8;
    if s.len() == 0 || s[0] > 32 || s.len() < 1 + n {
        None
    } else {
        let octets = [
            net_octet(s, n, 0),
            net_octet(s, n, 1),
            net_octet(s, n, 2),
            net_octet(s, n, 3),
        ];
        Some(
            (
                Prefix { addr: net::masked(IpAddr::V4(Ipv4Addr { octets }), s[0]), len: s[0] },
                1 + n,
            ),
        )
    }
}

/// The IPv6 prefix in NLRI form at the front of `s`, and its length in octets.
pub open spec fn nlri_v6(s: Seq<u8>) -> Option<(Prefix, int)> {
    let n = (s[0] + 7) / 8;
    if s.len() == 0 || s[0] > 128 || s.len() < 1 + n {
        None
    } else {
        let octets = [
            net_octet(s, n, 0),
            net_octet(s, n, 1),
            net_octet(s, n, 2),
            net_octet(s, n, 3),
            net_octet(s, n, 4),
            net_octet(s, n, 5),
            net_octet(s, n, 6),
            net_octet(s, n, 7),
            net_octet(s, n, 8),
            net_octet(s, n, 9),
            net_octet(s, n, 10),
            net_octet(s, n, 11),
            net_octet(s, n, 12),
            net_octet(s, n, 13),
            net_octet(s, n, 14),
            net_octet(s, n, 15),
        ];
        Some(
            (
                Prefix { addr: net::masked(IpAddr::V6(Ipv6Addr { octets }), s[0]), len: s[0] },
                1 + n,
            ),
        )
    }
}

/// An IPv4 prefix in NLRI form; of any other prefix only the length.
pub open spec fn v4_octets(p: Prefix) -> Seq<u8> {
    if p.addr is V4 {
        nlri_octets(p)
    } else {
        seq![p.len]
    }
}

/// Append an IPv4 prefix in NLRI form; of any other prefix only the length is written.
pub fn encode_prefix(out: &mut Vec<u8>, prefix: &Prefix)
    ensures
        final(out)@ == old(out)@ + v4_octets(*prefix),
{
    if prefix.is_ipv4() {
        encode_prefix_any(out, prefix);
    } else {
        out.push(prefix.len);
    }
}

/// Append a prefix of either family in NLRI form.
pub fn encode_prefix_any(out: &mut Vec<u8>, prefix: &Prefix)
    ensures
        final(out)@ == old(out)@ + nlri_octets(*prefix),
{
    out.push(prefix.len);
    prefix.push_net_octets(out);
    assert(out@ =~= old(out)@ + nlri_octets(*prefix));
}

fn net_octet_of(s: &[u8], n: usize, i: usize) -> (r: u8)
    requires
        s@.len() >= 1 + n,
        i < 16,
    ensures
        r == net_octet(s@, n as int, i as int),
{
    if i < n {
        s[1 + i]
    } else {
        0
    }
}

/// Decode an IPv4 prefix in NLRI form from the front of `buf`, with the number of octets
/// it takes.
pub fn decode_prefix(buf: &[u8]) -> (r: Option<(Prefix, usize)>)
    ensures
        match r {
            Some((p, used)) => nlri_v4(buf@) == Some((p, used as int)) && 0 < used <= buf@.len()
                && p.wf(),
            None => nlri_v4(buf@) is None,
        },
{
    if buf.len() == 0 {
        return None;
    }
    let len = buf[0];
    if len > 32 {
        return None;
    }
    let n: usize = (len as usize + 7) / 8;
    if buf.len() < 1 + n {
        return None;
    }
    let octets = [
        net_octet_of(buf, n, 0),
        net_octet_of(buf, n, 1),
        net_octet_of(buf, n, 2),
        net_octet_of(buf, n, 3),
    ];
    assert(octets =~= [
        net_octet(buf@, n as int, 0),
        net_octet(buf@, n as int, 1),
        net_octet(buf@, n as int, 2),
        net_octet(buf@, n as int, 3),
    ]);
    match Prefix::checked(IpAddr::V4(Ipv4Addr { octets }), len) {
        Some(p) => Some((p, 1 + n)),
        None => None,
    }
}

/// Decode an IPv6 prefix in NLRI form from the front of `buf`, with the number of octets
/// it takes.
pub fn decode_prefix_v6(buf: &[u8]) -> (r: Option<(Prefix, usize)>)
    ensures
        match r {
            Some((p, used)) => nlri_v6(buf@) == Some((p, used as int)) && 0 < used <= buf@.len()
                && p.wf(),
            None => nlri_v6(buf@) is None,
        },
{
    if buf.len() == 0 {
        return None;
    }
    let len = buf[0];
    if len > 128 {
        return None;
    }
    let n: usize = (len as usize + 7) / 8;
    if buf.len() < 1 + n {
        return None;
    }
    let octets = [
        net_octet_of(buf, n, 0),
        net_octet_of(buf, n, 1),
        net_octet_of(buf, n, 2),
        net_octet_of(buf, n, 3),
        net_octet_of(buf, n, 4),
        net_octet_of(buf, n, 5),
        net_octet_of(buf, n, 6),
        net_octet_of(buf, n, 7),
        net_octet_of(buf, n, 8),
        net_octet_of(buf, n, 9),
        net_octet_of(buf, n, 10),
        net_octet_of(buf, n, 11),
        net_octet_of(buf, n, 12),
        net_octet_of(buf, n, 13),
        net_octet_of(buf, n, 14),
        net_octet_of(buf, n, 15),
    ];
    match Prefix::checked(IpAddr::V6(Ipv6Addr { octets }), len) {
        Some(p) => Some((p, 1 + n)),
        None => None,
    }
}

/// A prefix in NLRI form is read back, from in front of anything, where its host bits
/// are zero.
pub proof fn lemma_nlri_round_trip(p: Prefix, rest: Seq<u8>)
    requires
        p.wf(),
    ensures
        p.addr is V4 ==> nlri_v4(nlri_octets(p) + rest) == Some(
            (p, nlri_octets(p).len() as int),
        ),
        p.addr is V6 ==> nlri_v6(nlri_octets(p) + rest) == Some(
            (p, nlri_octets(p).len() as int),
        ),
{
    let s = nlri_octets(p) + rest;
    let n = (p.len + 7) / 8;
    assert(p.octet_count() == n);
    let m = net::masked(p.addr, p.len);
    match p.addr {
        IpAddr::V4(a) => {
            let octets = [
                net_octet(s, n, 0),
                net_octet(s, n, 1),
                net_octet(s, n, 2),
                net_octet(s, n, 3),
            ];
            assert forall|i: int| 0 <= i < 4 implies #[trigger] net_octet(s, n, i) == a.octets@[i] by {
                assert(m->V4_0.octets@[i] == net::kept(a.octets@[i], p.len, i));
            }
            assert(octets =~= a.octets);
        },
        IpAddr::V6(a) => {
            assert(s.take(nlri_octets(p).len() as int) =~= nlri_octets(p));
            lemma_nlri_v6_octets(p, a, s);
        },
    }
}

proof fn lemma_nlri_v6_octets(p: Prefix, a: Ipv6Addr, s: Seq<u8>)
    requires
        p.wf(),
        p.addr == IpAddr::V6(a),
        s.len() >= nlri_octets(p).len(),
        s.take(nlri_octets(p).len() as int) == nlri_octets(p),
    ensures
        nlri_v6(s) == Some((p, nlri_octets(p).len() as int)),
{
    let n = (p.len + 7) / 8;
    let m = net::masked(p.addr, p.len);
    let e = nlri_octets(p);
    assert forall|i: int| 0 <= i < e.len() implies s[i] == e[i] by {
        assert(s.take(e.len() as int)[i] == e[i]);
    }
    assert(s[0] == p.len);
    assert forall|i: int| 0 <= i < 16 implies #[trigger] net_octet(s, n, i) == a.octets@[i] by {
        assert(m->V6_0.octets@[i] == net::kept(a.octets@[i], p.len, i));
    }
    let octets = [
        net_octet(s, n, 0),
        net_octet(s, n, 1),
        net_octet(s, n, 2),
        net_octet(s, n, 3),
        net_octet(s, n, 4),
        net_octet(s, n, 5),
        net_octet(s, n, 6),
        net_octet(s, n, 7),
        net_octet(s, n, 8),
        net_octet(s, n, 9),
        net_octet(s, n, 10),
        net_octet(s, n, 11),
        net_octet(s, n, 12),
        net_octet(s, n, 13),
        net_octet(s, n, 14),
        net_octet(s, n, 15),
    ];
    assert(octets =~= a.octets);
}

impl Record for Prefix {
    /// The address family.
    type Ctx = u16;

    open spec fn carried(v: Prefix, c: u16) -> bool {
        v.wf() && (v.addr is V6) == (c == 2)
    }

    open spec fn octets(v: Prefix, c: u16) -> Seq<u8> {
        nlri_octets(v)
    }

    /// IPv6 for its family, IPv4 for any other.
    open spec fn front(s: Seq<u8>, c: u16) -> Option<(Prefix, int)> {
        if c == 2 {
            nlri_v6(s)
        } else {
            nlri_v4(s)
        }
    }

    proof fn lemma_front(v: Prefix, c: u16, rest: Seq<u8>) {
        lemma_nlri_round_trip(v, rest);
    }

    fn write(&self, out: &mut Vec<u8>, c: u16) {
        encode_prefix_any(out, self);
    }

    fn read(s: &[u8], c: u16) -> (r: Option<(Prefix, usize)>) {
        if c == AFI_IPV6 {
            decode_prefix_v6(s)
        } else {
            decode_prefix(s)
        }
    }
}

/// Which prefixes are read in NLRI form, and how: a length of at most 32 or 128 bits and as
/// many octets behind it as hold them, of which each bit up to the length counts.
pub proof fn lemma_which_prefixes_are_read(s: Seq<u8>, j: int)
    ensures
        nlri_v4(s) is Some <==> s.len() > 0 && s[0] <= 32 && 8 * (s.len() - 1) >= s[0],
        nlri_v6(s) is Some <==> s.len() > 0 && s[0] <= 128 && 8 * (s.len() - 1) >= s[0],
        nlri_v4(s) matches Some((p, used)) ==> p.addr is V4 && p.len == s[0] && 0 <= 8 * (used - 1)
            - s[0] < 8 && (0 <= j < 32 ==> net::bit_at(p.addr.bytes(), j) == (j < s[0]
            && net::bit_at(s.drop_first(), j))),
        nlri_v6(s) matches Some((p, used)) ==> p.addr is V6 && p.len == s[0] && 0 <= 8 * (used - 1)
            - s[0] < 8 && (0 <= j < 128 ==> net::bit_at(p.addr.bytes(), j) == (j < s[0]
            && net::bit_at(s.drop_first(), j))),
{
    let n = (s[0] + 7) / 8;
    let k = j / 8;
    assert(j == 8 * k + j % 8);
    let a = IpAddr::V4(
        Ipv4Addr {
            octets: [
                net_octet(s, n, 0),
                net_octet(s, n, 1),
                net_octet(s, n, 2),
                net_octet(s, n, 3),
            ],
        },
    );
    let b = IpAddr::V6(
        Ipv6Addr {
            octets: [
                net_octet(s, n, 0),
                net_octet(s, n, 1),
                net_octet(s, n, 2),
                net_octet(s, n, 3),
                net_octet(s, n, 4),
                net_octet(s, n, 5),
                net_octet(s, n, 6),
                net_octet(s, n, 7),
                net_octet(s, n, 8),
                net_octet(s, n, 9),
                net_octet(s, n, 10),
                net_octet(s, n, 11),
                net_octet(s, n, 12),
                net_octet(s, n, 13),
                net_octet(s, n, 14),
                net_octet(s, n, 15),
            ],
        },
    );
    if nlri_v4(s) is Some && 0 <= j < 32 {
        net::lemma_masking(a, s[0], j);
        assert(a.bytes()[k] == net_octet(s, n, k));
    }
    if nlri_v6(s) is Some && 0 <= j < 128 {
        net::lemma_masking(b, s[0], j);
        assert(b.bytes()[k] == net_octet(s, n, k));
    }
}

/// The message types by their code, and the number in a field that an AS number does not
/// fit.
pub proof fn lemma_codes(v: u8, asn: u32)
    ensures
        MessageType::of_code(v) == Some(MessageType::Open) <==> v == 1,
        MessageType::of_code(v) == Some(MessageType::Update) <==> v == 2,
        MessageType::of_code(v) == Some(MessageType::Notification) <==> v == 3,
        MessageType::of_code(v) == Some(MessageType::Keepalive) <==> v == 4,
        MessageType::of_code(v) == Some(MessageType::RouteRefresh) <==> v == 5,
        asn < 65536 ==> fitted(asn) == asn,
        asn >= 65536 ==> fitted(asn) == 23456,
{
}

} // verus!
