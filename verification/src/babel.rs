//! Babel (RFC 8966): packet framing, the TLV codec, the neighbour table and the
//! route table with the feasibility condition.
//!
//! A packet is a four-octet header (magic 42, version 2, body length) and a body of
//! TLVs. Updates are written in full; on receive, leading octets that an Update
//! omits are taken from the packet's default prefix (§4.5).

use vstd::prelude::*;
use vstd::string::*;

use crate::babel::tlv::{Tlv, TlvView};
use crate::net;
use crate::net::{IpAddr, Ipv4Addr, Ipv6Addr, Prefix};
use crate::text;
use crate::wire;

pub mod neighbor;
pub mod table;
pub mod tlv;

verus! {

/// The first octet of every packet (§4.2).
pub const MAGIC: u8 = 42;

/// The Babel version spoken here (§4.2).
pub const VERSION: u8 = 2;

/// The well-known UDP port (§4).
pub const PORT: u16 = 6696;

/// The octets of the link-local multicast group `ff02::1:6` (§4).
pub const MULTICAST: [u8; 16] = [0xff, 0x02, 0, 0, 0, 0, 0, 0, 0, 0, 0, 0, 0, 1, 0, 6];

/// The packet header length (§4.2).
pub const HEADER_LEN: usize = 4;

/// The metric of an unreachable route: a retraction (§3.2.5).
pub const METRIC_INFINITY: u16 = 0xFFFF;

/// A conventional Hello interval, in centiseconds.
pub const DEFAULT_HELLO_INTERVAL: u16 = 400;

/// Address encoding 0: no address.
pub const AE_WILDCARD: u8 = 0;

/// Address encoding 1: IPv4.
pub const AE_IPV4: u8 = 1;

/// Address encoding 2: IPv6.
pub const AE_IPV6: u8 = 2;

/// Address encoding 3: link-local IPv6, eight octets with `fe80::/64` implied.
pub const AE_IPV6_LL: u8 = 3;

/// A packet: the TLVs of its body, in order.
#[derive(Clone, PartialEq, Eq, Debug)]
pub struct Packet {
    /// The TLVs of the packet body.
    pub body: Vec<Tlv>,
}

/// Why a packet could not be decoded.
#[derive(Clone, Copy, PartialEq, Eq, Structural, Debug)]
pub enum DecodeError {
    /// Fewer octets than the header requires.
    TooShort,
    /// The first octet was not [`MAGIC`].
    BadMagic(u8),
    /// The second octet was not [`VERSION`].
    BadVersion(u8),
    /// The stated body length runs past the buffer.
    BadBodyLength,
    /// A TLV runs past the body.
    Malformed,
}

impl DecodeError {
    /// The text.
    pub open spec fn text(self) -> Seq<char> {
        match self {
            DecodeError::TooShort => "packet shorter than required"@,
            DecodeError::BadMagic(m) => "bad magic "@ + text::decimal(m as nat)
                + " (expected 42)"@,
            DecodeError::BadVersion(v) => "unsupported version "@ + text::decimal(v as nat),
            DecodeError::BadBodyLength => "body length runs past the buffer"@,
            DecodeError::Malformed => "malformed TLV body"@,
        }
    }

    /// The text.
    pub fn to_string(&self) -> (r: String)
        ensures
            r@ == self.text(),
    {
        let mut out = String::new();
        match self {
            DecodeError::TooShort => out.append("packet shorter than required"),
            DecodeError::BadMagic(m) => {
                out.append("bad magic ");
                text::push_decimal(&mut out, *m as u32);
                out.append(" (expected 42)");
            },
            DecodeError::BadVersion(v) => {
                out.append("unsupported version ");
                text::push_decimal(&mut out, *v as u32);
            },
            DecodeError::BadBodyLength => out.append("body length runs past the buffer"),
            DecodeError::Malformed => out.append("malformed TLV body"),
        }
        assert(out@ =~= self.text());
        out
    }
}

impl View for Packet {
    type V = Seq<TlvView>;

    open spec fn view(&self) -> Seq<TlvView> {
        wire::views(self.body@)
    }
}

impl Default for Packet {
    /// A packet without TLVs.
    fn default() -> (r: Packet)
        ensures
            r@ == Seq::<TlvView>::empty(),
    {
        let r = Packet { body: Vec::new() };
        assert(r@ =~= Seq::<TlvView>::empty());
        r
    }
}

/// The octets of a run of TLVs.
pub open spec fn body_octets(tlvs: Seq<TlvView>) -> Seq<u8>
    decreases tlvs.len(),
{
    if tlvs.len() == 0 {
        Seq::empty()
    } else {
        tlvs[0].octets() + body_octets(tlvs.drop_first())
    }
}

/// The octets of a packet: header, with the body length modulo 65536, and body.
pub open spec fn packet_octets(tlvs: Seq<TlvView>) -> Seq<u8> {
    let body = body_octets(tlvs);
    seq![42u8, 2u8] + wire::be16((body.len() % 65536) as u16) + body
}

/// The TLV at the front of a body, the parser state behind it and its length in
/// octets, or `None` where it runs past the body. A TLV whose type is not known, or
/// whose contents do not parse, is kept as it stands.
#[verifier::opaque]
pub open spec fn first_tlv(body: Seq<u8>, ctx: Compress) -> Option<(TlvView, Compress, int)> {
    if body[0] == 0 {
        Some((TlvView::Pad1, ctx, 1))
    } else if body.len() < 2 || body.len() < 2 + body[1] {
        None
    } else {
        let contents = body.subrange(2, 2 + body[1]);
        match tlv::parsed(body[0], contents, ctx) {
            Some((t, ctx2)) => Some((t, ctx2, 2 + body[1])),
            None => Some(
                (TlvView::Unknown { tlv_type: body[0], body: contents }, ctx, 2 + body[1]),
            ),
        }
    }
}

/// The TLVs of a body, read from the parser state `ctx` on, or `None` where one of
/// them runs past the body.
pub open spec fn body_tlvs(body: Seq<u8>, ctx: Compress) -> Option<Seq<TlvView>>
    decreases body.len(),
{
    if body.len() == 0 {
        Some(Seq::empty())
    } else {
        match first_tlv(body, ctx) {
            None => None,
            Some((t, ctx2, used)) => {
                if 0 < used <= body.len() {
                    match body_tlvs(wire::from_at(body, used), ctx2) {
                        None => None,
                        Some(rest) => Some(seq![t] + rest),
                    }
                } else {
                    None
                }
            },
        }
    }
}

/// What a datagram decodes to.
pub open spec fn packet_decoded(buf: Seq<u8>) -> Result<Seq<TlvView>, DecodeError> {
    if buf.len() < 4 {
        Err(DecodeError::TooShort)
    } else if buf[0] != 42 {
        Err(DecodeError::BadMagic(buf[0]))
    } else if buf[1] != 2 {
        Err(DecodeError::BadVersion(buf[1]))
    } else if 4 + wire::u16_at(buf, 2) > buf.len() {
        Err(DecodeError::BadBodyLength)
    } else {
        match body_tlvs(buf.subrange(4, 4 + wire::u16_at(buf, 2)), no_default()) {
            Some(tlvs) => Ok(tlvs),
            None => Err(DecodeError::Malformed),
        }
    }
}

impl Packet {
    /// A packet carrying `body`.
    pub fn new(body: Vec<Tlv>) -> (r: Packet)
        ensures
            r.body == body,
    {
        Packet { body }
    }

    /// Serialise the packet.
    pub fn encode(&self) -> (r: Vec<u8>)
        ensures
            r@ == packet_octets(self@),
    {
        let mut body: Vec<u8> = Vec::new();
        let ghost all = self@;
        let mut i: usize = 0;
        assert(all.skip(0) =~= all);
        assert(body@ + body_octets(all) =~= body_octets(all));
        while i < self.body.len()
            invariant
                i <= self.body.len(),
                all == wire::views(self.body@),
                body@ + body_octets(all.skip(i as int)) == body_octets(all),
            decreases self.body.len() - i,
        {
            let ghost rest = all.skip(i as int);
            let ghost before = body@;
            self.body[i].encode(&mut body);
            assert(rest.drop_first() =~= all.skip(i + 1));
            assert(body@ + body_octets(all.skip(i + 1)) =~= before + body_octets(rest));
            i = i + 1;
        }
        assert(body@ =~= body_octets(all));
        let mut out: Vec<u8> = Vec::new();
        out.push(MAGIC);
        out.push(VERSION);
        wire::push_u16(&mut out, (body.len() % 65536) as u16);
        wire::push_all(&mut out, body.as_slice());
        assert(out@ =~= packet_octets(self@));
        out
    }

    /// Parse and validate a datagram.
    pub fn decode(buf: &[u8]) -> (r: Result<Packet, DecodeError>)
        ensures
            match r {
                Ok(p) => packet_decoded(buf@) == Ok::<Seq<TlvView>, DecodeError>(p@),
                Err(e) => packet_decoded(buf@) == Err::<Seq<TlvView>, DecodeError>(e),
            },
    {
        if buf.len() < HEADER_LEN {
            return Err(DecodeError::TooShort);
        }
        if buf[0] != MAGIC {
            return Err(DecodeError::BadMagic(buf[0]));
        }
        if buf[1] != VERSION {
            return Err(DecodeError::BadVersion(buf[1]));
        }
        let body_len: usize = wire::read_u16(buf, 2) as usize;
        if HEADER_LEN + body_len > buf.len() {
            return Err(DecodeError::BadBodyLength);
        }
        let body = &buf[HEADER_LEN..HEADER_LEN + body_len];
        let mut ctx = Compress::new();
        let mut tlvs: Vec<Tlv> = Vec::new();
        let mut i: usize = 0;
        let ghost whole = body_tlvs(body@, no_default());
        assert(wire::from_at(body@, 0) =~= body@);
        assert(wire::views(tlvs@) =~= Seq::empty());
        proof {
            if let Some(w) = whole {
                assert(Seq::empty() + w =~= w);
            }
        }
        while i < body.len()
            invariant
                i <= body.len(),
                whole == (match body_tlvs(wire::from_at(body@, i as int), ctx) {
                    Some(rest) => Some(wire::views(tlvs@) + rest),
                    None => None::<Seq<TlvView>>,
                }),
                packet_decoded(buf@) == (match whole {
                    Some(w) => Ok::<Seq<TlvView>, DecodeError>(w),
                    None => Err::<Seq<TlvView>, DecodeError>(DecodeError::Malformed),
                }),
            decreases body.len() - i,
        {
            broadcast use wire::lemma_views_push;

            let ghost rest = wire::from_at(body@, i as int);
            let ghost done = wire::views(tlvs@);
            match read_tlv(&body[i..body.len()], &mut ctx) {
                None => {
                    return Err(DecodeError::Malformed);
                },
                Some((t, used)) => {
                    assert(wire::from_at(rest, used as int) =~= wire::from_at(body@, i + used));
                    proof {
                        lemma_shift(done, t@, body_tlvs(wire::from_at(body@, i + used), ctx));
                    }
                    tlvs.push(t);
                    i = i + used;
                },
            }
        }
        proof {
            assert(wire::views(tlvs@) + Seq::empty() =~= wire::views(tlvs@));
        }
        Ok(Packet { body: tlvs })
    }
}

/// Read the TLV at the front of `body`, with the number of octets it takes.
fn read_tlv(body: &[u8], ctx: &mut Compress) -> (r: Option<(Tlv, usize)>)
    requires
        body@.len() > 0,
    ensures
        match r {
            Some((t, used)) => {
                &&& first_tlv(body@, *old(ctx)) == Some((t@, *final(ctx), used as int))
                &&& 0 < used <= body@.len()
            },
            None => first_tlv(body@, *old(ctx)) is None,
        },
{
    reveal(first_tlv);
    let t = body[0];
    if t == tlv::TYPE_PAD1 {
        return Some((Tlv::Pad1, 1));
    }
    if body.len() < 2 {
        return None;
    }
    let end: usize = 2 + body[1] as usize;
    if end > body.len() {
        return None;
    }
    match Tlv::decode(t, &body[2..end], ctx) {
        Some(v) => Some((v, end)),
        None => Some((Tlv::Unknown { tlv_type: t, body: wire::copy_of(&body[2..end]) }, end)),
    }
}

/// Moving the first of the remaining TLVs to the end of those already read.
proof fn lemma_shift(done: Seq<TlvView>, t: TlvView, rest: Option<Seq<TlvView>>)
    ensures
        rest matches Some(r) ==> done + (seq![t] + r) == done.push(t) + r,
{
    if let Some(r) = rest {
        assert(done + (seq![t] + r) =~= done.push(t) + r);
    }
}

/// The per-packet state of Update decompression: the last default prefix of each
/// family (§4.5).
#[derive(Clone, Copy, Debug)]
pub struct Compress {
    pub default_v4: [u8; 4],
    pub default_v6: [u8; 16],
}

/// The state at the start of a packet: both defaults are zero.
pub open spec fn no_default() -> Compress {
    Compress {
        default_v4: [0, 0, 0, 0],
        default_v6: [0, 0, 0, 0, 0, 0, 0, 0, 0, 0, 0, 0, 0, 0, 0, 0],
    }
}

impl Compress {
    /// The state with `prefix` as the default of its family.
    pub open spec fn with_default(self, prefix: Prefix) -> Compress {
        match prefix.addr {
            IpAddr::V4(a) => Compress { default_v4: a.octets, ..self },
            IpAddr::V6(a) => Compress { default_v6: a.octets, ..self },
        }
    }

    /// The octets of the default prefix of the family of `p`.
    pub open spec fn default_octets(self, p: Prefix) -> Seq<u8> {
        if p.addr is V4 {
            self.default_v4@
        } else {
            self.default_v6@
        }
    }

    pub(crate) fn new() -> (r: Compress)
        ensures
            r == no_default(),
    {
        Compress {
            default_v4: [0, 0, 0, 0],
            default_v6: [0, 0, 0, 0, 0, 0, 0, 0, 0, 0, 0, 0, 0, 0, 0, 0],
        }
    }

    pub(crate) fn set_default(&mut self, prefix: &Prefix)
        ensures
            *final(self) == old(self).with_default(*prefix),
    {
        match prefix.addr {
            IpAddr::V4(a) => {
                self.default_v4 = a.octets;
            },
            IpAddr::V6(a) => {
                self.default_v6 = a.octets;
            },
        }
    }
}

/// The address encoding under which an address is written.
pub open spec fn ae_of(ip: IpAddr) -> u8 {
    match ip {
        IpAddr::V4(_) => 1,
        IpAddr::V6(a) => if a.link_local() {
            3
        } else {
            2
        },
    }
}

/// The octets under which an address is written: the low eight of a link-local one.
pub open spec fn address_octets(ip: IpAddr) -> Seq<u8> {
    if ae_of(ip) == 3 {
        ip.bytes().subrange(8, 16)
    } else {
        ip.bytes()
    }
}

/// The address that encoding `ae` gives to the octets at the front of `s`.
#[verifier::opaque]
pub open spec fn address_read(ae: u8, s: Seq<u8>) -> Option<IpAddr> {
    if ae == 1 && s.len() >= 4 {
        Some(net::v4_at(s, 0))
    } else if ae == 2 && s.len() >= 16 {
        Some(net::v6_at(s, 0))
    } else if ae == 3 && s.len() >= 8 {
        Some(
            IpAddr::V6(
                Ipv6Addr {
                    octets: [
                        0xfe,
                        0x80,
                        0,
                        0,
                        0,
                        0,
                        0,
                        0,
                        s[0],
                        s[1],
                        s[2],
                        s[3],
                        s[4],
                        s[5],
                        s[6],
                        s[7],
                    ],
                },
            ),
        )
    } else {
        None
    }
}

/// The address encoding of a prefix.
pub open spec fn prefix_ae(p: Prefix) -> u8 {
    if p.addr is V4 {
        1
    } else {
        2
    }
}

/// Octet `i` of a prefix's address: from the default where it is omitted, from the
/// wire up to the `total` octets that the length asks for, zero behind them.
pub open spec fn filled(i: int, omitted: int, total: int, default: Seq<u8>, s: Seq<u8>) -> u8 {
    if i < omitted {
        default[i]
    } else if i < total {
        s[i - omitted]
    } else {
        0
    }
}

/// The prefix of encoding `ae` and length `plen` whose first `omitted` octets are
/// those of the default prefix and whose other octets stand at the front of `s`.
#[verifier::opaque]
pub open spec fn prefix_read(ae: u8, plen: u8, omitted: u8, s: Seq<u8>, ctx: Compress) -> Option<
    Prefix,
> {
    let total = (plen + 7) / 8;
    let o = omitted as int;
    if o > total || s.len() < total - o || total > 16 {
        None
    } else if ae == 1 && o <= 4 {
        let d = ctx.default_v4@;
        net::prefix_of(
            IpAddr::V4(
                Ipv4Addr {
                    octets: [
                        filled(0, o, total, d, s),
                        filled(1, o, total, d, s),
                        filled(2, o, total, d, s),
                        filled(3, o, total, d, s),
                    ],
                },
            ),
            plen,
        )
    } else if ae == 2 {
        let d = ctx.default_v6@;
        net::prefix_of(
            IpAddr::V6(
                Ipv6Addr {
                    octets: [
                        filled(0, o, total, d, s),
                        filled(1, o, total, d, s),
                        filled(2, o, total, d, s),
                        filled(3, o, total, d, s),
                        filled(4, o, total, d, s),
                        filled(5, o, total, d, s),
                        filled(6, o, total, d, s),
                        filled(7, o, total, d, s),
                        filled(8, o, total, d, s),
                        filled(9, o, total, d, s),
                        filled(10, o, total, d, s),
                        filled(11, o, total, d, s),
                        filled(12, o, total, d, s),
                        filled(13, o, total, d, s),
                        filled(14, o, total, d, s),
                        filled(15, o, total, d, s),
                    ],
                },
            ),
            plen,
        )
    } else {
        None
    }
}

/// Append an address and return its encoding.
pub(crate) fn write_address(out: &mut Vec<u8>, ip: IpAddr) -> (ae: u8)
    ensures
        final(out)@ == old(out)@ + address_octets(ip),
        ae == ae_of(ip),
{
    match ip {
        IpAddr::V4(a) => {
            wire::push_all(out, a.octets.as_slice());
            AE_IPV4
        },
        IpAddr::V6(a) => {
            if a.is_link_local() {
                wire::push_all(out, &a.octets.as_slice()[8..16]);
                AE_IPV6_LL
            } else {
                wire::push_all(out, a.octets.as_slice());
                AE_IPV6
            }
        },
    }
}

/// Read an address of encoding `ae` from the front of `buf`.
pub(crate) fn read_address(ae: u8, buf: &[u8]) -> (r: Option<IpAddr>)
    ensures
        r == address_read(ae, buf@),
{
    reveal(address_read);
    if ae == AE_IPV4 {
        if buf.len() < 4 {
            return None;
        }
        Some(net::read_v4(buf, 0))
    } else if ae == AE_IPV6 {
        if buf.len() < 16 {
            return None;
        }
        Some(net::read_v6(buf, 0))
    } else if ae == AE_IPV6_LL {
        if buf.len() < 8 {
            return None;
        }
        let octets = [
            0xfe,
            0x80,
            0,
            0,
            0,
            0,
            0,
            0,
            buf[0],
            buf[1],
            buf[2],
            buf[3],
            buf[4],
            buf[5],
            buf[6],
            buf[7],
        ];
        assert(octets =~= address_read(ae, buf@)->0->V6_0.octets);
        Some(IpAddr::V6(Ipv6Addr { octets }))
    } else {
        None
    }
}

/// Append a prefix in full and return its encoding and length.
pub(crate) fn write_prefix(out: &mut Vec<u8>, prefix: &Prefix) -> (r: (u8, u8))
    ensures
        final(out)@ == old(out)@ + prefix.net_octets(),
        r == (prefix_ae(*prefix), prefix.len),
{
    prefix.push_net_octets(out);
    if prefix.is_ipv4() {
        (AE_IPV4, prefix.len)
    } else {
        (AE_IPV6, prefix.len)
    }
}

fn fill(i: usize, omitted: usize, total: usize, default: &[u8], s: &[u8]) -> (r: u8)
    requires
        i < default@.len(),
        omitted <= total,
        s@.len() >= total - omitted,
    ensures
        r == filled(i as int, omitted as int, total as int, default@, s@),
{
    if i < omitted {
        default[i]
    } else if i < total {
        s[i - omitted]
    } else {
        0
    }
}

/// Read a prefix of encoding `ae` and length `plen` that omits `omitted` octets.
pub(crate) fn read_prefix(ae: u8, plen: u8, omitted: u8, buf: &[u8], ctx: &Compress) -> (r: Option<
    Prefix,
>)
    ensures
        r == prefix_read(ae, plen, omitted, buf@, *ctx),
{
    reveal(prefix_read);
    let total: usize = (plen as usize + 7) / 8;
    let o: usize = omitted as usize;
    if o > total || buf.len() < total - o || total > 16 {
        return None;
    }
    if ae == AE_IPV4 && o <= 4 {
        let d = ctx.default_v4.as_slice();
        let octets = [
            fill(0, o, total, d, buf),
            fill(1, o, total, d, buf),
            fill(2, o, total, d, buf),
            fill(3, o, total, d, buf),
        ];
        let addr = IpAddr::V4(Ipv4Addr { octets });
        assert(octets =~= [
            filled(0, o as int, total as int, d@, buf@),
            filled(1, o as int, total as int, d@, buf@),
            filled(2, o as int, total as int, d@, buf@),
            filled(3, o as int, total as int, d@, buf@),
        ]);
        Prefix::checked(addr, plen)
    } else if ae == AE_IPV6 {
        let d = ctx.default_v6.as_slice();
        let octets = [
            fill(0, o, total, d, buf),
            fill(1, o, total, d, buf),
            fill(2, o, total, d, buf),
            fill(3, o, total, d, buf),
            fill(4, o, total, d, buf),
            fill(5, o, total, d, buf),
            fill(6, o, total, d, buf),
            fill(7, o, total, d, buf),
            fill(8, o, total, d, buf),
            fill(9, o, total, d, buf),
            fill(10, o, total, d, buf),
            fill(11, o, total, d, buf),
            fill(12, o, total, d, buf),
            fill(13, o, total, d, buf),
            fill(14, o, total, d, buf),
            fill(15, o, total, d, buf),
        ];
        let addr = IpAddr::V6(Ipv6Addr { octets });
        Prefix::checked(addr, plen)
    } else {
        None
    }
}

/// A TLV that the wire can carry is read back from the front of any body, in any
/// parser state.
pub proof fn lemma_first_tlv_back(t: TlvView, rest: Seq<u8>, ctx: Compress)
    requires
        t.carried(),
    ensures
        first_tlv(t.octets() + rest, ctx) matches Some((u, _, used)) && u == t && used
            == t.octets().len(),
{
    reveal(first_tlv);
    let s = t.octets() + rest;
    match t {
        TlvView::Pad1 => {},
        TlvView::Unknown { tlv_type, body } => {
            tlv::lemma_parsed_types(tlv_type, body, ctx);
            assert(s.subrange(2, 2 + s[1]) =~= body);
        },
        _ => {
            tlv::lemma_tlv_read_back(t, ctx);
            assert(s.subrange(2, 2 + s[1]) =~= t.contents());
        },
    }
}

/// A run of TLVs that the wire can carry is read back from its own octets.
pub proof fn lemma_body_round_trip(tlvs: Seq<TlvView>, ctx: Compress)
    requires
        forall|i: int| 0 <= i < tlvs.len() ==> (#[trigger] tlvs[i]).carried(),
    ensures
        body_tlvs(body_octets(tlvs), ctx) == Some(tlvs),
    decreases tlvs.len(),
{
    let s = body_octets(tlvs);
    if tlvs.len() > 0 {
        let t = tlvs[0];
        let rest = body_octets(tlvs.drop_first());
        lemma_first_tlv_back(t, rest, ctx);
        let (u, ctx2, used) = first_tlv(s, ctx)->0;
        assert(t.octets().len() > 0);
        assert(wire::from_at(s, used) =~= rest);
        assert forall|i: int| 0 <= i < tlvs.drop_first().len() implies (
        #[trigger] tlvs.drop_first()[i]).carried() by {
            assert(tlvs.drop_first()[i] == tlvs[i + 1]);
        }
        lemma_body_round_trip(tlvs.drop_first(), ctx2);
        assert(seq![t] + tlvs.drop_first() =~= tlvs);
    } else {
        assert(tlvs =~= Seq::empty());
    }
}

/// Decoding an encoded packet gives the packet back, whatever trailer stands behind it,
/// for every sequence of TLVs that the wire can carry and whose octets fit the
/// body-length field.
pub proof fn lemma_packet_round_trip(tlvs: Seq<TlvView>, trailer: Seq<u8>)
    requires
        forall|i: int| 0 <= i < tlvs.len() ==> (#[trigger] tlvs[i]).carried(),
        body_octets(tlvs).len() <= 65535,
    ensures
        packet_decoded(packet_octets(tlvs) + trailer) == Ok::<Seq<TlvView>, DecodeError>(tlvs),
{
    let s = packet_octets(tlvs) + trailer;
    let n = body_octets(tlvs).len() as int;
    assert(wire::u16_at(s, 2) == n);
    assert(s.subrange(4, 4 + n) =~= body_octets(tlvs));
    lemma_body_round_trip(tlvs, no_default());
}

/// A TLV that is not understood keeps its octets: written again, it is what was read.
pub proof fn lemma_unknown_is_verbatim(body: Seq<u8>, ctx: Compress)
    requires
        body.len() >= 2,
        body[0] != 0,
        body.len() >= 2 + body[1],
    ensures
        first_tlv(body, ctx) matches Some((t, _, used)) && (t is Unknown ==> t.octets()
            == body.subrange(0, used)),
{
    reveal(first_tlv);
    tlv::lemma_parsed_types(body[0], body.subrange(2, 2 + body[1]), ctx);
    let (t, ctx2, used) = first_tlv(body, ctx)->0;
    if t is Unknown {
        assert(t.octets() =~= body.subrange(0, used));
    }
}

/// A prefix without its first `omitted` octets is read back where the default prefix of
/// its family begins with them.
pub proof fn lemma_prefix_read_back(p: Prefix, omitted: u8, ctx: Compress)
    requires
        p.wf(),
        omitted <= p.octet_count(),
        forall|i: int|
            0 <= i < omitted ==> #[trigger] p.addr.bytes()[i] == ctx.default_octets(p)[i],
    ensures
        prefix_read(
            prefix_ae(p),
            p.len,
            omitted,
            wire::from_at(p.net_octets(), omitted as int),
            ctx,
        ) == Some(p),
        p.net_octets().len() <= 16,
{
    let s = wire::from_at(p.net_octets(), omitted as int);
    match p.addr {
        IpAddr::V4(a) => {
            lemma_filled_v4(p, a, omitted as int, ctx.default_v4@, s);
            reveal(prefix_read);
        },
        IpAddr::V6(a) => {
            lemma_filled_v6(p, a, omitted as int, ctx.default_v6@, s);
            reveal(prefix_read);
        },
    }
}

proof fn lemma_filled_v4(p: Prefix, a: Ipv4Addr, o: int, d: Seq<u8>, s: Seq<u8>)
    requires
        p.wf(),
        p.addr == IpAddr::V4(a),
        0 <= o <= p.octet_count(),
        s == wire::from_at(p.net_octets(), o),
        forall|i: int| 0 <= i < o ==> a.octets@[i] == d[i],
    ensures
        ({
            let total = (p.len + 7) / 8;
            [
                filled(0, o, total, d, s),
                filled(1, o, total, d, s),
                filled(2, o, total, d, s),
                filled(3, o, total, d, s),
            ] == a.octets
        }),
{
    let total = (p.len + 7) / 8;
    let m = net::masked(p.addr, p.len)->V4_0.octets;
    assert forall|i: int| 0 <= i < 4 implies #[trigger] filled(i, o, total, d, s)
        == a.octets@[i] by {
        assert(m@[i] == net::kept(a.octets@[i], p.len, i));
    }
    let r = [
        filled(0, o, total, d, s),
        filled(1, o, total, d, s),
        filled(2, o, total, d, s),
        filled(3, o, total, d, s),
    ];
    assert(r =~= a.octets);
}

proof fn lemma_filled_v6(p: Prefix, a: Ipv6Addr, o: int, d: Seq<u8>, s: Seq<u8>)
    requires
        p.wf(),
        p.addr == IpAddr::V6(a),
        0 <= o <= p.octet_count(),
        s == wire::from_at(p.net_octets(), o),
        forall|i: int| 0 <= i < o ==> a.octets@[i] == d[i],
    ensures
        ({
            let total = (p.len + 7) / 8;
            [
                filled(0, o, total, d, s),
                filled(1, o, total, d, s),
                filled(2, o, total, d, s),
                filled(3, o, total, d, s),
                filled(4, o, total, d, s),
                filled(5, o, total, d, s),
                filled(6, o, total, d, s),
                filled(7, o, total, d, s),
                filled(8, o, total, d, s),
                filled(9, o, total, d, s),
                filled(10, o, total, d, s),
                filled(11, o, total, d, s),
                filled(12, o, total, d, s),
                filled(13, o, total, d, s),
                filled(14, o, total, d, s),
                filled(15, o, total, d, s),
            ] == a.octets
        }),
{
    let total = (p.len + 7) / 8;
    let m = net::masked(p.addr, p.len)->V6_0.octets;
    assert forall|i: int| 0 <= i < 16 implies #[trigger] filled(i, o, total, d, s)
        == a.octets@[i] by {
        assert(m@[i] == net::kept(a.octets@[i], p.len, i));
    }
    let r = [
        filled(0, o, total, d, s),
        filled(1, o, total, d, s),
        filled(2, o, total, d, s),
        filled(3, o, total, d, s),
        filled(4, o, total, d, s),
        filled(5, o, total, d, s),
        filled(6, o, total, d, s),
        filled(7, o, total, d, s),
        filled(8, o, total, d, s),
        filled(9, o, total, d, s),
        filled(10, o, total, d, s),
        filled(11, o, total, d, s),
        filled(12, o, total, d, s),
        filled(13, o, total, d, s),
        filled(14, o, total, d, s),
        filled(15, o, total, d, s),
    ];
    assert(r =~= a.octets);
}

/// An Update may omit the octets that its prefix shares with the last default prefix of
/// its family: they come back from the default.
pub proof fn lemma_compression_is_transparent(
    p: Prefix,
    default: Prefix,
    omitted: u8,
    ctx: Compress,
)
    requires
        p.wf(),
        (p.addr is V4) == (default.addr is V4),
        omitted <= p.octet_count(),
        forall|i: int|
            0 <= i < omitted ==> #[trigger] p.addr.bytes()[i] == default.addr.bytes()[i],
    ensures
        prefix_read(
            prefix_ae(p),
            p.len,
            omitted,
            wire::from_at(p.net_octets(), omitted as int),
            ctx.with_default(default),
        ) == Some(p),
{
    lemma_prefix_read_back(p, omitted, ctx.with_default(default));
}

/// Why a datagram is refused: it is shorter than the header, does not begin with 42 and 2,
/// or is shorter than its header tells; in that order. What stands behind the length that
/// the header tells does not count.
pub proof fn lemma_why_a_packet_is_refused(buf: Seq<u8>, trailer: Seq<u8>)
    ensures
        ({
            let r = packet_decoded(buf);
            let n = buf[2] * 256 + buf[3];
            &&& buf.len() < 4 <==> r == Err::<Seq<TlvView>, DecodeError>(DecodeError::TooShort)
            &&& buf.len() >= 4 && buf[0] != 42 ==> r == Err::<Seq<TlvView>, DecodeError>(
                DecodeError::BadMagic(buf[0]),
            )
            &&& buf.len() >= 4 && buf[0] == 42 && buf[1] != 2 ==> r == Err::<
                Seq<TlvView>,
                DecodeError,
            >(DecodeError::BadVersion(buf[1]))
            &&& buf.len() >= 4 && buf[0] == 42 && buf[1] == 2 && buf.len() < 4 + n ==> r == Err::<
                Seq<TlvView>,
                DecodeError,
            >(DecodeError::BadBodyLength)
            &&& buf.len() >= 4 && buf[0] == 42 && buf[1] == 2 && buf.len() >= 4 + n ==> packet_decoded(
                buf + trailer,
            ) == r && (r is Ok || r == Err::<Seq<TlvView>, DecodeError>(DecodeError::Malformed))
        }),
{
    let n = buf[2] * 256 + buf[3];
    if buf.len() >= 4 + n {
        assert((buf + trailer).subrange(4, 4 + n) =~= buf.subrange(4, 4 + n));
    }
}

/// TLVs are read one behind the other: a zero octet is one of its own, a TLV that cannot be
/// parsed is kept as it stands and changes nothing for those behind it, and one that runs
/// past the end spoils the body.
pub proof fn lemma_one_tlv_at_a_time(t: u8, c: Seq<u8>, rest: Seq<u8>, ctx: Compress)
    requires
        c.len() <= 255,
        t != 0,
    ensures
        body_tlvs(Seq::empty(), ctx) == Some(Seq::<TlvView>::empty()),
        body_tlvs(seq![0u8] + rest, ctx) == (match body_tlvs(rest, ctx) {
            Some(ts) => Some(seq![TlvView::Pad1] + ts),
            None => None,
        }),
        tlv::parsed(t, c, ctx) matches Some((v, after)) ==> body_tlvs(
            seq![t, c.len() as u8] + c + rest,
            ctx,
        ) == (match body_tlvs(rest, after) {
            Some(ts) => Some(seq![v] + ts),
            None => None,
        }),
        tlv::parsed(t, c, ctx) is None ==> body_tlvs(seq![t, c.len() as u8] + c + rest, ctx) == (
        match body_tlvs(rest, ctx) {
            Some(ts) => Some(seq![TlvView::Unknown { tlv_type: t, body: c }] + ts),
            None => None,
        }),
        body_tlvs(seq![t], ctx) is None,
        rest.len() < c.len() ==> body_tlvs(seq![t, c.len() as u8] + rest, ctx) is None,
{
    reveal(first_tlv);
    let z = seq![0u8] + rest;
    assert(wire::from_at(z, 1) =~= rest);
    let s = seq![t, c.len() as u8] + c + rest;
    assert(s.subrange(2, 2 + s[1]) =~= c);
    assert(wire::from_at(s, 2 + s[1]) =~= rest);
    assert(body_tlvs(Seq::empty(), ctx) =~= Some(Seq::<TlvView>::empty()));
}

/// Which addresses are read: four octets under encoding 1, sixteen under 2, and under 3
/// eight, behind `fe80` and six zeros.
pub proof fn lemma_which_addresses_are_read(ae: u8, s: Seq<u8>, i: int)
    ensures
        address_read(ae, s) is Some <==> (ae == 1 && s.len() >= 4) || (ae == 2 && s.len() >= 16) || (
        ae == 3 && s.len() >= 8),
        address_read(ae, s) matches Some(a) ==> {
            &&& a is V4 <==> ae == 1
            &&& ae == 1 && 0 <= i < 4 ==> a.bytes()[i] == s[i]
            &&& ae == 2 && 0 <= i < 16 ==> a.bytes()[i] == s[i]
            &&& ae == 3 && 8 <= i < 16 ==> a.bytes()[i] == s[i - 8]
            &&& ae == 3 && 2 <= i < 8 ==> a.bytes()[i] == 0
            &&& ae == 3 ==> a.bytes()[0] == 0xfe && a.bytes()[1] == 0x80
        },
{
    reveal(address_read);
}

/// Which prefixes are read, and how: the length fits the family, no more octets are left
/// out than the length asks for, and the others are there. Each bit up to the length comes
/// from the default prefix of the family where its octet is left out, and from the wire
/// otherwise; all others are zero.
pub proof fn lemma_which_prefixes_are_read(
    ae: u8,
    plen: u8,
    omitted: u8,
    s: Seq<u8>,
    ctx: Compress,
    j: int,
)
    ensures
        ({
            let total = (plen + 7) / 8;
            prefix_read(ae, plen, omitted, s, ctx) is Some <==> ((ae == 1 && plen <= 32) || (ae == 2
                && plen <= 128)) && omitted <= total && s.len() >= total - omitted
        }),
        prefix_read(ae, plen, omitted, s, ctx) matches Some(p) ==> {
            let bits = p.addr.bytes();
            let d = if ae == 1 {
                ctx.default_v4@
            } else {
                ctx.default_v6@
            };
            &&& p.len == plen
            &&& p.addr is V4 <==> ae == 1
            &&& 0 <= j < omitted * 8 && j < plen ==> net::bit_at(bits, j) == net::bit_at(d, j)
            &&& omitted * 8 <= j < plen ==> net::bit_at(bits, j) == net::bit_at(s, j - omitted * 8)
            &&& plen <= j < p.addr.width() ==> !net::bit_at(bits, j)
        },
{
    reveal(prefix_read);
    if let Some(p) = prefix_read(ae, plen, omitted, s, ctx) {
        let total = (plen + 7) / 8;
        let o = omitted as int;
        let d = if ae == 1 {
            ctx.default_v4@
        } else {
            ctx.default_v6@
        };
        let a = lemma_unmasked(ae, plen, omitted, s, ctx);
        if 0 <= j < p.addr.width() {
            net::lemma_masking(a, plen, j);
            let k = j / 8;
            assert(j == 8 * k + j % 8);
            assert(a.bytes()[k] == filled(k, o, total, d, s));
            if j < plen {
                assert(k < total);
                if k >= o {
                    assert((j - o * 8) / 8 == k - o && (j - o * 8) % 8 == j % 8);
                }
            }
        }
    }
}

proof fn lemma_unmasked(ae: u8, plen: u8, omitted: u8, s: Seq<u8>, ctx: Compress) -> (a: IpAddr)
    requires
        prefix_read(ae, plen, omitted, s, ctx) is Some,
    ensures
        prefix_read(ae, plen, omitted, s, ctx) == net::prefix_of(a, plen),
        a is V4 <==> ae == 1,
        forall|i: int|
            0 <= i < a.bytes().len() ==> #[trigger] a.bytes()[i] == filled(
                i,
                omitted as int,
                (plen + 7) / 8,
                if ae == 1 {
                    ctx.default_v4@
                } else {
                    ctx.default_v6@
                },
                s,
            ),
{
    reveal(prefix_read);
    let t = (plen + 7) / 8;
    let o = omitted as int;
    if ae == 1 {
        let d = ctx.default_v4@;
        IpAddr::V4(
            Ipv4Addr {
                octets: [
                    filled(0, o, t, d, s),
                    filled(1, o, t, d, s),
                    filled(2, o, t, d, s),
                    filled(3, o, t, d, s),
                ],
            },
        )
    } else {
        let d = ctx.default_v6@;
        IpAddr::V6(
            Ipv6Addr {
                octets: [
                    filled(0, o, t, d, s),
                    filled(1, o, t, d, s),
                    filled(2, o, t, d, s),
                    filled(3, o, t, d, s),
                    filled(4, o, t, d, s),
                    filled(5, o, t, d, s),
                    filled(6, o, t, d, s),
                    filled(7, o, t, d, s),
                    filled(8, o, t, d, s),
                    filled(9, o, t, d, s),
                    filled(10, o, t, d, s),
                    filled(11, o, t, d, s),
                    filled(12, o, t, d, s),
                    filled(13, o, t, d, s),
                    filled(14, o, t, d, s),
                    filled(15, o, t, d, s),
                ],
            },
        )
    }
}

} // verus!
