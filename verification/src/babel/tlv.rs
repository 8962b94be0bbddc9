//! Babel TLVs (RFC 8966 §4.6): `type · length · contents`, except for Pad1, which is
//! a lone zero octet.

use vstd::prelude::*;

use crate::babel;
use crate::babel::{
    read_address, read_prefix, write_address, write_prefix, Compress, AE_WILDCARD,
};
use crate::net::{IpAddr, Prefix};
use crate::wire;

verus! {

/// Pad1 (§4.6.1): a single padding octet.
pub const TYPE_PAD1: u8 = 0;

/// PadN (§4.6.1): N padding octets.
pub const TYPE_PADN: u8 = 1;

/// Acknowledgment Request (§4.6.2).
pub const TYPE_ACK_REQ: u8 = 2;

/// Acknowledgment (§4.6.3).
pub const TYPE_ACK: u8 = 3;

/// Hello (§4.6.4).
pub const TYPE_HELLO: u8 = 4;

/// IHU, "I heard you" (§4.6.6).
pub const TYPE_IHU: u8 = 5;

/// Router-ID (§4.6.7).
pub const TYPE_ROUTER_ID: u8 = 6;

/// Next Hop (§4.6.8).
pub const TYPE_NEXT_HOP: u8 = 7;

/// Update (§4.6.9).
pub const TYPE_UPDATE: u8 = 8;

/// Route Request (§4.6.10).
pub const TYPE_ROUTE_REQUEST: u8 = 9;

/// Seqno Request (§4.6.11).
pub const TYPE_SEQNO_REQUEST: u8 = 10;

/// The Update flag that makes the prefix the default for later Updates (§4.6.9).
pub const UPDATE_FLAG_DEFAULT_PREFIX: u8 = 0x80;

/// One TLV.
#[derive(Clone, PartialEq, Eq, Debug)]
#[allow(inconsistent_fields)]
pub enum Tlv {
    /// A single padding octet.
    Pad1,
    /// This many padding octets.
    PadN(u8),
    /// Ask the receiver to acknowledge (§4.6.2).
    AckReq {
        /// The nonce to be echoed.
        nonce: u16,
        /// How long (centiseconds) the sender waits.
        interval: u16,
    },
    /// Acknowledge a request (§4.6.3).
    Ack {
        /// The echoed nonce.
        nonce: u16,
    },
    /// A Hello (§4.6.4).
    Hello {
        flags: u16,
        seqno: u16,
        /// The Hello interval in centiseconds, 0 when unscheduled.
        interval: u16,
    },
    /// Report the receive cost back to a neighbour (§4.6.6).
    Ihu {
        /// The receive cost from the addressed neighbour.
        rxcost: u16,
        interval: u16,
        /// The neighbour's address, `None` for a wildcard.
        address: Option<IpAddr>,
    },
    /// The router id of the Updates that follow (§4.6.7).
    RouterId([u8; 8]),
    /// The next hop of the Updates that follow (§4.6.8).
    NextHop(IpAddr),
    /// Advertise a route, or retract it with an infinite metric (§4.6.9).
    Update {
        flags: u8,
        interval: u16,
        /// The originator's sequence number.
        seqno: u16,
        metric: u16,
        prefix: Prefix,
    },
    /// Ask for the Update of a prefix (§4.6.10).
    RouteRequest {
        /// The prefix, or `None` for the whole table.
        prefix: Option<Prefix>,
    },
    /// Ask the originator for a fresher sequence number (§4.6.11).
    SeqnoRequest {
        seqno: u16,
        /// The remaining hop count.
        hop_count: u8,
        /// The originator.
        router_id: [u8; 8],
        prefix: Prefix,
    },
    /// Any other TLV, as it stands.
    Unknown {
        tlv_type: u8,
        body: Vec<u8>,
    },
}

/// A TLV as a mathematical value.
#[allow(inconsistent_fields)]
pub enum TlvView {
    Pad1,
    PadN(u8),
    AckReq { nonce: u16, interval: u16 },
    Ack { nonce: u16 },
    Hello { flags: u16, seqno: u16, interval: u16 },
    Ihu { rxcost: u16, interval: u16, address: Option<IpAddr> },
    RouterId([u8; 8]),
    NextHop(IpAddr),
    Update { flags: u8, interval: u16, seqno: u16, metric: u16, prefix: Prefix },
    RouteRequest { prefix: Option<Prefix> },
    SeqnoRequest { seqno: u16, hop_count: u8, router_id: [u8; 8], prefix: Prefix },
    Unknown { tlv_type: u8, body: Seq<u8> },
}

impl View for Tlv {
    type V = TlvView;

    open spec fn view(&self) -> TlvView {
        match *self {
            Tlv::Pad1 => TlvView::Pad1,
            Tlv::PadN(n) => TlvView::PadN(n),
            Tlv::AckReq { nonce, interval } => TlvView::AckReq { nonce, interval },
            Tlv::Ack { nonce } => TlvView::Ack { nonce },
            Tlv::Hello { flags, seqno, interval } => TlvView::Hello { flags, seqno, interval },
            Tlv::Ihu { rxcost, interval, address } => TlvView::Ihu { rxcost, interval, address },
            Tlv::RouterId(id) => TlvView::RouterId(id),
            Tlv::NextHop(ip) => TlvView::NextHop(ip),
            Tlv::Update { flags, interval, seqno, metric, prefix } => TlvView::Update {
                flags,
                interval,
                seqno,
                metric,
                prefix,
            },
            Tlv::RouteRequest { prefix } => TlvView::RouteRequest { prefix },
            Tlv::SeqnoRequest { seqno, hop_count, router_id, prefix } => TlvView::SeqnoRequest {
                seqno,
                hop_count,
                router_id,
                prefix,
            },
            Tlv::Unknown { tlv_type, body } => TlvView::Unknown { tlv_type, body: body@ },
        }
    }
}

impl TlvView {
    /// The type code (§4.6).
    pub open spec fn code(self) -> u8 {
        match self {
            TlvView::Pad1 => 0,
            TlvView::PadN(_) => 1,
            TlvView::AckReq { .. } => 2,
            TlvView::Ack { .. } => 3,
            TlvView::Hello { .. } => 4,
            TlvView::Ihu { .. } => 5,
            TlvView::RouterId(_) => 6,
            TlvView::NextHop(_) => 7,
            TlvView::Update { .. } => 8,
            TlvView::RouteRequest { .. } => 9,
            TlvView::SeqnoRequest { .. } => 10,
            TlvView::Unknown { tlv_type, .. } => tlv_type,
        }
    }

    /// The octets behind type and length.
    pub open spec fn contents(self) -> Seq<u8> {
        match self {
            TlvView::Pad1 => Seq::empty(),
            TlvView::PadN(n) => Seq::new(n as nat, |i: int| 0u8),
            TlvView::AckReq { nonce, interval } => seq![0u8, 0u8] + wire::be16(nonce) + wire::be16(
                interval,
            ),
            TlvView::Ack { nonce } => wire::be16(nonce),
            TlvView::Hello { flags, seqno, interval } => wire::be16(flags) + wire::be16(seqno)
                + wire::be16(interval),
            TlvView::Ihu { rxcost, interval, address } => match address {
                None => seq![0u8, 0u8] + wire::be16(rxcost) + wire::be16(interval),
                Some(ip) => seq![babel::ae_of(ip), 0u8] + wire::be16(rxcost) + wire::be16(interval)
                    + babel::address_octets(ip),
            },
            TlvView::RouterId(id) => seq![0u8, 0u8] + id@,
            TlvView::NextHop(ip) => seq![babel::ae_of(ip), 0u8] + babel::address_octets(ip),
            TlvView::Update { flags, interval, seqno, metric, prefix } => seq![
                babel::prefix_ae(prefix),
                flags,
                prefix.len,
                0u8,
            ] + wire::be16(interval) + wire::be16(seqno) + wire::be16(metric) + prefix.net_octets(),
            TlvView::RouteRequest { prefix } => match prefix {
                None => seq![0u8, 0u8],
                Some(p) => seq![babel::prefix_ae(p), p.len] + p.net_octets(),
            },
            TlvView::SeqnoRequest { seqno, hop_count, router_id, prefix } => seq![
                babel::prefix_ae(prefix),
                prefix.len,
            ] + wire::be16(seqno) + seq![hop_count, 0u8] + router_id@ + prefix.net_octets(),
            TlvView::Unknown { body, .. } => body,
        }
    }

    /// The octets of the TLV: type, length modulo 256 and contents; Pad1 is one zero.
    pub open spec fn octets(self) -> Seq<u8> {
        match self {
            TlvView::Pad1 => seq![0u8],
            _ => seq![self.code(), (self.contents().len() % 256) as u8] + self.contents(),
        }
    }

    /// The TLVs that the wire format can hold: prefixes are well formed, a link-local
    /// address lies in `fe80::/64`, and an opaque TLV has a type of its own and fits
    /// its length octet.
    pub open spec fn carried(self) -> bool {
        match self {
            TlvView::Ihu { address, .. } => address matches Some(ip) ==> address_carried(ip),
            TlvView::NextHop(ip) => address_carried(ip),
            TlvView::Update { prefix, .. } => prefix.wf(),
            TlvView::RouteRequest { prefix } => prefix matches Some(p) ==> p.wf(),
            TlvView::SeqnoRequest { prefix, .. } => prefix.wf(),
            TlvView::Unknown { tlv_type, body } => tlv_type > 10 && body.len() <= 255,
            _ => true,
        }
    }
}

/// Whether the address survives its encoding: a link-local one does where the octets
/// between `fe80` and its low eight are zero.
pub open spec fn address_carried(ip: IpAddr) -> bool {
    match ip {
        IpAddr::V4(_) => true,
        IpAddr::V6(a) => a.link_local() ==> a.octets[1] == 0x80 && (forall|i: int|
            2 <= i < 8 ==> a.octets[i] == 0),
    }
}

/// The TLV that type `t` gives to `s`, with the parser state after it, or `None` where
/// the type is not known or the contents do not parse.
#[verifier::opaque]
pub open spec fn parsed(t: u8, s: Seq<u8>, ctx: Compress) -> Option<(TlvView, Compress)> {
    if t == 1 {
        Some((TlvView::PadN((s.len() % 256) as u8), ctx))
    } else if t == 2 && s.len() >= 6 {
        Some(
            (TlvView::AckReq { nonce: wire::u16_at(s, 2), interval: wire::u16_at(s, 4) }, ctx),
        )
    } else if t == 3 && s.len() >= 2 {
        Some((TlvView::Ack { nonce: wire::u16_at(s, 0) }, ctx))
    } else if t == 4 && s.len() >= 6 {
        Some(
            (
                TlvView::Hello {
                    flags: wire::u16_at(s, 0),
                    seqno: wire::u16_at(s, 2),
                    interval: wire::u16_at(s, 4),
                },
                ctx,
            ),
        )
    } else if t == 5 && s.len() >= 6 {
        let rxcost = wire::u16_at(s, 2);
        let interval = wire::u16_at(s, 4);
        if s[0] == 0 {
            Some((TlvView::Ihu { rxcost, interval, address: None }, ctx))
        } else {
            match babel::address_read(s[0], wire::from_at(s, 6)) {
                Some(ip) => Some((TlvView::Ihu { rxcost, interval, address: Some(ip) }, ctx)),
                None => None,
            }
        }
    } else if t == 6 && s.len() >= 10 {
        Some((TlvView::RouterId(wire::arr8_at(s, 2)), ctx))
    } else if t == 7 && s.len() >= 2 {
        match babel::address_read(s[0], wire::from_at(s, 2)) {
            Some(ip) => Some((TlvView::NextHop(ip), ctx)),
            None => None,
        }
    } else if t == 8 && s.len() >= 10 {
        match babel::prefix_read(s[0], s[2], s[3], wire::from_at(s, 10), ctx) {
            Some(prefix) => Some(
                (
                    TlvView::Update {
                        flags: s[1],
                        interval: wire::u16_at(s, 4),
                        seqno: wire::u16_at(s, 6),
                        metric: wire::u16_at(s, 8),
                        prefix,
                    },
                    if wire::bit(s[1], 128) {
                        ctx.with_default(prefix)
                    } else {
                        ctx
                    },
                ),
            ),
            None => None,
        }
    } else if t == 9 && s.len() >= 2 {
        if s[0] == 0 {
            Some((TlvView::RouteRequest { prefix: None }, ctx))
        } else {
            match babel::prefix_read(s[0], s[1], 0, wire::from_at(s, 2), ctx) {
                Some(p) => Some((TlvView::RouteRequest { prefix: Some(p) }, ctx)),
                None => None,
            }
        }
    } else if t == 10 && s.len() >= 14 {
        match babel::prefix_read(s[0], s[1], 0, wire::from_at(s, 14), ctx) {
            Some(prefix) => Some(
                (
                    TlvView::SeqnoRequest {
                        seqno: wire::u16_at(s, 2),
                        hop_count: s[4],
                        router_id: wire::arr8_at(s, 6),
                        prefix,
                    },
                    ctx,
                ),
            ),
            None => None,
        }
    } else {
        None
    }
}

impl Tlv {
    /// The type code.
    pub fn tlv_type(&self) -> (r: u8)
        ensures
            r == self@.code(),
    {
        match self {
            Tlv::Pad1 => TYPE_PAD1,
            Tlv::PadN(_) => TYPE_PADN,
            Tlv::AckReq { .. } => TYPE_ACK_REQ,
            Tlv::Ack { .. } => TYPE_ACK,
            Tlv::Hello { .. } => TYPE_HELLO,
            Tlv::Ihu { .. } => TYPE_IHU,
            Tlv::RouterId(_) => TYPE_ROUTER_ID,
            Tlv::NextHop(_) => TYPE_NEXT_HOP,
            Tlv::Update { .. } => TYPE_UPDATE,
            Tlv::RouteRequest { .. } => TYPE_ROUTE_REQUEST,
            Tlv::SeqnoRequest { .. } => TYPE_SEQNO_REQUEST,
            Tlv::Unknown { tlv_type, .. } => *tlv_type,
        }
    }

    /// Append the whole TLV.
    pub fn encode(&self, out: &mut Vec<u8>)
        ensures
            final(out)@ == old(out)@ + self@.octets(),
    {
        if let Tlv::Pad1 = self {
            out.push(TYPE_PAD1);
            return;
        }
        let mut body: Vec<u8> = Vec::new();
        self.encode_body(&mut body);
        assert(body@ =~= self@.contents());
        out.push(self.tlv_type());
        out.push((body.len() % 256) as u8);
        wire::push_all(out, body.as_slice());
        assert(out@ =~= old(out)@ + self@.octets());
    }

    fn encode_body(&self, out: &mut Vec<u8>)
        ensures
            final(out)@ == old(out)@ + self@.contents(),
    {
        match self {
            Tlv::Pad1 => {},
            Tlv::PadN(n) => {
                let mut k: u8 = 0;
                assert(out@ =~= old(out)@ + Seq::new(0, |i: int| 0u8));
                while k < *n
                    invariant
                        k <= *n,
                        out@ == old(out)@ + Seq::new(k as nat, |i: int| 0u8),
                    decreases *n - k,
                {
                    out.push(0);
                    k = k + 1;
                    assert(out@ =~= old(out)@ + Seq::new(k as nat, |i: int| 0u8));
                }
            },
            Tlv::AckReq { nonce, interval } => {
                out.push(0);
                out.push(0);
                wire::push_u16(out, *nonce);
                wire::push_u16(out, *interval);
            },
            Tlv::Ack { nonce } => wire::push_u16(out, *nonce),
            Tlv::Hello { flags, seqno, interval } => {
                wire::push_u16(out, *flags);
                wire::push_u16(out, *seqno);
                wire::push_u16(out, *interval);
            },
            Tlv::Ihu { rxcost, interval, address } => {
                let mut addr: Vec<u8> = Vec::new();
                let ae: u8 = match address {
                    None => AE_WILDCARD,
                    Some(ip) => write_address(&mut addr, *ip),
                };
                out.push(ae);
                out.push(0);
                wire::push_u16(out, *rxcost);
                wire::push_u16(out, *interval);
                wire::push_all(out, addr.as_slice());
            },
            Tlv::RouterId(id) => {
                out.push(0);
                out.push(0);
                wire::push_all(out, id.as_slice());
            },
            Tlv::NextHop(ip) => {
                let mut addr: Vec<u8> = Vec::new();
                let ae = write_address(&mut addr, *ip);
                out.push(ae);
                out.push(0);
                wire::push_all(out, addr.as_slice());
            },
            Tlv::Update { flags, interval, seqno, metric, prefix } => {
                let mut net: Vec<u8> = Vec::new();
                let (ae, plen) = write_prefix(&mut net, prefix);
                out.push(ae);
                out.push(*flags);
                out.push(plen);
                out.push(0);
                wire::push_u16(out, *interval);
                wire::push_u16(out, *seqno);
                wire::push_u16(out, *metric);
                wire::push_all(out, net.as_slice());
            },
            Tlv::RouteRequest { prefix } => match prefix {
                None => {
                    out.push(AE_WILDCARD);
                    out.push(0);
                },
                Some(p) => {
                    let mut net: Vec<u8> = Vec::new();
                    let (ae, plen) = write_prefix(&mut net, p);
                    out.push(ae);
                    out.push(plen);
                    wire::push_all(out, net.as_slice());
                },
            },
            Tlv::SeqnoRequest { seqno, hop_count, router_id, prefix } => {
                let mut net: Vec<u8> = Vec::new();
                let (ae, plen) = write_prefix(&mut net, prefix);
                out.push(ae);
                out.push(plen);
                wire::push_u16(out, *seqno);
                out.push(*hop_count);
                out.push(0);
                wire::push_all(out, router_id.as_slice());
                wire::push_all(out, net.as_slice());
            },
            Tlv::Unknown { body, .. } => wire::push_all(out, body.as_slice()),
        }
        assert(out@ =~= old(out)@ + self@.contents());
    }

    /// Decode the contents of one TLV, using and updating the parser state `ctx`.
    /// `None` where the type is not known or the contents do not parse.
    pub(crate) fn decode(tlv_type: u8, body: &[u8], ctx: &mut Compress) -> (r: Option<Tlv>)
        ensures
            match r {
                Some(t) => parsed(tlv_type, body@, *old(ctx)) == Some((t@, *final(ctx))),
                None => parsed(tlv_type, body@, *old(ctx)) is None && *final(ctx) == *old(ctx),
            },
    {
        reveal(parsed);
        let n = body.len();
        match tlv_type {
            TYPE_PADN => Some(Tlv::PadN((n % 256) as u8)),
            TYPE_ACK_REQ => {
                if n < 6 {
                    return None;
                }
                Some(
                    Tlv::AckReq {
                        nonce: wire::read_u16(body, 2),
                        interval: wire::read_u16(body, 4),
                    },
                )
            },
            TYPE_ACK => {
                if n < 2 {
                    return None;
                }
                Some(Tlv::Ack { nonce: wire::read_u16(body, 0) })
            },
            TYPE_HELLO => {
                if n < 6 {
                    return None;
                }
                Some(
                    Tlv::Hello {
                        flags: wire::read_u16(body, 0),
                        seqno: wire::read_u16(body, 2),
                        interval: wire::read_u16(body, 4),
                    },
                )
            },
            TYPE_IHU => {
                if n < 6 {
                    return None;
                }
                let rxcost = wire::read_u16(body, 2);
                let interval = wire::read_u16(body, 4);
                if body[0] == AE_WILDCARD {
                    return Some(Tlv::Ihu { rxcost, interval, address: None });
                }
                match read_address(body[0], &body[6..n]) {
                    Some(ip) => Some(Tlv::Ihu { rxcost, interval, address: Some(ip) }),
                    None => None,
                }
            },
            TYPE_ROUTER_ID => {
                if n < 10 {
                    return None;
                }
                Some(Tlv::RouterId(wire::read_arr8(body, 2)))
            },
            TYPE_NEXT_HOP => {
                if n < 2 {
                    return None;
                }
                match read_address(body[0], &body[2..n]) {
                    Some(ip) => Some(Tlv::NextHop(ip)),
                    None => None,
                }
            },
            TYPE_UPDATE => {
                if n < 10 {
                    return None;
                }
                let flags = body[1];
                match read_prefix(body[0], body[2], body[3], &body[10..n], ctx) {
                    None => None,
                    Some(prefix) => {
                        if wire::bit_of(flags, UPDATE_FLAG_DEFAULT_PREFIX) {
                            ctx.set_default(&prefix);
                        }
                        Some(
                            Tlv::Update {
                                flags,
                                interval: wire::read_u16(body, 4),
                                seqno: wire::read_u16(body, 6),
                                metric: wire::read_u16(body, 8),
                                prefix,
                            },
                        )
                    },
                }
            },
            TYPE_ROUTE_REQUEST => {
                if n < 2 {
                    return None;
                }
                if body[0] == AE_WILDCARD {
                    return Some(Tlv::RouteRequest { prefix: None });
                }
                match read_prefix(body[0], body[1], 0, &body[2..n], ctx) {
                    Some(p) => Some(Tlv::RouteRequest { prefix: Some(p) }),
                    None => None,
                }
            },
            TYPE_SEQNO_REQUEST => {
                if n < 14 {
                    return None;
                }
                match read_prefix(body[0], body[1], 0, &body[14..n], ctx) {
                    Some(prefix) => Some(
                        Tlv::SeqnoRequest {
                            seqno: wire::read_u16(body, 2),
                            hop_count: body[4],
                            router_id: wire::read_arr8(body, 6),
                            prefix,
                        },
                    ),
                    None => None,
                }
            },
            _ => None,
        }
    }
}

/// An address that the wire can carry is read back from its own octets.
proof fn lemma_address_read_back(ip: IpAddr)
    requires
        address_carried(ip),
    ensures
        babel::address_read(babel::ae_of(ip), babel::address_octets(ip)) == Some(ip),
        babel::address_octets(ip).len() <= 16,
        babel::ae_of(ip) != 0,
{
    reveal(babel::address_read);
    let s = babel::address_octets(ip);
    match ip {
        IpAddr::V4(a) => {
            assert(wire::arr4_at(s, 0) =~= a.octets);
        },
        IpAddr::V6(a) => {
            if a.link_local() {
                let r = babel::address_read(3, s)->0->V6_0.octets;
                assert(r =~= a.octets);
            } else {
                assert(wire::arr16_at(s, 0) =~= a.octets);
            }
        },
    }
}

proof fn lemma_ihu_back(rxcost: u16, interval: u16, address: Option<IpAddr>, ctx: Compress)
    requires
        address matches Some(ip) ==> address_carried(ip),
    ensures
        ({
            let t = TlvView::Ihu { rxcost, interval, address };
            t.contents().len() <= 22 && parsed(5, t.contents(), ctx) == Some((t, ctx))
        }),
{
    reveal(parsed);
    let s = (TlvView::Ihu { rxcost, interval, address }).contents();
    assert(wire::u16_at(s, 2) == rxcost);
    assert(wire::u16_at(s, 4) == interval);
    if let Some(ip) = address {
        lemma_address_read_back(ip);
        assert(wire::from_at(s, 6) =~= babel::address_octets(ip));
    }
}

proof fn lemma_update_back(
    flags: u8,
    interval: u16,
    seqno: u16,
    metric: u16,
    prefix: Prefix,
    ctx: Compress,
)
    requires
        prefix.wf(),
    ensures
        ({
            let t = TlvView::Update { flags, interval, seqno, metric, prefix };
            t.contents().len() <= 26 && (parsed(8, t.contents(), ctx) matches Some((u, _)) && u
                == t)
        }),
{
    reveal(parsed);
    let s = (TlvView::Update { flags, interval, seqno, metric, prefix }).contents();
    babel::lemma_prefix_read_back(prefix, 0, ctx);
    assert(wire::from_at(prefix.net_octets(), 0) =~= prefix.net_octets());
    assert(wire::from_at(s, 10) =~= prefix.net_octets());
    assert(wire::u16_at(s, 4) == interval);
    assert(wire::u16_at(s, 6) == seqno);
    assert(wire::u16_at(s, 8) == metric);
}

proof fn lemma_route_request_back(prefix: Option<Prefix>, ctx: Compress)
    requires
        prefix matches Some(p) ==> p.wf(),
    ensures
        ({
            let t = TlvView::RouteRequest { prefix };
            t.contents().len() <= 18 && parsed(9, t.contents(), ctx) == Some((t, ctx))
        }),
{
    reveal(parsed);
    let s = (TlvView::RouteRequest { prefix }).contents();
    if let Some(p) = prefix {
        babel::lemma_prefix_read_back(p, 0, ctx);
        assert(wire::from_at(p.net_octets(), 0) =~= p.net_octets());
        assert(wire::from_at(s, 2) =~= p.net_octets());
    }
}

proof fn lemma_seqno_request_back(
    seqno: u16,
    hop_count: u8,
    router_id: [u8; 8],
    prefix: Prefix,
    ctx: Compress,
)
    requires
        prefix.wf(),
    ensures
        ({
            let t = TlvView::SeqnoRequest { seqno, hop_count, router_id, prefix };
            t.contents().len() <= 30 && parsed(10, t.contents(), ctx) == Some((t, ctx))
        }),
{
    reveal(parsed);
    let s = (TlvView::SeqnoRequest { seqno, hop_count, router_id, prefix }).contents();
    babel::lemma_prefix_read_back(prefix, 0, ctx);
    assert(wire::from_at(prefix.net_octets(), 0) =~= prefix.net_octets());
    assert(wire::from_at(s, 14) =~= prefix.net_octets());
    assert(wire::u16_at(s, 2) == seqno);
    assert(wire::arr8_at(s, 6) =~= router_id);
}

proof fn lemma_small_tlv_back(t: TlvView, ctx: Compress)
    requires
        t.carried(),
        t is PadN || t is AckReq || t is Ack || t is Hello || t is RouterId || t is NextHop,
    ensures
        t.contents().len() <= 255,
        parsed(t.code(), t.contents(), ctx) == Some((t, ctx)),
{
    reveal(parsed);
    let s = t.contents();
    match t {
        TlvView::AckReq { nonce, interval } => {
            assert(wire::u16_at(s, 2) == nonce);
            assert(wire::u16_at(s, 4) == interval);
        },
        TlvView::Hello { flags, seqno, interval } => {
            assert(wire::u16_at(s, 0) == flags);
            assert(wire::u16_at(s, 2) == seqno);
            assert(wire::u16_at(s, 4) == interval);
        },
        TlvView::RouterId(id) => {
            assert(wire::arr8_at(s, 2) =~= id);
        },
        TlvView::NextHop(ip) => {
            lemma_address_read_back(ip);
            assert(wire::from_at(s, 2) =~= babel::address_octets(ip));
        },
        _ => {},
    }
}

/// Every TLV that the wire can carry, padding and opaque ones apart, is parsed back from
/// its contents, in any parser state.
pub proof fn lemma_tlv_read_back(t: TlvView, ctx: Compress)
    requires
        t.carried(),
        t !is Pad1,
        t !is Unknown,
    ensures
        t.contents().len() <= 255,
        parsed(t.code(), t.contents(), ctx) matches Some((u, _)) && u == t,
{
    match t {
        TlvView::Ihu { rxcost, interval, address } => lemma_ihu_back(
            rxcost,
            interval,
            address,
            ctx,
        ),
        TlvView::Update { flags, interval, seqno, metric, prefix } => lemma_update_back(
            flags,
            interval,
            seqno,
            metric,
            prefix,
            ctx,
        ),
        TlvView::RouteRequest { prefix } => lemma_route_request_back(prefix, ctx),
        TlvView::SeqnoRequest { seqno, hop_count, router_id, prefix } => lemma_seqno_request_back(
            seqno,
            hop_count,
            router_id,
            prefix,
            ctx,
        ),
        _ => lemma_small_tlv_back(t, ctx),
    }
}

/// No type above 10 is understood, and what is understood is never left opaque.
pub proof fn lemma_parsed_types(t: u8, s: Seq<u8>, ctx: Compress)
    ensures
        t > 10 ==> parsed(t, s, ctx) is None,
        parsed(t, s, ctx) matches Some((u, _)) ==> u !is Unknown,
{
    reveal(parsed);
}

/// Which contents are understood, by type: each has a least length, and the address or the
/// prefix in it, where there is one, can be read. More octets than that do no harm.
pub proof fn lemma_which_are_understood(t: u8, s: Seq<u8>, ctx: Compress)
    ensures
        ({
            let u = parsed(t, s, ctx);
            &&& t == 1 ==> u is Some
            &&& t == 2 ==> (u is Some <==> s.len() >= 6)
            &&& t == 3 ==> (u is Some <==> s.len() >= 2)
            &&& t == 4 ==> (u is Some <==> s.len() >= 6)
            &&& t == 5 ==> (u is Some <==> s.len() >= 6 && (s[0] == 0 || (s[0] == 1 && s.len() >= 10)
                || (s[0] == 2 && s.len() >= 22) || (s[0] == 3 && s.len() >= 14)))
            &&& t == 6 ==> (u is Some <==> s.len() >= 10)
            &&& t == 7 ==> (u is Some <==> (s[0] == 1 && s.len() >= 6) || (s[0] == 2 && s.len()
                >= 18) || (s[0] == 3 && s.len() >= 10))
            &&& t == 8 ==> (u is Some <==> s.len() >= 10 && ((s[0] == 1 && s[2] <= 32) || (s[0] == 2
                && s[2] <= 128)) && s[3] <= (s[2] + 7) / 8 <= s.len() - 10 + s[3])
            &&& t == 9 ==> (u is Some <==> s.len() >= 2 && (s[0] == 0 || (((s[0] == 1 && s[1] <= 32)
                || (s[0] == 2 && s[1] <= 128)) && (s[1] + 7) / 8 <= s.len() - 2)))
            &&& t == 10 ==> (u is Some <==> s.len() >= 14 && ((s[0] == 1 && s[1] <= 32) || (s[0] == 2
                && s[1] <= 128)) && (s[1] + 7) / 8 <= s.len() - 14)
            &&& t == 0 || t > 10 ==> u is None
        }),
{
    reveal(parsed);
    babel::lemma_which_addresses_are_read(s[0], wire::from_at(s, 6), 0);
    babel::lemma_which_addresses_are_read(s[0], wire::from_at(s, 2), 0);
    babel::lemma_which_prefixes_are_read(s[0], s[2], s[3], wire::from_at(s, 10), ctx, 0);
    babel::lemma_which_prefixes_are_read(s[0], s[1], 0, wire::from_at(s, 2), ctx, 0);
    babel::lemma_which_prefixes_are_read(s[0], s[1], 0, wire::from_at(s, 14), ctx, 0);
}

/// What the types say, octet by octet. Only an Update whose highest flag is set changes
/// what later ones may leave out: its prefix becomes the default of its family, and the
/// other family keeps its own.
pub proof fn lemma_what_is_understood(t: u8, s: Seq<u8>, ctx: Compress)
    requires
        parsed(t, s, ctx) is Some,
    ensures
        ({
            let (v, after) = parsed(t, s, ctx)->0;
            &&& t == 1 <==> v is PadN
            &&& t == 2 <==> v is AckReq
            &&& t == 3 <==> v is Ack
            &&& t == 4 <==> v is Hello
            &&& t == 5 <==> v is Ihu
            &&& t == 6 <==> v is RouterId
            &&& t == 7 <==> v is NextHop
            &&& t == 8 <==> v is Update
            &&& t == 9 <==> v is RouteRequest
            &&& t == 10 <==> v is SeqnoRequest
            &&& v matches TlvView::AckReq { nonce, interval } ==> nonce == s[2] * 256 + s[3]
                && interval == s[4] * 256 + s[5]
            &&& v matches TlvView::Ack { nonce } ==> nonce == s[0] * 256 + s[1]
            &&& v matches TlvView::Hello { flags, seqno, interval } ==> flags == s[0] * 256 + s[1]
                && seqno == s[2] * 256 + s[3] && interval == s[4] * 256 + s[5]
            &&& v matches TlvView::Ihu { rxcost, interval, address } ==> rxcost == s[2] * 256 + s[3]
                && interval == s[4] * 256 + s[5] && (address is None <==> s[0] == 0)
            &&& v matches TlvView::RouterId(id) ==> forall|i: int|
                0 <= i < 8 ==> #[trigger] id@[i] == s[2 + i]
            &&& v matches TlvView::Update { flags, interval, seqno, metric, prefix } ==> flags == s[1]
                && interval == s[4] * 256 + s[5] && seqno == s[6] * 256 + s[7] && metric == s[8] * 256
                + s[9] && prefix.len == s[2] && (prefix.addr is V4 <==> s[0] == 1)
            &&& v matches TlvView::RouteRequest { prefix } ==> (prefix is None <==> s[0] == 0)
            &&& v matches TlvView::SeqnoRequest { seqno, hop_count, router_id, prefix } ==> seqno
                == s[2] * 256 + s[3] && hop_count == s[4] && prefix.len == s[1] && (forall|i: int|
                0 <= i < 8 ==> #[trigger] router_id@[i] == s[6 + i])
            &&& t != 8 || s[1] < 128 ==> after == ctx
            &&& v matches TlvView::Update { prefix, .. } ==> (s[1] >= 128 ==> (match prefix.addr {
                IpAddr::V4(a) => after.default_v4 == a.octets && after.default_v6 == ctx.default_v6,
                IpAddr::V6(a) => after.default_v6 == a.octets && after.default_v4 == ctx.default_v4,
            }))
        }),
{
    reveal(parsed);
    babel::lemma_which_prefixes_are_read(s[0], s[2], s[3], wire::from_at(s, 10), ctx, 0);
    babel::lemma_which_prefixes_are_read(s[0], s[1], 0, wire::from_at(s, 14), ctx, 0);
}

} // verus!
