//! The RPKI-to-Router protocol (RFC 8210): how a router gets ROAs from a cache.
//!
//! A PDU is a header of version, type, a 16-bit field and the length of the whole, and a
//! body that depends on the type.

use vstd::prelude::*;
use vstd::string::*;

use crate::bgp::rpki::Roa;
use crate::net;
use crate::net::{IpAddr, Ipv4Addr, Ipv6Addr, Prefix};
use crate::text;
use crate::wire;

pub mod pdu_type;

verus! {

/// The version spoken here.
pub const VERSION: u8 = 1;

/// The length of the header.
pub const HEADER_LEN: usize = 8;

/// One PDU.
#[derive(Clone, PartialEq, Eq, Debug)]
pub enum Pdu {
    /// From the cache: there is something new.
    SerialNotify { session_id: u16, serial: u32 },
    /// To the cache: what is new since `serial`?
    SerialQuery { session_id: u16, serial: u32 },
    /// To the cache: what is there?
    ResetQuery,
    /// From the cache: an answer begins.
    CacheResponse { session_id: u16 },
    /// From the cache: an IPv4 ROA comes or goes.
    IPv4Prefix { announce: bool, prefix_len: u8, max_len: u8, addr: Ipv4Addr, asn: u32 },
    /// From the cache: an IPv6 ROA comes or goes.
    IPv6Prefix { announce: bool, prefix_len: u8, max_len: u8, addr: Ipv6Addr, asn: u32 },
    /// From the cache: the answer ends.
    EndOfData { session_id: u16, serial: u32, refresh: u32, retry: u32, expire: u32 },
    /// From the cache: forget what is there and ask again.
    CacheReset,
    /// An error.
    ErrorReport { code: u16 },
    /// A PDU that is known and not used.
    Unsupported { pdu_type: u8 },
}

/// Why a PDU cannot be decoded.
#[derive(Clone, PartialEq, Eq, Structural, Debug)]
pub enum RtrError {
    /// There is less than the PDU says.
    Truncated,
    /// The length is none of its type.
    BadLength,
    /// The type is unknown.
    UnknownType(u8),
}

impl RtrError {
    /// The text.
    pub open spec fn text(self) -> Seq<char> {
        match self {
            RtrError::Truncated => "truncated RTR PDU"@,
            RtrError::BadLength => "bad RTR PDU length"@,
            RtrError::UnknownType(t) => "unknown RTR PDU type "@ + text::decimal(t as nat),
        }
    }

    /// The text.
    pub fn to_string(&self) -> (r: String)
        ensures
            r@ == self.text(),
    {
        let mut out = String::new();
        match self {
            RtrError::Truncated => out.append("truncated RTR PDU"),
            RtrError::BadLength => out.append("bad RTR PDU length"),
            RtrError::UnknownType(t) => {
                out.append("unknown RTR PDU type ");
                text::push_decimal(&mut out, *t as u32);
            },
        }
        assert(out@ =~= self.text());
        out
    }
}

/// The length that a PDU says it has; `None` where there is no whole header.
pub fn pdu_length(buf: &[u8]) -> (r: Option<u32>)
    ensures
        r == (if buf@.len() < 8 {
            None
        } else {
            Some(wire::u32_at(buf@, 4))
        }),
{
    if buf.len() < HEADER_LEN {
        return None;
    }
    Some(wire::read_u32(buf, 4))
}

impl Pdu {
    /// The type code.
    pub open spec fn kind(self) -> u8 {
        match self {
            Pdu::SerialNotify { .. } => 0,
            Pdu::SerialQuery { .. } => 1,
            Pdu::ResetQuery => 2,
            Pdu::CacheResponse { .. } => 3,
            Pdu::IPv4Prefix { .. } => 4,
            Pdu::IPv6Prefix { .. } => 6,
            Pdu::EndOfData { .. } => 7,
            Pdu::CacheReset => 8,
            Pdu::ErrorReport { .. } => 10,
            Pdu::Unsupported { pdu_type } => pdu_type,
        }
    }

    /// The 16-bit field of the header.
    pub open spec fn field(self) -> u16 {
        match self {
            Pdu::SerialNotify { session_id, .. } => session_id,
            Pdu::SerialQuery { session_id, .. } => session_id,
            Pdu::CacheResponse { session_id } => session_id,
            Pdu::EndOfData { session_id, .. } => session_id,
            Pdu::ErrorReport { code } => code,
            _ => 0,
        }
    }

    /// The body. An error report holds neither a PDU nor a text.
    pub open spec fn body(self) -> Seq<u8> {
        match self {
            Pdu::SerialNotify { serial, .. } => wire::be32(serial),
            Pdu::SerialQuery { serial, .. } => wire::be32(serial),
            Pdu::IPv4Prefix { announce, prefix_len, max_len, addr, asn } => seq![
                wire::flag(announce, 1),
                prefix_len,
                max_len,
                0,
            ] + addr.octets@ + wire::be32(asn),
            Pdu::IPv6Prefix { announce, prefix_len, max_len, addr, asn } => seq![
                wire::flag(announce, 1),
                prefix_len,
                max_len,
                0,
            ] + addr.octets@ + wire::be32(asn),
            Pdu::EndOfData { serial, refresh, retry, expire, .. } => wire::be32(serial)
                + wire::be32(refresh) + wire::be32(retry) + wire::be32(expire),
            Pdu::ErrorReport { .. } => wire::be32(0) + wire::be32(0),
            _ => Seq::empty(),
        }
    }
}

/// A PDU: version, type, field, length, body.
pub open spec fn pdu_octets(p: Pdu) -> Seq<u8> {
    seq![1u8, p.kind()] + wire::be16(p.field()) + wire::be32((8 + p.body().len()) as u32) + p.body()
}

/// The PDU that a type, a field and a body make; octets behind what the type needs are
/// passed over.
pub open spec fn pdu_of(kind: u8, field: u16, b: Seq<u8>) -> Result<Pdu, RtrError> {
    if kind == 0 {
        if b.len() < 4 {
            Err(RtrError::BadLength)
        } else {
            Ok(Pdu::SerialNotify { session_id: field, serial: wire::u32_at(b, 0) })
        }
    } else if kind == 1 {
        if b.len() < 4 {
            Err(RtrError::BadLength)
        } else {
            Ok(Pdu::SerialQuery { session_id: field, serial: wire::u32_at(b, 0) })
        }
    } else if kind == 2 {
        Ok(Pdu::ResetQuery)
    } else if kind == 3 {
        Ok(Pdu::CacheResponse { session_id: field })
    } else if kind == 4 {
        if b.len() < 12 {
            Err(RtrError::BadLength)
        } else {
            Ok(
                Pdu::IPv4Prefix {
                    announce: wire::bit(b[0], 1),
                    prefix_len: b[1],
                    max_len: b[2],
                    addr: Ipv4Addr { octets: wire::arr4_at(b, 4) },
                    asn: wire::u32_at(b, 8),
                },
            )
        }
    } else if kind == 6 {
        if b.len() < 24 {
            Err(RtrError::BadLength)
        } else {
            Ok(
                Pdu::IPv6Prefix {
                    announce: wire::bit(b[0], 1),
                    prefix_len: b[1],
                    max_len: b[2],
                    addr: Ipv6Addr { octets: wire::arr16_at(b, 4) },
                    asn: wire::u32_at(b, 20),
                },
            )
        }
    } else if kind == 7 {
        if b.len() < 16 {
            Err(RtrError::BadLength)
        } else {
            Ok(
                Pdu::EndOfData {
                    session_id: field,
                    serial: wire::u32_at(b, 0),
                    refresh: wire::u32_at(b, 4),
                    retry: wire::u32_at(b, 8),
                    expire: wire::u32_at(b, 12),
                },
            )
        }
    } else if kind == 8 {
        Ok(Pdu::CacheReset)
    } else if kind == 9 {
        Ok(Pdu::Unsupported { pdu_type: 9 })
    } else if kind == 10 {
        Ok(Pdu::ErrorReport { code: field })
    } else {
        Err(RtrError::UnknownType(kind))
    }
}

/// The PDU at the front of `s`.
pub open spec fn pdu_front(s: Seq<u8>) -> Result<Pdu, RtrError> {
    let n = wire::u32_at(s, 4) as int;
    if s.len() < 8 {
        Err(RtrError::Truncated)
    } else if n < 8 {
        Err(RtrError::BadLength)
    } else if s.len() < n {
        Err(RtrError::Truncated)
    } else {
        pdu_of(s[1], wire::u16_at(s, 2), s.subrange(8, n))
    }
}

/// The ROA of a prefix PDU, and whether it comes; `None` where the PDU has none or its
/// prefix is too long.
pub open spec fn roa_of(p: Pdu) -> Option<(Roa, bool)> {
    match p {
        Pdu::IPv4Prefix { announce, prefix_len, max_len, addr, asn } => match net::prefix_of(
            IpAddr::V4(addr),
            prefix_len,
        ) {
            Some(prefix) => Some(
                (Roa { prefix, max_length: max_len, origin_as: asn }, announce),
            ),
            None => None,
        },
        Pdu::IPv6Prefix { announce, prefix_len, max_len, addr, asn } => match net::prefix_of(
            IpAddr::V6(addr),
            prefix_len,
        ) {
            Some(prefix) => Some(
                (Roa { prefix, max_length: max_len, origin_as: asn }, announce),
            ),
            None => None,
        },
        _ => None,
    }
}

fn header(out: &mut Vec<u8>, kind: u8, field: u16, length: u32)
    ensures
        final(out)@ == old(out)@ + (seq![1u8, kind] + wire::be16(field) + wire::be32(length)),
{
    out.push(VERSION);
    out.push(kind);
    wire::push_u16(out, field);
    wire::push_u32(out, length);
    assert(out@ =~= old(out)@ + (seq![1u8, kind] + wire::be16(field) + wire::be32(length)));
}

fn push_prefix_body(
    out: &mut Vec<u8>,
    announce: bool,
    prefix_len: u8,
    max_len: u8,
    addr: &[u8],
    asn: u32,
)
    ensures
        final(out)@ == old(out)@ + (seq![wire::flag(announce, 1), prefix_len, max_len, 0] + addr@
            + wire::be32(asn)),
{
    out.push(wire::flag_of(announce, 1));
    out.push(prefix_len);
    out.push(max_len);
    out.push(0);
    wire::push_all(out, addr);
    wire::push_u32(out, asn);
    assert(out@ =~= old(out)@ + (seq![wire::flag(announce, 1), prefix_len, max_len, 0] + addr@
        + wire::be32(asn)));
}

impl Pdu {
    /// The octets of the PDU.
    pub fn encode(&self) -> (r: Vec<u8>)
        ensures
            r@ == pdu_octets(*self),
    {
        let mut out: Vec<u8> = Vec::new();
        match self {
            Pdu::SerialNotify { session_id, serial } => {
                header(&mut out, pdu_type::SERIAL_NOTIFY, *session_id, 12);
                wire::push_u32(&mut out, *serial);
            },
            Pdu::SerialQuery { session_id, serial } => {
                header(&mut out, pdu_type::SERIAL_QUERY, *session_id, 12);
                wire::push_u32(&mut out, *serial);
            },
            Pdu::ResetQuery => header(&mut out, pdu_type::RESET_QUERY, 0, 8),
            Pdu::CacheResponse { session_id } => header(
                &mut out,
                pdu_type::CACHE_RESPONSE,
                *session_id,
                8,
            ),
            Pdu::IPv4Prefix { announce, prefix_len, max_len, addr, asn } => {
                header(&mut out, pdu_type::IPV4_PREFIX, 0, 20);
                push_prefix_body(
                    &mut out,
                    *announce,
                    *prefix_len,
                    *max_len,
                    addr.octets.as_slice(),
                    *asn,
                );
            },
            Pdu::IPv6Prefix { announce, prefix_len, max_len, addr, asn } => {
                header(&mut out, pdu_type::IPV6_PREFIX, 0, 32);
                push_prefix_body(
                    &mut out,
                    *announce,
                    *prefix_len,
                    *max_len,
                    addr.octets.as_slice(),
                    *asn,
                );
            },
            Pdu::EndOfData { session_id, serial, refresh, retry, expire } => {
                header(&mut out, pdu_type::END_OF_DATA, *session_id, 24);
                wire::push_u32(&mut out, *serial);
                wire::push_u32(&mut out, *refresh);
                wire::push_u32(&mut out, *retry);
                wire::push_u32(&mut out, *expire);
            },
            Pdu::CacheReset => header(&mut out, pdu_type::CACHE_RESET, 0, 8),
            Pdu::ErrorReport { code } => {
                header(&mut out, pdu_type::ERROR_REPORT, *code, 16);
                wire::push_u32(&mut out, 0);
                wire::push_u32(&mut out, 0);
            },
            Pdu::Unsupported { pdu_type } => header(&mut out, *pdu_type, 0, 8),
        }
        assert(out@ =~= pdu_octets(*self));
        out
    }

    fn build(kind: u8, field: u16, b: &[u8]) -> (r: Result<Pdu, RtrError>)
        ensures
            r == pdu_of(kind, field, b@),
    {
        let need: usize = match kind {
            0 => 4,
            1 => 4,
            4 => 12,
            6 => 24,
            7 => 16,
            _ => 0,
        };
        if b.len() < need {
            return Err(RtrError::BadLength);
        }
        match kind {
            0 => Ok(Pdu::SerialNotify { session_id: field, serial: wire::read_u32(b, 0) }),
            1 => Ok(Pdu::SerialQuery { session_id: field, serial: wire::read_u32(b, 0) }),
            2 => Ok(Pdu::ResetQuery),
            3 => Ok(Pdu::CacheResponse { session_id: field }),
            4 => Ok(
                Pdu::IPv4Prefix {
                    announce: wire::bit_of(b[0], 1),
                    prefix_len: b[1],
                    max_len: b[2],
                    addr: Ipv4Addr { octets: wire::read_arr4(b, 4) },
                    asn: wire::read_u32(b, 8),
                },
            ),
            6 => Ok(
                Pdu::IPv6Prefix {
                    announce: wire::bit_of(b[0], 1),
                    prefix_len: b[1],
                    max_len: b[2],
                    addr: Ipv6Addr { octets: wire::read_arr16(b, 4) },
                    asn: wire::read_u32(b, 20),
                },
            ),
            7 => Ok(
                Pdu::EndOfData {
                    session_id: field,
                    serial: wire::read_u32(b, 0),
                    refresh: wire::read_u32(b, 4),
                    retry: wire::read_u32(b, 8),
                    expire: wire::read_u32(b, 12),
                },
            ),
            8 => Ok(Pdu::CacheReset),
            9 => Ok(Pdu::Unsupported { pdu_type: 9 }),
            10 => Ok(Pdu::ErrorReport { code: field }),
            _ => Err(RtrError::UnknownType(kind)),
        }
    }

    /// Decode the PDU at the front of `buf`.
    pub fn decode(buf: &[u8]) -> (r: Result<Pdu, RtrError>)
        ensures
            r == pdu_front(buf@),
    {
        if buf.len() < HEADER_LEN {
            return Err(RtrError::Truncated);
        }
        let n = wire::read_u32(buf, 4);
        if n < 8 {
            return Err(RtrError::BadLength);
        }
        if (buf.len() as u64) < n as u64 {
            return Err(RtrError::Truncated);
        }
        Pdu::build(buf[1], wire::read_u16(buf, 2), &buf[8..n as usize])
    }

    /// The ROA of a prefix PDU, and whether it comes.
    pub fn to_roa(&self) -> (r: Option<(Roa, bool)>)
        ensures
            r == roa_of(*self),
    {
        match self {
            Pdu::IPv4Prefix { announce, prefix_len, max_len, addr, asn } => match Prefix::checked(
                IpAddr::V4(*addr),
                *prefix_len,
            ) {
                Some(prefix) => Some(
                    (Roa { prefix, max_length: *max_len, origin_as: *asn }, *announce),
                ),
                None => None,
            },
            Pdu::IPv6Prefix { announce, prefix_len, max_len, addr, asn } => match Prefix::checked(
                IpAddr::V6(*addr),
                *prefix_len,
            ) {
                Some(prefix) => Some(
                    (Roa { prefix, max_length: *max_len, origin_as: *asn }, *announce),
                ),
                None => None,
            },
            _ => None,
        }
    }
}

proof fn lemma_prefix_body_back(announce: bool, len: u8, max: u8, addr: Seq<u8>, asn: u32)
    ensures
        ({
            let b = seq![wire::flag(announce, 1), len, max, 0] + addr + wire::be32(asn);
            let n = addr.len() as int;
            &&& b.len() == 8 + n
            &&& wire::bit(b[0], 1) == announce
            &&& b[1] == len
            &&& b[2] == max
            &&& b.subrange(4, 4 + n) == addr
            &&& wire::u32_at(b, 4 + n) == asn
        }),
{
    let b = seq![wire::flag(announce, 1), len, max, 0] + addr + wire::be32(asn);
    let n = addr.len() as int;
    assert(b.subrange(4, 4 + n) =~= addr);
    assert(b.subrange(4 + n, 8 + n) =~= wire::be32(asn));
    wire::lemma_u32_placed(b, 4 + n, asn);
}

proof fn lemma_body_back(p: Pdu)
    requires
        p matches Pdu::Unsupported { pdu_type } ==> pdu_type == 9,
    ensures
        pdu_of(p.kind(), p.field(), p.body()) == Ok::<Pdu, RtrError>(p),
        p.body().len() <= 24,
{
    let b = p.body();
    match p {
        Pdu::SerialNotify { serial, .. } => {
            assert(b.subrange(0, 4) =~= b);
            wire::lemma_u32_placed(b, 0, serial);
        },
        Pdu::SerialQuery { serial, .. } => {
            assert(b.subrange(0, 4) =~= b);
            wire::lemma_u32_placed(b, 0, serial);
        },
        Pdu::IPv4Prefix { announce, prefix_len, max_len, addr, asn } => {
            lemma_prefix_body_back(announce, prefix_len, max_len, addr.octets@, asn);
            wire::lemma_arr4_placed(b, 4, addr.octets);
        },
        Pdu::IPv6Prefix { announce, prefix_len, max_len, addr, asn } => {
            lemma_prefix_body_back(announce, prefix_len, max_len, addr.octets@, asn);
            wire::lemma_arr16_placed(b, 4, addr.octets);
        },
        Pdu::EndOfData { serial, refresh, retry, expire, .. } => {
            assert(b.subrange(0, 4) =~= wire::be32(serial));
            assert(b.subrange(4, 8) =~= wire::be32(refresh));
            assert(b.subrange(8, 12) =~= wire::be32(retry));
            assert(b.subrange(12, 16) =~= wire::be32(expire));
            wire::lemma_u32_placed(b, 0, serial);
            wire::lemma_u32_placed(b, 4, refresh);
            wire::lemma_u32_placed(b, 8, retry);
            wire::lemma_u32_placed(b, 12, expire);
        },
        _ => {},
    }
}

proof fn lemma_pdu_frame(kind: u8, field: u16, b: Seq<u8>, rest: Seq<u8>)
    requires
        b.len() <= 24,
    ensures
        pdu_front(
            seq![1u8, kind] + wire::be16(field) + wire::be32((8 + b.len()) as u32) + b + rest,
        ) == pdu_of(kind, field, b),
{
    let n = (8 + b.len()) as u32;
    let s = seq![1u8, kind] + wire::be16(field) + wire::be32(n) + b + rest;
    assert(s.subrange(2, 4) =~= wire::be16(field));
    wire::lemma_u16_placed(s, 2, field);
    assert(s.subrange(4, 8) =~= wire::be32(n));
    wire::lemma_u32_placed(s, 4, n);
    assert(s.subrange(8, n as int) =~= b);
}

/// A PDU is read back, from in front of anything, and says its length truly; of the PDUs
/// that are not used, only the router key is known when it comes.
pub proof fn lemma_pdu_round_trip(p: Pdu, rest: Seq<u8>)
    requires
        p matches Pdu::Unsupported { pdu_type } ==> pdu_type == 9,
    ensures
        pdu_front(pdu_octets(p) + rest) == Ok::<Pdu, RtrError>(p),
        wire::u32_at(pdu_octets(p), 4) == pdu_octets(p).len(),
{
    lemma_body_back(p);
    lemma_pdu_frame(p.kind(), p.field(), p.body(), rest);
    let s = pdu_octets(p);
    let n = (8 + p.body().len()) as u32;
    assert(s.subrange(4, 8) =~= wire::be32(n));
    wire::lemma_u32_placed(s, 4, n);
}

/// Why a PDU is refused: there is no whole header, the length is less than that of a header,
/// there is less than the length, the body is shorter than its type needs, or the type is 5
/// or above 10; in that order.
pub proof fn lemma_why_a_pdu_is_refused(s: Seq<u8>)
    ensures
        ({
            let r = pdu_front(s);
            let n = s[4] * 16777216 + s[5] * 65536 + s[6] * 256 + s[7];
            let need = if s[1] == 0 || s[1] == 1 {
                12int
            } else if s[1] == 4 {
                20
            } else if s[1] == 6 {
                32
            } else if s[1] == 7 {
                24
            } else {
                8
            };
            &&& s.len() < 8 ==> r == Err::<Pdu, RtrError>(RtrError::Truncated)
            &&& s.len() >= 8 && n < 8 ==> r == Err::<Pdu, RtrError>(RtrError::BadLength)
            &&& s.len() >= 8 && n >= 8 && s.len() < n ==> r == Err::<Pdu, RtrError>(
                RtrError::Truncated,
            )
            &&& s.len() >= n >= 8 && n < need ==> r == Err::<Pdu, RtrError>(RtrError::BadLength)
            &&& s.len() >= n >= need && (s[1] == 5 || s[1] > 10) ==> r == Err::<Pdu, RtrError>(
                RtrError::UnknownType(s[1]),
            )
            &&& s.len() >= n >= need && s[1] <= 10 && s[1] != 5 ==> r is Ok
        }),
{
}

/// What a PDU says, octet by octet.
pub proof fn lemma_what_a_pdu_says(s: Seq<u8>, i: int)
    requires
        pdu_front(s) is Ok,
    ensures
        ({
            let p = pdu_front(s)->Ok_0;
            let field = s[2] * 256 + s[3];
            &&& p is SerialNotify <==> s[1] == 0
            &&& p is SerialQuery <==> s[1] == 1
            &&& p is ResetQuery <==> s[1] == 2
            &&& p is CacheResponse <==> s[1] == 3
            &&& p is IPv4Prefix <==> s[1] == 4
            &&& p is IPv6Prefix <==> s[1] == 6
            &&& p is EndOfData <==> s[1] == 7
            &&& p is CacheReset <==> s[1] == 8
            &&& p is Unsupported <==> s[1] == 9
            &&& p is ErrorReport <==> s[1] == 10
            &&& p matches Pdu::SerialNotify { session_id, serial } ==> session_id == field && serial
                == s[8] * 16777216 + s[9] * 65536 + s[10] * 256 + s[11]
            &&& p matches Pdu::SerialQuery { session_id, serial } ==> session_id == field && serial
                == s[8] * 16777216 + s[9] * 65536 + s[10] * 256 + s[11]
            &&& p matches Pdu::CacheResponse { session_id } ==> session_id == field
            &&& p matches Pdu::ErrorReport { code } ==> code == field
            &&& p matches Pdu::EndOfData { session_id, serial, refresh, retry, expire } ==> session_id
                == field && serial == s[8] * 16777216 + s[9] * 65536 + s[10] * 256 + s[11] && refresh
                == s[12] * 16777216 + s[13] * 65536 + s[14] * 256 + s[15] && retry == s[16] * 16777216
                + s[17] * 65536 + s[18] * 256 + s[19] && expire == s[20] * 16777216 + s[21] * 65536
                + s[22] * 256 + s[23]
            &&& p matches Pdu::IPv4Prefix { announce, prefix_len, max_len, addr, asn } ==> announce
                == (s[8] % 2 == 1) && prefix_len == s[9] && max_len == s[10] && (0 <= i < 4
                ==> addr.octets@[i] == s[12 + i]) && asn == s[16] * 16777216 + s[17] * 65536 + s[18]
                * 256 + s[19]
            &&& p matches Pdu::IPv6Prefix { announce, prefix_len, max_len, addr, asn } ==> announce
                == (s[8] % 2 == 1) && prefix_len == s[9] && max_len == s[10] && (0 <= i < 16
                ==> addr.octets@[i] == s[12 + i]) && asn == s[28] * 16777216 + s[29] * 65536 + s[30]
                * 256 + s[31]
        }),
{
    let n = wire::u32_at(s, 4) as int;
    let b = s.subrange(8, n);
    assert forall|k: int| 0 <= k < b.len() implies #[trigger] b[k] == s[8 + k] by {}
}

/// Which PDUs bring a ROA: the prefix ones whose length fits the family. The ROA is for the
/// address in the first bits of that length, with the length and the AS number of the PDU.
pub proof fn lemma_which_roas_come(p: Pdu, j: int)
    ensures
        roa_of(p) is Some <==> (p matches Pdu::IPv4Prefix { prefix_len, .. } && prefix_len <= 32) || (
        p matches Pdu::IPv6Prefix { prefix_len, .. } && prefix_len <= 128),
        roa_of(p) matches Some((roa, comes)) ==> match p {
            Pdu::IPv4Prefix { announce, prefix_len, max_len, addr, asn } => {
                &&& comes == announce
                &&& roa.max_length == max_len
                &&& roa.origin_as == asn
                &&& roa.prefix.len == prefix_len
                &&& roa.prefix.addr is V4
                &&& 0 <= j < 32 ==> net::bit_at(roa.prefix.addr.bytes(), j) == (j < prefix_len
                    && net::bit_at(addr.octets@, j))
            },
            Pdu::IPv6Prefix { announce, prefix_len, max_len, addr, asn } => {
                &&& comes == announce
                &&& roa.max_length == max_len
                &&& roa.origin_as == asn
                &&& roa.prefix.len == prefix_len
                &&& roa.prefix.addr is V6
                &&& 0 <= j < 128 ==> net::bit_at(roa.prefix.addr.bytes(), j) == (j < prefix_len
                    && net::bit_at(addr.octets@, j))
            },
            _ => false,
        },
{
    match p {
        Pdu::IPv4Prefix { prefix_len, addr, .. } => {
            if 0 <= j < 32 {
                net::lemma_masking(IpAddr::V4(addr), prefix_len, j);
            }
        },
        Pdu::IPv6Prefix { prefix_len, addr, .. } => {
            if 0 <= j < 128 {
                net::lemma_masking(IpAddr::V6(addr), prefix_len, j);
            }
        },
        _ => {},
    }
}

} // verus!
