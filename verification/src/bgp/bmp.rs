//! The BGP Monitoring Protocol (RFC 7854): what a router tells a monitoring station of its
//! sessions.
//!
//! A message is a common header of version, length and type, and a body. Where it is about
//! a peer, the body begins with a per-peer header. Whole BGP messages stand in the bodies
//! as they are.

use vstd::prelude::*;

use crate::bgp::tlv;
use crate::bgp::tlv::{Frame, Tlv, TlvView};
use crate::net::{IpAddr, Ipv4Addr};
use crate::run::Record;
use crate::wire;

pub mod info_type;
pub mod msg_type;
pub mod peer_down_reason;
pub mod peer_type;

verus! {

/// The version spoken here.
pub const VERSION: u8 = 3;

/// The length of the common header.
pub const COMMON_HEADER_LEN: usize = 6;

/// The length of the per-peer header.
pub const PER_PEER_HEADER_LEN: usize = 42;

/// Peer flag: the address of the peer is IPv6.
pub const PEER_FLAG_V_IPV6: u8 = 0x80;

/// Which peer a message is about, and when (§4.2).
#[derive(Clone, PartialEq, Eq, Debug)]
pub struct PerPeerHeader {
    pub peer_type: u8,
    pub flags: u8,
    /// Zero for an ordinary peer.
    pub distinguisher: [u8; 8],
    pub address: IpAddr,
    pub asn: u32,
    pub bgp_id: Ipv4Addr,
    pub timestamp_secs: u32,
    pub timestamp_micros: u32,
}

/// Zeros.
pub open spec fn zeros(n: int) -> Seq<u8> {
    Seq::new(n as nat, |i: int| 0u8)
}

/// An address in a field of sixteen octets: IPv4 in the last four.
pub open spec fn wide(a: IpAddr) -> Seq<u8> {
    match a {
        IpAddr::V4(v) => zeros(12) + v.octets@,
        IpAddr::V6(v) => v.octets@,
    }
}

impl PerPeerHeader {
    /// The octets.
    pub open spec fn octets(self) -> Seq<u8> {
        seq![self.peer_type, self.flags] + self.distinguisher@ + wide(self.address) + wire::be32(
            self.asn,
        ) + self.bgp_id.octets@ + wire::be32(self.timestamp_secs) + wire::be32(
            self.timestamp_micros,
        )
    }

    /// The header of an ordinary peer; its flag tells the family of its address.
    pub fn global(
        address: IpAddr,
        asn: u32,
        bgp_id: Ipv4Addr,
        timestamp_secs: u32,
        timestamp_micros: u32,
    ) -> (r: PerPeerHeader)
        ensures
            r.peer_type == 0,
            r.flags == (if address is V6 {
                0x80u8
            } else {
                0
            }),
            r.distinguisher@ == zeros(8),
            r.address == address,
            r.asn == asn,
            r.bgp_id == bgp_id,
            r.timestamp_secs == timestamp_secs,
            r.timestamp_micros == timestamp_micros,
    {
        let flags: u8 = if address.is_ipv6() {
            PEER_FLAG_V_IPV6
        } else {
            0
        };
        let distinguisher: [u8; 8] = [0, 0, 0, 0, 0, 0, 0, 0];
        assert(distinguisher@ =~= zeros(8));
        PerPeerHeader {
            peer_type: peer_type::GLOBAL_INSTANCE,
            flags,
            distinguisher,
            address,
            asn,
            bgp_id,
            timestamp_secs,
            timestamp_micros,
        }
    }

    /// Append the octets.
    pub fn encode(&self, out: &mut Vec<u8>)
        ensures
            final(out)@ == old(out)@ + self.octets(),
            self.octets().len() == 42,
    {
        out.push(self.peer_type);
        out.push(self.flags);
        wire::push_all(out, self.distinguisher.as_slice());
        encode_addr16(out, self.address);
        wire::push_u32(out, self.asn);
        wire::push_all(out, self.bgp_id.octets.as_slice());
        wire::push_u32(out, self.timestamp_secs);
        wire::push_u32(out, self.timestamp_micros);
        assert(out@ =~= old(out)@ + self.octets());
    }
}

fn encode_addr16(out: &mut Vec<u8>, addr: IpAddr)
    ensures
        final(out)@ == old(out)@ + wide(addr),
{
    match addr {
        IpAddr::V4(a) => {
            wire::push_u64(out, 0);
            wire::push_u32(out, 0);
            wire::push_all(out, a.octets.as_slice());
        },
        IpAddr::V6(a) => wire::push_all(out, a.octets.as_slice()),
    }
    assert(out@ =~= old(out)@ + wide(addr));
}

/// A message: version, length of the whole, type, body.
pub open spec fn framed(kind: u8, b: Seq<u8>) -> Seq<u8> {
    seq![3u8] + wire::be32(((6 + b.len()) % 4294967296) as u32) + seq![kind] + b
}

fn total(n: usize) -> (r: u32)
    ensures
        r == (6 + n) % 4294967296,
{
    ((n as u64 % 4294967296 + 6) % 4294967296) as u32
}

fn with_header(kind: u8, body: &[u8]) -> (r: Vec<u8>)
    ensures
        r@ == framed(kind, body@),
{
    let mut out: Vec<u8> = Vec::new();
    out.push(VERSION);
    let n = total(body.len());
    wire::push_u32(&mut out, n);
    out.push(kind);
    wire::push_all(&mut out, body);
    assert(out@ =~= seq![3u8] + wire::be32(n) + seq![kind] + body@);
    out
}

/// One piece of information.
pub open spec fn info(kind: u16, value: Seq<u8>) -> Seq<u8> {
    Tlv::octets((TlvView { kind, body: value }), Frame::Long)
}

/// The first message: what the router is and what it is called (§4.3).
pub fn initiation(sys_name: &str, sys_descr: &str) -> (r: Vec<u8>)
    ensures
        r@ == framed(
            4,
            info(1, vstd::utf8::encode_utf8(sys_descr@)) + info(
                2,
                vstd::utf8::encode_utf8(sys_name@),
            ),
        ),
{
    let mut body: Vec<u8> = Vec::new();
    tlv::push_tlv(&mut body, info_type::SYS_DESCR, sys_descr.as_bytes(), Frame::Long);
    tlv::push_tlv(&mut body, info_type::SYS_NAME, sys_name.as_bytes(), Frame::Long);
    assert(body@ =~= info(1, vstd::utf8::encode_utf8(sys_descr@)) + info(
        2,
        vstd::utf8::encode_utf8(sys_name@),
    ));
    with_header(msg_type::INITIATION, body.as_slice())
}

/// The last message, with a reason (§4.5).
pub fn termination(reason: u16) -> (r: Vec<u8>)
    ensures
        r@ == framed(5, info(1, wire::be16(reason))),
{
    let mut value: Vec<u8> = Vec::new();
    wire::push_u16(&mut value, reason);
    assert(value@ =~= wire::be16(reason));
    let mut body: Vec<u8> = Vec::new();
    tlv::push_tlv(&mut body, 1, value.as_slice(), Frame::Long);
    assert(body@ =~= info(1, wire::be16(reason)));
    with_header(msg_type::TERMINATION, body.as_slice())
}

/// A session came up (§4.10): the local end, and both OPEN messages.
pub fn peer_up(
    pph: &PerPeerHeader,
    local_addr: IpAddr,
    local_port: u16,
    remote_port: u16,
    sent_open: &[u8],
    received_open: &[u8],
) -> (r: Vec<u8>)
    ensures
        r@ == framed(
            3,
            pph.octets() + wide(local_addr) + wire::be16(local_port) + wire::be16(remote_port)
                + sent_open@ + received_open@,
        ),
{
    let mut body: Vec<u8> = Vec::new();
    pph.encode(&mut body);
    encode_addr16(&mut body, local_addr);
    wire::push_u16(&mut body, local_port);
    wire::push_u16(&mut body, remote_port);
    wire::push_all(&mut body, sent_open);
    wire::push_all(&mut body, received_open);
    let ghost p = pph.octets();
    assert(body@ =~= p + wide(local_addr) + wire::be16(local_port) + wire::be16(remote_port)
        + sent_open@ + received_open@);
    with_header(msg_type::PEER_UP, body.as_slice())
}

/// A session went down (§4.9): the reason, and what belongs to it.
pub fn peer_down(pph: &PerPeerHeader, reason: u8, data: &[u8]) -> (r: Vec<u8>)
    ensures
        r@ == framed(2, pph.octets() + seq![reason] + data@),
{
    let mut body: Vec<u8> = Vec::new();
    pph.encode(&mut body);
    body.push(reason);
    wire::push_all(&mut body, data);
    let ghost p = pph.octets();
    assert(body@ =~= p + seq![reason] + data@);
    with_header(msg_type::PEER_DOWN, body.as_slice())
}

/// A peer sent an UPDATE (§4.6), which follows as it came.
pub fn route_monitoring(pph: &PerPeerHeader, bgp_update: &[u8]) -> (r: Vec<u8>)
    ensures
        r@ == framed(0, pph.octets() + bgp_update@),
{
    let mut body: Vec<u8> = Vec::new();
    pph.encode(&mut body);
    wire::push_all(&mut body, bgp_update);
    let ghost p = pph.octets();
    assert(body@ =~= p + bgp_update@);
    with_header(msg_type::ROUTE_MONITORING, body.as_slice())
}

/// The type and the length that a common header tells.
pub open spec fn header_read(s: Seq<u8>) -> Option<(u8, u32)> {
    if s.len() < 6 || s[0] != 3 || wire::u32_at(s, 1) < 6 {
        None
    } else {
        Some((s[5], wire::u32_at(s, 1)))
    }
}

/// The type and the length of a message; `None` where the header is cut short, of another
/// version, or tells less than its own length.
pub fn parse_common_header(buf: &[u8]) -> (r: Option<(u8, usize)>)
    ensures
        match r {
            Some((kind, len)) => header_read(buf@) matches Some((k, n)) && k == kind && n == len,
            None => header_read(buf@) is None,
        },
{
    if buf.len() < COMMON_HEADER_LEN || buf[0] != VERSION {
        return None;
    }
    let n = wire::read_u32(buf, 1);
    if n < 6 {
        return None;
    }
    Some((buf[5], n as usize))
}

proof fn lemma_header(n: u32, kind: u8, b: Seq<u8>)
    requires
        n >= 6,
    ensures
        header_read(seq![3u8] + wire::be32(n) + seq![kind] + b) == Some((kind, n)),
{
    let s = seq![3u8] + wire::be32(n) + seq![kind] + b;
    assert(s.subrange(1, 5) =~= wire::be32(n));
    wire::lemma_u32_placed(s, 1, n);
    assert(s[5] == kind);
}

/// Every message tells its type and its length truly, where the length fits its field.
pub proof fn lemma_header_is_true(kind: u8, b: Seq<u8>)
    requires
        6 + b.len() <= 4294967295,
    ensures
        header_read(framed(kind, b)) == Some((kind, framed(kind, b).len() as u32)),
{
    let n = 6 + b.len();
    assert(n % 4294967296 == n);
    lemma_header(n as u32, kind, b);
}

/// Which common headers are read: six octets, of version 3, telling a length of six at
/// least. The type is the last of them.
pub proof fn lemma_which_headers_are_read(s: Seq<u8>)
    ensures
        header_read(s) is Some <==> s.len() >= 6 && s[0] == 3 && s[1] * 16777216 + s[2] * 65536
            + s[3] * 256 + s[4] >= 6,
        header_read(s) matches Some((kind, n)) ==> kind == s[5] && n == s[1] * 16777216 + s[2] * 65536
            + s[3] * 256 + s[4],
{
}

/// The per-peer header, octet by octet: type, flags, distinguisher, the address in the last
/// of sixteen octets, AS number, identifier and time.
pub proof fn lemma_peer_header_octets(h: PerPeerHeader, i: int)
    ensures
        ({
            let s = h.octets();
            &&& s.len() == 42
            &&& s[0] == h.peer_type
            &&& s[1] == h.flags
            &&& 0 <= i < 8 ==> s[2 + i] == h.distinguisher@[i]
            &&& h.address matches IpAddr::V4(a) ==> (0 <= i < 4 ==> s[22 + i] == a.octets@[i]) && (0
                <= i < 12 ==> s[10 + i] == 0)
            &&& h.address matches IpAddr::V6(a) ==> (0 <= i < 16 ==> s[10 + i] == a.octets@[i])
            &&& s[26] * 16777216 + s[27] * 65536 + s[28] * 256 + s[29] == h.asn
            &&& 0 <= i < 4 ==> s[30 + i] == h.bgp_id.octets@[i]
            &&& s[34] * 16777216 + s[35] * 65536 + s[36] * 256 + s[37] == h.timestamp_secs
            &&& s[38] * 16777216 + s[39] * 65536 + s[40] * 256 + s[41] == h.timestamp_micros
        }),
{
}

} // verus!
