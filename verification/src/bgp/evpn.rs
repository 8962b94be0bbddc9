//! EVPN routes (RFC 7432, RFC 9136): MAC/IP advertisements, multicast membership and IP
//! prefixes, which ride in MP-BGP under AFI 25 and SAFI 70.
//!
//! A route is its type, the length of its body and the body. A body that is not
//! understood is kept as it is, so that the routes behind it can still be read (§7). With
//! VXLAN the three-octet label fields hold the VNI (RFC 8365 §5.1.3).

use vstd::prelude::*;
use vstd::string::*;

use crate::net;
use crate::net::{IpAddr, Ipv4Addr, Ipv6Addr, Prefix};
use crate::order::{Datum, Ranked};
use crate::run;
use crate::run::{Plain, Record};
use crate::text;
use crate::wire;

verus! {

/// Address family: L2VPN.
pub const AFI_L2VPN: u16 = 25;

/// Subsequent address family: EVPN.
pub const SAFI_EVPN: u8 = 70;

/// Route type: Ethernet Auto-Discovery.
pub const ROUTE_TYPE_ETH_AUTO_DISCOVERY: u8 = 1;

/// Route type: MAC/IP Advertisement.
pub const ROUTE_TYPE_MAC_IP: u8 = 2;

/// Route type: Inclusive Multicast Ethernet Tag.
pub const ROUTE_TYPE_IMET: u8 = 3;

/// Route type: Ethernet Segment.
pub const ROUTE_TYPE_ETH_SEGMENT: u8 = 4;

/// Route type: IP Prefix.
pub const ROUTE_TYPE_IP_PREFIX: u8 = 5;

/// Type of the Encapsulation extended community (RFC 9012 §4.1).
pub const ENCAP_EXT_COMMUNITY_TYPE: u8 = 0x03;

/// Sub-type of the Encapsulation extended community.
pub const ENCAP_EXT_COMMUNITY_SUBTYPE: u8 = 0x0c;

/// Tunnel type: VXLAN.
pub const TUNNEL_TYPE_VXLAN: u16 = 8;

/// The Encapsulation extended community for a tunnel type.
pub fn encap_ext_community(tunnel_type: u16) -> (r: [u8; 8])
    ensures
        r@ == seq![0x03u8, 0x0c, 0, 0, 0, 0] + wire::be16(tunnel_type),
{
    let r = [
        ENCAP_EXT_COMMUNITY_TYPE,
        ENCAP_EXT_COMMUNITY_SUBTYPE,
        0,
        0,
        0,
        0,
        (tunnel_type / 256) as u8,
        (tunnel_type % 256) as u8,
    ];
    assert(r@ =~= seq![0x03u8, 0x0c, 0, 0, 0, 0] + wire::be16(tunnel_type));
    r
}

/// A Route Distinguisher (RFC 4364 §4.2): its eight octets, the first two of which are
/// its type.
#[derive(Clone, Copy, PartialEq, Eq, PartialOrd, Ord, Hash, Debug)]
pub struct Rd(pub [u8; 8]);

/// The text of a Route Distinguisher.
pub open spec fn rd_text(b: Seq<u8>) -> Seq<char> {
    let kind = wire::u16_at(b, 0);
    if kind == 0 {
        text::decimal(wire::u16_at(b, 2) as nat) + seq![':'] + text::decimal(
            wire::u32_at(b, 4) as nat,
        )
    } else if kind == 1 {
        text::dotted(b.subrange(2, 6)) + seq![':'] + text::decimal(wire::u16_at(b, 6) as nat)
    } else if kind == 2 {
        text::decimal(wire::u32_at(b, 2) as nat) + seq![':'] + text::decimal(
            wire::u16_at(b, 6) as nat,
        )
    } else {
        "raw:"@ + text::hex_octet(b[0]) + text::hex_octet(b[1]) + text::hex_octet(b[2])
            + text::hex_octet(b[3]) + text::hex_octet(b[4]) + text::hex_octet(b[5])
            + text::hex_octet(b[6]) + text::hex_octet(b[7])
    }
}

impl Rd {
    /// Type 1: an IPv4 address and a 16-bit value.
    pub fn from_ip(ip: Ipv4Addr, value: u16) -> (r: Rd)
        ensures
            r.0@ == wire::be16(1) + ip.octets@ + wire::be16(value),
    {
        let o = ip.octets;
        let r = Rd([0, 1, o[0], o[1], o[2], o[3], (value / 256) as u8, (value % 256) as u8]);
        assert(r.0@ =~= wire::be16(1) + ip.octets@ + wire::be16(value));
        r
    }

    /// Type 0: a 16-bit AS number and a 32-bit value.
    pub fn from_as2(as_num: u16, value: u32) -> (r: Rd)
        ensures
            r.0@ == wire::be16(0) + wire::be16(as_num) + wire::be32(value),
    {
        let r = Rd(
            [
                0,
                0,
                (as_num / 256) as u8,
                (as_num % 256) as u8,
                (value / 16777216) as u8,
                (value / 65536 % 256) as u8,
                (value / 256 % 256) as u8,
                (value % 256) as u8,
            ],
        );
        assert(r.0@ =~= wire::be16(0) + wire::be16(as_num) + wire::be32(value));
        r
    }

    /// Append the text.
    pub fn push_text(&self, out: &mut String)
        ensures
            final(out)@ == old(out)@ + rd_text(self.0@),
    {
        let b = self.0.as_slice();
        let kind = wire::read_u16(b, 0);
        proof {
            reveal_strlit(":");
            assert(":"@ =~= seq![':']);
        }
        if kind == 0 {
            text::push_decimal(out, wire::read_u16(b, 2) as u32);
            out.append(":");
            text::push_decimal(out, wire::read_u32(b, 4));
        } else if kind == 1 {
            let ip = Ipv4Addr { octets: wire::read_arr4(b, 2) };
            assert(ip.octets@ =~= self.0@.subrange(2, 6));
            text::push_dotted(out, &ip);
            out.append(":");
            text::push_decimal(out, wire::read_u16(b, 6) as u32);
        } else if kind == 2 {
            text::push_decimal(out, wire::read_u32(b, 2));
            out.append(":");
            text::push_decimal(out, wire::read_u16(b, 6) as u32);
        } else {
            out.append("raw:");
            text::push_hex(out, b[0]);
            text::push_hex(out, b[1]);
            text::push_hex(out, b[2]);
            text::push_hex(out, b[3]);
            text::push_hex(out, b[4]);
            text::push_hex(out, b[5]);
            text::push_hex(out, b[6]);
            text::push_hex(out, b[7]);
        }
        assert(out@ =~= old(out)@ + rd_text(self.0@));
    }

    /// The text: the two numbers of the type, or the raw octets of an unknown type.
    pub fn to_string(&self) -> (r: String)
        ensures
            r@ == rd_text(self.0@),
    {
        let mut out = String::new();
        self.push_text(&mut out);
        assert(out@ =~= rd_text(self.0@));
        out
    }

    pub fn same(&self, other: &Rd) -> (r: bool)
        ensures
            r == (*self == *other),
    {
        let r = wire::same_bytes(self.0.as_slice(), other.0.as_slice());
        if r {
            assert(self.0 =~= other.0);
        }
        r
    }
}

/// An Ethernet Segment Identifier (§5): its ten octets.
#[derive(Clone, Copy, PartialEq, Eq, PartialOrd, Ord, Hash, Debug, Default)]
pub struct Esi(pub [u8; 10]);

impl Esi {
    /// The identifier of a segment with a single home: all zeros.
    pub fn zero() -> (r: Esi)
        ensures
            r.0@ == Seq::new(10, |i: int| 0u8),
    {
        let r = Esi([0, 0, 0, 0, 0, 0, 0, 0, 0, 0]);
        assert(r.0@ =~= Seq::new(10, |i: int| 0u8));
        r
    }

    /// The text: the octets in hexadecimal, with colons between.
    pub fn to_string(&self) -> (r: String)
        ensures
            r@ == text::hex_list(self.0@),
    {
        let mut out = String::new();
        text::push_hex_list(&mut out, self.0.as_slice());
        assert(out@ =~= text::hex_list(self.0@));
        out
    }

    pub fn same(&self, other: &Esi) -> (r: bool)
        ensures
            r == (*self == *other),
    {
        let r = wire::same_bytes(self.0.as_slice(), other.0.as_slice());
        if r {
            assert(self.0 =~= other.0);
        }
        r
    }
}

/// One EVPN route.
#[derive(Clone, PartialEq, Eq, PartialOrd, Ord, Hash, Debug)]
pub enum EvpnNlri {
    /// A MAC address, with an IP address where one is bound to it (§7.2).
    MacIp {
        rd: Rd,
        esi: Esi,
        eth_tag: u32,
        mac: [u8; 6],
        ip: Option<IpAddr>,
        /// The L2 VNI.
        label1: u32,
        /// The L3 VNI of symmetric routing, where there is one.
        label2: Option<u32>,
    },
    /// Membership in an instance, and the wish for its multicast traffic (§7.3).
    Imet { rd: Rd, eth_tag: u32, orig_ip: IpAddr },
    /// An IP prefix (RFC 9136 §3.1).
    IpPrefix {
        rd: Rd,
        esi: Esi,
        eth_tag: u32,
        prefix: Prefix,
        /// All zeros where label and next hop say enough.
        gw: IpAddr,
        /// The L3 VNI.
        label: u32,
    },
    /// A route that is not understood.
    Unknown { route_type: u8, body: Vec<u8> },
}

/// An EVPN route as a mathematical value.
pub enum EvpnView {
    MacIp {
        rd: Rd,
        esi: Esi,
        eth_tag: u32,
        mac: [u8; 6],
        ip: Option<IpAddr>,
        label1: u32,
        label2: Option<u32>,
    },
    Imet { rd: Rd, eth_tag: u32, orig_ip: IpAddr },
    IpPrefix { rd: Rd, esi: Esi, eth_tag: u32, prefix: Prefix, gw: IpAddr, label: u32 },
    Unknown { route_type: u8, body: Seq<u8> },
}

impl View for EvpnNlri {
    type V = EvpnView;

    open spec fn view(&self) -> EvpnView {
        match *self {
            EvpnNlri::MacIp { rd, esi, eth_tag, mac, ip, label1, label2 } => EvpnView::MacIp {
                rd,
                esi,
                eth_tag,
                mac,
                ip,
                label1,
                label2,
            },
            EvpnNlri::Imet { rd, eth_tag, orig_ip } => EvpnView::Imet { rd, eth_tag, orig_ip },
            EvpnNlri::IpPrefix { rd, esi, eth_tag, prefix, gw, label } => EvpnView::IpPrefix {
                rd,
                esi,
                eth_tag,
                prefix,
                gw,
                label,
            },
            EvpnNlri::Unknown { route_type, body } => EvpnView::Unknown { route_type, body: body@ },
        }
    }
}

impl EvpnView {
    /// The route type.
    pub open spec fn kind(self) -> u8 {
        match self {
            EvpnView::MacIp { .. } => 2,
            EvpnView::Imet { .. } => 3,
            EvpnView::IpPrefix { .. } => 5,
            EvpnView::Unknown { route_type, .. } => route_type,
        }
    }

    /// The Route Distinguisher, where the route is understood.
    pub open spec fn distinguisher(self) -> Option<Rd> {
        match self {
            EvpnView::MacIp { rd, .. } => Some(rd),
            EvpnView::Imet { rd, .. } => Some(rd),
            EvpnView::IpPrefix { rd, .. } => Some(rd),
            EvpnView::Unknown { .. } => None,
        }
    }

    /// The body.
    pub open spec fn body(self) -> Seq<u8> {
        match self {
            EvpnView::MacIp { rd, esi, eth_tag, mac, ip, label1, label2 } => rd.0@ + esi.0@
                + wire::be32(eth_tag) + seq![48u8] + mac@ + addr_field(ip) + wire::be24(label1) + (
            match label2 {
                Some(l) => wire::be24(l),
                None => Seq::empty(),
            }),
            EvpnView::Imet { rd, eth_tag, orig_ip } => rd.0@ + wire::be32(eth_tag) + addr_field(
                Some(orig_ip),
            ),
            EvpnView::IpPrefix { rd, esi, eth_tag, prefix, gw, label } => rd.0@ + esi.0@
                + wire::be32(eth_tag) + seq![prefix.len] + prefix.addr.bytes() + gateway(
                prefix,
                gw,
            ).bytes() + wire::be24(label),
            EvpnView::Unknown { body, .. } => body,
        }
    }
}

/// The gateway that can be written beside a prefix: an unspecified address of the
/// prefix's family where the families differ.
pub open spec fn gateway(prefix: Prefix, gw: IpAddr) -> IpAddr {
    match (prefix.addr, gw) {
        (IpAddr::V4(_), IpAddr::V6(_)) => IpAddr::V4(Ipv4Addr { octets: [0, 0, 0, 0] }),
        (IpAddr::V6(_), IpAddr::V4(_)) => IpAddr::V6(
            Ipv6Addr { octets: [0, 0, 0, 0, 0, 0, 0, 0, 0, 0, 0, 0, 0, 0, 0, 0] },
        ),
        _ => gw,
    }
}

/// An address with its length in bits, zero where there is none.
pub open spec fn addr_field(ip: Option<IpAddr>) -> Seq<u8> {
    match ip {
        None => seq![0u8],
        Some(a) => seq![a.width()] + a.bytes(),
    }
}

/// The address of `bits` bits at offset `i`, and its length in octets.
pub open spec fn addr_read(s: Seq<u8>, i: int, bits: u8) -> Option<(Option<IpAddr>, int)> {
    if bits == 0 {
        Some((None, 0))
    } else if bits == 32 && i + 4 <= s.len() {
        Some((Some(net::v4_at(s, i)), 4))
    } else if bits == 128 && i + 16 <= s.len() {
        Some((Some(net::v6_at(s, i)), 16))
    } else {
        None
    }
}

/// The MAC/IP route that a body holds.
#[verifier::opaque]
pub open spec fn mac_ip_read(b: Seq<u8>) -> Option<EvpnView> {
    if b.len() < 30 || b[22] != 48 {
        None
    } else {
        match addr_read(b, 30, b[29]) {
            Some((ip, n)) => if b.len() < 33 + n {
                None
            } else {
                Some(
                    EvpnView::MacIp {
                        rd: Rd(wire::arr8_at(b, 0)),
                        esi: Esi(wire::arr10_at(b, 8)),
                        eth_tag: wire::u32_at(b, 18),
                        mac: wire::arr6_at(b, 23),
                        ip,
                        label1: wire::u24_at(b, 30 + n),
                        label2: if b.len() >= 36 + n {
                            Some(wire::u24_at(b, 33 + n))
                        } else {
                            None
                        },
                    },
                )
            },
            None => None,
        }
    }
}

/// The multicast route that a body holds; the address is mandatory.
#[verifier::opaque]
pub open spec fn imet_read(b: Seq<u8>) -> Option<EvpnView> {
    if b.len() < 13 {
        None
    } else {
        match addr_read(b, 13, b[12]) {
            Some((Some(orig_ip), _)) => Some(
                EvpnView::Imet {
                    rd: Rd(wire::arr8_at(b, 0)),
                    eth_tag: wire::u32_at(b, 8),
                    orig_ip,
                },
            ),
            _ => None,
        }
    }
}

/// The prefix route that a body holds; the length of the body tells the family.
#[verifier::opaque]
pub open spec fn ip_prefix_read(b: Seq<u8>) -> Option<EvpnView> {
    let (addr, gw, at) = if b.len() == 34 {
        (net::v4_at(b, 23), net::v4_at(b, 27), 31int)
    } else {
        (net::v6_at(b, 23), net::v6_at(b, 39), 55int)
    };
    if b.len() != 34 && b.len() != 58 {
        None
    } else {
        match net::prefix_of(addr, b[22]) {
            Some(prefix) => Some(
                EvpnView::IpPrefix {
                    rd: Rd(wire::arr8_at(b, 0)),
                    esi: Esi(wire::arr10_at(b, 8)),
                    eth_tag: wire::u32_at(b, 18),
                    prefix,
                    gw,
                    label: wire::u24_at(b, at),
                },
            ),
            None => None,
        }
    }
}

/// The route that a body holds, where it is understood.
pub open spec fn body_read(kind: u8, b: Seq<u8>) -> Option<EvpnView> {
    if kind == 2 {
        mac_ip_read(b)
    } else if kind == 3 {
        imet_read(b)
    } else if kind == 5 {
        ip_prefix_read(b)
    } else {
        None
    }
}

/// A route: type, length of the body, body.
pub open spec fn nlri_octets(v: EvpnView) -> Seq<u8> {
    seq![v.kind(), (v.body().len() % 256) as u8] + v.body()
}

/// The route at the front of `s` and its length in octets; `None` where the length octet
/// promises more than there is.
pub open spec fn nlri_front(s: Seq<u8>) -> Option<(EvpnView, int)> {
    if s.len() < 2 || s.len() < 2 + s[1] {
        None
    } else {
        let b = s.subrange(2, 2 + s[1]);
        Some(
            (
                match body_read(s[0], b) {
                    Some(v) => v,
                    None => EvpnView::Unknown { route_type: s[0], body: b },
                },
                2 + s[1],
            ),
        )
    }
}

/// The routes that survive their encoding: labels of 24 bits, a gateway of the prefix's
/// family, and unknown bodies that fit the length octet and are not understood.
pub open spec fn encodable(v: EvpnView) -> bool {
    match v {
        EvpnView::MacIp { label1, label2, .. } => label1 < 16777216 && (label2 matches Some(l)
            ==> l < 16777216),
        EvpnView::Imet { .. } => true,
        EvpnView::IpPrefix { prefix, gw, label, .. } => prefix.wf() && (prefix.addr is V4) == (
        gw is V4) && label < 16777216,
        EvpnView::Unknown { route_type, body } => body.len() <= 255 && body_read(
            route_type,
            body,
        ) is None,
    }
}

impl EvpnNlri {
    /// The route type.
    pub fn route_type(&self) -> (r: u8)
        ensures
            r == self@.kind(),
    {
        match self {
            EvpnNlri::MacIp { .. } => ROUTE_TYPE_MAC_IP,
            EvpnNlri::Imet { .. } => ROUTE_TYPE_IMET,
            EvpnNlri::IpPrefix { .. } => ROUTE_TYPE_IP_PREFIX,
            EvpnNlri::Unknown { route_type, .. } => *route_type,
        }
    }

    /// The Route Distinguisher, where the route is understood.
    pub fn rd(&self) -> (r: Option<Rd>)
        ensures
            r == self@.distinguisher(),
    {
        match self {
            EvpnNlri::MacIp { rd, .. } => Some(*rd),
            EvpnNlri::Imet { rd, .. } => Some(*rd),
            EvpnNlri::IpPrefix { rd, .. } => Some(*rd),
            EvpnNlri::Unknown { .. } => None,
        }
    }

    /// The text of the route.
    pub fn to_string(&self) -> (r: String)
        ensures
            r@ == nlri_text(self@),
    {
        let mut out = String::new();
        match self {
            EvpnNlri::MacIp { rd, mac, ip, label1, .. } => {
                out.append("[2]:");
                rd.push_text(&mut out);
                out.append(":");
                text::push_hex_list(&mut out, mac.as_slice());
                if let Some(a) = ip {
                    out.append(":");
                    text::push_address(&mut out, a);
                }
                out.append(" vni ");
                text::push_decimal(&mut out, *label1);
            },
            EvpnNlri::Imet { rd, orig_ip, .. } => {
                out.append("[3]:");
                rd.push_text(&mut out);
                out.append(":");
                text::push_address(&mut out, orig_ip);
            },
            EvpnNlri::IpPrefix { rd, prefix, label, .. } => {
                out.append("[5]:");
                rd.push_text(&mut out);
                out.append(":");
                text::push_slashed(&mut out, prefix);
                out.append(" vni ");
                text::push_decimal(&mut out, *label);
            },
            EvpnNlri::Unknown { route_type, body } => {
                out.append("[");
                text::push_decimal(&mut out, *route_type as u32);
                out.append("]:len ");
                text::push_count(&mut out, body.len());
            },
        }
        assert(out@ =~= nlri_text(self@));
        out
    }
}

/// The text of a route.
pub open spec fn nlri_text(v: EvpnView) -> Seq<char> {
    match v {
        EvpnView::MacIp { rd, mac, ip, label1, .. } => "[2]:"@ + rd_text(rd.0@) + ":"@
            + text::hex_list(mac@) + (match ip {
            Some(a) => ":"@ + text::address(a),
            None => Seq::empty(),
        }) + " vni "@ + text::decimal(label1 as nat),
        EvpnView::Imet { rd, orig_ip, .. } => "[3]:"@ + rd_text(rd.0@) + ":"@ + text::address(
            orig_ip,
        ),
        EvpnView::IpPrefix { rd, prefix, label, .. } => "[5]:"@ + rd_text(rd.0@) + ":"@
            + text::slashed(prefix) + " vni "@ + text::decimal(label as nat),
        EvpnView::Unknown { route_type, body } => "["@ + text::decimal(route_type as nat)
            + "]:len "@ + text::decimal(body.len()),
    }
}

fn push_addr_field(out: &mut Vec<u8>, ip: &Option<IpAddr>)
    ensures
        final(out)@ == old(out)@ + addr_field(*ip),
{
    match ip {
        None => out.push(0),
        Some(a) => {
            if a.is_ipv4() {
                out.push(32);
            } else {
                out.push(128);
            }
            a.push_octets(out);
        },
    }
    assert(out@ =~= old(out)@ + addr_field(*ip));
}

fn read_ip(s: &[u8], i: usize, bits: u8) -> (r: Option<(Option<IpAddr>, usize)>)
    requires
        i <= s@.len(),
    ensures
        match r {
            Some((ip, n)) => addr_read(s@, i as int, bits) == Some((ip, n as int)) && n <= 16 && i
                + n <= s@.len(),
            None => addr_read(s@, i as int, bits) is None,
        },
{
    if bits == 0 {
        Some((None, 0))
    } else if bits == 32 && s.len() - i >= 4 {
        Some((Some(net::read_v4(s, i)), 4))
    } else if bits == 128 && s.len() - i >= 16 {
        Some((Some(net::read_v6(s, i)), 16))
    } else {
        None
    }
}

fn push_body(out: &mut Vec<u8>, nlri: &EvpnNlri)
    ensures
        final(out)@ == old(out)@ + nlri@.body(),
{
    match nlri {
        EvpnNlri::MacIp { rd, esi, eth_tag, mac, ip, label1, label2 } => {
            wire::push_all(out, rd.0.as_slice());
            wire::push_all(out, esi.0.as_slice());
            wire::push_u32(out, *eth_tag);
            out.push(48);
            wire::push_all(out, mac.as_slice());
            push_addr_field(out, ip);
            wire::push_u24(out, *label1);
            if let Some(l) = label2 {
                wire::push_u24(out, *l);
            }
        },
        EvpnNlri::Imet { rd, eth_tag, orig_ip } => {
            wire::push_all(out, rd.0.as_slice());
            wire::push_u32(out, *eth_tag);
            push_addr_field(out, &Some(*orig_ip));
        },
        EvpnNlri::IpPrefix { rd, esi, eth_tag, prefix, gw, label } => {
            wire::push_all(out, rd.0.as_slice());
            wire::push_all(out, esi.0.as_slice());
            wire::push_u32(out, *eth_tag);
            out.push(prefix.len);
            prefix.addr.push_octets(out);
            let g = match (&prefix.addr, gw) {
                (IpAddr::V4(_), IpAddr::V6(_)) => IpAddr::V4(Ipv4Addr { octets: [0, 0, 0, 0] }),
                (IpAddr::V6(_), IpAddr::V4(_)) => IpAddr::V6(
                    Ipv6Addr { octets: [0, 0, 0, 0, 0, 0, 0, 0, 0, 0, 0, 0, 0, 0, 0, 0] },
                ),
                _ => *gw,
            };
            assert(g == gateway(*prefix, *gw));
            g.push_octets(out);
            wire::push_u24(out, *label);
        },
        EvpnNlri::Unknown { body, .. } => {
            wire::push_all(out, body.as_slice());
        },
    }
    assert(out@ =~= old(out)@ + nlri@.body());
}

/// Append one route.
pub fn encode_evpn_nlri(out: &mut Vec<u8>, nlri: &EvpnNlri)
    ensures
        final(out)@ == old(out)@ + nlri_octets(nlri@),
{
    let mut body: Vec<u8> = Vec::new();
    push_body(&mut body, nlri);
    assert(body@ =~= nlri@.body());
    out.push(nlri.route_type());
    out.push((body.len() % 256) as u8);
    wire::push_all(out, body.as_slice());
    assert(out@ =~= old(out)@ + nlri_octets(nlri@));
}

fn decode_mac_ip(body: &[u8]) -> (r: Option<EvpnNlri>)
    ensures
        match r {
            Some(v) => mac_ip_read(body@) == Some(v@),
            None => mac_ip_read(body@) is None,
        },
{
    proof {
        reveal(mac_ip_read);
    }
    if body.len() < 30 || body[22] != 48 {
        return None;
    }
    let (ip, n) = match read_ip(body, 30, body[29]) {
        Some(x) => x,
        None => {
            return None;
        },
    };
    if body.len() < 33 + n {
        return None;
    }
    let label2 = if body.len() >= 36 + n {
        Some(wire::read_u24(body, 33 + n))
    } else {
        None
    };
    Some(
        EvpnNlri::MacIp {
            rd: Rd(wire::read_arr8(body, 0)),
            esi: Esi(wire::read_arr10(body, 8)),
            eth_tag: wire::read_u32(body, 18),
            mac: wire::read_arr6(body, 23),
            ip,
            label1: wire::read_u24(body, 30 + n),
            label2,
        },
    )
}

fn decode_imet(body: &[u8]) -> (r: Option<EvpnNlri>)
    ensures
        match r {
            Some(v) => imet_read(body@) == Some(v@),
            None => imet_read(body@) is None,
        },
{
    proof {
        reveal(imet_read);
    }
    if body.len() < 13 {
        return None;
    }
    match read_ip(body, 13, body[12]) {
        Some((Some(orig_ip), _)) => Some(
            EvpnNlri::Imet {
                rd: Rd(wire::read_arr8(body, 0)),
                eth_tag: wire::read_u32(body, 8),
                orig_ip,
            },
        ),
        _ => None,
    }
}

fn decode_ip_prefix(body: &[u8]) -> (r: Option<EvpnNlri>)
    ensures
        match r {
            Some(v) => ip_prefix_read(body@) == Some(v@),
            None => ip_prefix_read(body@) is None,
        },
{
    proof {
        reveal(ip_prefix_read);
    }
    let (addr, gw, label) = if body.len() == 34 {
        (net::read_v4(body, 23), net::read_v4(body, 27), wire::read_u24(body, 31))
    } else if body.len() == 58 {
        (net::read_v6(body, 23), net::read_v6(body, 39), wire::read_u24(body, 55))
    } else {
        return None;
    };
    match Prefix::checked(addr, body[22]) {
        Some(prefix) => Some(
            EvpnNlri::IpPrefix {
                rd: Rd(wire::read_arr8(body, 0)),
                esi: Esi(wire::read_arr10(body, 8)),
                eth_tag: wire::read_u32(body, 18),
                prefix,
                gw,
                label,
            },
        ),
        None => None,
    }
}

fn decode_body(route_type: u8, body: &[u8]) -> (r: Option<EvpnNlri>)
    ensures
        match r {
            Some(v) => body_read(route_type, body@) == Some(v@),
            None => body_read(route_type, body@) is None,
        },
{
    match route_type {
        2 => decode_mac_ip(body),
        3 => decode_imet(body),
        5 => decode_ip_prefix(body),
        _ => None,
    }
}

/// Decode one route from the front of `buf`, with the number of octets it takes. `None`
/// where it is cut short; a body that is not understood gives [`EvpnNlri::Unknown`].
pub fn decode_evpn_nlri(buf: &[u8]) -> (r: Option<(EvpnNlri, usize)>)
    ensures
        match r {
            Some((v, used)) => nlri_front(buf@) == Some((v@, used as int)) && 0 < used
                <= buf@.len(),
            None => nlri_front(buf@) is None,
        },
{
    if buf.len() < 2 {
        return None;
    }
    let len: usize = buf[1] as usize;
    if buf.len() < 2 + len {
        return None;
    }
    let body = &buf[2..2 + len];
    match decode_body(buf[0], body) {
        Some(v) => Some((v, 2 + len)),
        None => Some(
            (EvpnNlri::Unknown { route_type: buf[0], body: wire::copy_of(body) }, 2 + len),
        ),
    }
}

impl Record for EvpnNlri {
    type Ctx = Plain;

    open spec fn carried(v: EvpnView, c: Plain) -> bool {
        encodable(v)
    }

    open spec fn octets(v: EvpnView, c: Plain) -> Seq<u8> {
        nlri_octets(v)
    }

    open spec fn front(s: Seq<u8>, c: Plain) -> Option<(EvpnView, int)> {
        nlri_front(s)
    }

    proof fn lemma_front(v: EvpnView, c: Plain, rest: Seq<u8>) {
        lemma_evpn_round_trip(v, rest);
    }

    fn write(&self, out: &mut Vec<u8>, c: Plain) {
        encode_evpn_nlri(out, self);
    }

    fn read(s: &[u8], c: Plain) -> (r: Option<(EvpnNlri, usize)>) {
        decode_evpn_nlri(s)
    }
}

/// Decode a run of routes that fills `buf`; `None` where one of them is cut short.
pub fn decode_evpn_nlris(buf: &[u8]) -> (r: Option<Vec<EvpnNlri>>)
    ensures
        match r {
            Some(vs) => run::run_values::<EvpnNlri>(buf@, Plain) == Some(wire::views(vs@)),
            None => run::run_values::<EvpnNlri>(buf@, Plain) is None,
        },
{
    run::read_run::<EvpnNlri>(buf, Plain)
}

proof fn lemma_mac_ip_parts(
    rd: Seq<u8>,
    esi: Seq<u8>,
    tag: Seq<u8>,
    mac: Seq<u8>,
    field: Seq<u8>,
    l1: Seq<u8>,
    l2: Seq<u8>,
)
    requires
        rd.len() == 8,
        esi.len() == 10,
        tag.len() == 4,
        mac.len() == 6,
        l1.len() == 3,
    ensures
        ({
            let b = rd + esi + tag + seq![48u8] + mac + field + l1 + l2;
            let n = field.len() as int;
            &&& b.len() == 32 + n + l2.len()
            &&& b[22] == 48
            &&& b.subrange(0, 8) == rd
            &&& b.subrange(8, 18) == esi
            &&& b.subrange(18, 22) == tag
            &&& b.subrange(23, 29) == mac
            &&& b.subrange(29, 29 + n) == field
            &&& b.subrange(29 + n, 32 + n) == l1
            &&& b.subrange(32 + n, 32 + n + l2.len()) == l2
        }),
{
    let b = rd + esi + tag + seq![48u8] + mac + field + l1 + l2;
    let n = field.len() as int;
    assert(b.subrange(0, 8) =~= rd);
    assert(b.subrange(8, 18) =~= esi);
    assert(b.subrange(18, 22) =~= tag);
    assert(b.subrange(23, 29) =~= mac);
    assert(b.subrange(29, 29 + n) =~= field);
    assert(b.subrange(29 + n, 32 + n) =~= l1);
    assert(b.subrange(32 + n, 32 + n + l2.len()) =~= l2);
}

#[verifier::rlimit(30)]
proof fn lemma_mac_ip_back(v: EvpnView)
    requires
        v is MacIp,
        encodable(v),
    ensures
        mac_ip_read(v.body()) == Some(v),
        v.body().len() <= 255,
{
    reveal(mac_ip_read);
    if let EvpnView::MacIp { rd, esi, eth_tag, mac, ip, label1, label2 } = v {
        let b = v.body();
        let l2 = match label2 {
            Some(l) => wire::be24(l),
            None => Seq::empty(),
        };
        let n = addr_field(ip).len() as int;
        lemma_mac_ip_parts(
            rd.0@,
            esi.0@,
            wire::be32(eth_tag),
            mac@,
            addr_field(ip),
            wire::be24(label1),
            l2,
        );
        wire::lemma_arr8_placed(b, 0, rd.0);
        wire::lemma_arr10_placed(b, 8, esi.0);
        wire::lemma_u32_placed(b, 18, eth_tag);
        wire::lemma_arr6_placed(b, 23, mac);
        lemma_addr_back(ip, b, 29);
        wire::lemma_u24_placed(b, 29 + n, label1);
        if let Some(l) = label2 {
            wire::lemma_u24_placed(b, 32 + n, l);
        }
    }
}

proof fn lemma_addr_back(ip: Option<IpAddr>, b: Seq<u8>, i: int)
    requires
        0 <= i,
        i + addr_field(ip).len() <= b.len(),
        b.subrange(i, i + addr_field(ip).len()) == addr_field(ip),
    ensures
        addr_read(b, i + 1, b[i]) == Some((ip, addr_field(ip).len() - 1)),
{
    let f = addr_field(ip);
    assert forall|k: int| 0 <= k < f.len() implies b[i + k] == f[k] by {
        assert(b.subrange(i, i + f.len())[k] == f[k]);
    }
    assert(b[i + 0] == f[0]);
    match ip {
        Some(IpAddr::V4(a)) => {
            assert forall|k: int| 0 <= k < 4 implies b[i + 1 + k] == a.octets@[k] by {
                assert(b[i + (1 + k)] == f[1 + k]);
            }
            assert(wire::arr4_at(b, i + 1) =~= a.octets);
        },
        Some(IpAddr::V6(a)) => {
            assert forall|k: int| 0 <= k < 16 implies b[i + 1 + k] == a.octets@[k] by {
                assert(b[i + (1 + k)] == f[1 + k]);
            }
            assert(wire::arr16_at(b, i + 1) =~= a.octets);
        },
        None => {},
    }
}

proof fn lemma_imet_back(v: EvpnView)
    requires
        v is Imet,
    ensures
        imet_read(v.body()) == Some(v),
        v.body().len() <= 255,
{
    reveal(imet_read);
    if let EvpnView::Imet { rd, eth_tag, orig_ip } = v {
        let b = v.body();
        let f = addr_field(Some(orig_ip));
        wire::lemma_u32_back(rd.0@, eth_tag, f);
        assert(wire::arr8_at(b, 0) =~= rd.0);
        assert(b.subrange(12, 12 + f.len() as int) =~= f);
        lemma_addr_back(Some(orig_ip), b, 12);
    }
}

proof fn lemma_ip_prefix_parts(
    rd: Seq<u8>,
    esi: Seq<u8>,
    tag: Seq<u8>,
    len: u8,
    addr: Seq<u8>,
    gw: Seq<u8>,
    label: Seq<u8>,
)
    requires
        rd.len() == 8,
        esi.len() == 10,
        tag.len() == 4,
        label.len() == 3,
        addr.len() == gw.len(),
    ensures
        ({
            let b = rd + esi + tag + seq![len] + addr + gw + label;
            let n = addr.len() as int;
            &&& b.len() == 26 + 2 * n
            &&& b[22] == len
            &&& b.subrange(0, 8) == rd
            &&& b.subrange(8, 18) == esi
            &&& b.subrange(18, 22) == tag
            &&& b.subrange(23, 23 + n) == addr
            &&& b.subrange(23 + n, 23 + 2 * n) == gw
            &&& b.subrange(23 + 2 * n, 26 + 2 * n) == label
        }),
{
    let b = rd + esi + tag + seq![len] + addr + gw + label;
    let n = addr.len() as int;
    assert(b.subrange(0, 8) =~= rd);
    assert(b.subrange(8, 18) =~= esi);
    assert(b.subrange(18, 22) =~= tag);
    assert(b.subrange(23, 23 + n) =~= addr);
    assert(b.subrange(23 + n, 23 + 2 * n) =~= gw);
    assert(b.subrange(23 + 2 * n, 26 + 2 * n) =~= label);
}

proof fn lemma_ip_prefix_back(v: EvpnView)
    requires
        v is IpPrefix,
        encodable(v),
    ensures
        ip_prefix_read(v.body()) == Some(v),
        v.body().len() <= 255,
{
    reveal(ip_prefix_read);
    if let EvpnView::IpPrefix { rd, esi, eth_tag, prefix, gw, label } = v {
        let b = v.body();
        assert(gateway(prefix, gw) == gw);
        lemma_ip_prefix_parts(
            rd.0@,
            esi.0@,
            wire::be32(eth_tag),
            prefix.len,
            prefix.addr.bytes(),
            gw.bytes(),
            wire::be24(label),
        );
        wire::lemma_arr8_placed(b, 0, rd.0);
        wire::lemma_arr10_placed(b, 8, esi.0);
        wire::lemma_u32_placed(b, 18, eth_tag);
        match (prefix.addr, gw) {
            (IpAddr::V4(p), IpAddr::V4(g)) => {
                wire::lemma_arr4_placed(b, 23, p.octets);
                wire::lemma_arr4_placed(b, 27, g.octets);
                wire::lemma_u24_placed(b, 31, label);
            },
            (IpAddr::V6(p), IpAddr::V6(g)) => {
                wire::lemma_arr16_placed(b, 23, p.octets);
                wire::lemma_arr16_placed(b, 39, g.octets);
                wire::lemma_u24_placed(b, 55, label);
            },
            _ => {},
        }
    }
}

/// A route that survives its encoding is read back, from in front of anything.
pub proof fn lemma_evpn_round_trip(v: EvpnView, rest: Seq<u8>)
    requires
        encodable(v),
    ensures
        nlri_front(nlri_octets(v) + rest) == Some((v, nlri_octets(v).len() as int)),
{
    match v {
        EvpnView::MacIp { .. } => {
            lemma_mac_ip_back(v);
        },
        EvpnView::Imet { .. } => {
            lemma_imet_back(v);
        },
        EvpnView::IpPrefix { .. } => {
            lemma_ip_prefix_back(v);
        },
        EvpnView::Unknown { .. } => {},
    }
    let s = nlri_octets(v) + rest;
    assert(s.subrange(2, 2 + s[1]) =~= v.body());
}

/// Whatever the body, a route that is not cut short takes exactly the octets that its
/// length octet tells: what is not understood is skipped, not refused.
pub proof fn lemma_framing_alone_decides(s: Seq<u8>)
    ensures
        nlri_front(s) is Some <==> s.len() >= 2 && s.len() >= 2 + s[1],
        nlri_front(s) matches Some((v, used)) ==> used == 2 + s[1] && v.kind() == s[0],
{
    reveal(mac_ip_read);
    reveal(imet_read);
    reveal(ip_prefix_read);
}

/// The rank of an address that may be absent: absence first.
pub open spec fn opt_addr_rank(ip: Option<IpAddr>) -> Seq<u64> {
    match ip {
        None => seq![0u64],
        Some(a) => seq![1u64] + IpAddr::rank(a),
    }
}

/// The rank of a label that may be absent: absence first.
pub open spec fn opt_label_rank(label: Option<u32>) -> Seq<u64> {
    match label {
        None => seq![0u64],
        Some(l) => seq![1u64, l as u64],
    }
}

fn push_opt_addr(out: &mut Vec<u64>, ip: &Option<IpAddr>)
    ensures
        final(out)@ == old(out)@ + opt_addr_rank(*ip),
{
    match ip {
        None => out.push(0),
        Some(a) => {
            out.push(1);
            let mut e = a.rank_of();
            out.append(&mut e);
        },
    }
    assert(out@ =~= old(out)@ + opt_addr_rank(*ip));
}

fn push_opt_label(out: &mut Vec<u64>, label: &Option<u32>)
    ensures
        final(out)@ == old(out)@ + opt_label_rank(*label),
{
    match label {
        None => out.push(0),
        Some(l) => {
            out.push(1);
            out.push(*l as u64);
        },
    }
    assert(out@ =~= old(out)@ + opt_label_rank(*label));
}

/// Whether two MAC addresses are one.
pub fn same_mac(a: &[u8; 6], b: &[u8; 6]) -> (r: bool)
    ensures
        r == (*a == *b),
{
    let r = wire::same_bytes(a.as_slice(), b.as_slice());
    assert(r ==> *a =~= *b);
    r
}

fn same_addr(a: &Option<IpAddr>, b: &Option<IpAddr>) -> (r: bool)
    ensures
        r == (*a == *b),
{
    match (a, b) {
        (Some(x), Some(y)) => x.same(y),
        (None, None) => true,
        _ => false,
    }
}

impl Datum for EvpnNlri {
    fn dup(&self) -> (r: EvpnNlri) {
        match self {
            EvpnNlri::MacIp { rd, esi, eth_tag, mac, ip, label1, label2 } => EvpnNlri::MacIp {
                rd: *rd,
                esi: *esi,
                eth_tag: *eth_tag,
                mac: *mac,
                ip: *ip,
                label1: *label1,
                label2: *label2,
            },
            EvpnNlri::Imet { rd, eth_tag, orig_ip } => EvpnNlri::Imet {
                rd: *rd,
                eth_tag: *eth_tag,
                orig_ip: *orig_ip,
            },
            EvpnNlri::IpPrefix { rd, esi, eth_tag, prefix, gw, label } => EvpnNlri::IpPrefix {
                rd: *rd,
                esi: *esi,
                eth_tag: *eth_tag,
                prefix: *prefix,
                gw: *gw,
                label: *label,
            },
            EvpnNlri::Unknown { route_type, body } => EvpnNlri::Unknown {
                route_type: *route_type,
                body: wire::copy_of(body.as_slice()),
            },
        }
    }

    fn same(&self, other: &EvpnNlri) -> (r: bool) {
        match (self, other) {
            (
                EvpnNlri::MacIp { rd, esi, eth_tag, mac, ip, label1, label2 },
                EvpnNlri::MacIp {
                    rd: rd2,
                    esi: esi2,
                    eth_tag: tag2,
                    mac: mac2,
                    ip: ip2,
                    label1: l1,
                    label2: l2,
                },
            ) => rd.same(rd2) && esi.same(esi2) && *eth_tag == *tag2 && same_mac(mac, mac2)
                && same_addr(ip, ip2) && *label1 == *l1 && *label2 == *l2,
            (
                EvpnNlri::Imet { rd, eth_tag, orig_ip },
                EvpnNlri::Imet { rd: rd2, eth_tag: tag2, orig_ip: ip2 },
            ) => rd.same(rd2) && *eth_tag == *tag2 && orig_ip.same(ip2),
            (
                EvpnNlri::IpPrefix { rd, esi, eth_tag, prefix, gw, label },
                EvpnNlri::IpPrefix {
                    rd: rd2,
                    esi: esi2,
                    eth_tag: tag2,
                    prefix: prefix2,
                    gw: gw2,
                    label: l2,
                },
            ) => rd.same(rd2) && esi.same(esi2) && *eth_tag == *tag2 && prefix.same(prefix2)
                && gw.same(gw2) && *label == *l2,
            (
                EvpnNlri::Unknown { route_type, body },
                EvpnNlri::Unknown { route_type: type2, body: body2 },
            ) => *route_type == *type2 && wire::same_bytes(body.as_slice(), body2.as_slice()),
            _ => false,
        }
    }
}

/// The rank of a MAC/IP advertisement behind its route distinguisher.
pub open spec fn mac_ip_rank(
    esi: Esi,
    eth_tag: u32,
    mac: [u8; 6],
    ip: Option<IpAddr>,
    label1: u32,
    label2: Option<u32>,
) -> Seq<u64> {
    net::numbers(esi.0@) + seq![eth_tag as u64] + net::numbers(mac@) + opt_addr_rank(ip) + seq![
        label1 as u64,
    ] + opt_label_rank(label2)
}

/// The rank of an IP prefix behind its route distinguisher.
pub open spec fn ip_prefix_rank(esi: Esi, eth_tag: u32, prefix: Prefix, gw: IpAddr, label: u32) -> Seq<
    u64,
> {
    net::numbers(esi.0@) + seq![eth_tag as u64] + Prefix::rank(prefix) + IpAddr::rank(gw) + seq![
        label as u64,
    ]
}

impl Ranked for EvpnNlri {
    /// By kind, then by every field in order; the route distinguisher comes first.
    open spec fn rank(key: EvpnView) -> Seq<u64> {
        match key {
            EvpnView::MacIp { rd, esi, eth_tag, mac, ip, label1, label2 } => seq![0u64]
                + net::numbers(rd.0@) + mac_ip_rank(esi, eth_tag, mac, ip, label1, label2),
            EvpnView::Imet { rd, eth_tag, orig_ip } => seq![1u64] + net::numbers(rd.0@) + seq![
                eth_tag as u64,
            ] + IpAddr::rank(orig_ip),
            EvpnView::IpPrefix { rd, esi, eth_tag, prefix, gw, label } => seq![2u64]
                + net::numbers(rd.0@) + ip_prefix_rank(esi, eth_tag, prefix, gw, label),
            EvpnView::Unknown { route_type, body } => seq![3u64, route_type as u64] + net::numbers(
                body,
            ),
        }
    }

    fn rank_of(&self) -> (r: Vec<u64>) {
        let mut out: Vec<u64> = Vec::new();
        match self {
            EvpnNlri::MacIp { rd, esi, eth_tag, mac, ip, label1, label2 } => {
                out.push(0);
                net::push_numbers(&mut out, rd.0.as_slice());
                net::push_numbers(&mut out, esi.0.as_slice());
                out.push(*eth_tag as u64);
                net::push_numbers(&mut out, mac.as_slice());
                push_opt_addr(&mut out, ip);
                out.push(*label1 as u64);
                push_opt_label(&mut out, label2);
            },
            EvpnNlri::Imet { rd, eth_tag, orig_ip } => {
                out.push(1);
                net::push_numbers(&mut out, rd.0.as_slice());
                out.push(*eth_tag as u64);
                let mut e = orig_ip.rank_of();
                out.append(&mut e);
            },
            EvpnNlri::IpPrefix { rd, esi, eth_tag, prefix, gw, label } => {
                out.push(2);
                net::push_numbers(&mut out, rd.0.as_slice());
                net::push_numbers(&mut out, esi.0.as_slice());
                out.push(*eth_tag as u64);
                let mut e = prefix.rank_of();
                out.append(&mut e);
                let mut g = gw.rank_of();
                out.append(&mut g);
                out.push(*label as u64);
            },
            EvpnNlri::Unknown { route_type, body } => {
                out.push(3);
                out.push(*route_type as u64);
                net::push_numbers(&mut out, body.as_slice());
            },
        }
        assert(out@ =~= EvpnNlri::rank(self@));
        out
    }
}

proof fn lemma_split(a: Seq<u64>, x: Seq<u64>, b: Seq<u64>, y: Seq<u64>)
    requires
        a + x == b + y,
        a.len() == b.len(),
    ensures
        a == b,
        x == y,
{
    let n = a.len() as int;
    assert((a + x).take(n) =~= a);
    assert((b + y).take(n) =~= b);
    assert((a + x).skip(n) =~= x);
    assert((b + y).skip(n) =~= y);
}

proof fn lemma_numbers_split(a: Seq<u8>, x: Seq<u64>, b: Seq<u8>, y: Seq<u64>)
    requires
        net::numbers(a) + x == net::numbers(b) + y,
        a.len() == b.len(),
    ensures
        a == b,
        x == y,
{
    lemma_split(net::numbers(a), x, net::numbers(b), y);
    net::lemma_numbers_injective(a, b);
}

proof fn lemma_opt_addr_split(a: Option<IpAddr>, x: Seq<u64>, b: Option<IpAddr>, y: Seq<u64>)
    requires
        opt_addr_rank(a) + x == opt_addr_rank(b) + y,
    ensures
        a == b,
        x == y,
{
    assert((opt_addr_rank(a) + x)[0] == opt_addr_rank(a)[0]);
    assert((opt_addr_rank(b) + y)[0] == opt_addr_rank(b)[0]);
    match (a, b) {
        (Some(p), Some(q)) => {
            let (u, v) = (IpAddr::rank(p) + x, IpAddr::rank(q) + y);
            assert(opt_addr_rank(a) + x =~= seq![1u64] + u);
            assert(opt_addr_rank(b) + y =~= seq![1u64] + v);
            lemma_split(seq![1u64], u, seq![1u64], v);
            net::lemma_addr_rank(p, x, q, y);
        },
        (None, None) => {
            lemma_split(seq![0u64], x, seq![0u64], y);
        },
        _ => {},
    }
}

proof fn lemma_opt_label(a: Option<u32>, b: Option<u32>)
    requires
        opt_label_rank(a) == opt_label_rank(b),
    ensures
        a == b,
{
    assert(opt_label_rank(a)[0] == opt_label_rank(b)[0]);
    if a is Some {
        assert(opt_label_rank(a)[1] == opt_label_rank(b)[1]);
    }
}

proof fn lemma_mac_ip_rank(a: EvpnView, b: EvpnView)
    requires
        a is MacIp,
        b is MacIp,
        EvpnNlri::rank(a) == EvpnNlri::rank(b),
    ensures
        a == b,
{
    if let EvpnView::MacIp { rd, esi, eth_tag, mac, ip, label1, label2 } = a {
        if let EvpnView::MacIp {
            rd: rd2,
            esi: esi2,
            eth_tag: tag2,
            mac: mac2,
            ip: ip2,
            label1: l1,
            label2: l2,
        } = b {
            let (a6, b6) = (opt_label_rank(label2), opt_label_rank(l2));
            let (a5, b5) = (seq![label1 as u64] + a6, seq![l1 as u64] + b6);
            let (a4, b4) = (opt_addr_rank(ip) + a5, opt_addr_rank(ip2) + b5);
            let (a3, b3) = (net::numbers(mac@) + a4, net::numbers(mac2@) + b4);
            let (a2, b2) = (seq![eth_tag as u64] + a3, seq![tag2 as u64] + b3);
            let (a1, b1) = (net::numbers(esi.0@) + a2, net::numbers(esi2.0@) + b2);
            let (a0, b0) = (net::numbers(rd.0@) + a1, net::numbers(rd2.0@) + b1);
            assert(EvpnNlri::rank(a) =~= seq![0u64] + a0);
            assert(EvpnNlri::rank(b) =~= seq![0u64] + b0);
            lemma_split(seq![0u64], a0, seq![0u64], b0);
            lemma_numbers_split(rd.0@, a1, rd2.0@, b1);
            assert(rd.0 =~= rd2.0);
            lemma_numbers_split(esi.0@, a2, esi2.0@, b2);
            assert(esi.0 =~= esi2.0);
            lemma_split(seq![eth_tag as u64], a3, seq![tag2 as u64], b3);
            assert(seq![eth_tag as u64][0] == seq![tag2 as u64][0]);
            lemma_numbers_split(mac@, a4, mac2@, b4);
            assert(mac =~= mac2);
            lemma_opt_addr_split(ip, a5, ip2, b5);
            lemma_split(seq![label1 as u64], a6, seq![l1 as u64], b6);
            assert(seq![label1 as u64][0] == seq![l1 as u64][0]);
            lemma_opt_label(label2, l2);
        }
    }
}

proof fn lemma_imet_rank(a: EvpnView, b: EvpnView)
    requires
        a is Imet,
        b is Imet,
        EvpnNlri::rank(a) == EvpnNlri::rank(b),
    ensures
        a == b,
{
    if let EvpnView::Imet { rd, eth_tag, orig_ip } = a {
        if let EvpnView::Imet { rd: rd2, eth_tag: tag2, orig_ip: ip2 } = b {
            let e = Seq::<u64>::empty();
            let (a2, b2) = (IpAddr::rank(orig_ip) + e, IpAddr::rank(ip2) + e);
            let (a1, b1) = (seq![eth_tag as u64] + a2, seq![tag2 as u64] + b2);
            let (a0, b0) = (net::numbers(rd.0@) + a1, net::numbers(rd2.0@) + b1);
            assert(EvpnNlri::rank(a) =~= seq![1u64] + a0);
            assert(EvpnNlri::rank(b) =~= seq![1u64] + b0);
            lemma_split(seq![1u64], a0, seq![1u64], b0);
            lemma_numbers_split(rd.0@, a1, rd2.0@, b1);
            assert(rd.0 =~= rd2.0);
            lemma_split(seq![eth_tag as u64], a2, seq![tag2 as u64], b2);
            assert(seq![eth_tag as u64][0] == seq![tag2 as u64][0]);
            net::lemma_addr_rank(orig_ip, e, ip2, e);
        }
    }
}

proof fn lemma_ip_prefix_rank(a: EvpnView, b: EvpnView)
    requires
        a is IpPrefix,
        b is IpPrefix,
        EvpnNlri::rank(a) == EvpnNlri::rank(b),
    ensures
        a == b,
{
    if let EvpnView::IpPrefix { rd, esi, eth_tag, prefix, gw, label } = a {
        if let EvpnView::IpPrefix {
            rd: rd2,
            esi: esi2,
            eth_tag: tag2,
            prefix: prefix2,
            gw: gw2,
            label: l2,
        } = b {
            let (a5, b5) = (seq![label as u64], seq![l2 as u64]);
            let (a4, b4) = (IpAddr::rank(gw) + a5, IpAddr::rank(gw2) + b5);
            let (a3, b3) = (Prefix::rank(prefix) + a4, Prefix::rank(prefix2) + b4);
            let (a2, b2) = (seq![eth_tag as u64] + a3, seq![tag2 as u64] + b3);
            let (a1, b1) = (net::numbers(esi.0@) + a2, net::numbers(esi2.0@) + b2);
            let (a0, b0) = (net::numbers(rd.0@) + a1, net::numbers(rd2.0@) + b1);
            assert(EvpnNlri::rank(a) =~= seq![2u64] + a0);
            assert(EvpnNlri::rank(b) =~= seq![2u64] + b0);
            lemma_split(seq![2u64], a0, seq![2u64], b0);
            lemma_numbers_split(rd.0@, a1, rd2.0@, b1);
            assert(rd.0 =~= rd2.0);
            lemma_numbers_split(esi.0@, a2, esi2.0@, b2);
            assert(esi.0 =~= esi2.0);
            lemma_split(seq![eth_tag as u64], a3, seq![tag2 as u64], b3);
            assert(seq![eth_tag as u64][0] == seq![tag2 as u64][0]);
            net::lemma_prefix_rank(prefix, a4, prefix2, b4);
            net::lemma_addr_rank(gw, a5, gw2, b5);
            assert(a5[0] == b5[0]);
        }
    }
}

/// Routes of one rank are one route: those that differ only in the route distinguisher
/// stay apart.
pub proof fn lemma_evpn_rank(a: EvpnView, b: EvpnView)
    requires
        EvpnNlri::rank(a) == EvpnNlri::rank(b),
    ensures
        a == b,
{
    let (x, y) = (EvpnNlri::rank(a), EvpnNlri::rank(b));
    assert(x[0] == y[0]);
    match (a, b) {
        (EvpnView::MacIp { .. }, EvpnView::MacIp { .. }) => lemma_mac_ip_rank(a, b),
        (EvpnView::Imet { .. }, EvpnView::Imet { .. }) => lemma_imet_rank(a, b),
        (EvpnView::IpPrefix { .. }, EvpnView::IpPrefix { .. }) => lemma_ip_prefix_rank(a, b),
        (
            EvpnView::Unknown { route_type, body },
            EvpnView::Unknown { route_type: type2, body: body2 },
        ) => {
            assert(x[1] == y[1]);
            assert(x.skip(2) =~= net::numbers(body));
            assert(y.skip(2) =~= net::numbers(body2));
            net::lemma_numbers_injective(body, body2);
        },
        _ => {},
    }
}

/// Which bodies are understood, by type and length: of type 2 with a MAC address of 48 bits
/// and an address of none, 32 or 128 bits, of type 3 with one of 32 or 128, and of type 5
/// with the length of one of the families and a prefix that fits it; of no other type any.
pub proof fn lemma_which_routes_are_understood(b: Seq<u8>, kind: u8)
    ensures
        body_read(2, b) is Some <==> b.len() >= 33 && b[22] == 48 && (b[29] == 0 || (b[29] == 32
            && b.len() >= 37) || (b[29] == 128 && b.len() >= 49)),
        body_read(3, b) is Some <==> b.len() >= 13 && ((b[12] == 32 && b.len() >= 17) || (b[12] == 128
            && b.len() >= 29)),
        body_read(5, b) is Some <==> (b.len() == 34 && b[22] <= 32) || (b.len() == 58 && b[22] <= 128),
        kind != 2 && kind != 3 && kind != 5 ==> body_read(kind, b) is None,
{
    reveal(mac_ip_read);
    reveal(imet_read);
    reveal(ip_prefix_read);
}

/// What a MAC/IP route says, octet by octet. The second label is there exactly where three
/// more octets are.
pub proof fn lemma_what_a_mac_route_says(b: Seq<u8>, i: int)
    requires
        body_read(2, b) is Some,
    ensures
        ({
            let n = b[29] as int / 8;
            body_read(2, b) matches Some(EvpnView::MacIp { rd, esi, eth_tag, mac, ip, label1, label2 })
                && (0 <= i < 8 ==> rd.0@[i] == b[i]) && (0 <= i < 10 ==> esi.0@[i] == b[8 + i])
                && eth_tag == b[18] * 16777216 + b[19] * 65536 + b[20] * 256 + b[21] && (0 <= i < 6
                ==> mac@[i] == b[23 + i]) && (ip is None <==> n == 0) && (ip matches Some(a) ==> (
            a is V4 <==> n == 4) && (0 <= i < n ==> a.bytes()[i] == b[30 + i])) && label1 == b[30 + n]
                * 65536 + b[31 + n] * 256 + b[32 + n] && (label2 is Some <==> b.len() >= 36 + n) && (
            label2 matches Some(l) ==> l == b[33 + n] * 65536 + b[34 + n] * 256 + b[35 + n])
        }),
{
    reveal(mac_ip_read);
}

/// What a multicast route and a prefix route say, octet by octet.
pub proof fn lemma_what_other_routes_say(b: Seq<u8>, i: int)
    ensures
        body_read(3, b) matches Some(v) ==> (v matches EvpnView::Imet { rd, eth_tag, orig_ip } && (0 <= i
            < 8 ==> rd.0@[i] == b[i]) && eth_tag == b[8] * 16777216 + b[9] * 65536 + b[10] * 256 + b[11]
            && (orig_ip is V4 <==> b[12] == 32) && (0 <= i < b[12] as int / 8 ==> orig_ip.bytes()[i]
            == b[13 + i])),
        body_read(5, b) matches Some(v) ==> (v matches EvpnView::IpPrefix {
            rd,
            esi,
            eth_tag,
            prefix,
            gw,
            label,
        } && ({
            let n = if b.len() == 34 {
                4int
            } else {
                16
            };
            &&& 0 <= i < 8 ==> rd.0@[i] == b[i]
            &&& 0 <= i < 10 ==> esi.0@[i] == b[8 + i]
            &&& eth_tag == b[18] * 16777216 + b[19] * 65536 + b[20] * 256 + b[21]
            &&& prefix.len == b[22]
            &&& (prefix.addr is V4) == (n == 4)
            &&& 0 <= i < 8 * n ==> net::bit_at(prefix.addr.bytes(), i) == (i < b[22] && net::bit_at(
                b.subrange(23, 23 + n),
                i,
            ))
            &&& (gw is V4) == (n == 4)
            &&& 0 <= i < n ==> gw.bytes()[i] == b[23 + n + i]
            &&& label == b[23 + 2 * n] * 65536 + b[24 + 2 * n] * 256 + b[25 + 2 * n]
        })),
{
    reveal(imet_read);
    reveal(ip_prefix_read);
    if body_read(5, b) is Some {
        let a = if b.len() == 34 {
            net::v4_at(b, 23)
        } else {
            net::v6_at(b, 23)
        };
        if 0 <= i < a.width() {
            net::lemma_masking(a, b[22], i);
            let n = if b.len() == 34 {
                4int
            } else {
                16
            };
            assert(a.bytes() =~= b.subrange(23, 23 + n));
        }
    }
}

} // verus!
