//! Path attributes (RFC 4271 §4.3): what an UPDATE says of its routes.
//!
//! An attribute is its flags, its type, its length in one or two octets, and its value.
//! AS numbers are held as 32 bits; how wide they are in AS_PATH and AGGREGATOR depends on
//! the session. What becomes of a malformed attribute follows RFC 7606: the routes are
//! treated as withdrawn, the attribute is dropped, or it is kept as it is.

use vstd::prelude::*;

use crate::bgp;
use crate::bgp::as_trans_fit;
use crate::bgp::attr::as_path::SegmentView;
use crate::bgp::evpn;
use crate::bgp::evpn::{EvpnNlri, EvpnView, AFI_L2VPN, SAFI_EVPN};
use crate::bgp::flowspec;
use crate::bgp::flowspec::{ComponentView, FlowSpec, SAFI_FLOWSPEC};
use crate::bgp::link_state;
use crate::bgp::link_state::{
    BgpLsAttribute, LinkStateNlri, LsTlv, LsView, AFI_LINK_STATE, SAFI_LINK_STATE,
};
use crate::bgp::sr_policy;
use crate::bgp::sr_policy::{SrPolicyNlri, TunnelTlv, TunnelView, SAFI_SR_POLICY};
use crate::bgp::srv6;
use crate::bgp::srv6::{ServiceView, Srv6ServiceTlv};
use crate::bgp::tlv;
use crate::bgp::tlv::{Frame, Tlv, TlvView};
use crate::bgp::{AFI_IPV4, AFI_IPV6, SAFI_UNICAST};
use crate::net::{Ipv4Addr, Prefix};
use crate::run;
use crate::run::{Plain, Record};
use crate::wire;

pub mod as_path;

pub use crate::bgp::attr::as_path::{reconstruct_as_path, AsPathSegment};

verus! {

/// The attribute is optional.
pub const FLAG_OPTIONAL: u8 = 0x80;

/// The attribute is passed on to other ASes.
pub const FLAG_TRANSITIVE: u8 = 0x40;

/// Somebody passed the attribute on without understanding it.
pub const FLAG_PARTIAL: u8 = 0x20;

/// The length has two octets.
pub const FLAG_EXTENDED_LEN: u8 = 0x10;

/// How a route came into BGP (§5.1.1).
#[derive(Clone, Copy, PartialEq, Eq, Structural, Debug)]
pub enum Origin {
    /// From within its AS.
    Igp,
    /// By EGP.
    Egp,
    /// In some other way.
    Incomplete,
}

impl Origin {
    /// The code.
    pub open spec fn code(self) -> u8 {
        match self {
            Origin::Igp => 0,
            Origin::Egp => 1,
            Origin::Incomplete => 2,
        }
    }

    /// The origin of a code.
    pub open spec fn of_code(v: u8) -> Option<Origin> {
        if v == 0 {
            Some(Origin::Igp)
        } else if v == 1 {
            Some(Origin::Egp)
        } else if v == 2 {
            Some(Origin::Incomplete)
        } else {
            None
        }
    }

    /// Decode the origin octet.
    pub fn from_u8(v: u8) -> (r: Option<Origin>)
        ensures
            r == Origin::of_code(v),
    {
        match v {
            0 => Some(Origin::Igp),
            1 => Some(Origin::Egp),
            2 => Some(Origin::Incomplete),
            _ => None,
        }
    }

    /// The origin octet.
    pub fn as_u8(self) -> (r: u8)
        ensures
            r == self.code(),
    {
        match self {
            Origin::Igp => 0,
            Origin::Egp => 1,
            Origin::Incomplete => 2,
        }
    }
}

/// One path attribute.
#[derive(Clone, PartialEq, Eq, Debug)]
pub enum PathAttribute {
    Origin(Origin),
    AsPath(Vec<AsPathSegment>),
    NextHop(Ipv4Addr),
    MultiExitDisc(u32),
    LocalPref(u32),
    AtomicAggregate,
    /// RFC 1997.
    Communities(Vec<u32>),
    /// RFC 8092.
    LargeCommunities(Vec<(u32, u32, u32)>),
    /// RFC 4360.
    ExtendedCommunities(Vec<[u8; 8]>),
    /// Reachable prefixes of one family (RFC 4760).
    MpReachNlri { afi: u16, safi: u8, next_hop: Vec<u8>, nlri: Vec<Prefix> },
    /// Withdrawn prefixes of one family.
    MpUnreachNlri { afi: u16, safi: u8, withdrawn: Vec<Prefix> },
    MpReachEvpn { next_hop: Vec<u8>, nlri: Vec<EvpnNlri> },
    MpUnreachEvpn { withdrawn: Vec<EvpnNlri> },
    /// The next hop of flow specifications means nothing and is mostly empty.
    MpReachFlowSpec { afi: u16, next_hop: Vec<u8>, nlri: Vec<FlowSpec> },
    MpUnreachFlowSpec { afi: u16, withdrawn: Vec<FlowSpec> },
    /// RFC 4456.
    OriginatorId(Ipv4Addr),
    /// RFC 4456.
    ClusterList(Vec<Ipv4Addr>),
    Aggregator { asn: u32, id: Ipv4Addr },
    /// RFC 6793.
    As4Path(Vec<AsPathSegment>),
    /// RFC 6793.
    As4Aggregator { asn: u32, id: Ipv4Addr },
    /// RFC 9252: Service TLVs, and the other TLVs as they are.
    PrefixSid { srv6: Vec<Srv6ServiceTlv>, other: Vec<(u8, Vec<u8>)> },
    MpReachSrPolicy { afi: u16, next_hop: Vec<u8>, nlri: Vec<SrPolicyNlri> },
    MpUnreachSrPolicy { afi: u16, withdrawn: Vec<SrPolicyNlri> },
    /// RFC 9012.
    TunnelEncap(Vec<TunnelTlv>),
    /// RFC 9234.
    OnlyToCustomer(u32),
    MpReachLinkState { next_hop: Vec<u8>, nlri: Vec<LinkStateNlri> },
    MpUnreachLinkState { withdrawn: Vec<LinkStateNlri> },
    /// RFC 9552.
    BgpLs(BgpLsAttribute),
    /// An attribute that is not understood.
    Unknown { flags: u8, type_code: u8, value: Vec<u8> },
}

/// A path attribute as a mathematical value.
pub enum AttrView {
    Origin(Origin),
    AsPath(Seq<SegmentView>),
    NextHop(Ipv4Addr),
    MultiExitDisc(u32),
    LocalPref(u32),
    AtomicAggregate,
    Communities(Seq<u32>),
    LargeCommunities(Seq<(u32, u32, u32)>),
    ExtendedCommunities(Seq<Seq<u8>>),
    MpReachNlri { afi: u16, safi: u8, next_hop: Seq<u8>, nlri: Seq<Prefix> },
    MpUnreachNlri { afi: u16, safi: u8, withdrawn: Seq<Prefix> },
    MpReachEvpn { next_hop: Seq<u8>, nlri: Seq<EvpnView> },
    MpUnreachEvpn { withdrawn: Seq<EvpnView> },
    MpReachFlowSpec { afi: u16, next_hop: Seq<u8>, nlri: Seq<Seq<ComponentView>> },
    MpUnreachFlowSpec { afi: u16, withdrawn: Seq<Seq<ComponentView>> },
    OriginatorId(Ipv4Addr),
    ClusterList(Seq<Ipv4Addr>),
    Aggregator { asn: u32, id: Ipv4Addr },
    As4Path(Seq<SegmentView>),
    As4Aggregator { asn: u32, id: Ipv4Addr },
    PrefixSid { srv6: Seq<ServiceView>, other: Seq<(u8, Seq<u8>)> },
    MpReachSrPolicy { afi: u16, next_hop: Seq<u8>, nlri: Seq<SrPolicyNlri> },
    MpUnreachSrPolicy { afi: u16, withdrawn: Seq<SrPolicyNlri> },
    TunnelEncap(Seq<TunnelView>),
    OnlyToCustomer(u32),
    MpReachLinkState { next_hop: Seq<u8>, nlri: Seq<LsView> },
    MpUnreachLinkState { withdrawn: Seq<LsView> },
    BgpLs(Seq<TlvView>),
    Unknown { flags: u8, type_code: u8, value: Seq<u8> },
}

impl View for PathAttribute {
    type V = AttrView;

    open spec fn view(&self) -> AttrView {
        match *self {
            PathAttribute::Origin(o) => AttrView::Origin(o),
            PathAttribute::AsPath(s) => AttrView::AsPath(wire::views(s@)),
            PathAttribute::NextHop(a) => AttrView::NextHop(a),
            PathAttribute::MultiExitDisc(n) => AttrView::MultiExitDisc(n),
            PathAttribute::LocalPref(n) => AttrView::LocalPref(n),
            PathAttribute::AtomicAggregate => AttrView::AtomicAggregate,
            PathAttribute::Communities(c) => AttrView::Communities(wire::views(c@)),
            PathAttribute::LargeCommunities(c) => AttrView::LargeCommunities(wire::views(c@)),
            PathAttribute::ExtendedCommunities(c) => AttrView::ExtendedCommunities(
                wire::views(c@),
            ),
            PathAttribute::MpReachNlri { afi, safi, next_hop, nlri } => AttrView::MpReachNlri {
                afi,
                safi,
                next_hop: next_hop@,
                nlri: wire::views(nlri@),
            },
            PathAttribute::MpUnreachNlri { afi, safi, withdrawn } => AttrView::MpUnreachNlri {
                afi,
                safi,
                withdrawn: wire::views(withdrawn@),
            },
            PathAttribute::MpReachEvpn { next_hop, nlri } => AttrView::MpReachEvpn {
                next_hop: next_hop@,
                nlri: wire::views(nlri@),
            },
            PathAttribute::MpUnreachEvpn { withdrawn } => AttrView::MpUnreachEvpn {
                withdrawn: wire::views(withdrawn@),
            },
            PathAttribute::MpReachFlowSpec { afi, next_hop, nlri } => AttrView::MpReachFlowSpec {
                afi,
                next_hop: next_hop@,
                nlri: wire::views(nlri@),
            },
            PathAttribute::MpUnreachFlowSpec { afi, withdrawn } => AttrView::MpUnreachFlowSpec {
                afi,
                withdrawn: wire::views(withdrawn@),
            },
            PathAttribute::OriginatorId(a) => AttrView::OriginatorId(a),
            PathAttribute::ClusterList(ids) => AttrView::ClusterList(wire::views(ids@)),
            PathAttribute::Aggregator { asn, id } => AttrView::Aggregator { asn, id },
            PathAttribute::As4Path(s) => AttrView::As4Path(wire::views(s@)),
            PathAttribute::As4Aggregator { asn, id } => AttrView::As4Aggregator { asn, id },
            PathAttribute::PrefixSid { srv6, other } => AttrView::PrefixSid {
                srv6: wire::views(srv6@),
                other: srv6::other_views(other@),
            },
            PathAttribute::MpReachSrPolicy { afi, next_hop, nlri } => AttrView::MpReachSrPolicy {
                afi,
                next_hop: next_hop@,
                nlri: wire::views(nlri@),
            },
            PathAttribute::MpUnreachSrPolicy { afi, withdrawn } => AttrView::MpUnreachSrPolicy {
                afi,
                withdrawn: wire::views(withdrawn@),
            },
            PathAttribute::TunnelEncap(t) => AttrView::TunnelEncap(wire::views(t@)),
            PathAttribute::OnlyToCustomer(n) => AttrView::OnlyToCustomer(n),
            PathAttribute::MpReachLinkState { next_hop, nlri } => AttrView::MpReachLinkState {
                next_hop: next_hop@,
                nlri: wire::views(nlri@),
            },
            PathAttribute::MpUnreachLinkState { withdrawn } => AttrView::MpUnreachLinkState {
                withdrawn: wire::views(withdrawn@),
            },
            PathAttribute::BgpLs(a) => AttrView::BgpLs(a@),
            PathAttribute::Unknown { flags, type_code, value } => AttrView::Unknown {
                flags,
                type_code,
                value: value@,
            },
        }
    }
}

/// What a decoded attribute means for its UPDATE (RFC 7606 §2), where its routes are not
/// to be treated as withdrawn.
#[derive(Clone, PartialEq, Eq, Debug)]
pub enum AttrOutcome {
    /// The attribute takes part.
    Keep(PathAttribute),
    /// The attribute is malformed and dropped; the rest of the UPDATE stands.
    Discard { type_code: u8 },
}

/// An outcome as a mathematical value.
pub enum OutcomeView {
    Keep(AttrView),
    Discard { type_code: u8 },
}

impl View for AttrOutcome {
    type V = OutcomeView;

    open spec fn view(&self) -> OutcomeView {
        match *self {
            AttrOutcome::Keep(a) => OutcomeView::Keep(a@),
            AttrOutcome::Discard { type_code } => OutcomeView::Discard { type_code },
        }
    }
}

impl Record for u32 {
    type Ctx = Plain;

    open spec fn carried(v: u32, c: Plain) -> bool {
        true
    }

    open spec fn octets(v: u32, c: Plain) -> Seq<u8> {
        wire::be32(v)
    }

    open spec fn front(s: Seq<u8>, c: Plain) -> Option<(u32, int)> {
        if s.len() < 4 {
            None
        } else {
            Some((wire::u32_at(s, 0), 4))
        }
    }

    proof fn lemma_front(v: u32, c: Plain, rest: Seq<u8>) {
        let s = wire::be32(v) + rest;
        assert(s.subrange(0, 4) =~= wire::be32(v));
        wire::lemma_u32_placed(s, 0, v);
    }

    fn write(&self, out: &mut Vec<u8>, c: Plain) {
        wire::push_u32(out, *self);
    }

    fn read(s: &[u8], c: Plain) -> (r: Option<(u32, usize)>) {
        if s.len() < 4 {
            None
        } else {
            Some((wire::read_u32(s, 0), 4))
        }
    }
}

impl Record for (u32, u32, u32) {
    type Ctx = Plain;

    open spec fn carried(v: (u32, u32, u32), c: Plain) -> bool {
        true
    }

    open spec fn octets(v: (u32, u32, u32), c: Plain) -> Seq<u8> {
        wire::be32(v.0) + wire::be32(v.1) + wire::be32(v.2)
    }

    open spec fn front(s: Seq<u8>, c: Plain) -> Option<((u32, u32, u32), int)> {
        if s.len() < 12 {
            None
        } else {
            Some(((wire::u32_at(s, 0), wire::u32_at(s, 4), wire::u32_at(s, 8)), 12))
        }
    }

    proof fn lemma_front(v: (u32, u32, u32), c: Plain, rest: Seq<u8>) {
        let s = Self::octets(v, c) + rest;
        assert(s.subrange(0, 4) =~= wire::be32(v.0));
        assert(s.subrange(4, 8) =~= wire::be32(v.1));
        assert(s.subrange(8, 12) =~= wire::be32(v.2));
        wire::lemma_u32_placed(s, 0, v.0);
        wire::lemma_u32_placed(s, 4, v.1);
        wire::lemma_u32_placed(s, 8, v.2);
    }

    fn write(&self, out: &mut Vec<u8>, c: Plain) {
        wire::push_u32(out, self.0);
        wire::push_u32(out, self.1);
        wire::push_u32(out, self.2);
        assert(out@ =~= old(out)@ + Self::octets(self@, c));
    }

    fn read(s: &[u8], c: Plain) -> (r: Option<((u32, u32, u32), usize)>) {
        if s.len() < 12 {
            None
        } else {
            Some(((wire::read_u32(s, 0), wire::read_u32(s, 4), wire::read_u32(s, 8)), 12))
        }
    }
}

impl Record for [u8; 8] {
    type Ctx = Plain;

    open spec fn carried(v: Seq<u8>, c: Plain) -> bool {
        v.len() == 8
    }

    open spec fn octets(v: Seq<u8>, c: Plain) -> Seq<u8> {
        v
    }

    open spec fn front(s: Seq<u8>, c: Plain) -> Option<(Seq<u8>, int)> {
        if s.len() < 8 {
            None
        } else {
            Some((s.take(8), 8))
        }
    }

    proof fn lemma_front(v: Seq<u8>, c: Plain, rest: Seq<u8>) {
        assert((v + rest).take(8) =~= v);
    }

    fn write(&self, out: &mut Vec<u8>, c: Plain) {
        wire::push_all(out, self.as_slice());
    }

    fn read(s: &[u8], c: Plain) -> (r: Option<([u8; 8], usize)>) {
        if s.len() < 8 {
            None
        } else {
            let a = wire::read_arr8(s, 0);
            assert(a@ =~= s@.take(8));
            Some((a, 8))
        }
    }
}

impl Record for Ipv4Addr {
    type Ctx = Plain;

    open spec fn carried(v: Ipv4Addr, c: Plain) -> bool {
        true
    }

    open spec fn octets(v: Ipv4Addr, c: Plain) -> Seq<u8> {
        v.octets@
    }

    open spec fn front(s: Seq<u8>, c: Plain) -> Option<(Ipv4Addr, int)> {
        if s.len() < 4 {
            None
        } else {
            Some((Ipv4Addr { octets: wire::arr4_at(s, 0) }, 4))
        }
    }

    proof fn lemma_front(v: Ipv4Addr, c: Plain, rest: Seq<u8>) {
        let s = v.octets@ + rest;
        assert(s.subrange(0, 4) =~= v.octets@);
        wire::lemma_arr4_placed(s, 0, v.octets);
    }

    fn write(&self, out: &mut Vec<u8>, c: Plain) {
        wire::push_all(out, self.octets.as_slice());
    }

    fn read(s: &[u8], c: Plain) -> (r: Option<(Ipv4Addr, usize)>) {
        if s.len() < 4 {
            None
        } else {
            Some((Ipv4Addr { octets: wire::read_arr4(s, 0) }, 4))
        }
    }
}

impl AttrView {
    /// The type code.
    pub open spec fn kind(self) -> u8 {
        match self {
            AttrView::Origin(_) => 1,
            AttrView::AsPath(_) => 2,
            AttrView::NextHop(_) => 3,
            AttrView::MultiExitDisc(_) => 4,
            AttrView::LocalPref(_) => 5,
            AttrView::AtomicAggregate => 6,
            AttrView::Aggregator { .. } => 7,
            AttrView::Communities(_) => 8,
            AttrView::OriginatorId(_) => 9,
            AttrView::ClusterList(_) => 10,
            AttrView::MpReachNlri { .. } => 14,
            AttrView::MpReachEvpn { .. } => 14,
            AttrView::MpReachFlowSpec { .. } => 14,
            AttrView::MpReachSrPolicy { .. } => 14,
            AttrView::MpReachLinkState { .. } => 14,
            AttrView::MpUnreachNlri { .. } => 15,
            AttrView::MpUnreachEvpn { .. } => 15,
            AttrView::MpUnreachFlowSpec { .. } => 15,
            AttrView::MpUnreachSrPolicy { .. } => 15,
            AttrView::MpUnreachLinkState { .. } => 15,
            AttrView::ExtendedCommunities(_) => 16,
            AttrView::As4Path(_) => 17,
            AttrView::As4Aggregator { .. } => 18,
            AttrView::TunnelEncap(_) => 23,
            AttrView::BgpLs(_) => 29,
            AttrView::LargeCommunities(_) => 32,
            AttrView::OnlyToCustomer(_) => 35,
            AttrView::PrefixSid { .. } => 40,
            AttrView::Unknown { type_code, .. } => type_code,
        }
    }

    /// The flags that the attribute is written with, but for the length flag.
    pub open spec fn canonical(self) -> u8 {
        match self {
            AttrView::Unknown { flags, .. } => flags,
            _ => kind_flags(self.kind()),
        }
    }
}

/// The flags of an attribute that is understood: well-known ones are transitive, the
/// others optional, and some of those transitive too.
pub open spec fn kind_flags(kind: u8) -> u8 {
    if kind == 4 || kind == 9 || kind == 10 || kind == 14 || kind == 15 || kind == 29 {
        0x80
    } else if kind == 7 || kind == 8 || kind == 16 || kind == 17 || kind == 18 || kind == 23
        || kind == 32 || kind == 35 || kind == 40 {
        0xC0
    } else {
        0x40
    }
}

/// What stands in front of reachable NLRI: families, next hop with its length, a zero.
pub open spec fn reach_head(afi: u16, safi: u8, next_hop: Seq<u8>) -> Seq<u8> {
    wire::be16(afi) + seq![safi, (next_hop.len() % 256) as u8] + next_hop + seq![0u8]
}

/// What stands in front of withdrawn NLRI: families.
pub open spec fn unreach_head(afi: u16, safi: u8) -> Seq<u8> {
    wire::be16(afi) + seq![safi]
}

/// The value of an attribute.
pub open spec fn value_octets(v: AttrView, four: bool) -> Seq<u8> {
    match v {
        AttrView::Origin(o) => seq![o.code()],
        AttrView::AsPath(s) => run::run_octets::<AsPathSegment>(s, four),
        AttrView::NextHop(a) => a.octets@,
        AttrView::MultiExitDisc(n) => wire::be32(n),
        AttrView::LocalPref(n) => wire::be32(n),
        AttrView::AtomicAggregate => Seq::empty(),
        AttrView::Communities(c) => run::run_octets::<u32>(c, Plain),
        AttrView::LargeCommunities(c) => run::run_octets::<(u32, u32, u32)>(c, Plain),
        AttrView::ExtendedCommunities(c) => run::run_octets::<[u8; 8]>(c, Plain),
        AttrView::MpReachNlri { afi, safi, next_hop, nlri } => reach_head(afi, safi, next_hop)
            + run::run_octets::<Prefix>(nlri, afi),
        AttrView::MpUnreachNlri { afi, safi, withdrawn } => unreach_head(afi, safi)
            + run::run_octets::<Prefix>(withdrawn, afi),
        AttrView::MpReachEvpn { next_hop, nlri } => reach_head(25, 70, next_hop)
            + run::run_octets::<EvpnNlri>(nlri, Plain),
        AttrView::MpUnreachEvpn { withdrawn } => unreach_head(25, 70) + run::run_octets::<EvpnNlri>(
            withdrawn,
            Plain,
        ),
        AttrView::MpReachFlowSpec { afi, next_hop, nlri } => reach_head(afi, 133, next_hop)
            + run::run_octets::<FlowSpec>(nlri, Plain),
        AttrView::MpUnreachFlowSpec { afi, withdrawn } => unreach_head(afi, 133)
            + run::run_octets::<FlowSpec>(withdrawn, Plain),
        AttrView::OriginatorId(a) => a.octets@,
        AttrView::ClusterList(ids) => run::run_octets::<Ipv4Addr>(ids, Plain),
        AttrView::Aggregator { asn, id } => as_path::asn_octets(asn, four) + id.octets@,
        AttrView::As4Path(s) => run::run_octets::<AsPathSegment>(s, true),
        AttrView::As4Aggregator { asn, id } => as_path::asn_octets(asn, true) + id.octets@,
        AttrView::PrefixSid { srv6, other } => run::run_octets::<Tlv>(
            srv6::prefix_sid_tlvs(srv6, other),
            Frame::Short,
        ),
        AttrView::MpReachSrPolicy { afi, next_hop, nlri } => reach_head(afi, 73, next_hop)
            + run::run_octets::<SrPolicyNlri>(nlri, afi),
        AttrView::MpUnreachSrPolicy { afi, withdrawn } => unreach_head(afi, 73)
            + run::run_octets::<SrPolicyNlri>(withdrawn, afi),
        AttrView::TunnelEncap(t) => run::run_octets::<TunnelTlv>(t, Plain),
        AttrView::OnlyToCustomer(n) => wire::be32(n),
        AttrView::MpReachLinkState { next_hop, nlri } => reach_head(16388, 71, next_hop)
            + run::run_octets::<LinkStateNlri>(nlri, Plain),
        AttrView::MpUnreachLinkState { withdrawn } => unreach_head(16388, 71)
            + run::run_octets::<LinkStateNlri>(withdrawn, Plain),
        AttrView::BgpLs(ts) => run::run_octets::<LsTlv>(ts, Plain),
        AttrView::Unknown { value, .. } => value,
    }
}

/// Flags with the length flag set or cleared.
pub open spec fn with_length_flag(flags: u8, extended: bool) -> u8 {
    (flags / 32 * 32 + wire::flag(extended, 16) + flags % 16) as u8
}

/// Flags, type and length in front of a value of `n` octets.
pub open spec fn attr_head(flags: u8, kind: u8, n: int) -> Seq<u8> {
    if n > 255 {
        seq![with_length_flag(flags, true), kind] + wire::be16((n % 65536) as u16)
    } else {
        seq![with_length_flag(flags, false), kind, n as u8]
    }
}

/// An attribute.
pub open spec fn attr_octets(v: AttrView, four: bool) -> Seq<u8> {
    attr_head(v.canonical(), v.kind(), value_octets(v, four).len() as int) + value_octets(v, four)
}

/// A value of four octets as a number.
pub open spec fn number_read(b: Seq<u8>) -> Option<u32> {
    if b.len() != 4 {
        None
    } else {
        Some(wire::u32_at(b, 0))
    }
}

/// A value of four octets as an address.
pub open spec fn address_read(b: Seq<u8>) -> Option<Ipv4Addr> {
    if b.len() != 4 {
        None
    } else {
        Some(Ipv4Addr { octets: wire::arr4_at(b, 0) })
    }
}

/// An AS number and an address, of exactly their widths.
pub open spec fn aggregator_read(b: Seq<u8>, four: bool) -> Option<(u32, Ipv4Addr)> {
    let w = as_path::asn_width(four);
    if b.len() != w + 4 {
        None
    } else {
        Some((as_path::asn_at(b, 0, four), Ipv4Addr { octets: wire::arr4_at(b, w) }))
    }
}

/// Whether a type has a value of its own form, which is not a list.
pub open spec fn is_single(kind: u8) -> bool {
    kind == 1 || kind == 3 || kind == 4 || kind == 5 || kind == 6 || kind == 7 || kind == 9 || kind
        == 18 || kind == 35
}

/// The attribute that a value of its own form holds.
pub open spec fn single_read(kind: u8, b: Seq<u8>, four: bool) -> Option<AttrView> {
    if kind == 1 {
        if b.len() != 1 {
            None
        } else {
            match Origin::of_code(b[0]) {
                Some(o) => Some(AttrView::Origin(o)),
                None => None,
            }
        }
    } else if kind == 3 {
        match address_read(b) {
            Some(a) => Some(AttrView::NextHop(a)),
            None => None,
        }
    } else if kind == 4 {
        match number_read(b) {
            Some(n) => Some(AttrView::MultiExitDisc(n)),
            None => None,
        }
    } else if kind == 5 {
        match number_read(b) {
            Some(n) => Some(AttrView::LocalPref(n)),
            None => None,
        }
    } else if kind == 6 {
        if b.len() == 0 {
            Some(AttrView::AtomicAggregate)
        } else {
            None
        }
    } else if kind == 7 {
        match aggregator_read(b, four) {
            Some((asn, id)) => Some(AttrView::Aggregator { asn, id }),
            None => None,
        }
    } else if kind == 9 {
        match address_read(b) {
            Some(a) => Some(AttrView::OriginatorId(a)),
            None => None,
        }
    } else if kind == 18 {
        match aggregator_read(b, true) {
            Some((asn, id)) => Some(AttrView::As4Aggregator { asn, id }),
            None => None,
        }
    } else {
        match number_read(b) {
            Some(n) => Some(AttrView::OnlyToCustomer(n)),
            None => None,
        }
    }
}

/// Whether a type has a list for its value.
pub open spec fn is_list(kind: u8) -> bool {
    kind == 2 || kind == 8 || kind == 10 || kind == 16 || kind == 17 || kind == 32
}

/// The attribute that a list holds.
pub open spec fn list_read(kind: u8, b: Seq<u8>, four: bool) -> Option<AttrView> {
    if kind == 2 {
        match run::run_values::<AsPathSegment>(b, four) {
            Some(s) => Some(AttrView::AsPath(s)),
            None => None,
        }
    } else if kind == 8 {
        match run::run_values::<u32>(b, Plain) {
            Some(c) => Some(AttrView::Communities(c)),
            None => None,
        }
    } else if kind == 10 {
        match run::run_values::<Ipv4Addr>(b, Plain) {
            Some(ids) => Some(AttrView::ClusterList(ids)),
            None => None,
        }
    } else if kind == 16 {
        match run::run_values::<[u8; 8]>(b, Plain) {
            Some(c) => Some(AttrView::ExtendedCommunities(c)),
            None => None,
        }
    } else if kind == 17 {
        match run::run_values::<AsPathSegment>(b, true) {
            Some(s) => Some(AttrView::As4Path(s)),
            None => None,
        }
    } else {
        match run::run_values::<(u32, u32, u32)>(b, Plain) {
            Some(c) => Some(AttrView::LargeCommunities(c)),
            None => None,
        }
    }
}

/// The families whose NLRI are plain prefixes.
pub open spec fn known(afi: u16, safi: u8) -> bool {
    (afi == 1 || afi == 2) && safi == 1
}

/// The families whose NLRI are understood: unicast, EVPN, FlowSpec, SR policies and link
/// state.
pub open spec fn understood(afi: u16, safi: u8) -> bool {
    ||| known(afi, safi)
    ||| afi == 25 && safi == 70
    ||| safi == 133
    ||| safi == 73
    ||| afi == 16388 && safi == 71
}

/// The lengths of a unicast next hop: IPv4 routes may have IPv6 next hops (RFC 8950), and
/// an IPv6 next hop may be two addresses (RFC 2545).
pub open spec fn unicast_length(afi: u16, n: int) -> bool {
    if afi == 1 {
        n == 4 || n == 16 || n == 32
    } else {
        afi == 2 && (n == 16 || n == 32)
    }
}

/// The attribute of reachable NLRI.
#[verifier::opaque]
pub open spec fn reach_of(afi: u16, safi: u8, next_hop: Seq<u8>, rest: Seq<u8>) -> Option<AttrView> {
    if afi == 25 && safi == 70 {
        match run::run_values::<EvpnNlri>(rest, Plain) {
            Some(nlri) => Some(AttrView::MpReachEvpn { next_hop, nlri }),
            None => None,
        }
    } else if safi == 133 {
        match run::run_values::<FlowSpec>(rest, Plain) {
            Some(nlri) => Some(AttrView::MpReachFlowSpec { afi, next_hop, nlri }),
            None => None,
        }
    } else if safi == 73 {
        match run::run_values::<SrPolicyNlri>(rest, afi) {
            Some(nlri) => Some(AttrView::MpReachSrPolicy { afi, next_hop, nlri }),
            None => None,
        }
    } else if afi == 16388 && safi == 71 {
        match run::run_values::<LinkStateNlri>(rest, Plain) {
            Some(nlri) => Some(AttrView::MpReachLinkState { next_hop, nlri }),
            None => None,
        }
    } else if known(afi, safi) && unicast_length(afi, next_hop.len() as int) {
        match run::run_values::<Prefix>(rest, afi) {
            Some(nlri) => Some(AttrView::MpReachNlri { afi, safi, next_hop, nlri }),
            None => None,
        }
    } else {
        None
    }
}

/// The attribute of withdrawn NLRI.
#[verifier::opaque]
pub open spec fn unreach_of(afi: u16, safi: u8, rest: Seq<u8>) -> Option<AttrView> {
    if afi == 25 && safi == 70 {
        match run::run_values::<EvpnNlri>(rest, Plain) {
            Some(withdrawn) => Some(AttrView::MpUnreachEvpn { withdrawn }),
            None => None,
        }
    } else if safi == 133 {
        match run::run_values::<FlowSpec>(rest, Plain) {
            Some(withdrawn) => Some(AttrView::MpUnreachFlowSpec { afi, withdrawn }),
            None => None,
        }
    } else if safi == 73 {
        match run::run_values::<SrPolicyNlri>(rest, afi) {
            Some(withdrawn) => Some(AttrView::MpUnreachSrPolicy { afi, withdrawn }),
            None => None,
        }
    } else if afi == 16388 && safi == 71 {
        match run::run_values::<LinkStateNlri>(rest, Plain) {
            Some(withdrawn) => Some(AttrView::MpUnreachLinkState { withdrawn }),
            None => None,
        }
    } else if known(afi, safi) {
        match run::run_values::<Prefix>(rest, afi) {
            Some(withdrawn) => Some(AttrView::MpUnreachNlri { afi, safi, withdrawn }),
            None => None,
        }
    } else {
        None
    }
}

/// The reachable NLRI that a value holds.
pub open spec fn reach_read(b: Seq<u8>) -> Option<AttrView> {
    if b.len() < 5 || b.len() < 5 + b[3] {
        None
    } else {
        let n = b[3] as int;
        reach_of(wire::u16_at(b, 0), b[2], b.subrange(4, 4 + n), wire::from_at(b, 5 + n))
    }
}

/// The withdrawn NLRI that a value holds.
pub open spec fn unreach_read(b: Seq<u8>) -> Option<AttrView> {
    if b.len() < 3 {
        None
    } else {
        unreach_of(wire::u16_at(b, 0), b[2], wire::from_at(b, 3))
    }
}

/// The attribute of a type that is kept as it is where it is not understood.
pub open spec fn lenient_read(flags: u8, kind: u8, b: Seq<u8>) -> AttrView {
    let raw = AttrView::Unknown { flags, type_code: kind, value: b };
    if kind == 23 {
        match run::run_values::<TunnelTlv>(b, Plain) {
            Some(t) => AttrView::TunnelEncap(t),
            None => raw,
        }
    } else if kind == 29 {
        match run::run_values::<LsTlv>(b, Plain) {
            Some(ts) => AttrView::BgpLs(ts),
            None => raw,
        }
    } else if kind == 40 {
        match srv6::prefix_sid_read(b) {
            Some((srv6, other)) => AttrView::PrefixSid { srv6, other },
            None => raw,
        }
    } else {
        raw
    }
}

/// The attribute that a value holds; `None` where it is malformed.
#[verifier::opaque]
pub open spec fn value_read(flags: u8, kind: u8, b: Seq<u8>, four: bool) -> Option<AttrView> {
    if is_single(kind) {
        single_read(kind, b, four)
    } else if is_list(kind) {
        list_read(kind, b, four)
    } else if kind == 14 {
        reach_read(b)
    } else if kind == 15 {
        unreach_read(b)
    } else {
        Some(lenient_read(flags, kind, b))
    }
}

/// Whether received flags agree with those of the attribute (RFC 7606 §3): optional and
/// transitive are as they should be, and partial stands only with both.
pub open spec fn flags_agree(flags: u8, canonical: u8) -> bool {
    flags / 64 == canonical / 64 && (canonical / 64 == 3 || !wire::bit(flags, 32))
}

/// What an attribute means for its UPDATE; `None` where its routes are to be treated as
/// withdrawn. A malformed ATOMIC_AGGREGATE or AGGREGATOR whose flags agree is dropped.
pub open spec fn outcome(flags: u8, kind: u8, b: Seq<u8>, four: bool) -> Option<OutcomeView> {
    match value_read(flags, kind, b, four) {
        Some(v) => if flags_agree(flags, v.canonical()) {
            Some(OutcomeView::Keep(v))
        } else {
            None
        },
        None => if (kind == 6 || kind == 7) && flags_agree(flags, kind_flags(kind)) {
            Some(OutcomeView::Discard { type_code: kind })
        } else {
            None
        },
    }
}

/// The outcome of the attribute at the front of `s`, and its length in octets.
pub open spec fn attr_front(s: Seq<u8>, four: bool) -> Option<(OutcomeView, int)> {
    if s.len() < 3 || (wire::bit(s[0], 16) && s.len() < 4) {
        None
    } else {
        let (n, head) = if wire::bit(s[0], 16) {
            (wire::u16_at(s, 2) as int, 4int)
        } else {
            (s[2] as int, 3int)
        };
        if s.len() < head + n {
            None
        } else {
            match outcome(s[0], s[1], s.subrange(head, head + n), four) {
                Some(o) => Some((o, head + n)),
                None => None,
            }
        }
    }
}

fn push_reach_head(out: &mut Vec<u8>, afi: u16, safi: u8, next_hop: &Vec<u8>)
    ensures
        final(out)@ == old(out)@ + reach_head(afi, safi, next_hop@),
{
    wire::push_u16(out, afi);
    out.push(safi);
    out.push((next_hop.len() % 256) as u8);
    wire::push_all(out, next_hop.as_slice());
    out.push(0);
    assert(out@ =~= old(out)@ + reach_head(afi, safi, next_hop@));
}

fn push_unreach_head(out: &mut Vec<u8>, afi: u16, safi: u8)
    ensures
        final(out)@ == old(out)@ + unreach_head(afi, safi),
{
    wire::push_u16(out, afi);
    out.push(safi);
    assert(out@ =~= old(out)@ + unreach_head(afi, safi));
}

fn push_asn(out: &mut Vec<u8>, asn: u32, four: bool)
    ensures
        final(out)@ == old(out)@ + as_path::asn_octets(asn, four),
{
    if four {
        wire::push_u32(out, asn);
    } else {
        wire::push_u16(out, as_trans_fit(asn));
    }
}

fn push_prefix_sid(out: &mut Vec<u8>, services: &Vec<Srv6ServiceTlv>, others: &Vec<(u8, Vec<u8>)>)
    ensures
        final(out)@ == old(out)@ + run::run_octets::<Tlv>(
            srv6::prefix_sid_tlvs(wire::views(services@), srv6::other_views(others@)),
            Frame::Short,
        ),
{
    let ghost all = srv6::prefix_sid_tlvs(wire::views(services@), srv6::other_views(others@));
    let ghost n = services@.len() as int;
    let mut i: usize = 0;
    assert(out@ =~= old(out)@ + run::run_octets::<Tlv>(all.take(0), Frame::Short));
    while i < services.len()
        invariant
            i <= services.len(),
            all == srv6::prefix_sid_tlvs(wire::views(services@), srv6::other_views(others@)),
            out@ == old(out)@ + run::run_octets::<Tlv>(all.take(i as int), Frame::Short),
        decreases services.len() - i,
    {
        srv6::encode_srv6_service_tlv(out, &services[i]);
        proof {
            assert(all[i as int] == srv6::service_tlv(services@[i as int]@));
            run::lemma_run_push::<Tlv>(all.take(i as int), all[i as int], Frame::Short);
            assert(all.take(i + 1) =~= all.take(i as int).push(all[i as int]));
            assert(out@ =~= old(out)@ + run::run_octets::<Tlv>(all.take(i + 1), Frame::Short));
        }
        i = i + 1;
    }
    let mut k: usize = 0;
    while k < others.len()
        invariant
            k <= others.len(),
            n == services@.len(),
            all == srv6::prefix_sid_tlvs(wire::views(services@), srv6::other_views(others@)),
            out@ == old(out)@ + run::run_octets::<Tlv>(all.take(n + k), Frame::Short),
        decreases others.len() - k,
    {
        tlv::push_tlv(out, others[k].0 as u16, others[k].1.as_slice(), Frame::Short);
        proof {
            let o = others@[k as int];
            assert(all[n + k] == (TlvView { kind: o.0 as u16, body: o.1@ }));
            run::lemma_run_push::<Tlv>(all.take(n + k), all[n + k], Frame::Short);
            assert(all.take(n + k + 1) =~= all.take(n + k).push(all[n + k]));
            assert(out@ =~= old(out)@ + run::run_octets::<Tlv>(all.take(n + k + 1), Frame::Short));
        }
        k = k + 1;
    }
    assert(all.take(n + k) =~= all);
}

impl PathAttribute {
    /// The type code.
    pub fn type_code(&self) -> (r: u8)
        ensures
            r == self@.kind(),
    {
        match self {
            PathAttribute::Origin(_) => 1,
            PathAttribute::AsPath(_) => 2,
            PathAttribute::NextHop(_) => 3,
            PathAttribute::MultiExitDisc(_) => 4,
            PathAttribute::LocalPref(_) => 5,
            PathAttribute::AtomicAggregate => 6,
            PathAttribute::Aggregator { .. } => 7,
            PathAttribute::Communities(_) => 8,
            PathAttribute::OriginatorId(_) => 9,
            PathAttribute::ClusterList(_) => 10,
            PathAttribute::MpReachNlri { .. } => 14,
            PathAttribute::MpReachEvpn { .. } => 14,
            PathAttribute::MpReachFlowSpec { .. } => 14,
            PathAttribute::MpReachSrPolicy { .. } => 14,
            PathAttribute::MpReachLinkState { .. } => 14,
            PathAttribute::MpUnreachNlri { .. } => 15,
            PathAttribute::MpUnreachEvpn { .. } => 15,
            PathAttribute::MpUnreachFlowSpec { .. } => 15,
            PathAttribute::MpUnreachSrPolicy { .. } => 15,
            PathAttribute::MpUnreachLinkState { .. } => 15,
            PathAttribute::ExtendedCommunities(_) => 16,
            PathAttribute::As4Path(_) => 17,
            PathAttribute::As4Aggregator { .. } => 18,
            PathAttribute::TunnelEncap(_) => 23,
            PathAttribute::BgpLs(_) => 29,
            PathAttribute::LargeCommunities(_) => 32,
            PathAttribute::OnlyToCustomer(_) => 35,
            PathAttribute::PrefixSid { .. } => 40,
            PathAttribute::Unknown { type_code, .. } => *type_code,
        }
    }

    fn canonical_flags(&self) -> (r: u8)
        ensures
            r == self@.canonical(),
    {
        match self {
            PathAttribute::Unknown { flags, .. } => *flags,
            _ => flags_of_kind(self.type_code()),
        }
    }

    fn push_simple_value(&self, out: &mut Vec<u8>, four_octet: bool) -> (done: bool)
        ensures
            done ==> final(out)@ == old(out)@ + value_octets(self@, four_octet),
            !done ==> final(out)@ == old(out)@,
            !done ==> (self@.kind() == 14 || self@.kind() == 15) && !(self@ is Unknown),
    {
        match self {
            PathAttribute::Origin(o) => out.push(o.as_u8()),
            PathAttribute::AsPath(segs) => run::write_run::<AsPathSegment>(
                out,
                segs.as_slice(),
                four_octet,
            ),
            PathAttribute::NextHop(a) => wire::push_all(out, a.octets.as_slice()),
            PathAttribute::MultiExitDisc(n) => wire::push_u32(out, *n),
            PathAttribute::LocalPref(n) => wire::push_u32(out, *n),
            PathAttribute::AtomicAggregate => {},
            PathAttribute::Communities(c) => run::write_run::<u32>(out, c.as_slice(), Plain),
            PathAttribute::LargeCommunities(c) => run::write_run::<(u32, u32, u32)>(
                out,
                c.as_slice(),
                Plain,
            ),
            PathAttribute::ExtendedCommunities(c) => run::write_run::<[u8; 8]>(
                out,
                c.as_slice(),
                Plain,
            ),
            PathAttribute::OriginatorId(a) => wire::push_all(out, a.octets.as_slice()),
            PathAttribute::ClusterList(ids) => run::write_run::<Ipv4Addr>(
                out,
                ids.as_slice(),
                Plain,
            ),
            PathAttribute::Aggregator { asn, id } => {
                push_asn(out, *asn, four_octet);
                wire::push_all(out, id.octets.as_slice());
            },
            PathAttribute::As4Path(segs) => run::write_run::<AsPathSegment>(
                out,
                segs.as_slice(),
                true,
            ),
            PathAttribute::As4Aggregator { asn, id } => {
                push_asn(out, *asn, true);
                wire::push_all(out, id.octets.as_slice());
            },
            PathAttribute::PrefixSid { srv6, other } => push_prefix_sid(out, srv6, other),
            PathAttribute::TunnelEncap(t) => run::write_run::<TunnelTlv>(out, t.as_slice(), Plain),
            PathAttribute::OnlyToCustomer(n) => wire::push_u32(out, *n),
            PathAttribute::BgpLs(a) => a.encode(out),
            PathAttribute::Unknown { value, .. } => wire::push_all(out, value.as_slice()),
            _ => {
                return false;
            },
        }
        assert(out@ =~= old(out)@ + value_octets(self@, four_octet));
        true
    }

    fn push_mp_value(&self, out: &mut Vec<u8>, four_octet: bool)
        requires
            (self@.kind() == 14 || self@.kind() == 15) && !(self@ is Unknown),
        ensures
            final(out)@ == old(out)@ + value_octets(self@, four_octet),
    {
        match self {
            PathAttribute::MpReachNlri { afi, safi, next_hop, nlri } => {
                push_reach_head(out, *afi, *safi, next_hop);
                run::write_run::<Prefix>(out, nlri.as_slice(), *afi);
            },
            PathAttribute::MpUnreachNlri { afi, safi, withdrawn } => {
                push_unreach_head(out, *afi, *safi);
                run::write_run::<Prefix>(out, withdrawn.as_slice(), *afi);
            },
            PathAttribute::MpReachEvpn { next_hop, nlri } => {
                push_reach_head(out, AFI_L2VPN, SAFI_EVPN, next_hop);
                run::write_run::<EvpnNlri>(out, nlri.as_slice(), Plain);
            },
            PathAttribute::MpUnreachEvpn { withdrawn } => {
                push_unreach_head(out, AFI_L2VPN, SAFI_EVPN);
                run::write_run::<EvpnNlri>(out, withdrawn.as_slice(), Plain);
            },
            PathAttribute::MpReachFlowSpec { afi, next_hop, nlri } => {
                push_reach_head(out, *afi, SAFI_FLOWSPEC, next_hop);
                run::write_run::<FlowSpec>(out, nlri.as_slice(), Plain);
            },
            PathAttribute::MpUnreachFlowSpec { afi, withdrawn } => {
                push_unreach_head(out, *afi, SAFI_FLOWSPEC);
                run::write_run::<FlowSpec>(out, withdrawn.as_slice(), Plain);
            },
            PathAttribute::MpReachSrPolicy { afi, next_hop, nlri } => {
                push_reach_head(out, *afi, SAFI_SR_POLICY, next_hop);
                run::write_run::<SrPolicyNlri>(out, nlri.as_slice(), *afi);
            },
            PathAttribute::MpUnreachSrPolicy { afi, withdrawn } => {
                push_unreach_head(out, *afi, SAFI_SR_POLICY);
                run::write_run::<SrPolicyNlri>(out, withdrawn.as_slice(), *afi);
            },
            PathAttribute::MpReachLinkState { next_hop, nlri } => {
                push_reach_head(out, AFI_LINK_STATE, SAFI_LINK_STATE, next_hop);
                run::write_run::<LinkStateNlri>(out, nlri.as_slice(), Plain);
            },
            PathAttribute::MpUnreachLinkState { withdrawn } => {
                push_unreach_head(out, AFI_LINK_STATE, SAFI_LINK_STATE);
                run::write_run::<LinkStateNlri>(out, withdrawn.as_slice(), Plain);
            },
            _ => {},
        }
        assert(out@ =~= old(out)@ + value_octets(self@, four_octet));
    }

    fn encode_value(&self, out: &mut Vec<u8>, four_octet: bool)
        ensures
            final(out)@ == old(out)@ + value_octets(self@, four_octet),
    {
        if !self.push_simple_value(out, four_octet) {
            self.push_mp_value(out, four_octet);
        }
    }

    /// Append flags, type, length and value; `four_octet` tells how wide AS numbers are.
    pub fn encode(&self, out: &mut Vec<u8>, four_octet: bool)
        ensures
            final(out)@ == old(out)@ + attr_octets(self@, four_octet),
    {
        let mut value: Vec<u8> = Vec::new();
        self.encode_value(&mut value, four_octet);
        assert(value@ =~= value_octets(self@, four_octet));
        let extended = value.len() > 255;
        let flags = self.canonical_flags();
        out.push(flags / 32 * 32 + wire::flag_of(extended, 16) + flags % 16);
        out.push(self.type_code());
        if extended {
            wire::push_u16(out, (value.len() % 65536) as u16);
        } else {
            out.push(value.len() as u8);
        }
        wire::push_all(out, value.as_slice());
        assert(out@ =~= old(out)@ + attr_octets(self@, four_octet));
    }

    fn decode_single(kind: u8, b: &[u8], four: bool) -> (r: Option<PathAttribute>)
        requires
            is_single(kind),
        ensures
            match r {
                Some(v) => single_read(kind, b@, four) == Some(v@),
                None => single_read(kind, b@, four) is None,
            },
    {
        match kind {
            1 => {
                if b.len() != 1 {
                    return None;
                }
                match Origin::from_u8(b[0]) {
                    Some(o) => Some(PathAttribute::Origin(o)),
                    None => None,
                }
            },
            6 => if b.len() == 0 {
                Some(PathAttribute::AtomicAggregate)
            } else {
                None
            },
            7 => match decode_aggregator(b, four) {
                Some((asn, id)) => Some(PathAttribute::Aggregator { asn, id }),
                None => None,
            },
            18 => match decode_aggregator(b, true) {
                Some((asn, id)) => Some(PathAttribute::As4Aggregator { asn, id }),
                None => None,
            },
            _ => {
                if b.len() != 4 {
                    return None;
                }
                let n = wire::read_u32(b, 0);
                let a = Ipv4Addr { octets: wire::read_arr4(b, 0) };
                match kind {
                    3 => Some(PathAttribute::NextHop(a)),
                    4 => Some(PathAttribute::MultiExitDisc(n)),
                    5 => Some(PathAttribute::LocalPref(n)),
                    9 => Some(PathAttribute::OriginatorId(a)),
                    _ => Some(PathAttribute::OnlyToCustomer(n)),
                }
            },
        }
    }

    fn decode_list(kind: u8, b: &[u8], four: bool) -> (r: Option<PathAttribute>)
        requires
            is_list(kind),
        ensures
            match r {
                Some(v) => list_read(kind, b@, four) == Some(v@),
                None => list_read(kind, b@, four) is None,
            },
    {
        match kind {
            2 => match run::read_run::<AsPathSegment>(b, four) {
                Some(s) => Some(PathAttribute::AsPath(s)),
                None => None,
            },
            8 => match run::read_run::<u32>(b, Plain) {
                Some(c) => Some(PathAttribute::Communities(c)),
                None => None,
            },
            10 => match run::read_run::<Ipv4Addr>(b, Plain) {
                Some(ids) => Some(PathAttribute::ClusterList(ids)),
                None => None,
            },
            16 => match run::read_run::<[u8; 8]>(b, Plain) {
                Some(c) => Some(PathAttribute::ExtendedCommunities(c)),
                None => None,
            },
            17 => match run::read_run::<AsPathSegment>(b, true) {
                Some(s) => Some(PathAttribute::As4Path(s)),
                None => None,
            },
            _ => match run::read_run::<(u32, u32, u32)>(b, Plain) {
                Some(c) => Some(PathAttribute::LargeCommunities(c)),
                None => None,
            },
        }
    }

    fn decode_reach(b: &[u8]) -> (r: Option<PathAttribute>)
        ensures
            match r {
                Some(v) => reach_read(b@) == Some(v@),
                None => reach_read(b@) is None,
            },
    {
        proof {
            reveal(reach_of);
        }
        if b.len() < 5 || b.len() < 5 + b[3] as usize {
            return None;
        }
        let n: usize = b[3] as usize;
        let afi = wire::read_u16(b, 0);
        let safi = b[2];
        let next_hop = wire::copy_of(&b[4..4 + n]);
        let rest = &b[5 + n..b.len()];
        if afi == AFI_L2VPN && safi == SAFI_EVPN {
            match evpn::decode_evpn_nlris(rest) {
                Some(nlri) => Some(PathAttribute::MpReachEvpn { next_hop, nlri }),
                None => None,
            }
        } else if safi == SAFI_FLOWSPEC {
            match flowspec::decode_nlris(rest) {
                Some(nlri) => Some(PathAttribute::MpReachFlowSpec { afi, next_hop, nlri }),
                None => None,
            }
        } else if safi == SAFI_SR_POLICY {
            match sr_policy::decode_nlris(rest, afi) {
                Some(nlri) => Some(PathAttribute::MpReachSrPolicy { afi, next_hop, nlri }),
                None => None,
            }
        } else if afi == AFI_LINK_STATE && safi == SAFI_LINK_STATE {
            match link_state::decode_nlris(rest) {
                Some(nlri) => Some(PathAttribute::MpReachLinkState { next_hop, nlri }),
                None => None,
            }
        } else if known_family(afi, safi) && unicast_next_hop_len(afi, n) {
            match run::read_run::<Prefix>(rest, afi) {
                Some(nlri) => Some(PathAttribute::MpReachNlri { afi, safi, next_hop, nlri }),
                None => None,
            }
        } else {
            None
        }
    }

    fn decode_unreach(b: &[u8]) -> (r: Option<PathAttribute>)
        ensures
            match r {
                Some(v) => unreach_read(b@) == Some(v@),
                None => unreach_read(b@) is None,
            },
    {
        proof {
            reveal(unreach_of);
        }
        if b.len() < 3 {
            return None;
        }
        let afi = wire::read_u16(b, 0);
        let safi = b[2];
        let rest = &b[3..b.len()];
        if afi == AFI_L2VPN && safi == SAFI_EVPN {
            match evpn::decode_evpn_nlris(rest) {
                Some(withdrawn) => Some(PathAttribute::MpUnreachEvpn { withdrawn }),
                None => None,
            }
        } else if safi == SAFI_FLOWSPEC {
            match flowspec::decode_nlris(rest) {
                Some(withdrawn) => Some(PathAttribute::MpUnreachFlowSpec { afi, withdrawn }),
                None => None,
            }
        } else if safi == SAFI_SR_POLICY {
            match sr_policy::decode_nlris(rest, afi) {
                Some(withdrawn) => Some(PathAttribute::MpUnreachSrPolicy { afi, withdrawn }),
                None => None,
            }
        } else if afi == AFI_LINK_STATE && safi == SAFI_LINK_STATE {
            match link_state::decode_nlris(rest) {
                Some(withdrawn) => Some(PathAttribute::MpUnreachLinkState { withdrawn }),
                None => None,
            }
        } else if known_family(afi, safi) {
            match run::read_run::<Prefix>(rest, afi) {
                Some(withdrawn) => Some(PathAttribute::MpUnreachNlri { afi, safi, withdrawn }),
                None => None,
            }
        } else {
            None
        }
    }

    fn decode_lenient(flags: u8, kind: u8, b: &[u8]) -> (r: PathAttribute)
        ensures
            r@ == lenient_read(flags, kind, b@),
    {
        match kind {
            23 => {
                if let Some(t) = sr_policy::decode_tunnel_encap(b) {
                    return PathAttribute::TunnelEncap(t);
                }
            },
            29 => {
                if let Some(a) = BgpLsAttribute::decode(b) {
                    return PathAttribute::BgpLs(a);
                }
            },
            40 => {
                if let Some((srv6, other)) = srv6::decode_prefix_sid(b) {
                    return PathAttribute::PrefixSid { srv6, other };
                }
            },
            _ => {},
        }
        PathAttribute::Unknown { flags, type_code: kind, value: wire::copy_of(b) }
    }

    fn decode_value(flags: u8, kind: u8, b: &[u8], four: bool) -> (r: Option<PathAttribute>)
        ensures
            match r {
                Some(v) => value_read(flags, kind, b@, four) == Some(v@),
                None => value_read(flags, kind, b@, four) is None,
            },
    {
        proof {
            reveal(value_read);
        }
        match kind {
            1 => PathAttribute::decode_single(kind, b, four),
            3 => PathAttribute::decode_single(kind, b, four),
            4 => PathAttribute::decode_single(kind, b, four),
            5 => PathAttribute::decode_single(kind, b, four),
            6 => PathAttribute::decode_single(kind, b, four),
            7 => PathAttribute::decode_single(kind, b, four),
            9 => PathAttribute::decode_single(kind, b, four),
            18 => PathAttribute::decode_single(kind, b, four),
            35 => PathAttribute::decode_single(kind, b, four),
            2 => PathAttribute::decode_list(kind, b, four),
            8 => PathAttribute::decode_list(kind, b, four),
            10 => PathAttribute::decode_list(kind, b, four),
            16 => PathAttribute::decode_list(kind, b, four),
            17 => PathAttribute::decode_list(kind, b, four),
            32 => PathAttribute::decode_list(kind, b, four),
            14 => PathAttribute::decode_reach(b),
            15 => PathAttribute::decode_unreach(b),
            _ => Some(PathAttribute::decode_lenient(flags, kind, b)),
        }
    }

    /// Decode one attribute from the front of `buf`, with the number of octets it takes;
    /// `None` where the routes of its UPDATE are to be treated as withdrawn.
    pub fn decode(buf: &[u8], four_octet: bool) -> (r: Option<(AttrOutcome, usize)>)
        ensures
            match r {
                Some((o, used)) => attr_front(buf@, four_octet) == Some((o@, used as int)) && 0
                    < used <= buf@.len(),
                None => attr_front(buf@, four_octet) is None,
            },
    {
        if buf.len() < 3 {
            return None;
        }
        let flags = buf[0];
        let kind = buf[1];
        let mut n: usize = buf[2] as usize;
        let mut head: usize = 3;
        if wire::bit_of(flags, 16) {
            if buf.len() < 4 {
                return None;
            }
            n = wire::read_u16(buf, 2) as usize;
            head = 4;
        }
        if buf.len() < head + n {
            return None;
        }
        let b = &buf[head..head + n];
        match PathAttribute::decode_value(flags, kind, b, four_octet) {
            Some(v) => if flags_agree_of(flags, v.canonical_flags()) {
                Some((AttrOutcome::Keep(v), head + n))
            } else {
                None
            },
            None => if (kind == 6 || kind == 7) && flags_agree_of(flags, flags_of_kind(kind)) {
                Some((AttrOutcome::Discard { type_code: kind }, head + n))
            } else {
                None
            },
        }
    }
}

fn flags_of_kind(kind: u8) -> (r: u8)
    ensures
        r == kind_flags(kind),
{
    match kind {
        4 => FLAG_OPTIONAL,
        9 => FLAG_OPTIONAL,
        10 => FLAG_OPTIONAL,
        14 => FLAG_OPTIONAL,
        15 => FLAG_OPTIONAL,
        29 => FLAG_OPTIONAL,
        7 => 0xC0,
        8 => 0xC0,
        16 => 0xC0,
        17 => 0xC0,
        18 => 0xC0,
        23 => 0xC0,
        32 => 0xC0,
        35 => 0xC0,
        40 => 0xC0,
        _ => FLAG_TRANSITIVE,
    }
}

fn flags_agree_of(flags: u8, canonical: u8) -> (r: bool)
    ensures
        r == flags_agree(flags, canonical),
{
    flags / 64 == canonical / 64 && (canonical / 64 == 3 || !wire::bit_of(flags, FLAG_PARTIAL))
}

fn unicast_next_hop_len(afi: u16, nh_len: usize) -> (r: bool)
    ensures
        r == unicast_length(afi, nh_len as int),
{
    if afi == AFI_IPV4 {
        nh_len == 4 || nh_len == 16 || nh_len == 32
    } else {
        afi == AFI_IPV6 && (nh_len == 16 || nh_len == 32)
    }
}

fn known_family(afi: u16, safi: u8) -> (r: bool)
    ensures
        r == known(afi, safi),
{
    (afi == AFI_IPV4 || afi == AFI_IPV6) && safi == SAFI_UNICAST
}

fn decode_aggregator(b: &[u8], four: bool) -> (r: Option<(u32, Ipv4Addr)>)
    ensures
        r == aggregator_read(b@, four),
{
    if four {
        if b.len() != 8 {
            return None;
        }
        Some((wire::read_u32(b, 0), Ipv4Addr { octets: wire::read_arr4(b, 4) }))
    } else {
        if b.len() != 6 {
            return None;
        }
        Some((wire::read_u16(b, 0) as u32, Ipv4Addr { octets: wire::read_arr4(b, 2) }))
    }
}

/// The attributes that survive their encoding: their parts do, families and next hops are
/// of their form, lengths fit, and unknown ones are not understood, have no partial flag
/// without the other two, and tell their length truly.
pub open spec fn encodable(v: AttrView, four: bool) -> bool {
    &&& value_octets(v, four).len() <= 65535
    &&& match v {
        AttrView::AsPath(s) => all_carried::<AsPathSegment>(s, four),
        AttrView::As4Path(s) => all_carried::<AsPathSegment>(s, true),
        AttrView::ExtendedCommunities(c) => all_carried::<[u8; 8]>(c, Plain),
        AttrView::Aggregator { asn, .. } => four || asn <= 65535,
        AttrView::MpReachNlri { afi, safi, next_hop, nlri } => known(afi, safi) && unicast_length(
            afi,
            next_hop.len() as int,
        ) && all_carried::<Prefix>(nlri, afi),
        AttrView::MpUnreachNlri { afi, safi, withdrawn } => known(afi, safi) && all_carried::<
            Prefix,
        >(withdrawn, afi),
        AttrView::MpReachEvpn { next_hop, nlri } => next_hop.len() <= 255 && all_carried::<
            EvpnNlri,
        >(nlri, Plain),
        AttrView::MpUnreachEvpn { withdrawn } => all_carried::<EvpnNlri>(withdrawn, Plain),
        AttrView::MpReachFlowSpec { afi, next_hop, nlri } => next_hop.len() <= 255 && all_carried::<
            FlowSpec,
        >(nlri, Plain),
        AttrView::MpUnreachFlowSpec { afi, withdrawn } => all_carried::<FlowSpec>(withdrawn, Plain),
        AttrView::MpReachSrPolicy { afi, next_hop, nlri } => next_hop.len() <= 255 && all_carried::<
            SrPolicyNlri,
        >(nlri, afi),
        AttrView::MpUnreachSrPolicy { afi, withdrawn } => all_carried::<SrPolicyNlri>(
            withdrawn,
            afi,
        ),
        AttrView::MpReachLinkState { next_hop, nlri } => next_hop.len() <= 255 && all_carried::<
            LinkStateNlri,
        >(nlri, Plain),
        AttrView::MpUnreachLinkState { withdrawn } => all_carried::<LinkStateNlri>(
            withdrawn,
            Plain,
        ),
        AttrView::TunnelEncap(ts) => all_carried::<TunnelTlv>(ts, Plain),
        AttrView::BgpLs(ts) => all_carried::<LsTlv>(ts, Plain),
        AttrView::PrefixSid { srv6, other } => {
            &&& forall|i: int| 0 <= i < srv6.len() ==> (#[trigger] srv6[i]).sids.len() <= 1985
            &&& forall|i: int|
                0 <= i < other.len() ==> (#[trigger] other[i]).0 != 5 && other[i].0 != 6
                    && other[i].1.len() <= 65535
        },
        AttrView::Unknown { flags, type_code, value } => {
            &&& value_read(flags, type_code, value, four) == Some(v)
            &&& flags_agree(flags, flags)
            &&& wire::bit(flags, 16) == (value.len() > 255)
        },
        _ => true,
    }
}

/// Whether every value of a run survives its encoding.
pub open spec fn all_carried<T: Record>(vs: Seq<T::V>, c: T::Ctx) -> bool {
    forall|i: int| 0 <= i < vs.len() ==> T::carried(#[trigger] vs[i], c)
}

proof fn lemma_run_back<T: Record>(vs: Seq<T::V>, c: T::Ctx)
    requires
        all_carried::<T>(vs, c),
    ensures
        run::run_values::<T>(run::run_octets::<T>(vs, c), c) == Some(vs),
{
    run::lemma_run_round_trip::<T>(vs, c);
}

proof fn lemma_number_back(n: u32)
    ensures
        number_read(wire::be32(n)) == Some(n),
{
    assert(wire::be32(n).subrange(0, 4) =~= wire::be32(n));
    wire::lemma_u32_placed(wire::be32(n), 0, n);
}

proof fn lemma_address_back(a: Ipv4Addr)
    ensures
        address_read(a.octets@) == Some(a),
{
    assert(a.octets@.subrange(0, 4) =~= a.octets@);
    wire::lemma_arr4_placed(a.octets@, 0, a.octets);
}

proof fn lemma_aggregator_back(asn: u32, id: Ipv4Addr, four: bool)
    requires
        four || asn <= 65535,
    ensures
        aggregator_read(as_path::asn_octets(asn, four) + id.octets@, four) == Some((asn, id)),
{
    let w = as_path::asn_width(four);
    let b = as_path::asn_octets(asn, four) + id.octets@;
    assert(b.subrange(w, w + 4) =~= id.octets@);
    wire::lemma_arr4_placed(b, w, id.octets);
    assert(b.subrange(0, w) =~= as_path::asn_octets(asn, four));
    if four {
        wire::lemma_u32_placed(b, 0, asn);
    } else {
        wire::lemma_u16_placed(b, 0, bgp::fitted(asn));
    }
}

proof fn lemma_single_back(v: AttrView, four: bool)
    requires
        is_single(v.kind()),
        !(v is Unknown),
        encodable(v, four),
    ensures
        single_read(v.kind(), value_octets(v, four), four) == Some(v),
{
    match v {
        AttrView::NextHop(a) => lemma_address_back(a),
        AttrView::OriginatorId(a) => lemma_address_back(a),
        AttrView::MultiExitDisc(n) => lemma_number_back(n),
        AttrView::LocalPref(n) => lemma_number_back(n),
        AttrView::OnlyToCustomer(n) => lemma_number_back(n),
        AttrView::Aggregator { asn, id } => lemma_aggregator_back(asn, id, four),
        AttrView::As4Aggregator { asn, id } => lemma_aggregator_back(asn, id, true),
        _ => {},
    }
}

proof fn lemma_list_back(v: AttrView, four: bool)
    requires
        is_list(v.kind()),
        !(v is Unknown),
        encodable(v, four),
    ensures
        list_read(v.kind(), value_octets(v, four), four) == Some(v),
{
    match v {
        AttrView::AsPath(s) => lemma_run_back::<AsPathSegment>(s, four),
        AttrView::As4Path(s) => lemma_run_back::<AsPathSegment>(s, true),
        AttrView::Communities(c) => lemma_run_back::<u32>(c, Plain),
        AttrView::ClusterList(ids) => lemma_run_back::<Ipv4Addr>(ids, Plain),
        AttrView::ExtendedCommunities(c) => lemma_run_back::<[u8; 8]>(c, Plain),
        AttrView::LargeCommunities(c) => lemma_run_back::<(u32, u32, u32)>(c, Plain),
        _ => {},
    }
}

proof fn lemma_reach_parts(afi: u16, safi: u8, next_hop: Seq<u8>, rest: Seq<u8>)
    requires
        next_hop.len() <= 255,
    ensures
        ({
            let b = reach_head(afi, safi, next_hop) + rest;
            let n = next_hop.len() as int;
            &&& b.len() >= 5 + n
            &&& wire::u16_at(b, 0) == afi
            &&& b[2] == safi
            &&& b[3] == n
            &&& b.subrange(4, 4 + n) == next_hop
            &&& wire::from_at(b, 5 + n) == rest
        }),
{
    let b = reach_head(afi, safi, next_hop) + rest;
    let n = next_hop.len() as int;
    assert(b.subrange(0, 2) =~= wire::be16(afi));
    wire::lemma_u16_placed(b, 0, afi);
    assert(b.subrange(4, 4 + n) =~= next_hop);
    assert(wire::from_at(b, 5 + n) =~= rest);
}

proof fn lemma_reach_head(afi: u16, safi: u8, next_hop: Seq<u8>, rest: Seq<u8>)
    requires
        next_hop.len() <= 255,
    ensures
        reach_read(reach_head(afi, safi, next_hop) + rest) == reach_of(afi, safi, next_hop, rest),
{
    lemma_reach_parts(afi, safi, next_hop, rest);
}

proof fn lemma_unreach_head(afi: u16, safi: u8, rest: Seq<u8>)
    ensures
        unreach_read(unreach_head(afi, safi) + rest) == unreach_of(afi, safi, rest),
{
    let b = unreach_head(afi, safi) + rest;
    assert(b.subrange(0, 2) =~= wire::be16(afi));
    wire::lemma_u16_placed(b, 0, afi);
    assert(wire::from_at(b, 3) =~= rest);
}

proof fn lemma_reach_prefixes(afi: u16, safi: u8, next_hop: Seq<u8>, nlri: Seq<Prefix>)
    requires
        known(afi, safi),
        unicast_length(afi, next_hop.len() as int),
        all_carried::<Prefix>(nlri, afi),
    ensures
        reach_read(reach_head(afi, safi, next_hop) + run::run_octets::<Prefix>(nlri, afi)) == Some(
            AttrView::MpReachNlri { afi, safi, next_hop, nlri },
        ),
{
    reveal(reach_of);
    lemma_run_back::<Prefix>(nlri, afi);
    lemma_reach_head(afi, safi, next_hop, run::run_octets::<Prefix>(nlri, afi));
}

proof fn lemma_unreach_prefixes(afi: u16, safi: u8, withdrawn: Seq<Prefix>)
    requires
        known(afi, safi),
        all_carried::<Prefix>(withdrawn, afi),
    ensures
        unreach_read(unreach_head(afi, safi) + run::run_octets::<Prefix>(withdrawn, afi)) == Some(
            AttrView::MpUnreachNlri { afi, safi, withdrawn },
        ),
{
    reveal(unreach_of);
    lemma_run_back::<Prefix>(withdrawn, afi);
    lemma_unreach_head(afi, safi, run::run_octets::<Prefix>(withdrawn, afi));
}

proof fn lemma_reach_evpn(next_hop: Seq<u8>, nlri: Seq<EvpnView>)
    requires
        next_hop.len() <= 255,
        all_carried::<EvpnNlri>(nlri, Plain),
    ensures
        reach_read(reach_head(25, 70, next_hop) + run::run_octets::<EvpnNlri>(nlri, Plain)) == Some(
            AttrView::MpReachEvpn { next_hop, nlri },
        ),
{
    reveal(reach_of);
    lemma_run_back::<EvpnNlri>(nlri, Plain);
    lemma_reach_head(25, 70, next_hop, run::run_octets::<EvpnNlri>(nlri, Plain));
}

proof fn lemma_unreach_evpn(withdrawn: Seq<EvpnView>)
    requires
        all_carried::<EvpnNlri>(withdrawn, Plain),
    ensures
        unreach_read(unreach_head(25, 70) + run::run_octets::<EvpnNlri>(withdrawn, Plain)) == Some(
            AttrView::MpUnreachEvpn { withdrawn },
        ),
{
    reveal(unreach_of);
    lemma_run_back::<EvpnNlri>(withdrawn, Plain);
    lemma_unreach_head(25, 70, run::run_octets::<EvpnNlri>(withdrawn, Plain));
}

proof fn lemma_reach_flows(afi: u16, next_hop: Seq<u8>, nlri: Seq<Seq<ComponentView>>)
    requires
        next_hop.len() <= 255,
        all_carried::<FlowSpec>(nlri, Plain),
    ensures
        reach_read(reach_head(afi, 133, next_hop) + run::run_octets::<FlowSpec>(nlri, Plain)) == Some(
            AttrView::MpReachFlowSpec { afi, next_hop, nlri },
        ),
{
    reveal(reach_of);
    lemma_run_back::<FlowSpec>(nlri, Plain);
    lemma_reach_head(afi, 133, next_hop, run::run_octets::<FlowSpec>(nlri, Plain));
}

proof fn lemma_unreach_flows(afi: u16, withdrawn: Seq<Seq<ComponentView>>)
    requires
        all_carried::<FlowSpec>(withdrawn, Plain),
    ensures
        unreach_read(unreach_head(afi, 133) + run::run_octets::<FlowSpec>(withdrawn, Plain)) == Some(
            AttrView::MpUnreachFlowSpec { afi, withdrawn },
        ),
{
    reveal(unreach_of);
    lemma_run_back::<FlowSpec>(withdrawn, Plain);
    lemma_unreach_head(afi, 133, run::run_octets::<FlowSpec>(withdrawn, Plain));
}

proof fn lemma_reach_policies(afi: u16, next_hop: Seq<u8>, nlri: Seq<SrPolicyNlri>)
    requires
        next_hop.len() <= 255,
        all_carried::<SrPolicyNlri>(nlri, afi),
    ensures
        reach_read(reach_head(afi, 73, next_hop) + run::run_octets::<SrPolicyNlri>(nlri, afi)) == Some(
            AttrView::MpReachSrPolicy { afi, next_hop, nlri },
        ),
{
    reveal(reach_of);
    lemma_run_back::<SrPolicyNlri>(nlri, afi);
    lemma_reach_head(afi, 73, next_hop, run::run_octets::<SrPolicyNlri>(nlri, afi));
}

proof fn lemma_unreach_policies(afi: u16, withdrawn: Seq<SrPolicyNlri>)
    requires
        all_carried::<SrPolicyNlri>(withdrawn, afi),
    ensures
        unreach_read(unreach_head(afi, 73) + run::run_octets::<SrPolicyNlri>(withdrawn, afi)) == Some(
            AttrView::MpUnreachSrPolicy { afi, withdrawn },
        ),
{
    reveal(unreach_of);
    lemma_run_back::<SrPolicyNlri>(withdrawn, afi);
    lemma_unreach_head(afi, 73, run::run_octets::<SrPolicyNlri>(withdrawn, afi));
}

proof fn lemma_reach_link_state(next_hop: Seq<u8>, nlri: Seq<LsView>)
    requires
        next_hop.len() <= 255,
        all_carried::<LinkStateNlri>(nlri, Plain),
    ensures
        reach_read(reach_head(16388, 71, next_hop) + run::run_octets::<LinkStateNlri>(nlri, Plain)) == Some(
            AttrView::MpReachLinkState { next_hop, nlri },
        ),
{
    reveal(reach_of);
    lemma_run_back::<LinkStateNlri>(nlri, Plain);
    lemma_reach_head(16388, 71, next_hop, run::run_octets::<LinkStateNlri>(nlri, Plain));
}

proof fn lemma_unreach_link_state(withdrawn: Seq<LsView>)
    requires
        all_carried::<LinkStateNlri>(withdrawn, Plain),
    ensures
        unreach_read(unreach_head(16388, 71) + run::run_octets::<LinkStateNlri>(withdrawn, Plain)) == Some(
            AttrView::MpUnreachLinkState { withdrawn },
        ),
{
    reveal(unreach_of);
    lemma_run_back::<LinkStateNlri>(withdrawn, Plain);
    lemma_unreach_head(16388, 71, run::run_octets::<LinkStateNlri>(withdrawn, Plain));
}

proof fn lemma_reach_back(v: AttrView, four: bool)
    requires
        v.kind() == 14,
        !(v is Unknown),
        encodable(v, four),
    ensures
        reach_read(value_octets(v, four)) == Some(v),
{
    match v {
        AttrView::MpReachNlri { afi, safi, next_hop, nlri } => lemma_reach_prefixes(
            afi,
            safi,
            next_hop,
            nlri,
        ),
        AttrView::MpReachEvpn { next_hop, nlri } => lemma_reach_evpn(next_hop, nlri),
        AttrView::MpReachFlowSpec { afi, next_hop, nlri } => lemma_reach_flows(afi, next_hop, nlri),
        AttrView::MpReachSrPolicy { afi, next_hop, nlri } => lemma_reach_policies(
            afi,
            next_hop,
            nlri,
        ),
        AttrView::MpReachLinkState { next_hop, nlri } => lemma_reach_link_state(next_hop, nlri),
        _ => {},
    }
}

proof fn lemma_unreach_back(v: AttrView, four: bool)
    requires
        v.kind() == 15,
        !(v is Unknown),
        encodable(v, four),
    ensures
        unreach_read(value_octets(v, four)) == Some(v),
{
    match v {
        AttrView::MpUnreachNlri { afi, safi, withdrawn } => lemma_unreach_prefixes(
            afi,
            safi,
            withdrawn,
        ),
        AttrView::MpUnreachEvpn { withdrawn } => lemma_unreach_evpn(withdrawn),
        AttrView::MpUnreachFlowSpec { afi, withdrawn } => lemma_unreach_flows(afi, withdrawn),
        AttrView::MpUnreachSrPolicy { afi, withdrawn } => lemma_unreach_policies(afi, withdrawn),
        AttrView::MpUnreachLinkState { withdrawn } => lemma_unreach_link_state(withdrawn),
        _ => {},
    }
}

proof fn lemma_value_back(v: AttrView, flags: u8, four: bool)
    requires
        encodable(v, four),
        v is Unknown ==> flags == v.canonical(),
    ensures
        value_read(flags, v.kind(), value_octets(v, four), four) == Some(v),
{
    reveal(value_read);
    if !(v is Unknown) {
        if is_single(v.kind()) {
            lemma_single_back(v, four);
        } else if is_list(v.kind()) {
            lemma_list_back(v, four);
        } else if v.kind() == 14 {
            lemma_reach_back(v, four);
        } else if v.kind() == 15 {
            lemma_unreach_back(v, four);
        } else {
            match v {
                AttrView::TunnelEncap(ts) => lemma_run_back::<TunnelTlv>(ts, Plain),
                AttrView::BgpLs(ts) => lemma_run_back::<LsTlv>(ts, Plain),
                AttrView::PrefixSid { srv6, other } => srv6::lemma_written_prefix_sid_back(
                    srv6,
                    other,
                ),
                _ => {},
            }
        }
    }
}

proof fn lemma_attr_frame(flags: u8, kind: u8, b: Seq<u8>, rest: Seq<u8>)
    requires
        b.len() <= 65535,
    ensures
        ({
            let s = attr_head(flags, kind, b.len() as int) + b + rest;
            let (n, head) = if wire::bit(s[0], 16) {
                (wire::u16_at(s, 2) as int, 4int)
            } else {
                (s[2] as int, 3int)
            };
            &&& s.len() >= 3
            &&& (wire::bit(s[0], 16) ==> s.len() >= 4)
            &&& n == b.len()
            &&& head == attr_head(flags, kind, b.len() as int).len()
            &&& s.len() >= head + n
            &&& s.subrange(head, head + n) == b
            &&& s[0] == with_length_flag(flags, b.len() > 255)
            &&& s[1] == kind
        }),
{
    let h = attr_head(flags, kind, b.len() as int);
    let s = h + b + rest;
    assert(s[0] == h[0] && s[1] == h[1] && s[2] == h[2]);
    if b.len() > 255 {
        let n = b.len() as u16;
        assert(s.subrange(2, 4) =~= wire::be16(n));
        wire::lemma_u16_placed(s, 2, n);
    }
    assert(s.subrange(h.len() as int, h.len() as int + b.len()) =~= b);
}

/// An attribute that survives its encoding is read back and takes part in its UPDATE, from
/// in front of anything.
pub proof fn lemma_attribute_round_trip(v: AttrView, four: bool, rest: Seq<u8>)
    requires
        encodable(v, four),
    ensures
        attr_front(attr_octets(v, four) + rest, four) == Some(
            (OutcomeView::Keep(v), attr_octets(v, four).len() as int),
        ),
{
    let b = value_octets(v, four);
    let flags = with_length_flag(v.canonical(), b.len() > 255);
    lemma_attr_frame(v.canonical(), v.kind(), b, rest);
    lemma_value_back(v, flags, four);
}

/// Only ATOMIC_AGGREGATE and AGGREGATOR are ever dropped alone: any other malformed
/// attribute takes the routes with it.
pub proof fn lemma_only_aggregates_are_dropped(flags: u8, kind: u8, b: Seq<u8>, four: bool)
    ensures
        outcome(flags, kind, b, four) matches Some(OutcomeView::Discard { type_code })
            ==> type_code == kind && (kind == 6 || kind == 7) && value_read(
            flags,
            kind,
            b,
            four,
        ) is None,
        flags / 64 != kind_flags(kind) / 64 && (is_single(kind) || is_list(kind) || kind == 14
            || kind == 15) ==> outcome(flags, kind, b, four) is None,
{
    if let Some(v) = value_read(flags, kind, b, four) {
        if is_single(kind) || is_list(kind) || kind == 14 || kind == 15 {
            lemma_kind_kept(flags, kind, b, four);
        }
    }
}

proof fn lemma_kind_kept(flags: u8, kind: u8, b: Seq<u8>, four: bool)
    requires
        is_single(kind) || is_list(kind) || kind == 14 || kind == 15,
        value_read(flags, kind, b, four) is Some,
    ensures
        (value_read(flags, kind, b, four)->0).canonical() == kind_flags(kind),
{
    reveal(value_read);
    reveal(reach_of);
    reveal(unreach_of);
}

proof fn lemma_no_zero(s: Seq<u8>, four: bool)
    ensures
        run::run_values::<AsPathSegment>(s, four) matches Some(segs) ==> forall|i: int|
            0 <= i < segs.len() ==> !(#[trigger] segs[i]).numbers().contains(0),
    decreases s.len(),
{
    if s.len() > 0 {
        if let Some((v, used)) = as_path::segment_front(s, four) {
            if 0 < used <= s.len() {
                lemma_no_zero(wire::from_at(s, used), four);
                assert(!v.numbers().contains(0));
                if let Some(segs) = run::run_values::<AsPathSegment>(s, four) {
                    let tail = run::run_values::<AsPathSegment>(wire::from_at(s, used), four)->0;
                    assert forall|i: int| 0 <= i < segs.len() implies !(
                    #[trigger] segs[i]).numbers().contains(0) by {
                        if i > 0 {
                            assert(segs[i] == tail[i - 1]);
                        }
                    }
                }
            }
        }
    }
}

/// No AS path that takes part in an UPDATE holds the reserved AS number zero (RFC 7607).
pub proof fn lemma_as_zero_is_refused(flags: u8, kind: u8, b: Seq<u8>, four: bool)
    requires
        kind == 2 || kind == 17,
    ensures
        match outcome(flags, kind, b, four) {
            Some(OutcomeView::Keep(AttrView::AsPath(segs))) => forall|i: int|
                0 <= i < segs.len() ==> !(#[trigger] segs[i]).numbers().contains(0),
            Some(OutcomeView::Keep(AttrView::As4Path(segs))) => forall|i: int|
                0 <= i < segs.len() ==> !(#[trigger] segs[i]).numbers().contains(0),
            Some(_) => false,
            None => true,
        },
{
    reveal(value_read);
    lemma_no_zero(b, four);
    lemma_no_zero(b, true);
}

/// NLRI of a family that is not understood, or a unicast next hop of a length that is
/// none, makes no routes.
pub proof fn lemma_unknown_family_makes_no_routes(
    afi: u16,
    safi: u8,
    next_hop: Seq<u8>,
    rest: Seq<u8>,
)
    ensures
        !understood(afi, safi) ==> reach_of(afi, safi, next_hop, rest) is None && unreach_of(
            afi,
            safi,
            rest,
        ) is None,
        known(afi, safi) && !unicast_length(afi, next_hop.len() as int) ==> reach_of(afi, safi, next_hop, rest) is None,
{
    reveal(reach_of);
    reveal(unreach_of);
}

impl OutcomeView {
    /// The type code of the attribute that appeared.
    pub open spec fn kind(self) -> u8 {
        match self {
            OutcomeView::Keep(a) => a.kind(),
            OutcomeView::Discard { type_code } => type_code,
        }
    }
}

impl AttrOutcome {
    /// The type code of the attribute that appeared.
    pub fn type_code(&self) -> (r: u8)
        ensures
            r == self@.kind(),
    {
        match self {
            AttrOutcome::Keep(a) => a.type_code(),
            AttrOutcome::Discard { type_code } => *type_code,
        }
    }
}

/// Attributes one behind the other; one that was dropped is not written again.
impl Record for AttrOutcome {
    /// Whether AS numbers have four octets.
    type Ctx = bool;

    open spec fn carried(v: OutcomeView, c: bool) -> bool {
        match v {
            OutcomeView::Keep(a) => encodable(a, c),
            OutcomeView::Discard { .. } => false,
        }
    }

    open spec fn octets(v: OutcomeView, c: bool) -> Seq<u8> {
        match v {
            OutcomeView::Keep(a) => attr_octets(a, c),
            OutcomeView::Discard { .. } => Seq::empty(),
        }
    }

    open spec fn front(s: Seq<u8>, c: bool) -> Option<(OutcomeView, int)> {
        attr_front(s, c)
    }

    proof fn lemma_front(v: OutcomeView, c: bool, rest: Seq<u8>) {
        if let OutcomeView::Keep(a) = v {
            lemma_attribute_round_trip(a, c, rest);
        }
    }

    fn write(&self, out: &mut Vec<u8>, c: bool) {
        match self {
            AttrOutcome::Keep(a) => a.encode(out, c),
            AttrOutcome::Discard { .. } => {},
        }
        assert(out@ =~= old(out)@ + Self::octets(self@, c));
    }

    fn read(s: &[u8], c: bool) -> (r: Option<(AttrOutcome, usize)>) {
        PathAttribute::decode(s, c)
    }
}

/// What stands in front of the value of an attribute: whether it is optional and whether it
/// is transitive, in the two highest bits; whether its length has two octets, which it has
/// exactly where one is not enough; its type; and its length.
pub proof fn lemma_attribute_on_the_wire(v: AttrView, four: bool)
    requires
        value_octets(v, four).len() <= 65535,
    ensures
        ({
            let s = attr_octets(v, four);
            let n = value_octets(v, four).len();
            &&& s.len() >= 3
            &&& (s[0] / 16 % 2 == 1) == (n > 255)
            &&& n <= 255 ==> s[2] == n && s.len() == 3 + n
            &&& n > 255 ==> s[2] * 256 + s[3] == n && s.len() == 4 + n
            &&& s[0] % 16 == v.canonical() % 16
            &&& v is Origin ==> s[1] == 1 && s[0] / 32 == 2
            &&& v is AsPath ==> s[1] == 2 && s[0] / 32 == 2
            &&& v is NextHop ==> s[1] == 3 && s[0] / 32 == 2
            &&& v is MultiExitDisc ==> s[1] == 4 && s[0] / 32 == 4
            &&& v is LocalPref ==> s[1] == 5 && s[0] / 32 == 2
            &&& v is AtomicAggregate ==> s[1] == 6 && s[0] / 32 == 2
            &&& v is Aggregator ==> s[1] == 7 && s[0] / 32 == 6
            &&& v is Communities ==> s[1] == 8 && s[0] / 32 == 6
            &&& v is OriginatorId ==> s[1] == 9 && s[0] / 32 == 4
            &&& v is ClusterList ==> s[1] == 10 && s[0] / 32 == 4
            &&& v is MpReachNlri ==> s[1] == 14 && s[0] / 32 == 4
            &&& v is MpReachEvpn ==> s[1] == 14 && s[0] / 32 == 4
            &&& v is MpReachFlowSpec ==> s[1] == 14 && s[0] / 32 == 4
            &&& v is MpReachSrPolicy ==> s[1] == 14 && s[0] / 32 == 4
            &&& v is MpReachLinkState ==> s[1] == 14 && s[0] / 32 == 4
            &&& v is MpUnreachNlri ==> s[1] == 15 && s[0] / 32 == 4
            &&& v is MpUnreachEvpn ==> s[1] == 15 && s[0] / 32 == 4
            &&& v is MpUnreachFlowSpec ==> s[1] == 15 && s[0] / 32 == 4
            &&& v is MpUnreachSrPolicy ==> s[1] == 15 && s[0] / 32 == 4
            &&& v is MpUnreachLinkState ==> s[1] == 15 && s[0] / 32 == 4
            &&& v is ExtendedCommunities ==> s[1] == 16 && s[0] / 32 == 6
            &&& v is As4Path ==> s[1] == 17 && s[0] / 32 == 6
            &&& v is As4Aggregator ==> s[1] == 18 && s[0] / 32 == 6
            &&& v is TunnelEncap ==> s[1] == 23 && s[0] / 32 == 6
            &&& v is BgpLs ==> s[1] == 29 && s[0] / 32 == 4
            &&& v is LargeCommunities ==> s[1] == 32 && s[0] / 32 == 6
            &&& v is OnlyToCustomer ==> s[1] == 35 && s[0] / 32 == 6
            &&& v is PrefixSid ==> s[1] == 40 && s[0] / 32 == 6
        }),
{
}

/// Whether the flags of an attribute that is understood are accepted, by its type:
/// well-known ones are transitive alone, MULTI_EXIT_DISC, ORIGINATOR_ID, CLUSTER_LIST, both
/// kinds of NLRI and link state are optional alone, and all others are both; the partial
/// bit is accepted on the last only.
pub proof fn lemma_flags_by_type(flags: u8, kind: u8, b: Seq<u8>, four: bool)
    requires
        outcome(flags, kind, b, four) is Some,
    ensures
        kind == 1 || kind == 2 || kind == 3 || kind == 5 || kind == 6 ==> flags / 32 == 2,
        kind == 4 || kind == 9 || kind == 10 || kind == 14 || kind == 15 ==> flags / 32 == 4,
        kind == 7 || kind == 8 || kind == 16 || kind == 17 || kind == 18 || kind == 32 || kind == 35
            ==> flags / 64 == 3,
{
    reveal(value_read);
    reveal(reach_of);
    reveal(unreach_of);
    if let Some(v) = value_read(flags, kind, b, four) {
        assert(is_single(kind) || is_list(kind) || kind == 14 || kind == 15 ==> v.kind() == kind
            && !(v is Unknown));
    }
}

/// Of the attributes with one value, these are kept, by their length and value; their flags
/// being in order, an ATOMIC_AGGREGATE or AGGREGATOR of another length is dropped alone, and
/// with any other the routes go.
pub proof fn lemma_single_values(flags: u8, kind: u8, b: Seq<u8>, four: bool)
    requires
        kind == 1 || kind == 3 || kind == 4 || kind == 5 || kind == 6 || kind == 7 || kind == 9
            || kind == 18 || kind == 35,
        flags / 64 == (if kind == 1 || kind == 3 || kind == 5 || kind == 6 {
            1u8
        } else if kind == 4 || kind == 9 {
            2
        } else {
            3
        }),
        kind == 7 || kind == 18 || kind == 35 || flags / 32 % 2 == 0,
    ensures
        ({
            let good = if kind == 1 {
                b.len() == 1 && b[0] <= 2
            } else if kind == 6 {
                b.len() == 0
            } else if kind == 7 {
                b.len() == (if four {
                    8int
                } else {
                    6
                })
            } else if kind == 18 {
                b.len() == 8
            } else {
                b.len() == 4
            };
            &&& good ==> (outcome(flags, kind, b, four) matches Some(OutcomeView::Keep(v))
                && v.kind() == kind)
            &&& !good && (kind == 6 || kind == 7) ==> outcome(flags, kind, b, four) == Some(
                OutcomeView::Discard { type_code: kind },
            )
            &&& !good && kind != 6 && kind != 7 ==> outcome(flags, kind, b, four) is None
        }),
{
    reveal(value_read);
}

/// A list of communities, clusters or the like is kept exactly where it holds whole entries
/// only: of four octets, of eight or of twelve.
pub proof fn lemma_lists_of_whole_entries(b: Seq<u8>, four: bool)
    ensures
        list_read(8, b, four) is Some <==> b.len() % 4 == 0,
        list_read(10, b, four) is Some <==> b.len() % 4 == 0,
        list_read(16, b, four) is Some <==> b.len() % 8 == 0,
        list_read(32, b, four) is Some <==> b.len() % 12 == 0,
    decreases b.len(),
{
    if b.len() >= 4 {
        lemma_lists_of_whole_entries(wire::from_at(b, 4), four);
    }
    if b.len() >= 8 {
        lemma_lists_of_whole_entries(wire::from_at(b, 8), four);
    }
    if b.len() >= 12 {
        lemma_lists_of_whole_entries(wire::from_at(b, 12), four);
    }
}

/// An attribute of a type that is not understood is kept as it came, where its flags are
/// such as a speaker may pass on.
pub proof fn lemma_unknown_is_kept(flags: u8, kind: u8, b: Seq<u8>, four: bool)
    requires
        kind == 0 || 11 <= kind <= 13 || 19 <= kind <= 22 || 24 <= kind <= 28 || kind == 30 || kind
            == 31 || kind == 33 || kind == 34 || 36 <= kind <= 39 || kind >= 41,
    ensures
        flags / 64 == 3 || flags / 32 % 2 == 0 ==> outcome(flags, kind, b, four) == Some(
            OutcomeView::Keep(AttrView::Unknown { flags, type_code: kind, value: b }),
        ),
        flags / 64 != 3 && flags / 32 % 2 == 1 ==> outcome(flags, kind, b, four) is None,
{
    reveal(value_read);
}

/// The lengths of next hops that unicast routes are accepted with: 4, 16 or 32 octets for
/// IPv4, and 16 or 32 for IPv6.
pub proof fn lemma_unicast_next_hops(afi: u16, next_hop: Seq<u8>)
    requires
        afi == 1 || afi == 2,
    ensures
        reach_of(afi, 1, next_hop, Seq::empty()) is Some <==> next_hop.len() == 16 || next_hop.len()
            == 32 || (afi == 1 && next_hop.len() == 4),
        unreach_of(afi, 1, Seq::empty()) is Some,
{
    reveal(reach_of);
    reveal(unreach_of);
}

/// What the attributes with one value say, octet by octet.
pub proof fn lemma_what_single_values_say(flags: u8, kind: u8, b: Seq<u8>, four: bool, i: int)
    ensures
        outcome(flags, kind, b, four) matches Some(OutcomeView::Keep(v)) ==> {
            let n = b[0] * 16777216 + b[1] * 65536 + b[2] * 256 + b[3];
            &&& kind == 1 ==> (v matches AttrView::Origin(o) && (o is Igp <==> b[0] == 0) && (o is Egp
                <==> b[0] == 1))
            &&& kind == 3 ==> (v matches AttrView::NextHop(a) && (0 <= i < 4 ==> a.octets@[i] == b[i]))
            &&& kind == 4 ==> v == AttrView::MultiExitDisc(n as u32)
            &&& kind == 5 ==> v == AttrView::LocalPref(n as u32)
            &&& kind == 6 ==> v is AtomicAggregate
            &&& kind == 7 && four ==> (v matches AttrView::Aggregator { asn, id } && asn == n && (0 <= i
                < 4 ==> id.octets@[i] == b[4 + i]))
            &&& kind == 7 && !four ==> (v matches AttrView::Aggregator { asn, id } && asn == b[0] * 256
                + b[1] && (0 <= i < 4 ==> id.octets@[i] == b[2 + i]))
            &&& kind == 9 ==> (v matches AttrView::OriginatorId(a) && (0 <= i < 4 ==> a.octets@[i]
                == b[i]))
            &&& kind == 18 ==> (v matches AttrView::As4Aggregator { asn, id } && asn == n && (0 <= i < 4
                ==> id.octets@[i] == b[4 + i]))
            &&& kind == 35 ==> v == AttrView::OnlyToCustomer(n as u32)
        },
{
    reveal(value_read);
}

/// Where the parts of an attribute of NLRI stand: the family in three octets, and where it
/// advertises, the length of the next hop, the next hop and an octet that does not count;
/// the NLRI are the rest. What is cut short is refused.
pub proof fn lemma_where_nlri_stand(b: Seq<u8>)
    ensures
        reach_read(b) is Some ==> b.len() >= 5 && b.len() >= 5 + b[3] && reach_read(b) == reach_of(
            (b[0] * 256 + b[1]) as u16,
            b[2],
            b.subrange(4, 4 + b[3]),
            b.subrange(5 + b[3], b.len() as int),
        ),
        b.len() >= 5 && b.len() >= 5 + b[3] && reach_of(
            (b[0] * 256 + b[1]) as u16,
            b[2],
            b.subrange(4, 4 + b[3]),
            b.subrange(5 + b[3], b.len() as int),
        ) is Some ==> reach_read(b) is Some,
        unreach_read(b) is Some <==> b.len() >= 3 && unreach_of(
            (b[0] * 256 + b[1]) as u16,
            b[2],
            b.subrange(3, b.len() as int),
        ) is Some,
        unreach_read(b) is Some ==> unreach_read(b) == unreach_of(
            (b[0] * 256 + b[1]) as u16,
            b[2],
            b.subrange(3, b.len() as int),
        ),
{
}

/// Which family the NLRI belong to, by AFI and SAFI, and what is kept of next hop and family.
pub proof fn lemma_families_of_nlri(afi: u16, safi: u8, next_hop: Seq<u8>, rest: Seq<u8>)
    ensures
        reach_of(afi, safi, next_hop, rest) matches Some(v) ==> match v {
            AttrView::MpReachEvpn { next_hop: h, .. } => afi == 25 && safi == 70 && h == next_hop,
            AttrView::MpReachFlowSpec { afi: a, next_hop: h, .. } => safi == 133 && a == afi && h
                == next_hop,
            AttrView::MpReachSrPolicy { afi: a, next_hop: h, .. } => safi == 73 && a == afi && h
                == next_hop,
            AttrView::MpReachLinkState { next_hop: h, .. } => afi == 16388 && safi == 71 && h
                == next_hop,
            AttrView::MpReachNlri { afi: a, safi: f, next_hop: h, nlri } => (a == 1 || a == 2) && f == 1
                && a == afi && f == safi && h == next_hop && run::run_values::<Prefix>(rest, afi)
                == Some(nlri),
            _ => false,
        },
        unreach_of(afi, safi, rest) matches Some(v) ==> match v {
            AttrView::MpUnreachEvpn { .. } => afi == 25 && safi == 70,
            AttrView::MpUnreachFlowSpec { afi: a, .. } => safi == 133 && a == afi,
            AttrView::MpUnreachSrPolicy { afi: a, .. } => safi == 73 && a == afi,
            AttrView::MpUnreachLinkState { .. } => afi == 16388 && safi == 71,
            AttrView::MpUnreachNlri { afi: a, safi: f, withdrawn } => (a == 1 || a == 2) && f == 1 && a
                == afi && f == safi && run::run_values::<Prefix>(rest, afi) == Some(withdrawn),
            _ => false,
        },
{
    reveal(reach_of);
    reveal(unreach_of);
}

/// Tunnels, link state and SIDs that cannot be read are kept as they came, and the routes stay,
/// where their flags are such as a speaker may pass on.
pub proof fn lemma_unreadable_is_kept(flags: u8, kind: u8, b: Seq<u8>, four: bool)
    requires
        kind == 23 || kind == 29 || kind == 40,
        flags / 64 == (if kind == 29 {
            2u8
        } else {
            3
        }),
        kind != 29 || flags / 32 % 2 == 0,
    ensures
        outcome(flags, kind, b, four) matches Some(OutcomeView::Keep(v)) && (v == (AttrView::Unknown {
            flags,
            type_code: kind,
            value: b,
        }) || (kind == 23 && v is TunnelEncap) || (kind == 29 && v is BgpLs) || (kind == 40
            && v is PrefixSid)),
{
    reveal(value_read);
}

/// The attribute at the front: its length has two octets where the bit of weight 16 is set, and
/// one otherwise, and what is cut short is refused.
pub proof fn lemma_attribute_framing(s: Seq<u8>, four: bool)
    ensures
        ({
            let wide = s[0] / 16 % 2 == 1;
            let head = if wide {
                4int
            } else {
                3
            };
            let n = if wide {
                s[2] * 256 + s[3]
            } else {
                s[2] as int
            };
            &&& s.len() < head || s.len() < head + n ==> attr_front(s, four) is None
            &&& s.len() >= head && s.len() >= head + n ==> (match outcome(
                s[0],
                s[1],
                s.subrange(head, head + n),
                four,
            ) {
                Some(o) => attr_front(s, four) == Some((o, head + n)),
                None => attr_front(s, four) is None,
            })
        }),
{
}

} // verus!
