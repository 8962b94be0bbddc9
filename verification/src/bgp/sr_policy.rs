//! Segment Routing policies (RFC 9256) over BGP: the NLRI of SAFI 73, which names a
//! candidate path, and the Tunnel Encapsulation attribute (RFC 9012), which holds what
//! the candidate path is.

use vstd::prelude::*;
use vstd::string::*;

use crate::bgp::srv6::{Srv6Sid, Srv6SidStructure};
use crate::bgp::tlv;
use crate::bgp::tlv::{Frame, Tlv, TlvView};
use crate::bgp::AFI_IPV6;
use crate::net;
use crate::net::IpAddr;
use crate::order::{dup_all, same_all, Datum, Ranked};
use crate::route;
use crate::run;
use crate::run::{Plain, Record};
use crate::text;
use crate::wire;

verus! {

/// Subsequent address family: SR policies.
pub const SAFI_SR_POLICY: u8 = 73;

/// Tunnel type: SR policy.
pub const TUNNEL_TYPE_SR_POLICY: u16 = 15;

/// One segment of a segment list.
#[derive(Clone, Copy, PartialEq, Eq, Debug)]
pub enum Segment {
    /// An MPLS label of 20 bits.
    MplsLabel(u32),
    /// An SRv6 SID.
    Srv6Sid {
        sid: Srv6Sid,
        /// The endpoint behaviour, where it is told.
        behavior: Option<u16>,
        /// The division of the SID, where it is told.
        structure: Option<Srv6SidStructure>,
    },
}

impl View for Segment {
    type V = Segment;

    open spec fn view(&self) -> Segment {
        *self
    }
}

impl Datum for Segment {
    fn dup(&self) -> (r: Segment) {
        *self
    }

    fn same(&self, other: &Segment) -> (r: bool) {
        match (self, other) {
            (Segment::MplsLabel(a), Segment::MplsLabel(b)) => *a == *b,
            (
                Segment::Srv6Sid { sid: a, behavior: b, structure: s },
                Segment::Srv6Sid { sid: x, behavior: y, structure: z },
            ) => same_sid(a, x) && *b == *y && *s == *z,
            _ => false,
        }
    }
}

fn same_sid(a: &Srv6Sid, b: &Srv6Sid) -> (r: bool)
    ensures
        r == (*a == *b),
{
    let r = wire::same_bytes(a.as_slice(), b.as_slice());
    assert(r ==> *a =~= *b);
    r
}

/// A segment list with its weight.
#[derive(Clone, PartialEq, Eq, Debug, Default)]
pub struct SegmentList {
    pub weight: Option<u32>,
    pub segments: Vec<Segment>,
}

/// A segment list as a mathematical value.
#[verifier::ext_equal]
pub struct SegmentListView {
    pub weight: Option<u32>,
    pub segments: Seq<Segment>,
}

impl View for SegmentList {
    type V = SegmentListView;

    open spec fn view(&self) -> SegmentListView {
        SegmentListView { weight: self.weight, segments: self.segments@ }
    }
}

impl Datum for SegmentList {
    fn dup(&self) -> (r: SegmentList) {
        let segments = dup_all(self.segments.as_slice());
        assert(wire::views(segments@) =~= segments@);
        assert(wire::views(self.segments@) =~= self.segments@);
        SegmentList { weight: self.weight, segments }
    }

    fn same(&self, other: &SegmentList) -> (r: bool) {
        assert(wire::views(self.segments@) =~= self.segments@);
        assert(wire::views(other.segments@) =~= other.segments@);
        self.weight == other.weight && same_all(
            self.segments.as_slice(),
            other.segments.as_slice(),
        )
    }
}

/// The binding SID of a candidate path.
#[derive(Clone, Copy, PartialEq, Eq, Debug, Default)]
pub enum BindingSid {
    /// There is none.
    #[default]
    Absent,
    /// An MPLS label of 20 bits.
    MplsLabel(u32),
    /// An SRv6 SID.
    Srv6Sid(Srv6Sid),
}

/// What a candidate path is.
#[derive(Clone, PartialEq, Eq, Debug)]
pub struct SrPolicyEncoding {
    /// The higher one wins.
    pub preference: Option<u32>,
    pub binding_sid: BindingSid,
    pub priority: Option<u8>,
    pub policy_name: Option<String>,
    pub segment_lists: Vec<SegmentList>,
}

/// A candidate path as a mathematical value.
#[verifier::ext_equal]
pub struct PolicyView {
    pub preference: Option<u32>,
    pub binding_sid: BindingSid,
    pub priority: Option<u8>,
    pub policy_name: Option<Seq<char>>,
    pub segment_lists: Seq<SegmentListView>,
}

impl View for SrPolicyEncoding {
    type V = PolicyView;

    open spec fn view(&self) -> PolicyView {
        PolicyView {
            preference: self.preference,
            binding_sid: self.binding_sid,
            priority: self.priority,
            policy_name: route::name_view(self.policy_name),
            segment_lists: wire::views(self.segment_lists@),
        }
    }
}

impl BindingSid {
    fn same(&self, other: &BindingSid) -> (r: bool)
        ensures
            r == (*self == *other),
    {
        match (self, other) {
            (BindingSid::Absent, BindingSid::Absent) => true,
            (BindingSid::MplsLabel(a), BindingSid::MplsLabel(b)) => *a == *b,
            (BindingSid::Srv6Sid(a), BindingSid::Srv6Sid(b)) => same_sid(a, b),
            _ => false,
        }
    }
}

impl Datum for SrPolicyEncoding {
    fn dup(&self) -> (r: SrPolicyEncoding) {
        SrPolicyEncoding {
            preference: self.preference,
            binding_sid: self.binding_sid,
            priority: self.priority,
            policy_name: route::dup_name(&self.policy_name),
            segment_lists: dup_all(self.segment_lists.as_slice()),
        }
    }

    fn same(&self, other: &SrPolicyEncoding) -> (r: bool) {
        self.preference == other.preference && self.binding_sid.same(&other.binding_sid)
            && self.priority == other.priority && route::same_name(
            &self.policy_name,
            &other.policy_name,
        ) && same_all(self.segment_lists.as_slice(), other.segment_lists.as_slice())
    }
}

/// A candidate path of which nothing is told.
pub open spec fn no_policy() -> PolicyView {
    PolicyView {
        preference: None,
        binding_sid: BindingSid::Absent,
        priority: None,
        policy_name: None,
        segment_lists: Seq::empty(),
    }
}

impl Default for SrPolicyEncoding {
    fn default() -> (r: SrPolicyEncoding)
        ensures
            r@ == no_policy(),
    {
        let r = SrPolicyEncoding {
            preference: None,
            binding_sid: BindingSid::Absent,
            priority: None,
            policy_name: None,
            segment_lists: Vec::new(),
        };
        assert(r@ =~= no_policy());
        r
    }
}

/// The preference by which candidate paths are compared: 100 where none is told.
pub open spec fn preference_of(v: PolicyView) -> u32 {
    match v.preference {
        Some(p) => p,
        None => 100,
    }
}

impl SrPolicyEncoding {
    /// The preference by which candidate paths are compared.
    pub fn effective_preference(&self) -> (r: u32)
        ensures
            r == preference_of(self@),
    {
        match self.preference {
            Some(p) => p,
            None => 100,
        }
    }
}

/// The NLRI: colour, endpoint and distinguisher of a candidate path.
#[derive(Clone, Copy, PartialEq, Eq, PartialOrd, Ord, Hash, Debug)]
pub struct SrPolicyNlri {
    pub color: u32,
    pub endpoint: IpAddr,
    /// Tells candidate paths of one colour and endpoint apart.
    pub distinguisher: u32,
}

impl View for SrPolicyNlri {
    type V = SrPolicyNlri;

    open spec fn view(&self) -> SrPolicyNlri {
        *self
    }
}

impl Datum for SrPolicyNlri {
    fn dup(&self) -> (r: SrPolicyNlri) {
        *self
    }

    fn same(&self, other: &SrPolicyNlri) -> (r: bool) {
        self.color == other.color && self.distinguisher == other.distinguisher
            && self.endpoint.same(&other.endpoint)
    }
}

impl Ranked for SrPolicyNlri {
    /// By colour, then endpoint, then distinguisher.
    open spec fn rank(key: SrPolicyNlri) -> Seq<u64> {
        seq![key.color as u64] + IpAddr::rank(key.endpoint) + seq![key.distinguisher as u64]
    }

    fn rank_of(&self) -> (r: Vec<u64>) {
        let mut out: Vec<u64> = Vec::new();
        out.push(self.color as u64);
        let mut e = self.endpoint.rank_of();
        out.append(&mut e);
        out.push(self.distinguisher as u64);
        assert(out@ =~= SrPolicyNlri::rank(*self));
        out
    }
}

/// Candidate paths of one rank are one candidate path.
pub proof fn lemma_sr_rank(a: SrPolicyNlri, b: SrPolicyNlri)
    requires
        SrPolicyNlri::rank(a) == SrPolicyNlri::rank(b),
    ensures
        a == b,
{
    let (s, t) = (SrPolicyNlri::rank(a), SrPolicyNlri::rank(b));
    let (x, y) = (seq![a.distinguisher as u64], seq![b.distinguisher as u64]);
    assert(s[0] == t[0]);
    assert(s.skip(1) =~= IpAddr::rank(a.endpoint) + x);
    assert(t.skip(1) =~= IpAddr::rank(b.endpoint) + y);
    net::lemma_addr_rank(a.endpoint, x, b.endpoint, y);
    assert(x[0] == y[0]);
}

/// An NLRI: the length in bits, distinguisher, colour, endpoint.
pub open spec fn nlri_octets(v: SrPolicyNlri) -> Seq<u8> {
    seq![(64 + v.endpoint.width()) as u8] + wire::be32(v.distinguisher) + wire::be32(v.color)
        + v.endpoint.bytes()
}

/// The NLRI at the front of `s`, whose endpoint is of family `afi`, and its length in
/// octets.
pub open spec fn nlri_front(s: Seq<u8>, afi: u16) -> Option<(SrPolicyNlri, int)> {
    let n = s[0] as int / 8;
    let width = if afi == 2 {
        16int
    } else {
        4
    };
    if s.len() == 0 || s.len() < 1 + n || n != 8 + width {
        None
    } else {
        Some(
            (
                SrPolicyNlri {
                    color: wire::u32_at(s, 5),
                    endpoint: if afi == 2 {
                        net::v6_at(s, 9)
                    } else {
                        net::v4_at(s, 9)
                    },
                    distinguisher: wire::u32_at(s, 1),
                },
                1 + n,
            ),
        )
    }
}

impl SrPolicyNlri {
    /// Append the NLRI.
    pub fn encode(&self, out: &mut Vec<u8>)
        ensures
            final(out)@ == old(out)@ + nlri_octets(*self),
    {
        if self.endpoint.is_ipv4() {
            out.push(96);
        } else {
            out.push(192);
        }
        wire::push_u32(out, self.distinguisher);
        wire::push_u32(out, self.color);
        self.endpoint.push_octets(out);
        assert(out@ =~= old(out)@ + nlri_octets(*self));
    }

    /// Decode one NLRI with an endpoint of family `afi` from the front of `buf`, with the
    /// number of octets it takes.
    pub fn decode(buf: &[u8], afi: u16) -> (r: Option<(SrPolicyNlri, usize)>)
        ensures
            match r {
                Some((v, used)) => nlri_front(buf@, afi) == Some((v, used as int)) && 0 < used
                    <= buf@.len(),
                None => nlri_front(buf@, afi) is None,
            },
    {
        if buf.len() == 0 {
            return None;
        }
        let n: usize = buf[0] as usize / 8;
        let width: usize = if afi == AFI_IPV6 {
            16
        } else {
            4
        };
        if buf.len() < 1 + n || n != 8 + width {
            return None;
        }
        let endpoint = if afi == AFI_IPV6 {
            net::read_v6(buf, 9)
        } else {
            net::read_v4(buf, 9)
        };
        Some(
            (
                SrPolicyNlri {
                    color: wire::read_u32(buf, 5),
                    endpoint,
                    distinguisher: wire::read_u32(buf, 1),
                },
                1 + n,
            ),
        )
    }
}

/// An NLRI is read back under the family of its endpoint, from in front of anything.
pub proof fn lemma_sr_nlri_round_trip(v: SrPolicyNlri, afi: u16, rest: Seq<u8>)
    requires
        (v.endpoint is V6) == (afi == 2),
    ensures
        nlri_octets(v).len() > 0,
        nlri_front(nlri_octets(v) + rest, afi) == Some((v, nlri_octets(v).len() as int)),
{
    let s = nlri_octets(v) + rest;
    let one = seq![(64 + v.endpoint.width()) as u8];
    let (d, k, e) = (wire::be32(v.distinguisher), wire::be32(v.color), v.endpoint.bytes());
    assert(s.subrange(1, 5) =~= d);
    assert(s.subrange(5, 9) =~= k);
    assert(s.subrange(9, 9 + e.len() as int) =~= e);
    wire::lemma_u32_placed(s, 1, v.distinguisher);
    wire::lemma_u32_placed(s, 5, v.color);
    match v.endpoint {
        IpAddr::V4(a) => {
            wire::lemma_arr4_placed(s, 9, a.octets);
        },
        IpAddr::V6(a) => {
            wire::lemma_arr16_placed(s, 9, a.octets);
        },
    }
}

impl Record for SrPolicyNlri {
    /// The address family.
    type Ctx = u16;

    open spec fn carried(v: SrPolicyNlri, c: u16) -> bool {
        (v.endpoint is V6) == (c == 2)
    }

    open spec fn octets(v: SrPolicyNlri, c: u16) -> Seq<u8> {
        nlri_octets(v)
    }

    open spec fn front(s: Seq<u8>, c: u16) -> Option<(SrPolicyNlri, int)> {
        nlri_front(s, c)
    }

    proof fn lemma_front(v: SrPolicyNlri, c: u16, rest: Seq<u8>) {
        lemma_sr_nlri_round_trip(v, c, rest);
    }

    fn write(&self, out: &mut Vec<u8>, c: u16) {
        self.encode(out);
    }

    fn read(s: &[u8], c: u16) -> (r: Option<(SrPolicyNlri, usize)>) {
        SrPolicyNlri::decode(s, c)
    }
}

/// Decode a run of NLRI that fills `buf`.
pub fn decode_nlris(buf: &[u8], afi: u16) -> (r: Option<Vec<SrPolicyNlri>>)
    ensures
        match r {
            Some(vs) => run::run_values::<SrPolicyNlri>(buf@, afi) == Some(wire::views(vs@)),
            None => run::run_values::<SrPolicyNlri>(buf@, afi) is None,
        },
{
    run::read_run::<SrPolicyNlri>(buf, afi)
}

/// Two octets of zeros and a label in the high 20 bits of four.
pub open spec fn label_body(label: u32) -> Seq<u8> {
    seq![0u8, 0] + wire::be32((label % 1048576 * 4096) as u32)
}

/// Two octets of zeros and a number.
pub open spec fn number_body(n: u32) -> Seq<u8> {
    seq![0u8, 0] + wire::be32(n)
}

/// What stands behind the SID of a segment: behaviour and division, both where either is
/// told.
pub open spec fn trailer(behavior: Option<u16>, structure: Option<Srv6SidStructure>) -> Seq<u8> {
    if behavior is None && structure is None {
        Seq::empty()
    } else {
        let b = match behavior {
            Some(b) => b,
            None => 0,
        };
        wire::be16(b) + seq![0u8] + (match structure {
            Some(st) => seq![
                st.locator_block_len,
                st.locator_node_len,
                st.function_len,
                st.argument_len,
                st.transposition_len,
                st.transposition_offset,
            ],
            None => seq![0u8, 0, 0, 0, 0, 0],
        })
    }
}

/// The sub-TLV of a segment.
pub open spec fn segment_tlv(s: Segment) -> TlvView {
    match s {
        Segment::MplsLabel(label) => TlvView { kind: 1, body: label_body(label) },
        Segment::Srv6Sid { sid, behavior, structure } => TlvView {
            kind: 13,
            body: seq![0u8, 0] + sid@ + trailer(behavior, structure),
        },
    }
}

/// The sub-TLVs of a segment list: the weight where there is one, the segments.
pub open spec fn segment_tlvs(v: SegmentListView) -> Seq<TlvView> {
    (match v.weight {
        Some(w) => seq![TlvView { kind: 9, body: number_body(w) }],
        None => Seq::empty(),
    }) + v.segments.map_values(|s: Segment| segment_tlv(s))
}

/// The sub-TLV of a segment list.
pub open spec fn segment_list_tlv(v: SegmentListView) -> TlvView {
    TlvView {
        kind: 128,
        body: seq![0u8] + run::run_octets::<Tlv>(segment_tlvs(v), Frame::Split),
    }
}

/// The sub-TLV of a binding SID, where there is one.
pub open spec fn binding_tlvs(b: BindingSid) -> Seq<TlvView> {
    match b {
        BindingSid::Absent => Seq::empty(),
        BindingSid::MplsLabel(label) => seq![TlvView { kind: 13, body: label_body(label) }],
        BindingSid::Srv6Sid(sid) => seq![TlvView { kind: 13, body: seq![0u8, 0] + sid@ }],
    }
}

/// The sub-TLVs in front of the segment lists: preference, binding SID, priority, each
/// where there is one.
pub open spec fn leading_tlvs(v: PolicyView) -> Seq<TlvView> {
    (match v.preference {
        Some(p) => seq![TlvView { kind: 12, body: number_body(p) }],
        None => Seq::empty(),
    }) + binding_tlvs(v.binding_sid) + (match v.priority {
        Some(p) => seq![TlvView { kind: 15, body: seq![p, 0] }],
        None => Seq::empty(),
    })
}

/// The sub-TLV behind the segment lists: the name, where there is one.
pub open spec fn name_tlvs(name: Option<Seq<char>>) -> Seq<TlvView> {
    match name {
        Some(n) => seq![
            TlvView { kind: 129, body: seq![0u8] + vstd::utf8::encode_utf8(n) },
        ],
        None => Seq::empty(),
    }
}

pub open spec fn list_tlvs(lists: Seq<SegmentListView>) -> Seq<TlvView> {
    lists.map_values(|l: SegmentListView| segment_list_tlv(l))
}

/// The sub-TLVs of a candidate path.
pub open spec fn policy_tlvs(v: PolicyView) -> Seq<TlvView> {
    leading_tlvs(v) + list_tlvs(v.segment_lists) + name_tlvs(v.policy_name)
}

/// The tunnel TLV of a candidate path.
pub open spec fn policy_tunnel(v: PolicyView) -> TlvView {
    TlvView { kind: 15, body: run::run_octets::<Tlv>(policy_tlvs(v), Frame::Split) }
}

/// A segment list after one more sub-TLV: a weight replaces what was there, a segment is
/// added, anything else is passed over.
pub open spec fn segment_list_after(v: SegmentListView, t: TlvView) -> SegmentListView {
    let b = t.body;
    if t.kind == 9 && b.len() >= 6 {
        SegmentListView { weight: Some(wire::u32_at(b, 2)), segments: v.segments }
    } else if t.kind == 1 && b.len() >= 6 {
        SegmentListView {
            weight: v.weight,
            segments: v.segments.push(Segment::MplsLabel(wire::u32_at(b, 2) / 4096)),
        }
    } else if t.kind == 13 && b.len() >= 18 {
        SegmentListView { weight: v.weight, segments: v.segments.push(srv6_segment(b)) }
    } else {
        v
    }
}

/// The SRv6 segment of a sub-TLV.
pub open spec fn srv6_segment(b: Seq<u8>) -> Segment {
    Segment::Srv6Sid {
        sid: wire::arr16_at(b, 2),
        behavior: if b.len() >= 27 {
            Some(wire::u16_at(b, 18))
        } else {
            None
        },
        structure: if b.len() >= 27 {
            Some(
                Srv6SidStructure {
                    locator_block_len: b[21],
                    locator_node_len: b[22],
                    function_len: b[23],
                    argument_len: b[24],
                    transposition_len: b[25],
                    transposition_offset: b[26],
                },
            )
        } else {
            None
        },
    }
}

pub open spec fn segment_list_of(ts: Seq<TlvView>) -> SegmentListView
    decreases ts.len(),
{
    if ts.len() == 0 {
        SegmentListView { weight: None, segments: Seq::empty() }
    } else {
        segment_list_after(segment_list_of(ts.drop_last()), ts.last())
    }
}

/// The segment list in the value of a sub-TLV.
pub open spec fn segment_list_read(b: Seq<u8>) -> Option<SegmentListView> {
    if b.len() == 0 {
        None
    } else {
        match run::run_values::<Tlv>(wire::from_at(b, 1), Frame::Split) {
            Some(ts) => Some(segment_list_of(ts)),
            None => None,
        }
    }
}

/// The binding SID in the value of a sub-TLV, by its length.
pub open spec fn binding_read(b: Seq<u8>) -> BindingSid {
    if b.len() == 6 {
        BindingSid::MplsLabel(wire::u32_at(b, 2) / 4096)
    } else if b.len() == 18 {
        BindingSid::Srv6Sid(wire::arr16_at(b, 2))
    } else {
        BindingSid::Absent
    }
}

/// A candidate path after one more sub-TLV: what is told replaces what was there, a
/// segment list is added unless it is malformed, anything else is passed over.
pub open spec fn policy_after(v: PolicyView, t: TlvView) -> PolicyView {
    let b = t.body;
    if t.kind == 12 && b.len() >= 6 {
        PolicyView { preference: Some(wire::u32_at(b, 2)), ..v }
    } else if t.kind == 13 {
        PolicyView { binding_sid: binding_read(b), ..v }
    } else if t.kind == 15 && b.len() > 0 {
        PolicyView { priority: Some(b[0]), ..v }
    } else if t.kind == 128 {
        match segment_list_read(b) {
            Some(l) => PolicyView { segment_lists: v.segment_lists.push(l), ..v },
            None => v,
        }
    } else if t.kind == 129 && b.len() > 0 {
        PolicyView { policy_name: Some(text::text_of(wire::from_at(b, 1))), ..v }
    } else {
        v
    }
}

pub open spec fn policy_of(ts: Seq<TlvView>) -> PolicyView
    decreases ts.len(),
{
    if ts.len() == 0 {
        no_policy()
    } else {
        policy_after(policy_of(ts.drop_last()), ts.last())
    }
}

/// The candidate path in the value of a tunnel TLV.
pub open spec fn policy_read(b: Seq<u8>) -> Option<PolicyView> {
    match run::run_values::<Tlv>(b, Frame::Split) {
        Some(ts) => Some(policy_of(ts)),
        None => None,
    }
}

fn push_label_body(out: &mut Vec<u8>, label: u32)
    ensures
        final(out)@ == old(out)@ + label_body(label),
{
    out.push(0);
    out.push(0);
    wire::push_u32(out, label % 1048576 * 4096);
    assert(out@ =~= old(out)@ + label_body(label));
}

fn push_trailer(
    out: &mut Vec<u8>,
    behavior: &Option<u16>,
    structure: &Option<Srv6SidStructure>,
)
    ensures
        final(out)@ == old(out)@ + trailer(*behavior, *structure),
{
    if behavior.is_some() || structure.is_some() {
        let b: u16 = match behavior {
            Some(b) => *b,
            None => 0,
        };
        wire::push_u16(out, b);
        out.push(0);
        match structure {
            Some(st) => {
                out.push(st.locator_block_len);
                out.push(st.locator_node_len);
                out.push(st.function_len);
                out.push(st.argument_len);
                out.push(st.transposition_len);
                out.push(st.transposition_offset);
            },
            None => {
                wire::push_u32(out, 0);
                wire::push_u16(out, 0);
            },
        }
    }
    assert(out@ =~= old(out)@ + trailer(*behavior, *structure));
}

fn encode_segment(out: &mut Vec<u8>, s: &Segment)
    ensures
        final(out)@ == old(out)@ + Tlv::octets(segment_tlv(*s), Frame::Split),
{
    let mut body: Vec<u8> = Vec::new();
    match s {
        Segment::MplsLabel(label) => {
            push_label_body(&mut body, *label);
            assert(body@ =~= segment_tlv(*s).body);
            tlv::push_tlv(out, 1, body.as_slice(), Frame::Split);
        },
        Segment::Srv6Sid { sid, behavior, structure } => {
            body.push(0);
            body.push(0);
            wire::push_all(&mut body, sid.as_slice());
            push_trailer(&mut body, behavior, structure);
            assert(body@ =~= segment_tlv(*s).body);
            tlv::push_tlv(out, 13, body.as_slice(), Frame::Split);
        },
    }
}

fn push_number_tlv(out: &mut Vec<u8>, kind: u16, n: u32)
    ensures
        final(out)@ == old(out)@ + Tlv::octets(
            (TlvView { kind, body: number_body(n) }),
            Frame::Split,
        ),
{
    let mut body: Vec<u8> = Vec::new();
    body.push(0);
    body.push(0);
    wire::push_u32(&mut body, n);
    assert(body@ =~= number_body(n));
    tlv::push_tlv(out, kind, body.as_slice(), Frame::Split);
}

proof fn lemma_one(t: TlvView)
    ensures
        run::run_octets::<Tlv>(seq![t], Frame::Split) == Tlv::octets(t, Frame::Split),
{
    run::lemma_run_push::<Tlv>(Seq::empty(), t, Frame::Split);
    assert(Seq::<TlvView>::empty().push(t) =~= seq![t]);
    assert(Seq::<u8>::empty() + Tlv::octets(t, Frame::Split) =~= Tlv::octets(t, Frame::Split));
}

fn encode_segment_list(out: &mut Vec<u8>, l: &SegmentList)
    ensures
        final(out)@ == old(out)@ + Tlv::octets(segment_list_tlv(l@), Frame::Split),
{
    let mut body: Vec<u8> = Vec::new();
    body.push(0);
    let ghost segs = l.segments@.map_values(|s: Segment| segment_tlv(s));
    let ghost front = match l.weight {
        Some(w) => seq![TlvView { kind: 9, body: number_body(w) }],
        None => Seq::empty(),
    };
    if let Some(w) = l.weight {
        proof {
            lemma_one(TlvView { kind: 9, body: number_body(w) });
        }
        push_number_tlv(&mut body, 9, w);
    }
    assert(segs.take(0) =~= Seq::empty());
    assert(front + segs.take(0) =~= front);
    assert(body@ =~= seq![0u8] + run::run_octets::<Tlv>(front + segs.take(0), Frame::Split));
    let mut i: usize = 0;
    while i < l.segments.len()
        invariant
            i <= l.segments.len(),
            segs == l.segments@.map_values(|s: Segment| segment_tlv(s)),
            body@ == seq![0u8] + run::run_octets::<Tlv>(front + segs.take(i as int), Frame::Split),
        decreases l.segments.len() - i,
    {
        encode_segment(&mut body, &l.segments[i]);
        proof {
            run::lemma_run_push::<Tlv>(front + segs.take(i as int), segs[i as int], Frame::Split);
            assert(front + segs.take(i + 1) =~= (front + segs.take(i as int)).push(segs[i as int]));
            assert(body@ =~= seq![0u8] + run::run_octets::<Tlv>(
                front + segs.take(i + 1),
                Frame::Split,
            ));
        }
        i = i + 1;
    }
    assert(segs.take(i as int) =~= segs);
    assert(front + segs =~= segment_tlvs(l@));
    tlv::push_tlv(out, 128, body.as_slice(), Frame::Split);
}

fn push_leading(out: &mut Vec<u8>, enc: &SrPolicyEncoding)
    ensures
        final(out)@ == old(out)@ + run::run_octets::<Tlv>(leading_tlvs(enc@), Frame::Split),
{
    let ghost a = match enc.preference {
        Some(p) => seq![TlvView { kind: 12, body: number_body(p) }],
        None => Seq::empty(),
    };
    let ghost b = binding_tlvs(enc.binding_sid);
    let ghost c = match enc.priority {
        Some(p) => seq![TlvView { kind: 15, body: seq![p, 0] }],
        None => Seq::empty(),
    };
    if let Some(p) = enc.preference {
        proof {
            lemma_one(TlvView { kind: 12, body: number_body(p) });
        }
        push_number_tlv(out, 12, p);
    }
    assert(out@ =~= old(out)@ + run::run_octets::<Tlv>(a, Frame::Split));
    match &enc.binding_sid {
        BindingSid::Absent => {},
        BindingSid::MplsLabel(label) => {
            let mut body: Vec<u8> = Vec::new();
            push_label_body(&mut body, *label);
            assert(body@ =~= label_body(*label));
            proof {
                lemma_one(TlvView { kind: 13, body: label_body(*label) });
            }
            tlv::push_tlv(out, 13, body.as_slice(), Frame::Split);
        },
        BindingSid::Srv6Sid(sid) => {
            let mut body: Vec<u8> = Vec::new();
            body.push(0);
            body.push(0);
            wire::push_all(&mut body, sid.as_slice());
            assert(body@ =~= seq![0u8, 0] + sid@);
            proof {
                lemma_one(TlvView { kind: 13, body: seq![0u8, 0] + sid@ });
            }
            tlv::push_tlv(out, 13, body.as_slice(), Frame::Split);
        },
    }
    proof {
        run::lemma_run_concat::<Tlv>(a, b, Frame::Split);
        assert(out@ =~= old(out)@ + run::run_octets::<Tlv>(a + b, Frame::Split));
    }
    if let Some(p) = enc.priority {
        let body = [p, 0];
        assert(body@ =~= seq![p, 0]);
        proof {
            lemma_one(TlvView { kind: 15, body: seq![p, 0] });
        }
        tlv::push_tlv(out, 15, body.as_slice(), Frame::Split);
    }
    proof {
        run::lemma_run_concat::<Tlv>(a + b, c, Frame::Split);
        assert(out@ =~= old(out)@ + run::run_octets::<Tlv>(a + b + c, Frame::Split));
    }
}

/// Append the tunnel TLV of a candidate path.
pub fn encode_tunnel_tlv(out: &mut Vec<u8>, enc: &SrPolicyEncoding)
    ensures
        final(out)@ == old(out)@ + Tlv::octets(policy_tunnel(enc@), Frame::Long),
{
    let mut sub: Vec<u8> = Vec::new();
    push_leading(&mut sub, enc);
    let ghost front = leading_tlvs(enc@);
    let ghost lists = list_tlvs(enc@.segment_lists);
    assert(front + lists.take(0) =~= front);
    assert(sub@ =~= run::run_octets::<Tlv>(front + lists.take(0), Frame::Split));
    let mut i: usize = 0;
    while i < enc.segment_lists.len()
        invariant
            i <= enc.segment_lists.len(),
            lists == list_tlvs(enc@.segment_lists),
            sub@ == run::run_octets::<Tlv>(front + lists.take(i as int), Frame::Split),
        decreases enc.segment_lists.len() - i,
    {
        encode_segment_list(&mut sub, &enc.segment_lists[i]);
        proof {
            run::lemma_run_push::<Tlv>(front + lists.take(i as int), lists[i as int], Frame::Split);
            assert(front + lists.take(i + 1) =~= (front + lists.take(i as int)).push(
                lists[i as int],
            ));
            assert(lists[i as int] == segment_list_tlv(enc.segment_lists@[i as int]@));
        }
        i = i + 1;
    }
    assert(lists.take(i as int) =~= lists);
    let ghost tail = name_tlvs(enc@.policy_name);
    if let Some(name) = &enc.policy_name {
        let mut body: Vec<u8> = Vec::new();
        body.push(0);
        wire::push_all(&mut body, name.as_str().as_bytes());
        assert(body@ =~= seq![0u8] + vstd::utf8::encode_utf8(name@));
        proof {
            lemma_one(TlvView { kind: 129, body: seq![0u8] + vstd::utf8::encode_utf8(name@) });
        }
        tlv::push_tlv(&mut sub, 129, body.as_slice(), Frame::Split);
    }
    proof {
        run::lemma_run_concat::<Tlv>(front + lists, tail, Frame::Split);
        assert(sub@ =~= run::run_octets::<Tlv>(policy_tlvs(enc@), Frame::Split));
    }
    tlv::push_tlv(out, TUNNEL_TYPE_SR_POLICY, sub.as_slice(), Frame::Long);
}

fn read_segment(b: &[u8]) -> (r: Segment)
    requires
        b@.len() >= 18,
    ensures
        r == srv6_segment(b@),
{
    let told = b.len() >= 27;
    Segment::Srv6Sid {
        sid: wire::read_arr16(b, 2),
        behavior: if told {
            Some(wire::read_u16(b, 18))
        } else {
            None
        },
        structure: if told {
            Some(
                Srv6SidStructure {
                    locator_block_len: b[21],
                    locator_node_len: b[22],
                    function_len: b[23],
                    argument_len: b[24],
                    transposition_len: b[25],
                    transposition_offset: b[26],
                },
            )
        } else {
            None
        },
    }
}

fn decode_segment_list(b: &[u8]) -> (r: Option<SegmentList>)
    ensures
        match r {
            Some(l) => segment_list_read(b@) == Some(l@),
            None => segment_list_read(b@) is None,
        },
{
    if b.len() == 0 {
        return None;
    }
    let ts = match run::read_run::<Tlv>(&b[1..b.len()], Frame::Split) {
        Some(ts) => ts,
        None => {
            return None;
        },
    };
    let ghost all = wire::views(ts@);
    let mut l = SegmentList { weight: None, segments: Vec::new() };
    let mut i: usize = 0;
    assert(l@ =~= segment_list_of(all.take(0)));
    while i < ts.len()
        invariant
            i <= ts.len(),
            all == wire::views(ts@),
            l@ == segment_list_of(all.take(i as int)),
        decreases ts.len() - i,
    {
        let t = &ts[i];
        assert(all.take(i + 1).drop_last() =~= all.take(i as int));
        assert(all.take(i + 1).last() == t@);
        let body = t.body.as_slice();
        if t.kind == 9 && body.len() >= 6 {
            l.weight = Some(wire::read_u32(body, 2));
        } else if t.kind == 1 && body.len() >= 6 {
            l.segments.push(Segment::MplsLabel(wire::read_u32(body, 2) / 4096));
        } else if t.kind == 13 && body.len() >= 18 {
            l.segments.push(read_segment(body));
        }
        assert(l@ =~= segment_list_of(all.take(i + 1)));
        i = i + 1;
    }
    assert(all.take(i as int) =~= all);
    Some(l)
}

fn read_binding(b: &[u8]) -> (r: BindingSid)
    ensures
        r == binding_read(b@),
{
    if b.len() == 6 {
        BindingSid::MplsLabel(wire::read_u32(b, 2) / 4096)
    } else if b.len() == 18 {
        BindingSid::Srv6Sid(wire::read_arr16(b, 2))
    } else {
        BindingSid::Absent
    }
}

fn apply_sub_tlv(enc: &mut SrPolicyEncoding, t: &Tlv)
    ensures
        final(enc)@ == policy_after(old(enc)@, t@),
{
    let body = t.body.as_slice();
    if t.kind == 12 && body.len() >= 6 {
        enc.preference = Some(wire::read_u32(body, 2));
    } else if t.kind == 13 {
        enc.binding_sid = read_binding(body);
    } else if t.kind == 15 && body.len() > 0 {
        enc.priority = Some(body[0]);
    } else if t.kind == 128 {
        if let Some(l) = decode_segment_list(body) {
            proof {
                wire::lemma_views_push(enc.segment_lists@, l);
            }
            enc.segment_lists.push(l);
        }
    } else if t.kind == 129 && body.len() > 0 {
        enc.policy_name = Some(text::lossy(&body[1..body.len()]));
    }
    assert(enc@ =~= policy_after(old(enc)@, t@));
}

/// Decode the value of an SR policy tunnel TLV. `None` where a sub-TLV is cut short.
pub fn decode_tunnel_value(buf: &[u8]) -> (r: Option<SrPolicyEncoding>)
    ensures
        match r {
            Some(enc) => policy_read(buf@) == Some(enc@),
            None => policy_read(buf@) is None,
        },
{
    let ts = match run::read_run::<Tlv>(buf, Frame::Split) {
        Some(ts) => ts,
        None => {
            return None;
        },
    };
    let ghost all = wire::views(ts@);
    let mut enc = SrPolicyEncoding {
        preference: None,
        binding_sid: BindingSid::Absent,
        priority: None,
        policy_name: None,
        segment_lists: Vec::new(),
    };
    let mut i: usize = 0;
    assert(enc@ =~= policy_of(all.take(0)));
    while i < ts.len()
        invariant
            i <= ts.len(),
            all == wire::views(ts@),
            enc@ == policy_of(all.take(i as int)),
        decreases ts.len() - i,
    {
        apply_sub_tlv(&mut enc, &ts[i]);
        assert(all.take(i + 1).drop_last() =~= all.take(i as int));
        assert(all.take(i + 1).last() == ts@[i as int]@);
        i = i + 1;
    }
    assert(all.take(i as int) =~= all);
    Some(enc)
}

/// One tunnel of a Tunnel Encapsulation attribute.
#[derive(Clone, PartialEq, Eq, Debug)]
pub enum TunnelTlv {
    /// An SR policy.
    SrPolicy(SrPolicyEncoding),
    /// A tunnel of another type, as it is.
    Other { tunnel_type: u16, value: Vec<u8> },
}

/// A tunnel as a mathematical value.
pub enum TunnelView {
    SrPolicy(PolicyView),
    Other { tunnel_type: u16, value: Seq<u8> },
}

impl View for TunnelTlv {
    type V = TunnelView;

    open spec fn view(&self) -> TunnelView {
        match *self {
            TunnelTlv::SrPolicy(enc) => TunnelView::SrPolicy(enc@),
            TunnelTlv::Other { tunnel_type, value } => TunnelView::Other {
                tunnel_type,
                value: value@,
            },
        }
    }
}

/// The TLV of a tunnel.
pub open spec fn tunnel_tlv(v: TunnelView) -> TlvView {
    match v {
        TunnelView::SrPolicy(p) => policy_tunnel(p),
        TunnelView::Other { tunnel_type, value } => TlvView { kind: tunnel_type, body: value },
    }
}

/// The tunnel of a TLV.
pub open spec fn tunnel_of(t: TlvView) -> Option<TunnelView> {
    if t.kind == 15 {
        match policy_read(t.body) {
            Some(p) => Some(TunnelView::SrPolicy(p)),
            None => None,
        }
    } else {
        Some(TunnelView::Other { tunnel_type: t.kind, value: t.body })
    }
}

impl Record for TunnelTlv {
    type Ctx = Plain;

    open spec fn carried(v: TunnelView, c: Plain) -> bool {
        match v {
            TunnelView::SrPolicy(p) => encodable(p),
            TunnelView::Other { tunnel_type, value } => tunnel_type != 15 && value.len() <= 65535,
        }
    }

    open spec fn octets(v: TunnelView, c: Plain) -> Seq<u8> {
        Tlv::octets(tunnel_tlv(v), Frame::Long)
    }

    open spec fn front(s: Seq<u8>, c: Plain) -> Option<(TunnelView, int)> {
        match tlv::tlv_front(s, Frame::Long) {
            Some((t, used)) => match tunnel_of(t) {
                Some(v) => Some((v, used)),
                None => None,
            },
            None => None,
        }
    }

    proof fn lemma_front(v: TunnelView, c: Plain, rest: Seq<u8>) {
        if let TunnelView::SrPolicy(p) = v {
            lemma_policy_round_trip(p);
        }
        tlv::lemma_tlv_round_trip(tunnel_tlv(v), Frame::Long, rest);
    }

    fn write(&self, out: &mut Vec<u8>, c: Plain) {
        match self {
            TunnelTlv::SrPolicy(enc) => encode_tunnel_tlv(out, enc),
            TunnelTlv::Other { tunnel_type, value } => tlv::push_tlv(
                out,
                *tunnel_type,
                value.as_slice(),
                Frame::Long,
            ),
        }
    }

    fn read(s: &[u8], c: Plain) -> (r: Option<(TunnelTlv, usize)>) {
        match Tlv::read(s, Frame::Long) {
            Some((t, used)) => if t.kind == TUNNEL_TYPE_SR_POLICY {
                match decode_tunnel_value(t.body.as_slice()) {
                    Some(enc) => Some((TunnelTlv::SrPolicy(enc), used)),
                    None => None,
                }
            } else {
                Some((TunnelTlv::Other { tunnel_type: t.kind, value: t.body }, used))
            },
            None => None,
        }
    }
}

/// The value of a Tunnel Encapsulation attribute.
pub fn encode_tunnel_encap(tlvs: &[TunnelTlv]) -> (r: Vec<u8>)
    ensures
        r@ == run::run_octets::<TunnelTlv>(wire::views(tlvs@), Plain),
{
    let mut out: Vec<u8> = Vec::new();
    run::write_run::<TunnelTlv>(&mut out, tlvs, Plain);
    assert(out@ =~= run::run_octets::<TunnelTlv>(wire::views(tlvs@), Plain));
    out
}

/// Decode the value of a Tunnel Encapsulation attribute. `None` where something in it is
/// cut short.
pub fn decode_tunnel_encap(value: &[u8]) -> (r: Option<Vec<TunnelTlv>>)
    ensures
        match r {
            Some(vs) => run::run_values::<TunnelTlv>(value@, Plain) == Some(wire::views(vs@)),
            None => run::run_values::<TunnelTlv>(value@, Plain) is None,
        },
{
    run::read_run::<TunnelTlv>(value, Plain)
}

/// The first SR policy among tunnels.
pub open spec fn first_policy(vs: Seq<TunnelView>) -> Option<PolicyView>
    decreases vs.len(),
{
    if vs.len() == 0 {
        None
    } else if let TunnelView::SrPolicy(p) = vs[0] {
        Some(p)
    } else {
        first_policy(vs.drop_first())
    }
}

/// The first SR policy among tunnels.
pub fn sr_policy_of(tlvs: &[TunnelTlv]) -> (r: Option<&SrPolicyEncoding>)
    ensures
        match r {
            Some(enc) => first_policy(wire::views(tlvs@)) == Some(enc@),
            None => first_policy(wire::views(tlvs@)) is None,
        },
{
    let ghost all = wire::views(tlvs@);
    let mut i: usize = 0;
    assert(all.skip(0) =~= all);
    while i < tlvs.len()
        invariant
            i <= tlvs.len(),
            all == wire::views(tlvs@),
            first_policy(all) == first_policy(all.skip(i as int)),
        decreases tlvs.len() - i,
    {
        assert(all.skip(i as int)[0] == tlvs@[i as int]@);
        assert(all.skip(i as int).drop_first() =~= all.skip(i + 1));
        if let TunnelTlv::SrPolicy(enc) = &tlvs[i] {
            return Some(enc);
        }
        i = i + 1;
    }
    None
}

/// The segments that survive their encoding: labels of 20 bits, and behaviour and
/// division either both told or neither.
pub open spec fn segment_encodable(s: Segment) -> bool {
    match s {
        Segment::MplsLabel(label) => label < 1048576,
        Segment::Srv6Sid { behavior, structure, .. } => (behavior is Some) == (structure is Some),
    }
}

/// The candidate paths that survive their encoding: segments and labels do, and every
/// length fits its field.
pub open spec fn encodable(v: PolicyView) -> bool {
    &&& (v.binding_sid matches BindingSid::MplsLabel(label) ==> label < 1048576)
    &&& forall|i: int, j: int|
        0 <= i < v.segment_lists.len() && 0 <= j < v.segment_lists[i].segments.len()
            ==> segment_encodable(#[trigger] v.segment_lists[i].segments[j])
    &&& forall|i: int|
        0 <= i < v.segment_lists.len() ==> segment_list_tlv(
            #[trigger] v.segment_lists[i],
        ).body.len() <= 65535
    &&& (v.policy_name matches Some(n) ==> vstd::utf8::encode_utf8(n).len() < 65535)
    &&& policy_tunnel(v).body.len() <= 65535
}

proof fn lemma_label_back(label: u32)
    requires
        label < 1048576,
    ensures
        label_body(label).len() == 6,
        wire::u32_at(label_body(label), 2) / 4096 == label,
{
    let n = (label * 4096) as u32;
    wire::lemma_u32_back(seq![0u8, 0], n, Seq::empty());
    assert(label_body(label) =~= seq![0u8, 0] + wire::be32(n) + Seq::<u8>::empty());
}

proof fn lemma_number_back(n: u32)
    ensures
        number_body(n).len() == 6,
        wire::u32_at(number_body(n), 2) == n,
{
    wire::lemma_u32_back(seq![0u8, 0], n, Seq::empty());
    assert(number_body(n) =~= seq![0u8, 0] + wire::be32(n) + Seq::<u8>::empty());
}

proof fn lemma_segment_back(s: Segment, v: SegmentListView)
    requires
        segment_encodable(s),
    ensures
        tlv::fits(segment_tlv(s), Frame::Split),
        segment_list_after(v, segment_tlv(s)) == (SegmentListView {
            weight: v.weight,
            segments: v.segments.push(s),
        }),
{
    match s {
        Segment::MplsLabel(label) => {
            lemma_label_back(label);
        },
        Segment::Srv6Sid { sid, behavior, structure } => {
            let b = segment_tlv(s).body;
            let t = trailer(behavior, structure);
            assert(b.subrange(2, 18) =~= sid@);
            wire::lemma_arr16_placed(b, 2, sid);
            if let Some(x) = behavior {
                assert(b.subrange(18, 20) =~= wire::be16(x));
                wire::lemma_u16_placed(b, 18, x);
                let st = structure->0;
                assert(t.len() == 9);
                assert(b[21] == t[3] && b[22] == t[4] && b[23] == t[5]);
                assert(b[24] == t[6] && b[25] == t[7] && b[26] == t[8]);
                assert(srv6_segment(b) == s);
            } else {
                assert(b.len() == 18);
            }
        },
    }
}

proof fn lemma_segments_back(v: SegmentListView)
    requires
        forall|j: int| 0 <= j < v.segments.len() ==> segment_encodable(#[trigger] v.segments[j]),
    ensures
        segment_list_of(segment_tlvs(v)) == v,
        forall|i: int|
            0 <= i < segment_tlvs(v).len() ==> tlv::fits(
                #[trigger] segment_tlvs(v)[i],
                Frame::Split,
            ),
    decreases v.segments.len(),
{
    let ts = segment_tlvs(v);
    if v.segments.len() > 0 {
        let u = SegmentListView { weight: v.weight, segments: v.segments.drop_last() };
        assert forall|j: int| 0 <= j < u.segments.len() implies segment_encodable(
            #[trigger] u.segments[j],
        ) by {
            assert(u.segments[j] == v.segments[j]);
        }
        lemma_segments_back(u);
        assert(ts.drop_last() =~= segment_tlvs(u));
        assert(ts.last() == segment_tlv(v.segments.last()));
        assert(segment_encodable(v.segments[v.segments.len() - 1]));
        lemma_segment_back(v.segments.last(), u);
        assert(u.segments.push(v.segments.last()) =~= v.segments);
        assert forall|i: int| 0 <= i < ts.len() implies tlv::fits(
            #[trigger] ts[i],
            Frame::Split,
        ) by {
            if i < ts.len() - 1 {
                assert(ts[i] == segment_tlvs(u)[i]);
            }
        }
    } else if let Some(w) = v.weight {
        lemma_number_back(w);
        let t = TlvView { kind: 9, body: number_body(w) };
        assert(ts =~= seq![t]);
        let e = Seq::<TlvView>::empty();
        assert(ts.drop_last() =~= e);
        assert(segment_list_of(e).segments =~= v.segments);
        assert(segment_list_of(ts) =~= v);
    } else {
        assert(ts =~= Seq::<TlvView>::empty());
        assert(segment_list_of(ts) =~= v);
    }
}

proof fn lemma_list_back(l: SegmentListView)
    requires
        forall|j: int| 0 <= j < l.segments.len() ==> segment_encodable(#[trigger] l.segments[j]),
    ensures
        segment_list_read(segment_list_tlv(l).body) == Some(l),
{
    lemma_segments_back(l);
    let ts = segment_tlvs(l);
    assert forall|i: int| 0 <= i < ts.len() implies Tlv::carried(#[trigger] ts[i], Frame::Split) by {
        assert(tlv::fits(ts[i], Frame::Split));
    }
    run::lemma_run_round_trip::<Tlv>(ts, Frame::Split);
    assert(wire::from_at(segment_list_tlv(l).body, 1) =~= run::run_octets::<Tlv>(
        ts,
        Frame::Split,
    ));
}

proof fn lemma_push_policy(ts: Seq<TlvView>, t: TlvView)
    ensures
        policy_of(ts.push(t)) == policy_after(policy_of(ts), t),
{
    assert(ts.push(t).drop_last() =~= ts);
}

/// What the leading sub-TLVs tell.
proof fn lemma_leading_back(v: PolicyView)
    requires
        v.binding_sid matches BindingSid::MplsLabel(label) ==> label < 1048576,
    ensures
        policy_of(leading_tlvs(v)) == (PolicyView {
            policy_name: None,
            segment_lists: Seq::empty(),
            ..v
        }),
        forall|i: int|
            0 <= i < leading_tlvs(v).len() ==> tlv::fits(
                #[trigger] leading_tlvs(v)[i],
                Frame::Split,
            ),
{
    let e = Seq::<TlvView>::empty();
    let a = match v.preference {
        Some(p) => seq![TlvView { kind: 12, body: number_body(p) }],
        None => e,
    };
    let b = binding_tlvs(v.binding_sid);
    let c = match v.priority {
        Some(p) => seq![TlvView { kind: 15, body: seq![p, 0] }],
        None => e,
    };
    if let Some(p) = v.preference {
        lemma_number_back(p);
        lemma_push_policy(e, a[0]);
        assert(a =~= e.push(a[0]));
    }
    assert(policy_of(a) == (PolicyView { preference: v.preference, ..no_policy() }));
    match v.binding_sid {
        BindingSid::Absent => {
            assert(a + b =~= a);
        },
        BindingSid::MplsLabel(label) => {
            lemma_label_back(label);
            lemma_push_policy(a, b[0]);
            assert(a + b =~= a.push(b[0]));
        },
        BindingSid::Srv6Sid(sid) => {
            assert(b[0].body.subrange(2, 18) =~= sid@);
            wire::lemma_arr16_placed(b[0].body, 2, sid);
            lemma_push_policy(a, b[0]);
            assert(a + b =~= a.push(b[0]));
        },
    }
    assert(policy_of(a + b) == (PolicyView {
        preference: v.preference,
        binding_sid: v.binding_sid,
        ..no_policy()
    }));
    if let Some(p) = v.priority {
        lemma_push_policy(a + b, c[0]);
        assert(a + b + c =~= (a + b).push(c[0]));
    } else {
        assert(a + b + c =~= a + b);
    }
}

proof fn lemma_lists_back(v: PolicyView, n: int)
    requires
        encodable(v),
        0 <= n <= v.segment_lists.len(),
    ensures
        policy_of(leading_tlvs(v) + list_tlvs(v.segment_lists).take(n)) == (PolicyView {
            policy_name: None,
            segment_lists: v.segment_lists.take(n),
            ..v
        }),
    decreases n,
{
    let ts = list_tlvs(v.segment_lists);
    let front = leading_tlvs(v);
    if n == 0 {
        lemma_leading_back(v);
        assert(front + ts.take(0) =~= front);
        assert(v.segment_lists.take(0) =~= Seq::empty());
    } else {
        let l = v.segment_lists[n - 1];
        lemma_lists_back(v, n - 1);
        assert forall|j: int| 0 <= j < l.segments.len() implies segment_encodable(
            #[trigger] l.segments[j],
        ) by {
            assert(segment_encodable(v.segment_lists[n - 1].segments[j]));
        }
        lemma_list_back(l);
        lemma_push_policy(front + ts.take(n - 1), ts[n - 1]);
        assert(front + ts.take(n) =~= (front + ts.take(n - 1)).push(ts[n - 1]));
        assert(v.segment_lists.take(n) =~= v.segment_lists.take(n - 1).push(l));
    }
}

proof fn lemma_policy_fits(v: PolicyView)
    requires
        encodable(v),
    ensures
        forall|i: int|
            0 <= i < policy_tlvs(v).len() ==> tlv::fits(#[trigger] policy_tlvs(v)[i], Frame::Split),
{
    lemma_leading_back(v);
    let front = leading_tlvs(v);
    let lists = list_tlvs(v.segment_lists);
    let tail = name_tlvs(v.policy_name);
    let ts = policy_tlvs(v);
    assert forall|i: int| 0 <= i < ts.len() implies tlv::fits(#[trigger] ts[i], Frame::Split) by {
        if i < front.len() {
            assert(ts[i] == front[i]);
        } else if i < front.len() + lists.len() {
            assert(ts[i] == lists[i - front.len()]);
            assert(lists[i - front.len()] == segment_list_tlv(v.segment_lists[i - front.len()]));
        } else {
            assert(ts[i] == tail[i - front.len() - lists.len()]);
        }
    }
}

/// A candidate path that survives its encoding is read back from the value of its tunnel
/// TLV.
pub proof fn lemma_policy_round_trip(v: PolicyView)
    requires
        encodable(v),
    ensures
        policy_read(policy_tunnel(v).body) == Some(v),
{
    let ts = policy_tlvs(v);
    lemma_policy_fits(v);
    assert forall|i: int| 0 <= i < ts.len() implies Tlv::carried(#[trigger] ts[i], Frame::Split) by {
        assert(tlv::fits(ts[i], Frame::Split));
    }
    run::lemma_run_round_trip::<Tlv>(ts, Frame::Split);
    let n = v.segment_lists.len() as int;
    lemma_lists_back(v, n);
    let lists = list_tlvs(v.segment_lists);
    let before = leading_tlvs(v) + lists;
    assert(lists.take(n) =~= lists);
    assert(v.segment_lists.take(n) =~= v.segment_lists);
    match v.policy_name {
        Some(name) => {
            let t = TlvView { kind: 129, body: seq![0u8] + vstd::utf8::encode_utf8(name) };
            lemma_push_policy(before, t);
            assert(ts =~= before.push(t));
            assert(wire::from_at(t.body, 1) =~= vstd::utf8::encode_utf8(name));
            text::lemma_text_round_trip(name);
        },
        None => {
            assert(ts =~= before);
        },
    }
}

/// Which NLRI are read: a length of 96 bits for IPv4 and 192 for IPv6, whose low three bits
/// do not count, and as many octets; distinguisher, colour and endpoint in this order.
pub proof fn lemma_which_nlri_are_read(s: Seq<u8>, afi: u16, i: int)
    ensures
        ({
            let w = if afi == 2 {
                16int
            } else {
                4
            };
            &&& nlri_front(s, afi) is Some <==> s.len() >= 9 + w && s[0] / 8 == 8 + w
            &&& nlri_front(s, afi) matches Some((v, used)) ==> used == 9 + w && v.distinguisher == s[1]
                * 16777216 + s[2] * 65536 + s[3] * 256 + s[4] && v.color == s[5] * 16777216 + s[6]
                * 65536 + s[7] * 256 + s[8] && (v.endpoint is V6 <==> afi == 2) && (0 <= i < w
                ==> v.endpoint.bytes()[i] == s[9 + i])
        }),
{
}

/// What one more sub-TLV tells of a candidate path: 12 its preference, 13 its binding SID, 15
/// its priority, 128 one more segment list and 129 its name. Each leaves all else as it was,
/// and what is too short or of another type tells nothing.
pub proof fn lemma_one_more_fact(ts: Seq<TlvView>, t: TlvView)
    ensures
        ({
            let (v, w, b) = (policy_of(ts), policy_of(ts.push(t)), t.body);
            &&& t.kind == 12 && b.len() >= 6 ==> w.preference == Some(
                (b[2] * 16777216 + b[3] * 65536 + b[4] * 256 + b[5]) as u32,
            )
            &&& t.kind != 12 || b.len() < 6 ==> w.preference == v.preference
            &&& t.kind == 13 && b.len() == 6 ==> (w.binding_sid matches BindingSid::MplsLabel(l) && l
                == b[2] * 4096 + b[3] * 16 + b[4] / 16)
            &&& t.kind == 13 && b.len() == 18 ==> (w.binding_sid matches BindingSid::Srv6Sid(sid)
                && forall|i: int| 0 <= i < 16 ==> #[trigger] sid@[i] == b[2 + i])
            &&& t.kind == 13 && b.len() != 6 && b.len() != 18 ==> w.binding_sid == BindingSid::Absent
            &&& t.kind != 13 ==> w.binding_sid == v.binding_sid
            &&& t.kind == 15 && b.len() > 0 ==> w.priority == Some(b[0])
            &&& t.kind != 15 || b.len() == 0 ==> w.priority == v.priority
            &&& t.kind == 129 && b.len() > 0 ==> w.policy_name == Some(
                text::text_of(b.subrange(1, b.len() as int)),
            )
            &&& t.kind != 129 || b.len() == 0 ==> w.policy_name == v.policy_name
            &&& t.kind == 128 ==> w.segment_lists == (match segment_list_read(b) {
                Some(l) => v.segment_lists.push(l),
                None => v.segment_lists,
            })
            &&& t.kind != 128 ==> w.segment_lists == v.segment_lists
        }),
        ({
            let z = policy_of(Seq::empty());
            z.preference is None && z.binding_sid == BindingSid::Absent && z.priority is None
                && z.policy_name is None && z.segment_lists.len() == 0
        }),
{
    assert(ts.push(t).drop_last() =~= ts);
}

/// What one more sub-TLV tells of a segment list: 9 its weight, 1 a label and 13 a SID, each
/// behind the segments before it.
pub proof fn lemma_one_more_segment(ts: Seq<TlvView>, t: TlvView)
    ensures
        ({
            let (v, w, b) = (segment_list_of(ts), segment_list_of(ts.push(t)), t.body);
            &&& t.kind == 9 && b.len() >= 6 ==> w.weight == Some(
                (b[2] * 16777216 + b[3] * 65536 + b[4] * 256 + b[5]) as u32,
            )
            &&& t.kind != 9 || b.len() < 6 ==> w.weight == v.weight
            &&& t.kind == 1 && b.len() >= 6 ==> w.segments == v.segments.push(
                Segment::MplsLabel((b[2] * 4096 + b[3] * 16 + b[4] / 16) as u32),
            )
            &&& t.kind == 13 && b.len() >= 18 ==> w.segments.len() == v.segments.len() + 1
                && w.segments.drop_last() == v.segments && (w.segments.last() matches Segment::Srv6Sid {
                sid,
                behavior,
                structure,
            } && (forall|i: int| 0 <= i < 16 ==> #[trigger] sid@[i] == b[2 + i]) && (behavior is Some
                <==> b.len() >= 27) && (structure is Some <==> b.len() >= 27) && (behavior matches Some(
                n,
            ) ==> n == b[18] * 256 + b[19]) && (structure matches Some(st) ==> st.locator_block_len
                == b[21] && st.locator_node_len == b[22] && st.function_len == b[23] && st.argument_len
                == b[24] && st.transposition_len == b[25] && st.transposition_offset == b[26]))
            &&& !(t.kind == 1 && b.len() >= 6) && !(t.kind == 13 && b.len() >= 18) ==> w.segments
                == v.segments
        }),
        segment_list_of(Seq::empty()).weight is None,
        segment_list_of(Seq::empty()).segments.len() == 0,
{
    assert(ts.push(t).drop_last() =~= ts);
    if t.kind == 13 && t.body.len() >= 18 {
        assert(segment_list_of(ts.push(t)).segments.drop_last() =~= segment_list_of(ts).segments);
    }
}

/// Where no preference is told it is 100. Of several policies in an attribute the first
/// counts, and tunnels of other types are passed over.
pub proof fn lemma_first_policy_counts(v: PolicyView, t: TunnelView, rest: Seq<TunnelView>)
    ensures
        v.preference is None ==> preference_of(v) == 100,
        v.preference matches Some(p) ==> preference_of(v) == p,
        t matches TunnelView::SrPolicy(p) ==> first_policy(seq![t] + rest) == Some(p),
        t is Other ==> first_policy(seq![t] + rest) == first_policy(rest),
        first_policy(Seq::empty()) is None,
{
    assert((seq![t] + rest).drop_first() =~= rest);
}

/// Candidate paths stand in the order of their colours, those of one colour in that of their
/// endpoints, and those of one endpoint in that of their distinguishers.
pub proof fn lemma_candidates_stand_in_order(a: SrPolicyNlri, b: SrPolicyNlri, k: int)
    ensures
        ({
            let (x, y) = (SrPolicyNlri::rank(a), SrPolicyNlri::rank(b));
            let (p, q) = (a.endpoint, b.endpoint);
            &&& a.color < b.color ==> crate::order::before(x, y)
            &&& a.color == b.color && p is V4 && q is V6 ==> crate::order::before(x, y)
            &&& a.color == b.color && (p is V4) == (q is V4) && 0 <= k < p.bytes().len() && p.bytes()[k]
                < q.bytes()[k] && (forall|i: int| 0 <= i < k ==> p.bytes()[i] == q.bytes()[i])
                ==> crate::order::before(x, y)
            &&& a.color == b.color && p == q && a.distinguisher < b.distinguisher
                ==> crate::order::before(x, y)
        }),
{
    let (x, y) = (SrPolicyNlri::rank(a), SrPolicyNlri::rank(b));
    let (p, q) = (a.endpoint, b.endpoint);
    if a.color < b.color {
        crate::order::lemma_first_difference_decides(x, y, 0);
    } else if a.color == b.color {
        if p is V4 && q is V6 {
            crate::order::lemma_first_difference_decides(x, y, 1);
        } else if p == q && a.distinguisher < b.distinguisher {
            crate::order::lemma_first_difference_decides(x, y, p.bytes().len() + 2int);
        } else if (p is V4) == (q is V4) && 0 <= k < p.bytes().len() && p.bytes()[k] < q.bytes()[k] && (
        forall|i: int| 0 <= i < k ==> p.bytes()[i] == q.bytes()[i]) {
            assert forall|i: int| 0 <= i < k + 2 implies x[i] == y[i] by {
                if i > 1 {
                    assert(p.bytes()[i - 2] == q.bytes()[i - 2]);
                }
            }
            crate::order::lemma_first_difference_decides(x, y, k + 2);
        }
    }
}

} // verus!
