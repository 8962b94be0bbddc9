//! Link state over BGP (RFC 9552): the nodes, links and prefixes of a topology, carried as
//! NLRI under AFI 16388 and SAFI 71, and their attributes, carried in a path attribute.
//!
//! Descriptors and attributes are kept as type and value, so that nothing is lost in
//! passing; what is read from them has accessors.

use vstd::prelude::*;
use vstd::string::*;

use crate::bgp::tlv;
use crate::bgp::tlv::{Frame, Tlv, TlvView};
use crate::net;
use crate::net::{IpAddr, Ipv4Addr, Ipv6Addr, Prefix};
use crate::order::{dup_all, same_all, Datum, Ranked};
use crate::run;
use crate::run::{Plain, Record};
use crate::text;
use crate::wire;

verus! {

/// Address family: link state.
pub const AFI_LINK_STATE: u16 = 16388;

/// Subsequent address family: link state.
pub const SAFI_LINK_STATE: u8 = 71;

/// The type code of the link-state attribute.
pub const BGP_LS_ATTR: u8 = 29;

/// Local Node Descriptors.
pub const TLV_LOCAL_NODE_DESCRIPTORS: u16 = 256;

/// Remote Node Descriptors.
pub const TLV_REMOTE_NODE_DESCRIPTORS: u16 = 257;

/// IP Reachability Information: the prefix of a prefix NLRI.
pub const TLV_IP_REACHABILITY: u16 = 265;

/// Autonomous System, within node descriptors.
pub const SUBTLV_AUTONOMOUS_SYSTEM: u16 = 512;

/// IGP Router-ID, within node descriptors.
pub const SUBTLV_IGP_ROUTER_ID: u16 = 515;

/// Attribute: Node Name.
pub const ATTR_NODE_NAME: u16 = 1026;

/// Attribute: Administrative Group.
pub const ATTR_ADMIN_GROUP: u16 = 1088;

/// Attribute: IGP Metric.
pub const ATTR_IGP_METRIC: u16 = 1095;

/// Attribute: Shared Risk Link Group.
pub const ATTR_SRLG: u16 = 1096;

/// Attribute: SR Capabilities.
pub const ATTR_SR_CAPABILITIES: u16 = 1034;

/// Attribute: Adjacency SID.
pub const ATTR_ADJ_SID: u16 = 1099;

/// Attribute: Prefix SID.
pub const ATTR_PREFIX_SID: u16 = 1158;

/// A type and its uninterpreted value.
#[derive(Clone, PartialEq, Eq, PartialOrd, Ord, Hash, Debug)]
pub struct LsTlv {
    pub typ: u16,
    pub value: Vec<u8>,
}

impl View for LsTlv {
    type V = TlvView;

    open spec fn view(&self) -> TlvView {
        TlvView { kind: self.typ, body: self.value@ }
    }
}

impl LsTlv {
    /// Append type, length and value.
    pub fn encode(&self, out: &mut Vec<u8>)
        ensures
            final(out)@ == old(out)@ + Tlv::octets(self@, Frame::Long),
    {
        tlv::push_tlv(out, self.typ, self.value.as_slice(), Frame::Long);
    }

}

impl Datum for LsTlv {
    fn dup(&self) -> (r: LsTlv) {
        LsTlv { typ: self.typ, value: wire::copy_of(self.value.as_slice()) }
    }

    fn same(&self, other: &LsTlv) -> (r: bool) {
        self.typ == other.typ && wire::same_bytes(self.value.as_slice(), other.value.as_slice())
    }
}

impl Record for LsTlv {
    type Ctx = Plain;

    open spec fn carried(v: TlvView, c: Plain) -> bool {
        tlv::fits(v, Frame::Long)
    }

    open spec fn octets(v: TlvView, c: Plain) -> Seq<u8> {
        Tlv::octets(v, Frame::Long)
    }

    open spec fn front(s: Seq<u8>, c: Plain) -> Option<(TlvView, int)> {
        tlv::tlv_front(s, Frame::Long)
    }

    proof fn lemma_front(v: TlvView, c: Plain, rest: Seq<u8>) {
        tlv::lemma_tlv_round_trip(v, Frame::Long, rest);
    }

    fn write(&self, out: &mut Vec<u8>, c: Plain) {
        self.encode(out);
    }

    fn read(s: &[u8], c: Plain) -> (r: Option<(LsTlv, usize)>) {
        match Tlv::read(s, Frame::Long) {
            Some((t, used)) => Some((LsTlv { typ: t.kind, value: t.body }, used)),
            None => None,
        }
    }
}

/// Decode a run of TLVs that fills `buf`; `None` where one of them is cut short.
pub fn decode_tlvs(buf: &[u8]) -> (r: Option<Vec<LsTlv>>)
    ensures
        match r {
            Some(vs) => run::run_values::<LsTlv>(buf@, Plain) == Some(wire::views(vs@)),
            None => run::run_values::<LsTlv>(buf@, Plain) is None,
        },
{
    run::read_run::<LsTlv>(buf, Plain)
}

/// Append a run of TLVs.
pub fn encode_tlvs(out: &mut Vec<u8>, tlvs: &[LsTlv])
    ensures
        final(out)@ == old(out)@ + run::run_octets::<LsTlv>(wire::views(tlvs@), Plain),
{
    run::write_run::<LsTlv>(out, tlvs, Plain);
}

/// The value of the first TLV of a type.
pub open spec fn first_of(ts: Seq<TlvView>, kind: u16) -> Option<Seq<u8>>
    decreases ts.len(),
{
    if ts.len() == 0 {
        None
    } else if ts[0].kind == kind {
        Some(ts[0].body)
    } else {
        first_of(ts.drop_first(), kind)
    }
}

fn find_tlv(ts: &Vec<LsTlv>, kind: u16) -> (r: Option<&LsTlv>)
    ensures
        match r {
            Some(t) => first_of(wire::views(ts@), kind) == Some(t@.body),
            None => first_of(wire::views(ts@), kind) is None,
        },
{
    let ghost all = wire::views(ts@);
    let mut i: usize = 0;
    assert(all.skip(0) =~= all);
    while i < ts.len()
        invariant
            i <= ts.len(),
            all == wire::views(ts@),
            first_of(all, kind) == first_of(all.skip(i as int), kind),
        decreases ts.len() - i,
    {
        assert(all.skip(i as int)[0] == ts@[i as int]@);
        assert(all.skip(i as int).drop_first() =~= all.skip(i + 1));
        if ts[i].typ == kind {
            return Some(&ts[i]);
        }
        i = i + 1;
    }
    None
}

/// What an NLRI describes.
#[derive(Clone, Copy, PartialEq, Eq, PartialOrd, Ord, Hash, Structural, Debug)]
pub enum LsObjectKind {
    Node,
    Link,
    Ipv4Prefix,
    Ipv6Prefix,
}

impl LsObjectKind {
    /// The NLRI type.
    pub open spec fn code(self) -> u16 {
        match self {
            LsObjectKind::Node => 1,
            LsObjectKind::Link => 2,
            LsObjectKind::Ipv4Prefix => 3,
            LsObjectKind::Ipv6Prefix => 4,
        }
    }

    /// What an NLRI type describes.
    pub open spec fn of_code(v: u16) -> Option<LsObjectKind> {
        if v == 1 {
            Some(LsObjectKind::Node)
        } else if v == 2 {
            Some(LsObjectKind::Link)
        } else if v == 3 {
            Some(LsObjectKind::Ipv4Prefix)
        } else if v == 4 {
            Some(LsObjectKind::Ipv6Prefix)
        } else {
            None
        }
    }

    fn code_of(&self) -> (r: u16)
        ensures
            r == self.code(),
    {
        match self {
            LsObjectKind::Node => 1,
            LsObjectKind::Link => 2,
            LsObjectKind::Ipv4Prefix => 3,
            LsObjectKind::Ipv6Prefix => 4,
        }
    }

    fn from_code(v: u16) -> (r: Option<LsObjectKind>)
        ensures
            r == LsObjectKind::of_code(v),
    {
        match v {
            1 => Some(LsObjectKind::Node),
            2 => Some(LsObjectKind::Link),
            3 => Some(LsObjectKind::Ipv4Prefix),
            4 => Some(LsObjectKind::Ipv6Prefix),
            _ => None,
        }
    }

    /// The text.
    pub fn to_string(&self) -> (r: String)
        ensures
            r@ == (match *self {
                LsObjectKind::Node => "node"@,
                LsObjectKind::Link => "link"@,
                LsObjectKind::Ipv4Prefix => "ipv4-prefix"@,
                LsObjectKind::Ipv6Prefix => "ipv6-prefix"@,
            }),
    {
        let mut out = String::new();
        let ghost e = out@;
        let s = match self {
            LsObjectKind::Node => "node",
            LsObjectKind::Link => "link",
            LsObjectKind::Ipv4Prefix => "ipv4-prefix",
            LsObjectKind::Ipv6Prefix => "ipv6-prefix",
        };
        out.append(s);
        assert(out@ =~= s@);
        out
    }
}

/// One node, link or prefix.
#[derive(Clone, PartialEq, Eq, PartialOrd, Ord, Hash, Debug)]
pub struct LinkStateNlri {
    pub kind: LsObjectKind,
    /// Where it was learned: 1 and 2 for IS-IS, 3 for OSPFv2, 6 for OSPFv3.
    pub protocol: u8,
    /// The routing universe.
    pub identifier: u64,
    pub descriptors: Vec<LsTlv>,
}

/// A node, link or prefix as a mathematical value.
#[verifier::ext_equal]
pub struct LsView {
    pub kind: LsObjectKind,
    pub protocol: u8,
    pub identifier: u64,
    pub descriptors: Seq<TlvView>,
}

impl View for LinkStateNlri {
    type V = LsView;

    open spec fn view(&self) -> LsView {
        LsView {
            kind: self.kind,
            protocol: self.protocol,
            identifier: self.identifier,
            descriptors: wire::views(self.descriptors@),
        }
    }
}

/// An NLRI as type and value: protocol, identifier, descriptors.
pub open spec fn nlri_tlv(v: LsView) -> TlvView {
    TlvView {
        kind: v.kind.code(),
        body: seq![v.protocol] + wire::be64(v.identifier) + run::run_octets::<LsTlv>(
            v.descriptors,
            Plain,
        ),
    }
}

/// The NLRI of a type and value.
pub open spec fn nlri_of(t: TlvView) -> Option<LsView> {
    if t.body.len() < 9 {
        None
    } else {
        match (
            LsObjectKind::of_code(t.kind),
            run::run_values::<LsTlv>(wire::from_at(t.body, 9), Plain),
        ) {
            (Some(kind), Some(descriptors)) => Some(
                LsView {
                    kind,
                    protocol: t.body[0],
                    identifier: wire::u64_at(t.body, 1),
                    descriptors,
                },
            ),
            _ => None,
        }
    }
}

/// The NLRI at the front of `s`, and its length in octets.
pub open spec fn nlri_front(s: Seq<u8>) -> Option<(LsView, int)> {
    match tlv::tlv_front(s, Frame::Long) {
        Some((t, used)) => match nlri_of(t) {
            Some(v) => Some((v, used)),
            None => None,
        },
        None => None,
    }
}

/// The sub-TLVs of the first descriptor of a type.
pub open spec fn descriptor_of(v: LsView, which: u16) -> Option<Seq<TlvView>> {
    match first_of(v.descriptors, which) {
        Some(b) => run::run_values::<LsTlv>(b, Plain),
        None => None,
    }
}

/// The router identifier in the first descriptor of a type.
pub open spec fn router_id_of(v: LsView, which: u16) -> Option<Seq<u8>> {
    match descriptor_of(v, which) {
        Some(ts) => first_of(ts, 515),
        None => None,
    }
}

/// The first AS number of four octets.
pub open spec fn first_as(ts: Seq<TlvView>) -> Option<u32>
    decreases ts.len(),
{
    if ts.len() == 0 {
        None
    } else if ts[0].kind == 512 && ts[0].body.len() == 4 {
        Some(wire::u32_at(ts[0].body, 0))
    } else {
        first_as(ts.drop_first())
    }
}

/// The AS number of the local node.
pub open spec fn local_as_of(v: LsView) -> Option<u32> {
    match descriptor_of(v, 256) {
        Some(ts) => first_as(ts),
        None => None,
    }
}

/// Octet `i` behind the length octet, or zero where there is none.
pub open spec fn filled(b: Seq<u8>, i: int) -> u8 {
    if 1 + i < b.len() {
        b[1 + i]
    } else {
        0
    }
}

/// The address behind a length octet, filled up with zeros.
pub open spec fn filled_addr(b: Seq<u8>, v6: bool) -> IpAddr {
    if v6 {
        IpAddr::V6(
            Ipv6Addr {
                octets: [
                    filled(b, 0),
                    filled(b, 1),
                    filled(b, 2),
                    filled(b, 3),
                    filled(b, 4),
                    filled(b, 5),
                    filled(b, 6),
                    filled(b, 7),
                    filled(b, 8),
                    filled(b, 9),
                    filled(b, 10),
                    filled(b, 11),
                    filled(b, 12),
                    filled(b, 13),
                    filled(b, 14),
                    filled(b, 15),
                ],
            },
        )
    } else {
        IpAddr::V4(
            Ipv4Addr { octets: [filled(b, 0), filled(b, 1), filled(b, 2), filled(b, 3)] },
        )
    }
}

/// The prefix of a prefix NLRI.
pub open spec fn reachable(v: LsView) -> Option<Prefix> {
    match first_of(v.descriptors, 265) {
        Some(b) => if b.len() == 0 {
            None
        } else {
            net::prefix_of(filled_addr(b, v.kind is Ipv6Prefix), b[0])
        },
        None => None,
    }
}

fn filled_of(b: &[u8], i: usize) -> (r: u8)
    requires
        i < 16,
    ensures
        r == filled(b@, i as int),
{
    if 1 + i < b.len() {
        b[1 + i]
    } else {
        0
    }
}

impl LinkStateNlri {
    /// Append the NLRI.
    pub fn encode(&self, out: &mut Vec<u8>)
        ensures
            final(out)@ == old(out)@ + Tlv::octets(nlri_tlv(self@), Frame::Long),
    {
        let mut body: Vec<u8> = Vec::new();
        body.push(self.protocol);
        wire::push_u64(&mut body, self.identifier);
        encode_tlvs(&mut body, self.descriptors.as_slice());
        assert(body@ =~= nlri_tlv(self@).body);
        tlv::push_tlv(out, self.kind.code_of(), body.as_slice(), Frame::Long);
    }

    /// Decode one NLRI from the front of `buf`, with the number of octets it takes.
    pub fn decode(buf: &[u8]) -> (r: Option<(LinkStateNlri, usize)>)
        ensures
            match r {
                Some((v, used)) => nlri_front(buf@) == Some((v@, used as int)) && 0 < used
                    <= buf@.len(),
                None => nlri_front(buf@) is None,
            },
    {
        if buf.len() == 0 {
            return None;
        }
        let (t, used) = match Tlv::read(buf, Frame::Long) {
            Some(x) => x,
            None => {
                return None;
            },
        };
        if t.body.len() < 9 {
            return None;
        }
        let body = t.body.as_slice();
        match (LsObjectKind::from_code(t.kind), decode_tlvs(&body[9..body.len()])) {
            (Some(kind), Some(descriptors)) => Some(
                (
                    LinkStateNlri {
                        kind,
                        protocol: body[0],
                        identifier: wire::read_u64(body, 1),
                        descriptors,
                    },
                    used,
                ),
            ),
            _ => None,
        }
    }

    /// The sub-TLVs of the first descriptor of a type.
    pub fn node_descriptor(&self, which: u16) -> (r: Option<Vec<LsTlv>>)
        ensures
            match r {
                Some(ts) => descriptor_of(self@, which) == Some(wire::views(ts@)),
                None => descriptor_of(self@, which) is None,
            },
    {
        match find_tlv(&self.descriptors, which) {
            Some(t) => decode_tlvs(t.value.as_slice()),
            None => None,
        }
    }

    /// The IGP router identifier of the local or the remote node.
    pub fn igp_router_id(&self, which: u16) -> (r: Option<Vec<u8>>)
        ensures
            match r {
                Some(id) => router_id_of(self@, which) == Some(id@),
                None => router_id_of(self@, which) is None,
            },
    {
        match self.node_descriptor(which) {
            Some(ts) => match find_tlv(&ts, SUBTLV_IGP_ROUTER_ID) {
                Some(t) => Some(wire::copy_of(t.value.as_slice())),
                None => None,
            },
            None => None,
        }
    }

    /// The AS number of the local node.
    pub fn local_as(&self) -> (r: Option<u32>)
        ensures
            r == local_as_of(self@),
    {
        let ts = match self.node_descriptor(TLV_LOCAL_NODE_DESCRIPTORS) {
            Some(ts) => ts,
            None => {
                return None;
            },
        };
        let ghost all = wire::views(ts@);
        let mut i: usize = 0;
        assert(all.skip(0) =~= all);
        while i < ts.len()
            invariant
                i <= ts.len(),
                all == wire::views(ts@),
                local_as_of(self@) == first_as(all.skip(i as int)),
            decreases ts.len() - i,
        {
            assert(all.skip(i as int)[0] == ts@[i as int]@);
            assert(all.skip(i as int).drop_first() =~= all.skip(i + 1));
            if ts[i].typ == SUBTLV_AUTONOMOUS_SYSTEM && ts[i].value.len() == 4 {
                return Some(wire::read_u32(ts[i].value.as_slice(), 0));
            }
            i = i + 1;
        }
        None
    }

    /// The prefix of a prefix NLRI.
    pub fn prefix(&self) -> (r: Option<Prefix>)
        ensures
            r == reachable(self@),
    {
        let t = match find_tlv(&self.descriptors, TLV_IP_REACHABILITY) {
            Some(t) => t,
            None => {
                return None;
            },
        };
        if t.value.len() == 0 {
            return None;
        }
        let b = t.value.as_slice();
        let v6 = match self.kind {
            LsObjectKind::Ipv6Prefix => true,
            _ => false,
        };
        let addr = if v6 {
            IpAddr::V6(
                Ipv6Addr {
                    octets: [
                        filled_of(b, 0),
                        filled_of(b, 1),
                        filled_of(b, 2),
                        filled_of(b, 3),
                        filled_of(b, 4),
                        filled_of(b, 5),
                        filled_of(b, 6),
                        filled_of(b, 7),
                        filled_of(b, 8),
                        filled_of(b, 9),
                        filled_of(b, 10),
                        filled_of(b, 11),
                        filled_of(b, 12),
                        filled_of(b, 13),
                        filled_of(b, 14),
                        filled_of(b, 15),
                    ],
                },
            )
        } else {
            IpAddr::V4(
                Ipv4Addr {
                    octets: [filled_of(b, 0), filled_of(b, 1), filled_of(b, 2), filled_of(b, 3)],
                },
            )
        };
        Prefix::checked(addr, b[0])
    }
}

impl Record for LinkStateNlri {
    type Ctx = Plain;

    /// Every length fits its field.
    open spec fn carried(v: LsView, c: Plain) -> bool {
        &&& forall|i: int|
            0 <= i < v.descriptors.len() ==> (#[trigger] v.descriptors[i]).body.len() <= 65535
        &&& nlri_tlv(v).body.len() <= 65535
    }

    open spec fn octets(v: LsView, c: Plain) -> Seq<u8> {
        Tlv::octets(nlri_tlv(v), Frame::Long)
    }

    open spec fn front(s: Seq<u8>, c: Plain) -> Option<(LsView, int)> {
        nlri_front(s)
    }

    proof fn lemma_front(v: LsView, c: Plain, rest: Seq<u8>) {
        lemma_ls_round_trip(v, rest);
    }

    fn write(&self, out: &mut Vec<u8>, c: Plain) {
        self.encode(out);
    }

    fn read(s: &[u8], c: Plain) -> (r: Option<(LinkStateNlri, usize)>) {
        LinkStateNlri::decode(s)
    }
}

/// An NLRI whose lengths fit is read back, from in front of anything.
#[verifier::rlimit(30)]
pub proof fn lemma_ls_round_trip(v: LsView, rest: Seq<u8>)
    requires
        LinkStateNlri::carried(v, Plain),
    ensures
        Tlv::octets(nlri_tlv(v), Frame::Long).len() > 0,
        nlri_front(Tlv::octets(nlri_tlv(v), Frame::Long) + rest) == Some(
            (v, Tlv::octets(nlri_tlv(v), Frame::Long).len() as int),
        ),
{
    let t = nlri_tlv(v);
    let ds = run::run_octets::<LsTlv>(v.descriptors, Plain);
    tlv::lemma_tlv_round_trip(t, Frame::Long, rest);
    run::lemma_run_round_trip::<LsTlv>(v.descriptors, Plain);
    assert(wire::from_at(t.body, 9) =~= ds);
    wire::lemma_u64_back(seq![v.protocol], v.identifier, ds);
}

/// Decode a run of NLRI that fills `buf`.
pub fn decode_nlris(buf: &[u8]) -> (r: Option<Vec<LinkStateNlri>>)
    ensures
        match r {
            Some(vs) => run::run_values::<LinkStateNlri>(buf@, Plain) == Some(wire::views(vs@)),
            None => run::run_values::<LinkStateNlri>(buf@, Plain) is None,
        },
{
    run::read_run::<LinkStateNlri>(buf, Plain)
}

/// The octets of a value, each raised by one, and a zero behind them: a value that begins
/// another stands before it.
pub open spec fn closed(b: Seq<u8>) -> Seq<u64> {
    b.map_values(|o: u8| (o + 1) as u64).push(0)
}

/// A list of TLVs as a rank: each with a one in front, and a zero at the end.
pub open spec fn tlvs_rank(ts: Seq<TlvView>) -> Seq<u64>
    decreases ts.len(),
{
    if ts.len() == 0 {
        seq![0u64]
    } else {
        seq![1u64, ts[0].kind as u64] + closed(ts[0].body) + tlvs_rank(ts.drop_first())
    }
}

fn push_closed(out: &mut Vec<u64>, b: &Vec<u8>)
    ensures
        final(out)@ == old(out)@ + closed(b@),
{
    let ghost up = b@.map_values(|o: u8| (o + 1) as u64);
    let mut i: usize = 0;
    assert(out@ =~= old(out)@ + up.take(0));
    while i < b.len()
        invariant
            i <= b.len(),
            up == b@.map_values(|o: u8| (o + 1) as u64),
            out@ == old(out)@ + up.take(i as int),
        decreases b.len() - i,
    {
        out.push(b[i] as u64 + 1);
        assert(up.take(i + 1) =~= up.take(i as int).push(up[i as int]));
        i = i + 1;
    }
    out.push(0);
    assert(up.take(i as int) =~= up);
    assert(out@ =~= old(out)@ + closed(b@));
}

impl Datum for LinkStateNlri {
    fn dup(&self) -> (r: LinkStateNlri) {
        LinkStateNlri {
            kind: self.kind,
            protocol: self.protocol,
            identifier: self.identifier,
            descriptors: dup_all(self.descriptors.as_slice()),
        }
    }

    fn same(&self, other: &LinkStateNlri) -> (r: bool) {
        self.kind == other.kind && self.protocol == other.protocol && self.identifier
            == other.identifier && same_all(
            self.descriptors.as_slice(),
            other.descriptors.as_slice(),
        )
    }
}

impl Ranked for LinkStateNlri {
    /// By kind, protocol, identifier and descriptors.
    open spec fn rank(key: LsView) -> Seq<u64> {
        seq![key.kind.code() as u64, key.protocol as u64, key.identifier] + tlvs_rank(
            key.descriptors,
        )
    }

    fn rank_of(&self) -> (r: Vec<u64>) {
        let mut out: Vec<u64> = Vec::new();
        out.push(self.kind.code_of() as u64);
        out.push(self.protocol as u64);
        out.push(self.identifier);
        let ghost all = wire::views(self.descriptors@);
        let ghost whole = LinkStateNlri::rank(self@);
        let mut i: usize = 0;
        assert(all.skip(0) =~= all);
        assert(out@ + tlvs_rank(all) =~= whole);
        while i < self.descriptors.len()
            invariant
                i <= self.descriptors.len(),
                all == wire::views(self.descriptors@),
                out@ + tlvs_rank(all.skip(i as int)) == whole,
            decreases self.descriptors.len() - i,
        {
            let t = &self.descriptors[i];
            let ghost before = out@;
            assert(all.skip(i as int)[0] == t@);
            assert(all.skip(i as int).drop_first() =~= all.skip(i + 1));
            out.push(1);
            out.push(t.typ as u64);
            push_closed(&mut out, &t.value);
            assert(out@ + tlvs_rank(all.skip(i + 1)) =~= before + tlvs_rank(all.skip(i as int)));
            i = i + 1;
        }
        out.push(0);
        assert(out@ =~= whole);
        out
    }
}

proof fn lemma_closed_split(a: Seq<u8>, x: Seq<u64>, b: Seq<u8>, y: Seq<u64>)
    requires
        closed(a) + x == closed(b) + y,
    ensures
        a == b,
        x == y,
    decreases a.len(),
{
    let (s, t) = (closed(a) + x, closed(b) + y);
    assert(s[0] == closed(a)[0] && t[0] == closed(b)[0]);
    if a.len() == 0 || b.len() == 0 {
        assert(a.len() == 0 && b.len() == 0);
        assert(a =~= b);
        assert(s.skip(1) =~= x);
        assert(t.skip(1) =~= y);
    } else {
        assert(a[0] == b[0]);
        let (c, d) = (a.drop_first(), b.drop_first());
        assert(s.skip(1) =~= closed(c) + x);
        assert(t.skip(1) =~= closed(d) + y);
        lemma_closed_split(c, x, d, y);
        assert(a =~= seq![a[0]] + c);
        assert(b =~= seq![b[0]] + d);
    }
}

proof fn lemma_tlvs_rank(a: Seq<TlvView>, b: Seq<TlvView>)
    requires
        tlvs_rank(a) == tlvs_rank(b),
    ensures
        a == b,
    decreases a.len(),
{
    let (s, t) = (tlvs_rank(a), tlvs_rank(b));
    assert(s[0] == t[0]);
    if a.len() == 0 || b.len() == 0 {
        assert(a =~= b);
    } else {
        let (c, d) = (a.drop_first(), b.drop_first());
        assert(s[1] == t[1]);
        assert(s.skip(2) =~= closed(a[0].body) + tlvs_rank(c));
        assert(t.skip(2) =~= closed(b[0].body) + tlvs_rank(d));
        lemma_closed_split(a[0].body, tlvs_rank(c), b[0].body, tlvs_rank(d));
        lemma_tlvs_rank(c, d);
        assert(a =~= seq![a[0]] + c);
        assert(b =~= seq![b[0]] + d);
    }
}

/// Objects of one rank are one object.
pub proof fn lemma_ls_rank(a: LsView, b: LsView)
    requires
        LinkStateNlri::rank(a) == LinkStateNlri::rank(b),
    ensures
        a == b,
{
    let (s, t) = (LinkStateNlri::rank(a), LinkStateNlri::rank(b));
    assert(s[0] == t[0] && s[1] == t[1] && s[2] == t[2]);
    assert(s.skip(3) =~= tlvs_rank(a.descriptors));
    assert(t.skip(3) =~= tlvs_rank(b.descriptors));
    lemma_tlvs_rank(a.descriptors, b.descriptors);
}

/// The attributes of one node, link or prefix.
#[derive(Clone, PartialEq, Eq, Debug, Default)]
pub struct BgpLsAttribute {
    pub tlvs: Vec<LsTlv>,
}

impl View for BgpLsAttribute {
    type V = Seq<TlvView>;

    open spec fn view(&self) -> Seq<TlvView> {
        wire::views(self.tlvs@)
    }
}

impl Datum for BgpLsAttribute {
    fn dup(&self) -> (r: BgpLsAttribute) {
        BgpLsAttribute { tlvs: dup_all(self.tlvs.as_slice()) }
    }

    fn same(&self, other: &BgpLsAttribute) -> (r: bool) {
        same_all(self.tlvs.as_slice(), other.tlvs.as_slice())
    }
}

/// The number that octets spell, most significant first.
pub open spec fn spelled(b: Seq<u8>) -> int
    decreases b.len(),
{
    if b.len() == 0 {
        0
    } else {
        spelled(b.drop_last()) * 256 + b.last()
    }
}

/// The metric: the number that the first three octets spell, or those that there are.
pub open spec fn metric_of(b: Seq<u8>) -> int {
    if b.len() < 3 {
        spelled(b)
    } else {
        spelled(b.take(3))
    }
}

/// Whether a TLV tells of segment routing.
pub open spec fn tells_sr(t: TlvView) -> bool {
    t.kind == 1034 || t.kind == 1099 || t.kind == 1158
}

impl BgpLsAttribute {
    /// The attributes of TLVs.
    pub fn new(tlvs: Vec<LsTlv>) -> (r: BgpLsAttribute)
        ensures
            r@ == wire::views(tlvs@),
    {
        BgpLsAttribute { tlvs }
    }

    /// The value of the first TLV of a type.
    pub fn tlv(&self, typ: u16) -> (r: Option<&[u8]>)
        ensures
            match r {
                Some(b) => first_of(self@, typ) == Some(b@),
                None => first_of(self@, typ) is None,
            },
    {
        match find_tlv(&self.tlvs, typ) {
            Some(t) => Some(t.value.as_slice()),
            None => None,
        }
    }

    /// The node name.
    pub fn node_name(&self) -> (r: Option<String>)
        ensures
            match r {
                Some(s) => first_of(self@, 1026) matches Some(b) && s@ == text::text_of(b),
                None => first_of(self@, 1026) is None,
            },
    {
        match self.tlv(ATTR_NODE_NAME) {
            Some(b) => Some(text::lossy(b)),
            None => None,
        }
    }

    /// The IGP metric.
    pub fn igp_metric(&self) -> (r: Option<u32>)
        ensures
            match r {
                Some(m) => first_of(self@, 1095) matches Some(b) && m == metric_of(b),
                None => first_of(self@, 1095) is None,
            },
    {
        let b = match self.tlv(ATTR_IGP_METRIC) {
            Some(b) => b,
            None => {
                return None;
            },
        };
        let mut m: u32 = 0;
        let mut i: usize = 0;
        assert(b@.take(0) =~= Seq::empty());
        while i < b.len() && i < 3
            invariant
                i <= 3,
                i <= b.len(),
                m == spelled(b@.take(i as int)),
                i == 0 ==> m == 0,
                i == 1 ==> m < 256,
                i == 2 ==> m < 65536,
            decreases 3 - i,
        {
            assert(b@.take(i + 1).drop_last() =~= b@.take(i as int));
            m = m * 256 + b[i] as u32;
            i = i + 1;
        }
        if b.len() < 3 {
            assert(b@.take(i as int) =~= b@);
        }
        Some(m)
    }

    /// The administrative group.
    pub fn admin_group(&self) -> (r: Option<u32>)
        ensures
            r == (match first_of(self@, 1088) {
                Some(b) => if b.len() < 4 {
                    None
                } else {
                    Some(wire::u32_at(b, 0))
                },
                None => None,
            }),
    {
        match self.tlv(ATTR_ADMIN_GROUP) {
            Some(b) => if b.len() < 4 {
                None
            } else {
                Some(wire::read_u32(b, 0))
            },
            None => None,
        }
    }

    /// The shared risk link groups.
    pub fn srlgs(&self) -> (r: Vec<u32>)
        ensures
            match first_of(self@, 1096) {
                Some(b) => r@ == Seq::new((b.len() / 4) as nat, |i: int| wire::u32_at(b, 4 * i)),
                None => r@.len() == 0,
            },
    {
        let mut out: Vec<u32> = Vec::new();
        if let Some(b) = self.tlv(ATTR_SRLG) {
            let n = b.len() / 4;
            let mut i: usize = 0;
            while i < n
                invariant
                    n == b@.len() / 4,
                    i <= n,
                    out@.len() == i,
                    forall|j: int| 0 <= j < i ==> out@[j] == wire::u32_at(b@, 4 * j),
                decreases n - i,
            {
                assert(4 * i + 4 <= b.len());
                out.push(wire::read_u32(b, 4 * i));
                i = i + 1;
            }
            assert(out@ =~= Seq::new((b@.len() / 4) as nat, |i: int| wire::u32_at(b@, 4 * i)));
        }
        out
    }

    /// Whether anything tells of segment routing.
    pub fn has_sr(&self) -> (r: bool)
        ensures
            r == (exists|i: int| 0 <= i < self@.len() && tells_sr(#[trigger] self@[i])),
    {
        let mut i: usize = 0;
        while i < self.tlvs.len()
            invariant
                i <= self.tlvs.len(),
                forall|j: int| 0 <= j < i ==> !tells_sr(#[trigger] self@[j]),
            decreases self.tlvs.len() - i,
        {
            let t = self.tlvs[i].typ;
            assert(self@[i as int] == self.tlvs@[i as int]@);
            if t == ATTR_SR_CAPABILITIES || t == ATTR_ADJ_SID || t == ATTR_PREFIX_SID {
                return true;
            }
            i = i + 1;
        }
        false
    }

    /// Append the value of the attribute.
    pub fn encode(&self, out: &mut Vec<u8>)
        ensures
            final(out)@ == old(out)@ + run::run_octets::<LsTlv>(self@, Plain),
    {
        encode_tlvs(out, self.tlvs.as_slice());
    }

    /// Decode the value of the attribute; `None` where a TLV is cut short.
    pub fn decode(value: &[u8]) -> (r: Option<BgpLsAttribute>)
        ensures
            match r {
                Some(a) => run::run_values::<LsTlv>(value@, Plain) == Some(a@),
                None => run::run_values::<LsTlv>(value@, Plain) is None,
            },
    {
        match decode_tlvs(value) {
            Some(tlvs) => Some(BgpLsAttribute { tlvs }),
            None => None,
        }
    }
}

/// Attributes whose lengths fit are read back.
pub proof fn lemma_attributes_round_trip(ts: Seq<TlvView>)
    requires
        forall|i: int| 0 <= i < ts.len() ==> (#[trigger] ts[i]).body.len() <= 65535,
    ensures
        run::run_values::<LsTlv>(run::run_octets::<LsTlv>(ts, Plain), Plain) == Some(ts),
{
    run::lemma_run_round_trip::<LsTlv>(ts, Plain);
}

/// Octets in hexadecimal, with a point before each even one but the first.
pub open spec fn pointed(id: Seq<u8>) -> Seq<char>
    decreases id.len(),
{
    if id.len() == 0 {
        Seq::empty()
    } else {
        let i = id.len() - 1;
        pointed(id.drop_last()) + text::given(i > 0 && i % 2 == 0, "."@) + text::hex_octet(
            id.last(),
        )
    }
}

/// The text of a router identifier: a dotted quad for four octets, else as IS-IS writes
/// its identifiers.
pub fn format_router_id(id: &[u8]) -> (r: String)
    ensures
        r@ == (if id@.len() == 4 {
            text::dotted(id@)
        } else {
            pointed(id@)
        }),
{
    let mut out = String::new();
    if id.len() == 4 {
        let a = Ipv4Addr { octets: [id[0], id[1], id[2], id[3]] };
        assert(a.octets@ =~= id@);
        text::push_dotted(&mut out, &a);
        assert(out@ =~= text::dotted(id@));
        return out;
    }
    let mut i: usize = 0;
    assert(out@ =~= pointed(id@.take(0)));
    while i < id.len()
        invariant
            i <= id.len(),
            out@ == pointed(id@.take(i as int)),
        decreases id.len() - i,
    {
        assert(id@.take(i + 1).drop_last() =~= id@.take(i as int));
        text::push_given(&mut out, i > 0 && i % 2 == 0, ".");
        text::push_hex(&mut out, id[i]);
        i = i + 1;
    }
    assert(id@.take(i as int) =~= id@);
    out
}

/// The first TLV of a type counts, and the first AS number that has four octets.
pub proof fn lemma_first_counts(t: TlvView, rest: Seq<TlvView>, kind: u16)
    ensures
        first_of(seq![t] + rest, kind) == (if t.kind == kind {
            Some(t.body)
        } else {
            first_of(rest, kind)
        }),
        first_of(Seq::empty(), kind) is None,
        t.kind == 512 && t.body.len() == 4 ==> first_as(seq![t] + rest) == Some(
            (t.body[0] * 16777216 + t.body[1] * 65536 + t.body[2] * 256 + t.body[3]) as u32,
        ),
        t.kind != 512 || t.body.len() != 4 ==> first_as(seq![t] + rest) == first_as(rest),
        first_as(Seq::empty()) is None,
{
    assert((seq![t] + rest).drop_first() =~= rest);
}

/// The metric by the number of its octets: of more than three the first three count.
pub proof fn lemma_metric_by_octets(b: Seq<u8>)
    ensures
        b.len() == 0 ==> metric_of(b) == 0,
        b.len() == 1 ==> metric_of(b) == b[0],
        b.len() == 2 ==> metric_of(b) == b[0] * 256 + b[1],
        b.len() >= 3 ==> metric_of(b) == b[0] * 65536 + b[1] * 256 + b[2],
{
    reveal_with_fuel(spelled, 4);
    if b.len() >= 3 {
        let c = b.take(3);
        assert(c.drop_last().drop_last().drop_last().len() == 0);
    }
}

/// Which objects are read: 9 octets at least in front of their descriptors and one of the four
/// types.
pub proof fn lemma_which_objects_are_read(t: TlvView)
    ensures
        t.body.len() < 9 || t.kind == 0 || t.kind > 4 ==> nlri_of(t) is None,
        nlri_of(t) matches Some(v) ==> {
            &&& v.kind is Node <==> t.kind == 1
            &&& v.kind is Link <==> t.kind == 2
            &&& v.kind is Ipv4Prefix <==> t.kind == 3
            &&& v.kind is Ipv6Prefix <==> t.kind == 4
            &&& v.protocol == t.body[0]
            &&& v.identifier == (t.body[1] * 16777216 + t.body[2] * 65536 + t.body[3] * 256 + t.body[4])
                * 4294967296 + t.body[5] * 16777216 + t.body[6] * 65536 + t.body[7] * 256 + t.body[8]
            &&& run::run_values::<LsTlv>(t.body.subrange(9, t.body.len() as int), Plain) == Some(
                v.descriptors,
            )
        },
{
}

/// The prefix of an object is in the first descriptor of type 265: its length, where it fits
/// the family, and the octets behind it, filled up with zeros.
pub proof fn lemma_which_prefix_is_reachable(v: LsView, b: Seq<u8>, j: int)
    requires
        first_of(v.descriptors, 265) == Some(b),
    ensures
        reachable(v) is Some <==> b.len() > 0 && (b[0] <= 32 || (v.kind is Ipv6Prefix && b[0] <= 128)),
        reachable(v) matches Some(p) ==> p.len == b[0] && (p.addr is V6 <==> v.kind is Ipv6Prefix) && (
        0 <= j < p.addr.width() ==> net::bit_at(p.addr.bytes(), j) == (j < b[0] && j < 8 * (b.len() - 1)
            && net::bit_at(b.drop_first(), j))),
{
    if let Some(p) = reachable(v) {
        if 0 <= j < p.addr.width() {
            let a = filled_addr(b, v.kind is Ipv6Prefix);
            net::lemma_masking(a, b[0], j);
            let k = j / 8;
            assert(j == 8 * k + j % 8);
            assert(a.bytes()[k] == filled(b, k));
        }
    }
}

/// Segment routing is told of by TLVs of three types.
pub proof fn lemma_what_tells_of_segments(t: TlvView)
    ensures
        tells_sr(t) <==> t.kind == 1034 || t.kind == 1099 || t.kind == 1158,
{
}

} // verus!
