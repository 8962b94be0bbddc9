//! SRv6 service SIDs (RFC 9252): the forwarding instruction of an overlay route, carried
//! in the Prefix-SID attribute as a tree of TLVs.
//!
//! ```text
//! Service TLV (5: L3, 6: L2)
//!   reserved
//!   SID Information (1)
//!     reserved, SID, flags, behaviour, reserved
//!     SID Structure (1)
//!       block, node, function, argument, transposition length and offset
//! ```
//!
//! Each length counts what follows it.

use vstd::prelude::*;
use vstd::string::*;

use crate::bgp::tlv;
use crate::bgp::tlv::{Frame, Tlv, TlvView};
use crate::net::Ipv6Addr;
use crate::run;
use crate::run::Record;
use crate::text;
use crate::wire;

pub mod behavior;

verus! {

/// A SID: an IPv6 address that is an instruction.
pub type Srv6Sid = [u8; 16];

/// How the bits of a SID are divided (§3.2.1).
#[derive(Clone, Copy, PartialEq, Eq, PartialOrd, Ord, Structural, Debug, Default)]
pub struct Srv6SidStructure {
    pub locator_block_len: u8,
    pub locator_node_len: u8,
    pub function_len: u8,
    pub argument_len: u8,
    /// How many bits of the function are carried in the route's label.
    pub transposition_len: u8,
    /// Where in the SID those bits belong.
    pub transposition_offset: u8,
}

/// A service SID with its behaviour and its division.
#[derive(Clone, Copy, PartialEq, Eq, PartialOrd, Ord, Debug)]
pub struct Srv6ServiceSid {
    pub sid: Srv6Sid,
    /// The endpoint behaviour: see [`behavior`].
    pub behavior: u16,
    pub flags: u8,
    pub structure: Srv6SidStructure,
}

/// An L2 or L3 Service TLV.
#[derive(Clone, PartialEq, Eq, PartialOrd, Ord, Debug)]
pub struct Srv6ServiceTlv {
    pub is_l2: bool,
    pub sids: Vec<Srv6ServiceSid>,
}

/// A Service TLV as a mathematical value.
pub struct ServiceView {
    pub is_l2: bool,
    pub sids: Seq<Srv6ServiceSid>,
}

impl View for Srv6ServiceTlv {
    type V = ServiceView;

    open spec fn view(&self) -> ServiceView {
        ServiceView { is_l2: self.is_l2, sids: self.sids@ }
    }
}

/// A division that says nothing.
pub open spec fn no_structure() -> Srv6SidStructure {
    Srv6SidStructure {
        locator_block_len: 0,
        locator_node_len: 0,
        function_len: 0,
        argument_len: 0,
        transposition_len: 0,
        transposition_offset: 0,
    }
}

impl Srv6ServiceSid {
    pub fn same(&self, other: &Srv6ServiceSid) -> (r: bool)
        ensures
            r == (*self == *other),
    {
        let r = wire::same_bytes(self.sid.as_slice(), other.sid.as_slice()) && self.behavior
            == other.behavior && self.flags == other.flags && self.structure == other.structure;
        if r {
            assert(self.sid =~= other.sid);
        }
        r
    }
}

impl Srv6ServiceTlv {
    /// The first SID.
    pub fn first_sid(&self) -> (r: Option<&Srv6ServiceSid>)
        ensures
            match r {
                Some(s) => self@.sids.len() > 0 && *s == self@.sids[0],
                None => self@.sids.len() == 0,
            },
    {
        if self.sids.len() > 0 {
            Some(&self.sids[0])
        } else {
            None
        }
    }
}

/// The text of a SID: that of the IPv6 address.
pub fn sid_to_string(sid: &Srv6Sid) -> (r: String)
    ensures
        r@ == text::colons(sid@),
{
    let mut out = String::new();
    text::push_colons(&mut out, &Ipv6Addr { octets: *sid });
    assert(out@ =~= text::colons(sid@));
    out
}

/// Octet `i` of the SID that [`build_service_sid`] makes: the whole octets of the
/// locator, the discriminator, the three octets of the VNI, zeros.
pub open spec fn built_octet(
    locator: Seq<u8>,
    prefix_len: u8,
    discriminator: u8,
    vni: u32,
    i: int,
) -> u8 {
    let n = prefix_len as int / 8;
    if i < n {
        locator[i]
    } else if i == n {
        discriminator
    } else if i < n + 4 {
        wire::be24(vni)[i - n - 1]
    } else {
        0
    }
}

fn built_octet_of(
    locator: &Ipv6Addr,
    prefix_len: u8,
    discriminator: u8,
    vni: u32,
    i: usize,
) -> (r: u8)
    requires
        i < 16,
    ensures
        r == built_octet(locator.octets@, prefix_len, discriminator, vni, i as int),
{
    let n: usize = prefix_len as usize / 8;
    if i < n {
        locator.octets[i]
    } else if i == n {
        discriminator
    } else if i == n + 1 {
        (vni / 65536 % 256) as u8
    } else if i == n + 2 {
        (vni / 256 % 256) as u8
    } else if i == n + 3 {
        (vni % 256) as u8
    } else {
        0
    }
}

/// Make a service SID from a locator, a discriminator and a VNI. The discriminator keeps
/// SIDs of one VNI with different behaviours apart.
pub fn build_service_sid(locator: Ipv6Addr, prefix_len: u8, discriminator: u8, vni: u32) -> (r: (
    Srv6Sid,
    Srv6SidStructure,
))
    ensures
        forall|i: int|
            0 <= i < 16 ==> #[trigger] r.0@[i] == built_octet(
                locator.octets@,
                prefix_len,
                discriminator,
                vni,
                i,
            ),
        r.1 == (Srv6SidStructure {
            locator_block_len: if prefix_len < 40 {
                prefix_len
            } else {
                40
            },
            locator_node_len: if prefix_len < 40 {
                0
            } else {
                (prefix_len - 40) as u8
            },
            function_len: 32,
            argument_len: 0,
            transposition_len: 0,
            transposition_offset: 0,
        }),
{
    let mut out: Vec<u8> = Vec::new();
    let mut i: usize = 0;
    while i < 16
        invariant
            i <= 16,
            out@.len() == i,
            forall|j: int|
                0 <= j < i ==> #[trigger] out@[j] == built_octet(
                    locator.octets@,
                    prefix_len,
                    discriminator,
                    vni,
                    j,
                ),
        decreases 16 - i,
    {
        out.push(built_octet_of(&locator, prefix_len, discriminator, vni, i));
        i = i + 1;
    }
    let sid = wire::read_arr16(out.as_slice(), 0);
    assert(sid@ =~= out@);
    let block: u8 = if prefix_len < 40 {
        prefix_len
    } else {
        40
    };
    (
        sid,
        Srv6SidStructure {
            locator_block_len: block,
            locator_node_len: prefix_len - block,
            function_len: 32,
            argument_len: 0,
            transposition_len: 0,
            transposition_offset: 0,
        },
    )
}

/// SIDs of different discriminators, or of different VNIs, are different, for a locator
/// of at most 96 bits.
pub proof fn lemma_services_apart(
    locator: Seq<u8>,
    prefix_len: u8,
    d1: u8,
    v1: u32,
    d2: u8,
    v2: u32,
)
    requires
        prefix_len <= 96,
        v1 < 16777216,
        v2 < 16777216,
        forall|i: int|
            0 <= i < 16 ==> #[trigger] built_octet(locator, prefix_len, d1, v1, i) == built_octet(
                locator,
                prefix_len,
                d2,
                v2,
                i,
            ),
    ensures
        d1 == d2,
        v1 == v2,
{
    let n = prefix_len as int / 8;
    assert(built_octet(locator, prefix_len, d1, v1, n) == d1);
    assert(built_octet(locator, prefix_len, d1, v1, n + 1) == wire::be24(v1)[0]);
    assert(built_octet(locator, prefix_len, d1, v1, n + 2) == wire::be24(v1)[1]);
    assert(built_octet(locator, prefix_len, d1, v1, n + 3) == wire::be24(v1)[2]);
}

/// The SID Structure of a division.
pub open spec fn structure_tlv(st: Srv6SidStructure) -> TlvView {
    TlvView {
        kind: 1,
        body: seq![
            st.locator_block_len,
            st.locator_node_len,
            st.function_len,
            st.argument_len,
            st.transposition_len,
            st.transposition_offset,
        ],
    }
}

/// The SID Information of a service SID.
pub open spec fn information_tlv(s: Srv6ServiceSid) -> TlvView {
    TlvView {
        kind: 1,
        body: seq![0u8] + s.sid@ + seq![s.flags] + wire::be16(s.behavior) + seq![0u8] + Tlv::octets(
            structure_tlv(s.structure),
            Frame::Short,
        ),
    }
}

pub open spec fn information_tlvs(sids: Seq<Srv6ServiceSid>) -> Seq<TlvView> {
    sids.map_values(|s: Srv6ServiceSid| information_tlv(s))
}

/// The Service TLV.
pub open spec fn service_tlv(v: ServiceView) -> TlvView {
    TlvView {
        kind: if v.is_l2 {
            6
        } else {
            5
        },
        body: seq![0u8] + run::run_octets::<Tlv>(information_tlvs(v.sids), Frame::Short),
    }
}

/// The first SID Structure of at least six octets in `s`; `None` where there is none
/// before something is cut short.
pub open spec fn structure_in(s: Seq<u8>) -> Option<Srv6SidStructure>
    decreases s.len(),
{
    if s.len() < 3 {
        None
    } else {
        match tlv::tlv_front(s, Frame::Short) {
            None => None,
            Some((t, used)) => if t.kind == 1 && t.body.len() >= 6 {
                Some(
                    Srv6SidStructure {
                        locator_block_len: t.body[0],
                        locator_node_len: t.body[1],
                        function_len: t.body[2],
                        argument_len: t.body[3],
                        transposition_len: t.body[4],
                        transposition_offset: t.body[5],
                    },
                )
            } else {
                structure_in(wire::from_at(s, used))
            },
        }
    }
}

/// The service SID in the value of a SID Information; a missing division is all zeros.
pub open spec fn information_read(b: Seq<u8>) -> Option<Srv6ServiceSid> {
    if b.len() < 21 {
        None
    } else {
        Some(
            Srv6ServiceSid {
                sid: wire::arr16_at(b, 1),
                behavior: wire::u16_at(b, 18),
                flags: b[17],
                structure: match structure_in(wire::from_at(b, 21)) {
                    Some(st) => st,
                    None => no_structure(),
                },
            },
        )
    }
}

/// The service SIDs among sub-TLVs; sub-TLVs of other types are passed over.
pub open spec fn sids_of(ts: Seq<TlvView>) -> Option<Seq<Srv6ServiceSid>>
    decreases ts.len(),
{
    if ts.len() == 0 {
        Some(Seq::empty())
    } else {
        match sids_of(ts.drop_last()) {
            None => None,
            Some(front) => if ts.last().kind == 1 {
                match information_read(ts.last().body) {
                    Some(s) => Some(front.push(s)),
                    None => None,
                }
            } else {
                Some(front)
            },
        }
    }
}

/// The service SIDs in the value of a Service TLV.
pub open spec fn service_read(b: Seq<u8>) -> Option<Seq<Srv6ServiceSid>> {
    if b.len() == 0 {
        None
    } else {
        match run::run_values::<Tlv>(wire::from_at(b, 1), Frame::Short) {
            Some(ts) => sids_of(ts),
            None => None,
        }
    }
}

/// The Service TLVs and the other TLVs among the TLVs of a Prefix-SID attribute.
pub open spec fn parts_of(ts: Seq<TlvView>) -> Option<(Seq<ServiceView>, Seq<(u8, Seq<u8>)>)>
    decreases ts.len(),
{
    if ts.len() == 0 {
        Some((Seq::empty(), Seq::empty()))
    } else {
        let t = ts.last();
        match parts_of(ts.drop_last()) {
            None => None,
            Some((services, others)) => if t.kind == 5 || t.kind == 6 {
                match service_read(t.body) {
                    Some(sids) => Some(
                        (services.push(ServiceView { is_l2: t.kind == 6, sids }), others),
                    ),
                    None => None,
                }
            } else {
                Some((services, others.push(((t.kind % 256) as u8, t.body))))
            },
        }
    }
}

/// What a Prefix-SID attribute holds.
pub open spec fn prefix_sid_read(s: Seq<u8>) -> Option<(Seq<ServiceView>, Seq<(u8, Seq<u8>)>)> {
    match run::run_values::<Tlv>(s, Frame::Short) {
        Some(ts) => parts_of(ts),
        None => None,
    }
}

/// The TLVs of a Prefix-SID attribute: the Service TLVs, then the others.
pub open spec fn prefix_sid_tlvs(services: Seq<ServiceView>, others: Seq<(u8, Seq<u8>)>) -> Seq<
    TlvView,
> {
    services.map_values(|v: ServiceView| service_tlv(v)) + others.map_values(
        |o: (u8, Seq<u8>)| TlvView { kind: o.0 as u16, body: o.1 },
    )
}

/// One entry of a Prefix-SID attribute.
pub enum SidEntry {
    Service(ServiceView),
    /// The type of another TLV and its value.
    Other(u8, Seq<u8>),
}

/// The TLV of an entry.
pub open spec fn entry_tlv(e: SidEntry) -> TlvView {
    match e {
        SidEntry::Service(v) => service_tlv(v),
        SidEntry::Other(kind, body) => TlvView { kind: kind as u16, body },
    }
}

/// The TLVs of entries, in their order.
pub open spec fn entry_tlvs(es: Seq<SidEntry>) -> Seq<TlvView> {
    es.map_values(|e: SidEntry| entry_tlv(e))
}

/// Whether the length field can tell the value of an entry, and its type its kind.
pub open spec fn entry_carried(e: SidEntry) -> bool {
    match e {
        SidEntry::Service(v) => v.sids.len() <= 1985,
        SidEntry::Other(kind, body) => kind != 5 && kind != 6 && body.len() <= 65535,
    }
}

/// The services among entries.
pub open spec fn services_in(es: Seq<SidEntry>) -> Seq<ServiceView>
    decreases es.len(),
{
    if es.len() == 0 {
        Seq::empty()
    } else {
        match es.last() {
            SidEntry::Service(v) => services_in(es.drop_last()).push(v),
            SidEntry::Other(_, _) => services_in(es.drop_last()),
        }
    }
}

/// The other TLVs among entries.
pub open spec fn others_in(es: Seq<SidEntry>) -> Seq<(u8, Seq<u8>)>
    decreases es.len(),
{
    if es.len() == 0 {
        Seq::empty()
    } else {
        match es.last() {
            SidEntry::Service(_) => others_in(es.drop_last()),
            SidEntry::Other(kind, body) => others_in(es.drop_last()).push((kind, body)),
        }
    }
}

/// Services, then other TLVs.
pub open spec fn in_order(services: Seq<ServiceView>, others: Seq<(u8, Seq<u8>)>) -> Seq<SidEntry> {
    services.map_values(|v: ServiceView| SidEntry::Service(v)) + others.map_values(
        |o: (u8, Seq<u8>)| SidEntry::Other(o.0, o.1),
    )
}

fn push_structure(out: &mut Vec<u8>, st: &Srv6SidStructure)
    ensures
        final(out)@ == old(out)@ + Tlv::octets(structure_tlv(*st), Frame::Short),
{
    let body = [
        st.locator_block_len,
        st.locator_node_len,
        st.function_len,
        st.argument_len,
        st.transposition_len,
        st.transposition_offset,
    ];
    assert(body@ =~= structure_tlv(*st).body);
    tlv::push_tlv(out, 1, body.as_slice(), Frame::Short);
}

fn push_information(out: &mut Vec<u8>, s: &Srv6ServiceSid)
    ensures
        final(out)@ == old(out)@ + Tlv::octets(information_tlv(*s), Frame::Short),
{
    let mut body: Vec<u8> = Vec::new();
    body.push(0);
    wire::push_all(&mut body, s.sid.as_slice());
    body.push(s.flags);
    wire::push_u16(&mut body, s.behavior);
    body.push(0);
    push_structure(&mut body, &s.structure);
    assert(body@ =~= information_tlv(*s).body);
    tlv::push_tlv(out, 1, body.as_slice(), Frame::Short);
}

/// Append a Service TLV.
pub fn encode_srv6_service_tlv(out: &mut Vec<u8>, t: &Srv6ServiceTlv)
    ensures
        final(out)@ == old(out)@ + Tlv::octets(service_tlv(t@), Frame::Short),
{
    let mut body: Vec<u8> = Vec::new();
    body.push(0);
    let ghost all = information_tlvs(t.sids@);
    let mut i: usize = 0;
    assert(body@ =~= seq![0u8] + run::run_octets::<Tlv>(all.take(0), Frame::Short));
    while i < t.sids.len()
        invariant
            i <= t.sids.len(),
            all == information_tlvs(t.sids@),
            body@ == seq![0u8] + run::run_octets::<Tlv>(all.take(i as int), Frame::Short),
        decreases t.sids.len() - i,
    {
        push_information(&mut body, &t.sids[i]);
        proof {
            run::lemma_run_push::<Tlv>(all.take(i as int), all[i as int], Frame::Short);
            assert(all.take(i + 1) =~= all.take(i as int).push(all[i as int]));
            assert(body@ =~= seq![0u8] + run::run_octets::<Tlv>(all.take(i + 1), Frame::Short));
        }
        i = i + 1;
    }
    assert(all.take(i as int) =~= all);
    tlv::push_tlv(
        out,
        if t.is_l2 {
            6
        } else {
            5
        },
        body.as_slice(),
        Frame::Short,
    );
}

fn decode_sid_structure(s: &[u8]) -> (r: Option<Srv6SidStructure>)
    ensures
        r == structure_in(s@),
{
    let mut i: usize = 0;
    assert(wire::from_at(s@, 0) =~= s@);
    while s.len() - i >= 3
        invariant
            i <= s.len(),
            structure_in(s@) == structure_in(wire::from_at(s@, i as int)),
        decreases s.len() - i,
    {
        let ghost rest = wire::from_at(s@, i as int);
        match Tlv::read(&s[i..s.len()], Frame::Short) {
            None => {
                return None;
            },
            Some((t, used)) => {
                if t.kind == 1 && t.body.len() >= 6 {
                    return Some(
                        Srv6SidStructure {
                            locator_block_len: t.body[0],
                            locator_node_len: t.body[1],
                            function_len: t.body[2],
                            argument_len: t.body[3],
                            transposition_len: t.body[4],
                            transposition_offset: t.body[5],
                        },
                    );
                }
                assert(wire::from_at(rest, used as int) =~= wire::from_at(s@, i + used));
                i = i + used;
            },
        }
    }
    None
}

fn decode_sid_information(b: &[u8]) -> (r: Option<Srv6ServiceSid>)
    ensures
        r == information_read(b@),
{
    if b.len() < 21 {
        return None;
    }
    let structure = match decode_sid_structure(&b[21..b.len()]) {
        Some(st) => st,
        None => Srv6SidStructure {
            locator_block_len: 0,
            locator_node_len: 0,
            function_len: 0,
            argument_len: 0,
            transposition_len: 0,
            transposition_offset: 0,
        },
    };
    Some(
        Srv6ServiceSid {
            sid: wire::read_arr16(b, 1),
            behavior: wire::read_u16(b, 18),
            flags: b[17],
            structure,
        },
    )
}

fn decode_service_sids(b: &[u8]) -> (r: Option<Vec<Srv6ServiceSid>>)
    ensures
        match r {
            Some(sids) => service_read(b@) == Some(sids@),
            None => service_read(b@) is None,
        },
{
    if b.len() == 0 {
        return None;
    }
    let ts = match run::read_run::<Tlv>(&b[1..b.len()], Frame::Short) {
        Some(ts) => ts,
        None => {
            return None;
        },
    };
    let ghost all = wire::views(ts@);
    let mut out: Vec<Srv6ServiceSid> = Vec::new();
    let mut i: usize = 0;
    while i < ts.len()
        invariant
            i <= ts.len(),
            all == wire::views(ts@),
            service_read(b@) == sids_of(all),
            sids_of(all.take(i as int)) == Some(out@),
        decreases ts.len() - i,
    {
        assert(all.take(i + 1).drop_last() =~= all.take(i as int));
        assert(all.take(i + 1).last() == ts@[i as int]@);
        if ts[i].kind == 1 {
            match decode_sid_information(ts[i].body.as_slice()) {
                Some(s) => {
                    out.push(s);
                },
                None => {
                    proof {
                        lemma_sids_none(all, i + 1);
                    }
                    return None;
                },
            }
        }
        i = i + 1;
    }
    assert(all.take(i as int) =~= all);
    Some(out)
}

proof fn lemma_sids_none(ts: Seq<TlvView>, n: int)
    requires
        0 <= n <= ts.len(),
        sids_of(ts.take(n)) is None,
    ensures
        sids_of(ts) is None,
    decreases ts.len() - n,
{
    if n < ts.len() {
        assert(ts.take(n + 1).drop_last() =~= ts.take(n));
        lemma_sids_none(ts, n + 1);
    } else {
        assert(ts.take(n) =~= ts);
    }
}

proof fn lemma_parts_none(ts: Seq<TlvView>, n: int)
    requires
        0 <= n <= ts.len(),
        parts_of(ts.take(n)) is None,
    ensures
        parts_of(ts) is None,
    decreases ts.len() - n,
{
    if n < ts.len() {
        assert(ts.take(n + 1).drop_last() =~= ts.take(n));
        lemma_parts_none(ts, n + 1);
    } else {
        assert(ts.take(n) =~= ts);
    }
}

/// A type octet and its uninterpreted value.
pub open spec fn other_views(s: Seq<(u8, Vec<u8>)>) -> Seq<(u8, Seq<u8>)> {
    s.map_values(|o: (u8, Vec<u8>)| (o.0, o.1@))
}

/// Decode the value of a Prefix-SID attribute: the Service TLVs, and the other TLVs as
/// they are. `None` where something is cut short.
pub fn decode_prefix_sid(value: &[u8]) -> (r: Option<(Vec<Srv6ServiceTlv>, Vec<(u8, Vec<u8>)>)>)
    ensures
        match r {
            Some((services, others)) => prefix_sid_read(value@) == Some(
                (wire::views(services@), other_views(others@)),
            ),
            None => prefix_sid_read(value@) is None,
        },
{
    let ts = match run::read_run::<Tlv>(value, Frame::Short) {
        Some(ts) => ts,
        None => {
            return None;
        },
    };
    let ghost all = wire::views(ts@);
    let mut services: Vec<Srv6ServiceTlv> = Vec::new();
    let mut others: Vec<(u8, Vec<u8>)> = Vec::new();
    let mut i: usize = 0;
    assert(wire::views(services@) =~= Seq::empty());
    assert(other_views(others@) =~= Seq::empty());
    while i < ts.len()
        invariant
            i <= ts.len(),
            all == wire::views(ts@),
            prefix_sid_read(value@) == parts_of(all),
            parts_of(all.take(i as int)) == Some((wire::views(services@), other_views(others@))),
        decreases ts.len() - i,
    {
        let t = &ts[i];
        assert(all.take(i + 1).drop_last() =~= all.take(i as int));
        assert(all.take(i + 1).last() == t@);
        if t.kind == 5 || t.kind == 6 {
            match decode_service_sids(t.body.as_slice()) {
                Some(sids) => {
                    let s = Srv6ServiceTlv { is_l2: t.kind == 6, sids };
                    proof {
                        wire::lemma_views_push(services@, s);
                    }
                    services.push(s);
                },
                None => {
                    proof {
                        lemma_parts_none(all, i + 1);
                    }
                    return None;
                },
            }
        } else {
            let body = wire::copy_of(t.body.as_slice());
            let ghost before = others@;
            others.push(((t.kind % 256) as u8, body));
            assert(other_views(others@) =~= other_views(before).push(
                ((t.kind % 256) as u8, t@.body),
            ));
        }
        i = i + 1;
    }
    assert(all.take(i as int) =~= all);
    Some((services, others))
}

proof fn lemma_information_back(s: Srv6ServiceSid)
    ensures
        information_tlv(s).body.len() == 30,
        information_read(information_tlv(s).body) == Some(s),
{
    let b = information_tlv(s).body;
    let st = structure_tlv(s.structure);
    let tail = Tlv::octets(st, Frame::Short);
    assert(tail.len() == 9);
    let pre = seq![0u8] + s.sid@ + seq![s.flags];
    assert(b =~= pre + wire::be16(s.behavior) + (seq![0u8] + tail));
    wire::lemma_u16_back(pre, s.behavior, seq![0u8] + tail);
    assert(b.subrange(1, 17) =~= s.sid@);
    wire::lemma_arr16_placed(b, 1, s.sid);
    assert(wire::from_at(b, 21) =~= tail);
    tlv::lemma_tlv_round_trip(st, Frame::Short, Seq::empty());
    assert(tail + Seq::<u8>::empty() =~= tail);
}

proof fn lemma_sids_back(sids: Seq<Srv6ServiceSid>)
    ensures
        sids_of(information_tlvs(sids)) == Some(sids),
    decreases sids.len(),
{
    let ts = information_tlvs(sids);
    if sids.len() > 0 {
        lemma_sids_back(sids.drop_last());
        assert(ts.drop_last() =~= information_tlvs(sids.drop_last()));
        lemma_information_back(sids.last());
        assert(sids.drop_last().push(sids.last()) =~= sids);
    } else {
        assert(sids =~= Seq::empty());
    }
}

/// The service SIDs of a Service TLV are read back.
pub proof fn lemma_service_back(v: ServiceView)
    ensures
        service_read(service_tlv(v).body) == Some(v.sids),
        service_tlv(v).body.len() == 1 + 33 * v.sids.len(),
{
    let ts = information_tlvs(v.sids);
    assert forall|i: int| 0 <= i < ts.len() implies Tlv::carried(#[trigger] ts[i], Frame::Short) by {
        lemma_information_back(v.sids[i]);
    }
    run::lemma_run_round_trip::<Tlv>(ts, Frame::Short);
    lemma_sids_back(v.sids);
    assert(wire::from_at(service_tlv(v).body, 1) =~= run::run_octets::<Tlv>(ts, Frame::Short));
    lemma_information_lens(v.sids);
}

proof fn lemma_information_lens(sids: Seq<Srv6ServiceSid>)
    ensures
        run::run_octets::<Tlv>(information_tlvs(sids), Frame::Short).len() == 33 * sids.len(),
    decreases sids.len(),
{
    let ts = information_tlvs(sids);
    if sids.len() > 0 {
        lemma_information_lens(sids.drop_first());
        assert(ts.drop_first() =~= information_tlvs(sids.drop_first()));
        lemma_information_back(sids[0]);
    }
}

/// The TLVs of a Prefix-SID attribute, in whatever order they stand, are divided into the
/// Service TLVs and the others, each in the order in which they stand.
pub proof fn lemma_parts_back(es: Seq<SidEntry>)
    requires
        forall|i: int| 0 <= i < es.len() ==> entry_carried(#[trigger] es[i]),
    ensures
        parts_of(entry_tlvs(es)) == Some((services_in(es), others_in(es))),
    decreases es.len(),
{
    let ts = entry_tlvs(es);
    if es.len() > 0 {
        let front = es.drop_last();
        assert forall|i: int| 0 <= i < front.len() implies entry_carried(#[trigger] front[i]) by {
            assert(front[i] == es[i]);
        }
        lemma_parts_back(front);
        assert(ts.drop_last() =~= entry_tlvs(front));
        assert(entry_carried(es[es.len() - 1]));
        match es.last() {
            SidEntry::Service(v) => lemma_service_back(v),
            SidEntry::Other(_, _) => {},
        }
    }
}

/// A Prefix-SID attribute is read back, in whatever order its TLVs stand, and what is not
/// a Service TLV stays as it is.
pub proof fn lemma_prefix_sid_round_trip(es: Seq<SidEntry>)
    requires
        forall|i: int| 0 <= i < es.len() ==> entry_carried(#[trigger] es[i]),
    ensures
        prefix_sid_read(run::run_octets::<Tlv>(entry_tlvs(es), Frame::Short)) == Some(
            (services_in(es), others_in(es)),
        ),
{
    let ts = entry_tlvs(es);
    assert forall|i: int| 0 <= i < ts.len() implies Tlv::carried(#[trigger] ts[i], Frame::Short) by {
        assert(entry_carried(es[i]));
        match es[i] {
            SidEntry::Service(v) => lemma_service_back(v),
            SidEntry::Other(_, _) => {},
        }
    }
    run::lemma_run_round_trip::<Tlv>(ts, Frame::Short);
    lemma_parts_back(es);
}

proof fn lemma_in_order(services: Seq<ServiceView>, others: Seq<(u8, Seq<u8>)>)
    ensures
        services_in(in_order(services, others)) == services,
        others_in(in_order(services, others)) == others,
    decreases services.len() + others.len(),
{
    let es = in_order(services, others);
    if others.len() > 0 {
        lemma_in_order(services, others.drop_last());
        assert(es.drop_last() =~= in_order(services, others.drop_last()));
        assert(es.last() == SidEntry::Other(others.last().0, others.last().1));
        assert(others.drop_last().push(others.last()) =~= others);
    } else if services.len() > 0 {
        lemma_in_order(services.drop_last(), others);
        assert(es.drop_last() =~= in_order(services.drop_last(), others));
        assert(es.last() == SidEntry::Service(services.last()));
        assert(services.drop_last().push(services.last()) =~= services);
    } else {
        assert(services =~= Seq::empty());
        assert(others =~= Seq::empty());
    }
}

/// A Prefix-SID attribute as it is written, the Service TLVs first, is read back.
pub proof fn lemma_written_prefix_sid_back(
    services: Seq<ServiceView>,
    others: Seq<(u8, Seq<u8>)>,
)
    requires
        forall|i: int| 0 <= i < services.len() ==> (#[trigger] services[i]).sids.len() <= 1985,
        forall|i: int|
            0 <= i < others.len() ==> (#[trigger] others[i]).0 != 5 && others[i].0 != 6
                && others[i].1.len() <= 65535,
    ensures
        prefix_sid_read(
            run::run_octets::<Tlv>(prefix_sid_tlvs(services, others), Frame::Short),
        ) == Some((services, others)),
{
    let es = in_order(services, others);
    assert forall|i: int| 0 <= i < es.len() implies entry_carried(#[trigger] es[i]) by {
        if i < services.len() {
            assert(es[i] == SidEntry::Service(services[i]));
        } else {
            let o = others[i - services.len()];
            assert(es[i] == SidEntry::Other(o.0, o.1));
        }
    }
    lemma_prefix_sid_round_trip(es);
    lemma_in_order(services, others);
    assert(entry_tlvs(es) =~= prefix_sid_tlvs(services, others));
}

/// Which values of a SID Information are understood, and what they say: 21 octets at least,
/// of which the SID has sixteen behind the first.
pub proof fn lemma_what_an_information_says(b: Seq<u8>, i: int)
    ensures
        information_read(b) is Some <==> b.len() >= 21,
        information_read(b) matches Some(s) ==> (0 <= i < 16 ==> s.sid@[i] == b[1 + i]) && s.flags
            == b[17] && s.behavior == b[18] * 256 + b[19],
{
}

/// The division is that of the first sub-TLV of type 1 with six octets; others in front of it
/// are passed over, and where there is none every part has no bits.
pub proof fn lemma_which_division_counts(kind: u8, v: Seq<u8>, rest: Seq<u8>)
    requires
        v.len() <= 65535,
    ensures
        ({
            let s = seq![kind] + wire::be16(v.len() as u16) + v + rest;
            &&& kind == 1 && v.len() >= 6 ==> (structure_in(s) matches Some(st) && st.locator_block_len
                == v[0] && st.locator_node_len == v[1] && st.function_len == v[2] && st.argument_len
                == v[3] && st.transposition_len == v[4] && st.transposition_offset == v[5])
            &&& kind != 1 || v.len() < 6 ==> structure_in(s) == structure_in(rest)
        }),
        structure_in(Seq::empty()) is None,
{
    let t = TlvView { kind: kind as u16, body: v };
    let s = seq![kind] + wire::be16(v.len() as u16) + v + rest;
    tlv::lemma_tlv_round_trip(t, Frame::Short, rest);
    assert(s =~= Tlv::octets(t, Frame::Short) + rest);
    assert(wire::from_at(s, 3int + v.len()) =~= rest);
}

/// Among the TLVs of an attribute those of type 5 are services of layer 3 and those of type 6
/// of layer 2, and one of them that is malformed spoils the whole; all others are kept.
pub proof fn lemma_one_more_part(ts: Seq<TlvView>, t: TlvView)
    ensures
        parts_of(Seq::empty()) matches Some((s, o)) && s.len() == 0 && o.len() == 0,
        parts_of(ts) is None ==> parts_of(ts.push(t)) is None,
        parts_of(ts) matches Some((s, o)) ==> {
            let r = parts_of(ts.push(t));
            &&& t.kind == 5 || t.kind == 6 ==> (r is Some <==> service_read(t.body) is Some)
            &&& (t.kind == 5 || t.kind == 6) && r is Some ==> (r matches Some((s2, o2)) && o2 == o
                && s2.len() == s.len() + 1 && s2.drop_last() == s && s2.last().is_l2 == (t.kind == 6)
                && service_read(t.body) == Some(s2.last().sids))
            &&& t.kind != 5 && t.kind != 6 ==> r == Some((s, o.push(((t.kind % 256) as u8, t.body))))
        },
{
    assert(ts.push(t).drop_last() =~= ts);
    if let Some((s, o)) = parts_of(ts) {
        if let Some((s2, o2)) = parts_of(ts.push(t)) {
            if t.kind == 5 || t.kind == 6 {
                assert(s2.drop_last() =~= s);
            }
        }
    }
}

/// Among the sub-TLVs of a service those of type 1 are SIDs, and one of them that is malformed
/// spoils the service; all others are passed over.
pub proof fn lemma_one_more_sid(ts: Seq<TlvView>, t: TlvView)
    ensures
        sids_of(Seq::empty()) == Some(Seq::<Srv6ServiceSid>::empty()),
        sids_of(ts) is None ==> sids_of(ts.push(t)) is None,
        sids_of(ts) matches Some(f) ==> {
            &&& t.kind != 1 ==> sids_of(ts.push(t)) == Some(f)
            &&& t.kind == 1 && t.body.len() < 21 ==> sids_of(ts.push(t)) is None
            &&& t.kind == 1 && t.body.len() >= 21 ==> (sids_of(ts.push(t)) matches Some(g) && g.len()
                == f.len() + 1 && g.drop_last() == f && information_read(t.body) == Some(g.last()))
        },
{
    assert(ts.push(t).drop_last() =~= ts);
    if let Some(f) = sids_of(ts) {
        if let Some(g) = sids_of(ts.push(t)) {
            if t.kind == 1 {
                assert(g.drop_last() =~= f);
            }
        }
    }
}

} // verus!
