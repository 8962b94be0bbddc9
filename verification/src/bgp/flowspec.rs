//! Flow specifications (RFC 8955): what traffic to match, carried as NLRI under SAFI 133,
//! and what to do with it, carried as extended communities.
//!
//! A flow specification is a set of components, written in increasing order of their
//! types behind a length of one octet, or of two where it reaches 240.

use vstd::prelude::*;
use vstd::string::*;

use crate::bgp;
use crate::bgp::{decode_prefix, encode_prefix};
use crate::net::Prefix;
use crate::order::{dup_all, same_all, Datum};
use crate::run;
use crate::run::{Plain, Record};
use crate::text;
use crate::wire;

pub mod component_type;

verus! {

/// Subsequent address family: flow specifications.
pub const SAFI_FLOWSPEC: u8 = 133;

/// One term of a numeric component (§4.2.1.1): a comparison with a value.
#[derive(Clone, Copy, PartialEq, Eq, Structural, Debug)]
pub struct NumOp {
    /// Joined to the term before it by AND, else by OR.
    pub and: bool,
    pub lt: bool,
    pub gt: bool,
    pub eq: bool,
    pub value: u64,
}

impl NumOp {
    /// Equal to `value`, joined by OR.
    pub fn eq(value: u64) -> (r: NumOp)
        ensures
            r == (NumOp { and: false, lt: false, gt: false, eq: true, value }),
    {
        NumOp { and: false, lt: false, gt: false, eq: true, value }
    }
}

/// One term of a bitmask component (§4.2.1.2).
#[derive(Clone, Copy, PartialEq, Eq, Structural, Debug)]
pub struct BitOp {
    /// Joined to the term before it by AND, else by OR.
    pub and: bool,
    /// The match is negated.
    pub not: bool,
    /// Exactly these bits, else any of them.
    pub match_: bool,
    pub value: u64,
}

impl View for NumOp {
    type V = NumOp;

    open spec fn view(&self) -> NumOp {
        *self
    }
}

impl Datum for NumOp {
    fn dup(&self) -> (r: NumOp) {
        *self
    }

    fn same(&self, other: &NumOp) -> (r: bool) {
        *self == *other
    }
}

impl View for BitOp {
    type V = BitOp;

    open spec fn view(&self) -> BitOp {
        *self
    }
}

impl Datum for BitOp {
    fn dup(&self) -> (r: BitOp) {
        *self
    }

    fn same(&self, other: &BitOp) -> (r: bool) {
        *self == *other
    }
}

/// A term of either kind: a value, and flags in the bits of its operator octet that tell
/// neither the width of the value nor the end of the list.
pub trait Term: Copy {
    /// The flags.
    spec fn flags(self) -> u8;

    /// The value.
    spec fn operand(self) -> u64;

    /// The term of an operator octet and a value.
    spec fn of(b: u8, value: u64) -> Self;

    /// The flags leave the other bits free, and with the value they tell the term.
    proof fn lemma_term(self, b: u8)
        requires
            b == self.flags() || b == self.flags() + 16 || b == self.flags() + 32 || b
                == self.flags() + 48 || b == self.flags() + 128 || b == self.flags() + 144 || b
                == self.flags() + 160 || b == self.flags() + 176,
        ensures
            Self::of(b, self.operand()) == self,
    ;

    proof fn lemma_flags(self)
        ensures
            self.flags() % 16 < 8,
            self.flags() / 16 == 0 || self.flags() / 16 == 4,
    ;

    fn flags_of(&self) -> (r: u8)
        ensures
            r == self.flags(),
    ;

    fn operand_of(&self) -> (r: u64)
        ensures
            r == self.operand(),
    ;

    fn build(b: u8, value: u64) -> (r: Self)
        ensures
            r == Self::of(b, value),
    ;
}

impl Term for NumOp {
    open spec fn flags(self) -> u8 {
        (wire::flag(self.and, 64) + wire::flag(self.lt, 4) + wire::flag(self.gt, 2) + wire::flag(
            self.eq,
            1,
        )) as u8
    }

    open spec fn operand(self) -> u64 {
        self.value
    }

    open spec fn of(b: u8, value: u64) -> NumOp {
        NumOp {
            and: wire::bit(b, 64),
            lt: wire::bit(b, 4),
            gt: wire::bit(b, 2),
            eq: wire::bit(b, 1),
            value,
        }
    }

    proof fn lemma_term(self, b: u8) {
    }

    proof fn lemma_flags(self) {
    }

    fn flags_of(&self) -> (r: u8) {
        wire::flag_of(self.and, 64) + wire::flag_of(self.lt, 4) + wire::flag_of(self.gt, 2)
            + wire::flag_of(self.eq, 1)
    }

    fn operand_of(&self) -> (r: u64) {
        self.value
    }

    fn build(b: u8, value: u64) -> (r: NumOp) {
        NumOp {
            and: wire::bit_of(b, 64),
            lt: wire::bit_of(b, 4),
            gt: wire::bit_of(b, 2),
            eq: wire::bit_of(b, 1),
            value,
        }
    }
}

impl Term for BitOp {
    open spec fn flags(self) -> u8 {
        (wire::flag(self.and, 64) + wire::flag(self.not, 2) + wire::flag(self.match_, 1)) as u8
    }

    open spec fn operand(self) -> u64 {
        self.value
    }

    open spec fn of(b: u8, value: u64) -> BitOp {
        BitOp { and: wire::bit(b, 64), not: wire::bit(b, 2), match_: wire::bit(b, 1), value }
    }

    proof fn lemma_term(self, b: u8) {
    }

    proof fn lemma_flags(self) {
    }

    fn flags_of(&self) -> (r: u8) {
        wire::flag_of(self.and, 64) + wire::flag_of(self.not, 2) + wire::flag_of(self.match_, 1)
    }

    fn operand_of(&self) -> (r: u64) {
        self.value
    }

    fn build(b: u8, value: u64) -> (r: BitOp) {
        BitOp {
            and: wire::bit_of(b, 64),
            not: wire::bit_of(b, 2),
            match_: wire::bit_of(b, 1),
            value,
        }
    }
}

/// The width of a value in octets: the least of 1, 2, 4 and 8 that holds it.
pub open spec fn width(value: u64) -> int {
    if value <= 0xff {
        1
    } else if value <= 0xffff {
        2
    } else if value <= 0xffff_ffff {
        4
    } else {
        8
    }
}

/// The bits of the operator octet that tell the width.
pub open spec fn width_bits(value: u64) -> u8 {
    if value <= 0xff {
        0
    } else if value <= 0xffff {
        16
    } else if value <= 0xffff_ffff {
        32
    } else {
        48
    }
}

/// The width that an operator octet tells.
pub open spec fn told_width(b: u8) -> int {
    if b / 16 % 4 == 0 {
        1
    } else if b / 16 % 4 == 1 {
        2
    } else if b / 16 % 4 == 2 {
        4
    } else {
        8
    }
}

/// A value in its width, most significant octet first.
pub open spec fn value_octets(value: u64) -> Seq<u8> {
    if value <= 0xff {
        seq![value as u8]
    } else if value <= 0xffff {
        wire::be16(value as u16)
    } else if value <= 0xffff_ffff {
        wire::be32(value as u32)
    } else {
        wire::be64(value)
    }
}

/// The value of `n` octets behind the first octet of `s`.
pub open spec fn told_value(s: Seq<u8>, n: int) -> u64 {
    if n == 1 {
        s[1] as u64
    } else if n == 2 {
        wire::u16_at(s, 1) as u64
    } else if n == 4 {
        wire::u32_at(s, 1) as u64
    } else {
        wire::u64_at(s, 1)
    }
}

/// A term: its operator octet, which marks the last one, and its value.
pub open spec fn term_octets<T: Term>(op: T, last: bool) -> Seq<u8> {
    seq![(op.flags() + width_bits(op.operand()) + wire::flag(last, 128)) as u8] + value_octets(
        op.operand(),
    )
}

/// A list of terms.
pub open spec fn terms_octets<T: Term>(ops: Seq<T>) -> Seq<u8>
    decreases ops.len(),
{
    if ops.len() == 0 {
        Seq::empty()
    } else {
        term_octets(ops[0], ops.len() == 1) + terms_octets(ops.drop_first())
    }
}

/// The list of terms at the front of `s`, through the one that is marked as the last,
/// and its length in octets.
pub open spec fn terms_front<T: Term>(s: Seq<u8>) -> Option<(Seq<T>, int)>
    decreases s.len(),
{
    if s.len() == 0 || s.len() < 1 + told_width(s[0]) {
        None
    } else {
        let n = told_width(s[0]);
        let op = T::of(s[0], told_value(s, n));
        if wire::bit(s[0], 128) {
            Some((seq![op], 1 + n))
        } else {
            match terms_front::<T>(wire::from_at(s, 1 + n)) {
                None => None,
                Some((rest, m)) => Some((seq![op] + rest, 1 + n + m)),
            }
        }
    }
}

fn push_value(out: &mut Vec<u8>, value: u64)
    ensures
        final(out)@ == old(out)@ + value_octets(value),
{
    if value <= 0xff {
        out.push(value as u8);
    } else if value <= 0xffff {
        wire::push_u16(out, value as u16);
    } else if value <= 0xffff_ffff {
        wire::push_u32(out, value as u32);
    } else {
        wire::push_u64(out, value);
    }
    assert(out@ =~= old(out)@ + value_octets(value));
}

fn width_bits_of(value: u64) -> (r: u8)
    ensures
        r == width_bits(value),
{
    if value <= 0xff {
        0
    } else if value <= 0xffff {
        16
    } else if value <= 0xffff_ffff {
        32
    } else {
        48
    }
}

fn encode_terms<T: Term>(ops: &[T], out: &mut Vec<u8>)
    ensures
        final(out)@ == old(out)@ + terms_octets(ops@),
{
    let ghost start = out@;
    let mut i: usize = 0;
    assert(ops@.skip(0) =~= ops@);
    while i < ops.len()
        invariant
            i <= ops.len(),
            out@ + terms_octets(ops@.skip(i as int)) == start + terms_octets(ops@),
        decreases ops.len() - i,
    {
        let ghost rest = ops@.skip(i as int);
        let ghost before = out@;
        let op = ops[i];
        let v = op.operand_of();
        proof {
            op.lemma_flags();
        }
        out.push(op.flags_of() + width_bits_of(v) + wire::flag_of(i + 1 == ops.len(), 128));
        push_value(out, v);
        assert(rest.drop_first() =~= ops@.skip(i + 1));
        assert(out@ =~= before + term_octets(rest[0], rest.len() == 1));
        assert(out@ + terms_octets(ops@.skip(i + 1)) =~= before + terms_octets(rest));
        i = i + 1;
    }
    assert(out@ =~= out@ + terms_octets(ops@.skip(i as int)));
}

fn told_width_of(b: u8) -> (r: usize)
    ensures
        r == told_width(b),
        1 <= r <= 8,
{
    let w = b / 16 % 4;
    if w == 0 {
        1
    } else if w == 1 {
        2
    } else if w == 2 {
        4
    } else {
        8
    }
}

fn told_value_of(s: &[u8], i: usize, n: usize) -> (r: u64)
    requires
        n == 1 || n == 2 || n == 4 || n == 8,
        i + 1 + n <= s@.len(),
    ensures
        r == told_value(wire::from_at(s@, i as int), n as int),
{
    assert(i + 1 + n <= s.len());
    if n == 1 {
        s[i + 1] as u64
    } else if n == 2 {
        wire::read_u16(s, i + 1) as u64
    } else if n == 4 {
        wire::read_u32(s, i + 1) as u64
    } else {
        wire::read_u64(s, i + 1)
    }
}

fn decode_terms<T: Term>(s: &[u8]) -> (r: Option<(Vec<T>, usize)>)
    ensures
        match r {
            Some((ops, used)) => terms_front::<T>(s@) == Some((ops@, used as int)) && 0 < used
                <= s@.len() && ops@.len() > 0,
            None => terms_front::<T>(s@) is None,
        },
{
    let mut out: Vec<T> = Vec::new();
    let mut i: usize = 0;
    let ghost whole = terms_front::<T>(s@);
    assert(wire::from_at(s@, 0) =~= s@);
    proof {
        if let Some((w, n)) = whole {
            assert(Seq::<T>::empty() + w =~= w);
        }
    }
    while i < s.len()
        invariant
            i <= s.len(),
            whole == terms_front::<T>(s@),
            whole == (match terms_front::<T>(wire::from_at(s@, i as int)) {
                Some((rest, m)) => Some((out@ + rest, i + m)),
                None => None::<(Seq<T>, int)>,
            }),
        decreases s.len() - i,
    {
        let ghost rest = wire::from_at(s@, i as int);
        let ghost done = out@;
        let b = s[i];
        assert(rest[0] == b);
        let n = told_width_of(b);
        if s.len() - i < 1 + n {
            return None;
        }
        let op = T::build(b, told_value_of(s, i, n));
        out.push(op);
        if wire::bit_of(b, 128) {
            assert(done + seq![op] =~= out@);
            return Some((out, i + 1 + n));
        }
        proof {
            assert(wire::from_at(rest, 1 + n as int) =~= wire::from_at(s@, i + 1 + n));
            if let Some((r, m)) = terms_front::<T>(wire::from_at(s@, i + 1 + n)) {
                assert(done + (seq![op] + r) =~= out@ + r);
            }
        }
        i = i + 1 + n;
    }
    None
}

proof fn lemma_value_back(b: u8, value: u64, rest: Seq<u8>)
    requires
        b / 16 % 4 == width_bits(value) / 16,
    ensures
        told_width(b) == width(value),
        value_octets(value).len() == width(value),
        told_value(seq![b] + value_octets(value) + rest, width(value)) == value,
{
    let pre = seq![b];
    if value <= 0xff {
    } else if value <= 0xffff {
        wire::lemma_u16_back(pre, value as u16, rest);
    } else if value <= 0xffff_ffff {
        wire::lemma_u32_back(pre, value as u32, rest);
    } else {
        wire::lemma_u64_back(pre, value, rest);
    }
}

/// A list of terms that is not empty is read back, from in front of anything.
pub proof fn lemma_terms_round_trip<T: Term>(ops: Seq<T>, rest: Seq<u8>)
    requires
        ops.len() > 0,
    ensures
        terms_front::<T>(terms_octets(ops) + rest) == Some(
            (ops, terms_octets(ops).len() as int),
        ),
    decreases ops.len(),
{
    let op = ops[0];
    let last = ops.len() == 1;
    op.lemma_flags();
    let b = (op.flags() + width_bits(op.operand()) + wire::flag(last, 128)) as u8;
    let tail = terms_octets(ops.drop_first());
    let s = terms_octets(ops) + rest;
    assert(s =~= seq![b] + value_octets(op.operand()) + (tail + rest));
    lemma_value_back(b, op.operand(), tail + rest);
    op.lemma_term(b);
    let n = width(op.operand());
    assert(wire::from_at(s, 1 + n) =~= tail + rest);
    if last {
        assert(ops.drop_first() =~= Seq::<T>::empty());
        assert(ops =~= seq![op]);
    } else {
        lemma_terms_round_trip(ops.drop_first(), rest);
        assert(ops =~= seq![op] + ops.drop_first());
    }
}

/// One component: a part of the packet, and what it has to be.
#[derive(Clone, PartialEq, Eq, Debug)]
pub enum Component {
    DestPrefix(Prefix),
    SrcPrefix(Prefix),
    IpProto(Vec<NumOp>),
    /// Source or destination port.
    Port(Vec<NumOp>),
    DestPort(Vec<NumOp>),
    SrcPort(Vec<NumOp>),
    IcmpType(Vec<NumOp>),
    IcmpCode(Vec<NumOp>),
    TcpFlags(Vec<BitOp>),
    PktLen(Vec<NumOp>),
    Dscp(Vec<NumOp>),
    Fragment(Vec<BitOp>),
}

/// A component as a mathematical value.
pub enum ComponentView {
    DestPrefix(Prefix),
    SrcPrefix(Prefix),
    IpProto(Seq<NumOp>),
    Port(Seq<NumOp>),
    DestPort(Seq<NumOp>),
    SrcPort(Seq<NumOp>),
    IcmpType(Seq<NumOp>),
    IcmpCode(Seq<NumOp>),
    TcpFlags(Seq<BitOp>),
    PktLen(Seq<NumOp>),
    Dscp(Seq<NumOp>),
    Fragment(Seq<BitOp>),
}

impl View for Component {
    type V = ComponentView;

    open spec fn view(&self) -> ComponentView {
        match *self {
            Component::DestPrefix(p) => ComponentView::DestPrefix(p),
            Component::SrcPrefix(p) => ComponentView::SrcPrefix(p),
            Component::IpProto(o) => ComponentView::IpProto(o@),
            Component::Port(o) => ComponentView::Port(o@),
            Component::DestPort(o) => ComponentView::DestPort(o@),
            Component::SrcPort(o) => ComponentView::SrcPort(o@),
            Component::IcmpType(o) => ComponentView::IcmpType(o@),
            Component::IcmpCode(o) => ComponentView::IcmpCode(o@),
            Component::TcpFlags(o) => ComponentView::TcpFlags(o@),
            Component::PktLen(o) => ComponentView::PktLen(o@),
            Component::Dscp(o) => ComponentView::Dscp(o@),
            Component::Fragment(o) => ComponentView::Fragment(o@),
        }
    }
}

impl ComponentView {
    /// The type code.
    pub open spec fn kind(self) -> u8 {
        match self {
            ComponentView::DestPrefix(_) => 1,
            ComponentView::SrcPrefix(_) => 2,
            ComponentView::IpProto(_) => 3,
            ComponentView::Port(_) => 4,
            ComponentView::DestPort(_) => 5,
            ComponentView::SrcPort(_) => 6,
            ComponentView::IcmpType(_) => 7,
            ComponentView::IcmpCode(_) => 8,
            ComponentView::TcpFlags(_) => 9,
            ComponentView::PktLen(_) => 10,
            ComponentView::Dscp(_) => 11,
            ComponentView::Fragment(_) => 12,
        }
    }

    /// The numeric component of a type.
    pub open spec fn numeric(kind: u8, ops: Seq<NumOp>) -> ComponentView {
        if kind == 3 {
            ComponentView::IpProto(ops)
        } else if kind == 4 {
            ComponentView::Port(ops)
        } else if kind == 5 {
            ComponentView::DestPort(ops)
        } else if kind == 6 {
            ComponentView::SrcPort(ops)
        } else if kind == 7 {
            ComponentView::IcmpType(ops)
        } else if kind == 8 {
            ComponentView::IcmpCode(ops)
        } else if kind == 10 {
            ComponentView::PktLen(ops)
        } else {
            ComponentView::Dscp(ops)
        }
    }

    /// The octets behind the type octet.
    pub open spec fn body(self) -> Seq<u8> {
        match self {
            ComponentView::DestPrefix(p) => bgp::v4_octets(p),
            ComponentView::SrcPrefix(p) => bgp::v4_octets(p),
            ComponentView::IpProto(o) => terms_octets(o),
            ComponentView::Port(o) => terms_octets(o),
            ComponentView::DestPort(o) => terms_octets(o),
            ComponentView::SrcPort(o) => terms_octets(o),
            ComponentView::IcmpType(o) => terms_octets(o),
            ComponentView::IcmpCode(o) => terms_octets(o),
            ComponentView::TcpFlags(o) => terms_octets(o),
            ComponentView::PktLen(o) => terms_octets(o),
            ComponentView::Dscp(o) => terms_octets(o),
            ComponentView::Fragment(o) => terms_octets(o),
        }
    }

    /// The components that survive their encoding: IPv4 prefixes, and at least one term.
    pub open spec fn encodable(self) -> bool {
        match self {
            ComponentView::DestPrefix(p) => p.wf() && p.addr is V4,
            ComponentView::SrcPrefix(p) => p.wf() && p.addr is V4,
            ComponentView::IpProto(o) => o.len() > 0,
            ComponentView::Port(o) => o.len() > 0,
            ComponentView::DestPort(o) => o.len() > 0,
            ComponentView::SrcPort(o) => o.len() > 0,
            ComponentView::IcmpType(o) => o.len() > 0,
            ComponentView::IcmpCode(o) => o.len() > 0,
            ComponentView::TcpFlags(o) => o.len() > 0,
            ComponentView::PktLen(o) => o.len() > 0,
            ComponentView::Dscp(o) => o.len() > 0,
            ComponentView::Fragment(o) => o.len() > 0,
        }
    }
}

/// The component at the front of `s`, and its length in octets.
pub open spec fn component_front(s: Seq<u8>) -> Option<(ComponentView, int)> {
    let rest = wire::from_at(s, 1);
    if s.len() == 0 {
        None
    } else if s[0] == 1 || s[0] == 2 {
        match bgp::nlri_v4(rest) {
            Some((p, n)) => if s[0] == 1 {
                Some((ComponentView::DestPrefix(p), 1 + n))
            } else {
                Some((ComponentView::SrcPrefix(p), 1 + n))
            },
            None => None,
        }
    } else if s[0] == 9 || s[0] == 12 {
        match terms_front::<BitOp>(rest) {
            Some((o, n)) => if s[0] == 9 {
                Some((ComponentView::TcpFlags(o), 1 + n))
            } else {
                Some((ComponentView::Fragment(o), 1 + n))
            },
            None => None,
        }
    } else if 3 <= s[0] <= 11 {
        match terms_front::<NumOp>(rest) {
            Some((o, n)) => Some((ComponentView::numeric(s[0], o), 1 + n)),
            None => None,
        }
    } else {
        None
    }
}

impl Component {
    /// The type code.
    pub fn type_code(&self) -> (r: u8)
        ensures
            r == self@.kind(),
            1 <= r <= 12,
    {
        match self {
            Component::DestPrefix(_) => component_type::DEST_PREFIX,
            Component::SrcPrefix(_) => component_type::SRC_PREFIX,
            Component::IpProto(_) => component_type::IP_PROTO,
            Component::Port(_) => component_type::PORT,
            Component::DestPort(_) => component_type::DEST_PORT,
            Component::SrcPort(_) => component_type::SRC_PORT,
            Component::IcmpType(_) => component_type::ICMP_TYPE,
            Component::IcmpCode(_) => component_type::ICMP_CODE,
            Component::TcpFlags(_) => component_type::TCP_FLAGS,
            Component::PktLen(_) => component_type::PKT_LEN,
            Component::Dscp(_) => component_type::DSCP,
            Component::Fragment(_) => component_type::FRAGMENT,
        }
    }
}

fn encode_component(c: &Component, out: &mut Vec<u8>)
    ensures
        final(out)@ == old(out)@ + seq![c@.kind()] + c@.body(),
{
    out.push(c.type_code());
    match c {
        Component::DestPrefix(p) => encode_prefix(out, p),
        Component::SrcPrefix(p) => encode_prefix(out, p),
        Component::IpProto(o) => encode_terms(o.as_slice(), out),
        Component::Port(o) => encode_terms(o.as_slice(), out),
        Component::DestPort(o) => encode_terms(o.as_slice(), out),
        Component::SrcPort(o) => encode_terms(o.as_slice(), out),
        Component::IcmpType(o) => encode_terms(o.as_slice(), out),
        Component::IcmpCode(o) => encode_terms(o.as_slice(), out),
        Component::TcpFlags(o) => encode_terms(o.as_slice(), out),
        Component::PktLen(o) => encode_terms(o.as_slice(), out),
        Component::Dscp(o) => encode_terms(o.as_slice(), out),
        Component::Fragment(o) => encode_terms(o.as_slice(), out),
    }
    assert(out@ =~= old(out)@ + seq![c@.kind()] + c@.body());
}

fn numeric_component(kind: u8, ops: Vec<NumOp>) -> (r: Component)
    ensures
        r@ == ComponentView::numeric(kind, ops@),
{
    match kind {
        3 => Component::IpProto(ops),
        4 => Component::Port(ops),
        5 => Component::DestPort(ops),
        6 => Component::SrcPort(ops),
        7 => Component::IcmpType(ops),
        8 => Component::IcmpCode(ops),
        10 => Component::PktLen(ops),
        _ => Component::Dscp(ops),
    }
}

fn decode_component(buf: &[u8]) -> (r: Option<(Component, usize)>)
    requires
        buf@.len() > 0,
    ensures
        match r {
            Some((c, used)) => component_front(buf@) == Some((c@, used as int)) && 0 < used
                <= buf@.len(),
            None => component_front(buf@) is None,
        },
{
    let kind = buf[0];
    let rest = &buf[1..buf.len()];
    assert(rest@ == wire::from_at(buf@, 1));
    if kind == component_type::DEST_PREFIX || kind == component_type::SRC_PREFIX {
        match decode_prefix(rest) {
            Some((p, n)) => if kind == component_type::DEST_PREFIX {
                Some((Component::DestPrefix(p), 1 + n))
            } else {
                Some((Component::SrcPrefix(p), 1 + n))
            },
            None => None,
        }
    } else if kind == component_type::TCP_FLAGS || kind == component_type::FRAGMENT {
        match decode_terms::<BitOp>(rest) {
            Some((o, n)) => if kind == component_type::TCP_FLAGS {
                Some((Component::TcpFlags(o), 1 + n))
            } else {
                Some((Component::Fragment(o), 1 + n))
            },
            None => None,
        }
    } else if component_type::IP_PROTO <= kind && kind <= component_type::DSCP {
        match decode_terms::<NumOp>(rest) {
            Some((o, n)) => Some((numeric_component(kind, o), 1 + n)),
            None => None,
        }
    } else {
        None
    }
}

impl Record for Component {
    type Ctx = Plain;

    open spec fn carried(v: ComponentView, c: Plain) -> bool {
        v.encodable()
    }

    open spec fn octets(v: ComponentView, c: Plain) -> Seq<u8> {
        seq![v.kind()] + v.body()
    }

    open spec fn front(s: Seq<u8>, c: Plain) -> Option<(ComponentView, int)> {
        component_front(s)
    }

    proof fn lemma_front(v: ComponentView, c: Plain, rest: Seq<u8>) {
        let s = seq![v.kind()] + v.body() + rest;
        assert(wire::from_at(s, 1) =~= v.body() + rest);
        match v {
            ComponentView::DestPrefix(p) => bgp::lemma_nlri_round_trip(p, rest),
            ComponentView::SrcPrefix(p) => bgp::lemma_nlri_round_trip(p, rest),
            ComponentView::IpProto(o) => lemma_terms_round_trip(o, rest),
            ComponentView::Port(o) => lemma_terms_round_trip(o, rest),
            ComponentView::DestPort(o) => lemma_terms_round_trip(o, rest),
            ComponentView::SrcPort(o) => lemma_terms_round_trip(o, rest),
            ComponentView::IcmpType(o) => lemma_terms_round_trip(o, rest),
            ComponentView::IcmpCode(o) => lemma_terms_round_trip(o, rest),
            ComponentView::TcpFlags(o) => lemma_terms_round_trip(o, rest),
            ComponentView::PktLen(o) => lemma_terms_round_trip(o, rest),
            ComponentView::Dscp(o) => lemma_terms_round_trip(o, rest),
            ComponentView::Fragment(o) => lemma_terms_round_trip(o, rest),
        }
    }

    fn write(&self, out: &mut Vec<u8>, c: Plain) {
        encode_component(self, out);
        assert(out@ =~= old(out)@ + Component::octets(self@, c));
    }

    fn read(s: &[u8], c: Plain) -> (r: Option<(Component, usize)>) {
        decode_component(s)
    }
}

fn dup_terms<T: Datum<V = T>>(ops: &Vec<T>) -> (r: Vec<T>)
    requires
        forall|x: T| #[trigger] x@ == x,
    ensures
        r@ == ops@,
{
    let r = dup_all(ops.as_slice());
    assert(wire::views(r@) =~= r@);
    assert(wire::views(ops@) =~= ops@);
    r
}

fn same_terms<T: Datum<V = T>>(a: &Vec<T>, b: &Vec<T>) -> (r: bool)
    requires
        forall|x: T| #[trigger] x@ == x,
    ensures
        r == (a@ == b@),
{
    assert(wire::views(a@) =~= a@);
    assert(wire::views(b@) =~= b@);
    same_all(a.as_slice(), b.as_slice())
}

impl Datum for Component {
    fn dup(&self) -> (r: Component) {
        match self {
            Component::DestPrefix(p) => Component::DestPrefix(*p),
            Component::SrcPrefix(p) => Component::SrcPrefix(*p),
            Component::IpProto(o) => Component::IpProto(dup_terms(o)),
            Component::Port(o) => Component::Port(dup_terms(o)),
            Component::DestPort(o) => Component::DestPort(dup_terms(o)),
            Component::SrcPort(o) => Component::SrcPort(dup_terms(o)),
            Component::IcmpType(o) => Component::IcmpType(dup_terms(o)),
            Component::IcmpCode(o) => Component::IcmpCode(dup_terms(o)),
            Component::TcpFlags(o) => Component::TcpFlags(dup_terms(o)),
            Component::PktLen(o) => Component::PktLen(dup_terms(o)),
            Component::Dscp(o) => Component::Dscp(dup_terms(o)),
            Component::Fragment(o) => Component::Fragment(dup_terms(o)),
        }
    }

    fn same(&self, other: &Component) -> (r: bool) {
        match (self, other) {
            (Component::DestPrefix(a), Component::DestPrefix(b)) => a.same(b),
            (Component::SrcPrefix(a), Component::SrcPrefix(b)) => a.same(b),
            (Component::IpProto(a), Component::IpProto(b)) => same_terms(a, b),
            (Component::Port(a), Component::Port(b)) => same_terms(a, b),
            (Component::DestPort(a), Component::DestPort(b)) => same_terms(a, b),
            (Component::SrcPort(a), Component::SrcPort(b)) => same_terms(a, b),
            (Component::IcmpType(a), Component::IcmpType(b)) => same_terms(a, b),
            (Component::IcmpCode(a), Component::IcmpCode(b)) => same_terms(a, b),
            (Component::TcpFlags(a), Component::TcpFlags(b)) => same_terms(a, b),
            (Component::PktLen(a), Component::PktLen(b)) => same_terms(a, b),
            (Component::Dscp(a), Component::Dscp(b)) => same_terms(a, b),
            (Component::Fragment(a), Component::Fragment(b)) => same_terms(a, b),
            _ => false,
        }
    }
}

/// A flow specification: its components.
#[derive(Clone, PartialEq, Eq, Debug)]
pub struct FlowSpec {
    pub components: Vec<Component>,
}

impl View for FlowSpec {
    type V = Seq<ComponentView>;

    open spec fn view(&self) -> Seq<ComponentView> {
        wire::views(self.components@)
    }
}

impl Datum for FlowSpec {
    fn dup(&self) -> (r: FlowSpec) {
        FlowSpec { components: dup_all(self.components.as_slice()) }
    }

    fn same(&self, other: &FlowSpec) -> (r: bool) {
        same_all(self.components.as_slice(), other.components.as_slice())
    }
}

/// The components of one type, in the order in which they stand.
pub open spec fn of_kind(cs: Seq<ComponentView>, kind: int) -> Seq<ComponentView>
    decreases cs.len(),
{
    if cs.len() == 0 {
        Seq::empty()
    } else if cs.last().kind() == kind {
        of_kind(cs.drop_last(), kind).push(cs.last())
    } else {
        of_kind(cs.drop_last(), kind)
    }
}

/// The components of the types from `kind` on, by type, those of one type in the order
/// in which they stand.
pub open spec fn ordered_from(cs: Seq<ComponentView>, kind: int) -> Seq<ComponentView>
    decreases 13 - kind,
{
    if kind > 12 {
        Seq::empty()
    } else {
        of_kind(cs, kind) + ordered_from(cs, kind + 1)
    }
}

/// The components in increasing order of their types, those of one type as they stand.
pub open spec fn ordered(cs: Seq<ComponentView>) -> Seq<ComponentView> {
    ordered_from(cs, 1)
}

/// A length in front of a flow specification: one octet below 240, else two.
pub open spec fn length_octets(n: int) -> Seq<u8> {
    if n < 240 {
        seq![n as u8]
    } else {
        seq![(240 + n / 256 % 16) as u8, (n % 256) as u8]
    }
}

/// The components of a flow specification in increasing order of their types.
pub open spec fn body_octets(cs: Seq<ComponentView>) -> Seq<u8> {
    run::run_octets::<Component>(ordered(cs), Plain)
}

/// A flow specification: its length and its components.
pub open spec fn flow_octets(cs: Seq<ComponentView>) -> Seq<u8> {
    length_octets(body_octets(cs).len() as int) + body_octets(cs)
}

/// The flow specification at the front of `s`, and its length in octets.
pub open spec fn flow_front(s: Seq<u8>) -> Option<(Seq<ComponentView>, int)> {
    if s.len() == 0 || (s[0] >= 240 && s.len() < 2) {
        None
    } else {
        let (len, head) = if s[0] >= 240 {
            (s[0] % 16 * 256 + s[1], 2int)
        } else {
            (s[0] as int, 1int)
        };
        if s.len() < head + len {
            None
        } else {
            match run::run_values::<Component>(s.subrange(head, head + len), Plain) {
                Some(cs) => Some((cs, head + len)),
                None => None,
            }
        }
    }
}

impl FlowSpec {
    fn push_kind(&self, kind: u8, out: &mut Vec<u8>)
        ensures
            final(out)@ == old(out)@ + run::run_octets::<Component>(
                of_kind(self@, kind as int),
                Plain,
            ),
    {
        let ghost start = out@;
        let mut i: usize = 0;
        assert(self@.take(0) =~= Seq::empty());
        while i < self.components.len()
            invariant
                i <= self.components.len(),
                out@ =~= start + run::run_octets::<Component>(
                    of_kind(self@.take(i as int), kind as int),
                    Plain,
                ),
            decreases self.components.len() - i,
        {
            let c = &self.components[i];
            assert(self@.take(i + 1).drop_last() =~= self@.take(i as int));
            assert(self@.take(i + 1).last() == c@);
            if c.type_code() == kind {
                proof {
                    run::lemma_run_push::<Component>(
                        of_kind(self@.take(i as int), kind as int),
                        c@,
                        Plain,
                    );
                }
                c.write(out, Plain);
            }
            i = i + 1;
        }
        assert(self@.take(i as int) =~= self@);
    }

    /// Append the NLRI: the length, and the components in increasing order of their
    /// types.
    pub fn encode(&self, out: &mut Vec<u8>)
        ensures
            final(out)@ == old(out)@ + flow_octets(self@),
    {
        let mut body: Vec<u8> = Vec::new();
        let mut kind: u8 = 1;
        while kind <= 12
            invariant
                1 <= kind <= 13,
                body@ + run::run_octets::<Component>(ordered_from(self@, kind as int), Plain)
                    =~= body_octets(self@),
            decreases 13 - kind,
        {
            let ghost before = body@;
            self.push_kind(kind, &mut body);
            proof {
                run::lemma_run_concat::<Component>(
                    of_kind(self@, kind as int),
                    ordered_from(self@, kind + 1),
                    Plain,
                );
                assert(body@ + run::run_octets::<Component>(ordered_from(self@, kind + 1), Plain)
                    =~= before + run::run_octets::<Component>(
                    ordered_from(self@, kind as int),
                    Plain,
                ));
            }
            kind = kind + 1;
        }
        assert(body@ =~= body_octets(self@));
        let n = body.len();
        if n < 240 {
            out.push(n as u8);
        } else {
            out.push(240 + (n / 256 % 16) as u8);
            out.push((n % 256) as u8);
        }
        wire::push_all(out, body.as_slice());
        assert(out@ =~= old(out)@ + flow_octets(self@));
    }

    /// Decode one flow specification from the front of `buf`, with the number of octets
    /// it takes.
    pub fn decode(buf: &[u8]) -> (r: Option<(FlowSpec, usize)>)
        ensures
            match r {
                Some((f, used)) => flow_front(buf@) == Some((f@, used as int)) && 0 < used
                    <= buf@.len(),
                None => flow_front(buf@) is None,
            },
    {
        if buf.len() == 0 {
            return None;
        }
        let first = buf[0];
        let mut len: usize = first as usize;
        let mut head: usize = 1;
        if first >= 240 {
            if buf.len() < 2 {
                return None;
            }
            len = (first % 16) as usize * 256 + buf[1] as usize;
            head = 2;
        }
        if buf.len() < head + len {
            return None;
        }
        match run::read_run::<Component>(&buf[head..head + len], Plain) {
            Some(components) => Some((FlowSpec { components }, head + len)),
            None => None,
        }
    }

    /// The text: the components in increasing order of their types, with spaces between.
    pub fn to_string(&self) -> (r: String)
        ensures
            r@ == flow_text(ordered(self@)),
    {
        let mut out = String::new();
        let mut kind: u8 = 1;
        let mut first = true;
        let ghost mut done = Seq::<ComponentView>::empty();
        assert(done + ordered_from(self@, 1) =~= ordered(self@));
        assert(out@ =~= flow_text(done));
        while kind <= 12
            invariant
                1 <= kind <= 13,
                done + ordered_from(self@, kind as int) == ordered(self@),
                out@ == flow_text(done),
                first == (done.len() == 0),
            decreases 13 - kind,
        {
            let mut i: usize = 0;
            let ghost start = done;
            assert(self@.take(0) =~= Seq::empty());
            assert(start + of_kind(self@.take(0), kind as int) =~= done);
            while i < self.components.len()
                invariant
                    i <= self.components.len(),
                    done == start + of_kind(self@.take(i as int), kind as int),
                    out@ == flow_text(done),
                    first == (done.len() == 0),
                decreases self.components.len() - i,
            {
                let c = &self.components[i];
                assert(self@.take(i + 1).drop_last() =~= self@.take(i as int));
                assert(self@.take(i + 1).last() == c@);
                if c.type_code() == kind {
                    if !first {
                        out.append(" ");
                    }
                    first = false;
                    push_component(&mut out, c);
                    proof {
                        assert(done.push(c@).drop_last() =~= done);
                        done = done.push(c@);
                        assert(out@ =~= flow_text(done));
                        assert(start + of_kind(self@.take(i + 1), kind as int) =~= done);
                    }
                } else {
                    assert(of_kind(self@.take(i + 1), kind as int) =~= of_kind(
                        self@.take(i as int),
                        kind as int,
                    ));
                }
                i = i + 1;
            }
            proof {
                assert(self@.take(i as int) =~= self@);
                assert(start + ordered_from(self@, kind as int) =~= done + ordered_from(
                    self@,
                    kind + 1,
                ));
            }
            kind = kind + 1;
        }
        assert(done =~= ordered(self@));
        out
    }
}

impl Record for FlowSpec {
    type Ctx = Plain;

    open spec fn carried(v: Seq<ComponentView>, c: Plain) -> bool {
        &&& forall|i: int| 0 <= i < v.len() ==> (#[trigger] v[i]).encodable()
        &&& ordered(v) == v
        &&& body_octets(v).len() < 4096
    }

    open spec fn octets(v: Seq<ComponentView>, c: Plain) -> Seq<u8> {
        flow_octets(v)
    }

    open spec fn front(s: Seq<u8>, c: Plain) -> Option<(Seq<ComponentView>, int)> {
        flow_front(s)
    }

    proof fn lemma_front(v: Seq<ComponentView>, c: Plain, rest: Seq<u8>) {
        lemma_flow_round_trip(v, rest);
    }

    fn write(&self, out: &mut Vec<u8>, c: Plain) {
        self.encode(out);
    }

    fn read(s: &[u8], c: Plain) -> (r: Option<(FlowSpec, usize)>) {
        FlowSpec::decode(s)
    }
}

/// Decode a run of flow specifications that fills `buf`; `None` where one of them is
/// malformed.
pub fn decode_nlris(buf: &[u8]) -> (r: Option<Vec<FlowSpec>>)
    ensures
        match r {
            Some(vs) => run::run_values::<FlowSpec>(buf@, Plain) == Some(wire::views(vs@)),
            None => run::run_values::<FlowSpec>(buf@, Plain) is None,
        },
{
    run::read_run::<FlowSpec>(buf, Plain)
}

proof fn lemma_of_kind(cs: Seq<ComponentView>, kind: int)
    ensures
        forall|i: int|
            0 <= i < of_kind(cs, kind).len() ==> (#[trigger] of_kind(cs, kind)[i]).kind() == kind
                && cs.contains(of_kind(cs, kind)[i]),
    decreases cs.len(),
{
    if cs.len() > 0 {
        lemma_of_kind(cs.drop_last(), kind);
        assert forall|i: int| 0 <= i < of_kind(cs, kind).len() implies (#[trigger] of_kind(
            cs,
            kind,
        )[i]).kind() == kind && cs.contains(of_kind(cs, kind)[i]) by {
            if i < of_kind(cs.drop_last(), kind).len() {
                let c = of_kind(cs.drop_last(), kind)[i];
                assert(cs.drop_last().contains(c));
                let j = choose|j: int| 0 <= j < cs.drop_last().len() && cs.drop_last()[j] == c;
                assert(cs[j] == c);
            } else {
                assert(cs[cs.len() - 1] == cs.last());
            }
        }
    }
}

proof fn lemma_ordered_from(cs: Seq<ComponentView>, kind: int)
    requires
        1 <= kind,
    ensures
        forall|i: int|
            0 <= i < ordered_from(cs, kind).len() ==> (#[trigger] ordered_from(cs, kind)[i]).kind()
                >= kind && cs.contains(ordered_from(cs, kind)[i]),
        forall|i: int, j: int|
            0 <= i < j < ordered_from(cs, kind).len() ==> (#[trigger] ordered_from(
                cs,
                kind,
            )[i]).kind() <= (#[trigger] ordered_from(cs, kind)[j]).kind(),
    decreases 13 - kind,
{
    if kind <= 12 {
        lemma_of_kind(cs, kind);
        lemma_ordered_from(cs, kind + 1);
        let a = of_kind(cs, kind);
        let b = ordered_from(cs, kind + 1);
        assert(ordered_from(cs, kind) == a + b);
        assert forall|i: int| 0 <= i < (a + b).len() implies (#[trigger] (a + b)[i]).kind() >= kind
            && cs.contains((a + b)[i]) by {
            if i < a.len() {
                assert((a + b)[i] == a[i]);
            } else {
                assert((a + b)[i] == b[i - a.len()]);
            }
        }
        assert forall|i: int, j: int| 0 <= i < j < (a + b).len() implies (#[trigger] (a
            + b)[i]).kind() <= (#[trigger] (a + b)[j]).kind() by {
            if i < a.len() {
                assert((a + b)[i] == a[i]);
            } else {
                assert((a + b)[i] == b[i - a.len()]);
            }
            if j < a.len() {
                assert((a + b)[j] == a[j]);
            } else {
                assert((a + b)[j] == b[j - a.len()]);
            }
        }
    }
}

/// Components are written in increasing order of their types, and nothing is written
/// that is not there.
pub proof fn lemma_ordered_by_type(cs: Seq<ComponentView>)
    ensures
        forall|i: int, j: int|
            0 <= i < j < ordered(cs).len() ==> (#[trigger] ordered(cs)[i]).kind() <= (
            #[trigger] ordered(cs)[j]).kind(),
        forall|i: int| 0 <= i < ordered(cs).len() ==> cs.contains(#[trigger] ordered(cs)[i]),
{
    lemma_ordered_from(cs, 1);
}

/// How often a component stands in a list.
pub open spec fn count(cs: Seq<ComponentView>, c: ComponentView) -> int
    decreases cs.len(),
{
    if cs.len() == 0 {
        0
    } else {
        count(cs.drop_last(), c) + (if cs.last() == c {
            1int
        } else {
            0
        })
    }
}

proof fn lemma_count_concat(a: Seq<ComponentView>, b: Seq<ComponentView>, c: ComponentView)
    ensures
        count(a + b, c) == count(a, c) + count(b, c),
    decreases b.len(),
{
    if b.len() == 0 {
        assert(a + b =~= a);
    } else {
        lemma_count_concat(a, b.drop_last(), c);
        assert((a + b).drop_last() =~= a + b.drop_last());
        assert((a + b).last() == b.last());
    }
}

proof fn lemma_count_of_kind(cs: Seq<ComponentView>, kind: int, c: ComponentView)
    ensures
        count(of_kind(cs, kind), c) == (if c.kind() == kind {
            count(cs, c)
        } else {
            0
        }),
    decreases cs.len(),
{
    if cs.len() > 0 {
        lemma_count_of_kind(cs.drop_last(), kind, c);
        if cs.last().kind() == kind {
            assert(of_kind(cs, kind).drop_last() =~= of_kind(cs.drop_last(), kind));
        }
    }
}

proof fn lemma_count_ordered_from(cs: Seq<ComponentView>, kind: int, c: ComponentView)
    requires
        1 <= kind,
    ensures
        count(ordered_from(cs, kind), c) == (if c.kind() >= kind {
            count(cs, c)
        } else {
            0
        }),
    decreases 13 - kind,
{
    if kind <= 12 {
        lemma_count_of_kind(cs, kind, c);
        lemma_count_ordered_from(cs, kind + 1, c);
        lemma_count_concat(of_kind(cs, kind), ordered_from(cs, kind + 1), c);
    }
}

/// Ordering loses and repeats no component.
pub proof fn lemma_ordered_keeps(cs: Seq<ComponentView>, c: ComponentView)
    ensures
        count(ordered(cs), c) == count(cs, c),
{
    lemma_count_ordered_from(cs, 1, c);
}

proof fn lemma_flow_frame(body: Seq<u8>, rest: Seq<u8>)
    requires
        body.len() < 4096,
    ensures
        ({
            let n = body.len() as int;
            let s = length_octets(n) + body + rest;
            let (len, head) = if s[0] >= 240 {
                (s[0] % 16 * 256 + s[1], 2int)
            } else {
                (s[0] as int, 1int)
            };
            &&& (s[0] >= 240 ==> s.len() >= 2)
            &&& len == n
            &&& head == length_octets(n).len()
            &&& s.len() >= head + len
            &&& s.subrange(head, head + len) == body
        }),
{
    let n = body.len() as int;
    let s = length_octets(n) + body + rest;
    let head = length_octets(n);
    assert(s[0] == head[0]);
    if n >= 240 {
        assert(s[1] == head[1]);
    }
    assert(s.subrange(head.len() as int, head.len() + n) =~= body);
}

/// Whatever the order of its components, a flow specification is read back as its
/// components in increasing order of their types.
pub proof fn lemma_flow_round_trip(cs: Seq<ComponentView>, rest: Seq<u8>)
    requires
        forall|i: int| 0 <= i < cs.len() ==> (#[trigger] cs[i]).encodable(),
        body_octets(cs).len() < 4096,
    ensures
        flow_octets(cs).len() > 0,
        flow_front(flow_octets(cs) + rest) == Some((ordered(cs), flow_octets(cs).len() as int)),
{
    lemma_flow_frame(body_octets(cs), rest);
    lemma_ordered_by_type(cs);
    assert forall|i: int| 0 <= i < ordered(cs).len() implies Component::carried(
        #[trigger] ordered(cs)[i],
        Plain,
    ) by {
        assert(cs.contains(ordered(cs)[i]));
    }
    run::lemma_run_round_trip::<Component>(ordered(cs), Plain);
}

/// How a term is joined to the one before it.
pub open spec fn joint(and: bool, first: bool) -> Seq<char> {
    if first {
        Seq::empty()
    } else if and {
        "&"@
    } else {
        "|"@
    }
}

/// How a numeric term compares.
pub open spec fn sign(op: NumOp) -> Seq<char> {
    text::given(op.lt, "<"@) + text::given(op.gt, ">"@) + text::given(op.eq, "="@)
}

/// The text of a numeric term: how it is joined, how it compares, and the value.
pub open spec fn num_text(op: NumOp, first: bool) -> Seq<char> {
    joint(op.and, first) + sign(op) + text::decimal(op.value as nat)
}

pub open spec fn num_ops_text(ops: Seq<NumOp>) -> Seq<char>
    decreases ops.len(),
{
    if ops.len() == 0 {
        Seq::empty()
    } else {
        num_ops_text(ops.drop_last()) + num_text(ops.last(), ops.len() == 1)
    }
}

/// The text of a bitmask term.
pub open spec fn bit_text(op: BitOp, first: bool) -> Seq<char> {
    joint(op.and, first) + (text::given(op.not, "!"@) + text::given(op.match_, "="@)) + ("0x"@
        + text::hexadecimal(op.value as nat))
}

pub open spec fn bit_ops_text(ops: Seq<BitOp>) -> Seq<char>
    decreases ops.len(),
{
    if ops.len() == 0 {
        Seq::empty()
    } else {
        bit_ops_text(ops.drop_last()) + bit_text(ops.last(), ops.len() == 1)
    }
}

/// The text of a component.
pub open spec fn component_text(c: ComponentView) -> Seq<char> {
    match c {
        ComponentView::DestPrefix(p) => "dst "@ + text::slashed(p),
        ComponentView::SrcPrefix(p) => "src "@ + text::slashed(p),
        ComponentView::IpProto(o) => "proto "@ + num_ops_text(o),
        ComponentView::Port(o) => "port "@ + num_ops_text(o),
        ComponentView::DestPort(o) => "dport "@ + num_ops_text(o),
        ComponentView::SrcPort(o) => "sport "@ + num_ops_text(o),
        ComponentView::IcmpType(o) => "icmp-type "@ + num_ops_text(o),
        ComponentView::IcmpCode(o) => "icmp-code "@ + num_ops_text(o),
        ComponentView::TcpFlags(o) => "tcp-flags "@ + bit_ops_text(o),
        ComponentView::PktLen(o) => "len "@ + num_ops_text(o),
        ComponentView::Dscp(o) => "dscp "@ + num_ops_text(o),
        ComponentView::Fragment(o) => "fragment "@ + bit_ops_text(o),
    }
}

/// The texts of components, with spaces between.
pub open spec fn flow_text(cs: Seq<ComponentView>) -> Seq<char>
    decreases cs.len(),
{
    if cs.len() == 0 {
        Seq::empty()
    } else if cs.len() == 1 {
        component_text(cs[0])
    } else {
        flow_text(cs.drop_last()) + " "@ + component_text(cs.last())
    }
}

fn push_joint(out: &mut String, and: bool, first: bool)
    ensures
        final(out)@ == old(out)@ + joint(and, first),
{
    if !first {
        if and {
            out.append("&");
        } else {
            out.append("|");
        }
    }
    assert(out@ =~= old(out)@ + joint(and, first));
}

fn push_sign(out: &mut String, op: NumOp)
    ensures
        final(out)@ == old(out)@ + sign(op),
{
    text::push_given(out, op.lt, "<");
    text::push_given(out, op.gt, ">");
    text::push_given(out, op.eq, "=");
    assert(out@ =~= old(out)@ + sign(op));
}

fn push_num_op(out: &mut String, op: NumOp, first: bool)
    ensures
        final(out)@ == old(out)@ + num_text(op, first),
{
    push_joint(out, op.and, first);
    push_sign(out, op);
    text::push_number(out, op.value);
    assert(out@ =~= old(out)@ + num_text(op, first));
}

fn push_num_ops(out: &mut String, ops: &Vec<NumOp>)
    ensures
        final(out)@ == old(out)@ + num_ops_text(ops@),
{
    let mut i: usize = 0;
    assert(out@ =~= old(out)@ + num_ops_text(ops@.take(0)));
    while i < ops.len()
        invariant
            i <= ops.len(),
            out@ == old(out)@ + num_ops_text(ops@.take(i as int)),
        decreases ops.len() - i,
    {
        push_num_op(out, ops[i], i == 0);
        assert(ops@.take(i + 1).drop_last() =~= ops@.take(i as int));
        assert(out@ =~= old(out)@ + num_ops_text(ops@.take(i + 1)));
        i = i + 1;
    }
    assert(ops@.take(i as int) =~= ops@);
}

fn push_bit_op(out: &mut String, op: BitOp, first: bool)
    ensures
        final(out)@ == old(out)@ + bit_text(op, first),
{
    push_joint(out, op.and, first);
    text::push_given(out, op.not, "!");
    text::push_given(out, op.match_, "=");
    out.append("0x");
    text::push_hexadecimal(out, op.value);
    assert(out@ =~= old(out)@ + bit_text(op, first));
}

fn push_bit_ops(out: &mut String, ops: &Vec<BitOp>)
    ensures
        final(out)@ == old(out)@ + bit_ops_text(ops@),
{
    let mut i: usize = 0;
    assert(out@ =~= old(out)@ + bit_ops_text(ops@.take(0)));
    while i < ops.len()
        invariant
            i <= ops.len(),
            out@ == old(out)@ + bit_ops_text(ops@.take(i as int)),
        decreases ops.len() - i,
    {
        push_bit_op(out, ops[i], i == 0);
        assert(ops@.take(i + 1).drop_last() =~= ops@.take(i as int));
        assert(out@ =~= old(out)@ + bit_ops_text(ops@.take(i + 1)));
        i = i + 1;
    }
    assert(ops@.take(i as int) =~= ops@);
}

fn push_component(out: &mut String, c: &Component)
    ensures
        final(out)@ == old(out)@ + component_text(c@),
{
    match c {
        Component::DestPrefix(p) => {
            out.append("dst ");
            text::push_slashed(out, p);
        },
        Component::SrcPrefix(p) => {
            out.append("src ");
            text::push_slashed(out, p);
        },
        Component::IpProto(o) => {
            out.append("proto ");
            push_num_ops(out, o);
        },
        Component::Port(o) => {
            out.append("port ");
            push_num_ops(out, o);
        },
        Component::DestPort(o) => {
            out.append("dport ");
            push_num_ops(out, o);
        },
        Component::SrcPort(o) => {
            out.append("sport ");
            push_num_ops(out, o);
        },
        Component::IcmpType(o) => {
            out.append("icmp-type ");
            push_num_ops(out, o);
        },
        Component::IcmpCode(o) => {
            out.append("icmp-code ");
            push_num_ops(out, o);
        },
        Component::TcpFlags(o) => {
            out.append("tcp-flags ");
            push_bit_ops(out, o);
        },
        Component::PktLen(o) => {
            out.append("len ");
            push_num_ops(out, o);
        },
        Component::Dscp(o) => {
            out.append("dscp ");
            push_num_ops(out, o);
        },
        Component::Fragment(o) => {
            out.append("fragment ");
            push_bit_ops(out, o);
        },
    }
    assert(out@ =~= old(out)@ + component_text(c@));
}

/// What to do with the traffic (§7).
#[derive(Clone, Copy, PartialEq, Eq, Structural, Debug)]
pub enum Action {
    /// Limit it to a rate in bytes per second, held as the bits of an IEEE 754
    /// single-precision number. Zero discards everything.
    RateLimit(u32),
    /// Set its DSCP.
    Marking(u8),
}

/// The extended community of an action.
pub open spec fn action_octets(a: Action) -> Seq<u8> {
    match a {
        Action::RateLimit(rate) => seq![0x80u8, 0x06, 0, 0] + wire::be32(rate),
        Action::Marking(dscp) => seq![0x80u8, 0x09, 0, 0, 0, 0, 0, dscp % 64],
    }
}

/// The action of an extended community.
pub open spec fn action_of(ec: Seq<u8>) -> Option<Action> {
    if ec[0] == 0x80 && ec[1] == 0x06 {
        Some(Action::RateLimit(wire::u32_at(ec, 4)))
    } else if ec[0] == 0x80 && ec[1] == 0x09 {
        Some(Action::Marking(ec[7] % 64))
    } else {
        None
    }
}

/// Whether an action discards everything: its rate is a zero of either sign.
pub open spec fn discards(a: Action) -> bool {
    a == Action::RateLimit(0) || a == Action::RateLimit(0x8000_0000)
}

impl Action {
    /// Discard everything: the rate zero.
    pub fn discard() -> (r: Action)
        ensures
            r == Action::RateLimit(0),
    {
        Action::RateLimit(0)
    }

    /// Whether everything is discarded.
    pub fn is_discard(&self) -> (r: bool)
        ensures
            r == discards(*self),
    {
        match self {
            Action::RateLimit(rate) => *rate == 0 || *rate == 0x8000_0000,
            Action::Marking(_) => false,
        }
    }

    /// The extended community.
    pub fn encode(self) -> (r: [u8; 8])
        ensures
            r@ == action_octets(self),
    {
        let mut out: Vec<u8> = Vec::new();
        out.push(0x80);
        match self {
            Action::RateLimit(rate) => {
                out.push(0x06);
                wire::push_u16(&mut out, 0);
                wire::push_u32(&mut out, rate);
            },
            Action::Marking(dscp) => {
                out.push(0x09);
                wire::push_u32(&mut out, 0);
                out.push(0);
                out.push(dscp % 64);
            },
        }
        assert(out@ =~= action_octets(self));
        let r = wire::read_arr8(out.as_slice(), 0);
        assert(r@ =~= out@);
        r
    }

    /// The action of an extended community; `None` where it is none.
    pub fn decode(ec: &[u8; 8]) -> (r: Option<Action>)
        ensures
            r == action_of(ec@),
    {
        if ec[0] == 0x80 && ec[1] == 0x06 {
            Some(Action::RateLimit(wire::read_u32(ec.as_slice(), 4)))
        } else if ec[0] == 0x80 && ec[1] == 0x09 {
            Some(Action::Marking(ec[7] % 64))
        } else {
            None
        }
    }

    /// The text of an action whose text holds no fraction: `None` for a rate that is not
    /// zero.
    pub fn to_string(&self) -> (r: Option<String>)
        ensures
            match *self {
                Action::RateLimit(_) => if discards(*self) {
                    r matches Some(s) && s@ == "discard"@
                } else {
                    r is None
                },
                Action::Marking(d) => r matches Some(s) && s@ == "mark dscp "@ + text::decimal(
                    d as nat,
                ),
            },
    {
        let mut out = String::new();
        match self {
            Action::RateLimit(_) => {
                if !self.is_discard() {
                    return None;
                }
                out.append("discard");
                assert(out@ =~= "discard"@);
            },
            Action::Marking(d) => {
                out.append("mark dscp ");
                text::push_decimal(&mut out, *d as u32);
                assert(out@ =~= "mark dscp "@ + text::decimal(*d as nat));
            },
        }
        Some(out)
    }
}

/// An action is read back from its extended community, a marking with the low six bits
/// of its DSCP.
pub proof fn lemma_action_round_trip(a: Action)
    ensures
        action_of(action_octets(a)) == Some(
            match a {
                Action::RateLimit(_) => a,
                Action::Marking(d) => Action::Marking(d % 64),
            },
        ),
{
    if let Action::RateLimit(rate) = a {
        wire::lemma_u32_back(seq![0x80u8, 0x06, 0, 0], rate, Seq::empty());
        assert(action_octets(a) =~= action_octets(a) + Seq::<u8>::empty());
    }
}

/// Terms are read one behind the other: two bits of the operator octet tell whether the
/// value has one octet, two, four or eight, the highest bit ends the list, and the others
/// are the comparison.
pub proof fn lemma_one_term_at_a_time(s: Seq<u8>)
    requires
        s.len() > 0,
    ensures
        ({
            let w = s[0] as int / 16 % 4;
            let n = if w == 0 {
                1int
            } else if w == 1 {
                2
            } else if w == 2 {
                4
            } else {
                8
            };
            let num = terms_front::<NumOp>(s);
            let bit = terms_front::<BitOp>(s);
            let rest = s.subrange(1 + n, s.len() as int);
            &&& s.len() < 1 + n ==> num is None && bit is None
            &&& s.len() >= 1 + n && s[0] >= 128 ==> (num matches Some((o, used)) && o.len() == 1 && used
                == 1 + n) && (bit matches Some((o, used)) && o.len() == 1 && used == 1 + n)
            &&& s.len() >= 1 + n && s[0] < 128 ==> (num is Some <==> terms_front::<NumOp>(rest) is Some)
                && (bit is Some <==> terms_front::<BitOp>(rest) is Some)
            &&& num matches Some((o, used)) ==> {
                &&& o[0].and == (s[0] / 64 % 2 == 1)
                &&& o[0].lt == (s[0] / 4 % 2 == 1)
                &&& o[0].gt == (s[0] / 2 % 2 == 1)
                &&& o[0].eq == (s[0] % 2 == 1)
                &&& n == 1 ==> o[0].value == s[1]
                &&& n == 2 ==> o[0].value == s[1] * 256 + s[2]
                &&& n == 4 ==> o[0].value == s[1] * 16777216 + s[2] * 65536 + s[3] * 256 + s[4]
                &&& n == 8 ==> o[0].value == (s[1] * 16777216 + s[2] * 65536 + s[3] * 256 + s[4])
                    * 4294967296 + s[5] * 16777216 + s[6] * 65536 + s[7] * 256 + s[8]
                &&& s[0] < 128 ==> (terms_front::<NumOp>(rest) matches Some((p, m)) && o == seq![o[0]]
                    + p && used == 1 + n + m)
            }
            &&& bit matches Some((o, used)) ==> {
                &&& o[0].and == (s[0] / 64 % 2 == 1)
                &&& o[0].not == (s[0] / 2 % 2 == 1)
                &&& o[0].match_ == (s[0] % 2 == 1)
                &&& n == 1 ==> o[0].value == s[1]
                &&& n == 2 ==> o[0].value == s[1] * 256 + s[2]
                &&& n == 4 ==> o[0].value == s[1] * 16777216 + s[2] * 65536 + s[3] * 256 + s[4]
                &&& s[0] < 128 ==> (terms_front::<BitOp>(rest) matches Some((p, m)) && o == seq![o[0]]
                    + p && used == 1 + n + m)
            }
        }),
{
}

/// What the type of a component says: 1 and 2 hold a prefix, 9 and 12 terms on bits, 3 to 8,
/// 10 and 11 comparisons; no other type is understood.
pub proof fn lemma_components_by_type(s: Seq<u8>)
    requires
        s.len() > 0,
    ensures
        ({
            let rest = s.drop_first();
            let r = component_front(s);
            &&& s[0] == 1 || s[0] == 2 ==> (r is Some <==> bgp::nlri_v4(rest) is Some)
            &&& s[0] == 9 || s[0] == 12 ==> (r is Some <==> terms_front::<BitOp>(rest) is Some)
            &&& 3 <= s[0] <= 8 || s[0] == 10 || s[0] == 11 ==> (r is Some <==> terms_front::<NumOp>(
                rest,
            ) is Some)
            &&& s[0] == 0 || s[0] > 12 ==> r is None
            &&& r matches Some((c, used)) ==> {
                &&& c matches ComponentView::DestPrefix(p) ==> bgp::nlri_v4(rest) == Some((p, used - 1))
                &&& c matches ComponentView::SrcPrefix(p) ==> bgp::nlri_v4(rest) == Some((p, used - 1))
                &&& c matches ComponentView::TcpFlags(o) ==> terms_front::<BitOp>(rest) == Some(
                    (o, used - 1),
                )
                &&& c matches ComponentView::Fragment(o) ==> terms_front::<BitOp>(rest) == Some(
                    (o, used - 1),
                )
                &&& c is DestPrefix <==> s[0] == 1
                &&& c is SrcPrefix <==> s[0] == 2
                &&& c is IpProto <==> s[0] == 3
                &&& c is Port <==> s[0] == 4
                &&& c is DestPort <==> s[0] == 5
                &&& c is SrcPort <==> s[0] == 6
                &&& c is IcmpType <==> s[0] == 7
                &&& c is IcmpCode <==> s[0] == 8
                &&& c is TcpFlags <==> s[0] == 9
                &&& c is PktLen <==> s[0] == 10
                &&& c is Dscp <==> s[0] == 11
                &&& c is Fragment <==> s[0] == 12
            }
        }),
{
    assert(wire::from_at(s, 1) =~= s.drop_first());
}

/// The length of a flow specification: one octet below 240, or the low twelve bits of two.
/// One that is cut short is refused.
pub proof fn lemma_lengths_of_flows(s: Seq<u8>, n: int)
    ensures
        s.len() == 0 ==> flow_front(s) is None,
        s.len() > 0 && s[0] < 240 && s.len() < 1 + s[0] ==> flow_front(s) is None,
        s.len() > 0 && s[0] >= 240 && (s.len() < 2 || s.len() < 2 + (s[0] - 240) * 256 + s[1])
            ==> flow_front(s) is None,
        flow_front(s) matches Some((_, used)) ==> used == (if s[0] < 240 {
            1 + s[0]
        } else {
            2 + (s[0] - 240) * 256 + s[1]
        }),
        0 <= n < 240 ==> length_octets(n).len() == 1 && length_octets(n)[0] == n,
        240 <= n < 4096 ==> length_octets(n).len() == 2 && (length_octets(n)[0] - 240) * 256
            + length_octets(n)[1] == n,
{
}

/// Which extended communities are actions: type 0x80 with sub-type 6, whose last four octets
/// are the rate, and with sub-type 9, whose last six bits are the mark. A rate whose bits
/// are all zero but for the sign discards.
pub proof fn lemma_actions_by_octets(ec: Seq<u8>, rate: u32)
    ensures
        action_of(ec) is Some <==> ec[0] == 128 && (ec[1] == 6 || ec[1] == 9),
        action_of(ec) matches Some(a) ==> (a is RateLimit <==> ec[1] == 6) && (
        a matches Action::RateLimit(r) ==> r == ec[4] * 16777216 + ec[5] * 65536 + ec[6] * 256 + ec[7])
            && (a matches Action::Marking(d) ==> d < 64 && (ec[7] - d) % 64 == 0),
        discards(Action::RateLimit(rate)) <==> rate % 0x8000_0000 == 0,
        !discards(Action::Marking(0)),
{
}

/// How comparisons are written: less, greater and equal, each where it counts, in this order,
/// and joined to the one before by an ampersand or a bar; a mask is negated by an exclamation
/// mark.
pub proof fn lemma_how_terms_are_written(op: NumOp, bit: BitOp)
    ensures
        op.lt && !op.gt && !op.eq ==> sign(op) == "<"@,
        op.lt && !op.gt && op.eq ==> sign(op) == "<="@,
        !op.lt && op.gt && !op.eq ==> sign(op) == ">"@,
        !op.lt && op.gt && op.eq ==> sign(op) == ">="@,
        op.lt && op.gt && !op.eq ==> sign(op) == "<>"@,
        !op.lt && !op.gt && op.eq ==> sign(op) == "="@,
        !op.lt && !op.gt && !op.eq ==> sign(op).len() == 0,
        num_text(op, true) == sign(op) + text::decimal(op.value as nat),
        op.and ==> num_text(op, false) == "&"@ + num_text(op, true),
        !op.and ==> num_text(op, false) == "|"@ + num_text(op, true),
        bit.not && !bit.match_ ==> bit_text(bit, true) == "!"@ + "0x"@ + text::hexadecimal(
            bit.value as nat,
        ),
        !bit.not && bit.match_ ==> bit_text(bit, true) == "="@ + "0x"@ + text::hexadecimal(
            bit.value as nat,
        ),
        !bit.not && !bit.match_ ==> bit_text(bit, true) == "0x"@ + text::hexadecimal(
            bit.value as nat,
        ),
        bit.and ==> bit_text(bit, false) == "&"@ + bit_text(bit, true),
        !bit.and ==> bit_text(bit, false) == "|"@ + bit_text(bit, true),
{
    reveal_strlit("<");
    reveal_strlit(">");
    reveal_strlit("=");
    reveal_strlit("<=");
    reveal_strlit(">=");
    reveal_strlit("<>");
    let h = "0x"@ + text::hexadecimal(bit.value as nat);
    assert(num_text(op, true) =~= sign(op) + text::decimal(op.value as nat));
    assert(num_text(op, false) =~= joint(op.and, false) + num_text(op, true));
    assert(bit_text(bit, false) =~= joint(bit.and, false) + bit_text(bit, true));
    assert(bit_text(bit, true) =~= text::given(bit.not, "!"@) + text::given(bit.match_, "="@) + h);
    assert("!"@ + h =~= "!"@ + "0x"@ + text::hexadecimal(bit.value as nat));
    assert("="@ + h =~= "="@ + "0x"@ + text::hexadecimal(bit.value as nat));
}

} // verus!
