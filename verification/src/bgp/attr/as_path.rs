//! AS paths: their segments, and how a path that passed through speakers with 16-bit AS
//! numbers is put together again.

use vstd::prelude::*;

use crate::bgp;
use crate::bgp::as_trans_fit;
use crate::order::{dup_all, Datum};
use crate::run::Record;
use crate::wire;

verus! {

/// One segment of an AS path.
#[derive(Clone, PartialEq, Eq, Debug)]
pub enum AsPathSegment {
    /// AS numbers in no order.
    AsSet(Vec<u32>),
    /// AS numbers in the order in which the route passed them.
    Sequence(Vec<u32>),
    /// Member AS numbers of a confederation, in order (RFC 5065).
    ConfedSequence(Vec<u32>),
    /// Member AS numbers of a confederation, in no order.
    ConfedSet(Vec<u32>),
}

/// A segment as a mathematical value.
pub enum SegmentView {
    AsSet(Seq<u32>),
    Sequence(Seq<u32>),
    ConfedSequence(Seq<u32>),
    ConfedSet(Seq<u32>),
}

impl View for AsPathSegment {
    type V = SegmentView;

    open spec fn view(&self) -> SegmentView {
        match *self {
            AsPathSegment::AsSet(a) => SegmentView::AsSet(a@),
            AsPathSegment::Sequence(a) => SegmentView::Sequence(a@),
            AsPathSegment::ConfedSequence(a) => SegmentView::ConfedSequence(a@),
            AsPathSegment::ConfedSet(a) => SegmentView::ConfedSet(a@),
        }
    }
}

impl SegmentView {
    /// The AS numbers.
    pub open spec fn numbers(self) -> Seq<u32> {
        match self {
            SegmentView::AsSet(a) => a,
            SegmentView::Sequence(a) => a,
            SegmentView::ConfedSequence(a) => a,
            SegmentView::ConfedSet(a) => a,
        }
    }

    /// The type octet.
    pub open spec fn kind(self) -> u8 {
        match self {
            SegmentView::AsSet(_) => 1,
            SegmentView::Sequence(_) => 2,
            SegmentView::ConfedSequence(_) => 3,
            SegmentView::ConfedSet(_) => 4,
        }
    }

    /// The segment of a type.
    pub open spec fn of(kind: u8, a: Seq<u32>) -> Option<SegmentView> {
        if kind == 1 {
            Some(SegmentView::AsSet(a))
        } else if kind == 2 {
            Some(SegmentView::Sequence(a))
        } else if kind == 3 {
            Some(SegmentView::ConfedSequence(a))
        } else if kind == 4 {
            Some(SegmentView::ConfedSet(a))
        } else {
            None
        }
    }

    /// Whether the segment belongs to a confederation.
    pub open spec fn confederation(self) -> bool {
        self is ConfedSequence || self is ConfedSet
    }
}

/// The width of an AS number in octets.
pub open spec fn asn_width(four: bool) -> int {
    if four {
        4
    } else {
        2
    }
}

/// An AS number of a width; one that does not fit is replaced.
pub open spec fn asn_octets(asn: u32, four: bool) -> Seq<u8> {
    if four {
        wire::be32(asn)
    } else {
        wire::be16(bgp::fitted(asn))
    }
}

/// The AS number of a width at offset `i`.
pub open spec fn asn_at(s: Seq<u8>, i: int, four: bool) -> u32 {
    if four {
        wire::u32_at(s, i)
    } else {
        wire::u16_at(s, i) as u32
    }
}

/// AS numbers one behind the other.
pub open spec fn asns_octets(a: Seq<u32>, four: bool) -> Seq<u8>
    decreases a.len(),
{
    if a.len() == 0 {
        Seq::empty()
    } else {
        asns_octets(a.drop_last(), four) + asn_octets(a.last(), four)
    }
}

/// The `n` AS numbers behind the first two octets of `s`.
pub open spec fn asns_in(s: Seq<u8>, n: int, four: bool) -> Seq<u32> {
    Seq::new(n as nat, |k: int| asn_at(s, 2 + k * asn_width(four), four))
}

/// A segment: type, number of AS numbers, AS numbers.
pub open spec fn segment_octets(v: SegmentView, four: bool) -> Seq<u8> {
    seq![v.kind(), (v.numbers().len() % 256) as u8] + asns_octets(v.numbers(), four)
}

/// The segment at the front of `s` and its length in octets; `None` where it is cut
/// short, its type is unknown or it holds the reserved AS number zero (RFC 7607).
pub open spec fn segment_front(s: Seq<u8>, four: bool) -> Option<(SegmentView, int)> {
    if s.len() < 2 || s.len() < 2 + s[1] * asn_width(four) {
        None
    } else {
        let a = asns_in(s, s[1] as int, four);
        match SegmentView::of(s[0], a) {
            Some(v) => if a.contains(0) {
                None
            } else {
                Some((v, 2 + s[1] * asn_width(four)))
            },
            None => None,
        }
    }
}

/// The segments that survive their encoding: at most 255 AS numbers, none of them zero
/// and each fitting the width.
pub open spec fn segment_encodable(v: SegmentView, four: bool) -> bool {
    &&& v.numbers().len() <= 255
    &&& !v.numbers().contains(0)
    &&& (four || forall|i: int| 0 <= i < v.numbers().len() ==> #[trigger] v.numbers()[i] <= 65535)
}

fn copy_asns(a: &Vec<u32>) -> (r: Vec<u32>)
    ensures
        r@ == a@,
{
    let mut out: Vec<u32> = Vec::new();
    let mut i: usize = 0;
    while i < a.len()
        invariant
            i <= a.len(),
            out@ == a@.take(i as int),
        decreases a.len() - i,
    {
        out.push(a[i]);
        assert(a@.take(i + 1) =~= a@.take(i as int).push(a@[i as int]));
        i = i + 1;
    }
    assert(a@.take(i as int) =~= a@);
    out
}

fn same_asns(a: &Vec<u32>, b: &Vec<u32>) -> (r: bool)
    ensures
        r == (a@ == b@),
{
    if a.len() != b.len() {
        return false;
    }
    let mut i: usize = 0;
    while i < a.len()
        invariant
            i <= a.len(),
            a.len() == b.len(),
            forall|j: int| 0 <= j < i ==> a@[j] == b@[j],
        decreases a.len() - i,
    {
        if a[i] != b[i] {
            return false;
        }
        i = i + 1;
    }
    assert(a@ =~= b@);
    true
}

impl Datum for AsPathSegment {
    fn dup(&self) -> (r: AsPathSegment) {
        match self {
            AsPathSegment::AsSet(a) => AsPathSegment::AsSet(copy_asns(a)),
            AsPathSegment::Sequence(a) => AsPathSegment::Sequence(copy_asns(a)),
            AsPathSegment::ConfedSequence(a) => AsPathSegment::ConfedSequence(copy_asns(a)),
            AsPathSegment::ConfedSet(a) => AsPathSegment::ConfedSet(copy_asns(a)),
        }
    }

    fn same(&self, other: &AsPathSegment) -> (r: bool) {
        match (self, other) {
            (AsPathSegment::AsSet(a), AsPathSegment::AsSet(b)) => same_asns(a, b),
            (AsPathSegment::Sequence(a), AsPathSegment::Sequence(b)) => same_asns(a, b),
            (AsPathSegment::ConfedSequence(a), AsPathSegment::ConfedSequence(b)) => same_asns(a, b),
            (AsPathSegment::ConfedSet(a), AsPathSegment::ConfedSet(b)) => same_asns(a, b),
            _ => false,
        }
    }
}

impl AsPathSegment {
    /// The AS numbers.
    pub fn asns(&self) -> (r: &[u32])
        ensures
            r@ == self@.numbers(),
    {
        match self {
            AsPathSegment::AsSet(a) => a.as_slice(),
            AsPathSegment::Sequence(a) => a.as_slice(),
            AsPathSegment::ConfedSequence(a) => a.as_slice(),
            AsPathSegment::ConfedSet(a) => a.as_slice(),
        }
    }

    /// Whether the segment belongs to a confederation.
    pub fn is_confederation(&self) -> (r: bool)
        ensures
            r == self@.confederation(),
    {
        match self {
            AsPathSegment::ConfedSequence(_) => true,
            AsPathSegment::ConfedSet(_) => true,
            _ => false,
        }
    }

    fn kind_of(&self) -> (r: u8)
        ensures
            r == self@.kind(),
    {
        match self {
            AsPathSegment::AsSet(_) => 1,
            AsPathSegment::Sequence(_) => 2,
            AsPathSegment::ConfedSequence(_) => 3,
            AsPathSegment::ConfedSet(_) => 4,
        }
    }

    fn build(kind: u8, a: Vec<u32>) -> (r: Option<AsPathSegment>)
        ensures
            match r {
                Some(v) => SegmentView::of(kind, a@) == Some(v@),
                None => SegmentView::of(kind, a@) is None,
            },
    {
        match kind {
            1 => Some(AsPathSegment::AsSet(a)),
            2 => Some(AsPathSegment::Sequence(a)),
            3 => Some(AsPathSegment::ConfedSequence(a)),
            4 => Some(AsPathSegment::ConfedSet(a)),
            _ => None,
        }
    }
}

impl Record for AsPathSegment {
    /// Whether AS numbers have four octets.
    type Ctx = bool;

    open spec fn carried(v: SegmentView, c: bool) -> bool {
        segment_encodable(v, c)
    }

    open spec fn octets(v: SegmentView, c: bool) -> Seq<u8> {
        segment_octets(v, c)
    }

    open spec fn front(s: Seq<u8>, c: bool) -> Option<(SegmentView, int)> {
        segment_front(s, c)
    }

    proof fn lemma_front(v: SegmentView, c: bool, rest: Seq<u8>) {
        lemma_segment_round_trip(v, c, rest);
    }

    fn write(&self, out: &mut Vec<u8>, c: bool) {
        let a = self.asns();
        out.push(self.kind_of());
        out.push((a.len() % 256) as u8);
        let ghost start = out@;
        let mut i: usize = 0;
        assert(out@ =~= start + asns_octets(a@.take(0), c));
        while i < a.len()
            invariant
                i <= a.len(),
                out@ == start + asns_octets(a@.take(i as int), c),
            decreases a.len() - i,
        {
            if c {
                wire::push_u32(out, a[i]);
            } else {
                wire::push_u16(out, as_trans_fit(a[i]));
            }
            assert(a@.take(i + 1).drop_last() =~= a@.take(i as int));
            assert(out@ =~= start + asns_octets(a@.take(i + 1), c));
            i = i + 1;
        }
        assert(a@.take(i as int) =~= a@);
        assert(out@ =~= old(out)@ + segment_octets(self@, c));
    }

    fn read(s: &[u8], c: bool) -> (r: Option<(AsPathSegment, usize)>) {
        if s.len() < 2 {
            return None;
        }
        let n: usize = s[1] as usize;
        let w: usize = if c {
            4
        } else {
            2
        };
        assert(n * w <= 255 * 4) by (nonlinear_arith)
            requires
                n <= 255,
                w <= 4,
        ;
        if s.len() < 2 + n * w {
            return None;
        }
        let mut out: Vec<u32> = Vec::new();
        let mut zero = false;
        let mut i: usize = 0;
        let ghost all = asns_in(s@, n as int, c);
        while i < n
            invariant
                i <= n <= 255,
                w == asn_width(c),
                all == asns_in(s@, n as int, c),
                s@.len() >= 2 + n * w,
                n * w <= 1020,
                out@ == all.take(i as int),
                zero == out@.contains(0),
            decreases n - i,
        {
            assert(i * w + w <= n * w) by (nonlinear_arith)
                requires
                    i < n,
            ;
            let a: u32 = if c {
                wire::read_u32(s, 2 + i * w)
            } else {
                wire::read_u16(s, 2 + i * w) as u32
            };
            let ghost before = out@;
            out.push(a);
            if a == 0 {
                zero = true;
                assert(out@[i as int] == 0);
            } else if zero {
                let ghost k = choose|k: int| 0 <= k < before.len() && before[k] == 0;
                assert(out@[k] == 0);
            }
            assert(all.take(i + 1) =~= all.take(i as int).push(all[i as int]));
            i = i + 1;
        }
        assert(all.take(i as int) =~= all);
        match AsPathSegment::build(s[0], out) {
            Some(v) => if zero {
                None
            } else {
                Some((v, 2 + n * w))
            },
            None => None,
        }
    }
}

proof fn lemma_asns_octets(a: Seq<u32>, four: bool)
    ensures
        asns_octets(a, four).len() == a.len() * asn_width(four),
        forall|k: int, s: Seq<u8>|
            0 <= k < a.len() && s.len() >= 2 + a.len() * asn_width(four) && s.subrange(
                2,
                2 + a.len() * asn_width(four),
            ) == asns_octets(a, four) && (four || a[k] <= 65535) ==> #[trigger] asn_at(
                s,
                2 + k * asn_width(four),
                four,
            ) == a[k],
    decreases a.len(),
{
    let w = asn_width(four);
    if a.len() > 0 {
        let b = a.drop_last();
        lemma_asns_octets(b, four);
        let last = asn_octets(a.last(), four);
        assert(a.len() * w == b.len() * w + w) by (nonlinear_arith)
            requires
                a.len() == b.len() + 1,
        ;
        assert forall|k: int, s: Seq<u8>|
            0 <= k < a.len() && s.len() >= 2 + a.len() * w && s.subrange(2, 2 + a.len() * w)
                == asns_octets(a, four) && (four || a[k] <= 65535) implies #[trigger] asn_at(
            s,
            2 + k * w,
            four,
        ) == a[k] by {
            let all = s.subrange(2, 2 + a.len() * w);
            assert(s.subrange(2, 2 + b.len() * w) =~= all.take(b.len() * w));
            assert(all.take(b.len() * w) =~= asns_octets(b, four));
            if k < b.len() {
                assert(b[k] == a[k]);
                assert(asn_at(s, 2 + k * asn_width(four), four) == b[k]);
            } else {
                let i = 2 + b.len() * w;
                assert(s.subrange(i, i + w) =~= all.subrange(b.len() * w, b.len() * w + w));
                assert(all.subrange(b.len() * w, b.len() * w + w) =~= last);
                if four {
                    wire::lemma_u32_placed(s, i, a.last());
                } else {
                    wire::lemma_u16_placed(s, i, bgp::fitted(a.last()));
                }
            }
        }
    }
}

/// A segment that survives its encoding is read back, from in front of anything.
pub proof fn lemma_segment_round_trip(v: SegmentView, four: bool, rest: Seq<u8>)
    requires
        segment_encodable(v, four),
    ensures
        segment_octets(v, four).len() > 0,
        segment_front(segment_octets(v, four) + rest, four) == Some(
            (v, segment_octets(v, four).len() as int),
        ),
{
    let a = v.numbers();
    let s = segment_octets(v, four) + rest;
    let w = asn_width(four);
    lemma_asns_octets(a, four);
    assert(s[1] == a.len());
    assert(s.subrange(2, 2 + a.len() * w) =~= asns_octets(a, four));
    let b = asns_in(s, s[1] as int, four);
    assert forall|k: int| 0 <= k < a.len() implies b[k] == a[k] by {
        assert(asn_at(s, 2 + k * asn_width(four), four) == a[k]);
    }
    assert(b =~= a);
}

/// What stands in an AS path one behind the other: an AS number, a set, or a segment of a
/// confederation.
pub enum Element {
    As(u32),
    Whole(SegmentView),
}

/// A path as elements: the AS numbers of its sequences, and its other segments whole.
pub open spec fn elements(segs: Seq<SegmentView>) -> Seq<Element>
    decreases segs.len(),
{
    if segs.len() == 0 {
        Seq::empty()
    } else {
        elements(segs.drop_last()) + segment_elements(segs.last())
    }
}

/// One segment as elements.
pub open spec fn segment_elements(seg: SegmentView) -> Seq<Element> {
    match seg {
        SegmentView::Sequence(a) => a.map_values(|n: u32| Element::As(n)),
        _ => seq![Element::Whole(seg)],
    }
}

/// Segments, and a sequence behind them unless it is empty.
pub open spec fn flushed(out: Seq<SegmentView>, pending: Seq<u32>) -> Seq<SegmentView> {
    if pending.len() == 0 {
        out
    } else {
        out.push(SegmentView::Sequence(pending))
    }
}

/// The segments of elements, without the sequence that the last AS numbers make, and
/// those AS numbers.
pub open spec fn gathered(els: Seq<Element>) -> (Seq<SegmentView>, Seq<u32>)
    decreases els.len(),
{
    if els.len() == 0 {
        (Seq::empty(), Seq::empty())
    } else {
        let (out, pending) = gathered(els.drop_last());
        match els.last() {
            Element::As(n) => (out, pending.push(n)),
            Element::Whole(seg) => (flushed(out, pending).push(seg), Seq::empty()),
        }
    }
}

/// The segments of elements: AS numbers that stand one behind the other make one
/// sequence.
pub open spec fn segments(els: Seq<Element>) -> Seq<SegmentView> {
    let (out, pending) = gathered(els);
    flushed(out, pending)
}

/// The path of which `path` came through 16-bit speakers and `path4` past them: the last
/// elements of `path` are replaced by those of `path4`, unless `path4` is the longer.
pub open spec fn reconstructed(path: Seq<SegmentView>, path4: Seq<SegmentView>) -> Seq<
    SegmentView,
> {
    let (a, b) = (elements(path), elements(path4));
    if path4.len() == 0 || b.len() > a.len() {
        path
    } else {
        segments(a.take(a.len() - b.len()) + b)
    }
}

/// The executable form of an element.
enum Part {
    As(u32),
    Whole(AsPathSegment),
}

impl View for Part {
    type V = Element;

    closed spec fn view(&self) -> Element {
        match *self {
            Part::As(n) => Element::As(n),
            Part::Whole(seg) => Element::Whole(seg@),
        }
    }
}

fn push_parts(out: &mut Vec<Part>, seg: &AsPathSegment)
    ensures
        wire::views(final(out)@) == wire::views(old(out)@) + segment_elements(seg@),
{
    let ghost start = wire::views(out@);
    match seg {
        AsPathSegment::Sequence(a) => {
            let ghost all = a@.map_values(|n: u32| Element::As(n));
            let mut i: usize = 0;
            assert(wire::views(out@) =~= start + all.take(0));
            while i < a.len()
                invariant
                    i <= a.len(),
                    all == a@.map_values(|n: u32| Element::As(n)),
                    wire::views(out@) == start + all.take(i as int),
                decreases a.len() - i,
            {
                let p = Part::As(a[i]);
                proof {
                    wire::lemma_views_push(out@, p);
                }
                out.push(p);
                assert(start + all.take(i + 1) =~= (start + all.take(i as int)).push(
                    all[i as int],
                ));
                i = i + 1;
            }
            assert(all.take(i as int) =~= all);
        },
        _ => {
            let p = Part::Whole(seg.dup());
            proof {
                wire::lemma_views_push(out@, p);
            }
            out.push(p);
            assert(wire::views(out@) =~= start + segment_elements(seg@));
        },
    }
}

fn flatten(segs: &[AsPathSegment]) -> (r: Vec<Part>)
    ensures
        wire::views(r@) == elements(wire::views(segs@)),
{
    let ghost all = wire::views(segs@);
    let mut out: Vec<Part> = Vec::new();
    let mut i: usize = 0;
    assert(wire::views(out@) =~= elements(all.take(0)));
    while i < segs.len()
        invariant
            i <= segs.len(),
            all == wire::views(segs@),
            wire::views(out@) == elements(all.take(i as int)),
        decreases segs.len() - i,
    {
        push_parts(&mut out, &segs[i]);
        assert(all.take(i + 1).drop_last() =~= all.take(i as int));
        assert(all.take(i + 1).last() == segs@[i as int]@);
        i = i + 1;
    }
    assert(all.take(i as int) =~= all);
    out
}

fn flush(out: &mut Vec<AsPathSegment>, pending: Vec<u32>)
    ensures
        wire::views(final(out)@) == flushed(wire::views(old(out)@), pending@),
{
    if pending.len() > 0 {
        let s = AsPathSegment::Sequence(pending);
        proof {
            wire::lemma_views_push(out@, s);
        }
        out.push(s);
    }
}

fn coalesce(els: &[Part]) -> (r: Vec<AsPathSegment>)
    ensures
        wire::views(r@) == segments(wire::views(els@)),
{
    let ghost all = wire::views(els@);
    let mut out: Vec<AsPathSegment> = Vec::new();
    let mut pending: Vec<u32> = Vec::new();
    let mut i: usize = 0;
    assert(wire::views(out@) =~= Seq::empty());
    assert(pending@ =~= Seq::empty());
    while i < els.len()
        invariant
            i <= els.len(),
            all == wire::views(els@),
            gathered(all.take(i as int)) == (wire::views(out@), pending@),
        decreases els.len() - i,
    {
        assert(all.take(i + 1).drop_last() =~= all.take(i as int));
        assert(all.take(i + 1).last() == els@[i as int]@);
        match &els[i] {
            Part::As(n) => {
                pending.push(*n);
            },
            Part::Whole(seg) => {
                flush(&mut out, pending);
                pending = Vec::new();
                let s = seg.dup();
                proof {
                    wire::lemma_views_push(out@, s);
                }
                out.push(s);
                assert(pending@ =~= Seq::empty());
            },
        }
        i = i + 1;
    }
    assert(all.take(i as int) =~= all);
    flush(&mut out, pending);
    out
}

/// Put an AS path together again from the path that came through 16-bit speakers and the
/// AS4_PATH that came past them (RFC 6793 §4.2.3).
pub fn reconstruct_as_path(as_path: &[AsPathSegment], as4_path: &[AsPathSegment]) -> (r: Vec<
    AsPathSegment,
>)
    ensures
        wire::views(r@) == reconstructed(wire::views(as_path@), wire::views(as4_path@)),
{
    if as4_path.len() == 0 {
        return dup_all(as_path);
    }
    let path = flatten(as_path);
    let path4 = flatten(as4_path);
    assert(wire::views(path@).len() == path@.len());
    assert(wire::views(path4@).len() == path4@.len());
    if path4.len() > path.len() {
        return dup_all(as_path);
    }
    let keep = path.len() - path4.len();
    let ghost a = wire::views(path@);
    let ghost b = wire::views(path4@);
    let mut merged = path;
    let mut tail = path4;
    merged.truncate(keep);
    assert(wire::views(merged@) =~= a.take(keep as int));
    let ghost front = merged@;
    merged.append(&mut tail);
    assert(wire::views(merged@) =~= a.take(keep as int) + b);
    coalesce(merged.as_slice())
}

proof fn lemma_elements_push(segs: Seq<SegmentView>, seg: SegmentView)
    ensures
        elements(segs.push(seg)) == elements(segs) + segment_elements(seg),
{
    assert(segs.push(seg).drop_last() =~= segs);
}

proof fn lemma_elements_flushed(out: Seq<SegmentView>, pending: Seq<u32>)
    ensures
        elements(flushed(out, pending)) == elements(out) + pending.map_values(
            |n: u32| Element::As(n),
        ),
{
    if pending.len() > 0 {
        lemma_elements_push(out, SegmentView::Sequence(pending));
    } else {
        assert(elements(out) + pending.map_values(|n: u32| Element::As(n)) =~= elements(out));
    }
}

/// Whether a path could have been made of elements: no segment that stands whole is a
/// sequence.
pub open spec fn atomic(els: Seq<Element>) -> bool {
    forall|i: int|
        0 <= i < els.len() ==> match #[trigger] els[i] {
            Element::As(_) => true,
            Element::Whole(seg) => !(seg is Sequence),
        }
}

proof fn lemma_gathered(els: Seq<Element>)
    requires
        atomic(els),
    ensures
        elements(gathered(els).0) + gathered(els).1.map_values(|n: u32| Element::As(n)) == els,
    decreases els.len(),
{
    if els.len() == 0 {
        assert(elements(gathered(els).0) + gathered(els).1.map_values(|n: u32| Element::As(n))
            =~= els);
    } else {
        let (out, pending) = gathered(els.drop_last());
        assert forall|i: int| 0 <= i < els.drop_last().len() implies match #[trigger] els.drop_last()[i] {
            Element::As(_) => true,
            Element::Whole(seg) => !(seg is Sequence),
        } by {
            assert(els.drop_last()[i] == els[i]);
        }
        lemma_gathered(els.drop_last());
        match els.last() {
            Element::As(n) => {
                assert(elements(out) + pending.push(n).map_values(|n: u32| Element::As(n)) =~= (
                elements(out) + pending.map_values(|n: u32| Element::As(n))).push(els.last()));
                assert(els.drop_last().push(els.last()) =~= els);
            },
            Element::Whole(seg) => {
                assert(els[els.len() - 1] == els.last());
                lemma_elements_flushed(out, pending);
                lemma_elements_push(flushed(out, pending), seg);
                let (out2, none) = gathered(els);
                assert(elements(out2) + none.map_values(|n: u32| Element::As(n)) =~= els.drop_last()
                    + seq![els.last()]);
                assert(els.drop_last() + seq![els.last()] =~= els);
            },
        }
    }
}

/// Making segments of elements loses nothing: their elements are those they were made of.
pub proof fn lemma_elements_of_segments(els: Seq<Element>)
    requires
        atomic(els),
    ensures
        elements(segments(els)) == els,
{
    let (out, pending) = gathered(els);
    lemma_gathered(els);
    lemma_elements_flushed(out, pending);
}

proof fn lemma_elements_atomic(segs: Seq<SegmentView>)
    ensures
        atomic(elements(segs)),
    decreases segs.len(),
{
    if segs.len() > 0 {
        lemma_elements_atomic(segs.drop_last());
        let front = elements(segs.drop_last());
        let last = segment_elements(segs.last());
        assert forall|i: int| 0 <= i < elements(segs).len() implies match #[trigger] elements(
            segs,
        )[i] {
            Element::As(_) => true,
            Element::Whole(seg) => !(seg is Sequence),
        } by {
            if i < front.len() {
                assert(elements(segs)[i] == front[i]);
            } else {
                assert(elements(segs)[i] == last[i - front.len()]);
            }
        }
    }
}

/// A path that is put together again has as many elements as the path that came through:
/// it ends with the elements of the AS4_PATH and begins with what is left of the path. An
/// AS4_PATH that is longer than the path, or empty, changes nothing.
pub proof fn lemma_reconstruction(path: Seq<SegmentView>, path4: Seq<SegmentView>)
    ensures
        elements(reconstructed(path, path4)).len() == elements(path).len(),
        elements(path4).len() <= elements(path).len() && path4.len() > 0 ==> elements(
            reconstructed(path, path4),
        ) == elements(path).take(elements(path).len() - elements(path4).len()) + elements(path4),
        elements(path4).len() > elements(path).len() || path4.len() == 0 ==> reconstructed(
            path,
            path4,
        ) == path,
{
    let (a, b) = (elements(path), elements(path4));
    if path4.len() > 0 && b.len() <= a.len() {
        lemma_elements_atomic(path);
        lemma_elements_atomic(path4);
        let els = a.take(a.len() - b.len()) + b;
        assert forall|i: int| 0 <= i < els.len() implies match #[trigger] els[i] {
            Element::As(_) => true,
            Element::Whole(seg) => !(seg is Sequence),
        } by {
            if i < a.len() - b.len() {
                assert(els[i] == a[i]);
            } else {
                assert(els[i] == b[i - (a.len() - b.len())]);
            }
        }
        lemma_elements_of_segments(els);
    }
}

/// How an AS path is counted: the elements of two parts stand one behind the other, a
/// sequence has one element for each of its AS numbers, and every other segment is one
/// element whatever it holds.
pub proof fn lemma_elements(p: Seq<SegmentView>, q: Seq<SegmentView>, asns: Seq<u32>, k: int)
    ensures
        elements(p + q) == elements(p) + elements(q),
        elements(seq![SegmentView::Sequence(asns)]).len() == asns.len(),
        0 <= k < asns.len() ==> elements(seq![SegmentView::Sequence(asns)])[k] == Element::As(
            asns[k],
        ),
        elements(seq![SegmentView::AsSet(asns)]) == seq![Element::Whole(SegmentView::AsSet(asns))],
        elements(seq![SegmentView::ConfedSequence(asns)]) == seq![
            Element::Whole(SegmentView::ConfedSequence(asns)),
        ],
        elements(seq![SegmentView::ConfedSet(asns)]) == seq![
            Element::Whole(SegmentView::ConfedSet(asns)),
        ],
    decreases q.len(),
{
    if q.len() == 0 {
        assert(p + q =~= p);
        assert(elements(p) + elements(q) =~= elements(p));
    } else {
        lemma_elements(p, q.drop_last(), asns, k);
        assert((p + q).drop_last() =~= p + q.drop_last());
        assert(elements(p + q) =~= elements(p) + elements(q));
    }
    lemma_one_segment(SegmentView::Sequence(asns));
    lemma_one_segment(SegmentView::AsSet(asns));
    lemma_one_segment(SegmentView::ConfedSequence(asns));
    lemma_one_segment(SegmentView::ConfedSet(asns));
}

proof fn lemma_one_segment(s: SegmentView)
    ensures
        elements(seq![s]) == segment_elements(s),
{
    assert(seq![s].drop_last() =~= Seq::empty());
    assert(elements(seq![s].drop_last()) =~= Seq::empty());
    assert(elements(seq![s]) =~= segment_elements(s));
}

spec fn joined(out: Seq<SegmentView>) -> bool {
    &&& forall|i: int|
        0 <= i < out.len() ==> ((#[trigger] out[i]) matches SegmentView::Sequence(a) ==> a.len() > 0)
    &&& forall|i: int, j: int|
        0 <= i < out.len() && j == i + 1 && j < out.len() ==> !((#[trigger] out[i]) is Sequence && (
        #[trigger] out[j]) is Sequence)
}

proof fn lemma_gathered_joined(els: Seq<Element>)
    requires
        atomic(els),
    ensures
        joined(gathered(els).0),
        gathered(els).0.len() > 0 ==> !(gathered(els).0.last() is Sequence),
    decreases els.len(),
{
    if els.len() > 0 {
        let front = els.drop_last();
        assert(atomic(front)) by {
            assert forall|i: int| 0 <= i < front.len() implies match #[trigger] front[i] {
                Element::As(_) => true,
                Element::Whole(seg) => !(seg is Sequence),
            } by {
                assert(front[i] == els[i]);
            }
        }
        lemma_gathered_joined(front);
        assert(els[els.len() - 1] == els.last());
    }
}

/// A path that is put together has no two sequences one behind the other and none that is
/// empty.
pub proof fn lemma_sequences_are_joined(path: Seq<SegmentView>, path4: Seq<SegmentView>, i: int)
    requires
        path4.len() > 0,
        elements(path4).len() <= elements(path).len(),
        0 <= i < reconstructed(path, path4).len(),
    ensures
        ({
            let r = reconstructed(path, path4);
            &&& r[i] matches SegmentView::Sequence(a) ==> a.len() > 0
            &&& i + 1 < r.len() ==> !(r[i] is Sequence && r[i + 1] is Sequence)
        }),
{
    let (a, b) = (elements(path), elements(path4));
    let els = a.take(a.len() - b.len()) + b;
    lemma_elements_atomic(path);
    lemma_elements_atomic(path4);
    assert(atomic(els)) by {
        assert forall|k: int| 0 <= k < els.len() implies match #[trigger] els[k] {
            Element::As(_) => true,
            Element::Whole(seg) => !(seg is Sequence),
        } by {
            if k < a.len() - b.len() {
                assert(els[k] == a[k]);
            } else {
                assert(els[k] == b[k - (a.len() - b.len())]);
            }
        }
    }
    lemma_gathered_joined(els);
    let r = reconstructed(path, path4);
    let (out, pending) = gathered(els);
    if i < out.len() {
        assert(r[i] == out[i]);
    }
    if i + 1 < out.len() {
        assert(r[i + 1] == out[i + 1]);
        assert(!(out[i] is Sequence && out[i + 1] is Sequence));
    }
}

/// A segment is read exactly where it is there as a whole, its type is 1, 2, 3 or 4 and no
/// AS number in it is zero; it takes its own length and holds as many AS numbers as it
/// says.
pub proof fn lemma_which_segments_are_read(s: Seq<u8>, four: bool)
    ensures
        ({
            let w = if four {
                4int
            } else {
                2
            };
            let n = s[1] as int;
            segment_front(s, four) is Some <==> s.len() >= 2 && s.len() >= 2 + n * w && 1 <= s[0]
                <= 4 && forall|k: int|
                0 <= k < n ==> #[trigger] asn_at(s, 2 + k * asn_width(four), four) != 0
        }),
        segment_front(s, four) matches Some((v, used)) ==> used == 2 + s[1] * (if four {
            4int
        } else {
            2
        }) && v.numbers().len() == s[1] && (v is AsSet <==> s[0] == 1) && (v is Sequence <==> s[0]
            == 2) && (v is ConfedSequence <==> s[0] == 3) && (v is ConfedSet <==> s[0] == 4),
{
    let a = asns_in(s, s[1] as int, four);
    if s.len() >= 2 {
        if a.contains(0) {
            let k = choose|k: int| 0 <= k < a.len() && a[k] == 0;
            assert(asn_at(s, 2 + k * asn_width(four), four) == 0);
        } else {
            assert forall|k: int| 0 <= k < s[1] implies #[trigger] asn_at(
                s,
                2 + k * asn_width(four),
                four,
            ) != 0 by {
                assert(a[k] != 0);
            }
        }
    }
}

/// An AS number takes two octets or four, high octet first; in two octets one that does not
/// fit is written as 23456.
pub proof fn lemma_asn_on_the_wire(asn: u32)
    ensures
        asn_octets(asn, true).len() == 4,
        asn_octets(asn, true)[0] * 16777216 + asn_octets(asn, true)[1] * 65536 + asn_octets(
            asn,
            true,
        )[2] * 256 + asn_octets(asn, true)[3] == asn,
        asn_octets(asn, false).len() == 2,
        asn_octets(asn, false)[0] * 256 + asn_octets(asn, false)[1] == (if asn <= 65535 {
            asn as int
        } else {
            23456
        }),
{
}

} // verus!
