//! What peers offer for each destination, and what is chosen of it.
//!
//! A table holds every offer of every peer (the Adj-RIB-In) and, beside the offers for a
//! destination, the choice among them (the Loc-RIB). Which choice that is, a [`Selector`]
//! says. A change to the offers for a destination tells how the choice changed.

use vstd::prelude::*;

use crate::net;
use crate::net::IpAddr;
use crate::order;
use crate::order::{place, Datum, Place, Ranked};
use crate::sorted_map;
use crate::sorted_map::SortedMap;
use crate::wire;

verus! {

/// Where an offer comes from: the peer, and the path identifier under which it came
/// (RFC 7911); zero without one.
#[derive(Clone, Copy, PartialEq, Eq, Debug)]
pub struct Source {
    pub peer: IpAddr,
    pub path_id: u32,
}

impl View for Source {
    type V = Source;

    open spec fn view(&self) -> Source {
        *self
    }
}

impl Datum for Source {
    fn dup(&self) -> (r: Source) {
        *self
    }

    fn same(&self, other: &Source) -> (r: bool) {
        self.path_id == other.path_id && self.peer.same(&other.peer)
    }
}

impl Ranked for Source {
    /// By peer, then by path identifier.
    open spec fn rank(key: Source) -> Seq<u64> {
        IpAddr::rank(key.peer).push(key.path_id as u64)
    }

    fn rank_of(&self) -> (r: Vec<u64>) {
        let mut out = self.peer.rank_of();
        out.push(self.path_id as u64);
        out
    }
}

/// Sources of one rank are one source.
pub proof fn lemma_source_rank(a: Source, b: Source)
    requires
        Source::rank(a) == Source::rank(b),
    ensures
        a == b,
{
    let (x, y) = (seq![a.path_id as u64], seq![b.path_id as u64]);
    assert(Source::rank(a) =~= IpAddr::rank(a.peer) + x);
    assert(Source::rank(b) =~= IpAddr::rank(b.peer) + y);
    net::lemma_addr_rank(a.peer, x, b.peer, y);
    assert(x[0] == y[0]);
}

/// One offer.
pub struct Offer<P> {
    pub source: Source,
    pub what: P,
}

impl<P: View> View for Offer<P> {
    type V = (Source, P::V);

    open spec fn view(&self) -> (Source, P::V) {
        (self.source, self.what@)
    }
}

impl<P: Datum> Datum for Offer<P> {
    fn dup(&self) -> (r: Offer<P>) {
        Offer { source: self.source, what: self.what.dup() }
    }

    fn same(&self, other: &Offer<P>) -> (r: bool) {
        self.source.same(&other.source) && self.what.same(&other.what)
    }
}

/// How a choice is made among offers.
pub trait Selector: Sized {
    /// What is offered.
    type Item: Datum;

    /// What is chosen.
    type Choice: Datum;

    /// The choice among some offers, of which there is at least one.
    spec fn chosen(&self, offers: Seq<(Source, <Self::Item as View>::V)>) -> <Self::Choice as View>::V;

    /// The choice among some offers.
    fn select(&self, offers: &Vec<Offer<Self::Item>>) -> (r: Self::Choice)
        requires
            offers@.len() > 0,
        ensures
            r@ == self.chosen(wire::views(offers@)),
    ;
}

/// What is offered, as a mathematical value.
pub type ItemV<S> = <<S as Selector>::Item as View>::V;

/// What is chosen, as a mathematical value.
pub type ChoiceV<S> = <<S as Selector>::Choice as View>::V;

/// The offers for one destination, and the choice among them.
pub struct Slot<S: Selector> {
    pub offers: Vec<Offer<S::Item>>,
    pub choice: S::Choice,
}

/// A slot as a mathematical value.
pub struct SlotView<P, C> {
    pub offers: Seq<(Source, P)>,
    pub choice: C,
}

impl<S: Selector> View for Slot<S> {
    type V = SlotView<ItemV<S>, ChoiceV<S>>;

    open spec fn view(&self) -> Self::V {
        SlotView { offers: wire::views(self.offers@), choice: self.choice@ }
    }
}

impl<S: Selector> Datum for Slot<S> {
    fn dup(&self) -> (r: Slot<S>) {
        Slot { offers: order::dup_all(self.offers.as_slice()), choice: self.choice.dup() }
    }

    fn same(&self, other: &Slot<S>) -> (r: bool) {
        order::same_all(self.offers.as_slice(), other.offers.as_slice()) && self.choice.same(
            &other.choice,
        )
    }
}

/// How the choice for a destination changed.
pub enum Change<C> {
    /// There is a choice, and it is another than before.
    Best(C),
    /// There is no offer left.
    Gone,
}

/// A change as a mathematical value.
pub open spec fn change_view<C: View>(c: Change<C>) -> Change<C::V> {
    match c {
        Change::Best(x) => Change::Best(x@),
        Change::Gone => Change::Gone,
    }
}

/// How a choice changed, where it did.
pub open spec fn difference<C>(was: Option<C>, is: Option<C>) -> Option<Change<C>> {
    if was == is {
        None
    } else {
        match is {
            Some(c) => Some(Change::Best(c)),
            None => Some(Change::Gone),
        }
    }
}

/// The offers of everybody but a peer.
pub open spec fn others<P>(s: Seq<(Source, P)>, peer: IpAddr) -> Seq<(Source, P)>
    decreases s.len(),
{
    if s.len() == 0 {
        s
    } else if s.last().0.peer == peer {
        others(s.drop_last(), peer)
    } else {
        others(s.drop_last(), peer).push(s.last())
    }
}

/// Whether a peer has an offer.
pub open spec fn offers_from<P>(s: Seq<(Source, P)>, peer: IpAddr) -> bool {
    exists|i: int| 0 <= i < s.len() && (#[trigger] s[i]).0.peer == peer
}

/// What is left of the offers without a peer: no offer of the peer, and of the others'
/// every one, in order.
pub proof fn lemma_others<P>(s: Seq<(Source, P)>, peer: IpAddr)
    ensures
        !offers_from(others(s, peer), peer),
        !offers_from(s, peer) ==> others(s, peer) == s,
        forall|i: int|
            0 <= i < s.len() && (#[trigger] s[i]).0.peer != peer ==> others(s, peer).contains(s[i]),
        forall|i: int|
            0 <= i < others(s, peer).len() ==> s.contains(#[trigger] others(s, peer)[i]),
    decreases s.len(),
{
    if s.len() > 0 {
        let front = s.drop_last();
        let o = others(front, peer);
        lemma_others(front, peer);
        assert forall|i: int| 0 <= i < front.len() implies #[trigger] front[i] == s[i] by {}
        if !offers_from(s, peer) {
            assert(s.last() == s[s.len() - 1]);
            assert(!offers_from(front, peer)) by {
                if offers_from(front, peer) {
                    let i = choose|i: int|
                        0 <= i < front.len() && (#[trigger] front[i]).0.peer == peer;
                    assert(s[i].0.peer == peer);
                }
            }
            assert(s =~= front.push(s.last()));
        }
        let all = others(s, peer);
        assert forall|i: int| 0 <= i < s.len() && (#[trigger] s[i]).0.peer
            != peer implies all.contains(s[i]) by {
            if i < front.len() {
                assert(front[i] == s[i]);
                assert(o.contains(s[i]));
                let k = choose|k: int| 0 <= k < o.len() && o[k] == s[i];
                assert(all[k] == s[i]);
            } else {
                assert(all[all.len() - 1] == s[i]);
            }
        }
        assert forall|i: int| 0 <= i < all.len() implies s.contains(#[trigger] all[i]) by {
            if i < o.len() {
                assert(front.contains(o[i]));
                let k = choose|k: int| 0 <= k < front.len() && front[k] == o[i];
                assert(s[k] == all[i]);
            } else {
                assert(s[s.len() - 1] == all[i]);
            }
        }
    }
}

proof fn lemma_others_sorted<P>(s: Seq<(Source, P)>, peer: IpAddr)
    requires
        sorted_map::sorted::<Source, P>(s),
    ensures
        sorted_map::sorted::<Source, P>(others(s, peer)),
    decreases s.len(),
{
    if s.len() > 0 {
        let front = s.drop_last();
        assert(sorted_map::sorted::<Source, P>(front)) by {
            assert forall|i: int, j: int| 0 <= i < j < front.len() implies order::before(
                Source::rank((#[trigger] front[i]).0),
                Source::rank((#[trigger] front[j]).0),
            ) by {
                assert(front[i] == s[i] && front[j] == s[j]);
            }
        }
        lemma_others_sorted(front, peer);
        lemma_others(front, peer);
        let o = others(front, peer);
        let all = others(s, peer);
        assert forall|i: int, j: int| 0 <= i < j < all.len() implies order::before(
            Source::rank((#[trigger] all[i]).0),
            Source::rank((#[trigger] all[j]).0),
        ) by {
            if j < o.len() {
                assert(all[i] == o[i] && all[j] == o[j]);
            } else {
                assert(front.contains(o[i]));
                let k = choose|k: int| 0 <= k < front.len() && front[k] == o[i];
                assert(s[k] == all[i] && s[s.len() - 1] == all[j]);
            }
        }
    }
}

/// The slots of a table.
pub type Slots<K, P, C> = Seq<(K, SlotView<P, C>)>;

/// The offers for a destination.
pub open spec fn offers_at<K: Ranked, P, C>(s: Slots<K::V, P, C>, k: K::V) -> Seq<(Source, P)> {
    match sorted_map::lookup::<K, SlotView<P, C>>(s, K::rank(k)) {
        Some(slot) => slot.offers,
        None => Seq::empty(),
    }
}

/// The choice for a destination.
pub open spec fn choice_at<K: Ranked, P, C>(s: Slots<K::V, P, C>, k: K::V) -> Option<C> {
    match sorted_map::lookup::<K, SlotView<P, C>>(s, K::rank(k)) {
        Some(slot) => Some(slot.choice),
        None => None,
    }
}

/// The table with other offers for a destination, and the choice among them; a destination
/// without offers is not in it.
pub open spec fn with_offers<K: Ranked, S: Selector>(
    sel: S,
    s: Slots<K::V, ItemV<S>, ChoiceV<S>>,
    k: K::V,
    offers: Seq<(Source, ItemV<S>)>,
) -> Slots<K::V, ItemV<S>, ChoiceV<S>> {
    if offers.len() == 0 {
        sorted_map::without::<
            K,
            SlotView<ItemV<S>, ChoiceV<S>>,
        >(s, K::rank(k))
    } else {
        sorted_map::put::<K, SlotView<ItemV<S>, ChoiceV<S>>>(
            s,
            k,
            (SlotView { offers, choice: sel.chosen(offers) }),
        )
    }
}

/// The table with an offer for a destination, in place of the one from the same source.
pub open spec fn updated<K: Ranked, S: Selector>(
    sel: S,
    s: Slots<K::V, ItemV<S>, ChoiceV<S>>,
    source: Source,
    k: K::V,
    what: ItemV<S>,
) -> Slots<K::V, ItemV<S>, ChoiceV<S>> {
    with_offers::<K, S>(
        sel,
        s,
        k,
        sorted_map::put::<Source, ItemV<S>>(
            offers_at::<K, ItemV<S>, ChoiceV<S>>(s, k),
            source,
            what,
        ),
    )
}

/// The table without the offer for a destination from a source.
pub open spec fn withdrawn<K: Ranked, S: Selector>(
    sel: S,
    s: Slots<K::V, ItemV<S>, ChoiceV<S>>,
    source: Source,
    k: K::V,
) -> Slots<K::V, ItemV<S>, ChoiceV<S>> {
    with_offers::<K, S>(
        sel,
        s,
        k,
        sorted_map::without::<Source, ItemV<S>>(
            offers_at::<K, ItemV<S>, ChoiceV<S>>(s, k),
            Source::rank(source),
        ),
    )
}

/// The table without the offers of a peer for a destination.
pub open spec fn dropped<K: Ranked, S: Selector>(
    sel: S,
    s: Slots<K::V, ItemV<S>, ChoiceV<S>>,
    peer: IpAddr,
    k: K::V,
) -> Slots<K::V, ItemV<S>, ChoiceV<S>> {
    with_offers::<K, S>(
        sel,
        s,
        k,
        others(offers_at::<K, ItemV<S>, ChoiceV<S>>(s, k), peer),
    )
}

/// How the choice for a destination differs between two states of a table.
pub open spec fn changed<K: Ranked, P, C>(
    was: Slots<K::V, P, C>,
    is: Slots<K::V, P, C>,
    k: K::V,
) -> Option<Change<C>> {
    difference(choice_at::<K, P, C>(was, k), choice_at::<K, P, C>(is, k))
}

/// Whether a slot is in order: it has offers, sorted by source, and its choice is the one
/// among them.
pub open spec fn slot_ok<S: Selector>(
    sel: S,
    slot: SlotView<ItemV<S>, ChoiceV<S>>,
) -> bool {
    slot.offers.len() > 0 && sorted_map::sorted::<Source, ItemV<S>>(slot.offers)
        && slot.choice == sel.chosen(slot.offers)
}

/// Whether a table is in order: sorted by destination, and every slot in order.
pub open spec fn table_ok<K: Ranked, S: Selector>(
    sel: S,
    s: Slots<K::V, ItemV<S>, ChoiceV<S>>,
) -> bool {
    sorted_map::sorted::<K, SlotView<ItemV<S>, ChoiceV<S>>>(s)
        && forall|i: int| 0 <= i < s.len() ==> slot_ok(sel, (#[trigger] s[i]).1)
}

/// The table without a peer.
pub open spec fn without_peer<K: Ranked, S: Selector>(
    sel: S,
    s: Slots<K::V, ItemV<S>, ChoiceV<S>>,
    peer: IpAddr,
) -> Slots<K::V, ItemV<S>, ChoiceV<S>>
    decreases s.len(),
{
    if s.len() == 0 {
        s
    } else {
        let rest = without_peer::<K, S>(sel, s.drop_last(), peer);
        let left = others(s.last().1.offers, peer);
        if left.len() == 0 {
            rest
        } else {
            rest.push((s.last().0, SlotView { offers: left, choice: sel.chosen(left) }))
        }
    }
}

/// How the choices change when a peer goes, in the order of the destinations.
pub open spec fn peer_changes<K: Ranked, S: Selector>(
    sel: S,
    s: Slots<K::V, ItemV<S>, ChoiceV<S>>,
    peer: IpAddr,
) -> Seq<(K::V, Change<ChoiceV<S>>)>
    decreases s.len(),
{
    if s.len() == 0 {
        Seq::empty()
    } else {
        let rest = peer_changes::<K, S>(sel, s.drop_last(), peer);
        let left = others(s.last().1.offers, peer);
        let is = if left.len() == 0 {
            None
        } else {
            Some(sel.chosen(left))
        };
        match difference(Some(s.last().1.choice), is) {
            Some(c) => rest.push((s.last().0, c)),
            None => rest,
        }
    }
}

/// The destinations for which a peer has an offer, in order.
pub open spec fn keys_from<K, P, C>(s: Slots<K, P, C>, peer: IpAddr) -> Seq<K>
    decreases s.len(),
{
    if s.len() == 0 {
        Seq::empty()
    } else if offers_from(s.last().1.offers, peer) {
        keys_from(s.drop_last(), peer).push(s.last().0)
    } else {
        keys_from(s.drop_last(), peer)
    }
}

/// Offers for destinations, and the choice for each.
pub struct Table<K: Ranked, S: Selector> {
    sel: S,
    slots: SortedMap<K, Slot<S>>,
}

impl<K: Ranked, S: Selector> View for Table<K, S> {
    type V = Slots<K::V, ItemV<S>, ChoiceV<S>>;

    closed spec fn view(&self) -> Self::V {
        self.slots@
    }
}

fn find<P: Datum>(offers: &Vec<Offer<P>>, source: &Source) -> (r: (usize, bool))
    requires
        sorted_map::sorted::<Source, P::V>(wire::views(offers@)),
    ensures
        r.0 == sorted_map::slot::<Source, P::V>(wire::views(offers@), Source::rank(*source)),
        r.0 <= offers@.len(),
        r.1 == sorted_map::present::<Source, P::V>(wire::views(offers@), Source::rank(*source)),
{
    let rank = source.rank_of();
    let ghost all = wire::views(offers@);
    let mut i: usize = 0;
    while i < offers.len()
        invariant
            i <= offers.len(),
            all == wire::views(offers@),
            rank@ == Source::rank(*source),
            sorted_map::sorted::<Source, P::V>(all),
            forall|j: int| 0 <= j < i ==> order::before(Source::rank((#[trigger] all[j]).0), rank@),
        decreases offers.len() - i,
    {
        let here = offers[i].source.rank_of();
        assert(here@ == Source::rank(all[i as int].0));
        match place(&here, &rank) {
            Place::Before => {},
            Place::Equal => {
                proof {
                    order::lemma_before_irreflexive(rank@);
                    sorted_map::lemma_slot_unique::<Source, P::V>(all, rank@, i as int);
                }
                return (i, true);
            },
            Place::After => {
                proof {
                    order::lemma_before_irreflexive(rank@);
                    if order::before(here@, rank@) {
                        order::lemma_before_transitive(rank@, here@, rank@);
                    }
                    sorted_map::lemma_slot_unique::<Source, P::V>(all, rank@, i as int);
                }
                return (i, false);
            },
        }
        i = i + 1;
    }
    proof {
        sorted_map::lemma_slot_unique::<Source, P::V>(all, rank@, i as int);
    }
    (i, false)
}

fn put_offer<P: Datum>(offers: &mut Vec<Offer<P>>, source: Source, what: P)
    requires
        sorted_map::sorted::<Source, P::V>(wire::views(old(offers)@)),
    ensures
        wire::views(final(offers)@) == sorted_map::put::<Source, P::V>(
            wire::views(old(offers)@),
            source,
            what@,
        ),
{
    let (p, here) = find(offers, &source);
    let ghost was = wire::views(offers@);
    if here {
        proof {
            lemma_source_rank(was[p as int].0, source);
        }
        offers.set(p, Offer { source, what });
    } else {
        offers.insert(p, Offer { source, what });
    }
    assert(wire::views(offers@) =~= sorted_map::put::<Source, P::V>(was, source, what@));
}

fn drop_offer<P: Datum>(offers: &mut Vec<Offer<P>>, source: &Source)
    requires
        sorted_map::sorted::<Source, P::V>(wire::views(old(offers)@)),
    ensures
        wire::views(final(offers)@) == sorted_map::without::<Source, P::V>(
            wire::views(old(offers)@),
            Source::rank(*source),
        ),
{
    let (p, here) = find(offers, source);
    let ghost was = wire::views(offers@);
    if here {
        offers.remove(p);
    }
    assert(wire::views(offers@) =~= sorted_map::without::<Source, P::V>(was, Source::rank(*source)));
}

fn has_offer<P: Datum>(offers: &Vec<Offer<P>>, peer: &IpAddr) -> (r: bool)
    ensures
        r == offers_from(wire::views(offers@), *peer),
{
    let ghost all = wire::views(offers@);
    let mut i: usize = 0;
    while i < offers.len()
        invariant
            i <= offers.len(),
            all == wire::views(offers@),
            forall|j: int| 0 <= j < i ==> (#[trigger] all[j]).0.peer != *peer,
        decreases offers.len() - i,
    {
        assert(all[i as int] == offers@[i as int]@);
        if offers[i].source.peer.same(peer) {
            return true;
        }
        i = i + 1;
    }
    false
}

fn other_offers<P: Datum>(offers: &Vec<Offer<P>>, peer: &IpAddr) -> (r: Vec<Offer<P>>)
    ensures
        wire::views(r@) == others(wire::views(offers@), *peer),
{
    let ghost all = wire::views(offers@);
    let mut out: Vec<Offer<P>> = Vec::new();
    let mut i: usize = 0;
    assert(wire::views(out@) =~= others(all.take(0), *peer));
    while i < offers.len()
        invariant
            i <= offers.len(),
            all == wire::views(offers@),
            wire::views(out@) == others(all.take(i as int), *peer),
        decreases offers.len() - i,
    {
        let o = &offers[i];
        assert(all.take(i + 1).drop_last() =~= all.take(i as int));
        assert(all.take(i + 1).last() == o@);
        let ghost was = wire::views(out@);
        if !o.source.peer.same(peer) {
            let copy = o.dup();
            out.push(copy);
            assert(wire::views(out@) =~= was.push(o@));
        }
        i = i + 1;
    }
    assert(all.take(i as int) =~= all);
    out
}

impl<K: Ranked, S: Selector> Table<K, S> {
    /// How choices are made.
    pub closed spec fn selector(&self) -> S {
        self.sel
    }

    /// The table is in order.
    pub closed spec fn wf(&self) -> bool {
        self.slots.wf() && table_ok::<K, S>(self.sel, self.slots@)
    }

    /// A well-formed table is sorted by destination, and for each of them the choice is
    /// the one among its offers.
    pub proof fn lemma_wf(&self)
        requires
            self.wf(),
        ensures
            table_ok::<K, S>(self.selector(), self@),
    {
    }

    /// A table without offers.
    pub fn new(sel: S) -> (r: Self)
        ensures
            r.wf(),
            r.selector() == sel,
            r@.len() == 0,
    {
        Table { sel, slots: SortedMap::new() }
    }

    /// The number of destinations.
    pub fn len(&self) -> (r: usize)
        ensures
            r == self@.len(),
    {
        self.slots.len()
    }

    /// The destination at position `i`.
    pub fn key(&self, i: usize) -> (r: &K)
        requires
            i < self@.len(),
        ensures
            r@ == self@[i as int].0,
    {
        self.slots.key(i)
    }

    /// The slot at position `i`.
    pub fn slot(&self, i: usize) -> (r: &Slot<S>)
        requires
            self.wf(),
            i < self@.len(),
        ensures
            r@ == self@[i as int].1,
    {
        self.slots.value(i)
    }

    /// The slot of a destination.
    pub fn get(&self, k: &K) -> (r: Option<&Slot<S>>)
        requires
            self.wf(),
        ensures
            match r {
                Some(slot) => sorted_map::lookup::<
                    K,
                    SlotView<ItemV<S>, ChoiceV<S>>,
                >(self@, K::rank(k@)) == Some(slot@),
                None => sorted_map::lookup::<
                    K,
                    SlotView<ItemV<S>, ChoiceV<S>>,
                >(self@, K::rank(k@)) is None,
            },
    {
        self.slots.get(k)
    }

    /// The choice for a destination.
    pub fn choice(&self, k: &K) -> (r: Option<&S::Choice>)
        requires
            self.wf(),
        ensures
            match r {
                Some(c) => choice_at::<K, ItemV<S>, ChoiceV<S>>(
                    self@,
                    k@,
                ) == Some(c@),
                None => choice_at::<K, ItemV<S>, ChoiceV<S>>(
                    self@,
                    k@,
                ) is None,
            },
    {
        match self.slots.get(k) {
            Some(slot) => Some(&slot.choice),
            None => None,
        }
    }

    fn offers(&self, k: &K) -> (r: Vec<Offer<S::Item>>)
        requires
            self.wf(),
        ensures
            wire::views(r@) == offers_at::<K, ItemV<S>, ChoiceV<S>>(self@, k@),
            sorted_map::sorted::<Source, ItemV<S>>(wire::views(r@)),
    {
        match self.slots.position(k) {
            Some(i) => {
                let slot = self.slots.value(i);
                assert(slot_ok(self.sel, self@[i as int].1));
                order::dup_all(slot.offers.as_slice())
            },
            None => {
                let none: Vec<Offer<S::Item>> = Vec::new();
                assert(wire::views(none@) =~= Seq::empty());
                none
            },
        }
    }

    fn set_offers(&mut self, k: &K, offers: Vec<Offer<S::Item>>) -> (r: Option<Change<S::Choice>>)
        requires
            old(self).wf(),
            sorted_map::sorted::<Source, ItemV<S>>(wire::views(offers@)),
        ensures
            final(self).wf(),
            final(self).selector() == old(self).selector(),
            final(self)@ == with_offers::<K, S>(
                old(self).selector(),
                old(self)@,
                k@,
                wire::views(offers@),
            ),
            told(r, changed::<K, ItemV<S>, ChoiceV<S>>(old(self)@, final(self)@, k@)),
    {
        let ghost s = self@;
        let ghost o = wire::views(offers@);
        proof {
            lemma_with_offers::<K, S>(self.sel, s, k@, o);
        }
        let was = match self.slots.get(k) {
            Some(slot) => Some(slot.choice.dup()),
            None => None,
        };
        if offers.len() == 0 {
            self.slots.remove(k);
            match was {
                Some(_) => Some(Change::Gone),
                None => None,
            }
        } else {
            let choice = self.sel.select(&offers);
            let copy = choice.dup();
            let slot = Slot { offers, choice: copy };
            assert(slot@ == (SlotView { offers: o, choice: self.sel.chosen(o) }));
            self.slots.insert(k.dup(), slot);
            match was {
                Some(c) => if c.same(&choice) {
                    None
                } else {
                    Some(Change::Best(choice))
                },
                None => Some(Change::Best(choice)),
            }
        }
    }

    /// Take an offer for a destination, in place of the one that came from the same source.
    pub fn update(&mut self, source: Source, k: &K, what: S::Item) -> (r: Option<
        Change<S::Choice>,
    >)
        requires
            old(self).wf(),
        ensures
            final(self).wf(),
            final(self).selector() == old(self).selector(),
            final(self)@ == updated::<K, S>(
                old(self).selector(),
                old(self)@,
                source,
                k@,
                what@,
            ),
            told(r, changed::<K, ItemV<S>, ChoiceV<S>>(old(self)@, final(self)@, k@)),
    {
        let mut offers = self.offers(k);
        proof {
            sorted_map::lemma_put::<Source, ItemV<S>>(wire::views(offers@), source, what@);
        }
        put_offer(&mut offers, source, what);
        self.set_offers(k, offers)
    }

    /// Take back the offer for a destination that came from a source.
    pub fn withdraw(&mut self, source: Source, k: &K) -> (r: Option<Change<S::Choice>>)
        requires
            old(self).wf(),
        ensures
            final(self).wf(),
            final(self).selector() == old(self).selector(),
            final(self)@ == withdrawn::<K, S>(old(self).selector(), old(self)@, source, k@),
            told(r, changed::<K, ItemV<S>, ChoiceV<S>>(old(self)@, final(self)@, k@)),
    {
        let mut offers = self.offers(k);
        proof {
            sorted_map::lemma_without::<Source, ItemV<S>>(
                wire::views(offers@),
                Source::rank(source),
            );
        }
        drop_offer(&mut offers, &source);
        self.set_offers(k, offers)
    }

    /// Take back every offer of a peer for a destination.
    pub fn withdraw_all(&mut self, peer: IpAddr, k: &K) -> (r: Option<Change<S::Choice>>)
        requires
            old(self).wf(),
        ensures
            final(self).wf(),
            final(self).selector() == old(self).selector(),
            final(self)@ == dropped::<K, S>(old(self).selector(), old(self)@, peer, k@),
            told(r, changed::<K, ItemV<S>, ChoiceV<S>>(old(self)@, final(self)@, k@)),
    {
        let offers = self.offers(k);
        proof {
            lemma_others_sorted(wire::views(offers@), peer);
        }
        let left = other_offers(&offers, &peer);
        self.set_offers(k, left)
    }
}

/// The views of some changes.
pub open spec fn changes_view<K: View, C: View>(s: Seq<(K, Change<C>)>) -> Seq<
    (K::V, Change<C::V>),
> {
    Seq::new(s.len(), |i: int| (s[i].0@, change_view(s[i].1)))
}

impl<K: Ranked, S: Selector> Table<K, S> {
    /// Take back every offer of a peer; returns what changed, in the order of the
    /// destinations.
    pub fn withdraw_peer(&mut self, peer: IpAddr) -> (r: Vec<(K, Change<S::Choice>)>)
        requires
            old(self).wf(),
        ensures
            final(self).wf(),
            final(self).selector() == old(self).selector(),
            final(self)@ == without_peer::<K, S>(old(self).selector(), old(self)@, peer),
            changes_view(r@) == peer_changes::<K, S>(old(self).selector(), old(self)@, peer),
    {
        let ghost s = self@;
        let ghost sel = self.sel;
        let n = self.slots.len();
        let mut out: Vec<(K, Change<S::Choice>)> = Vec::new();
        let mut i: usize = 0;
        let mut seen: usize = 0;
        assert(changes_view(out@) =~= peer_changes::<K, S>(sel, s.take(0), peer));
        assert(self@ =~= without_peer::<K, S>(sel, s.take(0), peer) + s.skip(0));
        while seen < n
            invariant
                self.slots.wf(),
                self.sel == sel,
                table_ok::<K, S>(sel, s),
                n == s.len(),
                i <= seen <= n,
                i == without_peer::<K, S>(sel, s.take(seen as int), peer).len(),
                self@ == without_peer::<K, S>(sel, s.take(seen as int), peer) + s.skip(seen as int),
                changes_view(out@) == peer_changes::<K, S>(sel, s.take(seen as int), peer),
            decreases n - seen,
        {
            let ghost done = without_peer::<K, S>(sel, s.take(seen as int), peer);
            let ghost told_so_far = changes_view(out@);
            assert(self@[i as int] == s[seen as int]);
            assert(s.take(seen + 1).drop_last() =~= s.take(seen as int));
            assert(s.take(seen + 1).last() == s[seen as int]);
            assert(slot_ok(sel, s[seen as int].1));
            let slot = self.slots.value(i);
            let ghost offers = s[seen as int].1.offers;
            if has_offer(&slot.offers, &peer) {
                let left = other_offers(&slot.offers, &peer);
                let k = self.slots.key(i).dup();
                if left.len() == 0 {
                    self.slots.remove_at(i);
                    out.push((k, Change::Gone));
                    assert(changes_view(out@) =~= told_so_far.push((s[seen as int].0, Change::Gone)));
                    assert(self@ =~= done + s.skip(seen + 1));
                } else {
                    let choice = self.sel.select(&left);
                    let changed = !slot.choice.same(&choice);
                    let copy = choice.dup();
                    let ghost w = SlotView { offers: wire::views(left@), choice: choice@ };
                    self.slots.set_value(i, Slot { offers: left, choice: copy });
                    if changed {
                        out.push((k, Change::Best(choice)));
                        assert(changes_view(out@) =~= told_so_far.push(
                            (s[seen as int].0, Change::Best(choice@)),
                        ));
                    }
                    assert(self@ =~= done.push((s[seen as int].0, w)) + s.skip(seen + 1));
                    i = i + 1;
                }
            } else {
                proof {
                    lemma_others(offers, peer);
                }
                assert(self@ =~= done.push(s[seen as int]) + s.skip(seen + 1));
                i = i + 1;
            }
            seen = seen + 1;
        }
        assert(s.take(n as int) =~= s);
        assert(self@ =~= without_peer::<K, S>(sel, s, peer));
        proof {
            lemma_without_peer::<K, S>(sel, s, peer);
        }
        out
    }

    /// The destinations for which a peer has an offer, in order.
    pub fn keys_from(&self, peer: IpAddr) -> (r: Vec<K>)
        requires
            self.wf(),
        ensures
            wire::views(r@) == keys_from(self@, peer),
    {
        let ghost s = self@;
        let mut out: Vec<K> = Vec::new();
        let mut i: usize = 0;
        assert(wire::views(out@) =~= keys_from(s.take(0), peer));
        while i < self.slots.len()
            invariant
                self.wf(),
                s == self@,
                i <= s.len(),
                wire::views(out@) == keys_from(s.take(i as int), peer),
            decreases s.len() - i,
        {
            assert(s.take(i + 1).drop_last() =~= s.take(i as int));
            assert(s.take(i + 1).last() == s[i as int]);
            if has_offer(&self.slots.value(i).offers, &peer) {
                let k = self.slots.key(i).dup();
                proof {
                    wire::lemma_views_push(out@, k);
                }
                out.push(k);
            }
            i = i + 1;
        }
        assert(s.take(i as int) =~= s);
        out
    }
}

impl<K: Ranked, S: Selector + Copy> Clone for Table<K, S> {
    fn clone(&self) -> (r: Self)
        ensures
            r.selector() == self.selector(),
            self.wf() ==> r.wf() && r@ == self@,
    {
        Table { sel: self.sel, slots: self.slots.clone() }
    }
}

/// A change of a destination as callers are told of it.
pub trait Event: View + Sized {
    /// What destinations are.
    type Key: Ranked;

    /// What is chosen for them.
    type Choice: Datum;

    /// The event of a change.
    spec fn told(
        k: <Self::Key as View>::V,
        c: Change<<Self::Choice as View>::V>,
    ) -> Self::V;

    /// The event of a change.
    fn tell(k: Self::Key, c: Change<Self::Choice>) -> (r: Self)
        ensures
            r@ == Self::told(k@, change_view(c)),
    ;
}

/// A destination of an event, as a mathematical value.
pub type EventKey<E> = <<E as Event>::Key as View>::V;

/// A choice of an event, as a mathematical value.
pub type EventChoice<E> = <<E as Event>::Choice as View>::V;

/// The events of some changes.
pub open spec fn told_all<E: Event>(s: Seq<(EventKey<E>, Change<EventChoice<E>>)>) -> Seq<E::V> {
    Seq::new(s.len(), |i: int| E::told(s[i].0, s[i].1))
}

/// The event of a change, where there is one.
pub open spec fn told_one<E: Event>(
    k: EventKey<E>,
    c: Option<Change<EventChoice<E>>>,
) -> Option<E::V> {
    match c {
        Some(x) => Some(E::told(k, x)),
        None => None,
    }
}

/// The view of an event, where there is one.
pub open spec fn event_view<E: View>(r: Option<E>) -> Option<E::V> {
    match r {
        Some(ev) => Some(ev@),
        None => None,
    }
}

/// The event of a change, where there is one.
pub fn tell_one<E: Event>(k: E::Key, c: Option<Change<E::Choice>>) -> (r: Option<E>)
    ensures
        forall|d: Option<Change<EventChoice<E>>>| #[trigger]
            told(c, d) ==> event_view(r) == told_one::<E>(k@, d),
{
    match c {
        Some(x) => Some(E::tell(k, x)),
        None => None,
    }
}

/// The events of some changes.
pub fn tell_all<E: Event>(changes: Vec<(E::Key, Change<E::Choice>)>) -> (r: Vec<E>)
    ensures
        wire::views(r@) == told_all::<E>(changes_view(changes@)),
{
    let ghost all = changes_view(changes@);
    let n = changes.len();
    let mut left = changes;
    let mut back: Vec<E> = Vec::new();
    assert(all.take(n as int) =~= all);
    while left.len() > 0
        invariant
            changes_view(left@) == all.take(left@.len() as int),
            left@.len() + back@.len() == n,
            all.len() == n,
            forall|j: int|
                0 <= j < back@.len() ==> (#[trigger] back@[j])@ == E::told(
                    all[n - 1 - j].0,
                    all[n - 1 - j].1,
                ),
        decreases left@.len(),
    {
        let ghost before = left@;
        assert(changes_view(before)[before.len() - 1] == all[before.len() - 1]);
        if let Some((k, c)) = left.pop() {
            back.push(E::tell(k, c));
            assert(left@ =~= before.drop_last());
            assert(changes_view(left@) =~= all.take(left@.len() as int));
        }
    }
    let mut out: Vec<E> = Vec::new();
    while back.len() > 0
        invariant
            back@.len() + out@.len() == n,
            all.len() == n,
            forall|j: int|
                0 <= j < back@.len() ==> (#[trigger] back@[j])@ == E::told(
                    all[n - 1 - j].0,
                    all[n - 1 - j].1,
                ),
            forall|j: int|
                0 <= j < out@.len() ==> (#[trigger] out@[j])@ == E::told(all[j].0, all[j].1),
        decreases back@.len(),
    {
        if let Some(ev) = back.pop() {
            out.push(ev);
        }
    }
    assert(wire::views(out@) =~= told_all::<E>(all));
    out
}

/// A table without a peer is in order.
proof fn lemma_without_peer<K: Ranked, S: Selector>(
    sel: S,
    s: Slots<K::V, ItemV<S>, ChoiceV<S>>,
    peer: IpAddr,
)
    requires
        table_ok::<K, S>(sel, s),
    ensures
        table_ok::<K, S>(sel, without_peer::<K, S>(sel, s, peer)),
        forall|i: int|
            0 <= i < without_peer::<K, S>(sel, s, peer).len() ==> exists|j: int|
                0 <= j < s.len() && (#[trigger] s[j]).0 == (#[trigger] without_peer::<K, S>(
                    sel,
                    s,
                    peer,
                )[i]).0,
    decreases s.len(),
{
    if s.len() > 0 {
        let front = s.drop_last();
        let t = without_peer::<K, S>(sel, s, peer);
        let u = without_peer::<K, S>(sel, front, peer);
        assert(table_ok::<K, S>(sel, front)) by {
            assert forall|i: int, j: int| 0 <= i < j < front.len() implies order::before(
                K::rank((#[trigger] front[i]).0),
                K::rank((#[trigger] front[j]).0),
            ) by {
                assert(front[i] == s[i] && front[j] == s[j]);
            }
            assert forall|i: int| 0 <= i < front.len() implies slot_ok(
                sel,
                (#[trigger] front[i]).1,
            ) by {
                assert(front[i] == s[i]);
            }
        }
        lemma_without_peer::<K, S>(sel, front, peer);
        let last = s[s.len() - 1];
        assert(slot_ok(sel, last.1));
        lemma_others_sorted(last.1.offers, peer);
        assert forall|i: int| 0 <= i < t.len() implies exists|j: int|
            0 <= j < s.len() && (#[trigger] s[j]).0 == (#[trigger] t[i]).0 by {
            if i < u.len() {
                assert(t[i] == u[i]);
                let j = choose|j: int| 0 <= j < front.len() && (#[trigger] front[j]).0 == u[i].0;
                assert(s[j].0 == t[i].0);
            } else {
                assert(s[s.len() - 1].0 == t[i].0);
            }
        }
        assert forall|i: int, j: int| 0 <= i < j < t.len() implies order::before(
            K::rank((#[trigger] t[i]).0),
            K::rank((#[trigger] t[j]).0),
        ) by {
            assert(t[i] == u[i]);
            if j < u.len() {
                assert(t[j] == u[j]);
            } else {
                let a = choose|a: int| 0 <= a < front.len() && (#[trigger] front[a]).0 == u[i].0;
                assert(s[a].0 == t[i].0);
            }
        }
        assert forall|i: int| 0 <= i < t.len() implies slot_ok(sel, (#[trigger] t[i]).1) by {
            if i < u.len() {
                assert(t[i] == u[i]);
            }
        }
    }
}

/// Whether an executable change is a mathematical one.
pub open spec fn told<C: View>(r: Option<Change<C>>, c: Option<Change<C::V>>) -> bool {
    match r {
        Some(x) => c == Some(change_view(x)),
        None => c is None,
    }
}

/// Other offers for a destination: the table stays in order, the destination has those
/// offers and the choice among them, and every other destination what it had.
pub proof fn lemma_with_offers<K: Ranked, S: Selector>(
    sel: S,
    s: Slots<K::V, ItemV<S>, ChoiceV<S>>,
    k: K::V,
    offers: Seq<(Source, ItemV<S>)>,
)
    requires
        table_ok::<K, S>(sel, s),
        sorted_map::sorted::<Source, ItemV<S>>(offers),
    ensures
        table_ok::<K, S>(sel, with_offers::<K, S>(sel, s, k, offers)),
        offers_at::<K, ItemV<S>, ChoiceV<S>>(
            with_offers::<K, S>(sel, s, k, offers),
            k,
        ) == offers,
        choice_at::<K, ItemV<S>, ChoiceV<S>>(
            with_offers::<K, S>(sel, s, k, offers),
            k,
        ) == (if offers.len() == 0 {
            None
        } else {
            Some(sel.chosen(offers))
        }),
        forall|q: Seq<u64>|
            q != K::rank(k) ==> #[trigger] sorted_map::lookup::<
                K,
                SlotView<ItemV<S>, ChoiceV<S>>,
            >(with_offers::<K, S>(sel, s, k, offers), q) == sorted_map::lookup::<
                K,
                SlotView<ItemV<S>, ChoiceV<S>>,
            >(s, q),
{
    let r = K::rank(k);
    let t = with_offers::<K, S>(sel, s, k, offers);
    sorted_map::lemma_slot::<K, SlotView<ItemV<S>, ChoiceV<S>>>(s, r);
    let p = sorted_map::slot::<K, SlotView<ItemV<S>, ChoiceV<S>>>(s, r);
    if offers.len() == 0 {
        sorted_map::lemma_without::<K, SlotView<ItemV<S>, ChoiceV<S>>>(
            s,
            r,
        );
        assert(offers =~= Seq::empty());
        assert forall|i: int| 0 <= i < t.len() implies slot_ok(sel, (#[trigger] t[i]).1) by {
            if t.len() < s.len() && i >= p {
                assert(t[i] == s[i + 1]);
            } else {
                assert(t[i] == s[i]);
            }
        }
    } else {
        let w = SlotView { offers, choice: sel.chosen(offers) };
        sorted_map::lemma_put::<K, SlotView<ItemV<S>, ChoiceV<S>>>(s, k, w);
        assert forall|i: int| 0 <= i < t.len() implies slot_ok(sel, (#[trigger] t[i]).1) by {
            if i == p {
                assert(t[i].1 == w);
            } else if t.len() == s.len() || i < p {
                assert(t[i] == s[i]);
            } else {
                assert(t[i] == s[i - 1]);
            }
        }
    }
}

proof fn lemma_offers_sorted<K: Ranked, S: Selector>(
    sel: S,
    s: Slots<K::V, ItemV<S>, ChoiceV<S>>,
    k: K::V,
)
    requires
        table_ok::<K, S>(sel, s),
    ensures
        sorted_map::sorted::<Source, ItemV<S>>(offers_at::<K, ItemV<S>, ChoiceV<S>>(s, k)),
        choice_at::<K, ItemV<S>, ChoiceV<S>>(s, k) == (if offers_at::<K, ItemV<S>, ChoiceV<S>>(
            s,
            k,
        ).len() == 0 {
            None
        } else {
            Some(sel.chosen(offers_at::<K, ItemV<S>, ChoiceV<S>>(s, k)))
        }),
{
    let r = K::rank(k);
    sorted_map::lemma_slot::<K, SlotView<ItemV<S>, ChoiceV<S>>>(s, r);
    if sorted_map::present::<K, SlotView<ItemV<S>, ChoiceV<S>>>(s, r) {
        let i = sorted_map::slot::<K, SlotView<ItemV<S>, ChoiceV<S>>>(s, r);
        assert(slot_ok(sel, s[i].1));
    }
}

/// In a table that is in order, the choice for every destination is the one among its
/// offers, and there is one where there are offers.
pub proof fn lemma_choice_is_true<K: Ranked, S: Selector>(
    sel: S,
    s: Slots<K::V, ItemV<S>, ChoiceV<S>>,
    k: K::V,
)
    requires
        table_ok::<K, S>(sel, s),
    ensures
        choice_at::<K, ItemV<S>, ChoiceV<S>>(s, k) == (if offers_at::<K, ItemV<S>, ChoiceV<S>>(
            s,
            k,
        ).len() == 0 {
            None
        } else {
            Some(sel.chosen(offers_at::<K, ItemV<S>, ChoiceV<S>>(s, k)))
        }),
{
    lemma_offers_sorted::<K, S>(sel, s, k);
}

/// The offers that a destination has change nothing when they are set again.
proof fn lemma_offers_again<K: Ranked, S: Selector>(
    sel: S,
    s: Slots<K::V, ItemV<S>, ChoiceV<S>>,
    k: K::V,
)
    requires
        table_ok::<K, S>(sel, s),
    ensures
        with_offers::<K, S>(sel, s, k, offers_at::<K, ItemV<S>, ChoiceV<S>>(s, k)) == s,
{
    let r = K::rank(k);
    let o = offers_at::<K, ItemV<S>, ChoiceV<S>>(s, k);
    sorted_map::lemma_slot::<K, SlotView<ItemV<S>, ChoiceV<S>>>(s, r);
    if sorted_map::present::<K, SlotView<ItemV<S>, ChoiceV<S>>>(s, r) {
        let i = sorted_map::slot::<K, SlotView<ItemV<S>, ChoiceV<S>>>(s, r);
        assert(slot_ok(sel, s[i].1));
        sorted_map::lemma_put_again::<K, SlotView<ItemV<S>, ChoiceV<S>>>(
            s,
            k,
            (SlotView { offers: o, choice: sel.chosen(o) }),
        );
    }
}

/// An offer that is there already changes nothing when it comes again.
pub proof fn lemma_update_again<K: Ranked, S: Selector>(
    sel: S,
    s: Slots<K::V, ItemV<S>, ChoiceV<S>>,
    k: K::V,
    source: Source,
    what: ItemV<S>,
)
    requires
        table_ok::<K, S>(sel, s),
        sorted_map::lookup::<Source, ItemV<S>>(
            offers_at::<K, ItemV<S>, ChoiceV<S>>(s, k),
            Source::rank(source),
        ) == Some(what),
    ensures
        updated::<K, S>(sel, s, source, k, what) == s,
{
    lemma_offers_sorted::<K, S>(sel, s, k);
    sorted_map::lemma_put_again::<Source, ItemV<S>>(
        offers_at::<K, ItemV<S>, ChoiceV<S>>(s, k),
        source,
        what,
    );
    lemma_offers_again::<K, S>(sel, s, k);
}

/// Taking back an offer that is not there changes nothing.
pub proof fn lemma_withdraw_absent<K: Ranked, S: Selector>(
    sel: S,
    s: Slots<K::V, ItemV<S>, ChoiceV<S>>,
    k: K::V,
    source: Source,
)
    requires
        table_ok::<K, S>(sel, s),
        !sorted_map::present::<Source, ItemV<S>>(
            offers_at::<K, ItemV<S>, ChoiceV<S>>(s, k),
            Source::rank(source),
        ),
    ensures
        withdrawn::<K, S>(sel, s, source, k) == s,
{
    lemma_offers_again::<K, S>(sel, s, k);
}

/// Taking back a new offer gives back the table that there was.
pub proof fn lemma_withdraw_undoes<K: Ranked, S: Selector>(
    sel: S,
    s: Slots<K::V, ItemV<S>, ChoiceV<S>>,
    k: K::V,
    source: Source,
    what: ItemV<S>,
)
    requires
        table_ok::<K, S>(sel, s),
        !sorted_map::present::<Source, ItemV<S>>(
            offers_at::<K, ItemV<S>, ChoiceV<S>>(s, k),
            Source::rank(source),
        ),
    ensures
        withdrawn::<K, S>(sel, updated::<K, S>(sel, s, source, k, what), source, k) == s,
{
    let o = offers_at::<K, ItemV<S>, ChoiceV<S>>(s, k);
    let p = sorted_map::put::<Source, ItemV<S>>(o, source, what);
    lemma_offers_sorted::<K, S>(sel, s, k);
    sorted_map::lemma_put::<Source, ItemV<S>>(o, source, what);
    sorted_map::lemma_put_without::<Source, ItemV<S>>(o, source, what);
    lemma_with_offers::<K, S>(sel, s, k, p);
    lemma_offers_again::<K, S>(sel, s, k);
    let w = SlotView { offers: p, choice: sel.chosen(p) };
    if o.len() == 0 {
        sorted_map::lemma_slot::<K, SlotView<ItemV<S>, ChoiceV<S>>>(s, K::rank(k));
        if sorted_map::present::<K, SlotView<ItemV<S>, ChoiceV<S>>>(s, K::rank(k)) {
            let i = sorted_map::slot::<K, SlotView<ItemV<S>, ChoiceV<S>>>(s, K::rank(k));
            assert(slot_ok(sel, s[i].1));
        }
        sorted_map::lemma_put_without::<K, SlotView<ItemV<S>, ChoiceV<S>>>(s, k, w);
    } else {
        sorted_map::lemma_put_twice::<K, SlotView<ItemV<S>, ChoiceV<S>>>(
            s,
            k,
            w,
            (SlotView { offers: o, choice: sel.chosen(o) }),
        );
    }
}

/// The order in which offers for a destination come from two sources does not matter.
pub proof fn lemma_updates_commute<K: Ranked, S: Selector>(
    sel: S,
    s: Slots<K::V, ItemV<S>, ChoiceV<S>>,
    k: K::V,
    a: Source,
    x: ItemV<S>,
    b: Source,
    y: ItemV<S>,
)
    requires
        table_ok::<K, S>(sel, s),
        a != b,
    ensures
        updated::<K, S>(sel, updated::<K, S>(sel, s, a, k, x), b, k, y) == updated::<K, S>(
            sel,
            updated::<K, S>(sel, s, b, k, y),
            a,
            k,
            x,
        ),
{
    let o = offers_at::<K, ItemV<S>, ChoiceV<S>>(s, k);
    let oa = sorted_map::put::<Source, ItemV<S>>(o, a, x);
    let ob = sorted_map::put::<Source, ItemV<S>>(o, b, y);
    lemma_offers_sorted::<K, S>(sel, s, k);
    sorted_map::lemma_put::<Source, ItemV<S>>(o, a, x);
    sorted_map::lemma_put::<Source, ItemV<S>>(o, b, y);
    lemma_with_offers::<K, S>(sel, s, k, oa);
    lemma_with_offers::<K, S>(sel, s, k, ob);
    assert forall|p: Source, q: Source| #[trigger] Source::rank(p) == #[trigger] Source::rank(
        q,
    ) implies p == q by {
        lemma_source_rank(p, q);
    }
    sorted_map::lemma_put_commutes::<Source, ItemV<S>>(o, a, x, b, y);
    let oc = sorted_map::put::<Source, ItemV<S>>(oa, b, y);
    let w = SlotView { offers: oc, choice: sel.chosen(oc) };
    sorted_map::lemma_put_twice::<K, SlotView<ItemV<S>, ChoiceV<S>>>(
        s,
        k,
        (SlotView { offers: oa, choice: sel.chosen(oa) }),
        w,
    );
    sorted_map::lemma_put_twice::<K, SlotView<ItemV<S>, ChoiceV<S>>>(
        s,
        k,
        (SlotView { offers: ob, choice: sel.chosen(ob) }),
        w,
    );
    sorted_map::lemma_slot::<Source, ItemV<S>>(oa, Source::rank(b));
    sorted_map::lemma_slot::<Source, ItemV<S>>(o, Source::rank(a));
    sorted_map::lemma_slot::<Source, ItemV<S>>(o, Source::rank(b));
}

/// Without a peer, every destination has the offers of the others.
pub proof fn lemma_without_peer_at<K: Ranked, S: Selector>(
    sel: S,
    s: Slots<K::V, ItemV<S>, ChoiceV<S>>,
    peer: IpAddr,
    k: K::V,
)
    requires
        table_ok::<K, S>(sel, s),
    ensures
        table_ok::<K, S>(sel, without_peer::<K, S>(sel, s, peer)),
        offers_at::<K, ItemV<S>, ChoiceV<S>>(without_peer::<K, S>(sel, s, peer), k) == others(
            offers_at::<K, ItemV<S>, ChoiceV<S>>(s, k),
            peer,
        ),
    decreases s.len(),
{
    lemma_without_peer::<K, S>(sel, s, peer);
    if s.len() > 0 {
        let r = K::rank(k);
        let front = s.drop_last();
        let n = front.len() as int;
        let last = s[n];
        let u = without_peer::<K, S>(sel, front, peer);
        let t = without_peer::<K, S>(sel, s, peer);
        assert(table_ok::<K, S>(sel, front)) by {
            assert forall|i: int, j: int| 0 <= i < j < front.len() implies order::before(
                K::rank((#[trigger] front[i]).0),
                K::rank((#[trigger] front[j]).0),
            ) by {
                assert(front[i] == s[i] && front[j] == s[j]);
            }
            assert forall|i: int| 0 <= i < front.len() implies slot_ok(
                sel,
                (#[trigger] front[i]).1,
            ) by {
                assert(front[i] == s[i]);
            }
        }
        lemma_without_peer::<K, S>(sel, front, peer);
        lemma_without_peer_at::<K, S>(sel, front, peer, k);
        let left = others(last.1.offers, peer);
        if K::rank(last.0) == r {
            sorted_map::lemma_lookup_at::<K, SlotView<ItemV<S>, ChoiceV<S>>>(s, n);
            if left.len() > 0 {
                sorted_map::lemma_lookup_at::<K, SlotView<ItemV<S>, ChoiceV<S>>>(t, u.len() as int);
            } else {
                assert(left =~= Seq::empty());
                sorted_map::lemma_slot::<K, SlotView<ItemV<S>, ChoiceV<S>>>(u, r);
                if sorted_map::present::<K, SlotView<ItemV<S>, ChoiceV<S>>>(u, r) {
                    let i = sorted_map::slot::<K, SlotView<ItemV<S>, ChoiceV<S>>>(u, r);
                    let j = choose|j: int| 0 <= j < front.len() && (#[trigger] front[j]).0 == u[i].0;
                    assert(s[j].0 == u[i].0);
                    order::lemma_before_irreflexive(r);
                }
            }
        } else {
            assert(s =~= front.insert(n, last));
            sorted_map::lemma_same_elsewhere::<K, SlotView<ItemV<S>, ChoiceV<S>>>(
                front,
                s,
                n,
                false,
                r,
            );
            if left.len() > 0 {
                assert(t =~= u.insert(u.len() as int, t.last()));
                sorted_map::lemma_same_elsewhere::<K, SlotView<ItemV<S>, ChoiceV<S>>>(
                    u,
                    t,
                    u.len() as int,
                    false,
                    r,
                );
            }
        }
    }
}

/// How the choice for the destination at position `i` changes when a peer goes.
pub open spec fn change_at<K: Ranked, S: Selector>(
    sel: S,
    s: Slots<K::V, ItemV<S>, ChoiceV<S>>,
    peer: IpAddr,
    i: int,
) -> Option<Change<ChoiceV<S>>> {
    changed::<K, ItemV<S>, ChoiceV<S>>(s, without_peer::<K, S>(sel, s, peer), s[i].0)
}

/// When a peer goes, exactly the destinations whose choice changes are told, and how it
/// changes.
pub proof fn lemma_peer_changes_are_true<K: Ranked, S: Selector>(
    sel: S,
    s: Slots<K::V, ItemV<S>, ChoiceV<S>>,
    peer: IpAddr,
)
    requires
        table_ok::<K, S>(sel, s),
    ensures
        forall|i: int, c: Change<ChoiceV<S>>|
            #![trigger s[i], peer_changes::<K, S>(sel, s, peer).contains((s[i].0, c))]
            0 <= i < s.len() && change_at::<K, S>(sel, s, peer, i) == Some(c) ==> peer_changes::<
                K,
                S,
            >(sel, s, peer).contains((s[i].0, c)),
        forall|j: int|
            0 <= j < peer_changes::<K, S>(sel, s, peer).len() ==> exists|i: int|
                0 <= i < s.len() && (#[trigger] s[i]).0 == (#[trigger] peer_changes::<K, S>(
                    sel,
                    s,
                    peer,
                )[j]).0 && change_at::<K, S>(sel, s, peer, i) == Some(
                    peer_changes::<K, S>(sel, s, peer)[j].1,
                ),
{
    let all = peer_changes::<K, S>(sel, s, peer);
    assert forall|i: int| 0 <= i < s.len() implies change_at::<K, S>(sel, s, peer, i)
        == slot_change(sel, (#[trigger] s[i]).1, peer) by {
        let k = s[i].0;
        lemma_without_peer_at::<K, S>(sel, s, peer, k);
        lemma_choice_is_true::<K, S>(sel, without_peer::<K, S>(sel, s, peer), k);
        sorted_map::lemma_lookup_at::<K, SlotView<ItemV<S>, ChoiceV<S>>>(s, i);
    }
    assert forall|i: int, c: Change<ChoiceV<S>>|
        #![trigger s[i], all.contains((s[i].0, c))]
        0 <= i < s.len() && change_at::<K, S>(sel, s, peer, i) == Some(c) implies all.contains(
        (s[i].0, c),
    ) by {
        lemma_change_told::<K, S>(sel, s, peer, i, c);
    }
    assert forall|j: int| 0 <= j < all.len() implies exists|i: int|
        0 <= i < s.len() && (#[trigger] s[i]).0 == (#[trigger] all[j]).0 && change_at::<K, S>(
            sel,
            s,
            peer,
            i,
        ) == Some(all[j].1) by {
        let i = lemma_told_is_change::<K, S>(sel, s, peer, j);
        assert(s[i].0 == all[j].0);
    }
}

spec fn slot_change<S: Selector>(
    sel: S,
    slot: SlotView<ItemV<S>, ChoiceV<S>>,
    peer: IpAddr,
) -> Option<Change<ChoiceV<S>>> {
    let left = others(slot.offers, peer);
    difference(
        Some(slot.choice),
        if left.len() == 0 {
            None
        } else {
            Some(sel.chosen(left))
        },
    )
}

proof fn lemma_told_is_change<K: Ranked, S: Selector>(
    sel: S,
    s: Slots<K::V, ItemV<S>, ChoiceV<S>>,
    peer: IpAddr,
    j: int,
) -> (i: int)
    requires
        0 <= j < peer_changes::<K, S>(sel, s, peer).len(),
    ensures
        0 <= i < s.len(),
        s[i].0 == peer_changes::<K, S>(sel, s, peer)[j].0,
        slot_change(sel, s[i].1, peer) == Some(peer_changes::<K, S>(sel, s, peer)[j].1),
    decreases s.len(),
{
    let front = s.drop_last();
    let rest = peer_changes::<K, S>(sel, front, peer);
    if j < rest.len() {
        let i = lemma_told_is_change::<K, S>(sel, front, peer, j);
        assert(front[i] == s[i]);
        i
    } else {
        s.len() - 1
    }
}

proof fn lemma_change_told<K: Ranked, S: Selector>(
    sel: S,
    s: Slots<K::V, ItemV<S>, ChoiceV<S>>,
    peer: IpAddr,
    i: int,
    c: Change<ChoiceV<S>>,
)
    requires
        0 <= i < s.len(),
        slot_change(sel, s[i].1, peer) == Some(c),
    ensures
        peer_changes::<K, S>(sel, s, peer).contains((s[i].0, c)),
    decreases s.len(),
{
    let front = s.drop_last();
    let rest = peer_changes::<K, S>(sel, front, peer);
    let all = peer_changes::<K, S>(sel, s, peer);
    if i < front.len() {
        assert(front[i] == s[i]);
        lemma_change_told::<K, S>(sel, front, peer, i, c);
        let j = choose|j: int| 0 <= j < rest.len() && rest[j] == (s[i].0, c);
        assert(all[j] == (s[i].0, c));
    } else {
        assert(all[all.len() - 1] == (s[i].0, c));
    }
}

/// Whoever follows the changes knows the choices: a change tells the choice that there is
/// after it, or that there is none, and there is no change where the choice stays.
pub proof fn lemma_changes_tell_all<K: Ranked, P, C>(
    was: Slots<K::V, P, C>,
    is: Slots<K::V, P, C>,
    k: K::V,
)
    ensures
        choice_at::<K, P, C>(is, k) == (match changed::<K, P, C>(was, is, k) {
            None => choice_at::<K, P, C>(was, k),
            Some(Change::Best(c)) => Some(c),
            Some(Change::Gone) => None,
        }),
        changed::<K, P, C>(was, is, k) is None <==> choice_at::<K, P, C>(was, k) == choice_at::<
            K,
            P,
            C,
        >(is, k),
{
}

/// Offers for a destination from two sources stand side by side, be they two peers or two
/// path identifiers of one peer.
pub proof fn lemma_sources_coexist<K: Ranked, S: Selector>(
    sel: S,
    s: Slots<K::V, ItemV<S>, ChoiceV<S>>,
    k: K::V,
    a: Source,
    x: ItemV<S>,
    b: Source,
    y: ItemV<S>,
)
    requires
        table_ok::<K, S>(sel, s),
        a != b,
    ensures
        ({
            let t = updated::<K, S>(sel, updated::<K, S>(sel, s, a, k, x), b, k, y);
            let o = offers_at::<K, ItemV<S>, ChoiceV<S>>(t, k);
            sorted_map::lookup::<Source, ItemV<S>>(o, Source::rank(a)) == Some(x)
                && sorted_map::lookup::<Source, ItemV<S>>(o, Source::rank(b)) == Some(y)
        }),
{
    let o = offers_at::<K, ItemV<S>, ChoiceV<S>>(s, k);
    let oa = sorted_map::put::<Source, ItemV<S>>(o, a, x);
    let ob = sorted_map::put::<Source, ItemV<S>>(oa, b, y);
    lemma_offers_sorted::<K, S>(sel, s, k);
    sorted_map::lemma_put::<Source, ItemV<S>>(o, a, x);
    sorted_map::lemma_put::<Source, ItemV<S>>(oa, b, y);
    lemma_with_offers::<K, S>(sel, s, k, oa);
    lemma_with_offers::<K, S>(sel, updated::<K, S>(sel, s, a, k, x), k, ob);
    if Source::rank(a) == Source::rank(b) {
        lemma_source_rank(a, b);
    }
}

/// Offers stand in the order of their peers' addresses, and those of one peer in that of their
/// path identifiers: of equally good ones the first is chosen.
pub proof fn lemma_offers_stand_in_order(a: Source, b: Source, k: int)
    ensures
        a.peer == b.peer && a.path_id < b.path_id ==> order::before(Source::rank(a), Source::rank(b)),
        a.peer is V4 && b.peer is V6 ==> order::before(Source::rank(a), Source::rank(b)),
        (a.peer is V4) == (b.peer is V4) && 0 <= k < a.peer.bytes().len() && a.peer.bytes()[k]
            < b.peer.bytes()[k] && (forall|i: int|
            0 <= i < k ==> a.peer.bytes()[i] == b.peer.bytes()[i]) ==> order::before(
            Source::rank(a),
            Source::rank(b),
        ),
{
    let (x, y) = (Source::rank(a), Source::rank(b));
    if a.peer is V4 && b.peer is V6 {
        order::lemma_first_difference_decides(x, y, 0);
    } else if a.peer == b.peer && a.path_id < b.path_id {
        order::lemma_first_difference_decides(x, y, a.peer.bytes().len() + 1int);
    } else if (a.peer is V4) == (b.peer is V4) && 0 <= k < a.peer.bytes().len() && a.peer.bytes()[k]
        < b.peer.bytes()[k] && (forall|i: int|
        0 <= i < k ==> a.peer.bytes()[i] == b.peer.bytes()[i]) {
        assert forall|i: int| 0 <= i < k + 1 implies x[i] == y[i] by {
            if i > 0 {
                assert(a.peer.bytes()[i - 1] == b.peer.bytes()[i - 1]);
            }
        }
        order::lemma_first_difference_decides(x, y, k + 1);
    }
}

} // verus!
