//! Link-state objects that peers offer, and the best offer for each (RFC 7752).

use vstd::prelude::*;

use crate::bgp::decision::{Path, PathView};
use crate::bgp::link_state::{BgpLsAttribute, LinkStateNlri, LsView};
use crate::bgp::selection;
use crate::bgp::selection::{best_index, Carried};
use crate::bgp::table;
use crate::bgp::table::{Change, Event, Offer, Selector, Slots, Source, Table};
use crate::bgp::tlv::TlvView;
use crate::net::IpAddr;
use crate::order::Datum;
use crate::wire;

verus! {

/// The attributes of an object, with the path on which they came.
#[derive(Clone, PartialEq, Eq, Debug)]
pub struct LinkStateEntry {
    /// The path on which it came.
    pub path: Path,
    pub attr: BgpLsAttribute,
}

/// The same as a mathematical value.
#[verifier::ext_equal]
pub struct LinkStateEntryView {
    pub path: PathView,
    pub attr: Seq<TlvView>,
}

impl View for LinkStateEntry {
    type V = LinkStateEntryView;

    open spec fn view(&self) -> LinkStateEntryView {
        LinkStateEntryView { path: self.path@, attr: self.attr@ }
    }
}

impl Datum for LinkStateEntry {
    fn dup(&self) -> (r: LinkStateEntry) {
        LinkStateEntry { path: self.path.dup(), attr: self.attr.dup() }
    }

    fn same(&self, other: &LinkStateEntry) -> (r: bool) {
        self.path.same(&other.path) && self.attr.same(&other.attr)
    }
}

impl Carried for LinkStateEntry {
    open spec fn path(v: LinkStateEntryView) -> PathView {
        v.path
    }

    fn path_of(&self) -> (r: &Path) {
        &self.path
    }
}

/// The choice of the one that came on the best path.
#[derive(Clone, Copy, PartialEq, Eq, Debug)]
pub struct BestObject;

impl Selector for BestObject {
    type Item = LinkStateEntry;

    type Choice = LinkStateEntry;

    open spec fn chosen(&self, offers: Seq<(Source, LinkStateEntryView)>) -> LinkStateEntryView {
        selection::best_of::<LinkStateEntry>(offers)
    }

    fn select(&self, offers: &Vec<Offer<LinkStateEntry>>) -> (r: LinkStateEntry) {
        offers[best_index(offers)].what.dup()
    }
}

/// What changed.
#[derive(Clone, PartialEq, Eq, Debug)]
pub enum LinkStateRibEvent {
    /// There is another best offer than before for an object.
    Best { nlri: LinkStateNlri, entry: LinkStateEntry },
    /// There is no offer left for an object.
    Withdrawn(LinkStateNlri),
}

/// A change as a mathematical value.
#[verifier::ext_equal]
pub enum LinkStateEventView {
    Best { nlri: LsView, entry: LinkStateEntryView },
    Withdrawn(LsView),
}

impl View for LinkStateRibEvent {
    type V = LinkStateEventView;

    open spec fn view(&self) -> LinkStateEventView {
        match *self {
            LinkStateRibEvent::Best { nlri, entry } => LinkStateEventView::Best {
                nlri: nlri@,
                entry: entry@,
            },
            LinkStateRibEvent::Withdrawn(nlri) => LinkStateEventView::Withdrawn(nlri@),
        }
    }
}

impl Event for LinkStateRibEvent {
    type Key = LinkStateNlri;

    type Choice = LinkStateEntry;

    open spec fn told(nlri: LsView, c: Change<LinkStateEntryView>) -> LinkStateEventView {
        match c {
            Change::Best(entry) => LinkStateEventView::Best { nlri, entry },
            Change::Gone => LinkStateEventView::Withdrawn(nlri),
        }
    }

    fn tell(nlri: LinkStateNlri, c: Change<LinkStateEntry>) -> (r: LinkStateRibEvent) {
        match c {
            Change::Best(entry) => LinkStateRibEvent::Best { nlri, entry },
            Change::Gone => LinkStateRibEvent::Withdrawn(nlri),
        }
    }
}

/// What the table holds for each object: the offers, and the best of them.
pub type LinkStates = Slots<LsView, LinkStateEntryView, LinkStateEntryView>;

/// The best offer for an object.
pub open spec fn best_for(s: LinkStates, nlri: LsView) -> Option<LinkStateEntryView> {
    table::choice_at::<LinkStateNlri, LinkStateEntryView, LinkStateEntryView>(s, nlri)
}

/// The event when the table goes from one state to another by a change to the offers for
/// an object; none where the best one stays.
pub open spec fn event_between(
    was: LinkStates,
    is: LinkStates,
    nlri: LsView,
) -> Option<LinkStateEventView> {
    table::told_one::<LinkStateRibEvent>(
        nlri,
        table::changed::<LinkStateNlri, LinkStateEntryView, LinkStateEntryView>(was, is, nlri),
    )
}

/// What every peer offers for every object, and the best of it.
pub struct LinkStateRib {
    table: Table<LinkStateNlri, BestObject>,
}

impl Clone for LinkStateRib {
    fn clone(&self) -> (r: LinkStateRib)
        ensures
            self.wf() ==> r.wf() && r@ == self@,
    {
        LinkStateRib { table: self.table.clone() }
    }
}

impl View for LinkStateRib {
    type V = LinkStates;

    closed spec fn view(&self) -> LinkStates {
        self.table@
    }
}

impl Default for LinkStateRib {
    fn default() -> (r: LinkStateRib)
        ensures
            r.wf(),
            r@.len() == 0,
    {
        LinkStateRib::new()
    }
}

impl LinkStateRib {
    /// The table is in order.
    pub closed spec fn wf(&self) -> bool {
        self.table.wf() && self.table.selector() == BestObject
    }

    /// For every object with offers the best one is the one that the decision process
    /// chooses among them, and no other object is there.
    pub proof fn lemma_wf(&self)
        requires
            self.wf(),
        ensures
            table::table_ok::<LinkStateNlri, BestObject>(BestObject, self@),
    {
        self.table.lemma_wf();
    }

    /// An empty table.
    pub fn new() -> (r: LinkStateRib)
        ensures
            r.wf(),
            r@.len() == 0,
    {
        LinkStateRib { table: Table::new(BestObject) }
    }

    /// Take what a peer offers for an object.
    pub fn update(&mut self, peer: IpAddr, nlri: LinkStateNlri, entry: LinkStateEntry) -> (r: Option<
        LinkStateRibEvent,
    >)
        requires
            old(self).wf(),
        ensures
            final(self).wf(),
            final(self)@ == table::updated::<LinkStateNlri, BestObject>(
                BestObject,
                old(self)@,
                (Source { peer, path_id: 0 }),
                nlri@,
                entry@,
            ),
            table::event_view(r) == event_between(old(self)@, final(self)@, nlri@),
    {
        let c = self.table.update(Source { peer, path_id: 0 }, &nlri, entry);
        table::tell_one::<LinkStateRibEvent>(nlri, c)
    }

    /// Take back what a peer offered for an object.
    pub fn withdraw(&mut self, peer: IpAddr, nlri: LinkStateNlri) -> (r: Option<LinkStateRibEvent>)
        requires
            old(self).wf(),
        ensures
            final(self).wf(),
            final(self)@ == table::dropped::<LinkStateNlri, BestObject>(
                BestObject,
                old(self)@,
                peer,
                nlri@,
            ),
            table::event_view(r) == event_between(old(self)@, final(self)@, nlri@),
    {
        let c = self.table.withdraw_all(peer, &nlri);
        table::tell_one::<LinkStateRibEvent>(nlri, c)
    }

    /// Take back everything that a peer offered; returns the changes, in the order of the
    /// objects.
    pub fn withdraw_peer(&mut self, peer: IpAddr) -> (r: Vec<LinkStateRibEvent>)
        requires
            old(self).wf(),
        ensures
            final(self).wf(),
            final(self)@ == table::without_peer::<LinkStateNlri, BestObject>(
                BestObject,
                old(self)@,
                peer,
            ),
            wire::views(r@) == table::told_all::<LinkStateRibEvent>(
                table::peer_changes::<LinkStateNlri, BestObject>(BestObject, old(self)@, peer),
            ),
    {
        table::tell_all::<LinkStateRibEvent>(self.table.withdraw_peer(peer))
    }

    /// The best offer for an object.
    pub fn best(&self, nlri: &LinkStateNlri) -> (r: Option<&LinkStateEntry>)
        requires
            self.wf(),
        ensures
            match r {
                Some(p) => best_for(self@, nlri@) == Some(p@),
                None => best_for(self@, nlri@) is None,
            },
    {
        self.table.choice(nlri)
    }

    /// The best offer for every object, in order.
    pub fn iter_best(&self) -> (r: Vec<(&LinkStateNlri, &LinkStateEntry)>)
        requires
            self.wf(),
        ensures
            r@.len() == self@.len(),
            forall|i: int|
                #![trigger r@[i]]
                0 <= i < r@.len() ==> r@[i].0@ == self@[i].0 && r@[i].1@ == self@[i].1.choice,
    {
        let mut out: Vec<(&LinkStateNlri, &LinkStateEntry)> = Vec::new();
        let mut i: usize = 0;
        while i < self.table.len()
            invariant
                self.wf(),
                i <= self@.len(),
                out@.len() == i,
                forall|j: int|
                    #![trigger out@[j]]
                    0 <= j < i ==> out@[j].0@ == self@[j].0 && out@[j].1@ == self@[j].1.choice,
            decreases self@.len() - i,
        {
            out.push((self.table.key(i), &self.table.slot(i).choice));
            i = i + 1;
        }
        out
    }

    /// How many objects have an offer.
    pub fn len(&self) -> (r: usize)
        ensures
            r == self@.len(),
    {
        self.table.len()
    }

    /// Whether no object has an offer.
    pub fn is_empty(&self) -> (r: bool)
        ensures
            r == (self@.len() == 0),
    {
        self.table.len() == 0
    }
}

/// Of one offer that one is chosen. Another one is chosen instead exactly where it came on
/// a better path.
pub proof fn lemma_who_is_chosen(
    offers: Seq<(Source, LinkStateEntryView)>,
    o: (Source, LinkStateEntryView),
)
    requires
        offers.len() > 0,
    ensures
        BestObject.chosen(seq![o]) == o.1,
        BestObject.chosen(offers.push(o)) == (if crate::bgp::decision::better(
            o.1.path,
            BestObject.chosen(offers).path,
        ) {
            o.1
        } else {
            BestObject.chosen(offers)
        }),
{
    selection::lemma_one_more_offer::<LinkStateEntry>(offers, o);
}

/// An event tells what became of the choice: none where it stays, the new one where there
/// is another, and that it is gone where there is none any more.
pub proof fn lemma_events_are_true(was: LinkStates, is: LinkStates, nlri: LsView)
    ensures
        event_between(was, is, nlri) is None <==> best_for(was, nlri) == best_for(is, nlri),
        event_between(was, is, nlri) matches Some(LinkStateEventView::Best { nlri: n, entry: x }) ==> n == nlri
            && best_for(is, nlri) == Some(x),
        event_between(was, is, nlri) matches Some(LinkStateEventView::Withdrawn(n)) ==> n == nlri && best_for(
            is,
            nlri,
        ) is None && best_for(was, nlri) is Some,
{
}

} // verus!
