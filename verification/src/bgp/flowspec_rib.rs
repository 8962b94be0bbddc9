//! Flow rules that peers offer, and the best offer for each (RFC 8955 §5).

use std::cmp::Ordering;

use vstd::prelude::*;
use vstd::string::*;

use crate::bgp::decision::{Path, PathView};
use crate::bgp::flowspec;
use crate::bgp::flowspec::{Action, ComponentView, FlowSpec};
use crate::bgp::selection::SinglePath;
use crate::bgp::table;
use crate::bgp::table::{Change, Event, Slots, Source, Table};
use crate::bgp::{AFI_IPV4, AFI_IPV6};
use crate::net;
use crate::net::IpAddr;
use crate::order;
use crate::order::{place, Datum, Place, Ranked};
use crate::wire;

verus! {

/// A rule: an address family, and what matches in it.
#[derive(Clone, PartialEq, Eq, Debug)]
pub struct FlowSpecNlri {
    pub afi: u16,
    pub spec: FlowSpec,
}

/// A rule as a mathematical value.
#[verifier::ext_equal]
pub struct FlowNlriView {
    pub afi: u16,
    pub spec: Seq<ComponentView>,
}

impl View for FlowSpecNlri {
    type V = FlowNlriView;

    open spec fn view(&self) -> FlowNlriView {
        FlowNlriView { afi: self.afi, spec: self.spec@ }
    }
}

impl Datum for FlowSpecNlri {
    fn dup(&self) -> (r: FlowSpecNlri) {
        FlowSpecNlri { afi: self.afi, spec: self.spec.dup() }
    }

    fn same(&self, other: &FlowSpecNlri) -> (r: bool) {
        self.afi == other.afi && self.spec.same(&other.spec)
    }
}

impl Ranked for FlowSpecNlri {
    /// By address family, then by the octets of the rule, in which the components stand
    /// in the order of their types.
    open spec fn rank(key: FlowNlriView) -> Seq<u64> {
        seq![key.afi as u64] + net::numbers(flowspec::flow_octets(key.spec))
    }

    fn rank_of(&self) -> (r: Vec<u64>) {
        let mut octets: Vec<u8> = Vec::new();
        self.spec.encode(&mut octets);
        assert(octets@ =~= flowspec::flow_octets(self.spec@));
        let mut out: Vec<u64> = Vec::new();
        out.push(self.afi as u64);
        net::push_numbers(&mut out, octets.as_slice());
        assert(out@ =~= FlowSpecNlri::rank(self@));
        out
    }
}

/// The text of a rule; IPv6 is named, IPv4 is not.
pub open spec fn rule_text(v: FlowNlriView) -> Seq<char> {
    if v.afi == 2 {
        "[ipv6] "@ + flowspec::flow_text(flowspec::ordered(v.spec))
    } else {
        flowspec::flow_text(flowspec::ordered(v.spec))
    }
}

impl FlowSpecNlri {
    /// A rule for IPv4.
    pub fn v4(spec: FlowSpec) -> (r: FlowSpecNlri)
        ensures
            r@ == (FlowNlriView { afi: 1, spec: spec@ }),
    {
        FlowSpecNlri { afi: AFI_IPV4, spec }
    }

    /// How two rules stand to each other; those that differ only in the order of
    /// components of different types are equal.
    pub fn cmp(&self, other: &FlowSpecNlri) -> (r: Ordering)
        ensures
            match r {
                Ordering::Less => order::before(
                    FlowSpecNlri::rank(self@),
                    FlowSpecNlri::rank(other@),
                ),
                Ordering::Equal => FlowSpecNlri::rank(self@) == FlowSpecNlri::rank(other@),
                Ordering::Greater => order::before(
                    FlowSpecNlri::rank(other@),
                    FlowSpecNlri::rank(self@),
                ),
            },
    {
        let (a, b) = (self.rank_of(), other.rank_of());
        match place(&a, &b) {
            Place::Before => Ordering::Less,
            Place::Equal => Ordering::Equal,
            Place::After => Ordering::Greater,
        }
    }

    /// The text of the rule.
    pub fn to_string(&self) -> (r: String)
        ensures
            r@ == rule_text(self@),
    {
        let spec = self.spec.to_string();
        if self.afi == AFI_IPV6 {
            let mut out = String::new();
            out.append("[ipv6] ");
            out.append(spec.as_str());
            assert(out@ =~= rule_text(self@));
            out
        } else {
            spec
        }
    }
}

/// Rules with the same components by type, in whatever order they stand, have one rank.
pub proof fn lemma_component_order_is_free(a: FlowNlriView, b: FlowNlriView)
    requires
        a.afi == b.afi,
        flowspec::ordered(a.spec) == flowspec::ordered(b.spec),
    ensures
        FlowSpecNlri::rank(a) == FlowSpecNlri::rank(b),
{
}

/// The actions that some extended communities tell, in order.
pub open spec fn actions(ecs: Seq<Seq<u8>>) -> Seq<Action>
    decreases ecs.len(),
{
    if ecs.len() == 0 {
        Seq::empty()
    } else {
        match flowspec::action_of(ecs.last()) {
            Some(a) => actions(ecs.drop_last()).push(a),
            None => actions(ecs.drop_last()),
        }
    }
}

/// What is to be done with matching packets, as the communities of a path tell (§7).
pub fn actions_of(path: &Path) -> (r: Vec<Action>)
    ensures
        r@ == actions(path@.ext_communities),
{
    let ghost all = path@.ext_communities;
    let mut out: Vec<Action> = Vec::new();
    let mut i: usize = 0;
    assert(out@ =~= actions(all.take(0)));
    while i < path.ext_communities.len()
        invariant
            i <= path.ext_communities.len(),
            all == wire::views(path.ext_communities@),
            out@ == actions(all.take(i as int)),
        decreases path.ext_communities.len() - i,
    {
        assert(all.take(i + 1).drop_last() =~= all.take(i as int));
        assert(all.take(i + 1).last() == path.ext_communities@[i as int]@);
        if let Some(a) = Action::decode(&path.ext_communities[i]) {
            out.push(a);
        }
        i = i + 1;
    }
    assert(all.take(i as int) =~= all);
    out
}

/// What changed.
#[derive(Clone, PartialEq, Eq, Debug)]
pub enum FlowSpecRibEvent {
    /// There is another best offer than before for a rule.
    Best { nlri: FlowSpecNlri, path: Path },
    /// There is no offer left for a rule.
    Withdrawn(FlowSpecNlri),
}

/// A change as a mathematical value.
#[verifier::ext_equal]
pub enum FlowSpecEventView {
    Best { nlri: FlowNlriView, path: PathView },
    Withdrawn(FlowNlriView),
}

impl View for FlowSpecRibEvent {
    type V = FlowSpecEventView;

    open spec fn view(&self) -> FlowSpecEventView {
        match *self {
            FlowSpecRibEvent::Best { nlri, path } => FlowSpecEventView::Best {
                nlri: nlri@,
                path: path@,
            },
            FlowSpecRibEvent::Withdrawn(nlri) => FlowSpecEventView::Withdrawn(nlri@),
        }
    }
}

impl Event for FlowSpecRibEvent {
    type Key = FlowSpecNlri;

    type Choice = Path;

    open spec fn told(nlri: FlowNlriView, c: Change<PathView>) -> FlowSpecEventView {
        match c {
            Change::Best(path) => FlowSpecEventView::Best { nlri, path },
            Change::Gone => FlowSpecEventView::Withdrawn(nlri),
        }
    }

    fn tell(nlri: FlowSpecNlri, c: Change<Path>) -> (r: FlowSpecRibEvent) {
        match c {
            Change::Best(path) => FlowSpecRibEvent::Best { nlri, path },
            Change::Gone => FlowSpecRibEvent::Withdrawn(nlri),
        }
    }
}

/// What the table holds for each rule: the offers, and the best of them.
pub type FlowRules = Slots<FlowNlriView, PathView, PathView>;

/// The best offer for a rule.
pub open spec fn best_for(s: FlowRules, nlri: FlowNlriView) -> Option<PathView> {
    table::choice_at::<FlowSpecNlri, PathView, PathView>(s, nlri)
}

/// The event when the table goes from one state to another by a change to the offers for
/// a rule; none where the best one stays.
pub open spec fn event_between(
    was: FlowRules,
    is: FlowRules,
    nlri: FlowNlriView,
) -> Option<FlowSpecEventView> {
    table::told_one::<FlowSpecRibEvent>(
        nlri,
        table::changed::<FlowSpecNlri, PathView, PathView>(was, is, nlri),
    )
}

/// What every peer offers for every rule, and the best of it.
pub struct FlowSpecRib {
    table: Table<FlowSpecNlri, SinglePath>,
}

impl Clone for FlowSpecRib {
    fn clone(&self) -> (r: FlowSpecRib)
        ensures
            self.wf() ==> r.wf() && r@ == self@,
    {
        FlowSpecRib { table: self.table.clone() }
    }
}

impl View for FlowSpecRib {
    type V = FlowRules;

    closed spec fn view(&self) -> FlowRules {
        self.table@
    }
}

impl Default for FlowSpecRib {
    fn default() -> (r: FlowSpecRib)
        ensures
            r.wf(),
            r@.len() == 0,
    {
        FlowSpecRib::new()
    }
}

impl FlowSpecRib {
    /// The table is in order.
    pub closed spec fn wf(&self) -> bool {
        self.table.wf() && self.table.selector() == SinglePath
    }

    /// For every rule with offers the best one is the one that the decision process
    /// chooses among them, and no other rule is there.
    pub proof fn lemma_wf(&self)
        requires
            self.wf(),
        ensures
            table::table_ok::<FlowSpecNlri, SinglePath>(SinglePath, self@),
    {
        self.table.lemma_wf();
    }

    /// An empty table.
    pub fn new() -> (r: FlowSpecRib)
        ensures
            r.wf(),
            r@.len() == 0,
    {
        FlowSpecRib { table: Table::new(SinglePath) }
    }

    /// Take what a peer offers for a rule.
    pub fn update(&mut self, peer: IpAddr, nlri: FlowSpecNlri, path: Path) -> (r: Option<
        FlowSpecRibEvent,
    >)
        requires
            old(self).wf(),
        ensures
            final(self).wf(),
            final(self)@ == table::updated::<FlowSpecNlri, SinglePath>(
                SinglePath,
                old(self)@,
                (Source { peer, path_id: 0 }),
                nlri@,
                path@,
            ),
            table::event_view(r) == event_between(old(self)@, final(self)@, nlri@),
    {
        let c = self.table.update(Source { peer, path_id: 0 }, &nlri, path);
        table::tell_one::<FlowSpecRibEvent>(nlri, c)
    }

    /// Take back what a peer offered for a rule.
    pub fn withdraw(&mut self, peer: IpAddr, nlri: FlowSpecNlri) -> (r: Option<FlowSpecRibEvent>)
        requires
            old(self).wf(),
        ensures
            final(self).wf(),
            final(self)@ == table::dropped::<FlowSpecNlri, SinglePath>(
                SinglePath,
                old(self)@,
                peer,
                nlri@,
            ),
            table::event_view(r) == event_between(old(self)@, final(self)@, nlri@),
    {
        let c = self.table.withdraw_all(peer, &nlri);
        table::tell_one::<FlowSpecRibEvent>(nlri, c)
    }

    /// Take back everything that a peer offered; returns the changes, in the order of the
    /// rules.
    pub fn withdraw_peer(&mut self, peer: IpAddr) -> (r: Vec<FlowSpecRibEvent>)
        requires
            old(self).wf(),
        ensures
            final(self).wf(),
            final(self)@ == table::without_peer::<FlowSpecNlri, SinglePath>(
                SinglePath,
                old(self)@,
                peer,
            ),
            wire::views(r@) == table::told_all::<FlowSpecRibEvent>(
                table::peer_changes::<FlowSpecNlri, SinglePath>(SinglePath, old(self)@, peer),
            ),
    {
        table::tell_all::<FlowSpecRibEvent>(self.table.withdraw_peer(peer))
    }

    /// The best offer for a rule.
    pub fn best(&self, nlri: &FlowSpecNlri) -> (r: Option<&Path>)
        requires
            self.wf(),
        ensures
            match r {
                Some(p) => best_for(self@, nlri@) == Some(p@),
                None => best_for(self@, nlri@) is None,
            },
    {
        self.table.choice(nlri)
    }

    /// The best offer for every rule, in order.
    pub fn iter_best(&self) -> (r: Vec<(&FlowSpecNlri, &Path)>)
        requires
            self.wf(),
        ensures
            r@.len() == self@.len(),
            forall|i: int|
                #![trigger r@[i]]
                0 <= i < r@.len() ==> r@[i].0@ == self@[i].0 && r@[i].1@ == self@[i].1.choice,
    {
        let mut out: Vec<(&FlowSpecNlri, &Path)> = Vec::new();
        let mut i: usize = 0;
        while i < self.table.len()
            invariant
                self.wf(),
                i <= self@.len(),
                out@.len() == i,
                forall|j: int|
                    #![trigger out@[j]]
                    0 <= j < i ==> out@[j].0@ == self@[j].0 && out@[j].1@ == self@[j].1.choice,
            decreases self@.len() - i,
        {
            out.push((self.table.key(i), &self.table.slot(i).choice));
            i = i + 1;
        }
        out
    }

    /// How many rules have an offer.
    pub fn len(&self) -> (r: usize)
        ensures
            r == self@.len(),
    {
        self.table.len()
    }

    /// Whether no rule has an offer.
    pub fn is_empty(&self) -> (r: bool)
        ensures
            r == (self@.len() == 0),
    {
        self.table.len() == 0
    }
}

/// An event tells what became of the choice: none where it stays, the new one where there
/// is another, and that it is gone where there is none any more.
pub proof fn lemma_events_are_true(was: FlowRules, is: FlowRules, nlri: FlowNlriView)
    ensures
        event_between(was, is, nlri) is None <==> best_for(was, nlri) == best_for(is, nlri),
        event_between(was, is, nlri) matches Some(FlowSpecEventView::Best { nlri: n, path: x }) ==> n == nlri
            && best_for(is, nlri) == Some(x),
        event_between(was, is, nlri) matches Some(FlowSpecEventView::Withdrawn(n)) ==> n == nlri && best_for(
            is,
            nlri,
        ) is None && best_for(was, nlri) is Some,
{
}

/// The actions of a path are those that its communities tell, each in its place: one
/// community more at the end adds what it tells, or nothing.
pub proof fn lemma_actions_add_up(a: Seq<Seq<u8>>, b: Seq<Seq<u8>>, ec: Seq<u8>)
    ensures
        actions(a + b) == actions(a) + actions(b),
        actions(seq![ec]) == (match flowspec::action_of(ec) {
            Some(x) => seq![x],
            None => Seq::empty(),
        }),
    decreases b.len(),
{
    if b.len() == 0 {
        assert(a + b =~= a);
        assert(actions(a) + actions(b) =~= actions(a));
    } else {
        lemma_actions_add_up(a, b.drop_last(), ec);
        assert((a + b).drop_last() =~= a + b.drop_last());
        assert(actions(a + b) =~= actions(a) + actions(b));
    }
    assert(seq![ec].drop_last() =~= Seq::empty());
    assert(actions(seq![ec].drop_last()) =~= Seq::empty());
    assert(actions(seq![ec]) =~= (match flowspec::action_of(ec) {
        Some(x) => seq![x],
        None => Seq::empty(),
    }));
}

} // verus!
