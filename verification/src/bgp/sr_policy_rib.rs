//! SR policies that peers offer: the best offer for each candidate path, and for each
//! colour and endpoint the candidate path in force (RFC 9256 §2.9).

use vstd::prelude::*;

use crate::bgp::decision::{Path, PathView};
use crate::bgp::selection;
use crate::bgp::selection::{best_index, Carried};
use crate::bgp::sr_policy;
use crate::bgp::sr_policy::{PolicyView, SrPolicyEncoding, SrPolicyNlri};
use crate::bgp::table;
use crate::bgp::table::{Change, Event, Offer, Selector, Slots, Source, Table};
use crate::net::IpAddr;
use crate::order;
use crate::order::{Datum, Ranked};
use crate::sorted_map;
use crate::wire;

verus! {

/// What a candidate path is, with the path on which it came.
#[derive(Clone, PartialEq, Eq, Debug)]
pub struct SrPolicyEntry {
    /// The path on which it came.
    pub path: Path,
    pub encoding: SrPolicyEncoding,
}

/// The same as a mathematical value.
#[verifier::ext_equal]
pub struct SrPolicyEntryView {
    pub path: PathView,
    pub encoding: PolicyView,
}

impl View for SrPolicyEntry {
    type V = SrPolicyEntryView;

    open spec fn view(&self) -> SrPolicyEntryView {
        SrPolicyEntryView { path: self.path@, encoding: self.encoding@ }
    }
}

impl Datum for SrPolicyEntry {
    fn dup(&self) -> (r: SrPolicyEntry) {
        SrPolicyEntry { path: self.path.dup(), encoding: self.encoding.dup() }
    }

    fn same(&self, other: &SrPolicyEntry) -> (r: bool) {
        self.path.same(&other.path) && self.encoding.same(&other.encoding)
    }
}

impl Carried for SrPolicyEntry {
    open spec fn path(v: SrPolicyEntryView) -> PathView {
        v.path
    }

    fn path_of(&self) -> (r: &Path) {
        &self.path
    }
}

/// The choice of the one that came on the best path.
#[derive(Clone, Copy, PartialEq, Eq, Debug)]
pub struct BestCandidate;

impl Selector for BestCandidate {
    type Item = SrPolicyEntry;

    type Choice = SrPolicyEntry;

    open spec fn chosen(&self, offers: Seq<(Source, SrPolicyEntryView)>) -> SrPolicyEntryView {
        selection::best_of::<SrPolicyEntry>(offers)
    }

    fn select(&self, offers: &Vec<Offer<SrPolicyEntry>>) -> (r: SrPolicyEntry) {
        offers[best_index(offers)].what.dup()
    }
}

/// What changed.
#[derive(Clone, PartialEq, Eq, Debug)]
pub enum SrPolicyRibEvent {
    /// There is another best offer than before for a candidate.
    Best { nlri: SrPolicyNlri, entry: SrPolicyEntry },
    /// There is no offer left for a candidate.
    Withdrawn(SrPolicyNlri),
}

/// A change as a mathematical value.
#[verifier::ext_equal]
pub enum SrPolicyEventView {
    Best { nlri: SrPolicyNlri, entry: SrPolicyEntryView },
    Withdrawn(SrPolicyNlri),
}

impl View for SrPolicyRibEvent {
    type V = SrPolicyEventView;

    open spec fn view(&self) -> SrPolicyEventView {
        match *self {
            SrPolicyRibEvent::Best { nlri, entry } => SrPolicyEventView::Best {
                nlri: nlri@,
                entry: entry@,
            },
            SrPolicyRibEvent::Withdrawn(nlri) => SrPolicyEventView::Withdrawn(nlri@),
        }
    }
}

impl Event for SrPolicyRibEvent {
    type Key = SrPolicyNlri;

    type Choice = SrPolicyEntry;

    open spec fn told(nlri: SrPolicyNlri, c: Change<SrPolicyEntryView>) -> SrPolicyEventView {
        match c {
            Change::Best(entry) => SrPolicyEventView::Best { nlri, entry },
            Change::Gone => SrPolicyEventView::Withdrawn(nlri),
        }
    }

    fn tell(nlri: SrPolicyNlri, c: Change<SrPolicyEntry>) -> (r: SrPolicyRibEvent) {
        match c {
            Change::Best(entry) => SrPolicyRibEvent::Best { nlri, entry },
            Change::Gone => SrPolicyRibEvent::Withdrawn(nlri),
        }
    }
}

/// What the table holds for each candidate: the offers, and the best of them.
pub type SrPolicies = Slots<SrPolicyNlri, SrPolicyEntryView, SrPolicyEntryView>;

/// The best offer for a candidate.
pub open spec fn best_for(s: SrPolicies, nlri: SrPolicyNlri) -> Option<SrPolicyEntryView> {
    table::choice_at::<SrPolicyNlri, SrPolicyEntryView, SrPolicyEntryView>(s, nlri)
}

/// The event when the table goes from one state to another by a change to the offers for
/// a candidate; none where the best one stays.
pub open spec fn event_between(
    was: SrPolicies,
    is: SrPolicies,
    nlri: SrPolicyNlri,
) -> Option<SrPolicyEventView> {
    table::told_one::<SrPolicyRibEvent>(
        nlri,
        table::changed::<SrPolicyNlri, SrPolicyEntryView, SrPolicyEntryView>(was, is, nlri),
    )
}

/// What every peer offers for every candidate, and the best of it.
pub struct SrPolicyRib {
    table: Table<SrPolicyNlri, BestCandidate>,
}

impl Clone for SrPolicyRib {
    fn clone(&self) -> (r: SrPolicyRib)
        ensures
            self.wf() ==> r.wf() && r@ == self@,
    {
        SrPolicyRib { table: self.table.clone() }
    }
}

impl View for SrPolicyRib {
    type V = SrPolicies;

    closed spec fn view(&self) -> SrPolicies {
        self.table@
    }
}

impl Default for SrPolicyRib {
    fn default() -> (r: SrPolicyRib)
        ensures
            r.wf(),
            r@.len() == 0,
    {
        SrPolicyRib::new()
    }
}

impl SrPolicyRib {
    /// The table is in order.
    pub closed spec fn wf(&self) -> bool {
        self.table.wf() && self.table.selector() == BestCandidate
    }

    /// For every candidate with offers the best one is the one that the decision process
    /// chooses among them, and no other candidate is there.
    pub proof fn lemma_wf(&self)
        requires
            self.wf(),
        ensures
            table::table_ok::<SrPolicyNlri, BestCandidate>(BestCandidate, self@),
    {
        self.table.lemma_wf();
    }

    /// An empty table.
    pub fn new() -> (r: SrPolicyRib)
        ensures
            r.wf(),
            r@.len() == 0,
    {
        SrPolicyRib { table: Table::new(BestCandidate) }
    }

    /// Take what a peer offers for a candidate.
    pub fn update(&mut self, peer: IpAddr, nlri: SrPolicyNlri, entry: SrPolicyEntry) -> (r: Option<
        SrPolicyRibEvent,
    >)
        requires
            old(self).wf(),
        ensures
            final(self).wf(),
            final(self)@ == table::updated::<SrPolicyNlri, BestCandidate>(
                BestCandidate,
                old(self)@,
                (Source { peer, path_id: 0 }),
                nlri@,
                entry@,
            ),
            table::event_view(r) == event_between(old(self)@, final(self)@, nlri@),
    {
        let c = self.table.update(Source { peer, path_id: 0 }, &nlri, entry);
        table::tell_one::<SrPolicyRibEvent>(nlri, c)
    }

    /// Take back what a peer offered for a candidate.
    pub fn withdraw(&mut self, peer: IpAddr, nlri: SrPolicyNlri) -> (r: Option<SrPolicyRibEvent>)
        requires
            old(self).wf(),
        ensures
            final(self).wf(),
            final(self)@ == table::dropped::<SrPolicyNlri, BestCandidate>(
                BestCandidate,
                old(self)@,
                peer,
                nlri@,
            ),
            table::event_view(r) == event_between(old(self)@, final(self)@, nlri@),
    {
        let c = self.table.withdraw_all(peer, &nlri);
        table::tell_one::<SrPolicyRibEvent>(nlri, c)
    }

    /// Take back everything that a peer offered; returns the changes, in the order of the
    /// candidates.
    pub fn withdraw_peer(&mut self, peer: IpAddr) -> (r: Vec<SrPolicyRibEvent>)
        requires
            old(self).wf(),
        ensures
            final(self).wf(),
            final(self)@ == table::without_peer::<SrPolicyNlri, BestCandidate>(
                BestCandidate,
                old(self)@,
                peer,
            ),
            wire::views(r@) == table::told_all::<SrPolicyRibEvent>(
                table::peer_changes::<SrPolicyNlri, BestCandidate>(BestCandidate, old(self)@, peer),
            ),
    {
        table::tell_all::<SrPolicyRibEvent>(self.table.withdraw_peer(peer))
    }

    /// The best offer for a candidate.
    pub fn best(&self, nlri: &SrPolicyNlri) -> (r: Option<&SrPolicyEntry>)
        requires
            self.wf(),
        ensures
            match r {
                Some(p) => best_for(self@, nlri@) == Some(p@),
                None => best_for(self@, nlri@) is None,
            },
    {
        self.table.choice(nlri)
    }

    /// The best offer for every candidate, in order.
    pub fn iter_best(&self) -> (r: Vec<(&SrPolicyNlri, &SrPolicyEntry)>)
        requires
            self.wf(),
        ensures
            r@.len() == self@.len(),
            forall|i: int|
                #![trigger r@[i]]
                0 <= i < r@.len() ==> r@[i].0@ == self@[i].0 && r@[i].1@ == self@[i].1.choice,
    {
        let mut out: Vec<(&SrPolicyNlri, &SrPolicyEntry)> = Vec::new();
        let mut i: usize = 0;
        while i < self.table.len()
            invariant
                self.wf(),
                i <= self@.len(),
                out@.len() == i,
                forall|j: int|
                    #![trigger out@[j]]
                    0 <= j < i ==> out@[j].0@ == self@[j].0 && out@[j].1@ == self@[j].1.choice,
            decreases self@.len() - i,
        {
            out.push((self.table.key(i), &self.table.slot(i).choice));
            i = i + 1;
        }
        out
    }

    /// How many candidates have an offer.
    pub fn len(&self) -> (r: usize)
        ensures
            r == self@.len(),
    {
        self.table.len()
    }

    /// Whether no candidate has an offer.
    pub fn is_empty(&self) -> (r: bool)
        ensures
            r == (self@.len() == 0),
    {
        self.table.len() == 0
    }
}

/// The candidate path in force for a colour and an endpoint.
#[derive(Clone, PartialEq, Eq, Debug)]
pub struct InstalledPolicy {
    pub color: u32,
    pub endpoint: IpAddr,
    pub distinguisher: u32,
    pub encoding: SrPolicyEncoding,
}

/// The candidate path in force as a mathematical value.
#[verifier::ext_equal]
pub struct InstalledView {
    pub color: u32,
    pub endpoint: IpAddr,
    pub distinguisher: u32,
    pub encoding: PolicyView,
}

impl View for InstalledPolicy {
    type V = InstalledView;

    open spec fn view(&self) -> InstalledView {
        InstalledView {
            color: self.color,
            endpoint: self.endpoint,
            distinguisher: self.distinguisher,
            encoding: self.encoding@,
        }
    }
}

/// A candidate path as it would be in force.
pub open spec fn as_installed(nlri: SrPolicyNlri, encoding: PolicyView) -> InstalledView {
    InstalledView {
        color: nlri.color,
        endpoint: nlri.endpoint,
        distinguisher: nlri.distinguisher,
        encoding,
    }
}

/// Whether a candidate path belongs to the same policy: same colour, same endpoint.
pub open spec fn same_policy(p: InstalledView, nlri: SrPolicyNlri) -> bool {
    p.color == nlri.color && p.endpoint == nlri.endpoint
}

/// Whether `a` goes before `b`: by the higher preference, and then by the higher
/// distinguisher.
pub open spec fn preferred(a: InstalledView, b: InstalledView) -> bool {
    let (x, y) = (sr_policy::preference_of(a.encoding), sr_policy::preference_of(b.encoding));
    x > y || (x == y && a.distinguisher > b.distinguisher)
}

/// The policies in force. The candidate paths of a policy stand side by side; one takes
/// over from the last where it goes before it.
pub open spec fn in_force(s: SrPolicies) -> Seq<InstalledView>
    decreases s.len(),
{
    if s.len() == 0 {
        Seq::empty()
    } else {
        let front = in_force(s.drop_last());
        let c = as_installed(s.last().0, s.last().1.choice.encoding);
        if front.len() > 0 && same_policy(front.last(), s.last().0) {
            if preferred(c, front.last()) {
                front.drop_last().push(c)
            } else {
                front
            }
        } else {
            front.push(c)
        }
    }
}

impl SrPolicyRib {
    /// The policies in force, in the order of colour and endpoint.
    pub fn installed(&self) -> (r: Vec<InstalledPolicy>)
        requires
            self.wf(),
        ensures
            wire::views(r@) == in_force(self@),
    {
        let ghost s = self@;
        let mut out: Vec<InstalledPolicy> = Vec::new();
        let mut i: usize = 0;
        assert(wire::views(out@) =~= in_force(s.take(0)));
        while i < self.table.len()
            invariant
                self.wf(),
                s == self@,
                i <= s.len(),
                wire::views(out@) == in_force(s.take(i as int)),
            decreases s.len() - i,
        {
            let nlri = self.table.key(i);
            let encoding = &self.table.slot(i).choice.encoding;
            let ghost was = wire::views(out@);
            assert(was.len() == out@.len());
            assert(s.take(i + 1).drop_last() =~= s.take(i as int));
            assert(s.take(i + 1).last() == s[i as int]);
            let n = out.len();
            if n > 0 && out[n - 1].color == nlri.color && out[n - 1].endpoint.same(
                &nlri.endpoint,
            ) {
                assert(was.last() == out@[n - 1]@);
                let (x, y) = (
                    encoding.effective_preference(),
                    out[n - 1].encoding.effective_preference(),
                );
                if x > y || (x == y && nlri.distinguisher > out[n - 1].distinguisher) {
                    let p = InstalledPolicy {
                        color: nlri.color,
                        endpoint: nlri.endpoint,
                        distinguisher: nlri.distinguisher,
                        encoding: encoding.dup(),
                    };
                    out.set(n - 1, p);
                    assert(wire::views(out@) =~= was.drop_last().push(p@));
                }
            } else {
                if n > 0 {
                    assert(was.last() == out@[n - 1]@);
                }
                let p = InstalledPolicy {
                    color: nlri.color,
                    endpoint: nlri.endpoint,
                    distinguisher: nlri.distinguisher,
                    encoding: encoding.dup(),
                };
                proof {
                    wire::lemma_views_push(out@, p);
                }
                out.push(p);
            }
            i = i + 1;
        }
        assert(s.take(i as int) =~= s);
        out
    }
}

/// The candidate path at position `i` as it would be in force.
pub open spec fn candidate(s: SrPolicies, i: int) -> InstalledView {
    as_installed(s[i].0, s[i].1.choice.encoding)
}

/// Every policy in force is a candidate path; returns where that stands.
pub proof fn lemma_in_force_is_candidate(s: SrPolicies, j: int) -> (i: int)
    requires
        0 <= j < in_force(s).len(),
    ensures
        0 <= i < s.len(),
        in_force(s)[j] == candidate(s, i),
    decreases s.len(),
{
    let front = s.drop_last();
    let (x, y) = (in_force(front), in_force(s));
    if j < x.len() && y[j] == x[j] {
        let i = lemma_in_force_is_candidate(front, j);
        assert(front[i] == s[i]);
        i
    } else {
        s.len() - 1
    }
}

/// Every candidate path belongs to a policy in force, and does not go before it; returns
/// where that stands.
pub proof fn lemma_candidate_is_covered(s: SrPolicies, i: int) -> (j: int)
    requires
        0 <= i < s.len(),
    ensures
        0 <= j < in_force(s).len(),
        same_policy(in_force(s)[j], s[i].0),
        !preferred(candidate(s, i), in_force(s)[j]),
    decreases s.len(),
{
    let front = s.drop_last();
    let y = in_force(s);
    if i < front.len() {
        let j = lemma_candidate_is_covered(front, i);
        assert(front[i] == s[i]);
        j
    } else {
        y.len() - 1
    }
}

proof fn lemma_last_policy(s: SrPolicies)
    requires
        s.len() > 0,
    ensures
        in_force(s).len() > 0,
        same_policy(in_force(s).last(), s.last().0),
{
}

spec fn policy_rank(color: u32, endpoint: IpAddr) -> Seq<u64> {
    seq![color as u64] + IpAddr::rank(endpoint)
}

proof fn lemma_policy_order(a: SrPolicyNlri, b: SrPolicyNlri)
    requires
        order::before(SrPolicyNlri::rank(a), SrPolicyNlri::rank(b)),
    ensures
        policy_rank(a.color, a.endpoint) == policy_rank(b.color, b.endpoint) || order::before(
            policy_rank(a.color, a.endpoint),
            policy_rank(b.color, b.endpoint),
        ),
{
    let (x, y) = (policy_rank(a.color, a.endpoint), policy_rank(b.color, b.endpoint));
    let (u, v) = (seq![a.distinguisher as u64], seq![b.distinguisher as u64]);
    assert(SrPolicyNlri::rank(a) =~= x + u);
    assert(SrPolicyNlri::rank(b) =~= y + v);
    order::lemma_before_total(x, y);
    if order::before(y, x) {
        lemma_policy_apart(b, a);
        order::lemma_before_transitive(SrPolicyNlri::rank(a), SrPolicyNlri::rank(b), x + u);
        order::lemma_before_irreflexive(x + u);
    }
}

proof fn lemma_policy_apart(a: SrPolicyNlri, b: SrPolicyNlri)
    requires
        order::before(policy_rank(a.color, a.endpoint), policy_rank(b.color, b.endpoint)),
    ensures
        order::before(SrPolicyNlri::rank(a), SrPolicyNlri::rank(b)),
{
    let (x, y) = (policy_rank(a.color, a.endpoint), policy_rank(b.color, b.endpoint));
    let (u, v) = (seq![a.distinguisher as u64], seq![b.distinguisher as u64]);
    assert(SrPolicyNlri::rank(a) =~= x + u);
    assert(SrPolicyNlri::rank(b) =~= y + v);
    if a.color == b.color {
        let c = seq![a.color as u64];
        order::lemma_before_common_front(c, IpAddr::rank(a.endpoint), IpAddr::rank(b.endpoint));
        if (a.endpoint is V4) == (b.endpoint is V4) {
            assert(x.len() == y.len());
            order::lemma_before_same_len(x, y, u, v);
        } else {
            assert((x + u)[0] == (y + v)[0]);
            let (p, q) = ((x + u).drop_first(), (y + v).drop_first());
            assert(x.drop_first() =~= IpAddr::rank(a.endpoint));
            assert(y.drop_first() =~= IpAddr::rank(b.endpoint));
            assert(p[0] == IpAddr::rank(a.endpoint)[0]);
            assert(q[0] == IpAddr::rank(b.endpoint)[0]);
            assert(order::before(x.drop_first(), y.drop_first()));
            assert(order::before(p, q));
        }
    } else {
        assert((x + u)[0] == x[0] && (y + v)[0] == y[0]);
    }
}

/// The policies in force stand in the strict order of colour and endpoint, so each stands
/// once.
pub proof fn lemma_in_force_once(s: SrPolicies, j: int, k: int)
    requires
        sorted_map::sorted::<
            SrPolicyNlri,
            table::SlotView<SrPolicyEntryView, SrPolicyEntryView>,
        >(s),
        0 <= j < k < in_force(s).len(),
    ensures
        order::before(
            seq![in_force(s)[j].color as u64] + IpAddr::rank(in_force(s)[j].endpoint),
            seq![in_force(s)[k].color as u64] + IpAddr::rank(in_force(s)[k].endpoint),
        ),
        !(in_force(s)[j].color == in_force(s)[k].color && in_force(s)[j].endpoint == in_force(
            s,
        )[k].endpoint),
    decreases s.len(),
{
    let front = s.drop_last();
    let (x, y) = (in_force(front), in_force(s));
    let last = s[s.len() - 1];
    assert(sorted_map::sorted::<
        SrPolicyNlri,
        table::SlotView<SrPolicyEntryView, SrPolicyEntryView>,
    >(front)) by {
        assert forall|a: int, b: int| 0 <= a < b < front.len() implies order::before(
            SrPolicyNlri::rank((#[trigger] front[a]).0),
            SrPolicyNlri::rank((#[trigger] front[b]).0),
        ) by {
            assert(front[a] == s[a] && front[b] == s[b]);
        }
    }
    if front.len() > 0 {
        lemma_last_policy(front);
    }
    if k < x.len() {
        lemma_in_force_once(front, j, k);
        assert(y[j].color == x[j].color && y[j].endpoint == x[j].endpoint);
        assert(y[k].color == x[k].color && y[k].endpoint == x[k].endpoint);
    } else {
        let i = x.len() - 1;
        assert(y[j] == x[j]);
        assert(front.last() == s[front.len() - 1]);
        lemma_policy_order(front.last().0, last.0);
        let (p, q, r) = (
            policy_rank(x[j].color, x[j].endpoint),
            policy_rank(x[i].color, x[i].endpoint),
            policy_rank(last.0.color, last.0.endpoint),
        );
        if q == r {
            assert(q[0] == x[i].color as u64);
            assert(r[0] == last.0.color as u64);
            let e = Seq::<u64>::empty();
            assert(q.drop_first() =~= IpAddr::rank(x[i].endpoint) + e);
            assert(r.drop_first() =~= IpAddr::rank(last.0.endpoint) + e);
            crate::net::lemma_addr_rank(x[i].endpoint, e, last.0.endpoint, e);
        }
        if j < i {
            lemma_in_force_once(front, j, i);
            order::lemma_before_transitive(p, q, r);
        }
    }
    order::lemma_before_irreflexive(policy_rank(y[j].color, y[j].endpoint));
}

/// Of one offer that one is chosen. Another one is chosen instead exactly where it came on
/// a better path.
pub proof fn lemma_who_is_chosen(
    offers: Seq<(Source, SrPolicyEntryView)>,
    o: (Source, SrPolicyEntryView),
)
    requires
        offers.len() > 0,
    ensures
        BestCandidate.chosen(seq![o]) == o.1,
        BestCandidate.chosen(offers.push(o)) == (if crate::bgp::decision::better(
            o.1.path,
            BestCandidate.chosen(offers).path,
        ) {
            o.1
        } else {
            BestCandidate.chosen(offers)
        }),
{
    selection::lemma_one_more_offer::<SrPolicyEntry>(offers, o);
}

/// An event tells what became of the choice: none where it stays, the new one where there
/// is another, and that it is gone where there is none any more.
pub proof fn lemma_events_are_true(was: SrPolicies, is: SrPolicies, nlri: SrPolicyNlri)
    ensures
        event_between(was, is, nlri) is None <==> best_for(was, nlri) == best_for(is, nlri),
        event_between(was, is, nlri) matches Some(SrPolicyEventView::Best { nlri: n, entry: x }) ==> n == nlri
            && best_for(is, nlri) == Some(x),
        event_between(was, is, nlri) matches Some(SrPolicyEventView::Withdrawn(n)) ==> n == nlri && best_for(
            is,
            nlri,
        ) is None && best_for(was, nlri) is Some,
{
}

/// The policy in force for a colour and an endpoint is the candidate with the highest
/// preference, 100 where it tells none, and of those with the same preference the one with
/// the highest distinguisher.
pub proof fn lemma_who_is_in_force(s: SrPolicies, i: int) -> (j: int)
    requires
        0 <= i < s.len(),
    ensures
        0 <= j < in_force(s).len(),
        ({
            let p = in_force(s)[j];
            let (x, y) = (p.encoding.preference, s[i].1.choice.encoding.preference);
            let (m, n) = (
                if x is Some {
                    x->0
                } else {
                    100
                },
                if y is Some {
                    y->0
                } else {
                    100
                },
            );
            &&& p.color == s[i].0.color
            &&& p.endpoint == s[i].0.endpoint
            &&& m > n || (m == n && p.distinguisher >= s[i].0.distinguisher)
        }),
{
    lemma_candidate_is_covered(s, i)
}

/// A policy in force is a candidate with its own distinguisher and what was chosen for it.
pub proof fn lemma_whence_in_force(s: SrPolicies, j: int) -> (i: int)
    requires
        0 <= j < in_force(s).len(),
    ensures
        0 <= i < s.len(),
        in_force(s)[j].color == s[i].0.color,
        in_force(s)[j].endpoint == s[i].0.endpoint,
        in_force(s)[j].distinguisher == s[i].0.distinguisher,
        in_force(s)[j].encoding == s[i].1.choice.encoding,
{
    lemma_in_force_is_candidate(s, j)
}

} // verus!
