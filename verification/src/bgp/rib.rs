//! The routing information bases (RFC 4271 §3.2): what each peer offers for each prefix,
//! the best path for it, and the next hops to install.

use vstd::prelude::*;

use crate::bgp::decision;
use crate::bgp::decision::{multipath_eligible, Path, PathView};
use crate::bgp::selection;
use crate::bgp::selection::best_index;
use crate::bgp::table;
use crate::bgp::table::{Change, Event, Offer, Selector, Slots, Source, Table};
use crate::net::{IpAddr, Prefix};
use crate::order;
use crate::order::Datum;
use crate::route::{HopView, NextHop};
use crate::wire;

verus! {

/// The best path for a prefix, and the next hops to install for it.
#[derive(Clone, PartialEq, Eq, Debug)]
pub struct Installed {
    pub path: Path,
    pub hops: Vec<NextHop>,
}

/// The best path and its next hops as a mathematical value.
#[verifier::ext_equal]
pub struct InstalledView {
    pub path: PathView,
    pub hops: Seq<HopView>,
}

impl View for Installed {
    type V = InstalledView;

    open spec fn view(&self) -> InstalledView {
        InstalledView { path: self.path@, hops: wire::views(self.hops@) }
    }
}

impl Datum for Installed {
    fn dup(&self) -> (r: Installed) {
        Installed { path: self.path.dup(), hops: order::dup_all(self.hops.as_slice()) }
    }

    fn same(&self, other: &Installed) -> (r: bool) {
        self.path.same(&other.path) && order::same_all(self.hops.as_slice(), other.hops.as_slice())
    }
}

/// Each next hop where it stands first.
pub open spec fn firsts(s: Seq<HopView>) -> Seq<HopView>
    decreases s.len(),
{
    if s.len() == 0 {
        s
    } else {
        let front = firsts(s.drop_last());
        if front.contains(s.last()) {
            front
        } else {
            front.push(s.last())
        }
    }
}

/// The next hops of the paths that tie with the best one, in order.
pub open spec fn ties(best: PathView, ps: Seq<PathView>) -> Seq<HopView>
    decreases ps.len(),
{
    if ps.len() == 0 {
        Seq::empty()
    } else if decision::tied(best, ps.last()) {
        ties(best, ps.drop_last()).push(decision::hop_of(ps.last()))
    } else {
        ties(best, ps.drop_last())
    }
}

/// The next hops to install: the best path's own, and behind it those of the paths that tie
/// with it, each of them once, and no more than `max`.
pub open spec fn spread(best: PathView, ps: Seq<PathView>, max: int) -> Seq<HopView> {
    let all = firsts(seq![decision::hop_of(best)] + ties(best, ps));
    if all.len() <= max {
        all
    } else {
        all.take(max)
    }
}

proof fn lemma_firsts_front(a: Seq<HopView>, b: Seq<HopView>)
    ensures
        firsts(a).len() <= firsts(a + b).len(),
        firsts(a + b).take(firsts(a).len() as int) == firsts(a),
    decreases b.len(),
{
    if b.len() == 0 {
        assert(a + b =~= a);
        assert(firsts(a).take(firsts(a).len() as int) =~= firsts(a));
    } else {
        lemma_firsts_front(a, b.drop_last());
        assert((a + b).drop_last() =~= a + b.drop_last());
        let (x, y) = (firsts(a + b.drop_last()), firsts(a + b));
        assert(y.take(firsts(a).len() as int) =~= x.take(firsts(a).len() as int));
    }
}

proof fn lemma_ties_split(best: PathView, a: Seq<PathView>, b: Seq<PathView>)
    ensures
        ties(best, a + b) == ties(best, a) + ties(best, b),
    decreases b.len(),
{
    if b.len() == 0 {
        assert(a + b =~= a);
        assert(ties(best, a) + ties(best, b) =~= ties(best, a));
    } else {
        lemma_ties_split(best, a, b.drop_last());
        assert((a + b).drop_last() =~= a + b.drop_last());
        assert(ties(best, a + b) =~= ties(best, a) + ties(best, b));
    }
}

proof fn lemma_firsts_distinct(s: Seq<HopView>)
    ensures
        firsts(s).no_duplicates(),
        forall|h: HopView| firsts(s).contains(h) <==> s.contains(h),
        s.len() > 0 ==> firsts(s).len() > 0 && firsts(s)[0] == s[0],
    decreases s.len(),
{
    if s.len() > 0 {
        let front = s.drop_last();
        lemma_firsts_distinct(front);
        let (x, y) = (firsts(front), firsts(s));
        assert forall|h: HopView| y.contains(h) <==> s.contains(h) by {
            if s.contains(h) {
                let i = choose|i: int| 0 <= i < s.len() && s[i] == h;
                if i < front.len() {
                    assert(front[i] == h);
                    assert(front.contains(h));
                    let j = choose|j: int| 0 <= j < x.len() && x[j] == h;
                    assert(y[j] == h);
                } else if x.contains(h) {
                    assert(x == y);
                } else {
                    assert(y[y.len() - 1] == h);
                }
            }
            if y.contains(h) {
                let j = choose|j: int| 0 <= j < y.len() && y[j] == h;
                if j < x.len() {
                    assert(x[j] == h);
                    assert(front.contains(h));
                    let i = choose|i: int| 0 <= i < front.len() && front[i] == h;
                    assert(s[i] == h);
                } else {
                    assert(s[s.len() - 1] == h);
                }
            }
        }
        if front.len() == 0 {
            assert(x =~= Seq::empty());
            assert(s.last() == s[0]);
        } else {
            assert(front[0] == s[0]);
        }
    }
}

proof fn lemma_ties_from(best: PathView, ps: Seq<PathView>, h: HopView)
    requires
        ties(best, ps).contains(h),
    ensures
        exists|i: int|
            0 <= i < ps.len() && decision::tied(best, #[trigger] ps[i]) && decision::hop_of(ps[i])
                == h,
    decreases ps.len(),
{
    if ps.len() > 0 {
        let front = ps.drop_last();
        let t = ties(best, front);
        if t.contains(h) {
            lemma_ties_from(best, front, h);
            let i = choose|i: int|
                0 <= i < front.len() && decision::tied(best, #[trigger] front[i])
                    && decision::hop_of(front[i]) == h;
            assert(ps[i] == front[i]);
        } else {
            let j = choose|j: int| 0 <= j < ties(best, ps).len() && ties(best, ps)[j] == h;
            if j < t.len() {
                assert(t[j] == h);
            }
            assert(ps[ps.len() - 1] == ps.last());
        }
    }
}

/// The next hops to install: the best path's own first, no two alike, no more than
/// allowed, and each other one that of a path that ties with the best.
pub proof fn lemma_spread(best: PathView, ps: Seq<PathView>, max: int)
    requires
        max >= 1,
    ensures
        1 <= spread(best, ps, max).len() <= max,
        spread(best, ps, max)[0] == decision::hop_of(best),
        spread(best, ps, max).no_duplicates(),
        forall|j: int|
            1 <= j < spread(best, ps, max).len() ==> exists|i: int|
                0 <= i < ps.len() && decision::tied(best, #[trigger] ps[i]) && decision::hop_of(
                    ps[i],
                ) == #[trigger] spread(best, ps, max)[j],
{
    let s = seq![decision::hop_of(best)] + ties(best, ps);
    lemma_firsts_distinct(s);
    let r = spread(best, ps, max);
    assert forall|j: int| 1 <= j < r.len() implies exists|i: int|
        0 <= i < ps.len() && decision::tied(best, #[trigger] ps[i]) && decision::hop_of(ps[i])
            == #[trigger] r[j] by {
        assert(firsts(s)[j] == r[j]);
        assert(firsts(s).contains(r[j]));
        assert(s.contains(r[j]));
        let i = choose|i: int| 0 <= i < s.len() && s[i] == r[j];
        assert(i != 0) by {
            if i == 0 {
                assert(firsts(s)[0] == firsts(s)[j]);
            }
        }
        assert(ties(best, ps)[i - 1] == r[j]);
        lemma_ties_from(best, ps, r[j]);
    }
}

/// The choice of the best path, and of as many next hops as are allowed.
#[derive(Clone, Copy, PartialEq, Eq, Debug)]
pub struct MultiPath {
    pub max_paths: usize,
}

fn has_hop(hops: &Vec<NextHop>, hop: &NextHop) -> (r: bool)
    ensures
        r == wire::views(hops@).contains(hop@),
{
    let ghost all = wire::views(hops@);
    let mut i: usize = 0;
    while i < hops.len()
        invariant
            i <= hops.len(),
            all == wire::views(hops@),
            forall|j: int| 0 <= j < i ==> #[trigger] all[j] != hop@,
        decreases hops.len() - i,
    {
        assert(all[i as int] == hops@[i as int]@);
        if hops[i].same(hop) {
            return true;
        }
        i = i + 1;
    }
    assert(!all.contains(hop@));
    false
}

impl MultiPath {
    fn hops(&self, best: &Path, offers: &Vec<Offer<Path>>) -> (r: Vec<NextHop>)
        ensures
            wire::views(r@) == spread(
                best@,
                selection::paths_of::<Path>(wire::views(offers@)),
                if self.max_paths < 1 {
                    1
                } else {
                    self.max_paths as int
                },
            ),
    {
        let max: usize = if self.max_paths < 1 {
            1
        } else {
            self.max_paths
        };
        let ghost ps = selection::paths_of::<Path>(wire::views(offers@));
        let ghost own = seq![decision::hop_of(best@)];
        let mut hops: Vec<NextHop> = Vec::new();
        hops.push(best.next_hop_entry());
        let mut i: usize = 0;
        proof {
            assert(ties(best@, ps.take(0)) =~= Seq::empty());
            assert(own + ties(best@, ps.take(0)) =~= own);
            assert(own.drop_last() =~= Seq::empty());
            assert(firsts(Seq::empty()) =~= Seq::empty());
            assert(wire::views(hops@) =~= firsts(own));
        }
        while i < offers.len() && hops.len() < max
            invariant
                i <= offers.len(),
                1 <= hops.len() <= max,
                ps == selection::paths_of::<Path>(wire::views(offers@)),
                own == seq![decision::hop_of(best@)],
                wire::views(hops@) == firsts(own + ties(best@, ps.take(i as int))),
            decreases offers.len() - i,
        {
            let p = &offers[i].what;
            assert(ps.take(i + 1).drop_last() =~= ps.take(i as int));
            assert(ps.take(i + 1).last() == p@);
            if multipath_eligible(best, p) {
                let hop = p.next_hop_entry();
                let ghost now = own + ties(best@, ps.take(i + 1));
                assert(now.drop_last() =~= own + ties(best@, ps.take(i as int)));
                assert(now.last() == hop@);
                if !has_hop(&hops, &hop) {
                    proof {
                        wire::lemma_views_push(hops@, hop);
                    }
                    hops.push(hop);
                }
            }
            i = i + 1;
        }
        proof {
            let front = own + ties(best@, ps.take(i as int));
            let rest = ties(best@, ps.skip(i as int));
            assert(ps =~= ps.take(i as int) + ps.skip(i as int));
            lemma_ties_split(best@, ps.take(i as int), ps.skip(i as int));
            assert(own + ties(best@, ps) =~= front + rest);
            lemma_firsts_front(front, rest);
            assert(wire::views(hops@).len() == hops@.len());
            if i == offers.len() {
                assert(ps.take(i as int) =~= ps);
            }
            assert(wire::views(hops@) =~= spread(best@, ps, max as int));
        }
        hops
    }
}

impl Selector for MultiPath {
    type Item = Path;

    type Choice = Installed;

    open spec fn chosen(&self, offers: Seq<(Source, PathView)>) -> InstalledView {
        let best = selection::best_of::<Path>(offers);
        InstalledView {
            path: best,
            hops: spread(
                best,
                selection::paths_of::<Path>(offers),
                if self.max_paths < 1 {
                    1
                } else {
                    self.max_paths as int
                },
            ),
        }
    }

    fn select(&self, offers: &Vec<Offer<Path>>) -> (r: Installed) {
        let best = &offers[best_index(offers)].what;
        Installed { path: best.dup(), hops: self.hops(best, offers) }
    }
}

/// What changed.
#[derive(Clone, PartialEq, Eq, Debug)]
pub enum RibEvent {
    /// A prefix has another best path than before, or other next hops.
    Best { prefix: Prefix, path: Path, hops: Vec<NextHop> },
    /// A prefix has no path left.
    Withdrawn(Prefix),
}

/// A change as a mathematical value.
#[verifier::ext_equal]
pub enum RibEventView {
    Best { prefix: Prefix, path: PathView, hops: Seq<HopView> },
    Withdrawn(Prefix),
}

impl View for RibEvent {
    type V = RibEventView;

    open spec fn view(&self) -> RibEventView {
        match *self {
            RibEvent::Best { prefix, path, hops } => RibEventView::Best {
                prefix,
                path: path@,
                hops: wire::views(hops@),
            },
            RibEvent::Withdrawn(prefix) => RibEventView::Withdrawn(prefix),
        }
    }
}

impl Event for RibEvent {
    type Key = Prefix;

    type Choice = Installed;

    open spec fn told(prefix: Prefix, c: Change<InstalledView>) -> RibEventView {
        match c {
            Change::Best(x) => RibEventView::Best { prefix, path: x.path, hops: x.hops },
            Change::Gone => RibEventView::Withdrawn(prefix),
        }
    }

    fn tell(prefix: Prefix, c: Change<Installed>) -> (r: RibEvent) {
        match c {
            Change::Best(x) => RibEvent::Best { prefix, path: x.path, hops: x.hops },
            Change::Gone => RibEvent::Withdrawn(prefix),
        }
    }
}

/// What the tables hold for each prefix: the offers, and the best path with its next hops.
pub type Routes = Slots<Prefix, PathView, InstalledView>;

/// The offers for a prefix, by source.
pub open spec fn candidates(s: Routes, prefix: Prefix) -> Seq<(Source, PathView)> {
    table::offers_at::<Prefix, PathView, InstalledView>(s, prefix)
}

/// The best path for a prefix with its next hops.
pub open spec fn installed(s: Routes, prefix: Prefix) -> Option<InstalledView> {
    table::choice_at::<Prefix, PathView, InstalledView>(s, prefix)
}

/// The event when the tables go from one state to another by a change to the offers for a
/// prefix; none where the best path and the next hops stay.
pub open spec fn event_between(was: Routes, is: Routes, prefix: Prefix) -> Option<RibEventView> {
    table::told_one::<RibEvent>(
        prefix,
        table::changed::<Prefix, PathView, InstalledView>(was, is, prefix),
    )
}

/// What every peer offers for every prefix, and the best of it.
pub struct BgpRib {
    table: Table<Prefix, MultiPath>,
}

impl Clone for BgpRib {
    fn clone(&self) -> (r: BgpRib)
        ensures
            r.selector() == self.selector(),
            self.wf() ==> r.wf() && r@ == self@,
    {
        BgpRib { table: self.table.clone() }
    }
}

impl View for BgpRib {
    type V = Routes;

    closed spec fn view(&self) -> Routes {
        self.table@
    }
}

impl Default for BgpRib {
    fn default() -> (r: BgpRib)
        ensures
            r.wf(),
            r@.len() == 0,
            r.selector().max_paths == 1,
    {
        BgpRib::new()
    }
}

impl BgpRib {
    /// How the best paths and the next hops are chosen.
    pub closed spec fn selector(&self) -> MultiPath {
        self.table.selector()
    }

    /// The tables are in order.
    pub closed spec fn wf(&self) -> bool {
        self.table.wf()
    }

    /// For every prefix with offers the best path and its next hops are those that the
    /// decision process chooses among them, and no other prefix is there.
    pub proof fn lemma_wf(&self)
        requires
            self.wf(),
        ensures
            table::table_ok::<Prefix, MultiPath>(self.selector(), self@),
    {
        self.table.lemma_wf();
    }

    /// Empty tables, with one next hop for each prefix.
    pub fn new() -> (r: BgpRib)
        ensures
            r.wf(),
            r@.len() == 0,
            r.selector().max_paths == 1,
    {
        BgpRib { table: Table::new(MultiPath { max_paths: 1 }) }
    }

    /// Empty tables, with at most `max_paths` next hops for each prefix, and with one
    /// where that is zero.
    pub fn with_max_paths(max_paths: usize) -> (r: BgpRib)
        ensures
            r.wf(),
            r@.len() == 0,
            r.selector().max_paths == (if max_paths == 0 {
                1
            } else {
                max_paths
            }),
    {
        let n: usize = if max_paths == 0 {
            1
        } else {
            max_paths
        };
        BgpRib { table: Table::new(MultiPath { max_paths: n }) }
    }

    /// Take the path that a peer offers for a prefix.
    pub fn update(&mut self, peer: IpAddr, prefix: Prefix, path: Path) -> (r: Option<RibEvent>)
        requires
            old(self).wf(),
        ensures
            final(self).wf(),
            final(self).selector() == old(self).selector(),
            final(self)@ == table::updated::<Prefix, MultiPath>(
                old(self).selector(),
                old(self)@,
                (Source { peer, path_id: 0 }),
                prefix,
                path@,
            ),
            table::event_view(r) == event_between(old(self)@, final(self)@, prefix),
    {
        self.update_with_id(peer, 0, prefix, path)
    }

    /// Take the path that a peer offers for a prefix under a path identifier (RFC 7911).
    pub fn update_with_id(&mut self, peer: IpAddr, path_id: u32, prefix: Prefix, path: Path) -> (r:
        Option<RibEvent>)
        requires
            old(self).wf(),
        ensures
            final(self).wf(),
            final(self).selector() == old(self).selector(),
            final(self)@ == table::updated::<Prefix, MultiPath>(
                old(self).selector(),
                old(self)@,
                (Source { peer, path_id }),
                prefix,
                path@,
            ),
            table::event_view(r) == event_between(old(self)@, final(self)@, prefix),
    {
        let c = self.table.update(Source { peer, path_id }, &prefix, path);
        table::tell_one::<RibEvent>(prefix, c)
    }

    /// Take back the path that a peer offered for a prefix.
    pub fn withdraw(&mut self, peer: IpAddr, prefix: Prefix) -> (r: Option<RibEvent>)
        requires
            old(self).wf(),
        ensures
            final(self).wf(),
            final(self).selector() == old(self).selector(),
            final(self)@ == table::withdrawn::<Prefix, MultiPath>(
                old(self).selector(),
                old(self)@,
                (Source { peer, path_id: 0 }),
                prefix,
            ),
            table::event_view(r) == event_between(old(self)@, final(self)@, prefix),
    {
        self.withdraw_with_id(peer, 0, prefix)
    }

    /// Take back the path that a peer offered for a prefix under a path identifier.
    pub fn withdraw_with_id(&mut self, peer: IpAddr, path_id: u32, prefix: Prefix) -> (r: Option<
        RibEvent,
    >)
        requires
            old(self).wf(),
        ensures
            final(self).wf(),
            final(self).selector() == old(self).selector(),
            final(self)@ == table::withdrawn::<Prefix, MultiPath>(
                old(self).selector(),
                old(self)@,
                (Source { peer, path_id }),
                prefix,
            ),
            table::event_view(r) == event_between(old(self)@, final(self)@, prefix),
    {
        let c = self.table.withdraw(Source { peer, path_id }, &prefix);
        table::tell_one::<RibEvent>(prefix, c)
    }

    /// Take back every path of a peer; returns the changes, in the order of the prefixes.
    pub fn withdraw_peer(&mut self, peer: IpAddr) -> (r: Vec<RibEvent>)
        requires
            old(self).wf(),
        ensures
            final(self).wf(),
            final(self).selector() == old(self).selector(),
            final(self)@ == table::without_peer::<Prefix, MultiPath>(
                old(self).selector(),
                old(self)@,
                peer,
            ),
            wire::views(r@) == table::told_all::<RibEvent>(
                table::peer_changes::<Prefix, MultiPath>(old(self).selector(), old(self)@, peer),
            ),
    {
        table::tell_all::<RibEvent>(self.table.withdraw_peer(peer))
    }

    /// The prefixes for which a peer offers a path, in order.
    pub fn prefixes_from(&self, peer: IpAddr) -> (r: Vec<Prefix>)
        requires
            self.wf(),
        ensures
            r@ == table::keys_from(self@, peer),
    {
        let r = self.table.keys_from(peer);
        assert(wire::views(r@) =~= r@);
        r
    }

    /// Every path offered for a prefix, by peer and path identifier.
    pub fn paths(&self, prefix: &Prefix) -> (r: Vec<((IpAddr, u32), &Path)>)
        requires
            self.wf(),
        ensures
            r@.len() == candidates(self@, *prefix).len(),
            forall|i: int|
                #![trigger r@[i]]
                0 <= i < r@.len() ==> ({
                    let c = candidates(self@, *prefix)[i];
                    r@[i].0 == (c.0.peer, c.0.path_id) && r@[i].1@ == c.1
                }),
    {
        let mut out: Vec<((IpAddr, u32), &Path)> = Vec::new();
        if let Some(slot) = self.table.get(prefix) {
            let mut i: usize = 0;
            while i < slot.offers.len()
                invariant
                    i <= slot.offers.len(),
                    out@.len() == i,
                    forall|j: int|
                        #![trigger out@[j]]
                        0 <= j < i ==> out@[j].0 == (
                            slot.offers@[j].source.peer,
                            slot.offers@[j].source.path_id,
                        ) && out@[j].1@ == slot.offers@[j].what@,
                decreases slot.offers.len() - i,
            {
                let o = &slot.offers[i];
                out.push(((o.source.peer, o.source.path_id), &o.what));
                i = i + 1;
            }
            assert forall|j: int| 0 <= j < out@.len() implies #[trigger] candidates(
                self@,
                *prefix,
            )[j] == slot.offers@[j]@ by {}
        }
        out
    }

    /// The best path for a prefix.
    pub fn best(&self, prefix: &Prefix) -> (r: Option<&Path>)
        requires
            self.wf(),
        ensures
            match r {
                Some(p) => installed(self@, *prefix) matches Some(x) && x.path == p@,
                None => installed(self@, *prefix) is None,
            },
    {
        match self.table.choice(prefix) {
            Some(x) => Some(&x.path),
            None => None,
        }
    }

    /// The next hops to install for a prefix.
    pub fn hops(&self, prefix: &Prefix) -> (r: Option<&Vec<NextHop>>)
        requires
            self.wf(),
        ensures
            match r {
                Some(h) => installed(self@, *prefix) matches Some(x) && x.hops == wire::views(h@),
                None => installed(self@, *prefix) is None,
            },
    {
        match self.table.choice(prefix) {
            Some(x) => Some(&x.hops),
            None => None,
        }
    }

    /// Every offered path with its prefix, peer and path identifier, in that order.
    pub fn iter_paths(&self) -> (r: Vec<(&Prefix, IpAddr, u32, &Path)>)
        requires
            self.wf(),
        ensures
            listed(r@) == all_paths(self@),
    {
        let ghost s = self@;
        let mut out: Vec<(&Prefix, IpAddr, u32, &Path)> = Vec::new();
        let mut i: usize = 0;
        assert(listed(out@) =~= all_paths(s.take(0)));
        while i < self.table.len()
            invariant
                self.wf(),
                s == self@,
                i <= s.len(),
                listed(out@) == all_paths(s.take(i as int)),
            decreases s.len() - i,
        {
            let prefix = self.table.key(i);
            let slot = self.table.slot(i);
            let ghost offers = s[i as int].1.offers;
            let ghost before = listed(out@);
            assert(s.take(i + 1).drop_last() =~= s.take(i as int));
            assert(s.take(i + 1).last() == s[i as int]);
            let mut j: usize = 0;
            assert(listed(out@) =~= before + prefix_paths(*prefix, offers.take(0)));
            while j < slot.offers.len()
                invariant
                    j <= slot.offers.len(),
                    offers == wire::views(slot.offers@),
                    listed(out@) == before + prefix_paths(*prefix, offers.take(j as int)),
                decreases slot.offers.len() - j,
            {
                let o = &slot.offers[j];
                let ghost was = out@;
                assert(offers[j as int] == o@);
                out.push((prefix, o.source.peer, o.source.path_id, &o.what));
                assert(listed(out@) =~= listed(was).push(
                    (*prefix, o.source.peer, o.source.path_id, o.what@),
                ));
                assert(listed(out@) =~= before + prefix_paths(*prefix, offers.take(j + 1)));
                j = j + 1;
            }
            assert(offers.take(j as int) =~= offers);
            i = i + 1;
        }
        assert(s.take(i as int) =~= s);
        out
    }

    /// The best path of every prefix, in the order of the prefixes.
    pub fn iter_best(&self) -> (r: Vec<(&Prefix, &Path)>)
        requires
            self.wf(),
        ensures
            r@.len() == self@.len(),
            forall|i: int|
                #![trigger r@[i]]
                0 <= i < r@.len() ==> *r@[i].0 == self@[i].0 && r@[i].1@ == self@[i].1.choice.path,
    {
        let mut out: Vec<(&Prefix, &Path)> = Vec::new();
        let mut i: usize = 0;
        while i < self.table.len()
            invariant
                self.wf(),
                i <= self@.len(),
                out@.len() == i,
                forall|j: int|
                    #![trigger out@[j]]
                    0 <= j < i ==> *out@[j].0 == self@[j].0 && out@[j].1@
                        == self@[j].1.choice.path,
            decreases self@.len() - i,
        {
            out.push((self.table.key(i), &self.table.slot(i).choice.path));
            i = i + 1;
        }
        out
    }

    /// How many prefixes have a path.
    pub fn len(&self) -> (r: usize)
        ensures
            r == self@.len(),
    {
        self.table.len()
    }

    /// Whether no prefix has a path.
    pub fn is_empty(&self) -> (r: bool)
        ensures
            r == (self@.len() == 0),
    {
        self.table.len() == 0
    }
}

/// Listed paths as mathematical values.
pub open spec fn listed(s: Seq<(&Prefix, IpAddr, u32, &Path)>) -> Seq<
    (Prefix, IpAddr, u32, PathView),
> {
    Seq::new(s.len(), |i: int| (*s[i].0, s[i].1, s[i].2, s[i].3@))
}

/// The paths offered for a prefix.
pub open spec fn prefix_paths(prefix: Prefix, offers: Seq<(Source, PathView)>) -> Seq<
    (Prefix, IpAddr, u32, PathView),
> {
    Seq::new(
        offers.len(),
        |i: int| (prefix, offers[i].0.peer, offers[i].0.path_id, offers[i].1),
    )
}

/// Every offered path, in the order of prefix, peer and path identifier.
pub open spec fn all_paths(s: Routes) -> Seq<(Prefix, IpAddr, u32, PathView)>
    decreases s.len(),
{
    if s.len() == 0 {
        Seq::empty()
    } else {
        all_paths(s.drop_last()) + prefix_paths(s.last().0, s.last().1.offers)
    }
}

proof fn lemma_ties_hold(best: PathView, ps: Seq<PathView>, i: int)
    requires
        0 <= i < ps.len(),
        decision::tied(best, ps[i]),
    ensures
        ties(best, ps).contains(decision::hop_of(ps[i])),
    decreases ps.len(),
{
    let front = ps.drop_last();
    let all = ties(best, ps);
    let t = ties(best, front);
    if i < front.len() {
        lemma_ties_hold(best, front, i);
        assert(front[i] == ps[i]);
        let j = choose|j: int| 0 <= j < t.len() && t[j] == decision::hop_of(ps[i]);
        assert(all[j] == t[j]);
    } else {
        assert(all[all.len() - 1] == decision::hop_of(ps[i]));
    }
}

/// No next hop is left out while there is room: the next hop of every path that ties with
/// the best one is installed, or as many as are allowed are.
pub proof fn lemma_spread_is_whole(best: PathView, ps: Seq<PathView>, max: int, i: int)
    requires
        max >= 1,
        0 <= i < ps.len(),
        decision::tied(best, ps[i]),
    ensures
        spread(best, ps, max).contains(decision::hop_of(ps[i])) || spread(best, ps, max).len()
            == max,
{
    let own = seq![decision::hop_of(best)];
    let s = own + ties(best, ps);
    let h = decision::hop_of(ps[i]);
    lemma_ties_hold(best, ps, i);
    let j = choose|j: int| 0 <= j < ties(best, ps).len() && ties(best, ps)[j] == h;
    assert(s[j + 1] == h);
    lemma_firsts_distinct(s);
    assert(s.contains(h));
    assert(firsts(s).contains(h));
}

/// More room only adds next hops at the end, one path more adds at most its own at the end,
/// and where there is room for one that is the best path's.
pub proof fn lemma_spread_grows(
    best: PathView,
    ps: Seq<PathView>,
    p: PathView,
    less: int,
    max: int,
)
    requires
        1 <= less <= max,
    ensures
        spread(best, ps, less) == spread(best, ps, max).take(
            spread(best, ps, less).len() as int,
        ),
        spread(best, ps, 1) == seq![decision::hop_of(best)],
        spread(best, ps.push(p), max) == (if decision::tied(best, p) && !spread(
            best,
            ps,
            max,
        ).contains(decision::hop_of(p)) && spread(best, ps, max).len() < max {
            spread(best, ps, max).push(decision::hop_of(p))
        } else {
            spread(best, ps, max)
        }),
{
    let own = seq![decision::hop_of(best)];
    let s = own + ties(best, ps);
    let f = firsts(s);
    lemma_firsts_distinct(s);
    assert(s[0] == decision::hop_of(best));
    assert(spread(best, ps, less) =~= spread(best, ps, max).take(
        spread(best, ps, less).len() as int,
    ));
    assert(spread(best, ps, 1) =~= own);
    let more = ps.push(p);
    assert(more.drop_last() =~= ps);
    let t = own + ties(best, more);
    if decision::tied(best, p) {
        assert(t.drop_last() =~= s);
        assert(t.last() == decision::hop_of(p));
        assert(firsts(t) == (if f.contains(decision::hop_of(p)) {
            f
        } else {
            f.push(decision::hop_of(p))
        }));
        let x = spread(best, ps, max);
        if f.len() < max {
            assert(x == f);
        } else {
            assert(x =~= f.take(max));
            assert(firsts(t).take(max) =~= f.take(max));
            if f.len() == max {
                assert(f.take(max) =~= f);
            }
        }
    } else {
        assert(t =~= s);
    }
}

/// What is installed for one path is that path and its own next hop. One path more becomes
/// the best exactly where it is better than the best so far, and the next hops are those of
/// the paths that tie with the best, one where the maximum is zero.
pub proof fn lemma_what_is_installed(
    sel: MultiPath,
    offers: Seq<(Source, PathView)>,
    o: (Source, PathView),
)
    requires
        offers.len() > 0,
    ensures
        sel.chosen(seq![o]).path == o.1,
        sel.chosen(offers.push(o)).path == (if decision::better(o.1, sel.chosen(offers).path) {
            o.1
        } else {
            sel.chosen(offers).path
        }),
        sel.chosen(offers).hops == spread(
            sel.chosen(offers).path,
            selection::paths_of::<Path>(offers),
            if sel.max_paths == 0 {
                1
            } else {
                sel.max_paths as int
            },
        ),
        sel.chosen(offers).hops.len() >= 1,
        sel.chosen(offers).hops[0].addr == sel.chosen(offers).path.next_hop,
        sel.max_paths <= 1 ==> sel.chosen(offers).hops.len() == 1,
        sel.max_paths >= 1 ==> sel.chosen(offers).hops.len() <= sel.max_paths,
{
    selection::lemma_one_more_offer::<Path>(offers, o);
    let best = sel.chosen(offers).path;
    let max = if sel.max_paths == 0 {
        1
    } else {
        sel.max_paths as int
    };
    lemma_spread(best, selection::paths_of::<Path>(offers), max);
}

/// An event tells what became of the best path and the next hops: none where both stay,
/// the new ones where either is another, and that they are gone where no path is left.
pub proof fn lemma_events_are_true(was: Routes, is: Routes, prefix: Prefix)
    ensures
        event_between(was, is, prefix) is None <==> installed(was, prefix) == installed(is, prefix),
        event_between(was, is, prefix) matches Some(
            RibEventView::Best { prefix: p, path, hops },
        ) ==> p == prefix && (installed(is, prefix) matches Some(x) && x.path == path && x.hops
            == hops),
        event_between(was, is, prefix) matches Some(RibEventView::Withdrawn(p)) ==> p == prefix
            && installed(is, prefix) is None && installed(was, prefix) is Some,
{
}

} // verus!
