//! The Babel route table and the feasibility condition (RFC 8966 §3.5–§3.6).
//!
//! The source table keeps, per prefix and router id, the feasibility distance: the best
//! sequence number and metric that were committed to. A received route is feasible where
//! it is strictly better than that, where its source is new, or where it is a
//! retraction. The route table keeps what every neighbour offers and selects, for each
//! prefix, the feasible route of least metric.

use vstd::prelude::*;

use crate::babel::METRIC_INFINITY;
use crate::net;
use crate::net::{IpAddr, Prefix};
use crate::order::{Datum, Ranked};
use crate::sorted_map;
use crate::sorted_map::SortedMap;
use crate::wire;

verus! {

/// Whether `a` lies one to 32767 steps ahead of `b` on the circle of 16-bit numbers.
pub open spec fn newer(a: u16, b: u16) -> bool {
    1 <= (a - b) % 65536 <= 32767
}

/// The sum of a metric and a cost, at most infinity.
pub open spec fn metric_sum(metric: u16, cost: u16) -> u16 {
    if metric + cost >= 65535 {
        65535
    } else {
        (metric + cost) as u16
    }
}

/// Whether sequence number `a` is more recent than `b`, modulo 2 to the 16th (§3.2.1).
pub fn seqno_newer(a: u16, b: u16) -> (r: bool)
    ensures
        r == newer(a, b),
{
    a != b && a.wrapping_sub(b) < 0x8000
}

/// Add a link cost to an advertised metric, saturating at infinity (§3.5.2).
pub fn add_metric(metric: u16, cost: u16) -> (r: u16)
    ensures
        r == metric_sum(metric, cost),
{
    if metric == METRIC_INFINITY || cost == METRIC_INFINITY {
        METRIC_INFINITY
    } else {
        metric.saturating_add(cost)
    }
}

/// A feasibility distance: the best sequence number and metric committed to.
#[derive(Clone, Copy, PartialEq, Eq, Structural, Debug)]
pub struct Fd {
    pub seqno: u16,
    pub metric: u16,
}

impl View for Fd {
    type V = Fd;

    open spec fn view(&self) -> Fd {
        *self
    }
}

/// Whether a route is strictly better than a feasibility distance (§3.5.1): it has a
/// more recent sequence number, or the same one and a smaller metric.
pub open spec fn betters(seqno: u16, metric: u16, fd: Fd) -> bool {
    newer(seqno, fd.seqno) || (seqno == fd.seqno && metric < fd.metric)
}

fn strictly_better(seqno: u16, metric: u16, fd: Fd) -> (r: bool)
    ensures
        r == betters(seqno, metric, fd),
{
    seqno_newer(seqno, fd.seqno) || (seqno == fd.seqno && metric < fd.metric)
}

/// A source: a prefix and the router that originates it.
#[derive(Clone, Copy, PartialEq, Eq, Debug)]
pub struct SourceKey {
    pub prefix: Prefix,
    pub router_id: [u8; 8],
}

impl View for SourceKey {
    type V = SourceKey;

    open spec fn view(&self) -> SourceKey {
        *self
    }
}

fn same_id(a: &[u8; 8], b: &[u8; 8]) -> (r: bool)
    ensures
        r == (*a == *b),
{
    let r = wire::same_bytes(a.as_slice(), b.as_slice());
    assert(r ==> *a =~= *b);
    r
}

impl Datum for SourceKey {
    fn dup(&self) -> (r: SourceKey) {
        *self
    }

    fn same(&self, other: &SourceKey) -> (r: bool) {
        self.prefix.same(&other.prefix) && same_id(&self.router_id, &other.router_id)
    }
}

impl Ranked for SourceKey {
    open spec fn rank(key: SourceKey) -> Seq<u64> {
        Prefix::rank(key.prefix) + net::numbers(key.router_id@)
    }

    fn rank_of(&self) -> (r: Vec<u64>) {
        let mut out = self.prefix.rank_of();
        net::push_numbers(&mut out, self.router_id.as_slice());
        out
    }
}

/// The feasibility distances, by source.
pub struct SourceTable {
    fds: SortedMap<SourceKey, Fd>,
}

impl View for SourceTable {
    type V = Seq<(SourceKey, Fd)>;

    closed spec fn view(&self) -> Seq<(SourceKey, Fd)> {
        self.fds@
    }
}

/// The feasibility distance of a source.
pub open spec fn distance(s: Seq<(SourceKey, Fd)>, k: SourceKey) -> Option<Fd> {
    sorted_map::lookup::<SourceKey, Fd>(s, SourceKey::rank(k))
}

/// The feasibility condition (§3.5.1).
pub open spec fn feasible(s: Seq<(SourceKey, Fd)>, k: SourceKey, seqno: u16, metric: u16) -> bool {
    metric == 65535 || match distance(s, k) {
        None => true,
        Some(fd) => betters(seqno, metric, fd),
    }
}

/// The distances after a route was selected: lowered to it where it is better (§3.5.3).
pub open spec fn committed(s: Seq<(SourceKey, Fd)>, k: SourceKey, seqno: u16, metric: u16) -> Seq<
    (SourceKey, Fd),
> {
    if metric != 65535 && feasible(s, k, seqno, metric) {
        sorted_map::put::<SourceKey, Fd>(s, k, Fd { seqno, metric })
    } else {
        s
    }
}

impl Default for SourceTable {
    fn default() -> (r: SourceTable)
        ensures
            r.wf(),
            r@ == Seq::<(SourceKey, Fd)>::empty(),
    {
        SourceTable { fds: SortedMap::new() }
    }
}

impl SourceTable {
    /// The sources are distinct and in order.
    pub closed spec fn wf(&self) -> bool {
        self.fds.wf()
    }

    /// The sources of a well-formed table are sorted.
    pub proof fn lemma_wf_sorted(&self)
        requires
            self.wf(),
        ensures
            sorted_map::sorted::<SourceKey, Fd>(self@),
    {
        self.fds.lemma_wf_sorted();
    }

    /// Whether an Update satisfies the feasibility condition (§3.5.1). A retraction, and
    /// an Update of an unknown source, always does.
    pub fn is_feasible(&self, prefix: Prefix, router_id: [u8; 8], seqno: u16, metric: u16) -> (r:
        bool)
        requires
            self.wf(),
        ensures
            r == feasible(self@, (SourceKey { prefix, router_id }), seqno, metric),
    {
        if metric == METRIC_INFINITY {
            return true;
        }
        match self.fds.get(&SourceKey { prefix, router_id }) {
            None => true,
            Some(fd) => strictly_better(seqno, metric, *fd),
        }
    }

    fn update(&mut self, prefix: Prefix, router_id: [u8; 8], seqno: u16, metric: u16)
        requires
            old(self).wf(),
        ensures
            final(self).wf(),
            final(self)@ == committed(
                old(self)@,
                (SourceKey { prefix, router_id }),
                seqno,
                metric,
            ),
    {
        if metric == METRIC_INFINITY {
            return ;
        }
        if self.is_feasible(prefix, router_id, seqno, metric) {
            self.fds.insert(SourceKey { prefix, router_id }, Fd { seqno, metric });
        }
    }

    /// The number of sources.
    pub fn len(&self) -> (r: usize)
        ensures
            r == self@.len(),
    {
        self.fds.len()
    }

    /// Whether no source is known.
    pub fn is_empty(&self) -> (r: bool)
        ensures
            r == (self@.len() == 0),
    {
        self.fds.len() == 0
    }
}

/// A source as one neighbour offers it.
#[derive(Clone, Copy, PartialEq, Eq, Debug)]
pub struct RouteKey {
    pub prefix: Prefix,
    pub router_id: [u8; 8],
    pub neighbour: IpAddr,
}

impl View for RouteKey {
    type V = RouteKey;

    open spec fn view(&self) -> RouteKey {
        *self
    }
}

impl Datum for RouteKey {
    fn dup(&self) -> (r: RouteKey) {
        *self
    }

    fn same(&self, other: &RouteKey) -> (r: bool) {
        self.prefix.same(&other.prefix) && same_id(&self.router_id, &other.router_id)
            && self.neighbour.same(&other.neighbour)
    }
}

impl Ranked for RouteKey {
    /// By prefix, then router id, then neighbour.
    open spec fn rank(key: RouteKey) -> Seq<u64> {
        Prefix::rank(key.prefix) + net::numbers(key.router_id@) + IpAddr::rank(key.neighbour)
    }

    fn rank_of(&self) -> (r: Vec<u64>) {
        let mut out = self.prefix.rank_of();
        net::push_numbers(&mut out, self.router_id.as_slice());
        let mut n = self.neighbour.rank_of();
        out.append(&mut n);
        out
    }
}

impl RouteKey {
    /// The source that is offered.
    pub open spec fn source(self) -> SourceKey {
        SourceKey { prefix: self.prefix, router_id: self.router_id }
    }
}

/// What a neighbour offers.
#[derive(Clone, Copy, PartialEq, Eq, Debug)]
pub struct RouteEntry {
    pub seqno: u16,
    /// The metric as advertised.
    pub advertised: u16,
    /// The cost of the link to the neighbour.
    pub cost: u16,
    /// The next hop to install if the route is selected.
    pub next_hop: IpAddr,
    /// Whether the route passed the feasibility condition.
    pub feasible: bool,
}

impl View for RouteEntry {
    type V = RouteEntry;

    open spec fn view(&self) -> RouteEntry {
        *self
    }
}

impl RouteEntry {
    /// The route's metric: as advertised, plus the link cost.
    pub open spec fn total(self) -> u16 {
        metric_sum(self.advertised, self.cost)
    }

    fn metric(&self) -> (r: u16)
        ensures
            r == self.total(),
    {
        add_metric(self.advertised, self.cost)
    }
}

/// The selected route of a prefix.
#[derive(Clone, Copy, PartialEq, Eq, Debug)]
pub struct Selection {
    pub key: RouteKey,
    pub next_hop: IpAddr,
    pub metric: u16,
}

impl View for Selection {
    type V = Selection;

    open spec fn view(&self) -> Selection {
        *self
    }
}

/// A change of the selected route of a prefix.
#[derive(Clone, Copy, PartialEq, Eq, Debug)]
pub enum BabelEvent {
    /// The best route appeared or changed: install it.
    Select {
        prefix: Prefix,
        next_hop: IpAddr,
        metric: u16,
    },
    /// No feasible route is left: withdraw it.
    Retract(Prefix),
}

/// What every neighbour offers, and the selected route of each prefix.
pub struct RouteTable {
    sources: SourceTable,
    routes: SortedMap<RouteKey, RouteEntry>,
    selected: SortedMap<Prefix, Selection>,
}

/// The contents of a route table.
pub struct RouteTableView {
    /// The feasibility distances, by source.
    pub sources: Seq<(SourceKey, Fd)>,
    /// The offered routes, by prefix, router id and neighbour.
    pub routes: Seq<(RouteKey, RouteEntry)>,
    /// The selected routes, by prefix.
    pub selected: Seq<(Prefix, Selection)>,
}

impl View for RouteTable {
    type V = RouteTableView;

    closed spec fn view(&self) -> RouteTableView {
        RouteTableView {
            sources: self.sources@,
            routes: self.routes@,
            selected: self.selected@,
        }
    }
}

/// Whether a route can be selected for `p`: it is feasible and reachable.
pub open spec fn eligible(e: (RouteKey, RouteEntry), p: Prefix) -> bool {
    e.0.prefix == p && e.1.feasible && e.1.total() < 65535
}

/// The route to select for `p`: of the eligible ones the first with the least metric.
pub open spec fn best_route(s: Seq<(RouteKey, RouteEntry)>, p: Prefix) -> Option<
    (RouteKey, RouteEntry),
>
    decreases s.len(),
{
    if s.len() == 0 {
        None
    } else {
        let b = best_route(s.drop_last(), p);
        if eligible(s.last(), p) && (b is None || s.last().1.total() < (b->0).1.total()) {
            Some(s.last())
        } else {
            b
        }
    }
}

/// What is selected for `p`.
pub open spec fn selection(s: Seq<(RouteKey, RouteEntry)>, p: Prefix) -> Option<Selection> {
    match best_route(s, p) {
        Some((key, e)) => Some(Selection { key, next_hop: e.next_hop, metric: e.total() }),
        None => None,
    }
}

/// The event that tells of a change from one selection to another.
pub open spec fn selection_event(
    p: Prefix,
    was: Option<Selection>,
    now: Option<Selection>,
) -> Option<BabelEvent> {
    if was == now {
        None
    } else {
        match now {
            Some(s) => Some(
                BabelEvent::Select { prefix: p, next_hop: s.next_hop, metric: s.metric },
            ),
            None => Some(BabelEvent::Retract(p)),
        }
    }
}

/// The routes that do not go through `neighbour`.
pub open spec fn not_via(s: Seq<(RouteKey, RouteEntry)>, neighbour: IpAddr) -> Seq<
    (RouteKey, RouteEntry),
>
    decreases s.len(),
{
    if s.len() == 0 {
        Seq::empty()
    } else if s.last().0.neighbour == neighbour {
        not_via(s.drop_last(), neighbour)
    } else {
        not_via(s.drop_last(), neighbour).push(s.last())
    }
}

/// The prefixes that have a route through `neighbour`, in order and each once.
pub open spec fn prefixes_via(s: Seq<(RouteKey, RouteEntry)>, neighbour: IpAddr) -> Seq<Prefix>
    decreases s.len(),
{
    if s.len() == 0 {
        Seq::empty()
    } else {
        let front = prefixes_via(s.drop_last(), neighbour);
        let p = s.last().0.prefix;
        if s.last().0.neighbour != neighbour || (front.len() > 0 && front.last() == p) {
            front
        } else {
            front.push(p)
        }
    }
}

impl RouteTableView {
    /// The selected route of a prefix.
    pub open spec fn selected_for(self, p: Prefix) -> Option<Selection> {
        sorted_map::lookup::<Prefix, Selection>(self.selected, Prefix::rank(p))
    }

    /// What is offered under a key.
    pub open spec fn offered(self, key: RouteKey) -> Option<RouteEntry> {
        sorted_map::lookup::<RouteKey, RouteEntry>(self.routes, RouteKey::rank(key))
    }

    /// The three tables are in order.
    pub open spec fn in_order(self) -> bool {
        &&& sorted_map::sorted::<SourceKey, Fd>(self.sources)
        &&& sorted_map::sorted::<RouteKey, RouteEntry>(self.routes)
        &&& sorted_map::sorted::<Prefix, Selection>(self.selected)
    }

    /// What is selected for `p` is what the offered routes give.
    pub open spec fn settled_at(self, p: Prefix) -> bool {
        self.selected_for(p) == selection(self.routes, p)
    }

    /// What is selected is what the offered routes give, for every prefix.
    pub open spec fn settled(self) -> bool {
        forall|p: Prefix| #[trigger] self.settled_at(p)
    }

    /// The table after selection was run again for `p`: the winner is selected and
    /// lowers the feasibility distance of its source.
    pub open spec fn reselected(self, p: Prefix) -> RouteTableView {
        match best_route(self.routes, p) {
            Some((key, e)) => RouteTableView {
                sources: committed(
                    self.sources,
                    SourceKey { prefix: p, router_id: key.router_id },
                    e.seqno,
                    e.advertised,
                ),
                routes: self.routes,
                selected: sorted_map::put::<Prefix, Selection>(
                    self.selected,
                    p,
                    Selection { key, next_hop: e.next_hop, metric: e.total() },
                ),
            },
            None => RouteTableView {
                selected: sorted_map::without::<Prefix, Selection>(self.selected, Prefix::rank(p)),
                ..self
            },
        }
    }

    /// The event of running selection again for `p`.
    pub open spec fn reselect_event(self, p: Prefix) -> Option<BabelEvent> {
        selection_event(p, self.selected_for(p), selection(self.routes, p))
    }

    /// The table with an Update stored, before selection. The selected route is feasible
    /// by definition; any other has to meet the condition.
    pub open spec fn with_update(
        self,
        key: RouteKey,
        next_hop: IpAddr,
        seqno: u16,
        advertised: u16,
        cost: u16,
    ) -> RouteTableView {
        RouteTableView {
            routes: if advertised == 65535 {
                sorted_map::without::<RouteKey, RouteEntry>(self.routes, RouteKey::rank(key))
            } else {
                let is_selected = self.selected_for(key.prefix) matches Some(s) && s.key == key;
                sorted_map::put::<RouteKey, RouteEntry>(
                    self.routes,
                    key,
                    RouteEntry {
                        seqno,
                        advertised,
                        cost,
                        next_hop,
                        feasible: is_selected || feasible(
                            self.sources,
                            key.source(),
                            seqno,
                            advertised,
                        ),
                    },
                )
            },
            ..self
        }
    }

    /// The table after selection was run again for each of `ps`, in turn.
    pub open spec fn all_reselected(self, ps: Seq<Prefix>) -> RouteTableView
        decreases ps.len(),
    {
        if ps.len() == 0 {
            self
        } else {
            self.all_reselected(ps.drop_last()).reselected(ps.last())
        }
    }

    /// The events of running selection again for each of `ps`, in turn.
    pub open spec fn all_events(self, ps: Seq<Prefix>) -> Seq<BabelEvent>
        decreases ps.len(),
    {
        if ps.len() == 0 {
            Seq::empty()
        } else {
            let front = self.all_events(ps.drop_last());
            match self.all_reselected(ps.drop_last()).reselect_event(ps.last()) {
                Some(ev) => front.push(ev),
                None => front,
            }
        }
    }

    /// The table without the routes through `neighbour`, before selection.
    pub open spec fn without_neighbour(self, neighbour: IpAddr) -> RouteTableView {
        RouteTableView { routes: not_via(self.routes, neighbour), ..self }
    }
}

impl Default for RouteTable {
    fn default() -> (r: RouteTable)
        ensures
            r.wf(),
            r@.sources.len() == 0,
            r@.routes.len() == 0,
            r@.selected.len() == 0,
    {
        RouteTable {
            sources: SourceTable::default(),
            routes: SortedMap::new(),
            selected: SortedMap::new(),
        }
    }
}

impl RouteTable {
    /// The tables are well formed, and what is selected is what the routes give.
    pub closed spec fn wf(&self) -> bool {
        &&& self.ordered()
        &&& self@.settled()
    }

    closed spec fn ordered(&self) -> bool {
        &&& self.sources.wf()
        &&& self.routes.wf()
        &&& self.selected.wf()
    }

    proof fn lemma_in_order(&self)
        requires
            self.ordered(),
        ensures
            self@.in_order(),
    {
        self.sources.lemma_wf_sorted();
        self.routes.lemma_wf_sorted();
        self.selected.lemma_wf_sorted();
    }

    /// A well-formed table is in order and settled.
    pub proof fn lemma_wf(&self)
        requires
            self.wf(),
        ensures
            self@.in_order(),
            self@.settled(),
    {
        self.lemma_in_order();
    }

    /// An empty table.
    pub fn new() -> (r: RouteTable)
        ensures
            r.wf(),
            r@.sources.len() == 0,
            r@.routes.len() == 0,
            r@.selected.len() == 0,
    {
        RouteTable::default()
    }

    /// Process an Update from `neighbour`, over a link of cost `cost`. `next_hop` is what
    /// to install if the route is selected. An infinite metric withdraws the neighbour's
    /// route. Returns the change of selection, if any.
    pub fn update(
        &mut self,
        prefix: Prefix,
        router_id: [u8; 8],
        neighbour: IpAddr,
        next_hop: IpAddr,
        seqno: u16,
        advertised: u16,
        cost: u16,
    ) -> (r: Option<BabelEvent>)
        requires
            old(self).wf(),
        ensures
            final(self).wf(),
            ({
                let stored = old(self)@.with_update(
                    RouteKey { prefix, router_id, neighbour },
                    next_hop,
                    seqno,
                    advertised,
                    cost,
                );
                &&& final(self)@ == stored.reselected(prefix)
                &&& r == stored.reselect_event(prefix)
            }),
    {
        let key = RouteKey { prefix, router_id, neighbour };
        proof {
            self.lemma_in_order();
            lemma_update_settles(self@, key, next_hop, seqno, advertised, cost);
        }
        if advertised == METRIC_INFINITY {
            self.routes.remove(&key);
        } else {
            let feasible = self.is_selected_route(&key) || self.sources.is_feasible(
                prefix,
                router_id,
                seqno,
                advertised,
            );
            self.routes.insert(key, RouteEntry { seqno, advertised, cost, next_hop, feasible });
        }
        self.reselect(prefix)
    }

    /// Drop every route through `neighbour`, returning the change of selection of each
    /// affected prefix.
    pub fn neighbour_lost(&mut self, neighbour: IpAddr) -> (r: Vec<BabelEvent>)
        requires
            old(self).wf(),
        ensures
            final(self).wf(),
            ({
                let ps = prefixes_via(old(self)@.routes, neighbour);
                let stored = old(self)@.without_neighbour(neighbour);
                &&& final(self)@ == stored.all_reselected(ps)
                &&& r@ == stored.all_events(ps)
            }),
    {
        let ghost start = self@;
        let ghost s = self@.routes;
        let mut affected: Vec<Prefix> = Vec::new();
        let ghost mut done: int = 0;
        let mut i: usize = 0;
        assert(s.take(0) =~= Seq::empty());
        assert(s.skip(0) =~= s);
        while i < self.routes.len()
            invariant
                self.ordered(),
                0 <= done <= s.len(),
                i == not_via(s.take(done), neighbour).len(),
                self.routes@ =~= not_via(s.take(done), neighbour) + s.skip(done),
                affected@ == prefixes_via(s.take(done), neighbour),
                self@ == (RouteTableView { routes: self.routes@, ..start }),
            decreases s.len() - done,
        {
            let key = *self.routes.key(i);
            assert(s.skip(done)[0] == self.routes@[i as int]);
            assert(s.take(done + 1).drop_last() =~= s.take(done));
            assert(s.skip(done).drop_first() =~= s.skip(done + 1));
            if key.neighbour.same(&neighbour) {
                let n = affected.len();
                if n == 0 || !affected[n - 1].same(&key.prefix) {
                    affected.push(key.prefix);
                }
                self.routes.remove_at(i);
            } else {
                i = i + 1;
            }
            proof {
                done = done + 1;
            }
        }
        assert(s.take(done) =~= s);
        let ghost stored = self@;
        assert(stored == start.without_neighbour(neighbour));
        let mut events: Vec<BabelEvent> = Vec::new();
        let mut k: usize = 0;
        assert(affected@.take(0) =~= Seq::empty());
        while k < affected.len()
            invariant
                k <= affected.len(),
                self.ordered(),
                self@ == stored.all_reselected(affected@.take(k as int)),
                events@ == stored.all_events(affected@.take(k as int)),
            decreases affected.len() - k,
        {
            assert(affected@.take(k + 1).drop_last() =~= affected@.take(k as int));
            if let Some(ev) = self.reselect(affected[k]) {
                events.push(ev);
            }
            k = k + 1;
        }
        assert(affected@.take(k as int) =~= affected@);
        proof {
            old(self).lemma_in_order();
            lemma_loss_settles(start, neighbour);
        }
        events
    }

    fn is_selected_route(&self, key: &RouteKey) -> (r: bool)
        requires
            self.selected.wf(),
        ensures
            r == (self@.selected_for(key.prefix) matches Some(s) && s.key == *key),
    {
        match self.selected.get(&key.prefix) {
            Some(s) => s.key.same(key),
            None => false,
        }
    }

    /// The selected next hop and metric of a prefix.
    pub fn selected(&self, prefix: &Prefix) -> (r: Option<(IpAddr, u16)>)
        requires
            self.wf(),
        ensures
            r == match self@.selected_for(*prefix) {
                Some(s) => Some((s.next_hop, s.metric)),
                None => None,
            },
    {
        match self.selected.get(prefix) {
            Some(s) => Some((s.next_hop, s.metric)),
            None => None,
        }
    }

    /// Every prefix with a selected route, with its next hop and metric, in prefix order.
    pub fn selected_routes(&self) -> (r: Vec<(Prefix, IpAddr, u16)>)
        requires
            self.wf(),
        ensures
            r@ == self@.selected.map_values(
                |e: (Prefix, Selection)| (e.0, e.1.next_hop, e.1.metric),
            ),
    {
        let mut out: Vec<(Prefix, IpAddr, u16)> = Vec::new();
        let ghost f = |e: (Prefix, Selection)| (e.0, e.1.next_hop, e.1.metric);
        let mut i: usize = 0;
        while i < self.selected.len()
            invariant
                i <= self@.selected.len(),
                self.selected.wf(),
                self@.selected == self.selected@,
                f == (|e: (Prefix, Selection)| (e.0, e.1.next_hop, e.1.metric)),
                out@ == self@.selected.take(i as int).map_values(f),
            decreases self@.selected.len() - i,
        {
            let s = *self.selected.value(i);
            out.push((*self.selected.key(i), s.next_hop, s.metric));
            assert(self@.selected.take(i + 1) =~= self@.selected.take(i as int).push(
                self@.selected[i as int],
            ));
            assert(out@ =~= self@.selected.take(i + 1).map_values(f));
            i = i + 1;
        }
        assert(self@.selected.take(i as int) =~= self@.selected);
        out
    }

    /// The number of prefixes with a selected route.
    pub fn len(&self) -> (r: usize)
        ensures
            r == self@.selected.len(),
    {
        self.selected.len()
    }

    /// Whether no prefix has a selected route.
    pub fn is_empty(&self) -> (r: bool)
        ensures
            r == (self@.selected.len() == 0),
    {
        self.selected.len() == 0
    }

    fn best(&self, prefix: Prefix) -> (r: Option<(RouteKey, RouteEntry)>)
        requires
            self.routes.wf(),
        ensures
            r == best_route(self@.routes, prefix),
    {
        let mut best: Option<(RouteKey, RouteEntry)> = None;
        let ghost s = self.routes@;
        let mut i: usize = 0;
        assert(s.take(0) =~= Seq::empty());
        while i < self.routes.len()
            invariant
                i <= s.len(),
                s == self.routes@,
                self.routes.wf(),
                best == best_route(s.take(i as int), prefix),
            decreases s.len() - i,
        {
            let k = *self.routes.key(i);
            let e = *self.routes.value(i);
            assert(s.take(i + 1).drop_last() =~= s.take(i as int));
            if k.prefix.same(&prefix) && e.feasible && e.metric() < METRIC_INFINITY {
                let wins = match &best {
                    None => true,
                    Some(b) => e.metric() < b.1.metric(),
                };
                if wins {
                    best = Some((k, e));
                }
            }
            i = i + 1;
        }
        assert(s.take(i as int) =~= s);
        best
    }

    fn reselect(&mut self, prefix: Prefix) -> (r: Option<BabelEvent>)
        requires
            old(self).ordered(),
        ensures
            final(self).ordered(),
            final(self)@ == old(self)@.reselected(prefix),
            r == old(self)@.reselect_event(prefix),
    {
        match self.best(prefix) {
            Some((key, entry)) => {
                let metric = entry.metric();
                self.sources.update(prefix, key.router_id, entry.seqno, entry.advertised);
                let now = Selection { key, next_hop: entry.next_hop, metric };
                let unchanged = match self.selected.get(&prefix) {
                    Some(s) => s.key.same(&key) && s.next_hop.same(&entry.next_hop) && s.metric
                        == metric,
                    None => false,
                };
                self.selected.insert(prefix, now);
                if unchanged {
                    None
                } else {
                    Some(BabelEvent::Select { prefix, next_hop: entry.next_hop, metric })
                }
            },
            None => {
                if self.selected.remove(&prefix) {
                    Some(BabelEvent::Retract(prefix))
                } else {
                    None
                }
            },
        }
    }
}

/// Sources of one rank are one source, and offered routes of one rank are one route.
pub proof fn lemma_table_ranks(a: SourceKey, b: SourceKey, x: RouteKey, y: RouteKey)
    ensures
        SourceKey::rank(a) == SourceKey::rank(b) ==> a == b,
        RouteKey::rank(x) == RouteKey::rank(y) ==> x == y,
{
    if SourceKey::rank(a) == SourceKey::rank(b) {
        net::lemma_prefix_rank(
            a.prefix,
            net::numbers(a.router_id@),
            b.prefix,
            net::numbers(b.router_id@),
        );
        net::lemma_numbers_injective(a.router_id@, b.router_id@);
        assert(a.router_id =~= b.router_id);
    }
    if RouteKey::rank(x) == RouteKey::rank(y) {
        let u = net::numbers(x.router_id@) + IpAddr::rank(x.neighbour);
        let v = net::numbers(y.router_id@) + IpAddr::rank(y.neighbour);
        assert(RouteKey::rank(x) =~= Prefix::rank(x.prefix) + u);
        assert(RouteKey::rank(y) =~= Prefix::rank(y.prefix) + v);
        net::lemma_prefix_rank(x.prefix, u, y.prefix, v);
        assert(u.take(8) =~= net::numbers(x.router_id@));
        assert(v.take(8) =~= net::numbers(y.router_id@));
        net::lemma_numbers_injective(x.router_id@, y.router_id@);
        assert(x.router_id =~= y.router_id);
        assert(u.skip(8) =~= IpAddr::rank(x.neighbour));
        assert(v.skip(8) =~= IpAddr::rank(y.neighbour));
        net::lemma_net_ranks(x.prefix, y.prefix, x.neighbour, y.neighbour);
    }
}

/// A route that cannot be selected for `p` does not bear on what is.
proof fn lemma_best_insert(s: Seq<(RouteKey, RouteEntry)>, i: int, e: (RouteKey, RouteEntry), p: Prefix)
    requires
        0 <= i <= s.len(),
        !eligible(e, p),
    ensures
        best_route(s.insert(i, e), p) == best_route(s, p),
    decreases s.len(),
{
    let t = s.insert(i, e);
    if i == s.len() {
        assert(t.drop_last() =~= s);
    } else {
        lemma_best_insert(s.drop_last(), i, e, p);
        assert(t.drop_last() =~= s.drop_last().insert(i, e));
        assert(t.last() == s.last());
    }
}

proof fn lemma_best_update(s: Seq<(RouteKey, RouteEntry)>, i: int, e: (RouteKey, RouteEntry), p: Prefix)
    requires
        0 <= i < s.len(),
        !eligible(e, p),
        !eligible(s[i], p),
    ensures
        best_route(s.update(i, e), p) == best_route(s, p),
{
    let gap = s.remove(i);
    lemma_best_insert(gap, i, e, p);
    lemma_best_insert(gap, i, s[i], p);
    assert(gap.insert(i, e) =~= s.update(i, e));
    assert(gap.insert(i, s[i]) =~= s);
}

/// Storing an Update bears only on the prefix that it is for.
proof fn lemma_best_elsewhere(
    v: RouteTableView,
    key: RouteKey,
    next_hop: IpAddr,
    seqno: u16,
    advertised: u16,
    cost: u16,
    q: Prefix,
)
    requires
        v.in_order(),
        q != key.prefix,
    ensures
        best_route(v.with_update(key, next_hop, seqno, advertised, cost).routes, q) == best_route(
            v.routes,
            q,
        ),
{
    let s = v.routes;
    let r = RouteKey::rank(key);
    sorted_map::lemma_slot::<RouteKey, RouteEntry>(s, r);
    let i = sorted_map::slot::<RouteKey, RouteEntry>(s, r);
    let t = v.with_update(key, next_hop, seqno, advertised, cost).routes;
    if sorted_map::present::<RouteKey, RouteEntry>(s, r) {
        lemma_table_ranks(key.source(), key.source(), s[i].0, key);
        if advertised == 65535 {
            assert(t.insert(i, s[i]) =~= s);
            lemma_best_insert(t, i, s[i], q);
        } else {
            lemma_best_update(s, i, t[i], q);
        }
    } else if advertised != 65535 {
        lemma_best_insert(s, i, t[i], q);
    }
}

/// Running selection for a prefix settles it, keeps what was settled, and keeps the
/// tables in order.
proof fn lemma_reselect_settles(v: RouteTableView, p: Prefix)
    requires
        v.in_order(),
    ensures
        v.reselected(p).in_order(),
        v.reselected(p).routes == v.routes,
        v.reselected(p).settled_at(p),
        forall|q: Prefix| v.settled_at(q) ==> #[trigger] v.reselected(p).settled_at(q),
{
    let t = v.reselected(p);
    match best_route(v.routes, p) {
        Some((key, e)) => {
            let s = Selection { key, next_hop: e.next_hop, metric: e.total() };
            sorted_map::lemma_put::<Prefix, Selection>(v.selected, p, s);
            let k = SourceKey { prefix: p, router_id: key.router_id };
            sorted_map::lemma_put::<SourceKey, Fd>(
                v.sources,
                k,
                Fd { seqno: e.seqno, metric: e.advertised },
            );
        },
        None => {
            sorted_map::lemma_without::<Prefix, Selection>(v.selected, Prefix::rank(p));
        },
    }
    assert forall|q: Prefix| v.settled_at(q) implies #[trigger] t.settled_at(q) by {
        net::lemma_net_ranks(p, q, p.addr, q.addr);
    }
}

/// After an Update is stored and selection is run for its prefix, every prefix is
/// settled.
pub proof fn lemma_update_settles(
    v: RouteTableView,
    key: RouteKey,
    next_hop: IpAddr,
    seqno: u16,
    advertised: u16,
    cost: u16,
)
    requires
        v.in_order(),
        v.settled(),
    ensures
        ({
            let t = v.with_update(key, next_hop, seqno, advertised, cost).reselected(key.prefix);
            t.in_order() && t.settled()
        }),
{
    let u = v.with_update(key, next_hop, seqno, advertised, cost);
    let r = RouteKey::rank(key);
    sorted_map::lemma_without::<RouteKey, RouteEntry>(v.routes, r);
    if advertised != 65535 {
        let i = sorted_map::slot::<RouteKey, RouteEntry>(v.routes, r);
        sorted_map::lemma_slot::<RouteKey, RouteEntry>(v.routes, r);
        sorted_map::lemma_put::<RouteKey, RouteEntry>(v.routes, key, u.routes[i].1);
    }
    assert(u.in_order());
    lemma_reselect_settles(u, key.prefix);
    let t = u.reselected(key.prefix);
    assert forall|q: Prefix| #[trigger] t.settled_at(q) by {
        if q != key.prefix {
            lemma_best_elsewhere(v, key, next_hop, seqno, advertised, cost, q);
            assert(v.settled_at(q));
            assert(u.settled_at(q));
        }
    }
}

/// Routes through a neighbour bear only on the prefixes that have one.
proof fn lemma_best_not_via(s: Seq<(RouteKey, RouteEntry)>, neighbour: IpAddr, q: Prefix)
    requires
        !prefixes_via(s, neighbour).contains(q),
    ensures
        best_route(not_via(s, neighbour), q) == best_route(s, q),
    decreases s.len(),
{
    if s.len() > 0 {
        let front = prefixes_via(s.drop_last(), neighbour);
        let all = prefixes_via(s, neighbour);
        assert forall|i: int| 0 <= i < front.len() implies front[i] != q by {
            assert(all[i] == front[i]);
        }
        lemma_best_not_via(s.drop_last(), neighbour, q);
        if s.last().0.neighbour == neighbour {
            assert(s.last().0.prefix != q) by {
                assert(all.last() == s.last().0.prefix);
                assert(all[all.len() - 1] == all.last());
            }
        } else {
            let t = not_via(s, neighbour);
            assert(t.drop_last() =~= not_via(s.drop_last(), neighbour));
        }
    }
}

/// What is left without a neighbour's routes was there before, in the same order.
proof fn lemma_not_via_sorted(s: Seq<(RouteKey, RouteEntry)>, neighbour: IpAddr)
    requires
        sorted_map::sorted::<RouteKey, RouteEntry>(s),
    ensures
        sorted_map::sorted::<RouteKey, RouteEntry>(not_via(s, neighbour)),
        forall|i: int|
            0 <= i < not_via(s, neighbour).len() ==> s.contains(#[trigger] not_via(s, neighbour)[i]),
    decreases s.len(),
{
    if s.len() > 0 {
        let f = s.drop_last();
        assert(sorted_map::sorted::<RouteKey, RouteEntry>(f)) by {
            assert forall|i: int, j: int| 0 <= i < j < f.len() implies crate::order::before(
                RouteKey::rank((#[trigger] f[i]).0),
                RouteKey::rank((#[trigger] f[j]).0),
            ) by {
                assert(f[i] == s[i] && f[j] == s[j]);
            }
        }
        lemma_not_via_sorted(f, neighbour);
        let g = not_via(f, neighbour);
        let t = not_via(s, neighbour);
        assert forall|i: int| 0 <= i < t.len() implies s.contains(#[trigger] t[i]) by {
            if i < g.len() {
                assert(t[i] == g[i]);
                assert(f.contains(g[i]));
                let j = choose|j: int| 0 <= j < f.len() && f[j] == g[i];
                assert(s[j] == t[i]);
            } else {
                assert(s[s.len() - 1] == t[i]);
            }
        }
        assert forall|i: int, j: int| 0 <= i < j < t.len() implies crate::order::before(
            RouteKey::rank((#[trigger] t[i]).0),
            RouteKey::rank((#[trigger] t[j]).0),
        ) by {
            assert(t[i] == g[i]);
            if j < g.len() {
                assert(t[j] == g[j]);
            } else {
                assert(f.contains(g[i]));
                let k = choose|k: int| 0 <= k < f.len() && f[k] == g[i];
                assert(s[k] == t[i] && s[s.len() - 1] == t[j]);
            }
        }
    }
}

/// Running selection for several prefixes settles all of them.
proof fn lemma_all_reselect_settles(v: RouteTableView, ps: Seq<Prefix>)
    requires
        v.in_order(),
    ensures
        v.all_reselected(ps).in_order(),
        v.all_reselected(ps).routes == v.routes,
        forall|q: Prefix|
            v.settled_at(q) || ps.contains(q) ==> #[trigger] v.all_reselected(ps).settled_at(q),
    decreases ps.len(),
{
    if ps.len() > 0 {
        let f = ps.drop_last();
        lemma_all_reselect_settles(v, f);
        let u = v.all_reselected(f);
        lemma_reselect_settles(u, ps.last());
        assert forall|q: Prefix| v.settled_at(q) || ps.contains(q) implies #[trigger] v.all_reselected(
            ps,
        ).settled_at(q) by {
            if ps.contains(q) && q != ps.last() {
                let i = choose|i: int| 0 <= i < ps.len() && ps[i] == q;
                assert(f[i] == q);
                assert(f.contains(q));
            }
            if q != ps.last() {
                assert(u.settled_at(q));
            }
        }
    }
}

/// After a neighbour's routes are dropped and selection is run for the prefixes that had
/// one, every prefix is settled.
pub proof fn lemma_loss_settles(v: RouteTableView, neighbour: IpAddr)
    requires
        v.in_order(),
        v.settled(),
    ensures
        ({
            let t = v.without_neighbour(neighbour).all_reselected(
                prefixes_via(v.routes, neighbour),
            );
            t.in_order() && t.settled()
        }),
{
    let ps = prefixes_via(v.routes, neighbour);
    let u = v.without_neighbour(neighbour);
    lemma_not_via_sorted(v.routes, neighbour);
    lemma_all_reselect_settles(u, ps);
    let t = u.all_reselected(ps);
    assert forall|q: Prefix| #[trigger] t.settled_at(q) by {
        if !ps.contains(q) {
            lemma_best_not_via(v.routes, neighbour, q);
            assert(v.settled_at(q));
            assert(u.settled_at(q));
        }
    }
}

/// The selected route is eligible, and no eligible route has a smaller metric: an
/// infeasible or unreachable route is never selected.
pub proof fn lemma_best_is_least(s: Seq<(RouteKey, RouteEntry)>, p: Prefix, i: int)
    requires
        0 <= i < s.len(),
        eligible(s[i], p),
    ensures
        best_route(s, p) matches Some(b) && eligible(b, p) && b.1.total() <= s[i].1.total(),
    decreases s.len(),
{
    let f = s.drop_last();
    if i < f.len() {
        assert(f[i] == s[i]);
        lemma_best_is_least(f, p, i);
    } else {
        lemma_best_is_eligible(f, p);
    }
}

/// Whatever is selected is an eligible route that is offered.
pub proof fn lemma_best_is_eligible(s: Seq<(RouteKey, RouteEntry)>, p: Prefix)
    ensures
        best_route(s, p) matches Some(b) ==> eligible(b, p) && s.contains(b),
    decreases s.len(),
{
    if s.len() > 0 {
        let f = s.drop_last();
        lemma_best_is_eligible(f, p);
        if let Some(b) = best_route(f, p) {
            let i = choose|i: int| 0 <= i < f.len() && f[i] == b;
            assert(s[i] == b);
        }
        assert(s[s.len() - 1] == s.last());
    }
}

/// One of two different sequence numbers is newer than the other, unless they are
/// opposite on the circle; never both.
pub proof fn lemma_newer_is_asymmetric(a: u16, b: u16)
    ensures
        !(newer(a, b) && newer(b, a)),
        !newer(a, a),
        a != b && (a - b) % 65536 != 32768 ==> newer(a, b) || newer(b, a),
{
}

/// A retraction, and a route to an unknown source, is always feasible.
pub proof fn lemma_always_feasible(s: Seq<(SourceKey, Fd)>, k: SourceKey, seqno: u16, metric: u16)
    requires
        metric == 65535 || distance(s, k) is None,
    ensures
        feasible(s, k, seqno, metric),
{
}

/// Once a route is committed to, no route with the same sequence number and a metric
/// that is not smaller is feasible.
pub proof fn lemma_committed_blocks(
    s: Seq<(SourceKey, Fd)>,
    k: SourceKey,
    seqno: u16,
    metric: u16,
    other: u16,
)
    requires
        sorted_map::sorted::<SourceKey, Fd>(s),
        metric != 65535,
        feasible(s, k, seqno, metric),
        metric <= other < 65535,
    ensures
        !feasible(committed(s, k, seqno, metric), k, seqno, other),
{
    sorted_map::lemma_put::<SourceKey, Fd>(s, k, Fd { seqno, metric });
}

/// A feasibility distance is never given up and never gets worse: after a route is
/// committed to, it is what it was or strictly better.
pub proof fn lemma_distance_only_improves(
    s: Seq<(SourceKey, Fd)>,
    k: SourceKey,
    seqno: u16,
    metric: u16,
    other: SourceKey,
)
    requires
        sorted_map::sorted::<SourceKey, Fd>(s),
        distance(s, other) is Some,
    ensures
        distance(committed(s, k, seqno, metric), other) matches Some(fd) && (fd == distance(
            s,
            other,
        )->0 || betters(fd.seqno, fd.metric, distance(s, other)->0)),
{
    sorted_map::lemma_put::<SourceKey, Fd>(s, k, Fd { seqno, metric });
    lemma_table_ranks(
        k,
        other,
        RouteKey { prefix: k.prefix, router_id: k.router_id, neighbour: k.prefix.addr },
        RouteKey { prefix: k.prefix, router_id: k.router_id, neighbour: k.prefix.addr },
    );
}

/// In a settled table, running selection again over the routes that are offered changes
/// neither the offers nor the selection, and is not reported.
pub proof fn lemma_settled_is_silent(v: RouteTableView, p: Prefix)
    requires
        v.in_order(),
        v.settled(),
    ensures
        v.reselect_event(p) is None,
        v.reselected(p).routes == v.routes,
        v.reselected(p).selected == v.selected,
{
    assert(v.settled_at(p));
    let r = Prefix::rank(p);
    sorted_map::lemma_slot::<Prefix, Selection>(v.selected, r);
    assert(v.reselected(p).selected =~= v.selected);
}

/// The selected route of a settled table is offered, feasible and reachable.
pub proof fn lemma_selected_is_offered(v: RouteTableView, p: Prefix)
    requires
        v.in_order(),
        v.settled(),
        v.selected_for(p) is Some,
    ensures
        ({
            let s = v.selected_for(p)->0;
            &&& s.key.prefix == p
            &&& v.offered(s.key) matches Some(e) && e.feasible && e.total() < 65535 && e.total()
                == s.metric && e.next_hop == s.next_hop
        }),
{
    assert(v.settled_at(p));
    lemma_best_is_eligible(v.routes, p);
    let b = best_route(v.routes, p)->0;
    let i = choose|i: int| 0 <= i < v.routes.len() && v.routes[i] == b;
    sorted_map::lemma_lookup_at::<RouteKey, RouteEntry>(v.routes, i);
}

/// Hearing the selected route again, with the sequence number, metric, cost and next hop
/// that it is held with, changes neither the offers nor the selection, and is not
/// reported.
pub proof fn lemma_refresh_is_silent(
    v: RouteTableView,
    key: RouteKey,
    next_hop: IpAddr,
    seqno: u16,
    advertised: u16,
    cost: u16,
)
    requires
        v.in_order(),
        v.settled(),
        v.selected_for(key.prefix) matches Some(s) && s.key == key,
        v.offered(key) matches Some(e) && e.seqno == seqno && e.advertised == advertised && e.cost
            == cost && e.next_hop == next_hop,
    ensures
        ({
            let u = v.with_update(key, next_hop, seqno, advertised, cost);
            &&& u.routes == v.routes
            &&& u.reselect_event(key.prefix) is None
            &&& u.reselected(key.prefix).routes == v.routes
            &&& u.reselected(key.prefix).selected == v.selected
        }),
{
    lemma_selected_is_offered(v, key.prefix);
    let e = v.offered(key)->0;
    let heard = RouteEntry { seqno, advertised, cost, next_hop, feasible: true };
    assert(e == heard);
    sorted_map::lemma_put_again::<RouteKey, RouteEntry>(v.routes, key, e);
    let u = v.with_update(key, next_hop, seqno, advertised, cost);
    assert(u.routes == v.routes);
    assert(u == v);
    lemma_settled_is_silent(v, key.prefix);
}

/// An Update whose route is selected changes nothing more and is not reported when it is
/// heard a second time.
pub proof fn lemma_second_hearing_is_silent(
    v: RouteTableView,
    key: RouteKey,
    next_hop: IpAddr,
    seqno: u16,
    advertised: u16,
    cost: u16,
)
    requires
        v.in_order(),
        v.settled(),
        v.with_update(key, next_hop, seqno, advertised, cost).reselected(key.prefix).selected_for(
            key.prefix,
        ) matches Some(s) && s.key == key,
    ensures
        ({
            let t = v.with_update(key, next_hop, seqno, advertised, cost).reselected(key.prefix);
            let u = t.with_update(key, next_hop, seqno, advertised, cost);
            &&& u.routes == t.routes
            &&& u.reselect_event(key.prefix) is None
            &&& u.reselected(key.prefix).routes == t.routes
            &&& u.reselected(key.prefix).selected == t.selected
        }),
{
    let w = v.with_update(key, next_hop, seqno, advertised, cost);
    let t = w.reselected(key.prefix);
    let r = RouteKey::rank(key);
    lemma_update_settles(v, key, next_hop, seqno, advertised, cost);
    lemma_selected_is_offered(t, key.prefix);
    assert(t.routes == w.routes);
    if advertised == 65535 {
        sorted_map::lemma_without::<RouteKey, RouteEntry>(v.routes, r);
    } else {
        let i = sorted_map::slot::<RouteKey, RouteEntry>(v.routes, r);
        sorted_map::lemma_slot::<RouteKey, RouteEntry>(v.routes, r);
        sorted_map::lemma_put::<RouteKey, RouteEntry>(v.routes, key, w.routes[i].1);
    }
    lemma_refresh_is_silent(t, key, next_hop, seqno, advertised, cost);
}

/// A route of finite metric to a source whose feasibility distance is known is feasible
/// exactly where its sequence number lies 1 to 32767 steps ahead of the committed one, or
/// is that one and its metric is smaller. So no route with an older number ever is.
pub proof fn lemma_feasible_exactly(s: Seq<(SourceKey, Fd)>, k: SourceKey, seqno: u16, metric: u16)
    requires
        metric < 65535,
        distance(s, k) is Some,
    ensures
        ({
            let fd = distance(s, k)->0;
            let ahead = (seqno - fd.seqno) % 65536;
            &&& feasible(s, k, seqno, metric) <==> 1 <= ahead <= 32767 || (seqno == fd.seqno
                && metric < fd.metric)
            &&& 1 <= (fd.seqno - seqno) % 65536 <= 32767 ==> !feasible(s, k, seqno, metric)
        }),
{
}

/// Sequence numbers are compared on a circle: whichever number one starts from, the next
/// 32767 are newer and the others are not, and moving both changes nothing.
pub proof fn lemma_newer_is_circular(a: u16, b: u16, by: u16)
    ensures
        newer(a, b) <==> 1 <= (a - b) % 65536 <= 32767,
        newer(a.wrapping_add(by), b.wrapping_add(by)) == newer(a, b),
        newer(a.wrapping_add(1), a),
        !newer(a, a.wrapping_add(1)),
{
}

/// A route costs what is advertised and the link to the neighbour together; infinity is
/// the most there is, and swallows everything.
pub proof fn lemma_metrics_add_up(metric: u16, cost: u16)
    ensures
        metric + cost < 65535 ==> metric_sum(metric, cost) == metric + cost,
        metric + cost >= 65535 ==> metric_sum(metric, cost) == 65535,
        metric_sum(65535, cost) == 65535,
        metric_sum(metric, 65535) == 65535,
{
}

/// Storing an Update puts under its key what was heard, or takes it away where the metric
/// is infinite, and leaves every other offer, the distances and the selection. A route that
/// is not the selected one is marked feasible exactly where the condition holds.
pub proof fn lemma_an_update_is_stored(
    v: RouteTableView,
    key: RouteKey,
    next_hop: IpAddr,
    seqno: u16,
    advertised: u16,
    cost: u16,
    other: RouteKey,
)
    requires
        v.in_order(),
    ensures
        ({
            let u = v.with_update(key, next_hop, seqno, advertised, cost);
            let selected = v.selected_for(key.prefix) matches Some(s) && s.key == key;
            &&& advertised == 65535 ==> u.offered(key) is None
            &&& advertised < 65535 ==> (u.offered(key) matches Some(e) && e.seqno == seqno
                && e.advertised == advertised && e.cost == cost && e.next_hop == next_hop
                && e.feasible == (selected || feasible(
                v.sources,
                SourceKey { prefix: key.prefix, router_id: key.router_id },
                seqno,
                advertised,
            )))
            &&& other != key ==> u.offered(other) == v.offered(other)
            &&& u.sources == v.sources
            &&& u.selected == v.selected
        }),
{
    let r = RouteKey::rank(key);
    lemma_table_ranks(key.source(), key.source(), key, other);
    if advertised == 65535 {
        sorted_map::lemma_without::<RouteKey, RouteEntry>(v.routes, r);
    } else {
        let u = v.with_update(key, next_hop, seqno, advertised, cost);
        let is_selected = v.selected_for(key.prefix) matches Some(s) && s.key == key;
        let e = RouteEntry {
            seqno,
            advertised,
            cost,
            next_hop,
            feasible: is_selected || feasible(v.sources, key.source(), seqno, advertised),
        };
        sorted_map::lemma_put::<RouteKey, RouteEntry>(v.routes, key, e);
    }
}

/// What is selected is a route to the prefix that is offered, marked feasible and
/// reachable, of the least sum of metric and cost, and the first of those in the order of
/// the table. Nothing is selected exactly where there is no such route.
pub proof fn lemma_what_is_selected(s: Seq<(RouteKey, RouteEntry)>, p: Prefix, i: int)
    requires
        0 <= i < s.len(),
    ensures
        best_route(s, p) matches Some(b) ==> b.0.prefix == p && b.1.feasible && b.1.advertised
            + b.1.cost < 65535 && s.contains(b),
        s[i].0.prefix == p && s[i].1.feasible && s[i].1.advertised + s[i].1.cost < 65535 ==> (
        best_route(s, p) matches Some(b) && b.1.advertised + b.1.cost <= s[i].1.advertised
            + s[i].1.cost),
{
    lemma_best_is_eligible(s, p);
    if s[i].0.prefix == p && s[i].1.feasible && s[i].1.advertised + s[i].1.cost < 65535 {
        lemma_best_is_least(s, p, i);
    }
}

/// Of routes with the same metric the first in the order of the table is selected.
pub proof fn lemma_first_of_equals(s: Seq<(RouteKey, RouteEntry)>, p: Prefix, i: int, j: int)
    requires
        0 <= i < j < s.len(),
        s[i].0.prefix == p,
        s[i].1.feasible,
        s[i].1.advertised + s[i].1.cost <= s[j].1.advertised + s[j].1.cost,
        s[i].1.advertised + s[i].1.cost < 65535,
    ensures
        best_route(s, p) == best_route(s.remove(j), p),
    decreases s.len(),
{
    let f = s.drop_last();
    if j == s.len() - 1 {
        lemma_best_is_least(f, p, i);
        assert(s.remove(j) =~= f);
    } else {
        lemma_first_of_equals(f, p, i, j);
        assert(s.remove(j).drop_last() =~= f.remove(j));
        assert(s.remove(j).last() == s.last());
    }
}

/// A feasibility distance never goes back, whatever is selected: it stays, or its sequence
/// number lies 1 to 32767 steps ahead, or it keeps the number and has a smaller metric.
pub proof fn lemma_distances_never_go_back(v: RouteTableView, p: Prefix, k: SourceKey)
    requires
        v.in_order(),
        distance(v.sources, k) is Some,
    ensures
        ({
            let was = distance(v.sources, k)->0;
            distance(v.reselected(p).sources, k) matches Some(now) && (now == was || 1 <= (now.seqno
                - was.seqno) % 65536 <= 32767 || (now.seqno == was.seqno && now.metric
                < was.metric))
        }),
{
    match best_route(v.routes, p) {
        Some((key, e)) => {
            let w = SourceKey { prefix: p, router_id: key.router_id };
            lemma_distance_only_improves(v.sources, w, e.seqno, e.advertised, k);
        },
        None => {},
    }
}

/// The selected route commits its source: afterwards the distance is known, and neither the
/// route itself nor one with its number and no smaller metric is feasible again.
pub proof fn lemma_selection_commits(v: RouteTableView, p: Prefix, metric: u16)
    requires
        v.in_order(),
        best_route(v.routes, p) is Some,
        (best_route(v.routes, p)->0).1.advertised <= metric < 65535,
    ensures
        ({
            let (key, e) = best_route(v.routes, p)->0;
            let k = SourceKey { prefix: p, router_id: key.router_id };
            &&& distance(v.reselected(p).sources, k) is Some
            &&& !feasible(v.reselected(p).sources, k, e.seqno, metric)
        }),
{
    let (key, e) = best_route(v.routes, p)->0;
    let k = SourceKey { prefix: p, router_id: key.router_id };
    sorted_map::lemma_put::<SourceKey, Fd>(
        v.sources,
        k,
        Fd { seqno: e.seqno, metric: e.advertised },
    );
}

/// A route that was not selected before an Update and is after it had a sequence number
/// newer than the committed one, or that one and a smaller metric, or an unknown source:
/// a stale route is never newly selected by hearing it.
pub proof fn lemma_only_feasible_routes_take_over(
    v: RouteTableView,
    key: RouteKey,
    next_hop: IpAddr,
    seqno: u16,
    advertised: u16,
    cost: u16,
)
    requires
        v.in_order(),
        v.settled(),
        !(v.selected_for(key.prefix) matches Some(s) && s.key == key),
        v.with_update(key, next_hop, seqno, advertised, cost).reselected(key.prefix).selected_for(
            key.prefix,
        ) matches Some(s) && s.key == key,
    ensures
        advertised + cost < 65535,
        distance(
            v.sources,
            SourceKey { prefix: key.prefix, router_id: key.router_id },
        ) matches Some(fd) ==> 1 <= (seqno - fd.seqno) % 65536 <= 32767 || (seqno == fd.seqno
            && advertised < fd.metric),
{
    let u = v.with_update(key, next_hop, seqno, advertised, cost);
    let t = u.reselected(key.prefix);
    lemma_update_settles(v, key, next_hop, seqno, advertised, cost);
    lemma_selected_is_offered(t, key.prefix);
    lemma_an_update_is_stored(v, key, next_hop, seqno, advertised, cost, key);
    assert(t.routes == u.routes);
    assert(t.offered(key) == u.offered(key));
    if advertised < 65535 && distance(v.sources, key.source()) is Some {
        lemma_feasible_exactly(v.sources, key.source(), seqno, advertised);
    }
}

/// An event tells exactly what became of the selection: nothing where it is what it was,
/// the next hop and metric of the route that is selected now, or that none is left.
pub proof fn lemma_events_are_true(v: RouteTableView, p: Prefix, q: Prefix)
    requires
        v.in_order(),
    ensures
        ({
            let t = v.reselected(p);
            &&& v.reselect_event(p) is None <==> t.selected_for(p) == v.selected_for(p)
            &&& v.reselect_event(p) matches Some(BabelEvent::Select { prefix, next_hop, metric })
                ==> prefix == p && (t.selected_for(p) matches Some(s) && s.next_hop == next_hop
                && s.metric == metric)
            &&& v.reselect_event(p) matches Some(BabelEvent::Retract(prefix)) ==> prefix == p
                && t.selected_for(p) is None && v.selected_for(p) is Some
            &&& q != p ==> t.selected_for(q) == v.selected_for(q)
        }),
{
    lemma_reselect_settles(v, p);
    net::lemma_net_ranks(p, q, p.addr, q.addr);
    match best_route(v.routes, p) {
        Some((key, e)) => {
            let s = Selection { key, next_hop: e.next_hop, metric: e.total() };
            sorted_map::lemma_put::<Prefix, Selection>(v.selected, p, s);
        },
        None => {
            sorted_map::lemma_without::<Prefix, Selection>(v.selected, Prefix::rank(p));
        },
    }
}

/// A neighbour that is lost takes all its routes with it, and no others: what the others
/// offer stays, and no selected route goes through it any more.
pub proof fn lemma_a_lost_neighbour_offers_nothing(
    v: RouteTableView,
    neighbour: IpAddr,
    e: (RouteKey, RouteEntry),
    p: Prefix,
)
    requires
        v.in_order(),
        v.settled(),
    ensures
        ({
            let t = v.without_neighbour(neighbour).all_reselected(
                prefixes_via(v.routes, neighbour),
            );
            &&& t.routes.contains(e) <==> v.routes.contains(e) && e.0.neighbour != neighbour
            &&& t.selected_for(p) matches Some(s) ==> s.key.neighbour != neighbour
        }),
{
    let ps = prefixes_via(v.routes, neighbour);
    let u = v.without_neighbour(neighbour);
    lemma_not_via_sorted(v.routes, neighbour);
    lemma_all_reselect_settles(u, ps);
    lemma_loss_settles(v, neighbour);
    let t = u.all_reselected(ps);
    lemma_not_via_exactly(v.routes, neighbour, e);
    assert(t.settled_at(p));
    if let Some(s) = t.selected_for(p) {
        lemma_best_is_eligible(t.routes, p);
        lemma_not_via_exactly(v.routes, neighbour, best_route(t.routes, p)->0);
    }
}

proof fn lemma_not_via_exactly(
    s: Seq<(RouteKey, RouteEntry)>,
    neighbour: IpAddr,
    e: (RouteKey, RouteEntry),
)
    ensures
        not_via(s, neighbour).contains(e) <==> s.contains(e) && e.0.neighbour != neighbour,
    decreases s.len(),
{
    if s.len() > 0 {
        let f = s.drop_last();
        lemma_not_via_exactly(f, neighbour, e);
        let t = not_via(s, neighbour);
        let g = not_via(f, neighbour);
        if s.contains(e) && e.0.neighbour != neighbour {
            let i = choose|i: int| 0 <= i < s.len() && s[i] == e;
            if i < f.len() {
                assert(f[i] == e);
                assert(g.contains(e));
                let j = choose|j: int| 0 <= j < g.len() && g[j] == e;
                assert(t[j] == e);
            } else {
                assert(t[t.len() - 1] == e);
            }
        }
        if t.contains(e) {
            let j = choose|j: int| 0 <= j < t.len() && t[j] == e;
            if j < g.len() {
                assert(g[j] == e);
                assert(f.contains(e));
                let i = choose|i: int| 0 <= i < f.len() && f[i] == e;
                assert(s[i] == e);
            } else {
                assert(s[s.len() - 1] == e);
            }
        }
    }
}

/// The prefixes that a lost neighbour concerns are those that it had a route to.
pub proof fn lemma_whom_a_loss_concerns(s: Seq<(RouteKey, RouteEntry)>, neighbour: IpAddr, p: Prefix)
    ensures
        prefixes_via(s, neighbour).contains(p) <==> exists|i: int|
            0 <= i < s.len() && (#[trigger] s[i]).0.prefix == p && s[i].0.neighbour == neighbour,
    decreases s.len(),
{
    if s.len() > 0 {
        let f = s.drop_last();
        lemma_whom_a_loss_concerns(f, neighbour, p);
        let all = prefixes_via(s, neighbour);
        let front = prefixes_via(f, neighbour);
        if all.contains(p) {
            let j = choose|j: int| 0 <= j < all.len() && all[j] == p;
            if j < front.len() {
                assert(front[j] == p);
                assert(front.contains(p));
                let i = choose|i: int|
                    0 <= i < f.len() && (#[trigger] f[i]).0.prefix == p && f[i].0.neighbour
                        == neighbour;
                assert(s[i] == f[i]);
            } else {
                assert(s[s.len() - 1].0.prefix == p);
            }
        }
        if exists|i: int|
            0 <= i < s.len() && (#[trigger] s[i]).0.prefix == p && s[i].0.neighbour == neighbour {
            let i = choose|i: int|
                0 <= i < s.len() && (#[trigger] s[i]).0.prefix == p && s[i].0.neighbour
                    == neighbour;
            if i < f.len() {
                assert(f[i] == s[i]);
                assert(front.contains(p));
                let j = choose|j: int| 0 <= j < front.len() && front[j] == p;
                assert(all[j] == p);
            } else {
                assert(all.len() > 0 && all[all.len() - 1] == p);
            }
        }
    }
}

/// The routes to a prefix stand in the order of their router ids, and those of one router in
/// that of the neighbours they go through: the first of those with the least metric is the
/// one that is selected.
pub proof fn lemma_routes_stand_in_order(a: RouteKey, b: RouteKey, k: int)
    requires
        a.prefix == b.prefix,
    ensures
        0 <= k < 8 && a.router_id@[k] < b.router_id@[k] && (forall|i: int|
            0 <= i < k ==> a.router_id@[i] == b.router_id@[i]) ==> crate::order::before(
            RouteKey::rank(a),
            RouteKey::rank(b),
        ),
        a.router_id == b.router_id && a.neighbour is V4 && b.neighbour is V6 ==> crate::order::before(
            RouteKey::rank(a),
            RouteKey::rank(b),
        ),
        a.router_id == b.router_id && (a.neighbour is V4) == (b.neighbour is V4) && 0 <= k
            < a.neighbour.bytes().len() && a.neighbour.bytes()[k] < b.neighbour.bytes()[k] && (forall|
            i: int,
        |
            0 <= i < k ==> a.neighbour.bytes()[i] == b.neighbour.bytes()[i])
            ==> crate::order::before(RouteKey::rank(a), RouteKey::rank(b)),
{
    let p = Prefix::rank(a.prefix);
    let (u, v) = (net::numbers(a.router_id@), net::numbers(b.router_id@));
    let (m, n) = (IpAddr::rank(a.neighbour), IpAddr::rank(b.neighbour));
    assert(RouteKey::rank(a) =~= p + (u + m));
    assert(RouteKey::rank(b) =~= p + (v + n));
    crate::order::lemma_before_common_front(p, u + m, v + n);
    if 0 <= k < 8 && a.router_id@[k] < b.router_id@[k] && (forall|i: int|
        0 <= i < k ==> a.router_id@[i] == b.router_id@[i]) {
        assert forall|i: int| 0 <= i < k implies (u + m)[i] == (v + n)[i] by {
            assert(a.router_id@[i] == b.router_id@[i]);
        }
        crate::order::lemma_first_difference_decides(u + m, v + n, k);
    }
    if a.router_id == b.router_id {
        crate::order::lemma_before_common_front(u, m, n);
        if (a.neighbour is V4 && b.neighbour is V6) || ((a.neighbour is V4) == (b.neighbour is V4)
            && 0 <= k < a.neighbour.bytes().len() && a.neighbour.bytes()[k] < b.neighbour.bytes()[k]
            && (forall|i: int|
            0 <= i < k ==> a.neighbour.bytes()[i] == b.neighbour.bytes()[i])) {
            net::lemma_address_order(a.neighbour, b.neighbour, k);
        }
    }
}

} // verus!
