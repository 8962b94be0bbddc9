//! The decision process (RFC 4271 §9.1.2.2): which of several paths to a destination is
//! the best.

use vstd::prelude::*;

use crate::bgp::attr::as_path::SegmentView;
use crate::bgp::attr::{AsPathSegment, Origin};
use crate::bgp::srv6::Srv6ServiceSid;
use crate::net::{IpAddr, Ipv4Addr, Prefix};
use crate::order;
use crate::order::{place, Datum, Place, Ranked};
use crate::route;
use crate::route::{HopView, NextHop, Protocol, Route, RouteView};
use crate::wire;

verus! {

/// The LOCAL_PREF of a path that came without one.
pub const DEFAULT_LOCAL_PREF: u32 = 100;

/// A path to one destination.
#[derive(Clone, PartialEq, Eq, Debug)]
pub struct Path {
    pub origin: Origin,
    pub as_path: Vec<AsPathSegment>,
    pub next_hop: IpAddr,
    /// The interface on which the next hop is, where that must be said (RFC 2545 §3).
    pub next_hop_iface: Option<String>,
    /// Higher is better.
    pub local_pref: u32,
    /// Lower is better, among paths from one AS.
    pub med: u32,
    /// Whether the path came from another AS. A member AS of the same confederation does
    /// not count as one (RFC 5065 §5.3).
    pub from_ebgp: bool,
    /// Whether the path came from another member AS of the same confederation.
    pub from_confed: bool,
    /// The AS that the path came from.
    pub peer_as: u32,
    /// What it costs to reach the next hop; lower is better.
    pub igp_metric: u32,
    /// The identifier of the peer.
    pub peer_id: Ipv4Addr,
    /// The address of the peer.
    pub peer_addr: IpAddr,
    /// Whether the path came from a client of this route reflector (RFC 4456).
    pub from_client: bool,
    /// Who brought a reflected path into the AS.
    pub originator_id: Option<Ipv4Addr>,
    /// The clusters through which a reflected path came; fewer is better (RFC 4456 §9).
    pub cluster_list: Vec<Ipv4Addr>,
    pub communities: Vec<u32>,
    pub large_communities: Vec<(u32, u32, u32)>,
    pub ext_communities: Vec<[u8; 8]>,
    /// The SRv6 service of the path, where it has one (RFC 9252).
    pub srv6_sid: Option<Srv6ServiceSid>,
}

/// A path as a mathematical value.
#[verifier::ext_equal]
pub struct PathView {
    pub origin: Origin,
    pub as_path: Seq<SegmentView>,
    pub next_hop: IpAddr,
    pub next_hop_iface: Option<Seq<char>>,
    pub local_pref: u32,
    pub med: u32,
    pub from_ebgp: bool,
    pub from_confed: bool,
    pub peer_as: u32,
    pub igp_metric: u32,
    pub peer_id: Ipv4Addr,
    pub peer_addr: IpAddr,
    pub from_client: bool,
    pub originator_id: Option<Ipv4Addr>,
    pub cluster_list: Seq<Ipv4Addr>,
    pub communities: Seq<u32>,
    pub large_communities: Seq<(u32, u32, u32)>,
    pub ext_communities: Seq<Seq<u8>>,
    pub srv6_sid: Option<Srv6ServiceSid>,
}

impl View for Path {
    type V = PathView;

    open spec fn view(&self) -> PathView {
        PathView {
            origin: self.origin,
            as_path: wire::views(self.as_path@),
            next_hop: self.next_hop,
            next_hop_iface: route::name_view(self.next_hop_iface),
            local_pref: self.local_pref,
            med: self.med,
            from_ebgp: self.from_ebgp,
            from_confed: self.from_confed,
            peer_as: self.peer_as,
            igp_metric: self.igp_metric,
            peer_id: self.peer_id,
            peer_addr: self.peer_addr,
            from_client: self.from_client,
            originator_id: self.originator_id,
            cluster_list: wire::views(self.cluster_list@),
            communities: wire::views(self.communities@),
            large_communities: wire::views(self.large_communities@),
            ext_communities: wire::views(self.ext_communities@),
            srv6_sid: self.srv6_sid,
        }
    }
}

fn same_id(a: &Option<Ipv4Addr>, b: &Option<Ipv4Addr>) -> (r: bool)
    ensures
        r == (*a == *b),
{
    match (a, b) {
        (Some(x), Some(y)) => x.same(y),
        (None, None) => true,
        _ => false,
    }
}

fn same_sid(a: &Option<Srv6ServiceSid>, b: &Option<Srv6ServiceSid>) -> (r: bool)
    ensures
        r == (*a == *b),
{
    match (a, b) {
        (Some(x), Some(y)) => x.same(y),
        (None, None) => true,
        _ => false,
    }
}

impl Datum for Path {
    fn dup(&self) -> (r: Path) {
        Path {
            origin: self.origin,
            as_path: order::dup_all(self.as_path.as_slice()),
            next_hop: self.next_hop,
            next_hop_iface: route::dup_name(&self.next_hop_iface),
            local_pref: self.local_pref,
            med: self.med,
            from_ebgp: self.from_ebgp,
            from_confed: self.from_confed,
            peer_as: self.peer_as,
            igp_metric: self.igp_metric,
            peer_id: self.peer_id,
            peer_addr: self.peer_addr,
            from_client: self.from_client,
            originator_id: self.originator_id,
            cluster_list: order::dup_all(self.cluster_list.as_slice()),
            communities: order::dup_all(self.communities.as_slice()),
            large_communities: order::dup_all(self.large_communities.as_slice()),
            ext_communities: order::dup_all(self.ext_communities.as_slice()),
            srv6_sid: self.srv6_sid,
        }
    }

    fn same(&self, other: &Path) -> (r: bool) {
        self.origin == other.origin && order::same_all(
            self.as_path.as_slice(),
            other.as_path.as_slice(),
        ) && self.next_hop.same(&other.next_hop) && route::same_name(
            &self.next_hop_iface,
            &other.next_hop_iface,
        ) && self.local_pref == other.local_pref && self.med == other.med && self.from_ebgp
            == other.from_ebgp && self.from_confed == other.from_confed && self.peer_as
            == other.peer_as && self.igp_metric == other.igp_metric && self.peer_id.same(
            &other.peer_id,
        ) && self.peer_addr.same(&other.peer_addr) && self.from_client == other.from_client
            && same_id(&self.originator_id, &other.originator_id) && order::same_all(
            self.cluster_list.as_slice(),
            other.cluster_list.as_slice(),
        ) && order::same_all(self.communities.as_slice(), other.communities.as_slice())
            && order::same_all(
            self.large_communities.as_slice(),
            other.large_communities.as_slice(),
        ) && order::same_all(self.ext_communities.as_slice(), other.ext_communities.as_slice())
            && same_sid(&self.srv6_sid, &other.srv6_sid)
    }
}

/// What a segment adds to the length of an AS path: a sequence its AS numbers, a set one,
/// and the segments of a confederation nothing (RFC 5065 §5.3).
pub open spec fn segment_len(s: SegmentView) -> nat {
    match s {
        SegmentView::Sequence(a) => a.len(),
        SegmentView::AsSet(_) => 1,
        _ => 0,
    }
}

/// The length of an AS path.
pub open spec fn path_len(p: Seq<SegmentView>) -> nat
    decreases p.len(),
{
    if p.len() == 0 {
        0
    } else {
        path_len(p.drop_last()) + segment_len(p.last())
    }
}

/// The next hop of a path: on its interface where the path names one.
pub open spec fn hop_of(p: PathView) -> HopView {
    HopView { addr: p.next_hop, dev: p.next_hop_iface }
}

/// The peer's identifier as a number.
pub open spec fn id_number(p: PathView) -> u32 {
    wire::u32_at(p.peer_id.octets@, 0)
}

/// Whether MED tells two paths apart: it counts only among paths from one AS.
pub open spec fn med_counts(a: PathView, b: PathView) -> bool {
    a.peer_as == b.peer_as && a.med != b.med
}

/// Whether `a` is better than `b`. The first of these that tells the two apart decides:
/// the higher LOCAL_PREF, the shorter AS path, the lower origin, the lower MED where it
/// counts, another AS before the own one, the lower cost to the next hop, the fewer
/// clusters, the lower identifier of the peer, and the lower address of the peer.
pub open spec fn better(a: PathView, b: PathView) -> bool {
    if a.local_pref != b.local_pref {
        a.local_pref > b.local_pref
    } else if path_len(a.as_path) != path_len(b.as_path) {
        path_len(a.as_path) < path_len(b.as_path)
    } else if a.origin != b.origin {
        a.origin.code() < b.origin.code()
    } else if med_counts(a, b) {
        a.med < b.med
    } else if a.from_ebgp != b.from_ebgp {
        a.from_ebgp
    } else if a.igp_metric != b.igp_metric {
        a.igp_metric < b.igp_metric
    } else if a.cluster_list.len() != b.cluster_list.len() {
        a.cluster_list.len() < b.cluster_list.len()
    } else if id_number(a) != id_number(b) {
        id_number(a) < id_number(b)
    } else {
        order::before(IpAddr::rank(a.peer_addr), IpAddr::rank(b.peer_addr))
    }
}

/// Whether two paths are equally good for forwarding: nothing in front of the clusters
/// tells them apart.
pub open spec fn tied(a: PathView, b: PathView) -> bool {
    a.local_pref == b.local_pref && path_len(a.as_path) == path_len(b.as_path) && a.origin
        == b.origin && !med_counts(a, b) && a.from_ebgp == b.from_ebgp && a.igp_metric
        == b.igp_metric
}

/// Where the best of some paths stands: each path in turn takes over where it is better
/// than the best so far.
pub open spec fn champion(ps: Seq<PathView>) -> int
    decreases ps.len(),
{
    if ps.len() <= 1 {
        0
    } else {
        let c = champion(ps.drop_last());
        if better(ps.last(), ps[c]) {
            ps.len() - 1
        } else {
            c
        }
    }
}

/// The best of some paths stands among them.
pub proof fn lemma_champion_in(ps: Seq<PathView>)
    requires
        ps.len() > 0,
    ensures
        0 <= champion(ps) < ps.len(),
    decreases ps.len(),
{
    if ps.len() > 1 {
        lemma_champion_in(ps.drop_last());
    }
}

impl Path {
    fn long_len(&self) -> (r: u128)
        ensures
            r == path_len(self@.as_path),
    {
        let ghost all = self@.as_path;
        let mut sum: u128 = 0;
        let mut i: usize = 0;
        assert(all.take(0).len() == 0);
        while i < self.as_path.len()
            invariant
                i <= self.as_path.len(),
                all == wire::views(self.as_path@),
                sum == path_len(all.take(i as int)),
                sum <= i * 18446744073709551615,
            decreases self.as_path.len() - i,
        {
            let n: usize = match &self.as_path[i] {
                AsPathSegment::Sequence(a) => a.len(),
                AsPathSegment::AsSet(_) => 1,
                _ => 0,
            };
            assert(n == segment_len(all[i as int]));
            assert(all.take(i + 1).drop_last() =~= all.take(i as int));
            assert(all.take(i + 1).last() == all[i as int]);
            sum = sum + n as u128;
            i = i + 1;
        }
        assert(all.take(i as int) =~= all);
        sum
    }

    /// The length of the AS path.
    pub fn as_path_len(&self) -> (r: usize)
        requires
            path_len(self@.as_path) <= usize::MAX,
        ensures
            r == path_len(self@.as_path),
    {
        self.long_len() as usize
    }

    /// The next hop of the path.
    pub fn next_hop_entry(&self) -> (r: NextHop)
        ensures
            r@ == hop_of(self@),
    {
        match &self.next_hop_iface {
            Some(dev) => NextHop::via_dev(self.next_hop, dev.clone()),
            None => NextHop::via(self.next_hop),
        }
    }

    /// The path as a route to `prefix`; the metric is the length of the AS path.
    pub fn to_route(&self, prefix: Prefix) -> (r: Route)
        ensures
            r@ == (RouteView {
                prefix,
                protocol: Protocol::Bgp,
                nexthops: seq![hop_of(self@)],
                metric: (path_len(self@.as_path) % 4294967296) as u32,
            }),
    {
        let mut hops: Vec<NextHop> = Vec::new();
        hops.push(self.next_hop_entry());
        assert(wire::views(hops@) =~= seq![hop_of(self@)]);
        let metric = (self.long_len() % 4294967296) as u32;
        Route::new(prefix, Protocol::Bgp, hops, metric)
    }
}

/// Whether `a` is better than `b`.
pub fn is_better(a: &Path, b: &Path) -> (r: bool)
    ensures
        r == better(a@, b@),
{
    if a.local_pref != b.local_pref {
        return a.local_pref > b.local_pref;
    }
    let (la, lb) = (a.long_len(), b.long_len());
    if la != lb {
        return la < lb;
    }
    if a.origin != b.origin {
        return a.origin.as_u8() < b.origin.as_u8();
    }
    if a.peer_as == b.peer_as && a.med != b.med {
        return a.med < b.med;
    }
    if a.from_ebgp != b.from_ebgp {
        return a.from_ebgp;
    }
    if a.igp_metric != b.igp_metric {
        return a.igp_metric < b.igp_metric;
    }
    if a.cluster_list.len() != b.cluster_list.len() {
        return a.cluster_list.len() < b.cluster_list.len();
    }
    let (ia, ib) = (
        wire::read_u32(a.peer_id.octets.as_slice(), 0),
        wire::read_u32(b.peer_id.octets.as_slice(), 0),
    );
    if ia != ib {
        return ia < ib;
    }
    let (ra, rb) = (a.peer_addr.rank_of(), b.peer_addr.rank_of());
    match place(&ra, &rb) {
        Place::Before => true,
        Place::Equal => {
            proof {
                order::lemma_before_irreflexive(ra@);
            }
            false
        },
        Place::After => {
            proof {
                if order::before(ra@, rb@) {
                    order::lemma_before_transitive(ra@, rb@, ra@);
                    order::lemma_before_irreflexive(ra@);
                }
            }
            false
        },
    }
}

/// Whether two paths are equally good for forwarding.
pub fn multipath_eligible(a: &Path, b: &Path) -> (r: bool)
    ensures
        r == tied(a@, b@),
{
    a.local_pref == b.local_pref && a.long_len() == b.long_len() && a.origin == b.origin && !(
    a.peer_as == b.peer_as && a.med != b.med) && a.from_ebgp == b.from_ebgp && a.igp_metric
        == b.igp_metric
}

/// Where the best path stands; `None` where there is none.
pub fn best_path(paths: &[Path]) -> (r: Option<usize>)
    ensures
        match r {
            Some(i) => paths@.len() > 0 && i == champion(wire::views(paths@)) && i < paths@.len(),
            None => paths@.len() == 0,
        },
{
    if paths.len() == 0 {
        return None;
    }
    let ghost all = wire::views(paths@);
    let mut best: usize = 0;
    let mut i: usize = 1;
    while i < paths.len()
        invariant
            1 <= i <= paths.len(),
            best < i,
            all == wire::views(paths@),
            best == champion(all.take(i as int)),
        decreases paths.len() - i,
    {
        assert(all.take(i + 1).drop_last() =~= all.take(i as int));
        if is_better(&paths[i], &paths[best]) {
            best = i;
        }
        i = i + 1;
    }
    assert(all.take(i as int) =~= all);
    Some(best)
}

/// No path is better than itself, and of two paths at most one is better than the other.
pub proof fn lemma_better_asymmetric(a: PathView, b: PathView)
    ensures
        !better(a, a),
        better(a, b) ==> !better(b, a),
{
    let (x, y) = (IpAddr::rank(a.peer_addr), IpAddr::rank(b.peer_addr));
    order::lemma_before_irreflexive(x);
    if order::before(x, y) && order::before(y, x) {
        order::lemma_before_transitive(x, y, x);
    }
}

/// Of two paths one is better, unless they tie in everything that counts.
pub proof fn lemma_better_total(a: PathView, b: PathView)
    ensures
        better(a, b) || better(b, a) || (tied(a, b) && a.cluster_list.len()
            == b.cluster_list.len() && id_number(a) == id_number(b) && IpAddr::rank(a.peer_addr)
            == IpAddr::rank(b.peer_addr)),
{
    order::lemma_before_total(IpAddr::rank(a.peer_addr), IpAddr::rank(b.peer_addr));
}

/// Whether MED counts between two paths, or makes no difference.
pub open spec fn med_agrees(a: PathView, b: PathView) -> bool {
    a.peer_as == b.peer_as || a.med == b.med
}

/// Better than better is better, among paths between which MED counts or makes no
/// difference.
pub proof fn lemma_better_transitive(a: PathView, b: PathView, c: PathView)
    requires
        med_agrees(a, b),
        med_agrees(b, c),
        med_agrees(a, c),
        better(a, b),
        better(b, c),
    ensures
        better(a, c),
{
    let (x, y, z) = (
        IpAddr::rank(a.peer_addr),
        IpAddr::rank(b.peer_addr),
        IpAddr::rank(c.peer_addr),
    );
    if order::before(x, y) && order::before(y, z) {
        order::lemma_before_transitive(x, y, z);
    }
}

proof fn lemma_not_better_transitive(a: PathView, b: PathView, c: PathView)
    requires
        med_agrees(a, b),
        med_agrees(b, c),
        med_agrees(a, c),
        !better(a, b),
        !better(b, c),
    ensures
        !better(a, c),
{
    let (x, y, z) = (
        IpAddr::rank(a.peer_addr),
        IpAddr::rank(b.peer_addr),
        IpAddr::rank(c.peer_addr),
    );
    order::lemma_before_total(x, y);
    order::lemma_before_total(y, z);
    order::lemma_before_irreflexive(x);
    if order::before(z, y) && order::before(y, x) {
        order::lemma_before_transitive(z, y, x);
    }
    if order::before(x, z) && order::before(z, x) {
        order::lemma_before_transitive(x, z, x);
    }
}

/// No path is better than the best one, among paths between which MED counts or makes no
/// difference.
pub proof fn lemma_best_is_unbeaten(ps: Seq<PathView>, i: int)
    requires
        0 <= i < ps.len(),
        forall|j: int, k: int|
            0 <= j < ps.len() && 0 <= k < ps.len() ==> med_agrees(
                #[trigger] ps[j],
                #[trigger] ps[k],
            ),
    ensures
        !better(ps[i], ps[champion(ps)]),
    decreases ps.len(),
{
    if ps.len() == 1 {
        lemma_better_asymmetric(ps[0], ps[0]);
    } else {
        let front = ps.drop_last();
        lemma_champion_in(front);
        let c = champion(front);
        let last = ps.last();
        lemma_better_asymmetric(last, last);
        assert forall|j: int, k: int|
            0 <= j < front.len() && 0 <= k < front.len() implies med_agrees(
            #[trigger] front[j],
            #[trigger] front[k],
        ) by {
            assert(med_agrees(ps[j], ps[k]));
        }
        if i < front.len() {
            lemma_best_is_unbeaten(front, i);
            assert(front[i] == ps[i] && front[c] == ps[c]);
            if better(last, ps[c]) {
                lemma_better_asymmetric(last, ps[c]);
                assert(med_agrees(ps[i], ps[c]));
                assert(med_agrees(ps[c], ps[ps.len() - 1]));
                assert(med_agrees(ps[i], ps[ps.len() - 1]));
                lemma_not_better_transitive(ps[i], ps[c], last);
            }
        }
    }
}

/// No path that comes after the best one is better than it.
pub proof fn lemma_best_holds_its_place(ps: Seq<PathView>, i: int)
    requires
        0 < ps.len(),
        champion(ps) < i < ps.len(),
    ensures
        !better(ps[i], ps[champion(ps)]),
    decreases ps.len(),
{
    if ps.len() > 1 {
        let front = ps.drop_last();
        lemma_champion_in(front);
        if champion(ps) == champion(front) && i < front.len() {
            lemma_best_holds_its_place(front, i);
        }
    }
}

/// The length of an AS path is the sum over its segments: a sequence counts its AS
/// numbers, a set counts one however many it holds, and the segments of a confederation
/// count nothing.
pub proof fn lemma_path_len(p: Seq<SegmentView>, q: Seq<SegmentView>, asns: Seq<u32>)
    ensures
        path_len(p + q) == path_len(p) + path_len(q),
        path_len(seq![SegmentView::Sequence(asns)]) == asns.len(),
        path_len(seq![SegmentView::AsSet(asns)]) == 1,
        path_len(seq![SegmentView::ConfedSequence(asns)]) == 0,
        path_len(seq![SegmentView::ConfedSet(asns)]) == 0,
        path_len(Seq::empty()) == 0,
    decreases q.len(),
{
    if q.len() == 0 {
        assert(p + q =~= p);
    } else {
        lemma_path_len(p, q.drop_last(), asns);
        assert((p + q).drop_last() =~= p + q.drop_last());
        assert((p + q).last() == q.last());
    }
    lemma_one_segment(SegmentView::Sequence(asns));
    lemma_one_segment(SegmentView::AsSet(asns));
    lemma_one_segment(SegmentView::ConfedSequence(asns));
    lemma_one_segment(SegmentView::ConfedSet(asns));
}

proof fn lemma_one_segment(s: SegmentView)
    ensures
        path_len(seq![s]) == segment_len(s),
{
    assert(seq![s].drop_last() =~= Seq::empty());
    assert(path_len(seq![s].drop_last()) == 0);
}

/// Whether two strings of octets agree up to `k` and the first is the lower there.
pub open spec fn lower_at(x: Seq<u8>, y: Seq<u8>, k: int) -> bool {
    &&& 0 <= k < x.len() && k < y.len()
    &&& forall|i: int| 0 <= i < k ==> x[i] == y[i]
    &&& x[k] < y[k]
}

/// The preference of a path goes before all else, and then the length of its AS path:
/// whatever the origins, the MEDs, the sources, the costs, the clusters and the peers are.
pub proof fn lemma_preference_then_length(a: PathView, b: PathView)
    ensures
        a.local_pref > b.local_pref ==> better(a, b) && !better(b, a),
        a.local_pref == b.local_pref && path_len(a.as_path) < path_len(b.as_path) ==> better(a, b)
            && !better(b, a),
{
}

/// Between paths of one preference and length the origin decides: IGP before EGP before
/// INCOMPLETE. Where that is the same too, the lower MED decides among paths from one AS,
/// and MED makes no difference among paths from two.
pub proof fn lemma_origin_then_med(a: PathView, b: PathView, m: u32, n: u32)
    requires
        a.local_pref == b.local_pref,
        path_len(a.as_path) == path_len(b.as_path),
    ensures
        a.origin is Igp && !(b.origin is Igp) ==> better(a, b) && !better(b, a),
        a.origin is Egp && b.origin is Incomplete ==> better(a, b) && !better(b, a),
        a.origin == b.origin && a.peer_as == b.peer_as && a.med < b.med ==> better(a, b) && !better(
            b,
            a,
        ),
        a.peer_as != b.peer_as ==> better(
            (PathView { med: m, ..a }),
            (PathView { med: n, ..b }),
        ) == better(a, b),
{
}

/// Between paths that nothing so far tells apart, one from another AS goes before one from
/// the own AS, and among those the lower cost to the next hop decides.
pub proof fn lemma_source_then_cost(a: PathView, b: PathView)
    requires
        a.local_pref == b.local_pref,
        path_len(a.as_path) == path_len(b.as_path),
        a.origin == b.origin,
        a.peer_as != b.peer_as || a.med == b.med,
    ensures
        a.from_ebgp && !b.from_ebgp ==> better(a, b) && !better(b, a),
        a.from_ebgp == b.from_ebgp && a.igp_metric < b.igp_metric ==> better(a, b) && !better(b, a),
{
}

/// Between paths that are equally good for forwarding, the fewer clusters decide, then the
/// lower identifier of the peer, and then its lower address, where IPv4 goes before IPv6.
pub proof fn lemma_clusters_then_peer(a: PathView, b: PathView, k: int)
    requires
        a.local_pref == b.local_pref,
        path_len(a.as_path) == path_len(b.as_path),
        a.origin == b.origin,
        a.peer_as != b.peer_as || a.med == b.med,
        a.from_ebgp == b.from_ebgp,
        a.igp_metric == b.igp_metric,
    ensures
        a.cluster_list.len() < b.cluster_list.len() ==> better(a, b) && !better(b, a),
        a.cluster_list.len() == b.cluster_list.len() && lower_at(
            a.peer_id.octets@,
            b.peer_id.octets@,
            k,
        ) ==> better(a, b) && !better(b, a),
        a.cluster_list.len() == b.cluster_list.len() && a.peer_id == b.peer_id && (
        a.peer_addr is V4) == (b.peer_addr is V4) && lower_at(
            a.peer_addr.bytes(),
            b.peer_addr.bytes(),
            k,
        ) ==> better(a, b) && !better(b, a),
        a.cluster_list.len() == b.cluster_list.len() && a.peer_id == b.peer_id && a.peer_addr is V4
            && b.peer_addr is V6 ==> better(a, b) && !better(b, a),
        a.cluster_list.len() == b.cluster_list.len() && a.peer_id == b.peer_id && a.peer_addr
            == b.peer_addr ==> !better(a, b) && !better(b, a),
{
    let (x, y) = (IpAddr::rank(a.peer_addr), IpAddr::rank(b.peer_addr));
    order::lemma_before_irreflexive(x);
    if order::before(x, y) && order::before(y, x) {
        order::lemma_before_transitive(x, y, x);
    }
    if lower_at(a.peer_id.octets@, b.peer_id.octets@, k) {
        lemma_lower_number(a.peer_id.octets@, b.peer_id.octets@, k);
    }
    if (a.peer_addr is V4) == (b.peer_addr is V4) && lower_at(
        a.peer_addr.bytes(),
        b.peer_addr.bytes(),
        k,
    ) {
        lemma_lower_rank(a.peer_addr, b.peer_addr, k);
    }
}

proof fn lemma_lower_number(x: Seq<u8>, y: Seq<u8>, k: int)
    requires
        x.len() == 4,
        y.len() == 4,
        lower_at(x, y, k),
    ensures
        wire::u32_at(x, 0) < wire::u32_at(y, 0),
{
    if k > 0 {
        assert(x[0] == y[0]);
    }
    if k > 1 {
        assert(x[1] == y[1]);
    }
    if k > 2 {
        assert(x[2] == y[2]);
    }
}

proof fn lemma_lower_rank(a: IpAddr, b: IpAddr, k: int)
    requires
        (a is V4) == (b is V4),
        lower_at(a.bytes(), b.bytes(), k),
    ensures
        order::before(IpAddr::rank(a), IpAddr::rank(b)),
{
    crate::net::lemma_address_order(a, b, k);
}

/// Nothing else counts: not the next hop, nor the communities, nor what a path went
/// through, nor who brought it.
pub proof fn lemma_nothing_else_counts(a: PathView, b: PathView, c: PathView)
    requires
        a.local_pref == c.local_pref,
        path_len(a.as_path) == path_len(c.as_path),
        a.origin == c.origin,
        a.peer_as == c.peer_as,
        a.med == c.med,
        a.from_ebgp == c.from_ebgp,
        a.igp_metric == c.igp_metric,
        a.cluster_list.len() == c.cluster_list.len(),
        a.peer_id == c.peer_id,
        a.peer_addr == c.peer_addr,
    ensures
        better(a, b) == better(c, b),
        better(b, a) == better(b, c),
        tied(a, b) == tied(c, b),
{
}

/// Two paths tie exactly where only their clusters and their peers can tell them apart:
/// where they tie, the fewer clusters make either the better one; where they do not, no
/// clusters and no peers change which is.
pub proof fn lemma_what_a_tie_is(a: PathView, b: PathView, c: PathView, d: PathView)
    requires
        c == (PathView {
            cluster_list: c.cluster_list,
            peer_id: c.peer_id,
            peer_addr: c.peer_addr,
            ..a
        }),
        d == (PathView {
            cluster_list: d.cluster_list,
            peer_id: d.peer_id,
            peer_addr: d.peer_addr,
            ..b
        }),
    ensures
        tied(a, b) && c.cluster_list.len() < d.cluster_list.len() ==> better(c, d),
        tied(a, b) && d.cluster_list.len() < c.cluster_list.len() ==> better(d, c),
        !tied(a, b) ==> better(c, d) == better(a, b) && better(d, c) == better(b, a) && (better(
            a,
            b,
        ) || better(b, a)),
        tied(a, a),
        tied(a, b) == tied(b, a),
{
}

/// One more candidate takes over exactly where it is better than the best so far, and
/// leaves that one in its place otherwise.
pub proof fn lemma_one_more_candidate(ps: Seq<PathView>, p: PathView)
    requires
        ps.len() > 0,
    ensures
        champion(seq![p]) == 0,
        better(p, ps[champion(ps)]) ==> champion(ps.push(p)) == ps.len(),
        !better(p, ps[champion(ps)]) ==> champion(ps.push(p)) == champion(ps),
{
    assert(ps.push(p).drop_last() =~= ps);
    lemma_champion_in(ps);
}

/// Of paths that are equally good the first is the best: whatever stands in front of the
/// best one is worse than it, among paths between which MED counts or makes no difference.
pub proof fn lemma_best_is_first(ps: Seq<PathView>, i: int)
    requires
        0 <= i < champion(ps),
        0 < ps.len(),
        forall|j: int, k: int|
            0 <= j < ps.len() && 0 <= k < ps.len() ==> med_agrees(
                #[trigger] ps[j],
                #[trigger] ps[k],
            ),
    ensures
        better(ps[champion(ps)], ps[i]),
    decreases ps.len(),
{
    lemma_champion_in(ps);
    let front = ps.drop_last();
    lemma_champion_in(front);
    let c = champion(front);
    assert forall|j: int, k: int|
        0 <= j < front.len() && 0 <= k < front.len() implies med_agrees(
        #[trigger] front[j],
        #[trigger] front[k],
    ) by {
        assert(med_agrees(ps[j], ps[k]));
    }
    assert(front[i] == ps[i] && front[c] == ps[c]);
    if champion(ps) == c {
        lemma_best_is_first(front, i);
    } else {
        let last = ps.last();
        lemma_best_is_unbeaten(front, i);
        assert(med_agrees(ps[i], ps[c]));
        assert(med_agrees(ps[c], ps[ps.len() - 1]));
        assert(med_agrees(ps[i], ps[ps.len() - 1]));
        if !better(last, ps[i]) {
            lemma_not_better_transitive(last, ps[i], ps[c]);
        }
    }
}

/// A path is installed by its own next hop, on its own interface.
pub proof fn lemma_hop(p: PathView)
    ensures
        hop_of(p).addr == p.next_hop,
        hop_of(p).dev == p.next_hop_iface,
{
}

} // verus!
