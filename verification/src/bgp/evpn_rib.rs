//! EVPN routes that peers offer, the best offer for each, and the views into which
//! instances import them (RFC 7432 §9).
//!
//! [`EvpnRib`] keeps routes apart that differ in their route distinguisher. [`EviTable`] and
//! [`IpVrfTable`] take the routes that one instance imports and bring together what they say
//! of a MAC address, a tunnel endpoint or a prefix.

use vstd::prelude::*;

use crate::bgp::decision::{Path, PathView};
use crate::bgp::evpn::{EvpnNlri, EvpnView};
use crate::bgp::selection::SinglePath;
use crate::bgp::table;
use crate::bgp::table::{Change, Event, Slots, Source, Table};
use crate::net::IpAddr;
use crate::order::Datum;
use crate::wire;

pub mod evi;
pub mod ip_vrf;

pub use crate::bgp::evpn_rib::evi::{EviChange, EviTable, RemoteMac};
pub use crate::bgp::evpn_rib::ip_vrf::{IpVrfChange, IpVrfTable, RemotePrefix};

verus! {

/// The Route Target of an instance: that of a 16-bit AS number, with the VNI as its value.
pub fn auto_route_target(as2: u16, vni: u32) -> (r: [u8; 8])
    ensures
        r@ == seq![0u8, 2] + wire::be16(as2) + wire::be32(vni),
{
    let r = [
        0,
        2,
        (as2 / 256) as u8,
        (as2 % 256) as u8,
        (vni / 16777216) as u8,
        (vni / 65536 % 256) as u8,
        (vni / 256 % 256) as u8,
        (vni % 256) as u8,
    ];
    assert(r@ =~= seq![0u8, 2] + wire::be16(as2) + wire::be32(vni));
    r
}

/// Type of the EVPN extended communities.
pub const EC_TYPE_EVPN: u8 = 0x06;

/// Sub-type: MAC Mobility (RFC 7432 §7.7).
pub const EC_SUBTYPE_MAC_MOBILITY: u8 = 0x00;

/// Sub-type: Router's MAC (RFC 9135 §4).
pub const EC_SUBTYPE_ROUTER_MAC: u8 = 0x03;

/// Whether an extended community is an EVPN one of a sub-type.
pub open spec fn evpn_kind(ec: Seq<u8>, sub: u8) -> bool {
    ec[0] == 6 && ec[1] == sub
}

/// The first EVPN extended community of a sub-type.
pub open spec fn first_of(ecs: Seq<Seq<u8>>, sub: u8) -> Option<Seq<u8>>
    decreases ecs.len(),
{
    if ecs.len() == 0 {
        None
    } else if evpn_kind(ecs[0], sub) {
        Some(ecs[0])
    } else {
        first_of(ecs.drop_first(), sub)
    }
}

fn find_first(ecs: &Vec<[u8; 8]>, sub: u8) -> (r: Option<[u8; 8]>)
    ensures
        match r {
            Some(ec) => first_of(wire::views(ecs@), sub) == Some(ec@),
            None => first_of(wire::views(ecs@), sub) is None,
        },
{
    let ghost all = wire::views(ecs@);
    let mut i: usize = 0;
    assert(all.skip(0) =~= all);
    while i < ecs.len()
        invariant
            i <= ecs.len(),
            all == wire::views(ecs@),
            first_of(all, sub) == first_of(all.skip(i as int), sub),
        decreases ecs.len() - i,
    {
        let ec = ecs[i];
        assert(all.skip(i as int)[0] == ec@);
        assert(all.skip(i as int).drop_first() =~= all.skip(i + 1));
        if ec[0] == EC_TYPE_EVPN && ec[1] == sub {
            return Some(ec);
        }
        i = i + 1;
    }
    None
}

/// The Router's MAC extended community.
pub fn build_router_mac(mac: [u8; 6]) -> (r: [u8; 8])
    ensures
        r@ == seq![6u8, 3] + mac@,
{
    let r = [
        EC_TYPE_EVPN,
        EC_SUBTYPE_ROUTER_MAC,
        mac[0],
        mac[1],
        mac[2],
        mac[3],
        mac[4],
        mac[5],
    ];
    assert(r@ =~= seq![6u8, 3] + mac@);
    r
}

/// The MAC address of the advertising router, as the communities of a path tell.
pub open spec fn router_mac_of(ecs: Seq<Seq<u8>>) -> Option<[u8; 6]> {
    match first_of(ecs, 3) {
        Some(ec) => Some(wire::arr6_at(ec, 2)),
        None => None,
    }
}

/// The MAC address of the advertising router; `None` where the path does not tell it.
pub fn router_mac(path: &Path) -> (r: Option<[u8; 6]>)
    ensures
        r == router_mac_of(path@.ext_communities),
{
    match find_first(&path.ext_communities, EC_SUBTYPE_ROUTER_MAC) {
        Some(ec) => Some(wire::read_arr6(ec.as_slice(), 2)),
        None => None,
    }
}

/// A Router's MAC community that comes first of its kind is read back.
pub proof fn lemma_router_mac_round_trip(before: Seq<Seq<u8>>, mac: [u8; 6], after: Seq<Seq<u8>>)
    requires
        forall|i: int| 0 <= i < before.len() ==> !evpn_kind(#[trigger] before[i], 3),
    ensures
        router_mac_of(before + seq![seq![6u8, 3] + mac@] + after) == Some(mac),
    decreases before.len(),
{
    let ec = seq![6u8, 3] + mac@;
    let all = before + seq![ec] + after;
    if before.len() == 0 {
        assert(all[0] == ec);
        assert(ec.subrange(2, 8) =~= mac@);
        wire::lemma_arr6_placed(ec, 2, mac);
    } else {
        assert(all[0] == before[0]);
        let rest = before.drop_first();
        assert forall|i: int| 0 <= i < rest.len() implies !evpn_kind(#[trigger] rest[i], 3) by {
            assert(rest[i] == before[i + 1]);
        }
        assert(all.drop_first() =~= rest + seq![ec] + after);
        lemma_router_mac_round_trip(rest, mac, after);
    }
}

/// How often a MAC address has moved, and whether it may (RFC 7432 §7.7).
#[derive(Clone, Copy, PartialEq, Eq, Structural, Debug, Default)]
pub struct MacMobility {
    pub seq: u32,
    pub sticky: bool,
}

/// The mobility of a MAC address, as the communities of a path tell.
pub open spec fn mobility_of(ecs: Seq<Seq<u8>>) -> Option<MacMobility> {
    match first_of(ecs, 0) {
        Some(ec) => Some(MacMobility { seq: wire::u32_at(ec, 4), sticky: wire::bit(ec[2], 1) }),
        None => None,
    }
}

/// The mobility of a MAC address; `None` where the path does not tell it.
pub fn mac_mobility(path: &Path) -> (r: Option<MacMobility>)
    ensures
        r == mobility_of(path@.ext_communities),
{
    match find_first(&path.ext_communities, EC_SUBTYPE_MAC_MOBILITY) {
        Some(ec) => Some(
            MacMobility {
                seq: wire::read_u32(ec.as_slice(), 4),
                sticky: wire::bit_of(ec[2], 1),
            },
        ),
        None => None,
    }
}

/// Whether one of the communities is one of the Route Targets.
pub open spec fn imported(rts: Seq<Seq<u8>>, ecs: Seq<Seq<u8>>) -> bool {
    exists|i: int| 0 <= i < ecs.len() && rts.contains(#[trigger] ecs[i])
}

/// Whether a path carries one of the Route Targets.
pub fn carries(rts: &Vec<[u8; 8]>, path: &Path) -> (r: bool)
    ensures
        r == imported(wire::views(rts@), path@.ext_communities),
{
    let ghost targets = wire::views(rts@);
    let ghost ecs = path@.ext_communities;
    let mut i: usize = 0;
    while i < path.ext_communities.len()
        invariant
            i <= path.ext_communities.len(),
            targets == wire::views(rts@),
            ecs == wire::views(path.ext_communities@),
            forall|j: int| 0 <= j < i ==> !targets.contains(#[trigger] ecs[j]),
        decreases path.ext_communities.len() - i,
    {
        let ec = &path.ext_communities[i];
        assert(ecs[i as int] == ec@);
        let mut k: usize = 0;
        while k < rts.len()
            invariant
                i < path.ext_communities.len(),
                k <= rts.len(),
                targets == wire::views(rts@),
                ecs == wire::views(path.ext_communities@),
                ecs == path@.ext_communities,
                ecs[i as int] == ec@,
                forall|j: int| 0 <= j < k ==> #[trigger] targets[j] != ec@,
            decreases rts.len() - k,
        {
            assert(targets[k as int] == rts@[k as int]@);
            if rts[k].same(ec) {
                assert(targets.contains(ecs[i as int]));
                return true;
            }
            k = k + 1;
        }
        assert(!targets.contains(ecs[i as int]));
        i = i + 1;
    }
    false
}

/// What changed.
#[derive(Clone, PartialEq, Eq, Debug)]
pub enum EvpnRibEvent {
    /// There is another best offer than before for a route.
    Best { nlri: EvpnNlri, path: Path },
    /// There is no offer left for a route.
    Withdrawn(EvpnNlri),
}

/// A change as a mathematical value.
#[verifier::ext_equal]
pub enum EvpnEventView {
    Best { nlri: EvpnView, path: PathView },
    Withdrawn(EvpnView),
}

impl View for EvpnRibEvent {
    type V = EvpnEventView;

    open spec fn view(&self) -> EvpnEventView {
        match *self {
            EvpnRibEvent::Best { nlri, path } => EvpnEventView::Best {
                nlri: nlri@,
                path: path@,
            },
            EvpnRibEvent::Withdrawn(nlri) => EvpnEventView::Withdrawn(nlri@),
        }
    }
}

impl Event for EvpnRibEvent {
    type Key = EvpnNlri;

    type Choice = Path;

    open spec fn told(nlri: EvpnView, c: Change<PathView>) -> EvpnEventView {
        match c {
            Change::Best(path) => EvpnEventView::Best { nlri, path },
            Change::Gone => EvpnEventView::Withdrawn(nlri),
        }
    }

    fn tell(nlri: EvpnNlri, c: Change<Path>) -> (r: EvpnRibEvent) {
        match c {
            Change::Best(path) => EvpnRibEvent::Best { nlri, path },
            Change::Gone => EvpnRibEvent::Withdrawn(nlri),
        }
    }
}

/// What the table holds for each route: the offers, and the best of them.
pub type EvpnRoutes = Slots<EvpnView, PathView, PathView>;

/// The best offer for a route.
pub open spec fn best_for(s: EvpnRoutes, nlri: EvpnView) -> Option<PathView> {
    table::choice_at::<EvpnNlri, PathView, PathView>(s, nlri)
}

/// The event when the table goes from one state to another by a change to the offers for
/// a route; none where the best one stays.
pub open spec fn event_between(
    was: EvpnRoutes,
    is: EvpnRoutes,
    nlri: EvpnView,
) -> Option<EvpnEventView> {
    table::told_one::<EvpnRibEvent>(
        nlri,
        table::changed::<EvpnNlri, PathView, PathView>(was, is, nlri),
    )
}

/// What every peer offers for every route, and the best of it.
pub struct EvpnRib {
    table: Table<EvpnNlri, SinglePath>,
}

impl Clone for EvpnRib {
    fn clone(&self) -> (r: EvpnRib)
        ensures
            self.wf() ==> r.wf() && r@ == self@,
    {
        EvpnRib { table: self.table.clone() }
    }
}

impl View for EvpnRib {
    type V = EvpnRoutes;

    closed spec fn view(&self) -> EvpnRoutes {
        self.table@
    }
}

impl Default for EvpnRib {
    fn default() -> (r: EvpnRib)
        ensures
            r.wf(),
            r@.len() == 0,
    {
        EvpnRib::new()
    }
}

impl EvpnRib {
    /// The table is in order.
    pub closed spec fn wf(&self) -> bool {
        self.table.wf() && self.table.selector() == SinglePath
    }

    /// For every route with offers the best one is the one that the decision process
    /// chooses among them, and no other route is there.
    pub proof fn lemma_wf(&self)
        requires
            self.wf(),
        ensures
            table::table_ok::<EvpnNlri, SinglePath>(SinglePath, self@),
    {
        self.table.lemma_wf();
    }

    /// An empty table.
    pub fn new() -> (r: EvpnRib)
        ensures
            r.wf(),
            r@.len() == 0,
    {
        EvpnRib { table: Table::new(SinglePath) }
    }

    /// Take what a peer offers for a route.
    pub fn update(&mut self, peer: IpAddr, nlri: EvpnNlri, path: Path) -> (r: Option<
        EvpnRibEvent,
    >)
        requires
            old(self).wf(),
        ensures
            final(self).wf(),
            final(self)@ == table::updated::<EvpnNlri, SinglePath>(
                SinglePath,
                old(self)@,
                (Source { peer, path_id: 0 }),
                nlri@,
                path@,
            ),
            table::event_view(r) == event_between(old(self)@, final(self)@, nlri@),
    {
        let c = self.table.update(Source { peer, path_id: 0 }, &nlri, path);
        table::tell_one::<EvpnRibEvent>(nlri, c)
    }

    /// Take back what a peer offered for a route.
    pub fn withdraw(&mut self, peer: IpAddr, nlri: EvpnNlri) -> (r: Option<EvpnRibEvent>)
        requires
            old(self).wf(),
        ensures
            final(self).wf(),
            final(self)@ == table::dropped::<EvpnNlri, SinglePath>(
                SinglePath,
                old(self)@,
                peer,
                nlri@,
            ),
            table::event_view(r) == event_between(old(self)@, final(self)@, nlri@),
    {
        let c = self.table.withdraw_all(peer, &nlri);
        table::tell_one::<EvpnRibEvent>(nlri, c)
    }

    /// Take back everything that a peer offered; returns the changes, in the order of the
    /// routes.
    pub fn withdraw_peer(&mut self, peer: IpAddr) -> (r: Vec<EvpnRibEvent>)
        requires
            old(self).wf(),
        ensures
            final(self).wf(),
            final(self)@ == table::without_peer::<EvpnNlri, SinglePath>(
                SinglePath,
                old(self)@,
                peer,
            ),
            wire::views(r@) == table::told_all::<EvpnRibEvent>(
                table::peer_changes::<EvpnNlri, SinglePath>(SinglePath, old(self)@, peer),
            ),
    {
        table::tell_all::<EvpnRibEvent>(self.table.withdraw_peer(peer))
    }

    /// The best offer for a route.
    pub fn best(&self, nlri: &EvpnNlri) -> (r: Option<&Path>)
        requires
            self.wf(),
        ensures
            match r {
                Some(p) => best_for(self@, nlri@) == Some(p@),
                None => best_for(self@, nlri@) is None,
            },
    {
        self.table.choice(nlri)
    }

    /// The best offer for every route, in order.
    pub fn iter_best(&self) -> (r: Vec<(&EvpnNlri, &Path)>)
        requires
            self.wf(),
        ensures
            r@.len() == self@.len(),
            forall|i: int|
                #![trigger r@[i]]
                0 <= i < r@.len() ==> r@[i].0@ == self@[i].0 && r@[i].1@ == self@[i].1.choice,
    {
        let mut out: Vec<(&EvpnNlri, &Path)> = Vec::new();
        let mut i: usize = 0;
        while i < self.table.len()
            invariant
                self.wf(),
                i <= self@.len(),
                out@.len() == i,
                forall|j: int|
                    #![trigger out@[j]]
                    0 <= j < i ==> out@[j].0@ == self@[j].0 && out@[j].1@ == self@[j].1.choice,
            decreases self@.len() - i,
        {
            out.push((self.table.key(i), &self.table.slot(i).choice));
            i = i + 1;
        }
        out
    }

    /// How many routes have an offer.
    pub fn len(&self) -> (r: usize)
        ensures
            r == self@.len(),
    {
        self.table.len()
    }

    /// Whether no route has an offer.
    pub fn is_empty(&self) -> (r: bool)
        ensures
            r == (self@.len() == 0),
    {
        self.table.len() == 0
    }
}

/// An event tells what became of the choice: none where it stays, the new one where there
/// is another, and that it is gone where there is none any more.
pub proof fn lemma_events_are_true(was: EvpnRoutes, is: EvpnRoutes, nlri: EvpnView)
    ensures
        event_between(was, is, nlri) is None <==> best_for(was, nlri) == best_for(is, nlri),
        event_between(was, is, nlri) matches Some(EvpnEventView::Best { nlri: n, path: x }) ==> n == nlri
            && best_for(is, nlri) == Some(x),
        event_between(was, is, nlri) matches Some(EvpnEventView::Withdrawn(n)) ==> n == nlri && best_for(
            is,
            nlri,
        ) is None && best_for(was, nlri) is Some,
{
}

/// The mobility that a path tells is that of its first MAC Mobility community: type 6,
/// sub-type 0, the lowest bit of the flags for a MAC address that may not move, and the
/// sequence number in the last four octets. A path without one tells none.
pub proof fn lemma_mobility_is_read(before: Seq<Seq<u8>>, ec: Seq<u8>, after: Seq<Seq<u8>>)
    requires
        forall|i: int|
            0 <= i < before.len() ==> !((#[trigger] before[i])[0] == 6 && before[i][1] == 0),
    ensures
        mobility_of(before) is None,
        ec[0] == 6 && ec[1] == 0 ==> (mobility_of(before + seq![ec] + after) matches Some(m)
            && m.seq == ec[4] * 16777216 + ec[5] * 65536 + ec[6] * 256 + ec[7] && m.sticky == (ec[2]
            % 2 == 1)),
    decreases before.len(),
{
    let all = before + seq![ec] + after;
    if before.len() == 0 {
        assert(all[0] == ec);
    } else {
        assert(all[0] == before[0]);
        let rest = before.drop_first();
        assert forall|i: int| 0 <= i < rest.len() implies !((#[trigger] rest[i])[0] == 6
            && rest[i][1] == 0) by {
            assert(rest[i] == before[i + 1]);
        }
        assert(all.drop_first() =~= rest + seq![ec] + after);
        lemma_mobility_is_read(rest, ec, after);
    }
}

/// The router's MAC address is read from the first community of type 6 and sub-type 3, and
/// a path without one tells none.
pub proof fn lemma_router_mac_is_read(before: Seq<Seq<u8>>, ec: Seq<u8>, after: Seq<Seq<u8>>, i: int)
    requires
        forall|j: int|
            0 <= j < before.len() ==> !((#[trigger] before[j])[0] == 6 && before[j][1] == 3),
        0 <= i < 6,
    ensures
        router_mac_of(before) is None,
        ec[0] == 6 && ec[1] == 3 ==> (router_mac_of(before + seq![ec] + after) matches Some(m)
            && m@[i] == ec[2 + i]),
    decreases before.len(),
{
    let all = before + seq![ec] + after;
    if before.len() == 0 {
        assert(all[0] == ec);
    } else {
        assert(all[0] == before[0]);
        let rest = before.drop_first();
        assert forall|j: int| 0 <= j < rest.len() implies !((#[trigger] rest[j])[0] == 6
            && rest[j][1] == 3) by {
            assert(rest[j] == before[j + 1]);
        }
        assert(all.drop_first() =~= rest + seq![ec] + after);
        lemma_router_mac_is_read(rest, ec, after, i);
    }
}

/// A path is imported exactly where one of its communities is, octet by octet, one of the
/// Route Targets; none is without Route Targets.
pub proof fn lemma_what_is_imported(rts: Seq<Seq<u8>>, ecs: Seq<Seq<u8>>)
    ensures
        imported(rts, ecs) <==> exists|i: int, j: int|
            0 <= i < rts.len() && 0 <= j < ecs.len() && (#[trigger] rts[i]) == (#[trigger] ecs[j]),
        rts.len() == 0 ==> !imported(rts, ecs),
        imported(rts, ecs) == imported(ecs, rts),
{
    if imported(rts, ecs) {
        let j = choose|j: int| 0 <= j < ecs.len() && rts.contains(#[trigger] ecs[j]);
        let i = choose|i: int| 0 <= i < rts.len() && rts[i] == ecs[j];
        assert(rts[i] == ecs[j]);
        assert(ecs.contains(rts[i]));
    }
    if exists|i: int, j: int|
        0 <= i < rts.len() && 0 <= j < ecs.len() && (#[trigger] rts[i]) == (#[trigger] ecs[j]) {
        let (i, j) = choose|i: int, j: int|
            0 <= i < rts.len() && 0 <= j < ecs.len() && (#[trigger] rts[i]) == (
            #[trigger] ecs[j]);
        assert(rts.contains(ecs[j]));
    }
    if imported(ecs, rts) {
        let i = choose|i: int| 0 <= i < rts.len() && ecs.contains(#[trigger] rts[i]);
        let j = choose|j: int| 0 <= j < ecs.len() && ecs[j] == rts[i];
        assert(rts.contains(ecs[j]));
    }
}

} // verus!
