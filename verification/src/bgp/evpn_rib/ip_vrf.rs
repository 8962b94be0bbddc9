//! What one tenant's IP-VRF knows of remote prefixes (RFC 9136).
//!
//! Prefixes have no mobility, and two routers that advertise one prefix are no conflict:
//! whoever was heard last is taken.

use vstd::prelude::*;

use crate::bgp::decision::{Path, PathView};
use crate::bgp::evpn::{EvpnNlri, EvpnView};
use crate::bgp::evpn_rib;
use crate::bgp::evpn_rib::evi;
use crate::bgp::evpn_rib::evi::{path_sid, same_router, same_sid};
use crate::bgp::evpn_rib::{carries, router_mac, EvpnEventView, EvpnRibEvent};
use crate::bgp::srv6::Srv6Sid;
use crate::net;
use crate::net::{IpAddr, Prefix};
use crate::order::{dup_all, Datum, Ranked};
use crate::sorted_map;
use crate::sorted_map::SortedMap;
use crate::wire;

verus! {

/// How a remote prefix is reached.
#[derive(Clone, Copy, PartialEq, Eq, Debug)]
pub struct RemotePrefix {
    /// The other end of the tunnel: the next hop of the route.
    pub vtep: IpAddr,
    /// The L3 VNI.
    pub vni: u32,
    /// The gateway within the tenant's network, where one is told (§3.2).
    pub gw: Option<IpAddr>,
    /// The MAC address of the advertising router, where it tells it.
    pub router_mac: Option<[u8; 6]>,
    /// The SRv6 service SID, where the route has one.
    pub srv6_sid: Option<Srv6Sid>,
}

/// A change to what an IP-VRF knows.
#[derive(Clone, Copy, PartialEq, Eq, Debug)]
pub enum IpVrfChange {
    /// A prefix is known, or how it is reached has changed.
    PrefixLearned { prefix: Prefix, entry: RemotePrefix },
    /// A prefix is no longer known.
    PrefixForgotten { prefix: Prefix },
}

/// What is known of a prefix, and the route that says so.
pub struct PrefixSlot {
    pub entry: RemotePrefix,
    pub owner: EvpnNlri,
}

/// The same as a mathematical value.
pub struct PrefixSlotView {
    pub entry: RemotePrefix,
    pub owner: EvpnView,
}

impl View for PrefixSlot {
    type V = PrefixSlotView;

    open spec fn view(&self) -> PrefixSlotView {
        PrefixSlotView { entry: self.entry, owner: self.owner@ }
    }
}

impl RemotePrefix {
    fn same(&self, other: &RemotePrefix) -> (r: bool)
        ensures
            r == (*self == *other),
    {
        let gw = match (&self.gw, &other.gw) {
            (Some(x), Some(y)) => x.same(y),
            (None, None) => true,
            _ => false,
        };
        self.vtep.same(&other.vtep) && self.vni == other.vni && gw && same_router(
            &self.router_mac,
            &other.router_mac,
        ) && same_sid(&self.srv6_sid, &other.srv6_sid)
    }
}

impl Datum for PrefixSlot {
    fn dup(&self) -> (r: PrefixSlot) {
        PrefixSlot { entry: self.entry, owner: self.owner.dup() }
    }

    fn same(&self, other: &PrefixSlot) -> (r: bool) {
        self.entry.same(&other.entry) && self.owner.same(&other.owner)
    }
}

/// A gateway; all zeros tell that there is none.
pub open spec fn gateway_of(gw: IpAddr) -> Option<IpAddr> {
    if gw.unspecified() {
        None
    } else {
        Some(gw)
    }
}

fn specified_gw(gw: IpAddr) -> (r: Option<IpAddr>)
    ensures
        r == gateway_of(gw),
{
    if gw.is_unspecified() {
        None
    } else {
        Some(gw)
    }
}

/// What a route that came on a path says of its prefix.
pub open spec fn entry_of(p: PathView, gw: IpAddr, label: u32) -> RemotePrefix {
    RemotePrefix {
        vtep: p.next_hop,
        vni: label,
        gw: gateway_of(gw),
        router_mac: evpn_rib::router_mac_of(p.ext_communities),
        srv6_sid: evi::sid_of(p),
    }
}

/// What an IP-VRF knows, as a mathematical value.
#[verifier::ext_equal]
pub struct IpVrfView {
    pub import_rts: Seq<Seq<u8>>,
    pub prefixes: Seq<(Prefix, PrefixSlotView)>,
}

/// What is known of a prefix, and the route that says so.
pub open spec fn slot_at(v: IpVrfView, prefix: Prefix) -> Option<PrefixSlotView> {
    sorted_map::lookup::<Prefix, PrefixSlotView>(v.prefixes, Prefix::rank(prefix))
}

/// How a prefix is reached.
pub open spec fn prefix_at(v: IpVrfView, prefix: Prefix) -> Option<RemotePrefix> {
    match slot_at(v, prefix) {
        Some(slot) => Some(slot.entry),
        None => None,
    }
}

/// A route goes: its prefix is forgotten, unless another route says how to reach it.
pub open spec fn forget(v: IpVrfView, nlri: EvpnView) -> (IpVrfView, Option<IpVrfChange>) {
    match nlri {
        EvpnView::IpPrefix { prefix, .. } => {
            if slot_at(v, prefix) matches Some(slot) && slot.owner == nlri {
                (
                    IpVrfView {
                        prefixes: sorted_map::without::<Prefix, PrefixSlotView>(
                            v.prefixes,
                            Prefix::rank(prefix),
                        ),
                        ..v
                    },
                    Some(IpVrfChange::PrefixForgotten { prefix }),
                )
            } else {
                (v, None)
            }
        },
        _ => (v, None),
    }
}

/// An imported route comes: it says how its prefix is reached.
pub open spec fn learn(v: IpVrfView, nlri: EvpnView, p: PathView) -> (
    IpVrfView,
    Option<IpVrfChange>,
) {
    match nlri {
        EvpnView::IpPrefix { prefix, gw, label, .. } => {
            let entry = entry_of(p, gw, label);
            (
                IpVrfView {
                    prefixes: sorted_map::put::<Prefix, PrefixSlotView>(
                        v.prefixes,
                        prefix,
                        (PrefixSlotView { entry, owner: nlri }),
                    ),
                    ..v
                },
                if prefix_at(v, prefix) == Some(entry) {
                    None
                } else {
                    Some(IpVrfChange::PrefixLearned { prefix, entry })
                },
            )
        },
        _ => (v, None),
    }
}

/// What an IP-VRF knows after a change to the EVPN table, and how it changed. A route that is
/// not imported counts as one that goes.
pub open spec fn step(v: IpVrfView, ev: EvpnEventView) -> (IpVrfView, Option<IpVrfChange>) {
    match ev {
        EvpnEventView::Best { nlri, path } => if evpn_rib::imported(
            v.import_rts,
            path.ext_communities,
        ) {
            learn(v, nlri, path)
        } else {
            forget(v, nlri)
        },
        EvpnEventView::Withdrawn(nlri) => forget(v, nlri),
    }
}

/// One IP-VRF: the Route Targets that it imports, and what it knows.
pub struct IpVrfTable {
    pub import_rts: Vec<[u8; 8]>,
    prefixes: SortedMap<Prefix, PrefixSlot>,
}

impl View for IpVrfTable {
    type V = IpVrfView;

    closed spec fn view(&self) -> IpVrfView {
        IpVrfView { import_rts: wire::views(self.import_rts@), prefixes: self.prefixes@ }
    }
}

impl Clone for IpVrfTable {
    fn clone(&self) -> (r: IpVrfTable)
        ensures
            self.wf() ==> r.wf() && r@ == self@,
    {
        IpVrfTable {
            import_rts: dup_all(self.import_rts.as_slice()),
            prefixes: self.prefixes.clone(),
        }
    }
}

impl IpVrfTable {
    /// What is known is in order.
    pub closed spec fn wf(&self) -> bool {
        self.prefixes.wf()
    }

    /// The prefixes of a well-formed table are sorted.
    pub proof fn lemma_wf(&self)
        requires
            self.wf(),
        ensures
            sorted_map::sorted::<Prefix, PrefixSlotView>(self@.prefixes),
    {
        self.prefixes.lemma_wf_sorted();
    }

    /// An IP-VRF that imports some Route Targets and knows nothing.
    pub fn new(import_rts: Vec<[u8; 8]>) -> (r: IpVrfTable)
        ensures
            r.wf(),
            r@ == (IpVrfView { import_rts: wire::views(import_rts@), prefixes: Seq::empty() }),
    {
        IpVrfTable { import_rts, prefixes: SortedMap::new() }
    }

    /// Whether the IP-VRF imports what came on a path.
    pub fn imports(&self, path: &Path) -> (r: bool)
        ensures
            r == evpn_rib::imported(self@.import_rts, path@.ext_communities),
    {
        carries(&self.import_rts, path)
    }

    /// Take a change to the EVPN table; returns what changed here.
    pub fn apply(&mut self, ev: &EvpnRibEvent) -> (r: Option<IpVrfChange>)
        requires
            old(self).wf(),
        ensures
            final(self).wf(),
            (final(self)@, r) == step(old(self)@, ev@),
    {
        match ev {
            EvpnRibEvent::Best { nlri, path } => {
                if !self.imports(path) {
                    return self.remove_if_owner(nlri);
                }
                if let EvpnNlri::IpPrefix { prefix, gw, label, .. } = nlri {
                    let entry = RemotePrefix {
                        vtep: path.next_hop,
                        vni: *label,
                        gw: specified_gw(*gw),
                        router_mac: router_mac(path),
                        srv6_sid: path_sid(path),
                    };
                    let changed = match self.prefixes.get(prefix) {
                        Some(slot) => !slot.entry.same(&entry),
                        None => true,
                    };
                    self.prefixes.insert(*prefix, PrefixSlot { entry, owner: nlri.dup() });
                    if changed {
                        Some(IpVrfChange::PrefixLearned { prefix: *prefix, entry })
                    } else {
                        None
                    }
                } else {
                    None
                }
            },
            EvpnRibEvent::Withdrawn(nlri) => self.remove_if_owner(nlri),
        }
    }

    fn remove_if_owner(&mut self, nlri: &EvpnNlri) -> (r: Option<IpVrfChange>)
        requires
            old(self).wf(),
        ensures
            final(self).wf(),
            (final(self)@, r) == forget(old(self)@, nlri@),
    {
        if let EvpnNlri::IpPrefix { prefix, .. } = nlri {
            let owned = match self.prefixes.get(prefix) {
                Some(slot) => slot.owner.same(nlri),
                None => false,
            };
            if !owned {
                return None;
            }
            self.prefixes.remove(prefix);
            Some(IpVrfChange::PrefixForgotten { prefix: *prefix })
        } else {
            None
        }
    }

    /// The known prefixes, in order.
    pub fn iter_prefixes(&self) -> (r: Vec<(&Prefix, &RemotePrefix)>)
        requires
            self.wf(),
        ensures
            r@.len() == self@.prefixes.len(),
            forall|i: int|
                #![trigger r@[i]]
                0 <= i < r@.len() ==> *r@[i].0 == self@.prefixes[i].0 && *r@[i].1
                    == self@.prefixes[i].1.entry,
    {
        let mut out: Vec<(&Prefix, &RemotePrefix)> = Vec::new();
        let mut i: usize = 0;
        while i < self.prefixes.len()
            invariant
                self.wf(),
                i <= self@.prefixes.len(),
                out@.len() == i,
                forall|j: int|
                    #![trigger out@[j]]
                    0 <= j < i ==> *out@[j].0 == self@.prefixes[j].0 && *out@[j].1
                        == self@.prefixes[j].1.entry,
            decreases self@.prefixes.len() - i,
        {
            out.push((self.prefixes.key(i), &self.prefixes.value(i).entry));
            i = i + 1;
        }
        out
    }

    /// How a prefix is reached; `None` where it is not known.
    pub fn lookup(&self, prefix: &Prefix) -> (r: Option<&RemotePrefix>)
        requires
            self.wf(),
        ensures
            match r {
                Some(e) => prefix_at(self@, *prefix) == Some(*e),
                None => prefix_at(self@, *prefix) is None,
            },
    {
        match self.prefixes.get(prefix) {
            Some(slot) => Some(&slot.entry),
            None => None,
        }
    }
}

/// A route that does not say how to reach its prefix takes nothing away when it goes.
pub proof fn lemma_only_the_owner_takes_away(v: IpVrfView, nlri: EvpnView)
    requires
        nlri matches EvpnView::IpPrefix { prefix, .. } ==> (slot_at(v, prefix) matches Some(slot)
            ==> slot.owner != nlri),
    ensures
        step(v, EvpnEventView::Withdrawn(nlri)) == (v, None::<IpVrfChange>),
{
}

/// Routes of other types change nothing.
pub proof fn lemma_only_prefixes_count(v: IpVrfView, nlri: EvpnView, path: PathView)
    requires
        !(nlri is IpPrefix),
    ensures
        step(v, (EvpnEventView::Best { nlri, path })) == (v, None::<IpVrfChange>),
        step(v, EvpnEventView::Withdrawn(nlri)) == (v, None::<IpVrfChange>),
{
}

/// Whoever follows the changes knows how every prefix is reached, and no change says what
/// was known.
pub proof fn lemma_changes_tell_all(v: IpVrfView, ev: EvpnEventView, prefix: Prefix)
    requires
        sorted_map::sorted::<Prefix, PrefixSlotView>(v.prefixes),
    ensures
        prefix_at(step(v, ev).0, prefix) == (match step(v, ev).1 {
            Some(IpVrfChange::PrefixLearned { prefix: p, entry }) => if p == prefix {
                Some(entry)
            } else {
                prefix_at(v, prefix)
            },
            Some(IpVrfChange::PrefixForgotten { prefix: p }) => if p == prefix {
                None
            } else {
                prefix_at(v, prefix)
            },
            None => prefix_at(v, prefix),
        }),
        step(v, ev).1 matches Some(IpVrfChange::PrefixLearned { prefix: p, entry }) ==> prefix_at(
            v,
            p,
        ) != Some(entry),
{
    let nlri = match ev {
        EvpnEventView::Best { nlri, .. } => nlri,
        EvpnEventView::Withdrawn(nlri) => nlri,
    };
    if let EvpnView::IpPrefix { prefix: p, gw, label, .. } = nlri {
        net::lemma_net_ranks(p, prefix, p.addr, p.addr);
        sorted_map::lemma_without::<Prefix, PrefixSlotView>(v.prefixes, Prefix::rank(p));
        if let EvpnEventView::Best { path, .. } = ev {
            sorted_map::lemma_put::<Prefix, PrefixSlotView>(
                v.prefixes,
                p,
                (PrefixSlotView { entry: entry_of(path, gw, label), owner: nlri }),
            );
        }
    }
}

/// A change to the EVPN table that comes twice changes nothing the second time.
pub proof fn lemma_again_changes_nothing(v: IpVrfView, ev: EvpnEventView)
    requires
        sorted_map::sorted::<Prefix, PrefixSlotView>(v.prefixes),
    ensures
        step(step(v, ev).0, ev) == (step(v, ev).0, None::<IpVrfChange>),
{
    let nlri = match ev {
        EvpnEventView::Best { nlri, .. } => nlri,
        EvpnEventView::Withdrawn(nlri) => nlri,
    };
    if let EvpnView::IpPrefix { prefix, gw, label, .. } = nlri {
        sorted_map::lemma_without::<Prefix, PrefixSlotView>(v.prefixes, Prefix::rank(prefix));
        if let EvpnEventView::Best { path, .. } = ev {
            let slot = PrefixSlotView { entry: entry_of(path, gw, label), owner: nlri };
            sorted_map::lemma_put::<Prefix, PrefixSlotView>(v.prefixes, prefix, slot);
            sorted_map::lemma_put_twice::<Prefix, PrefixSlotView>(v.prefixes, prefix, slot, slot);
        }
    }
}

/// An imported route says how its prefix is reached, whoever said so before: by its next
/// hop, under its label, through its gateway unless that is all zeros, with the service SID
/// and the router's MAC address that it tells. What is known of other prefixes stays.
pub proof fn lemma_what_a_route_says(
    v: IpVrfView,
    nlri: EvpnView,
    path: PathView,
    other: Prefix,
    i: int,
)
    requires
        sorted_map::sorted::<Prefix, PrefixSlotView>(v.prefixes),
        nlri is IpPrefix,
        evpn_rib::imported(v.import_rts, path.ext_communities),
        0 <= i < nlri->IpPrefix_gw.bytes().len(),
    ensures
        slot_at(
            step(v, (EvpnEventView::Best { nlri, path })).0,
            nlri->IpPrefix_prefix,
        ) matches Some(slot) && slot.owner == nlri && slot.entry.vtep == path.next_hop
            && slot.entry.vni == nlri->IpPrefix_label && slot.entry.router_mac
            == evpn_rib::router_mac_of(path.ext_communities) && (match path.srv6_sid {
            Some(s) => slot.entry.srv6_sid == Some(s.sid),
            None => slot.entry.srv6_sid is None,
        }) && (nlri->IpPrefix_gw.bytes()[i] != 0 ==> slot.entry.gw == Some(nlri->IpPrefix_gw)) && (
        slot.entry.gw is Some ==> slot.entry.gw == Some(nlri->IpPrefix_gw)) && (
        slot.entry.gw is None ==> nlri->IpPrefix_gw.bytes()[i] == 0) && ((forall|j: int|
            0 <= j < nlri->IpPrefix_gw.bytes().len() ==> #[trigger] nlri->IpPrefix_gw.bytes()[j] == 0)
            ==> slot.entry.gw is None),
        other != nlri->IpPrefix_prefix ==> slot_at(
            step(v, (EvpnEventView::Best { nlri, path })).0,
            other,
        ) == slot_at(v, other),
{
    if let EvpnView::IpPrefix { prefix, gw, label, .. } = nlri {
        net::lemma_net_ranks(prefix, other, prefix.addr, other.addr);
        sorted_map::lemma_put::<Prefix, PrefixSlotView>(
            v.prefixes,
            prefix,
            (PrefixSlotView { entry: entry_of(path, gw, label), owner: nlri }),
        );
    }
}

/// The route that says how a prefix is reached takes that away when it goes, and likewise
/// when it is no longer imported.
pub proof fn lemma_the_owner_takes_away(v: IpVrfView, nlri: EvpnView, path: PathView)
    requires
        sorted_map::sorted::<Prefix, PrefixSlotView>(v.prefixes),
        nlri is IpPrefix,
        slot_at(v, nlri->IpPrefix_prefix) matches Some(slot) && slot.owner == nlri,
    ensures
        slot_at(step(v, EvpnEventView::Withdrawn(nlri)).0, nlri->IpPrefix_prefix) is None,
        step(v, EvpnEventView::Withdrawn(nlri)).1 == Some(
            IpVrfChange::PrefixForgotten { prefix: nlri->IpPrefix_prefix },
        ),
        !evpn_rib::imported(v.import_rts, path.ext_communities) ==> step(
            v,
            (EvpnEventView::Best { nlri, path }),
        ) == step(v, EvpnEventView::Withdrawn(nlri)),
{
    sorted_map::lemma_without::<Prefix, PrefixSlotView>(
        v.prefixes,
        Prefix::rank(nlri->IpPrefix_prefix),
    );
}

} // verus!
