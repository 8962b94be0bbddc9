//! What one EVPN instance knows of remote MAC addresses and tunnel endpoints.

use vstd::prelude::*;

use crate::bgp::decision::{Path, PathView};
use crate::bgp::evpn::{same_mac, EvpnNlri, EvpnView};
use crate::bgp::evpn_rib;
use crate::bgp::evpn_rib::{
    carries, mac_mobility, router_mac, EvpnEventView, EvpnRibEvent, MacMobility,
};
use crate::bgp::srv6::Srv6Sid;
use crate::net;
use crate::net::IpAddr;
use crate::order::{dup_all, Datum, Ranked};
use crate::sorted_map;
use crate::sorted_map::SortedMap;
use crate::wire;

verus! {

/// Where frames for a remote MAC address go.
#[derive(Clone, Copy, PartialEq, Eq, Debug)]
pub struct RemoteMac {
    /// The other end of the tunnel: the next hop of the route.
    pub vtep: IpAddr,
    /// The L2 VNI.
    pub vni: u32,
    /// The IP address that is bound to the MAC address.
    pub ip: Option<IpAddr>,
    /// The SRv6 service SID, where the route has one.
    pub srv6_sid: Option<Srv6Sid>,
    /// The MAC address of the advertising router, where it tells it.
    pub router_mac: Option<[u8; 6]>,
}

/// A change to what an instance knows.
#[derive(Clone, Copy, PartialEq, Eq, Debug)]
pub enum EviChange {
    /// A MAC address is known, or where it is has changed.
    MacLearned { eth_tag: u32, mac: [u8; 6], entry: RemoteMac },
    /// A MAC address is no longer known.
    MacForgotten { eth_tag: u32, mac: [u8; 6] },
    /// Flooded frames go to one endpoint more.
    VtepAdded { vtep: IpAddr },
    /// Flooded frames no longer go to an endpoint.
    VtepRemoved { vtep: IpAddr },
}

/// A MAC address on an Ethernet tag.
#[derive(Clone, Copy, PartialEq, Eq, Debug)]
pub struct MacKey {
    pub eth_tag: u32,
    pub mac: [u8; 6],
}

impl View for MacKey {
    type V = MacKey;

    open spec fn view(&self) -> MacKey {
        *self
    }
}

impl Datum for MacKey {
    fn dup(&self) -> (r: MacKey) {
        *self
    }

    fn same(&self, other: &MacKey) -> (r: bool) {
        self.eth_tag == other.eth_tag && same_mac(&self.mac, &other.mac)
    }
}

impl Ranked for MacKey {
    /// By tag, then by address.
    open spec fn rank(key: MacKey) -> Seq<u64> {
        seq![key.eth_tag as u64] + net::numbers(key.mac@)
    }

    fn rank_of(&self) -> (r: Vec<u64>) {
        let mut out: Vec<u64> = Vec::new();
        out.push(self.eth_tag as u64);
        net::push_numbers(&mut out, self.mac.as_slice());
        assert(out@ =~= MacKey::rank(*self));
        out
    }
}

/// Keys of one rank are one key.
pub proof fn lemma_mac_rank(a: MacKey, b: MacKey)
    requires
        MacKey::rank(a) == MacKey::rank(b),
    ensures
        a == b,
{
    let (x, y) = (MacKey::rank(a), MacKey::rank(b));
    assert(x[0] == y[0]);
    assert(x.skip(1) =~= net::numbers(a.mac@));
    assert(y.skip(1) =~= net::numbers(b.mac@));
    net::lemma_numbers_injective(a.mac@, b.mac@);
    assert(a.mac =~= b.mac);
}

/// What is known of a MAC address, the route that says so, and its mobility.
pub struct MacSlot {
    pub entry: RemoteMac,
    pub owner: EvpnNlri,
    pub mobility: Option<MacMobility>,
}

/// The same as a mathematical value.
pub struct MacSlotView {
    pub entry: RemoteMac,
    pub owner: EvpnView,
    pub mobility: Option<MacMobility>,
}

impl View for MacSlot {
    type V = MacSlotView;

    open spec fn view(&self) -> MacSlotView {
        MacSlotView { entry: self.entry, owner: self.owner@, mobility: self.mobility }
    }
}

fn same_addr(a: &Option<IpAddr>, b: &Option<IpAddr>) -> (r: bool)
    ensures
        r == (*a == *b),
{
    match (a, b) {
        (Some(x), Some(y)) => x.same(y),
        (None, None) => true,
        _ => false,
    }
}

/// Whether two SIDs are one, or both are absent.
pub fn same_sid(a: &Option<Srv6Sid>, b: &Option<Srv6Sid>) -> (r: bool)
    ensures
        r == (*a == *b),
{
    match (a, b) {
        (Some(x), Some(y)) => {
            let r = wire::same_bytes(x.as_slice(), y.as_slice());
            assert(r ==> *x =~= *y);
            r
        },
        (None, None) => true,
        _ => false,
    }
}

/// Whether two MAC addresses are one, or both are absent.
pub fn same_router(a: &Option<[u8; 6]>, b: &Option<[u8; 6]>) -> (r: bool)
    ensures
        r == (*a == *b),
{
    match (a, b) {
        (Some(x), Some(y)) => same_mac(x, y),
        (None, None) => true,
        _ => false,
    }
}

impl RemoteMac {
    fn same(&self, other: &RemoteMac) -> (r: bool)
        ensures
            r == (*self == *other),
    {
        self.vtep.same(&other.vtep) && self.vni == other.vni && same_addr(&self.ip, &other.ip)
            && same_sid(&self.srv6_sid, &other.srv6_sid) && same_router(
            &self.router_mac,
            &other.router_mac,
        )
    }
}

impl Datum for MacSlot {
    fn dup(&self) -> (r: MacSlot) {
        MacSlot { entry: self.entry, owner: self.owner.dup(), mobility: self.mobility }
    }

    fn same(&self, other: &MacSlot) -> (r: bool) {
        self.entry.same(&other.entry) && self.owner.same(&other.owner) && self.mobility
            == other.mobility
    }
}

/// The service SID of a path.
pub open spec fn sid_of(p: PathView) -> Option<Srv6Sid> {
    match p.srv6_sid {
        Some(s) => Some(s.sid),
        None => None,
    }
}

/// The service SID of a path.
pub fn path_sid(p: &Path) -> (r: Option<Srv6Sid>)
    ensures
        r == sid_of(p@),
{
    match &p.srv6_sid {
        Some(s) => Some(s.sid),
        None => None,
    }
}

/// What a MAC/IP advertisement that came on a path says.
pub open spec fn entry_of(p: PathView, ip: Option<IpAddr>, label1: u32) -> RemoteMac {
    RemoteMac {
        vtep: p.next_hop,
        vni: label1,
        ip,
        srv6_sid: sid_of(p),
        router_mac: evpn_rib::router_mac_of(p.ext_communities),
    }
}

/// The sequence number; zero where none is told.
pub open spec fn seq_of(m: Option<MacMobility>) -> u32 {
    match m {
        Some(x) => x.seq,
        None => 0,
    }
}

/// Whether the address is told not to move.
pub open spec fn sticky_of(m: Option<MacMobility>) -> bool {
    match m {
        Some(x) => x.sticky,
        None => false,
    }
}

/// Whether a route may say where a MAC address is. The route that says it now always may.
/// Another may not where its sequence number is lower, nor where the address is told not to
/// move and the route does not tell so too, nor where both tell the same sequence number
/// for different endpoints.
pub open spec fn may_tell(
    now: Option<MacSlotView>,
    nlri: EvpnView,
    mob: Option<MacMobility>,
    vtep: IpAddr,
) -> bool {
    match now {
        None => true,
        Some(c) => c.owner == nlri || !(seq_of(mob) < seq_of(c.mobility) || (sticky_of(c.mobility)
            && !sticky_of(mob)) || (c.mobility is Some && mob is Some && seq_of(mob) == seq_of(
            c.mobility,
        ) && c.entry.vtep != vtep)),
    }
}

/// What an instance knows, as a mathematical value.
#[verifier::ext_equal]
pub struct EviView {
    pub import_rts: Seq<Seq<u8>>,
    pub macs: Seq<(MacKey, MacSlotView)>,
    pub vteps: Seq<(IpAddr, EvpnView)>,
}

/// What is known of a MAC address.
pub open spec fn slot_at(v: EviView, key: MacKey) -> Option<MacSlotView> {
    sorted_map::lookup::<MacKey, MacSlotView>(v.macs, MacKey::rank(key))
}

/// Where a MAC address is.
pub open spec fn mac_at(v: EviView, key: MacKey) -> Option<RemoteMac> {
    match slot_at(v, key) {
        Some(slot) => Some(slot.entry),
        None => None,
    }
}

/// The route that says that flooded frames go to an endpoint.
pub open spec fn vtep_at(v: EviView, vtep: IpAddr) -> Option<EvpnView> {
    sorted_map::lookup::<IpAddr, EvpnView>(v.vteps, IpAddr::rank(vtep))
}

/// A route goes: what it says is forgotten, and nothing where another route says it.
pub open spec fn forget(v: EviView, nlri: EvpnView) -> (EviView, Option<EviChange>) {
    match nlri {
        EvpnView::MacIp { eth_tag, mac, .. } => {
            let key = MacKey { eth_tag, mac };
            if slot_at(v, key) matches Some(slot) && slot.owner == nlri {
                (
                    EviView {
                        macs: sorted_map::without::<MacKey, MacSlotView>(
                            v.macs,
                            MacKey::rank(key),
                        ),
                        ..v
                    },
                    Some(EviChange::MacForgotten { eth_tag, mac }),
                )
            } else {
                (v, None)
            }
        },
        EvpnView::Imet { orig_ip, .. } => {
            if vtep_at(v, orig_ip) == Some(nlri) {
                (
                    EviView {
                        vteps: sorted_map::without::<IpAddr, EvpnView>(
                            v.vteps,
                            IpAddr::rank(orig_ip),
                        ),
                        ..v
                    },
                    Some(EviChange::VtepRemoved { vtep: orig_ip }),
                )
            } else {
                (v, None)
            }
        },
        _ => (v, None),
    }
}

/// An imported route comes: it says where a MAC address is, where it may, or that flooded
/// frames go to an endpoint.
pub open spec fn learn(v: EviView, nlri: EvpnView, p: PathView) -> (EviView, Option<EviChange>) {
    match nlri {
        EvpnView::MacIp { eth_tag, mac, ip, label1, .. } => {
            let key = MacKey { eth_tag, mac };
            let mob = evpn_rib::mobility_of(p.ext_communities);
            let entry = entry_of(p, ip, label1);
            if may_tell(slot_at(v, key), nlri, mob, p.next_hop) {
                (
                    EviView {
                        macs: sorted_map::put::<MacKey, MacSlotView>(
                            v.macs,
                            key,
                            (MacSlotView { entry, owner: nlri, mobility: mob }),
                        ),
                        ..v
                    },
                    if mac_at(v, key) == Some(entry) {
                        None
                    } else {
                        Some(EviChange::MacLearned { eth_tag, mac, entry })
                    },
                )
            } else {
                (v, None)
            }
        },
        EvpnView::Imet { orig_ip, .. } => {
            (
                EviView {
                    vteps: sorted_map::put::<IpAddr, EvpnView>(v.vteps, orig_ip, nlri),
                    ..v
                },
                if vtep_at(v, orig_ip) is Some {
                    None
                } else {
                    Some(EviChange::VtepAdded { vtep: orig_ip })
                },
            )
        },
        _ => (v, None),
    }
}

/// What an instance knows after a change to the EVPN table, and how it changed. A route
/// that is not imported counts as one that goes.
pub open spec fn step(v: EviView, ev: EvpnEventView) -> (EviView, Option<EviChange>) {
    match ev {
        EvpnEventView::Best { nlri, path } => if evpn_rib::imported(
            v.import_rts,
            path.ext_communities,
        ) {
            learn(v, nlri, path)
        } else {
            forget(v, nlri)
        },
        EvpnEventView::Withdrawn(nlri) => forget(v, nlri),
    }
}

/// Whether a route speaks of a MAC address.
pub open spec fn speaks_of(nlri: EvpnView, key: MacKey) -> bool {
    nlri matches EvpnView::MacIp { eth_tag, mac, .. } && eth_tag == key.eth_tag && mac == key.mac
}

/// Whether a route speaks of an endpoint.
pub open spec fn floods_to(nlri: EvpnView, vtep: IpAddr) -> bool {
    nlri matches EvpnView::Imet { orig_ip, .. } && orig_ip == vtep
}

/// Whether what is known is in order: sorted, and everything said by a route that speaks of
/// it.
pub open spec fn evi_ok(v: EviView) -> bool {
    &&& sorted_map::sorted::<MacKey, MacSlotView>(v.macs)
    &&& sorted_map::sorted::<IpAddr, EvpnView>(v.vteps)
    &&& forall|i: int|
        0 <= i < v.macs.len() ==> speaks_of((#[trigger] v.macs[i]).1.owner, v.macs[i].0)
    &&& forall|i: int| 0 <= i < v.vteps.len() ==> floods_to((#[trigger] v.vteps[i]).1, v.vteps[i].0)
}

/// One instance: the Route Targets that it imports, and what it knows.
pub struct EviTable {
    pub import_rts: Vec<[u8; 8]>,
    macs: SortedMap<MacKey, MacSlot>,
    vteps: SortedMap<IpAddr, EvpnNlri>,
}

impl View for EviTable {
    type V = EviView;

    closed spec fn view(&self) -> EviView {
        EviView {
            import_rts: wire::views(self.import_rts@),
            macs: self.macs@,
            vteps: self.vteps@,
        }
    }
}

impl Clone for EviTable {
    fn clone(&self) -> (r: EviTable)
        ensures
            self.wf() ==> r.wf() && r@ == self@,
    {
        EviTable {
            import_rts: dup_all(self.import_rts.as_slice()),
            macs: self.macs.clone(),
            vteps: self.vteps.clone(),
        }
    }
}

impl EviTable {
    /// What is known is in order.
    pub closed spec fn wf(&self) -> bool {
        self.macs.wf() && self.vteps.wf() && evi_ok(self@)
    }

    /// Everything known is said by a route that speaks of it.
    pub proof fn lemma_wf(&self)
        requires
            self.wf(),
        ensures
            evi_ok(self@),
    {
    }

    /// An instance that imports some Route Targets and knows nothing.
    pub fn new(import_rts: Vec<[u8; 8]>) -> (r: EviTable)
        ensures
            r.wf(),
            r@ == (EviView {
                import_rts: wire::views(import_rts@),
                macs: Seq::empty(),
                vteps: Seq::empty(),
            }),
    {
        EviTable { import_rts, macs: SortedMap::new(), vteps: SortedMap::new() }
    }

    /// Whether the instance imports what came on a path.
    pub fn imports(&self, path: &Path) -> (r: bool)
        ensures
            r == evpn_rib::imported(self@.import_rts, path@.ext_communities),
    {
        carries(&self.import_rts, path)
    }

    /// Take a change to the EVPN table; returns what changed here.
    pub fn apply(&mut self, ev: &EvpnRibEvent) -> (r: Option<EviChange>)
        requires
            old(self).wf(),
        ensures
            final(self).wf(),
            (final(self)@, r) == step(old(self)@, ev@),
    {
        match ev {
            EvpnRibEvent::Best { nlri, path } => {
                if !self.imports(path) {
                    return self.remove_if_owner(nlri);
                }
                match nlri {
                    EvpnNlri::MacIp { eth_tag, mac, ip, label1, .. } => self.learn_mac(
                        nlri,
                        path,
                        *eth_tag,
                        *mac,
                        *ip,
                        *label1,
                    ),
                    EvpnNlri::Imet { orig_ip, .. } => self.learn_vtep(nlri, path, *orig_ip),
                    _ => None,
                }
            },
            EvpnRibEvent::Withdrawn(nlri) => self.remove_if_owner(nlri),
        }
    }

    fn learn_mac(
        &mut self,
        nlri: &EvpnNlri,
        path: &Path,
        eth_tag: u32,
        mac: [u8; 6],
        ip: Option<IpAddr>,
        label1: u32,
    ) -> (r: Option<EviChange>)
        requires
            old(self).wf(),
            nlri@ matches EvpnView::MacIp { eth_tag: t, mac: m, ip: i, label1: l, .. } && t
                == eth_tag && m == mac && i == ip && l == label1,
        ensures
            final(self).wf(),
            (final(self)@, r) == learn(old(self)@, nlri@, path@),
    {
        let key = MacKey { eth_tag, mac };
        let mob = mac_mobility(path);
        let entry = RemoteMac {
            vtep: path.next_hop,
            vni: label1,
            ip,
            srv6_sid: path_sid(path),
            router_mac: router_mac(path),
        };
        let mut changed = true;
        if let Some(now) = self.macs.get(&key) {
            let same_owner = now.owner.same(nlri);
            let (now_seq, now_sticky) = match now.mobility {
                Some(m) => (m.seq, m.sticky),
                None => (0u32, false),
            };
            let (new_seq, new_sticky) = match mob {
                Some(m) => (m.seq, m.sticky),
                None => (0u32, false),
            };
            let stale = new_seq < now_seq;
            let blocked = now_sticky && !new_sticky;
            let duplicate = now.mobility.is_some() && mob.is_some() && new_seq == now_seq
                && !now.entry.vtep.same(&path.next_hop);
            if !same_owner && (stale || blocked || duplicate) {
                return None;
            }
            changed = !now.entry.same(&entry);
        }
        let slot = MacSlot { entry, owner: nlri.dup(), mobility: mob };
        proof {
            lemma_put_mac_ok(self@, key, slot@);
        }
        self.macs.insert(key, slot);
        if changed {
            Some(EviChange::MacLearned { eth_tag, mac, entry })
        } else {
            None
        }
    }

    fn learn_vtep(&mut self, nlri: &EvpnNlri, path: &Path, orig_ip: IpAddr) -> (r: Option<
        EviChange,
    >)
        requires
            old(self).wf(),
            floods_to(nlri@, orig_ip),
        ensures
            final(self).wf(),
            (final(self)@, r) == learn(old(self)@, nlri@, path@),
    {
        let known = self.vteps.get(&orig_ip).is_some();
        proof {
            lemma_put_vtep_ok(self@, orig_ip, nlri@);
        }
        self.vteps.insert(orig_ip, nlri.dup());
        if known {
            None
        } else {
            Some(EviChange::VtepAdded { vtep: orig_ip })
        }
    }

    fn remove_if_owner(&mut self, nlri: &EvpnNlri) -> (r: Option<EviChange>)
        requires
            old(self).wf(),
        ensures
            final(self).wf(),
            (final(self)@, r) == forget(old(self)@, nlri@),
    {
        match nlri {
            EvpnNlri::MacIp { eth_tag, mac, .. } => {
                let key = MacKey { eth_tag: *eth_tag, mac: *mac };
                let owned = match self.macs.get(&key) {
                    Some(slot) => slot.owner.same(nlri),
                    None => false,
                };
                if !owned {
                    return None;
                }
                proof {
                    lemma_drop_mac_ok(self@, key);
                }
                self.macs.remove(&key);
                Some(EviChange::MacForgotten { eth_tag: *eth_tag, mac: *mac })
            },
            EvpnNlri::Imet { orig_ip, .. } => {
                let owned = match self.vteps.get(orig_ip) {
                    Some(owner) => owner.same(nlri),
                    None => false,
                };
                if !owned {
                    return None;
                }
                proof {
                    lemma_drop_vtep_ok(self@, *orig_ip);
                }
                self.vteps.remove(orig_ip);
                Some(EviChange::VtepRemoved { vtep: *orig_ip })
            },
            _ => None,
        }
    }

    /// The known MAC addresses, by tag and address.
    pub fn iter_macs(&self) -> (r: Vec<((u32, [u8; 6]), &RemoteMac)>)
        requires
            self.wf(),
        ensures
            r@.len() == self@.macs.len(),
            forall|i: int|
                #![trigger r@[i]]
                0 <= i < r@.len() ==> r@[i].0 == (self@.macs[i].0.eth_tag, self@.macs[i].0.mac)
                    && *r@[i].1 == self@.macs[i].1.entry,
    {
        let mut out: Vec<((u32, [u8; 6]), &RemoteMac)> = Vec::new();
        let mut i: usize = 0;
        while i < self.macs.len()
            invariant
                self.wf(),
                i <= self@.macs.len(),
                out@.len() == i,
                forall|j: int|
                    #![trigger out@[j]]
                    0 <= j < i ==> out@[j].0 == (self@.macs[j].0.eth_tag, self@.macs[j].0.mac)
                        && *out@[j].1 == self@.macs[j].1.entry,
            decreases self@.macs.len() - i,
        {
            let key = self.macs.key(i);
            out.push(((key.eth_tag, key.mac), &self.macs.value(i).entry));
            i = i + 1;
        }
        out
    }

    /// The endpoints to which flooded frames go, in order.
    pub fn iter_vteps(&self) -> (r: Vec<IpAddr>)
        ensures
            r@ == Seq::new(self@.vteps.len(), |i: int| self@.vteps[i].0),
    {
        let mut out: Vec<IpAddr> = Vec::new();
        let mut i: usize = 0;
        while i < self.vteps.len()
            invariant
                i <= self@.vteps.len(),
                out@.len() == i,
                forall|j: int| 0 <= j < i ==> #[trigger] out@[j] == self@.vteps[j].0,
            decreases self@.vteps.len() - i,
        {
            out.push(*self.vteps.key(i));
            i = i + 1;
        }
        assert(out@ =~= Seq::new(self@.vteps.len(), |i: int| self@.vteps[i].0));
        out
    }

    /// Where a MAC address is; `None` where it is not known.
    pub fn lookup_mac(&self, eth_tag: u32, mac: [u8; 6]) -> (r: Option<&RemoteMac>)
        requires
            self.wf(),
        ensures
            match r {
                Some(e) => mac_at(self@, (MacKey { eth_tag, mac })) == Some(*e),
                None => mac_at(self@, (MacKey { eth_tag, mac })) is None,
            },
    {
        match self.macs.get(&MacKey { eth_tag, mac }) {
            Some(slot) => Some(&slot.entry),
            None => None,
        }
    }
}

proof fn lemma_put_mac_ok(v: EviView, key: MacKey, slot: MacSlotView)
    requires
        evi_ok(v),
        speaks_of(slot.owner, key),
    ensures
        evi_ok(
            (EviView { macs: sorted_map::put::<MacKey, MacSlotView>(v.macs, key, slot), ..v }),
        ),
{
    let r = MacKey::rank(key);
    let t = sorted_map::put::<MacKey, MacSlotView>(v.macs, key, slot);
    sorted_map::lemma_put::<MacKey, MacSlotView>(v.macs, key, slot);
    sorted_map::lemma_slot::<MacKey, MacSlotView>(v.macs, r);
    let p = sorted_map::slot::<MacKey, MacSlotView>(v.macs, r);
    assert forall|i: int| 0 <= i < t.len() implies speaks_of((#[trigger] t[i]).1.owner, t[i].0) by {
        if i == p {
            lemma_mac_rank(t[i].0, key);
        } else if t.len() == v.macs.len() || i < p {
            assert(t[i] == v.macs[i]);
        } else {
            assert(t[i] == v.macs[i - 1]);
        }
    }
}

proof fn lemma_put_vtep_ok(v: EviView, vtep: IpAddr, nlri: EvpnView)
    requires
        evi_ok(v),
        floods_to(nlri, vtep),
    ensures
        evi_ok((EviView { vteps: sorted_map::put::<IpAddr, EvpnView>(v.vteps, vtep, nlri), ..v })),
{
    let r = IpAddr::rank(vtep);
    let t = sorted_map::put::<IpAddr, EvpnView>(v.vteps, vtep, nlri);
    sorted_map::lemma_put::<IpAddr, EvpnView>(v.vteps, vtep, nlri);
    sorted_map::lemma_slot::<IpAddr, EvpnView>(v.vteps, r);
    let p = sorted_map::slot::<IpAddr, EvpnView>(v.vteps, r);
    assert forall|i: int| 0 <= i < t.len() implies floods_to((#[trigger] t[i]).1, t[i].0) by {
        if i == p {
            let e = Seq::<u64>::empty();
            assert(IpAddr::rank(t[i].0) + e =~= IpAddr::rank(vtep) + e);
            net::lemma_addr_rank(t[i].0, e, vtep, e);
        } else if t.len() == v.vteps.len() || i < p {
            assert(t[i] == v.vteps[i]);
        } else {
            assert(t[i] == v.vteps[i - 1]);
        }
    }
}

proof fn lemma_drop_mac_ok(v: EviView, key: MacKey)
    requires
        evi_ok(v),
    ensures
        evi_ok(
            (EviView {
                macs: sorted_map::without::<MacKey, MacSlotView>(v.macs, MacKey::rank(key)),
                ..v
            }),
        ),
{
    let r = MacKey::rank(key);
    let t = sorted_map::without::<MacKey, MacSlotView>(v.macs, r);
    sorted_map::lemma_without::<MacKey, MacSlotView>(v.macs, r);
    sorted_map::lemma_slot::<MacKey, MacSlotView>(v.macs, r);
    let p = sorted_map::slot::<MacKey, MacSlotView>(v.macs, r);
    assert forall|i: int| 0 <= i < t.len() implies speaks_of((#[trigger] t[i]).1.owner, t[i].0) by {
        if t.len() == v.macs.len() || i < p {
            assert(t[i] == v.macs[i]);
        } else {
            assert(t[i] == v.macs[i + 1]);
        }
    }
}

proof fn lemma_drop_vtep_ok(v: EviView, vtep: IpAddr)
    requires
        evi_ok(v),
    ensures
        evi_ok(
            (EviView {
                vteps: sorted_map::without::<IpAddr, EvpnView>(v.vteps, IpAddr::rank(vtep)),
                ..v
            }),
        ),
{
    let r = IpAddr::rank(vtep);
    let t = sorted_map::without::<IpAddr, EvpnView>(v.vteps, r);
    sorted_map::lemma_without::<IpAddr, EvpnView>(v.vteps, r);
    sorted_map::lemma_slot::<IpAddr, EvpnView>(v.vteps, r);
    let p = sorted_map::slot::<IpAddr, EvpnView>(v.vteps, r);
    assert forall|i: int| 0 <= i < t.len() implies floods_to((#[trigger] t[i]).1, t[i].0) by {
        if t.len() == v.vteps.len() || i < p {
            assert(t[i] == v.vteps[i]);
        } else {
            assert(t[i] == v.vteps[i + 1]);
        }
    }
}

/// A route that does not say where a MAC address is takes nothing away when it goes.
pub proof fn lemma_only_the_owner_takes_away(v: EviView, nlri: EvpnView)
    requires
        nlri matches EvpnView::MacIp { eth_tag, mac, .. } ==> (slot_at(
            v,
            (MacKey { eth_tag, mac }),
        ) matches Some(slot) ==> slot.owner != nlri),
        nlri matches EvpnView::Imet { orig_ip, .. } ==> vtep_at(v, orig_ip) != Some(nlri),
    ensures
        step(v, EvpnEventView::Withdrawn(nlri)) == (v, None::<EviChange>),
{
}

/// A route that is not imported counts as one that goes.
pub proof fn lemma_not_imported_is_withdrawn(v: EviView, nlri: EvpnView, path: PathView)
    requires
        !evpn_rib::imported(v.import_rts, path.ext_communities),
    ensures
        step(v, (EvpnEventView::Best { nlri, path })) == step(v, EvpnEventView::Withdrawn(nlri)),
{
}

/// Another route than the one that says where a MAC address is does not move it with a lower
/// sequence number, nor where the address is told not to move and the route does not tell so
/// too, nor to another endpoint where both tell one sequence number.
pub proof fn lemma_no_stale_move(
    v: EviView,
    nlri: EvpnView,
    path: PathView,
    key: MacKey,
    now: MacSlotView,
)
    requires
        speaks_of(nlri, key),
        evpn_rib::imported(v.import_rts, path.ext_communities),
        slot_at(v, key) == Some(now),
        now.owner != nlri,
        ({
            let mob = evpn_rib::mobility_of(path.ext_communities);
            seq_of(mob) < seq_of(now.mobility) || (sticky_of(now.mobility) && !sticky_of(mob)) || (
            now.mobility is Some && mob is Some && seq_of(mob) == seq_of(now.mobility)
                && now.entry.vtep != path.next_hop)
        }),
    ensures
        step(v, (EvpnEventView::Best { nlri, path })) == (v, None::<EviChange>),
{
}

/// A higher sequence number moves a MAC address that may move.
pub proof fn lemma_move(v: EviView, nlri: EvpnView, path: PathView, key: MacKey)
    requires
        evi_ok(v),
        speaks_of(nlri, key),
        evpn_rib::imported(v.import_rts, path.ext_communities),
        slot_at(v, key) matches Some(now) ==> ({
            let mob = evpn_rib::mobility_of(path.ext_communities);
            seq_of(mob) > seq_of(now.mobility) && !sticky_of(now.mobility)
        }),
    ensures
        mac_at(step(v, (EvpnEventView::Best { nlri, path })).0, key) matches Some(e) && e.vtep
            == path.next_hop,
{
    if let EvpnView::MacIp { eth_tag, mac, ip, label1, .. } = nlri {
        assert(key == (MacKey { eth_tag, mac }));
        sorted_map::lemma_put::<MacKey, MacSlotView>(
            v.macs,
            key,
            (MacSlotView {
                entry: entry_of(path, ip, label1),
                owner: nlri,
                mobility: evpn_rib::mobility_of(path.ext_communities),
            }),
        );
    }
}

/// What a change says of a MAC address: its place after the change, where it is the one that
/// changed.
pub open spec fn told_mac(c: Option<EviChange>, key: MacKey, was: Option<RemoteMac>) -> Option<
    RemoteMac,
> {
    match c {
        Some(EviChange::MacLearned { eth_tag, mac, entry }) => if eth_tag == key.eth_tag && mac
            == key.mac {
            Some(entry)
        } else {
            was
        },
        Some(EviChange::MacForgotten { eth_tag, mac }) => if eth_tag == key.eth_tag && mac
            == key.mac {
            None
        } else {
            was
        },
        _ => was,
    }
}

/// What a change says of an endpoint: whether flooded frames go there after it.
pub open spec fn told_vtep(c: Option<EviChange>, at: IpAddr, was: bool) -> bool {
    match c {
        Some(EviChange::VtepAdded { vtep }) => was || vtep == at,
        Some(EviChange::VtepRemoved { vtep }) => was && vtep != at,
        _ => was,
    }
}

/// Whoever follows the changes knows where every MAC address is and to which endpoints
/// flooded frames go, and no change says what was known.
pub proof fn lemma_changes_tell_all(v: EviView, ev: EvpnEventView, key: MacKey, vtep: IpAddr)
    requires
        evi_ok(v),
    ensures
        mac_at(step(v, ev).0, key) == told_mac(step(v, ev).1, key, mac_at(v, key)),
        vtep_at(step(v, ev).0, vtep) is Some == told_vtep(
            step(v, ev).1,
            vtep,
            vtep_at(v, vtep) is Some,
        ),
        step(v, ev).1 matches Some(EviChange::MacLearned { eth_tag, mac, entry }) ==> mac_at(
            v,
            (MacKey { eth_tag, mac }),
        ) != Some(entry),
        step(v, ev).1 matches Some(EviChange::VtepAdded { vtep: x }) ==> vtep_at(v, x) is None,
{
    let nlri = match ev {
        EvpnEventView::Best { nlri, .. } => nlri,
        EvpnEventView::Withdrawn(nlri) => nlri,
    };
    match nlri {
        EvpnView::MacIp { eth_tag, mac, ip, label1, .. } => {
            let k = MacKey { eth_tag, mac };
            if MacKey::rank(key) == MacKey::rank(k) {
                lemma_mac_rank(key, k);
            }
            sorted_map::lemma_without::<MacKey, MacSlotView>(v.macs, MacKey::rank(k));
            if let EvpnEventView::Best { path, .. } = ev {
                sorted_map::lemma_put::<MacKey, MacSlotView>(
                    v.macs,
                    k,
                    (MacSlotView {
                        entry: entry_of(path, ip, label1),
                        owner: nlri,
                        mobility: evpn_rib::mobility_of(path.ext_communities),
                    }),
                );
            }
        },
        EvpnView::Imet { orig_ip, .. } => {
            if IpAddr::rank(vtep) == IpAddr::rank(orig_ip) {
                let e = Seq::<u64>::empty();
                assert(IpAddr::rank(vtep) + e =~= IpAddr::rank(orig_ip) + e);
                net::lemma_addr_rank(vtep, e, orig_ip, e);
            }
            sorted_map::lemma_without::<IpAddr, EvpnView>(v.vteps, IpAddr::rank(orig_ip));
            sorted_map::lemma_put::<IpAddr, EvpnView>(v.vteps, orig_ip, nlri);
        },
        _ => {},
    }
}

/// A change to the EVPN table that comes twice changes nothing the second time.
pub proof fn lemma_again_changes_nothing(v: EviView, ev: EvpnEventView)
    requires
        evi_ok(v),
    ensures
        step(step(v, ev).0, ev) == (step(v, ev).0, None::<EviChange>),
{
    let nlri = match ev {
        EvpnEventView::Best { nlri, .. } => nlri,
        EvpnEventView::Withdrawn(nlri) => nlri,
    };
    let w = step(v, ev).0;
    match nlri {
        EvpnView::MacIp { eth_tag, mac, ip, label1, .. } => {
            let k = MacKey { eth_tag, mac };
            sorted_map::lemma_without::<MacKey, MacSlotView>(v.macs, MacKey::rank(k));
            if let EvpnEventView::Best { path, .. } = ev {
                let slot = MacSlotView {
                    entry: entry_of(path, ip, label1),
                    owner: nlri,
                    mobility: evpn_rib::mobility_of(path.ext_communities),
                };
                sorted_map::lemma_put::<MacKey, MacSlotView>(v.macs, k, slot);
                sorted_map::lemma_put_twice::<MacKey, MacSlotView>(v.macs, k, slot, slot);
            }
        },
        EvpnView::Imet { orig_ip, .. } => {
            sorted_map::lemma_without::<IpAddr, EvpnView>(v.vteps, IpAddr::rank(orig_ip));
            sorted_map::lemma_put::<IpAddr, EvpnView>(v.vteps, orig_ip, nlri);
            sorted_map::lemma_put_twice::<IpAddr, EvpnView>(v.vteps, orig_ip, nlri, nlri);
        },
        _ => {},
    }
}

/// What a route that may tell is taken to say: frames go to its next hop under its first
/// label, with the IP address, the service SID and the router's MAC address that it tells.
/// It speaks for the MAC address from then on.
pub proof fn lemma_what_a_route_says(v: EviView, nlri: EvpnView, path: PathView, key: MacKey)
    requires
        evi_ok(v),
        speaks_of(nlri, key),
        evpn_rib::imported(v.import_rts, path.ext_communities),
        slot_at(v, key) is None || (slot_at(v, key)->0).owner == nlri,
    ensures
        slot_at(step(v, (EvpnEventView::Best { nlri, path })).0, key) matches Some(slot)
            && slot.owner == nlri && slot.mobility == evpn_rib::mobility_of(path.ext_communities)
            && slot.entry.vtep == path.next_hop && slot.entry.vni == nlri->MacIp_label1
            && slot.entry.ip == nlri->MacIp_ip && slot.entry.router_mac
            == evpn_rib::router_mac_of(path.ext_communities) && (match path.srv6_sid {
            Some(s) => slot.entry.srv6_sid == Some(s.sid),
            None => slot.entry.srv6_sid is None,
        }),
{
    if let EvpnView::MacIp { eth_tag, mac, ip, label1, .. } = nlri {
        assert(key == (MacKey { eth_tag, mac }));
        sorted_map::lemma_put::<MacKey, MacSlotView>(
            v.macs,
            key,
            (MacSlotView {
                entry: entry_of(path, ip, label1),
                owner: nlri,
                mobility: evpn_rib::mobility_of(path.ext_communities),
            }),
        );
    }
}

/// When another route takes a MAC address over, by what the two tell of its mobility: where
/// neither tells anything the newcomer does; where only one tells a sequence number, the
/// other counts as zero; where both do, the higher one wins, and the same one only towards
/// the same endpoint; and an address that is told not to move goes only to a route that
/// tells so too.
pub proof fn lemma_who_takes_over(
    v: EviView,
    nlri: EvpnView,
    path: PathView,
    key: MacKey,
    now: MacSlotView,
)
    requires
        evi_ok(v),
        speaks_of(nlri, key),
        evpn_rib::imported(v.import_rts, path.ext_communities),
        slot_at(v, key) == Some(now),
        now.owner != nlri,
    ensures
        ({
            let t = slot_at(step(v, (EvpnEventView::Best { nlri, path })).0, key);
            let taken = t matches Some(slot) && slot.owner == nlri;
            let may = match (now.mobility, evpn_rib::mobility_of(path.ext_communities)) {
                (None, None) => true,
                (None, Some(n)) => true,
                (Some(o), None) => o.seq == 0 && !o.sticky,
                (Some(o), Some(n)) => (n.seq > o.seq || (n.seq == o.seq && now.entry.vtep
                    == path.next_hop)) && (o.sticky ==> n.sticky),
            };
            &&& taken == may
            &&& !may ==> t == Some(now)
        }),
{
    if let EvpnView::MacIp { eth_tag, mac, ip, label1, .. } = nlri {
        assert(key == (MacKey { eth_tag, mac }));
        sorted_map::lemma_put::<MacKey, MacSlotView>(
            v.macs,
            key,
            (MacSlotView {
                entry: entry_of(path, ip, label1),
                owner: nlri,
                mobility: evpn_rib::mobility_of(path.ext_communities),
            }),
        );
    }
}

/// The route that says where a MAC address is takes that away when it goes or is no longer
/// imported, and so does the route of an endpoint; an endpoint is there once a route tells
/// it. What is known of other addresses and endpoints stays.
pub proof fn lemma_the_owner_takes_away(
    v: EviView,
    nlri: EvpnView,
    path: PathView,
    key: MacKey,
    vtep: IpAddr,
)
    requires
        evi_ok(v),
    ensures
        speaks_of(nlri, key) && (slot_at(v, key) matches Some(slot) && slot.owner == nlri) ==> slot_at(
            step(v, EvpnEventView::Withdrawn(nlri)).0,
            key,
        ) is None && step(v, EvpnEventView::Withdrawn(nlri)).1 == Some(
            EviChange::MacForgotten { eth_tag: key.eth_tag, mac: key.mac },
        ),
        floods_to(nlri, vtep) && vtep_at(v, vtep) == Some(nlri) ==> vtep_at(
            step(v, EvpnEventView::Withdrawn(nlri)).0,
            vtep,
        ) is None && step(v, EvpnEventView::Withdrawn(nlri)).1 == Some(
            EviChange::VtepRemoved { vtep },
        ),
        floods_to(nlri, vtep) && evpn_rib::imported(v.import_rts, path.ext_communities) ==> vtep_at(
            step(v, (EvpnEventView::Best { nlri, path })).0,
            vtep,
        ) == Some(nlri),
        !speaks_of(nlri, key) ==> slot_at(step(v, (EvpnEventView::Best { nlri, path })).0, key)
            == slot_at(v, key) && slot_at(step(v, EvpnEventView::Withdrawn(nlri)).0, key)
            == slot_at(v, key),
        !floods_to(nlri, vtep) ==> vtep_at(step(v, (EvpnEventView::Best { nlri, path })).0, vtep)
            == vtep_at(v, vtep) && vtep_at(step(v, EvpnEventView::Withdrawn(nlri)).0, vtep)
            == vtep_at(v, vtep),
        step(v, (EvpnEventView::Best { nlri, path })).0.import_rts == v.import_rts,
{
    match nlri {
        EvpnView::MacIp { eth_tag, mac, ip, label1, .. } => {
            let k = MacKey { eth_tag, mac };
            if MacKey::rank(key) == MacKey::rank(k) {
                lemma_mac_rank(key, k);
            }
            sorted_map::lemma_without::<MacKey, MacSlotView>(v.macs, MacKey::rank(k));
            sorted_map::lemma_put::<MacKey, MacSlotView>(
                v.macs,
                k,
                (MacSlotView {
                    entry: entry_of(path, ip, label1),
                    owner: nlri,
                    mobility: evpn_rib::mobility_of(path.ext_communities),
                }),
            );
        },
        EvpnView::Imet { orig_ip, .. } => {
            if IpAddr::rank(vtep) == IpAddr::rank(orig_ip) {
                let e = Seq::<u64>::empty();
                assert(IpAddr::rank(vtep) + e =~= IpAddr::rank(orig_ip) + e);
                net::lemma_addr_rank(vtep, e, orig_ip, e);
            }
            sorted_map::lemma_without::<IpAddr, EvpnView>(v.vteps, IpAddr::rank(orig_ip));
            sorted_map::lemma_put::<IpAddr, EvpnView>(v.vteps, orig_ip, nlri);
        },
        _ => {},
    }
}

/// MAC addresses stand in the order of their tags, and those of one tag in that of their
/// octets.
pub proof fn lemma_macs_stand_in_order(a: MacKey, b: MacKey, k: int)
    ensures
        a.eth_tag < b.eth_tag ==> crate::order::before(MacKey::rank(a), MacKey::rank(b)),
        a.eth_tag == b.eth_tag && 0 <= k < 6 && a.mac@[k] < b.mac@[k] && (forall|i: int|
            0 <= i < k ==> a.mac@[i] == b.mac@[i]) ==> crate::order::before(
            MacKey::rank(a),
            MacKey::rank(b),
        ),
{
    let (x, y) = (MacKey::rank(a), MacKey::rank(b));
    if a.eth_tag < b.eth_tag {
        crate::order::lemma_first_difference_decides(x, y, 0);
    } else if a.eth_tag == b.eth_tag && 0 <= k < 6 && a.mac@[k] < b.mac@[k] && (forall|i: int|
        0 <= i < k ==> a.mac@[i] == b.mac@[i]) {
        assert forall|i: int| 0 <= i < k + 1 implies x[i] == y[i] by {
            if i > 0 {
                assert(a.mac@[i - 1] == b.mac@[i - 1]);
            }
        }
        crate::order::lemma_first_difference_decides(x, y, k + 1);
    }
}

} // verus!
