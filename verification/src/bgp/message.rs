//! Messages (RFC 4271 §4): a header of a marker, a length and a type, and a body.

use vstd::prelude::*;
use vstd::string::*;

use crate::bgp;
use crate::bgp::attr;
use crate::bgp::attr::{AttrOutcome, AttrView, OutcomeView, PathAttribute};
use crate::bgp::capability;
use crate::bgp::capability::{
    encode_optional_parameters, parse_optional_parameters, Capability, CapabilityView,
};
use crate::bgp::evpn::{AFI_L2VPN, SAFI_EVPN};
use crate::bgp::flowspec::SAFI_FLOWSPEC;
use crate::bgp::link_state::{AFI_LINK_STATE, SAFI_LINK_STATE};
use crate::bgp::sr_policy::SAFI_SR_POLICY;
use crate::bgp::{
    as_trans_fit, decode_prefix, encode_prefix, MessageType, AFI_IPV4, AFI_IPV6,
    DEFAULT_RESTART_TIME, HEADER_LEN, MAX_MESSAGE_LEN, SAFI_UNICAST, VERSION,
};
use crate::net;
use crate::net::{Ipv4Addr, Prefix};
use crate::run;
use crate::run::{Plain, Record};
use crate::text;
use crate::wire;

verus! {

/// The body of an OPEN message (§4.2).
#[derive(Clone, PartialEq, Eq, Debug)]
pub struct Open {
    pub version: u8,
    /// The AS number of the sender, or its stand-in where it does not fit.
    pub my_as: u16,
    /// In seconds.
    pub hold_time: u16,
    pub identifier: Ipv4Addr,
    pub capabilities: Vec<Capability>,
}

/// The body of an OPEN message as a mathematical value.
#[verifier::ext_equal]
pub struct OpenView {
    pub version: u8,
    pub my_as: u16,
    pub hold_time: u16,
    pub identifier: Ipv4Addr,
    pub capabilities: Seq<CapabilityView>,
}

impl View for Open {
    type V = OpenView;

    open spec fn view(&self) -> OpenView {
        OpenView {
            version: self.version,
            my_as: self.my_as,
            hold_time: self.hold_time,
            identifier: self.identifier,
            capabilities: wire::views(self.capabilities@),
        }
    }
}

/// The capabilities that a speaker of an AS offers: its AS number, both unicast families,
/// route refresh, and graceful restart with forwarding that goes on.
pub open spec fn offered(local_as: u32) -> Seq<CapabilityView> {
    seq![
        CapabilityView::FourOctetAs(local_as),
        CapabilityView::Multiprotocol { afi: 1, safi: 1 },
        CapabilityView::Multiprotocol { afi: 2, safi: 1 },
        CapabilityView::RouteRefresh,
        CapabilityView::GracefulRestart {
            restart_state: false,
            restart_time: DEFAULT_RESTART_TIME,
            families: seq![(1u16, 1u8, true), (2u16, 1u8, true)],
        },
    ]
}

/// The first AS number among capabilities.
pub open spec fn first_as(caps: Seq<CapabilityView>) -> Option<u32>
    decreases caps.len(),
{
    if caps.len() == 0 {
        None
    } else if let CapabilityView::FourOctetAs(asn) = caps[0] {
        Some(asn)
    } else {
        first_as(caps.drop_first())
    }
}

/// The first restart time among capabilities.
pub open spec fn first_restart(caps: Seq<CapabilityView>) -> Option<u16>
    decreases caps.len(),
{
    if caps.len() == 0 {
        None
    } else if let CapabilityView::GracefulRestart { restart_time, .. } = caps[0] {
        Some(restart_time)
    } else {
        first_restart(caps.drop_first())
    }
}

/// What the first entry of a family says of several paths.
pub open spec fn family_paths(fs: Seq<(u16, u8, u8)>, afi: u16, safi: u8) -> Option<u8>
    decreases fs.len(),
{
    if fs.len() == 0 {
        None
    } else if fs[0].0 == afi && fs[0].1 == safi {
        Some(fs[0].2)
    } else {
        family_paths(fs.drop_first(), afi, safi)
    }
}

/// What the first capability that names a family says of several paths.
pub open spec fn first_paths(caps: Seq<CapabilityView>, afi: u16, safi: u8) -> Option<u8>
    decreases caps.len(),
{
    if caps.len() == 0 {
        None
    } else {
        match caps[0] {
            CapabilityView::AddPath(fs) => match family_paths(fs, afi, safi) {
                Some(sr) => Some(sr),
                None => first_paths(caps.drop_first(), afi, safi),
            },
            _ => first_paths(caps.drop_first(), afi, safi),
        }
    }
}

/// Whether a capability says that forwarding of a family goes on.
pub open spec fn preserves(c: CapabilityView, afi: u16, safi: u8) -> bool {
    match c {
        CapabilityView::GracefulRestart { families, .. } => families.contains((afi, safi, true)),
        _ => false,
    }
}

/// Whether a capability names a family with a family of next hops.
pub open spec fn extends(c: CapabilityView, afi: u16, safi: u8, nh_afi: u16) -> bool {
    match c {
        CapabilityView::ExtendedNextHop(ts) => ts.contains((afi, safi as u16, nh_afi)),
        _ => false,
    }
}

impl Open {
    /// The OPEN of a speaker of an AS.
    pub fn new(version: u8, local_as: u32, hold_time: u16, identifier: Ipv4Addr) -> (r: Open)
        ensures
            r@ == (OpenView {
                version,
                my_as: bgp::fitted(local_as),
                hold_time,
                identifier,
                capabilities: offered(local_as),
            }),
    {
        let families: Vec<(u16, u8, bool)> = vec![
            (AFI_IPV4, SAFI_UNICAST, true),
            (AFI_IPV6, SAFI_UNICAST, true),
        ];
        assert(families@ =~= seq![(1u16, 1u8, true), (2u16, 1u8, true)]);
        let capabilities: Vec<Capability> = vec![
            Capability::FourOctetAs(local_as),
            Capability::Multiprotocol { afi: AFI_IPV4, safi: SAFI_UNICAST },
            Capability::Multiprotocol { afi: AFI_IPV6, safi: SAFI_UNICAST },
            Capability::RouteRefresh,
            Capability::GracefulRestart {
                restart_state: false,
                restart_time: DEFAULT_RESTART_TIME,
                families,
            },
        ];
        assert(wire::views(capabilities@) =~= offered(local_as));
        Open { version, my_as: as_trans_fit(local_as), hold_time, identifier, capabilities }
    }

    /// The AS number of the sender.
    pub fn effective_as(&self) -> (r: u32)
        ensures
            r == (match first_as(self@.capabilities) {
                Some(asn) => asn,
                None => self@.my_as as u32,
            }),
    {
        match self.four_octet_as() {
            Some(asn) => asn,
            None => self.my_as as u32,
        }
    }

    /// The AS number that the capability tells.
    pub fn four_octet_as(&self) -> (r: Option<u32>)
        ensures
            r == first_as(self@.capabilities),
    {
        let ghost all = self@.capabilities;
        let mut i: usize = 0;
        assert(all.skip(0) =~= all);
        while i < self.capabilities.len()
            invariant
                i <= self.capabilities.len(),
                all == wire::views(self.capabilities@),
                first_as(all) == first_as(all.skip(i as int)),
            decreases self.capabilities.len() - i,
        {
            assert(all.skip(i as int)[0] == self.capabilities@[i as int]@);
            assert(all.skip(i as int).drop_first() =~= all.skip(i + 1));
            if let Capability::FourOctetAs(asn) = &self.capabilities[i] {
                return Some(*asn);
            }
            i = i + 1;
        }
        None
    }

    /// Whether the AS number is told.
    pub fn supports_four_octet_as(&self) -> (r: bool)
        ensures
            r == (first_as(self@.capabilities) is Some),
    {
        self.four_octet_as().is_some()
    }

    /// Whether a family is offered.
    pub fn supports_multiprotocol(&self, afi: u16, safi: u8) -> (r: bool)
        ensures
            r == self@.capabilities.contains(CapabilityView::Multiprotocol { afi, safi }),
    {
        let ghost all = self@.capabilities;
        let mut i: usize = 0;
        while i < self.capabilities.len()
            invariant
                i <= self.capabilities.len(),
                all == wire::views(self.capabilities@),
                forall|j: int|
                    0 <= j < i ==> #[trigger] all[j] != (CapabilityView::Multiprotocol {
                        afi,
                        safi,
                    }),
            decreases self.capabilities.len() - i,
        {
            assert(all[i as int] == self.capabilities@[i as int]@);
            if let Capability::Multiprotocol { afi: a, safi: s } = &self.capabilities[i] {
                if *a == afi && *s == safi {
                    return true;
                }
            }
            i = i + 1;
        }
        false
    }

    /// Whether route refresh is offered.
    pub fn supports_route_refresh(&self) -> (r: bool)
        ensures
            r == self@.capabilities.contains(CapabilityView::RouteRefresh),
    {
        let ghost all = self@.capabilities;
        let mut i: usize = 0;
        while i < self.capabilities.len()
            invariant
                i <= self.capabilities.len(),
                all == wire::views(self.capabilities@),
                forall|j: int| 0 <= j < i ==> #[trigger] all[j] != CapabilityView::RouteRefresh,
            decreases self.capabilities.len() - i,
        {
            assert(all[i as int] == self.capabilities@[i as int]@);
            if let Capability::RouteRefresh = &self.capabilities[i] {
                return true;
            }
            i = i + 1;
        }
        false
    }

    /// What is offered of several paths for a family.
    pub fn supports_add_path(&self, afi: u16, safi: u8) -> (r: Option<u8>)
        ensures
            r == first_paths(self@.capabilities, afi, safi),
    {
        let ghost all = self@.capabilities;
        let mut i: usize = 0;
        assert(all.skip(0) =~= all);
        while i < self.capabilities.len()
            invariant
                i <= self.capabilities.len(),
                all == wire::views(self.capabilities@),
                first_paths(all, afi, safi) == first_paths(all.skip(i as int), afi, safi),
            decreases self.capabilities.len() - i,
        {
            assert(all.skip(i as int)[0] == self.capabilities@[i as int]@);
            assert(all.skip(i as int).drop_first() =~= all.skip(i + 1));
            if let Capability::AddPath(fs) = &self.capabilities[i] {
                if let Some(sr) = find_paths(fs, afi, safi) {
                    return Some(sr);
                }
            }
            i = i + 1;
        }
        None
    }

    /// Whether next hops of another family are accepted.
    pub fn supports_extended_next_hop(&self, afi: u16, safi: u8, nh_afi: u16) -> (r: bool)
        ensures
            r == (exists|i: int|
                0 <= i < self@.capabilities.len() && extends(
                    #[trigger] self@.capabilities[i],
                    afi,
                    safi,
                    nh_afi,
                )),
    {
        let ghost all = self@.capabilities;
        let mut i: usize = 0;
        while i < self.capabilities.len()
            invariant
                i <= self.capabilities.len(),
                all == wire::views(self.capabilities@),
                forall|j: int| 0 <= j < i ==> !extends(#[trigger] all[j], afi, safi, nh_afi),
            decreases self.capabilities.len() - i,
        {
            assert(all[i as int] == self.capabilities@[i as int]@);
            if let Capability::ExtendedNextHop(ts) = &self.capabilities[i] {
                let mut k: usize = 0;
                while k < ts.len()
                    invariant
                        k <= ts.len(),
                        i < self.capabilities@.len(),
                        all == wire::views(self.capabilities@),
                        self@.capabilities == all,
                        all[i as int] == CapabilityView::ExtendedNextHop(ts@),
                        forall|j: int|
                            0 <= j < k ==> #[trigger] ts@[j] != (afi, safi as u16, nh_afi),
                    decreases ts.len() - k,
                {
                    if ts[k].0 == afi && ts[k].1 == safi as u16 && ts[k].2 == nh_afi {
                        assert(ts@[k as int] == (afi, safi as u16, nh_afi));
                        assert(extends(self@.capabilities[i as int], afi, safi, nh_afi));
                        return true;
                    }
                    k = k + 1;
                }
            }
            i = i + 1;
        }
        false
    }

    /// Whether graceful restart is offered.
    pub fn supports_graceful_restart(&self) -> (r: bool)
        ensures
            r == (first_restart(self@.capabilities) is Some),
    {
        self.gr_restart_time().is_some()
    }

    /// How long to keep the routes through a restart.
    pub fn gr_restart_time(&self) -> (r: Option<u16>)
        ensures
            r == first_restart(self@.capabilities),
    {
        let ghost all = self@.capabilities;
        let mut i: usize = 0;
        assert(all.skip(0) =~= all);
        while i < self.capabilities.len()
            invariant
                i <= self.capabilities.len(),
                all == wire::views(self.capabilities@),
                first_restart(all) == first_restart(all.skip(i as int)),
            decreases self.capabilities.len() - i,
        {
            assert(all.skip(i as int)[0] == self.capabilities@[i as int]@);
            assert(all.skip(i as int).drop_first() =~= all.skip(i + 1));
            if let Capability::GracefulRestart { restart_time, .. } = &self.capabilities[i] {
                return Some(*restart_time);
            }
            i = i + 1;
        }
        None
    }

    /// Whether forwarding of a family goes on through a restart.
    pub fn gr_forwarding_preserved(&self, afi: u16, safi: u8) -> (r: bool)
        ensures
            r == (exists|i: int|
                0 <= i < self@.capabilities.len() && preserves(
                    #[trigger] self@.capabilities[i],
                    afi,
                    safi,
                )),
    {
        let ghost all = self@.capabilities;
        let mut i: usize = 0;
        while i < self.capabilities.len()
            invariant
                i <= self.capabilities.len(),
                all == wire::views(self.capabilities@),
                forall|j: int| 0 <= j < i ==> !preserves(#[trigger] all[j], afi, safi),
            decreases self.capabilities.len() - i,
        {
            assert(all[i as int] == self.capabilities@[i as int]@);
            if let Capability::GracefulRestart { families, .. } = &self.capabilities[i] {
                let mut k: usize = 0;
                while k < families.len()
                    invariant
                        k <= families.len(),
                        i < self.capabilities@.len(),
                        self@.capabilities == all,
                        all[i as int] matches CapabilityView::GracefulRestart { families: f, .. }
                            && f == families@,
                        forall|j: int| 0 <= j < k ==> #[trigger] families@[j] != (afi, safi, true),
                    decreases families.len() - k,
                {
                    if families[k].0 == afi && families[k].1 == safi && families[k].2 {
                        assert(families@[k as int] == (afi, safi, true));
                        assert(preserves(self@.capabilities[i as int], afi, safi));
                        return true;
                    }
                    k = k + 1;
                }
            }
            i = i + 1;
        }
        false
    }
}

fn find_paths(fs: &Vec<(u16, u8, u8)>, afi: u16, safi: u8) -> (r: Option<u8>)
    ensures
        r == family_paths(fs@, afi, safi),
{
    let mut i: usize = 0;
    assert(fs@.skip(0) =~= fs@);
    while i < fs.len()
        invariant
            i <= fs.len(),
            family_paths(fs@, afi, safi) == family_paths(fs@.skip(i as int), afi, safi),
        decreases fs.len() - i,
    {
        assert(fs@.skip(i as int)[0] == fs@[i as int]);
        assert(fs@.skip(i as int).drop_first() =~= fs@.skip(i + 1));
        if fs[i].0 == afi && fs[i].1 == safi {
            return Some(fs[i].2);
        }
        i = i + 1;
    }
    None
}

/// For which families the prefixes of a session carry path identifiers (RFC 7911): this
/// cannot be told from a message.
#[derive(Clone, Copy, PartialEq, Eq, Structural, Debug, Default)]
pub struct AddPath {
    pub ipv4_unicast: bool,
}

impl AddPath {
    /// For none.
    pub fn none() -> (r: AddPath)
        ensures
            !r.ipv4_unicast,
    {
        AddPath { ipv4_unicast: false }
    }

    /// For IPv4 unicast alone, or none.
    pub fn ipv4(on: bool) -> (r: AddPath)
        ensures
            r.ipv4_unicast == on,
    {
        AddPath { ipv4_unicast: on }
    }
}

/// The body of an UPDATE message (§4.3).
#[derive(Clone, PartialEq, Eq, Debug)]
pub struct Update {
    pub withdrawn: Vec<Prefix>,
    pub attributes: Vec<PathAttribute>,
    pub nlri: Vec<Prefix>,
    /// The path identifiers of `nlri`, or none.
    pub nlri_path_ids: Vec<u32>,
    /// The path identifiers of `withdrawn`, or none.
    pub withdrawn_path_ids: Vec<u32>,
}

/// The body of an UPDATE message as a mathematical value.
#[verifier::ext_equal]
pub struct UpdateView {
    pub withdrawn: Seq<Prefix>,
    pub attributes: Seq<AttrView>,
    pub nlri: Seq<Prefix>,
    pub nlri_path_ids: Seq<u32>,
    pub withdrawn_path_ids: Seq<u32>,
}

impl View for Update {
    type V = UpdateView;

    open spec fn view(&self) -> UpdateView {
        UpdateView {
            withdrawn: self.withdrawn@,
            attributes: wire::views(self.attributes@),
            nlri: self.nlri@,
            nlri_path_ids: self.nlri_path_ids@,
            withdrawn_path_ids: self.withdrawn_path_ids@,
        }
    }
}

/// An UPDATE that holds attributes and nothing else.
pub open spec fn only(attributes: Seq<AttrView>) -> UpdateView {
    UpdateView {
        withdrawn: Seq::empty(),
        attributes,
        nlri: Seq::empty(),
        nlri_path_ids: Seq::empty(),
        withdrawn_path_ids: Seq::empty(),
    }
}

impl Default for Update {
    fn default() -> (r: Update)
        ensures
            r@ == only(Seq::empty()),
    {
        let r = Update {
            withdrawn: Vec::new(),
            attributes: Vec::new(),
            nlri: Vec::new(),
            nlri_path_ids: Vec::new(),
            withdrawn_path_ids: Vec::new(),
        };
        assert(r@ =~= only(Seq::empty()));
        r
    }
}

/// The End-of-RIB marker of a family (RFC 4724 §2): an empty UPDATE for IPv4 unicast, an
/// empty withdrawal for any other.
pub open spec fn marker_of(afi: u16, safi: u8) -> UpdateView {
    if afi == 1 && safi == 1 {
        only(Seq::empty())
    } else {
        only(seq![AttrView::MpUnreachNlri { afi, safi, withdrawn: Seq::empty() }])
    }
}

/// The family whose End-of-RIB marker an UPDATE is.
pub open spec fn marked_family(u: UpdateView) -> Option<(u16, u8)> {
    if u.withdrawn.len() > 0 || u.nlri.len() > 0 || u.attributes.len() > 1 {
        None
    } else if u.attributes.len() == 0 {
        Some((1, 1))
    } else {
        match u.attributes[0] {
            AttrView::MpUnreachNlri { afi, safi, withdrawn } => if withdrawn.len() == 0 {
                Some((afi, safi))
            } else {
                None
            },
            AttrView::MpUnreachEvpn { withdrawn } => if withdrawn.len() == 0 {
                Some((25, 70))
            } else {
                None
            },
            AttrView::MpUnreachFlowSpec { afi, withdrawn } => if withdrawn.len() == 0 {
                Some((afi, 133))
            } else {
                None
            },
            AttrView::MpUnreachLinkState { withdrawn } => if withdrawn.len() == 0 {
                Some((16388, 71))
            } else {
                None
            },
            AttrView::MpUnreachSrPolicy { afi, withdrawn } => if withdrawn.len() == 0 {
                Some((afi, 73))
            } else {
                None
            },
            _ => None,
        }
    }
}

impl Update {
    /// The End-of-RIB marker of a family.
    pub fn end_of_rib_marker(afi: u16, safi: u8) -> (r: Update)
        ensures
            r@ == marker_of(afi, safi),
    {
        let mut attributes: Vec<PathAttribute> = Vec::new();
        if !(afi == AFI_IPV4 && safi == SAFI_UNICAST) {
            let withdrawn: Vec<Prefix> = Vec::new();
            assert(wire::views(withdrawn@) =~= Seq::<Prefix>::empty());
            attributes.push(PathAttribute::MpUnreachNlri { afi, safi, withdrawn });
        }
        let r = Update {
            withdrawn: Vec::new(),
            attributes,
            nlri: Vec::new(),
            nlri_path_ids: Vec::new(),
            withdrawn_path_ids: Vec::new(),
        };
        assert(r@ =~= marker_of(afi, safi));
        r
    }

    /// The family whose End-of-RIB marker this is.
    pub fn end_of_rib(&self) -> (r: Option<(u16, u8)>)
        ensures
            r == marked_family(self@),
    {
        if self.withdrawn.len() > 0 || self.nlri.len() > 0 || self.attributes.len() > 1 {
            return None;
        }
        if self.attributes.len() == 0 {
            return Some((AFI_IPV4, SAFI_UNICAST));
        }
        assert(self@.attributes[0] == self.attributes@[0]@);
        match &self.attributes[0] {
            PathAttribute::MpUnreachNlri { afi, safi, withdrawn } => if withdrawn.len() == 0 {
                Some((*afi, *safi))
            } else {
                None
            },
            PathAttribute::MpUnreachEvpn { withdrawn } => if withdrawn.len() == 0 {
                Some((AFI_L2VPN, SAFI_EVPN))
            } else {
                None
            },
            PathAttribute::MpUnreachFlowSpec { afi, withdrawn } => if withdrawn.len() == 0 {
                Some((*afi, SAFI_FLOWSPEC))
            } else {
                None
            },
            PathAttribute::MpUnreachLinkState { withdrawn } => if withdrawn.len() == 0 {
                Some((AFI_LINK_STATE, SAFI_LINK_STATE))
            } else {
                None
            },
            PathAttribute::MpUnreachSrPolicy { afi, withdrawn } => if withdrawn.len() == 0 {
                Some((*afi, SAFI_SR_POLICY))
            } else {
                None
            },
            _ => None,
        }
    }
}

/// The marker of every family is recognised as such.
pub proof fn lemma_marker_is_recognised(afi: u16, safi: u8)
    ensures
        marked_family(marker_of(afi, safi)) == Some((afi, safi)),
{
}

/// The body of a NOTIFICATION message (§4.5).
#[derive(Clone, PartialEq, Eq, Debug)]
pub struct Notification {
    pub code: u8,
    pub subcode: u8,
    pub data: Vec<u8>,
}

/// The body of a NOTIFICATION message as a mathematical value.
#[verifier::ext_equal]
pub struct NotificationView {
    pub code: u8,
    pub subcode: u8,
    pub data: Seq<u8>,
}

impl View for Notification {
    type V = NotificationView;

    open spec fn view(&self) -> NotificationView {
        NotificationView { code: self.code, subcode: self.subcode, data: self.data@ }
    }
}

/// One message.
#[derive(Clone, PartialEq, Eq, Debug)]
pub enum Message {
    Open(Open),
    Update(Update),
    Notification(Notification),
    Keepalive,
    /// Ask for the routes of a family again (RFC 2918).
    RouteRefresh { afi: u16, safi: u8 },
}

/// A message as a mathematical value.
pub enum MessageView {
    Open(OpenView),
    Update(UpdateView),
    Notification(NotificationView),
    Keepalive,
    RouteRefresh { afi: u16, safi: u8 },
}

impl View for Message {
    type V = MessageView;

    open spec fn view(&self) -> MessageView {
        match *self {
            Message::Open(o) => MessageView::Open(o@),
            Message::Update(u) => MessageView::Update(u@),
            Message::Notification(n) => MessageView::Notification(n@),
            Message::Keepalive => MessageView::Keepalive,
            Message::RouteRefresh { afi, safi } => MessageView::RouteRefresh { afi, safi },
        }
    }
}

/// Why a message cannot be decoded.
#[derive(Clone, PartialEq, Eq, Structural, Debug)]
pub enum DecodeError {
    /// Fewer octets than header or body need.
    TooShort,
    /// The marker is not all ones.
    BadMarker,
    /// The length is not that of the message, or out of range.
    BadLength { stated: u16, actual: usize },
    /// The type is unknown.
    BadType(u8),
    /// The version is not spoken here.
    BadVersion(u8),
    /// Something in the body is malformed.
    Malformed,
}

impl DecodeError {
    /// The text.
    pub open spec fn text(self) -> Seq<char> {
        match self {
            DecodeError::TooShort => "message shorter than required"@,
            DecodeError::BadMarker => "bad marker (not all ones)"@,
            DecodeError::BadLength { stated, actual } => "stated length "@ + text::decimal(
                stated as nat,
            ) + " != actual "@ + text::decimal(actual as nat),
            DecodeError::BadType(t) => "unknown message type "@ + text::decimal(t as nat),
            DecodeError::BadVersion(v) => "unsupported BGP version "@ + text::decimal(v as nat),
            DecodeError::Malformed => "malformed message body"@,
        }
    }

    /// The text.
    pub fn to_string(&self) -> (r: String)
        ensures
            r@ == self.text(),
    {
        let mut out = String::new();
        match self {
            DecodeError::TooShort => out.append("message shorter than required"),
            DecodeError::BadMarker => out.append("bad marker (not all ones)"),
            DecodeError::BadLength { stated, actual } => {
                out.append("stated length ");
                text::push_decimal(&mut out, *stated as u32);
                out.append(" != actual ");
                text::push_count(&mut out, *actual);
            },
            DecodeError::BadType(t) => {
                out.append("unknown message type ");
                text::push_decimal(&mut out, *t as u32);
            },
            DecodeError::BadVersion(v) => {
                out.append("unsupported BGP version ");
                text::push_decimal(&mut out, *v as u32);
            },
            DecodeError::Malformed => out.append("malformed message body"),
        }
        assert(out@ =~= self.text());
        out
    }
}

/// The path identifier of the `i`th prefix: zero where there is none.
pub open spec fn id_at(ids: Seq<u32>, i: int) -> u32 {
    if i < ids.len() {
        ids[i]
    } else {
        0
    }
}

/// A prefix with its path identifier.
#[derive(Clone, Copy, PartialEq, Eq, Debug)]
pub struct Labelled {
    pub prefix: Prefix,
    pub id: u32,
}

impl View for Labelled {
    type V = Labelled;

    open spec fn view(&self) -> Labelled {
        *self
    }
}

/// A prefix, with its path identifier in front of it where there are such.
pub open spec fn entry(e: Labelled, ap: bool) -> Seq<u8> {
    (if ap {
        wire::be32(e.id)
    } else {
        Seq::empty()
    }) + bgp::v4_octets(e.prefix)
}

/// The prefix at the front of `s`, with its path identifier where there are such and with
/// zero where not, and its length in octets.
pub open spec fn entry_front(s: Seq<u8>, ap: bool) -> Option<(Labelled, int)> {
    let h = if ap {
        4int
    } else {
        0
    };
    if s.len() < h {
        None
    } else {
        match bgp::nlri_v4(wire::from_at(s, h)) {
            Some((prefix, used)) => Some(
                (
                    Labelled {
                        prefix,
                        id: if ap {
                            wire::u32_at(s, 0)
                        } else {
                            0
                        },
                    },
                    h + used,
                ),
            ),
            None => None,
        }
    }
}

impl Record for Labelled {
    /// Whether there are path identifiers.
    type Ctx = bool;

    open spec fn carried(v: Labelled, c: bool) -> bool {
        v.prefix.wf() && v.prefix.addr is V4 && (c || v.id == 0)
    }

    open spec fn octets(v: Labelled, c: bool) -> Seq<u8> {
        entry(v, c)
    }

    open spec fn front(s: Seq<u8>, c: bool) -> Option<(Labelled, int)> {
        entry_front(s, c)
    }

    proof fn lemma_front(v: Labelled, c: bool, rest: Seq<u8>) {
        let s = entry(v, c) + rest;
        let p = bgp::v4_octets(v.prefix);
        bgp::lemma_nlri_round_trip(v.prefix, rest);
        if c {
            assert(wire::from_at(s, 4) =~= p + rest);
            assert(s.subrange(0, 4) =~= wire::be32(v.id));
            wire::lemma_u32_placed(s, 0, v.id);
        } else {
            assert(wire::from_at(s, 0) =~= p + rest);
        }
    }

    fn write(&self, out: &mut Vec<u8>, c: bool) {
        if c {
            wire::push_u32(out, self.id);
        }
        encode_prefix(out, &self.prefix);
        assert(out@ =~= old(out)@ + entry(self@, c));
    }

    fn read(s: &[u8], c: bool) -> (r: Option<(Labelled, usize)>) {
        let h: usize = if c {
            4
        } else {
            0
        };
        if s.len() < h {
            return None;
        }
        match decode_prefix(&s[h..s.len()]) {
            Some((prefix, used)) => {
                let id: u32 = if c {
                    wire::read_u32(s, 0)
                } else {
                    0
                };
                Some((Labelled { prefix, id }, h + used))
            },
            None => None,
        }
    }
}

/// Prefixes with their path identifiers.
pub open spec fn labelled(ps: Seq<Prefix>, ids: Seq<u32>) -> Seq<Labelled> {
    Seq::new(ps.len(), |i: int| Labelled { prefix: ps[i], id: id_at(ids, i) })
}

/// Prefixes one behind the other, each with its path identifier in front of it where there
/// are such.
pub open spec fn entries(ps: Seq<Prefix>, ids: Seq<u32>, ap: bool) -> Seq<u8> {
    run::run_octets::<Labelled>(labelled(ps, ids), ap)
}

/// The attributes of an UPDATE one behind the other.
pub open spec fn attributes_octets(attrs: Seq<AttrView>, four: bool) -> Seq<u8> {
    run::run_octets::<AttrOutcome>(kept_all(attrs), four)
}

pub open spec fn kept_all(attrs: Seq<AttrView>) -> Seq<OutcomeView> {
    attrs.map_values(|a: AttrView| OutcomeView::Keep(a))
}

/// The body of a message.
pub open spec fn body_octets(m: MessageView, four: bool, ap: bool) -> Seq<u8> {
    match m {
        MessageView::Open(o) => open_octets(o),
        MessageView::Update(u) => update_octets(u, four, ap),
        MessageView::Notification(n) => seq![n.code, n.subcode] + n.data,
        MessageView::Keepalive => Seq::empty(),
        MessageView::RouteRefresh { afi, safi } => wire::be16(afi) + seq![0u8, safi],
    }
}

/// The body of an OPEN message.
pub open spec fn open_octets(o: OpenView) -> Seq<u8> {
    let opt = capability::parameters(o.capabilities);
    seq![o.version] + wire::be16(o.my_as) + wire::be16(o.hold_time) + o.identifier.octets@ + seq![
        (opt.len() % 256) as u8,
    ] + opt
}

/// The body of an UPDATE message.
pub open spec fn update_octets(u: UpdateView, four: bool, ap: bool) -> Seq<u8> {
    let w = entries(u.withdrawn, u.withdrawn_path_ids, ap);
    let a = attributes_octets(u.attributes, four);
    wire::be16((w.len() % 65536) as u16) + w + wire::be16((a.len() % 65536) as u16) + a + entries(
        u.nlri,
        u.nlri_path_ids,
        ap,
    )
}

/// The marker.
pub open spec fn marker() -> Seq<u8> {
    Seq::new(16, |i: int| 0xffu8)
}

impl MessageView {
    /// The type.
    pub open spec fn kind(self) -> MessageType {
        match self {
            MessageView::Open(_) => MessageType::Open,
            MessageView::Update(_) => MessageType::Update,
            MessageView::Notification(_) => MessageType::Notification,
            MessageView::Keepalive => MessageType::Keepalive,
            MessageView::RouteRefresh { .. } => MessageType::RouteRefresh,
        }
    }
}

/// A message of a type and a body: marker, length, type, body.
pub open spec fn framed(kind: MessageType, b: Seq<u8>) -> Seq<u8> {
    marker() + wire::be16(((19 + b.len()) % 65536) as u16) + seq![kind.code()] + b
}

/// A message.
pub open spec fn message_octets(m: MessageView, four: bool, ap: bool) -> Seq<u8> {
    framed(m.kind(), body_octets(m, four, ap))
}

/// The prefixes that fill `s`, and their path identifiers where there are such.
#[verifier::opaque]
pub open spec fn entries_in(s: Seq<u8>, ap: bool) -> Option<(Seq<Prefix>, Seq<u32>)> {
    match run::run_values::<Labelled>(s, ap) {
        Some(es) => Some(
            (
                es.map_values(|e: Labelled| e.prefix),
                if ap {
                    es.map_values(|e: Labelled| e.id)
                } else {
                    Seq::empty()
                },
            ),
        ),
        None => None,
    }
}

/// Whether no attribute appeared twice.
pub open spec fn distinct(os: Seq<OutcomeView>) -> bool {
    forall|i: int, j: int|
        0 <= i < j < os.len() ==> (#[trigger] os[i]).kind() != (#[trigger] os[j]).kind()
}

/// The attributes that take part.
pub open spec fn kept(os: Seq<OutcomeView>) -> Seq<AttrView>
    decreases os.len(),
{
    if os.len() == 0 {
        Seq::empty()
    } else {
        match os.last() {
            OutcomeView::Keep(a) => kept(os.drop_last()).push(a),
            OutcomeView::Discard { .. } => kept(os.drop_last()),
        }
    }
}

/// The attributes of a block that take part; `None` where one of them takes the routes
/// with it or appears twice (RFC 7606 §3).
#[verifier::opaque]
pub open spec fn attributes_in(s: Seq<u8>, four: bool) -> Option<Seq<AttrView>> {
    match run::run_values::<AttrOutcome>(s, four) {
        Some(os) => if distinct(os) {
            Some(kept(os))
        } else {
            None
        },
        None => None,
    }
}

/// Whether an attribute advertises routes of its own.
pub open spec fn advertises(a: AttrView) -> bool {
    a is MpReachNlri || a is MpReachEvpn || a is MpReachFlowSpec || a is MpReachSrPolicy
        || a is MpReachLinkState
}

/// Whether one of the attributes advertises routes of its own.
pub open spec fn some_advertises(attrs: Seq<AttrView>) -> bool {
    exists|i: int| 0 <= i < attrs.len() && advertises(#[trigger] attrs[i])
}

pub open spec fn some_origin(attrs: Seq<AttrView>) -> bool {
    exists|i: int| 0 <= i < attrs.len() && (#[trigger] attrs[i]) is Origin
}

pub open spec fn some_as_path(attrs: Seq<AttrView>) -> bool {
    exists|i: int| 0 <= i < attrs.len() && (#[trigger] attrs[i]) is AsPath
}

pub open spec fn some_next_hop(attrs: Seq<AttrView>) -> bool {
    exists|i: int| 0 <= i < attrs.len() && (#[trigger] attrs[i]) is NextHop
}

/// Whether the attributes that the routes of an UPDATE need are there: ORIGIN and AS_PATH
/// where it advertises anything, NEXT_HOP where it does so in the plain field.
pub open spec fn complete(attrs: Seq<AttrView>, has_nlri: bool) -> bool {
    (!has_nlri && !some_advertises(attrs)) || (some_origin(attrs) && some_as_path(attrs) && (
    !has_nlri || some_next_hop(attrs)))
}

/// The UPDATE that withdraws what it would have advertised.
pub open spec fn all_withdrawn(
    w: (Seq<Prefix>, Seq<u32>),
    n: (Seq<Prefix>, Seq<u32>),
) -> UpdateView {
    UpdateView {
        withdrawn: w.0 + n.0,
        attributes: Seq::empty(),
        nlri: Seq::empty(),
        nlri_path_ids: Seq::empty(),
        withdrawn_path_ids: w.1 + n.1,
    }
}

/// The UPDATE that a body holds. What cannot be framed is an error; what is broken within
/// its attributes, or incomplete, withdraws its routes (RFC 7606).
pub open spec fn update_read(b: Seq<u8>, four: bool, ap: bool) -> Result<UpdateView, DecodeError> {
    let wl = wire::u16_at(b, 0) as int;
    let al = wire::u16_at(b, 2 + wl) as int;
    if b.len() < 4 {
        Err(DecodeError::TooShort)
    } else if b.len() < 2 + wl {
        Err(DecodeError::Malformed)
    } else {
        match entries_in(b.subrange(2, 2 + wl), ap) {
            None => Err(DecodeError::Malformed),
            Some(w) => if b.len() < 4 + wl {
                Err(DecodeError::TooShort)
            } else if b.len() < 4 + wl + al {
                Err(DecodeError::Malformed)
            } else {
                match entries_in(wire::from_at(b, 4 + wl + al), ap) {
                    None => Err(DecodeError::Malformed),
                    Some(n) => match attributes_in(b.subrange(4 + wl, 4 + wl + al), four) {
                        Some(attributes) => if complete(attributes, n.0.len() > 0) {
                            Ok(
                                UpdateView {
                                    withdrawn: w.0,
                                    attributes,
                                    nlri: n.0,
                                    nlri_path_ids: n.1,
                                    withdrawn_path_ids: w.1,
                                },
                            )
                        } else {
                            Ok(all_withdrawn(w, n))
                        },
                        None => Ok(all_withdrawn(w, n)),
                    },
                }
            },
        }
    }
}

/// The OPEN that a body holds; AS number and identifier are not zero.
pub open spec fn open_read(b: Seq<u8>) -> Result<OpenView, DecodeError> {
    if b.len() < 10 {
        Err(DecodeError::TooShort)
    } else if b[0] != 4 {
        Err(DecodeError::BadVersion(b[0]))
    } else if b.len() < 10 + b[9] {
        Err(DecodeError::TooShort)
    } else if wire::u16_at(b, 1) == 0 || net::is_zero(b.subrange(5, 9)) {
        Err(DecodeError::Malformed)
    } else {
        Ok(
            OpenView {
                version: b[0],
                my_as: wire::u16_at(b, 1),
                hold_time: wire::u16_at(b, 3),
                identifier: Ipv4Addr { octets: wire::arr4_at(b, 5) },
                capabilities: capability::parameter_caps(b.subrange(10, 10 + b[9])),
            },
        )
    }
}

/// The message that a type and a body make.
#[verifier::opaque]
pub open spec fn body_read(kind: MessageType, b: Seq<u8>, four: bool, ap: bool) -> Result<
    MessageView,
    DecodeError,
> {
    match kind {
        MessageType::Open => match open_read(b) {
            Ok(o) => Ok(MessageView::Open(o)),
            Err(e) => Err(e),
        },
        MessageType::Update => match update_read(b, four, ap) {
            Ok(u) => Ok(MessageView::Update(u)),
            Err(e) => Err(e),
        },
        MessageType::Notification => if b.len() < 2 {
            Err(DecodeError::TooShort)
        } else {
            Ok(
                MessageView::Notification(
                    NotificationView { code: b[0], subcode: b[1], data: wire::from_at(b, 2) },
                ),
            )
        },
        MessageType::Keepalive => if b.len() > 0 {
            Err(DecodeError::Malformed)
        } else {
            Ok(MessageView::Keepalive)
        },
        MessageType::RouteRefresh => if b.len() != 4 {
            Err(DecodeError::Malformed)
        } else {
            Ok(MessageView::RouteRefresh { afi: wire::u16_at(b, 0), safi: b[3] })
        },
    }
}

/// The message that `s` is.
pub open spec fn message_read(s: Seq<u8>, four: bool, ap: bool) -> Result<
    MessageView,
    DecodeError,
> {
    if s.len() < 19 {
        Err(DecodeError::TooShort)
    } else if s.take(16) != marker() {
        Err(DecodeError::BadMarker)
    } else if wire::u16_at(s, 16) != s.len() || s.len() > 4096 {
        Err(DecodeError::BadLength { stated: wire::u16_at(s, 16), actual: s.len() as usize })
    } else {
        match MessageType::of_code(s[18]) {
            None => Err(DecodeError::BadType(s[18])),
            Some(kind) => body_read(kind, wire::from_at(s, 19), four, ap),
        }
    }
}

fn push_entries(out: &mut Vec<u8>, ps: &Vec<Prefix>, ids: &Vec<u32>, ap: bool)
    ensures
        final(out)@ == old(out)@ + entries(ps@, ids@, ap),
{
    let ghost all = labelled(ps@, ids@);
    let mut i: usize = 0;
    assert(out@ =~= old(out)@ + run::run_octets::<Labelled>(all.take(0), ap));
    while i < ps.len()
        invariant
            i <= ps.len(),
            all == labelled(ps@, ids@),
            out@ == old(out)@ + run::run_octets::<Labelled>(all.take(i as int), ap),
        decreases ps.len() - i,
    {
        let id: u32 = if i < ids.len() {
            ids[i]
        } else {
            0
        };
        let e = Labelled { prefix: ps[i], id };
        e.write(out, ap);
        proof {
            assert(all[i as int] == e@);
            run::lemma_run_push::<Labelled>(all.take(i as int), all[i as int], ap);
            assert(all.take(i + 1) =~= all.take(i as int).push(all[i as int]));
            assert(out@ =~= old(out)@ + run::run_octets::<Labelled>(all.take(i + 1), ap));
        }
        i = i + 1;
    }
    assert(all.take(i as int) =~= all);
}

fn push_attributes(out: &mut Vec<u8>, attrs: &Vec<PathAttribute>, four: bool)
    ensures
        final(out)@ == old(out)@ + attributes_octets(wire::views(attrs@), four),
{
    let ghost all = kept_all(wire::views(attrs@));
    let mut i: usize = 0;
    assert(out@ =~= old(out)@ + run::run_octets::<AttrOutcome>(all.take(0), four));
    while i < attrs.len()
        invariant
            i <= attrs.len(),
            all == kept_all(wire::views(attrs@)),
            out@ == old(out)@ + run::run_octets::<AttrOutcome>(all.take(i as int), four),
        decreases attrs.len() - i,
    {
        attrs[i].encode(out, four);
        proof {
            assert(all[i as int] == OutcomeView::Keep(attrs@[i as int]@));
            run::lemma_run_push::<AttrOutcome>(all.take(i as int), all[i as int], four);
            assert(all.take(i + 1) =~= all.take(i as int).push(all[i as int]));
            assert(out@ =~= old(out)@ + run::run_octets::<AttrOutcome>(all.take(i + 1), four));
        }
        i = i + 1;
    }
    assert(all.take(i as int) =~= all);
}

fn encode_open(o: &Open, out: &mut Vec<u8>)
    ensures
        final(out)@ == old(out)@ + open_octets(o@),
{
    out.push(o.version);
    wire::push_u16(out, o.my_as);
    wire::push_u16(out, o.hold_time);
    wire::push_all(out, o.identifier.octets.as_slice());
    let opt = encode_optional_parameters(o.capabilities.as_slice());
    out.push((opt.len() % 256) as u8);
    wire::push_all(out, opt.as_slice());
    assert(out@ =~= old(out)@ + open_octets(o@));
}

fn encode_update(u: &Update, out: &mut Vec<u8>, four_octet: bool, add_path: AddPath)
    ensures
        final(out)@ == old(out)@ + update_octets(u@, four_octet, add_path.ipv4_unicast),
{
    let ap = add_path.ipv4_unicast;
    let mut withdrawn: Vec<u8> = Vec::new();
    push_entries(&mut withdrawn, &u.withdrawn, &u.withdrawn_path_ids, ap);
    let mut attrs: Vec<u8> = Vec::new();
    push_attributes(&mut attrs, &u.attributes, four_octet);
    let ghost w = entries(u@.withdrawn, u@.withdrawn_path_ids, ap);
    let ghost a = attributes_octets(u@.attributes, four_octet);
    assert(withdrawn@ =~= w);
    assert(attrs@ =~= a);
    wire::push_u16(out, (withdrawn.len() % 65536) as u16);
    wire::push_all(out, withdrawn.as_slice());
    wire::push_u16(out, (attrs.len() % 65536) as u16);
    wire::push_all(out, attrs.as_slice());
    push_entries(out, &u.nlri, &u.nlri_path_ids, ap);
    assert(out@ =~= old(out)@ + update_octets(u@, four_octet, ap));
}

fn is_marker(buf: &[u8]) -> (r: bool)
    requires
        buf@.len() >= 16,
    ensures
        r == (buf@.take(16) == marker()),
{
    let mut i: usize = 0;
    while i < 16
        invariant
            i <= 16,
            buf@.len() >= 16,
            forall|j: int| 0 <= j < i ==> buf@[j] == 0xff,
        decreases 16 - i,
    {
        if buf[i] != 0xff {
            assert(buf@.take(16)[i as int] != marker()[i as int]);
            return false;
        }
        i = i + 1;
    }
    assert(buf@.take(16) =~= marker());
    true
}

fn decode_prefixes(buf: &[u8], ap: bool) -> (r: Option<(Vec<Prefix>, Vec<u32>)>)
    ensures
        match r {
            Some((ps, ids)) => entries_in(buf@, ap) == Some((ps@, ids@)),
            None => entries_in(buf@, ap) is None,
        },
{
    proof {
        reveal(entries_in);
    }
    let es = match run::read_run::<Labelled>(buf, ap) {
        Some(es) => es,
        None => {
            return None;
        },
    };
    let ghost all = wire::views(es@);
    let mut ps: Vec<Prefix> = Vec::new();
    let mut ids: Vec<u32> = Vec::new();
    let mut i: usize = 0;
    while i < es.len()
        invariant
            i <= es.len(),
            all == wire::views(es@),
            ps@ =~= all.map_values(|e: Labelled| e.prefix).take(i as int),
            ap ==> ids@ =~= all.map_values(|e: Labelled| e.id).take(i as int),
            !ap ==> ids@ =~= Seq::<u32>::empty(),
        decreases es.len() - i,
    {
        assert(all[i as int] == es@[i as int]@);
        ps.push(es[i].prefix);
        if ap {
            ids.push(es[i].id);
        }
        i = i + 1;
    }
    assert(ps@ =~= all.map_values(|e: Labelled| e.prefix));
    if ap {
        assert(ids@ =~= all.map_values(|e: Labelled| e.id));
    }
    Some((ps, ids))
}

/// Decode the attributes of an UPDATE that take part; `Malformed` where one of them takes
/// the routes with it or appears twice.
pub fn decode_attributes(buf: &[u8], four_octet: bool) -> (r: Result<
    Vec<PathAttribute>,
    DecodeError,
>)
    ensures
        match r {
            Ok(attrs) => attributes_in(buf@, four_octet) == Some(wire::views(attrs@)),
            Err(e) => e == DecodeError::Malformed && attributes_in(buf@, four_octet) is None,
        },
{
    proof {
        reveal(attributes_in);
    }
    let os = match run::read_run::<AttrOutcome>(buf, four_octet) {
        Some(os) => os,
        None => {
            return Err(DecodeError::Malformed);
        },
    };
    let ghost all = wire::views(os@);
    if !all_distinct(&os) {
        return Err(DecodeError::Malformed);
    }
    Ok(keep_all(os))
}

fn all_distinct(os: &Vec<AttrOutcome>) -> (r: bool)
    ensures
        r == distinct(wire::views(os@)),
{
    let ghost all = wire::views(os@);
    let mut seen: Vec<bool> = Vec::new();
    let mut k: usize = 0;
    while k < 256
        invariant
            k <= 256,
            seen@.len() == k,
            forall|j: int| 0 <= j < k ==> !seen@[j],
        decreases 256 - k,
    {
        seen.push(false);
        k = k + 1;
    }
    let mut i: usize = 0;
    while i < os.len()
        invariant
            i <= os.len(),
            all == wire::views(os@),
            seen@.len() == 256,
            forall|j: int| 0 <= j < i ==> seen@[(#[trigger] all[j]).kind() as int],
            forall|c: int|
                0 <= c < 256 && #[trigger] seen@[c] ==> exists|j: int|
                    0 <= j < i && (#[trigger] all[j]).kind() == c,
            forall|a: int, b: int|
                0 <= a < b < i ==> (#[trigger] all[a]).kind() != (#[trigger] all[b]).kind(),
        decreases os.len() - i,
    {
        let c: usize = os[i].type_code() as usize;
        assert(all[i as int] == os@[i as int]@);
        if seen[c] {
            let ghost j = choose|j: int| 0 <= j < i && (#[trigger] all[j]).kind() == c;
            assert(all[j].kind() == all[i as int].kind());
            return false;
        }
        let ghost before = seen@;
        seen.set(c, true);
        assert forall|d: int| 0 <= d < 256 && #[trigger] seen@[d] implies exists|j: int|
            0 <= j < i + 1 && (#[trigger] all[j]).kind() == d by {
            if d != c {
                assert(before[d]);
                let j = choose|j: int| 0 <= j < i && (#[trigger] all[j]).kind() == d;
                assert(all[j].kind() == d);
            } else {
                assert(all[i as int].kind() == d);
            }
        }
        i = i + 1;
    }
    true
}

fn keep_all(os: Vec<AttrOutcome>) -> (r: Vec<PathAttribute>)
    ensures
        wire::views(r@) == kept(wire::views(os@)),
{
    let ghost all = wire::views(os@);
    let mut rest = os;
    let mut back: Vec<PathAttribute> = Vec::new();
    let ghost whole = kept(all);
    assert(reversed(wire::views(back@)) =~= Seq::<AttrView>::empty());
    assert(kept(all) + Seq::empty() =~= kept(all));
    while rest.len() > 0
        invariant
            kept(wire::views(rest@)) + reversed(wire::views(back@)) == whole,
        decreases rest.len(),
    {
        let ghost before = wire::views(rest@);
        let ghost tail = reversed(wire::views(back@));
        let last = rest.pop();
        assert(wire::views(rest@) =~= before.drop_last());
        if let Some(AttrOutcome::Keep(a)) = last {
            proof {
                assert(before.last() == OutcomeView::Keep(a@));
                wire::lemma_views_push(back@, a);
                assert(reversed(wire::views(back@.push(a))) =~= seq![a@] + tail);
                assert(kept(before.drop_last()).push(a@) + tail =~= kept(before.drop_last()) + (
                seq![a@] + tail));
            }
            back.push(a);
        }
    }
    let mut out: Vec<PathAttribute> = Vec::new();
    assert(kept(wire::views(rest@)) =~= Seq::<AttrView>::empty());
    assert(reversed(wire::views(back@)) =~= whole);
    assert(wire::views(out@) + reversed(wire::views(back@)) =~= whole);
    while back.len() > 0
        invariant
            wire::views(out@) + reversed(wire::views(back@)) == whole,
        decreases back.len(),
    {
        let ghost before = wire::views(back@);
        let ghost done = wire::views(out@);
        if let Some(a) = back.pop() {
            assert(wire::views(back@) =~= before.drop_last());
            assert(before.last() == a@);
            proof {
                wire::lemma_views_push(out@, a);
                assert(reversed(before) =~= seq![a@] + reversed(before.drop_last()));
                assert(done.push(a@) + reversed(before.drop_last()) =~= done + reversed(before));
            }
            out.push(a);
        }
    }
    assert(wire::views(out@) =~= whole);
    out
}

/// The other way round.
pub open spec fn reversed(s: Seq<AttrView>) -> Seq<AttrView> {
    Seq::new(s.len(), |i: int| s[s.len() - 1 - i])
}

fn mandatory_attributes_present(attrs: &Vec<PathAttribute>, has_nlri: bool) -> (r: bool)
    ensures
        r == complete(wire::views(attrs@), has_nlri),
{
    let ghost all = wire::views(attrs@);
    let mut mp = false;
    let mut origin = false;
    let mut as_path = false;
    let mut next_hop = false;
    let mut i: usize = 0;
    while i < attrs.len()
        invariant
            i <= attrs.len(),
            all == wire::views(attrs@),
            mp == (exists|j: int| 0 <= j < i && advertises(#[trigger] all[j])),
            origin == (exists|j: int| 0 <= j < i && (#[trigger] all[j]) is Origin),
            as_path == (exists|j: int| 0 <= j < i && (#[trigger] all[j]) is AsPath),
            next_hop == (exists|j: int| 0 <= j < i && (#[trigger] all[j]) is NextHop),
        decreases attrs.len() - i,
    {
        let ghost a = attrs@[i as int]@;
        assert(all[i as int] == a);
        let (m, o, p, n) = match &attrs[i] {
            PathAttribute::Origin(_) => (false, true, false, false),
            PathAttribute::AsPath(_) => (false, false, true, false),
            PathAttribute::NextHop(_) => (false, false, false, true),
            PathAttribute::MpReachNlri { .. } => (true, false, false, false),
            PathAttribute::MpReachEvpn { .. } => (true, false, false, false),
            PathAttribute::MpReachFlowSpec { .. } => (true, false, false, false),
            PathAttribute::MpReachSrPolicy { .. } => (true, false, false, false),
            PathAttribute::MpReachLinkState { .. } => (true, false, false, false),
            _ => (false, false, false, false),
        };
        mp = mp || m;
        origin = origin || o;
        as_path = as_path || p;
        next_hop = next_hop || n;
        i = i + 1;
    }
    (!has_nlri && !mp) || (origin && as_path && (!has_nlri || next_hop))
}

fn decode_open(body: &[u8]) -> (r: Result<Open, DecodeError>)
    ensures
        match r {
            Ok(o) => open_read(body@) == Ok::<OpenView, DecodeError>(o@),
            Err(e) => open_read(body@) == Err::<OpenView, DecodeError>(e),
        },
{
    if body.len() < 10 {
        return Err(DecodeError::TooShort);
    }
    if body[0] != VERSION {
        return Err(DecodeError::BadVersion(body[0]));
    }
    let n: usize = body[9] as usize;
    if body.len() < 10 + n {
        return Err(DecodeError::TooShort);
    }
    let my_as = wire::read_u16(body, 1);
    let identifier = Ipv4Addr { octets: wire::read_arr4(body, 5) };
    assert(identifier.octets@ =~= body@.subrange(5, 9));
    if my_as == 0 || net::IpAddr::V4(identifier).is_unspecified() {
        return Err(DecodeError::Malformed);
    }
    Ok(
        Open {
            version: body[0],
            my_as,
            hold_time: wire::read_u16(body, 3),
            identifier,
            capabilities: parse_optional_parameters(&body[10..10 + n]),
        },
    )
}

fn decode_update(body: &[u8], four_octet: bool, add_path: AddPath) -> (r: Result<
    Update,
    DecodeError,
>)
    ensures
        match r {
            Ok(u) => update_read(body@, four_octet, add_path.ipv4_unicast) == Ok::<
                UpdateView,
                DecodeError,
            >(u@),
            Err(e) => update_read(body@, four_octet, add_path.ipv4_unicast) == Err::<
                UpdateView,
                DecodeError,
            >(e),
        },
{
    let ap = add_path.ipv4_unicast;
    if body.len() < 4 {
        return Err(DecodeError::TooShort);
    }
    let wl: usize = wire::read_u16(body, 0) as usize;
    if body.len() < 2 + wl {
        return Err(DecodeError::Malformed);
    }
    let (mut withdrawn, mut withdrawn_path_ids) = match decode_prefixes(&body[2..2 + wl], ap) {
        Some(x) => x,
        None => {
            return Err(DecodeError::Malformed);
        },
    };
    if body.len() < 4 + wl {
        return Err(DecodeError::TooShort);
    }
    let al: usize = wire::read_u16(body, 2 + wl) as usize;
    if body.len() < 4 + wl + al {
        return Err(DecodeError::Malformed);
    }
    let (mut nlri, mut nlri_path_ids) = match decode_prefixes(
        &body[4 + wl + al..body.len()],
        ap,
    ) {
        Some(x) => x,
        None => {
            return Err(DecodeError::Malformed);
        },
    };
    if let Ok(attributes) = decode_attributes(&body[4 + wl..4 + wl + al], four_octet) {
        if mandatory_attributes_present(&attributes, nlri.len() > 0) {
            return Ok(
                Update { withdrawn, attributes, nlri, nlri_path_ids, withdrawn_path_ids },
            );
        }
    }
    let ghost (w, n) = ((withdrawn@, withdrawn_path_ids@), (nlri@, nlri_path_ids@));
    withdrawn.append(&mut nlri);
    withdrawn_path_ids.append(&mut nlri_path_ids);
    let r = Update {
        withdrawn,
        attributes: Vec::new(),
        nlri: Vec::new(),
        nlri_path_ids: Vec::new(),
        withdrawn_path_ids,
    };
    assert(r@ =~= all_withdrawn(w, n));
    Ok(r)
}

fn frame(kind: MessageType, body: &[u8]) -> (r: Vec<u8>)
    ensures
        r@ == framed(kind, body@),
{
    let mut out: Vec<u8> = Vec::new();
    let mut i: usize = 0;
    while i < 16
        invariant
            i <= 16,
            out@ =~= marker().take(i as int),
        decreases 16 - i,
    {
        out.push(0xff);
        i = i + 1;
    }
    assert(out@ =~= marker());
    let n: u16 = ((body.len() % 65536 + HEADER_LEN) % 65536) as u16;
    assert(n == (19 + body@.len()) % 65536);
    wire::push_u16(&mut out, n);
    let ghost head = out@;
    out.push(kind.as_u8());
    assert(out@ =~= head + seq![kind.code()]);
    wire::push_all(&mut out, body);
    out
}

impl Message {
    /// The type.
    pub fn message_type(&self) -> (r: MessageType)
        ensures
            r == self@.kind(),
    {
        match self {
            Message::Open(_) => MessageType::Open,
            Message::Update(_) => MessageType::Update,
            Message::Notification(_) => MessageType::Notification,
            Message::Keepalive => MessageType::Keepalive,
            Message::RouteRefresh { .. } => MessageType::RouteRefresh,
        }
    }

    fn encode_body(&self, out: &mut Vec<u8>, four_octet: bool, add_path: AddPath)
        ensures
            final(out)@ == old(out)@ + body_octets(self@, four_octet, add_path.ipv4_unicast),
    {
        match self {
            Message::Open(o) => encode_open(o, out),
            Message::Update(u) => encode_update(u, out, four_octet, add_path),
            Message::Notification(n) => {
                out.push(n.code);
                out.push(n.subcode);
                wire::push_all(out, n.data.as_slice());
            },
            Message::Keepalive => {},
            Message::RouteRefresh { afi, safi } => {
                wire::push_u16(out, *afi);
                out.push(0);
                out.push(*safi);
            },
        }
        assert(out@ =~= old(out)@ + body_octets(self@, four_octet, add_path.ipv4_unicast));
    }

    /// The octets of the message, header included.
    pub fn encode(&self, four_octet: bool, add_path: AddPath) -> (r: Vec<u8>)
        ensures
            r@ == message_octets(self@, four_octet, add_path.ipv4_unicast),
    {
        let mut body: Vec<u8> = Vec::new();
        self.encode_body(&mut body, four_octet, add_path);
        assert(body@ =~= body_octets(self@, four_octet, add_path.ipv4_unicast));
        frame(self.message_type(), body.as_slice())
    }

    fn decode_body(kind: MessageType, body: &[u8], four_octet: bool, add_path: AddPath) -> (r: Result<
        Message,
        DecodeError,
    >)
        ensures
            match r {
                Ok(m) => body_read(kind, body@, four_octet, add_path.ipv4_unicast) == Ok::<
                    MessageView,
                    DecodeError,
                >(m@),
                Err(e) => body_read(kind, body@, four_octet, add_path.ipv4_unicast) == Err::<
                    MessageView,
                    DecodeError,
                >(e),
            },
    {
        proof {
            reveal(body_read);
        }
        match kind {
            MessageType::Open => match decode_open(body) {
                Ok(o) => Ok(Message::Open(o)),
                Err(e) => Err(e),
            },
            MessageType::Update => match decode_update(body, four_octet, add_path) {
                Ok(u) => Ok(Message::Update(u)),
                Err(e) => Err(e),
            },
            MessageType::Notification => {
                if body.len() < 2 {
                    return Err(DecodeError::TooShort);
                }
                Ok(
                    Message::Notification(
                        Notification {
                            code: body[0],
                            subcode: body[1],
                            data: wire::copy_of(&body[2..body.len()]),
                        },
                    ),
                )
            },
            MessageType::Keepalive => if body.len() > 0 {
                Err(DecodeError::Malformed)
            } else {
                Ok(Message::Keepalive)
            },
            MessageType::RouteRefresh => if body.len() != 4 {
                Err(DecodeError::Malformed)
            } else {
                Ok(Message::RouteRefresh { afi: wire::read_u16(body, 0), safi: body[3] })
            },
        }
    }

    /// Decode a whole message. How wide AS numbers are, and which prefixes carry path
    /// identifiers, is for the session to know.
    pub fn decode(buf: &[u8], four_octet: bool, add_path: AddPath) -> (r: Result<
        Message,
        DecodeError,
    >)
        ensures
            match r {
                Ok(m) => message_read(buf@, four_octet, add_path.ipv4_unicast) == Ok::<
                    MessageView,
                    DecodeError,
                >(m@),
                Err(e) => message_read(buf@, four_octet, add_path.ipv4_unicast) == Err::<
                    MessageView,
                    DecodeError,
                >(e),
            },
    {
        if buf.len() < HEADER_LEN {
            return Err(DecodeError::TooShort);
        }
        if !is_marker(buf) {
            return Err(DecodeError::BadMarker);
        }
        let stated = wire::read_u16(buf, 16);
        if stated as usize != buf.len() || buf.len() > MAX_MESSAGE_LEN {
            return Err(DecodeError::BadLength { stated, actual: buf.len() });
        }
        match MessageType::from_u8(buf[18]) {
            None => Err(DecodeError::BadType(buf[18])),
            Some(kind) => Message::decode_body(
                kind,
                &buf[HEADER_LEN..buf.len()],
                four_octet,
                add_path,
            ),
        }
    }
}

/// The messages that survive their encoding: they keep to the largest length, their parts
/// survive, an OPEN is acceptable and its capabilities fit one parameter, and an UPDATE is
/// complete, has no attribute twice, and has a path identifier for each IPv4 prefix where
/// there are such and none where not.
pub open spec fn sendable(m: MessageView, four: bool, ap: bool) -> bool {
    &&& message_octets(m, four, ap).len() <= 4096
    &&& match m {
        MessageView::Open(o) => {
            &&& o.version == 4
            &&& o.my_as != 0
            &&& !net::is_zero(o.identifier.octets@)
            &&& forall|i: int|
                0 <= i < o.capabilities.len() ==> capability::encodable(
                    #[trigger] o.capabilities[i],
                )
            &&& run::run_octets::<Capability>(o.capabilities, Plain).len() <= 253
        },
        MessageView::Update(u) => {
            &&& plain(u.withdrawn, u.withdrawn_path_ids, ap)
            &&& plain(u.nlri, u.nlri_path_ids, ap)
            &&& forall|i: int|
                0 <= i < u.attributes.len() ==> attr::encodable(#[trigger] u.attributes[i], four)
            &&& distinct(kept_all(u.attributes))
            &&& complete(u.attributes, u.nlri.len() > 0)
        },
        _ => true,
    }
}

/// IPv4 prefixes, with a path identifier for each where there are such and none where not.
pub open spec fn plain(ps: Seq<Prefix>, ids: Seq<u32>, ap: bool) -> bool {
    &&& forall|i: int| 0 <= i < ps.len() ==> (#[trigger] ps[i]).wf() && ps[i].addr is V4
    &&& ids.len() == (if ap {
        ps.len()
    } else {
        0
    })
}

proof fn lemma_entries_back(ps: Seq<Prefix>, ids: Seq<u32>, ap: bool)
    requires
        plain(ps, ids, ap),
    ensures
        entries_in(entries(ps, ids, ap), ap) == Some((ps, ids)),
{
    reveal(entries_in);
    let es = labelled(ps, ids);
    assert forall|i: int| 0 <= i < es.len() implies Labelled::carried(#[trigger] es[i], ap) by {
        assert(ps[i].wf());
    }
    run::lemma_run_round_trip::<Labelled>(es, ap);
    assert(es.map_values(|e: Labelled| e.prefix) =~= ps);
    if ap {
        assert(es.map_values(|e: Labelled| e.id) =~= ids);
    } else {
        assert(ids =~= Seq::<u32>::empty());
    }
}

proof fn lemma_kept_back(attrs: Seq<AttrView>)
    ensures
        kept(kept_all(attrs)) == attrs,
    decreases attrs.len(),
{
    let os = kept_all(attrs);
    if attrs.len() > 0 {
        lemma_kept_back(attrs.drop_last());
        assert(os.drop_last() =~= kept_all(attrs.drop_last()));
        assert(attrs.drop_last().push(attrs.last()) =~= attrs);
    } else {
        assert(attrs =~= Seq::<AttrView>::empty());
    }
}

proof fn lemma_attributes_back(attrs: Seq<AttrView>, four: bool)
    requires
        forall|i: int| 0 <= i < attrs.len() ==> attr::encodable(#[trigger] attrs[i], four),
        distinct(kept_all(attrs)),
    ensures
        attributes_in(attributes_octets(attrs, four), four) == Some(attrs),
{
    reveal(attributes_in);
    let os = kept_all(attrs);
    assert forall|i: int| 0 <= i < os.len() implies AttrOutcome::carried(#[trigger] os[i], four) by {
        assert(attr::encodable(attrs[i], four));
    }
    run::lemma_run_round_trip::<AttrOutcome>(os, four);
    lemma_kept_back(attrs);
}

proof fn lemma_update_parts(w: Seq<u8>, a: Seq<u8>, n: Seq<u8>)
    requires
        w.len() <= 65535,
        a.len() <= 65535,
    ensures
        ({
            let b = wire::be16(w.len() as u16) + w + wire::be16(a.len() as u16) + a + n;
            let wl = w.len() as int;
            let al = a.len() as int;
            &&& b.len() >= 4 + wl + al
            &&& wire::u16_at(b, 0) == wl
            &&& b.subrange(2, 2 + wl) == w
            &&& wire::u16_at(b, 2 + wl) == al
            &&& b.subrange(4 + wl, 4 + wl + al) == a
            &&& wire::from_at(b, 4 + wl + al) == n
        }),
{
    let b = wire::be16(w.len() as u16) + w + wire::be16(a.len() as u16) + a + n;
    let wl = w.len() as int;
    let al = a.len() as int;
    assert(b.subrange(0, 2) =~= wire::be16(w.len() as u16));
    wire::lemma_u16_placed(b, 0, w.len() as u16);
    assert(b.subrange(2, 2 + wl) =~= w);
    assert(b.subrange(2 + wl, 4 + wl) =~= wire::be16(a.len() as u16));
    wire::lemma_u16_placed(b, 2 + wl, a.len() as u16);
    assert(b.subrange(4 + wl, 4 + wl + al) =~= a);
    assert(wire::from_at(b, 4 + wl + al) =~= n);
}

proof fn lemma_update_of(
    w: Seq<u8>,
    a: Seq<u8>,
    n: Seq<u8>,
    wv: (Seq<Prefix>, Seq<u32>),
    nv: (Seq<Prefix>, Seq<u32>),
    attributes: Seq<AttrView>,
    four: bool,
    ap: bool,
)
    requires
        w.len() <= 65535,
        a.len() <= 65535,
        entries_in(w, ap) == Some(wv),
        entries_in(n, ap) == Some(nv),
        attributes_in(a, four) == Some(attributes),
        complete(attributes, nv.0.len() > 0),
    ensures
        update_read(
            wire::be16(w.len() as u16) + w + wire::be16(a.len() as u16) + a + n,
            four,
            ap,
        ) == Ok::<UpdateView, DecodeError>(
            UpdateView {
                withdrawn: wv.0,
                attributes,
                nlri: nv.0,
                nlri_path_ids: nv.1,
                withdrawn_path_ids: wv.1,
            },
        ),
{
    lemma_update_parts(w, a, n);
}

#[verifier::rlimit(30)]
proof fn lemma_update_back(u: UpdateView, four: bool, ap: bool)
    requires
        plain(u.withdrawn, u.withdrawn_path_ids, ap),
        plain(u.nlri, u.nlri_path_ids, ap),
        forall|i: int|
            0 <= i < u.attributes.len() ==> attr::encodable(#[trigger] u.attributes[i], four),
        distinct(kept_all(u.attributes)),
        complete(u.attributes, u.nlri.len() > 0),
        update_octets(u, four, ap).len() <= 65535,
    ensures
        update_read(update_octets(u, four, ap), four, ap) == Ok::<UpdateView, DecodeError>(u),
{
    let w = entries(u.withdrawn, u.withdrawn_path_ids, ap);
    let a = attributes_octets(u.attributes, four);
    let n = entries(u.nlri, u.nlri_path_ids, ap);
    assert(w.len() <= 65535 && a.len() <= 65535);
    lemma_entries_back(u.withdrawn, u.withdrawn_path_ids, ap);
    lemma_entries_back(u.nlri, u.nlri_path_ids, ap);
    lemma_attributes_back(u.attributes, four);
    lemma_update_of(
        w,
        a,
        n,
        (u.withdrawn, u.withdrawn_path_ids),
        (u.nlri, u.nlri_path_ids),
        u.attributes,
        four,
        ap,
    );
}

proof fn lemma_open_parts(v: u8, my_as: u16, hold: u16, id: Seq<u8>, opt: Seq<u8>)
    requires
        id.len() == 4,
        opt.len() <= 255,
    ensures
        ({
            let b = seq![v] + wire::be16(my_as) + wire::be16(hold) + id + seq![opt.len() as u8]
                + opt;
            &&& b.len() == 10 + opt.len()
            &&& b[0] == v
            &&& wire::u16_at(b, 1) == my_as
            &&& wire::u16_at(b, 3) == hold
            &&& b.subrange(5, 9) == id
            &&& b[9] == opt.len()
            &&& b.subrange(10, 10 + opt.len() as int) == opt
        }),
{
    let b = seq![v] + wire::be16(my_as) + wire::be16(hold) + id + seq![opt.len() as u8] + opt;
    assert(b.subrange(1, 3) =~= wire::be16(my_as));
    wire::lemma_u16_placed(b, 1, my_as);
    assert(b.subrange(3, 5) =~= wire::be16(hold));
    wire::lemma_u16_placed(b, 3, hold);
    assert(b.subrange(5, 9) =~= id);
    assert(b.subrange(10, 10 + opt.len() as int) =~= opt);
}

proof fn lemma_open_of(b: Seq<u8>, o: OpenView)
    requires
        b.len() >= 10,
        b.len() >= 10 + b[9],
        b[0] == o.version,
        o.version == 4,
        wire::u16_at(b, 1) == o.my_as,
        o.my_as != 0,
        wire::u16_at(b, 3) == o.hold_time,
        !net::is_zero(b.subrange(5, 9)),
        wire::arr4_at(b, 5) == o.identifier.octets,
        capability::parameter_caps(b.subrange(10, 10 + b[9])) == o.capabilities,
    ensures
        open_read(b) == Ok::<OpenView, DecodeError>(o),
{
}

proof fn lemma_open_back(o: OpenView)
    requires
        o.version == 4,
        o.my_as != 0,
        !net::is_zero(o.identifier.octets@),
        forall|i: int|
            0 <= i < o.capabilities.len() ==> capability::encodable(#[trigger] o.capabilities[i]),
        run::run_octets::<Capability>(o.capabilities, Plain).len() <= 253,
    ensures
        open_read(open_octets(o)) == Ok::<OpenView, DecodeError>(o),
{
    let opt = capability::parameters(o.capabilities);
    let b = open_octets(o);
    assert(opt.len() <= 255);
    lemma_open_parts(o.version, o.my_as, o.hold_time, o.identifier.octets@, opt);
    wire::lemma_arr4_placed(b, 5, o.identifier.octets);
    assert(capability::parameter_caps(opt) == o.capabilities) by {
        capability::lemma_parameters_round_trip(o.capabilities);
    }
    lemma_open_of(b, o);
}

proof fn lemma_frame(kind: MessageType, b: Seq<u8>, four: bool, ap: bool)
    requires
        framed(kind, b).len() <= 4096,
    ensures
        message_read(framed(kind, b), four, ap) == body_read(kind, b, four, ap),
{
    let s = framed(kind, b);
    let n = (19 + b.len()) as u16;
    assert(s.take(16) =~= marker());
    assert(s.subrange(16, 18) =~= wire::be16(n));
    wire::lemma_u16_placed(s, 16, n);
    assert(wire::from_at(s, 19) =~= b);
}

/// A message that survives its encoding is read back.
pub proof fn lemma_message_round_trip(m: MessageView, four: bool, ap: bool)
    requires
        sendable(m, four, ap),
    ensures
        message_read(message_octets(m, four, ap), four, ap) == Ok::<MessageView, DecodeError>(m),
{
    reveal(body_read);
    let b = body_octets(m, four, ap);
    lemma_frame(m.kind(), b, four, ap);
    match m {
        MessageView::Open(o) => lemma_open_back(o),
        MessageView::Update(u) => lemma_update_back(u, four, ap),
        MessageView::Notification(n) => {
            assert(wire::from_at(b, 2) =~= n.data);
        },
        MessageView::Keepalive => {},
        MessageView::RouteRefresh { afi, safi } => {
            assert(b.subrange(0, 2) =~= wire::be16(afi));
            wire::lemma_u16_placed(b, 0, afi);
        },
    }
}

/// The attribute that the withdrawal of nothing is read as.
pub open spec fn nothing_withdrawn(afi: u16, safi: u8) -> AttrView {
    if afi == 25 && safi == 70 {
        AttrView::MpUnreachEvpn { withdrawn: Seq::empty() }
    } else if safi == 133 {
        AttrView::MpUnreachFlowSpec { afi, withdrawn: Seq::empty() }
    } else if safi == 73 {
        AttrView::MpUnreachSrPolicy { afi, withdrawn: Seq::empty() }
    } else if afi == 16388 && safi == 71 {
        AttrView::MpUnreachLinkState { withdrawn: Seq::empty() }
    } else {
        AttrView::MpUnreachNlri { afi, safi, withdrawn: Seq::empty() }
    }
}

proof fn lemma_nothing_withdrawn(afi: u16, safi: u8, four: bool)
    requires
        attr::understood(afi, safi),
    ensures
        attr::encodable(nothing_withdrawn(afi, safi), four),
        attr::value_octets(nothing_withdrawn(afi, safi), four) == attr::unreach_head(afi, safi),
        attr::attr_octets(nothing_withdrawn(afi, safi), four) == attr::attr_octets(
            AttrView::MpUnreachNlri { afi, safi, withdrawn: Seq::empty() },
            four,
        ),
{
    let a = nothing_withdrawn(afi, safi);
    let b = AttrView::MpUnreachNlri { afi, safi, withdrawn: Seq::empty() };
    assert(attr::value_octets(a, four) =~= attr::unreach_head(afi, safi));
    assert(attr::value_octets(b, four) =~= attr::unreach_head(afi, safi));
}

proof fn lemma_sole_attribute(a: AttrView, four: bool)
    ensures
        attributes_octets(seq![a], four) == attr::attr_octets(a, four),
{
    let os = kept_all(seq![a]);
    assert(os.len() == 1 && os[0] == OutcomeView::Keep(a));
    assert(os.drop_first() =~= Seq::empty());
    assert(run::run_octets::<AttrOutcome>(os.drop_first(), four) =~= Seq::empty());
    assert(attributes_octets(seq![a], four) =~= attr::attr_octets(a, four));
}

/// The marker of every family that is understood is still recognised as that family's once
/// it has been encoded and decoded.
pub proof fn lemma_marker_survives(afi: u16, safi: u8, four: bool, ap: bool)
    requires
        attr::understood(afi, safi),
    ensures
        message_read(
            message_octets(MessageView::Update(marker_of(afi, safi)), four, ap),
            four,
            ap,
        ) matches Ok(MessageView::Update(u)) && marked_family(u) == Some((afi, safi)),
{
    let m = marker_of(afi, safi);
    if afi == 1 && safi == 1 {
        lemma_message_round_trip(MessageView::Update(m), four, ap);
    } else {
        let a = nothing_withdrawn(afi, safi);
        let u = only(seq![a]);
        lemma_nothing_withdrawn(afi, safi, four);
        lemma_sole_attribute(a, four);
        lemma_sole_attribute(m.attributes[0], four);
        assert(m.attributes =~= seq![m.attributes[0]]);
        assert(update_octets(u, four, ap) == update_octets(m, four, ap));
        lemma_message_round_trip(MessageView::Update(u), four, ap);
    }
}

/// An UPDATE that is accepted is complete: whatever it advertises has an ORIGIN and an
/// AS_PATH, and a NEXT_HOP where it needs one.
pub proof fn lemma_accepted_update_is_complete(b: Seq<u8>, four: bool, ap: bool)
    ensures
        update_read(b, four, ap) matches Ok(u) ==> complete(u.attributes, u.nlri.len() > 0),
{
}

/// Broken attributes lose no prefix: whatever an accepted UPDATE named is either withdrawn
/// or advertised by it, and it advertises only where its attributes stand.
pub proof fn lemma_no_prefix_is_lost(b: Seq<u8>, four: bool, ap: bool)
    ensures
        update_read(b, four, ap) matches Ok(u) ==> {
            let wl = wire::u16_at(b, 0) as int;
            let al = wire::u16_at(b, 2 + wl) as int;
            let w = entries_in(b.subrange(2, 2 + wl), ap)->0;
            let n = entries_in(wire::from_at(b, 4 + wl + al), ap)->0;
            &&& u.withdrawn + u.nlri == w.0 + n.0
            &&& u.withdrawn_path_ids + u.nlri_path_ids == w.1 + n.1
            &&& (u.nlri.len() > 0 ==> attributes_in(
                b.subrange(4 + wl, 4 + wl + al),
                four,
            ) == Some(u.attributes))
        },
{
    if let Ok(u) = update_read(b, four, ap) {
        let wl = wire::u16_at(b, 0) as int;
        let al = wire::u16_at(b, 2 + wl) as int;
        let w = entries_in(b.subrange(2, 2 + wl), ap)->0;
        let n = entries_in(wire::from_at(b, 4 + wl + al), ap)->0;
        assert(u.withdrawn + u.nlri =~= w.0 + n.0);
        assert(u.withdrawn_path_ids + u.nlri_path_ids =~= w.1 + n.1);
    }
}

/// A message that is accepted has between 19 and 4096 octets, and says so.
pub proof fn lemma_accepted_length(s: Seq<u8>, four: bool, ap: bool)
    ensures
        message_read(s, four, ap) is Ok ==> 19 <= s.len() <= 4096 && wire::u16_at(s, 16)
            == s.len(),
{
}

/// An accepted UPDATE that advertises in the plain field has an ORIGIN, an AS_PATH and a
/// NEXT_HOP, and one that advertises in an attribute has an ORIGIN and an AS_PATH.
pub proof fn lemma_what_an_advertisement_has(b: Seq<u8>, four: bool, ap: bool, k: int)
    ensures
        update_read(b, four, ap) matches Ok(u) ==> ({
            let attrs = u.attributes;
            let origin = exists|i: int| 0 <= i < attrs.len() && (#[trigger] attrs[i]) is Origin;
            let path = exists|i: int| 0 <= i < attrs.len() && (#[trigger] attrs[i]) is AsPath;
            let hop = exists|i: int| 0 <= i < attrs.len() && (#[trigger] attrs[i]) is NextHop;
            let c = attrs[k];
            &&& u.nlri.len() > 0 ==> origin && path && hop
            &&& 0 <= k < attrs.len() && (c is MpReachNlri || c is MpReachEvpn || c is MpReachFlowSpec
                || c is MpReachSrPolicy || c is MpReachLinkState) ==> origin && path
        }),
{
    if let Ok(u) = update_read(b, four, ap) {
        if 0 <= k < u.attributes.len() && advertises(u.attributes[k]) {
            assert(some_advertises(u.attributes));
        }
        if u.nlri.len() > 0 || some_advertises(u.attributes) {
            assert(some_origin(u.attributes) && some_as_path(u.attributes));
        }
        if u.nlri.len() > 0 {
            assert(some_next_hop(u.attributes));
        }
    }
}

/// Nothing that is complete is withdrawn: attributes that advertise nothing need nothing
/// else; with an ORIGIN and an AS_PATH they may advertise routes of their own; and with a
/// NEXT_HOP besides those of the plain field too.
pub proof fn lemma_what_is_complete(attrs: Seq<AttrView>, i: int, j: int, k: int)
    requires
        0 <= i < attrs.len(),
        0 <= j < attrs.len(),
        0 <= k < attrs.len(),
    ensures
        attrs[i] is Origin && attrs[j] is AsPath ==> complete(attrs, false),
        attrs[i] is Origin && attrs[j] is AsPath && attrs[k] is NextHop ==> complete(attrs, true),
        (forall|m: int|
            0 <= m < attrs.len() ==> !((#[trigger] attrs[m]) is MpReachNlri || attrs[m] is MpReachEvpn
                || attrs[m] is MpReachFlowSpec || attrs[m] is MpReachSrPolicy
                || attrs[m] is MpReachLinkState)) ==> complete(attrs, false),
        complete(Seq::empty(), false),
{
    if forall|m: int|
        0 <= m < attrs.len() ==> !((#[trigger] attrs[m]) is MpReachNlri || attrs[m] is MpReachEvpn
            || attrs[m] is MpReachFlowSpec || attrs[m] is MpReachSrPolicy
            || attrs[m] is MpReachLinkState) {
        assert(!some_advertises(attrs));
    }
    assert(!some_advertises(Seq::empty()));
}

/// When a message is taken to be no message, and why: it is shorter than a header, its
/// first sixteen octets are not all ones, it does not have the length that it tells or has
/// more than 4096 octets, or its type is none of 1 to 5; in that order.
pub proof fn lemma_why_a_message_is_refused(s: Seq<u8>, four: bool, ap: bool)
    ensures
        ({
            let r = message_read(s, four, ap);
            let ones = forall|i: int| 0 <= i < 16 ==> #[trigger] s[i] == 255;
            let told = s[16] * 256 + s[17];
            &&& s.len() < 19 ==> r == Err::<MessageView, DecodeError>(DecodeError::TooShort)
            &&& s.len() >= 19 && !ones ==> r == Err::<MessageView, DecodeError>(
                DecodeError::BadMarker,
            )
            &&& s.len() >= 19 && ones && (told != s.len() || s.len() > 4096) ==> (r matches Err(
                DecodeError::BadLength { stated, actual },
            ) && stated == told)
            &&& s.len() >= 19 && ones && told == s.len() <= 4096 && !(1 <= s[18] <= 5) ==> r == Err::<
                MessageView,
                DecodeError,
            >(DecodeError::BadType(s[18]))
            &&& r is Ok ==> s.len() >= 19 && ones && told == s.len() <= 4096 && 1 <= s[18] <= 5
        }),
{
    reveal(body_read);
    if s.len() >= 19 {
        if s.take(16) == marker() {
            assert forall|i: int| 0 <= i < 16 implies #[trigger] s[i] == 255 by {
                assert(s.take(16)[i] == marker()[i]);
            }
        }
        if forall|i: int| 0 <= i < 16 ==> #[trigger] s[i] == 255 {
            assert(s.take(16) =~= marker());
        }
    }
}

/// When an OPEN is refused, and why: it is shorter than its fixed part or than its
/// parameters, it is of another version than 4, or its AS number or its identifier is zero.
/// What is accepted holds what stands in the octets.
pub proof fn lemma_why_an_open_is_refused(b: Seq<u8>)
    ensures
        ({
            let r = open_read(b);
            let zero_id = b[5] == 0 && b[6] == 0 && b[7] == 0 && b[8] == 0;
            &&& b.len() < 10 ==> r == Err::<OpenView, DecodeError>(DecodeError::TooShort)
            &&& b.len() >= 10 && b[0] != 4 ==> r == Err::<OpenView, DecodeError>(
                DecodeError::BadVersion(b[0]),
            )
            &&& b.len() >= 10 && b[0] == 4 && b.len() < 10 + b[9] ==> r == Err::<
                OpenView,
                DecodeError,
            >(DecodeError::TooShort)
            &&& b.len() >= 10 && b[0] == 4 && b.len() >= 10 + b[9] && ((b[1] == 0 && b[2] == 0)
                || zero_id) ==> r == Err::<OpenView, DecodeError>(DecodeError::Malformed)
            &&& b.len() >= 10 && b[0] == 4 && b.len() >= 10 + b[9] && !(b[1] == 0 && b[2] == 0)
                && !zero_id ==> (r matches Ok(o) && o.version == 4 && o.my_as == b[1] * 256 + b[2]
                && o.hold_time == b[3] * 256 + b[4] && o.identifier.octets@[0] == b[5]
                && o.identifier.octets@[1] == b[6] && o.identifier.octets@[2] == b[7]
                && o.identifier.octets@[3] == b[8])
        }),
{
    if b.len() >= 10 {
        let id = b.subrange(5, 9);
        assert(id[0] == b[5] && id[1] == b[6] && id[2] == b[7] && id[3] == b[8]);
        if b[5] == 0 && b[6] == 0 && b[7] == 0 && b[8] == 0 {
            assert(net::is_zero(id));
        }
    }
}

/// The other bodies: a NOTIFICATION has at least its two codes and keeps the rest as data, a
/// KEEPALIVE is empty, and a ROUTE-REFRESH has four octets, of which the third does not
/// count.
pub proof fn lemma_short_bodies(b: Seq<u8>, four: bool, ap: bool)
    ensures
        body_read(MessageType::Notification, b, four, ap) is Ok <==> b.len() >= 2,
        body_read(MessageType::Notification, b, four, ap) matches Ok(m) ==> (
        m matches MessageView::Notification(n) && n.code == b[0] && n.subcode == b[1] && n.data
            == b.subrange(2, b.len() as int)),
        body_read(MessageType::Keepalive, b, four, ap) is Ok <==> b.len() == 0,
        body_read(MessageType::RouteRefresh, b, four, ap) is Ok <==> b.len() == 4,
        body_read(MessageType::RouteRefresh, b, four, ap) matches Ok(m) ==> (
        m matches MessageView::RouteRefresh { afi, safi } && afi == b[0] * 256 + b[1] && safi
            == b[3]),
{
    reveal(body_read);
}

/// Where an attribute appears twice the routes of the UPDATE go: whatever it would have
/// advertised is withdrawn, and none of its attributes counts.
pub proof fn lemma_repeated_attributes(b: Seq<u8>, four: bool, ap: bool, i: int, j: int)
    requires
        update_read(b, four, ap) is Ok,
        ({
            let wl = wire::u16_at(b, 0) as int;
            let al = wire::u16_at(b, 2 + wl) as int;
            run::run_values::<AttrOutcome>(
                b.subrange(4 + wl, 4 + wl + al),
                four,
            ) matches Some(os) && 0 <= i < j < os.len() && os[i].kind() == os[j].kind()
        }),
    ensures
        update_read(b, four, ap) matches Ok(u) && u.attributes.len() == 0 && u.nlri.len() == 0,
{
    reveal(attributes_in);
}

/// The AS number, the restart time and what is said of several paths come from the first
/// capability that tells them.
pub proof fn lemma_the_first_tells(
    before: Seq<CapabilityView>,
    c: CapabilityView,
    after: Seq<CapabilityView>,
    afi: u16,
    safi: u8,
)
    ensures
        (forall|i: int| 0 <= i < before.len() ==> !((#[trigger] before[i]) is FourOctetAs))
            ==> first_as(before) is None && (c matches CapabilityView::FourOctetAs(asn) ==> first_as(
            before + seq![c] + after,
        ) == Some(asn)),
        (forall|i: int| 0 <= i < before.len() ==> !((#[trigger] before[i]) is GracefulRestart))
            ==> first_restart(before) is None && (c matches CapabilityView::GracefulRestart {
            restart_time,
            ..
        } ==> first_restart(before + seq![c] + after) == Some(restart_time)),
        (forall|i: int| 0 <= i < before.len() ==> !((#[trigger] before[i]) is AddPath))
            ==> first_paths(before, afi, safi) is None && (c matches CapabilityView::AddPath(fs)
            ==> (fs.len() > 0 && fs[0].0 == afi && fs[0].1 == safi ==> first_paths(
            before + seq![c] + after,
            afi,
            safi,
        ) == Some(fs[0].2))),
    decreases before.len(),
{
    let all = before + seq![c] + after;
    if before.len() > 0 {
        let rest = before.drop_first();
        assert(all.drop_first() =~= rest + seq![c] + after);
        assert(all[0] == before[0]);
        assert forall|i: int| 0 <= i < rest.len() implies rest[i] == #[trigger] before[i + 1] by {}
        lemma_the_first_tells(rest, c, after, afi, safi);
        if forall|i: int| 0 <= i < before.len() ==> !((#[trigger] before[i]) is FourOctetAs) {
            assert(!(before[0] is FourOctetAs));
            assert forall|i: int| 0 <= i < rest.len() implies !((#[trigger] rest[i]) is FourOctetAs) by {
                assert(rest[i] == before[i + 1]);
            }
        }
        if forall|i: int| 0 <= i < before.len() ==> !((#[trigger] before[i]) is GracefulRestart) {
            assert(!(before[0] is GracefulRestart));
            assert forall|i: int| 0 <= i < rest.len() implies !((#[trigger] rest[i])
                is GracefulRestart) by {
                assert(rest[i] == before[i + 1]);
            }
        }
        if forall|i: int| 0 <= i < before.len() ==> !((#[trigger] before[i]) is AddPath) {
            assert(!(before[0] is AddPath));
            assert forall|i: int| 0 <= i < rest.len() implies !((#[trigger] rest[i]) is AddPath) by {
                assert(rest[i] == before[i + 1]);
            }
        }
    } else {
        assert(all[0] == c);
    }
}

/// Among the families of a capability the first entry for a family tells.
pub proof fn lemma_the_first_family_tells(
    before: Seq<(u16, u8, u8)>,
    e: (u16, u8, u8),
    after: Seq<(u16, u8, u8)>,
)
    requires
        forall|i: int|
            0 <= i < before.len() ==> !((#[trigger] before[i]).0 == e.0 && before[i].1 == e.1),
    ensures
        family_paths(before, e.0, e.1) is None,
        family_paths(before + seq![e] + after, e.0, e.1) == Some(e.2),
    decreases before.len(),
{
    let all = before + seq![e] + after;
    if before.len() > 0 {
        let rest = before.drop_first();
        assert forall|i: int| 0 <= i < rest.len() implies !((#[trigger] rest[i]).0 == e.0
            && rest[i].1 == e.1) by {
            assert(rest[i] == before[i + 1]);
        }
        assert(all.drop_first() =~= rest + seq![e] + after);
        assert(all[0] == before[0]);
        lemma_the_first_family_tells(rest, e, after);
    } else {
        assert(all[0] == e);
    }
}

/// What a speaker offers: its own AS number, both unicast families, route refresh, and
/// graceful restart in which forwarding of both goes on.
pub proof fn lemma_what_is_offered(local_as: u32)
    ensures
        ({
            let caps = offered(local_as);
            &&& first_as(caps) == Some(local_as)
            &&& caps.contains(CapabilityView::Multiprotocol { afi: 1, safi: 1 })
            &&& caps.contains(CapabilityView::Multiprotocol { afi: 2, safi: 1 })
            &&& caps.contains(CapabilityView::RouteRefresh)
            &&& first_restart(caps) == Some(DEFAULT_RESTART_TIME)
            &&& preserves(caps[4], 1, 1)
            &&& preserves(caps[4], 2, 1)
            &&& caps.len() == 5
        }),
{
    let caps = offered(local_as);
    assert(caps[1] == CapabilityView::Multiprotocol { afi: 1, safi: 1 });
    assert(caps[2] == CapabilityView::Multiprotocol { afi: 2, safi: 1 });
    assert(caps[3] == CapabilityView::RouteRefresh);
    lemma_the_first_tells(caps.take(4), caps[4], Seq::empty(), 1, 1);
    assert(caps =~= caps.take(4) + seq![caps[4]] + Seq::empty());
    let fs = caps[4]->families;
    assert(fs[0] == (1u16, 1u8, true));
    assert(fs[1] == (2u16, 1u8, true));
}

/// No route of an accepted UPDATE is lost: what its first field holds is withdrawn, and
/// what its last field holds is advertised as it stands there, or is withdrawn behind the
/// rest while none of the attributes counts.
pub proof fn lemma_no_route_is_lost(
    b: Seq<u8>,
    four: bool,
    ap: bool,
    wl: int,
    al: int,
    w: Seq<Labelled>,
    n: Seq<Labelled>,
)
    requires
        wl == b[0] * 256 + b[1],
        al == b[2 + wl] * 256 + b[3 + wl],
        b.len() >= 4 + wl + al,
        run::run_values::<Labelled>(b.subrange(2, 2 + wl), ap) == Some(w),
        run::run_values::<Labelled>(b.subrange(4 + wl + al, b.len() as int), ap) == Some(n),
    ensures
        update_read(b, four, ap) matches Ok(u) && {
            &&& forall|i: int| 0 <= i < w.len() ==> #[trigger] u.withdrawn[i] == w[i].prefix
            &&& ap ==> forall|i: int|
                0 <= i < w.len() ==> #[trigger] u.withdrawn_path_ids[i] == w[i].id
            &&& u.nlri.len() > 0 || n.len() == 0 ==> u.withdrawn.len() == w.len() && u.nlri.len()
                == n.len()
            &&& u.nlri.len() > 0 ==> forall|i: int|
                0 <= i < n.len() ==> #[trigger] u.nlri[i] == n[i].prefix
            &&& u.nlri.len() > 0 && ap ==> forall|i: int|
                0 <= i < n.len() ==> #[trigger] u.nlri_path_ids[i] == n[i].id
            &&& u.nlri.len() == 0 && n.len() > 0 ==> u.attributes.len() == 0 && u.withdrawn.len()
                == w.len() + n.len()
            &&& u.nlri.len() == 0 ==> forall|i: int|
                0 <= i < n.len() ==> u.withdrawn[w.len() + i] == #[trigger] n[i].prefix
            &&& u.nlri.len() == 0 && ap ==> forall|i: int|
                0 <= i < n.len() ==> u.withdrawn_path_ids[w.len() + i] == #[trigger] n[i].id
            &&& u.withdrawn_path_ids.len() == (if ap {
                u.withdrawn.len()
            } else {
                0
            })
            &&& u.nlri_path_ids.len() == (if ap {
                u.nlri.len()
            } else {
                0
            })
        },
{
    reveal(entries_in);
    let (ps, qs) = (w.map_values(|e: Labelled| e.prefix), n.map_values(|e: Labelled| e.prefix));
    let (is, js) = (w.map_values(|e: Labelled| e.id), n.map_values(|e: Labelled| e.id));
    assert(wire::u16_at(b, 0) == wl && wire::u16_at(b, 2 + wl) == al);
    assert(forall|i: int| 0 <= i < w.len() ==> #[trigger] (ps + qs)[i] == w[i].prefix);
    assert(forall|i: int| 0 <= i < w.len() ==> #[trigger] (is + js)[i] == w[i].id);
    assert(entries_in(b.subrange(2, 2 + wl), ap) is Some);
    assert(entries_in(wire::from_at(b, 4 + wl + al), ap) is Some);
    let e = Seq::<u32>::empty();
    assert((e + e).len() == 0);
    assert(n.len() == 0 ==> ps + qs =~= ps && is + js =~= is);
}

/// A prefix of the plain fields stands behind four octets of path identifier where there are
/// such, and its identifier is zero where not.
pub proof fn lemma_what_an_entry_says(s: Seq<u8>, ap: bool)
    ensures
        ({
            let h = if ap {
                4int
            } else {
                0
            };
            let r = entry_front(s, ap);
            &&& r is Some <==> s.len() > h && s[h] <= 32 && 8 * (s.len() - h - 1) >= s[h]
            &&& r matches Some((e, used)) ==> e.prefix.len == s[h] && e.prefix.addr is V4 && 0 <= 8 * (
            used - h - 1) - s[h] < 8 && e.id == (if ap {
                s[0] * 16777216 + s[1] * 65536 + s[2] * 256 + s[3]
            } else {
                0
            })
        }),
{
    let h = if ap {
        4int
    } else {
        0
    };
    if s.len() >= h {
        bgp::lemma_which_prefixes_are_read(wire::from_at(s, h), 0);
    }
}

/// A family goes on being forwarded exactly where an entry for it says so, and has next hops
/// of another family exactly where an entry names the two.
pub proof fn lemma_what_capabilities_tell(c: CapabilityView, afi: u16, safi: u8, nh_afi: u16)
    ensures
        preserves(c, afi, safi) <==> (c matches CapabilityView::GracefulRestart { families, .. }
            && exists|i: int|
            0 <= i < families.len() && (#[trigger] families[i]).0 == afi && families[i].1 == safi
                && families[i].2),
        extends(c, afi, safi, nh_afi) <==> (c matches CapabilityView::ExtendedNextHop(ts) && exists|
            i: int,
        |
            0 <= i < ts.len() && (#[trigger] ts[i]).0 == afi && ts[i].1 == safi && ts[i].2 == nh_afi),
{
    if let CapabilityView::GracefulRestart { families, .. } = c {
        if exists|i: int|
            0 <= i < families.len() && (#[trigger] families[i]).0 == afi && families[i].1 == safi
                && families[i].2 {
            let i = choose|i: int|
                0 <= i < families.len() && (#[trigger] families[i]).0 == afi && families[i].1 == safi
                    && families[i].2;
            assert(families[i] == (afi, safi, true));
        }
    }
    if let CapabilityView::ExtendedNextHop(ts) = c {
        if exists|i: int|
            0 <= i < ts.len() && (#[trigger] ts[i]).0 == afi && ts[i].1 == safi && ts[i].2 == nh_afi {
            let i = choose|i: int|
                0 <= i < ts.len() && (#[trigger] ts[i]).0 == afi && ts[i].1 == safi && ts[i].2
                    == nh_afi;
            assert(ts[i] == (afi, safi as u16, nh_afi));
        }
    }
}

/// What is no End-of-RIB marker: an UPDATE that withdraws or advertises a prefix, in its fields
/// or in an attribute, or that has more than one attribute, or one of another type.
pub proof fn lemma_what_is_no_marker(u: UpdateView)
    ensures
        marked_family(u) is Some <==> u.withdrawn.len() == 0 && u.nlri.len() == 0 && (
        u.attributes.len() == 0 || (u.attributes.len() == 1 && match u.attributes[0] {
            AttrView::MpUnreachNlri { withdrawn, .. } => withdrawn.len() == 0,
            AttrView::MpUnreachEvpn { withdrawn } => withdrawn.len() == 0,
            AttrView::MpUnreachFlowSpec { withdrawn, .. } => withdrawn.len() == 0,
            AttrView::MpUnreachSrPolicy { withdrawn, .. } => withdrawn.len() == 0,
            AttrView::MpUnreachLinkState { withdrawn } => withdrawn.len() == 0,
            _ => false,
        })),
        marked_family(u) is Some && u.attributes.len() == 0 ==> marked_family(u) == Some((1u16, 1u8)),
        marked_family(u) is Some && u.attributes.len() == 1 ==> match u.attributes[0] {
            AttrView::MpUnreachNlri { afi, safi, .. } => marked_family(u) == Some((afi, safi)),
            AttrView::MpUnreachEvpn { .. } => marked_family(u) == Some((25u16, 70u8)),
            AttrView::MpUnreachFlowSpec { afi, .. } => marked_family(u) == Some((afi, 133u8)),
            AttrView::MpUnreachSrPolicy { afi, .. } => marked_family(u) == Some((afi, 73u8)),
            AttrView::MpUnreachLinkState { .. } => marked_family(u) == Some((16388u16, 71u8)),
            _ => false,
        },
{
}

} // verus!
