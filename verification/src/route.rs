//! Routes as a routing table takes them.

use vstd::prelude::*;

use crate::net::{IpAddr, Prefix};
use crate::order::Datum;
use crate::wire;

verus! {

/// The protocol that a route comes from.
#[derive(Clone, Copy, PartialEq, Eq, Structural, Debug)]
pub enum Protocol {
    Bgp,
}

/// Where packets are sent: to a neighbour, and out of a certain interface where one must
/// be used.
#[derive(Clone, PartialEq, Eq, Debug)]
pub struct NextHop {
    pub addr: IpAddr,
    pub dev: Option<String>,
}

/// A next hop as a mathematical value.
pub struct HopView {
    pub addr: IpAddr,
    pub dev: Option<Seq<char>>,
}

/// The text of a name, where there is one.
pub open spec fn name_view(s: Option<String>) -> Option<Seq<char>> {
    match s {
        Some(n) => Some(n@),
        None => None,
    }
}

/// A copy of a name.
pub fn dup_name(s: &Option<String>) -> (r: Option<String>)
    ensures
        name_view(r) == name_view(*s),
{
    match s {
        Some(n) => Some(n.clone()),
        None => None,
    }
}

/// Whether two names are one.
pub fn same_name(a: &Option<String>, b: &Option<String>) -> (r: bool)
    ensures
        r == (name_view(*a) == name_view(*b)),
{
    match (a, b) {
        (Some(x), Some(y)) => *x == *y,
        (None, None) => true,
        _ => false,
    }
}

impl View for NextHop {
    type V = HopView;

    open spec fn view(&self) -> HopView {
        HopView { addr: self.addr, dev: name_view(self.dev) }
    }
}

impl Datum for NextHop {
    fn dup(&self) -> (r: NextHop) {
        NextHop { addr: self.addr, dev: dup_name(&self.dev) }
    }

    fn same(&self, other: &NextHop) -> (r: bool) {
        self.addr.same(&other.addr) && same_name(&self.dev, &other.dev)
    }
}

impl NextHop {
    /// By way of a neighbour.
    pub fn via(addr: IpAddr) -> (r: NextHop)
        ensures
            r@ == (HopView { addr, dev: None }),
    {
        NextHop { addr, dev: None }
    }

    /// By way of a neighbour on a certain interface.
    pub fn via_dev(addr: IpAddr, dev: String) -> (r: NextHop)
        ensures
            r@ == (HopView { addr, dev: Some(dev@) }),
    {
        NextHop { addr, dev: Some(dev) }
    }
}

/// A route to a destination.
#[derive(Clone, PartialEq, Eq, Debug)]
pub struct Route {
    pub prefix: Prefix,
    pub protocol: Protocol,
    pub nexthops: Vec<NextHop>,
    pub metric: u32,
}

/// A route as a mathematical value.
pub struct RouteView {
    pub prefix: Prefix,
    pub protocol: Protocol,
    pub nexthops: Seq<HopView>,
    pub metric: u32,
}

impl View for Route {
    type V = RouteView;

    open spec fn view(&self) -> RouteView {
        RouteView {
            prefix: self.prefix,
            protocol: self.protocol,
            nexthops: wire::views(self.nexthops@),
            metric: self.metric,
        }
    }
}

impl Route {
    /// A route.
    pub fn new(prefix: Prefix, protocol: Protocol, nexthops: Vec<NextHop>, metric: u32) -> (r:
        Route)
        ensures
            r@ == (RouteView { prefix, protocol, nexthops: wire::views(nexthops@), metric }),
    {
        Route { prefix, protocol, nexthops, metric }
    }
}

} // verus!
