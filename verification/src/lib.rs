//! The protocol cores of a routing daemon: Babel, BFD and BGP, as pure values and
//! functions. Nothing here opens a socket or reads a clock: the codecs turn
//! octets into values and back, the tables select routes, and the state machines
//! map an event to the actions that a runner has to carry out.

pub mod babel;
pub mod bfd;
pub mod bgp;
pub mod net;
pub mod order;
pub mod route;
pub mod run;
pub mod sorted_map;
pub mod text;
pub mod wire;
