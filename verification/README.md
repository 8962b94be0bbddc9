# wren

The protocol cores of a routing daemon, as verified Rust: Babel, BFD and BGP. Everything is
a value or a function of values. Codecs turn octets into values and back, tables choose among
the routes that neighbours offer, and state machines map an event to the actions that whoever
drives them has to carry out. Nothing here opens a socket or reads a clock.

## Layout

| Module | What it holds |
|---|---|
| `net`, `route` | addresses, prefixes, next hops and routes |
| `wire`, `text`, `run` | integers as octets, numbers and addresses as text, runs of records |
| `order`, `sorted_map` | a total order by rank, and maps sorted by it |
| `babel` | packets and TLVs (RFC 8966), the neighbour table, the route table with the feasibility condition |
| `bfd` | control packets (RFC 5880), authentication with MD5 and SHA-1, the session state machine |
| `bgp` | messages, path attributes and capabilities (RFC 4271 and its extensions) |
| `bgp::decision`, `bgp::selection`, `bgp::table` | the decision process, and the table of offers and choices that the RIBs share |
| `bgp::rib`, `bgp::*_rib` | the RIBs of unicast, EVPN, FlowSpec, link state and SR policies |
| `bgp::fsm` | the session state machine |
| `bgp::rpki`, `bgp::rtr`, `bgp::bmp` | origin validation, the protocol that feeds it, and monitoring |

`app/` holds the one text that needs floating point.

## What is proved

Each function has a contract over mathematical values: octet strings, sequences, and views of
the types. Codecs have round-trip lemmas, which say what is read back of what was written and
on which values. Tables have an invariant that every operation keeps: the choice that is held
for a destination is the one that the decision process makes among its offers. On top of the
contracts stand laws that relate several calls, as public `proof` functions named `lemma_..`:
that an offer which comes to a BGP table again changes nothing, that taking back a new offer
gives back the table that there was, that the order in which peers speak does not matter, that
Babel never selects a route that is not feasible and is silent when it hears the selected route
again, that BFD under a meticulous type accepts no packet twice until the sequence numbers have
gone round to within three times the Detect Mult, and so on.

One function of the standard library is trusted, `String::from_utf8_lossy`, in `text`.
