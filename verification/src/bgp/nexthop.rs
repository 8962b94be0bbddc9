//! IPv6 next hops in MP_REACH_NLRI (RFC 2545 §3): a global address, and behind it the
//! link-local one where both ends share a link.

use vstd::prelude::*;

use crate::net::Ipv6Addr;
use crate::wire;

verus! {

/// The field: the global address, and the link-local one where there is one.
pub open spec fn next_hop_octets(global: Ipv6Addr, link_local: Option<Ipv6Addr>) -> Seq<u8> {
    global.octets@ + (match link_local {
        Some(l) => l.octets@,
        None => Seq::empty(),
    })
}

/// The addresses that a field holds: a second one counts only where it is link-local.
pub open spec fn next_hop_read(s: Seq<u8>) -> Option<(Ipv6Addr, Option<Ipv6Addr>)> {
    if s.len() < 16 {
        None
    } else {
        let second = Ipv6Addr { octets: wire::arr16_at(s, 16) };
        Some(
            (
                Ipv6Addr { octets: wire::arr16_at(s, 0) },
                if s.len() >= 32 && second.link_local() {
                    Some(second)
                } else {
                    None
                },
            ),
        )
    }
}

/// The next-hop field for a global address and, where both ends share a link, a
/// link-local one.
pub fn encode_v6_next_hop(global: Ipv6Addr, link_local: Option<Ipv6Addr>) -> (r: Vec<u8>)
    ensures
        r@ == next_hop_octets(global, link_local),
{
    let mut out: Vec<u8> = Vec::new();
    wire::push_all(&mut out, global.octets.as_slice());
    if let Some(l) = link_local {
        wire::push_all(&mut out, l.octets.as_slice());
    }
    assert(out@ =~= next_hop_octets(global, link_local));
    out
}

/// The addresses of a next-hop field; `None` where it is shorter than an address.
pub fn decode_v6_next_hop(field: &[u8]) -> (r: Option<(Ipv6Addr, Option<Ipv6Addr>)>)
    ensures
        r == next_hop_read(field@),
{
    if field.len() < 16 {
        return None;
    }
    let global = Ipv6Addr { octets: wire::read_arr16(field, 0) };
    if field.len() >= 32 {
        let second = Ipv6Addr { octets: wire::read_arr16(field, 16) };
        if second.is_link_local() {
            return Some((global, Some(second)));
        }
    }
    Some((global, None))
}

/// Next hops are read back, a second one where it is link-local.
pub proof fn lemma_next_hop_round_trip(global: Ipv6Addr, link_local: Option<Ipv6Addr>)
    requires
        link_local matches Some(l) ==> l.link_local(),
    ensures
        next_hop_read(next_hop_octets(global, link_local)) == Some((global, link_local)),
{
    let s = next_hop_octets(global, link_local);
    assert(s.subrange(0, 16) =~= global.octets@);
    wire::lemma_arr16_placed(s, 0, global.octets);
    if let Some(l) = link_local {
        assert(s.subrange(16, 32) =~= l.octets@);
        wire::lemma_arr16_placed(s, 16, l.octets);
    }
}

/// Which addresses a field holds: the first where there are sixteen octets, and a second
/// exactly where sixteen more follow that begin with the ten bits of `fe80::/10`.
pub proof fn lemma_which_addresses_are_read(s: Seq<u8>, i: int)
    ensures
        next_hop_read(s) is Some <==> s.len() >= 16,
        next_hop_read(s) matches Some((global, second)) ==> {
            &&& 0 <= i < 16 ==> global.octets@[i] == s[i]
            &&& second is Some <==> s.len() >= 32 && s[16] == 0xfe && 0x80 <= s[17] <= 0xbf
            &&& second matches Some(l) ==> (0 <= i < 16 ==> l.octets@[i] == s[16 + i])
        },
{
}

} // verus!
