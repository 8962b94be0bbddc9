//! BGP extended communities (RFC 4360, RFC 5668): eight octets, of which Route Targets
//! and Route Origins have a textual form.
//!
//! | Form | Type | Administrator | Value | Text |
//! |---|---|---|---|---|
//! | two-octet AS | 0 | 2-octet AS | 4 octets | `rt:65001:100` |
//! | IPv4 address | 1 | IPv4 | 2 octets | `rt:192.0.2.1:100` |
//! | four-octet AS | 2 | 4-octet AS | 2 octets | `rt:65536:100` |
//!
//! Anything else is written `0x` and sixteen hexadecimal digits.

use vstd::prelude::*;
use vstd::string::*;

use crate::net::Ipv4Addr;
use crate::text;
use crate::wire;

verus! {

/// One extended community: the eight octets.
pub type ExtCommunity = [u8; 8];

/// Sub-type of a Route Target.
pub const SUBTYPE_ROUTE_TARGET: u8 = 0x02;

/// Sub-type of a Route Origin.
pub const SUBTYPE_ROUTE_ORIGIN: u8 = 0x03;

/// The octets that sixteen hexadecimal digits denote.
pub open spec fn hex_eight(h: Seq<char>) -> Option<Seq<u8>> {
    if h.len() == 16 && (forall|i: int|
        0 <= i < 8 ==> #[trigger] text::hex_pair(h[2 * i], h[2 * i + 1]) is Some) {
        Some(Seq::new(8, |i: int| text::hex_pair(h[2 * i], h[2 * i + 1])->0))
    } else {
        None
    }
}

/// The sub-type that a word names.
pub open spec fn kind_subtype(k: Seq<char>) -> Option<u8> {
    if text::lower(k) == "rt"@ {
        Some(2u8)
    } else if text::lower(k) == "ro"@ || text::lower(k) == "soo"@ {
        Some(3u8)
    } else {
        None
    }
}

/// The octets of sub-type `sub` with administrator and value: an IPv4 administrator or a
/// 32-bit AS number leaves two octets for the value, a 16-bit AS number four.
pub open spec fn structured(sub: u8, admin: Seq<char>, value: Seq<char>) -> Option<Seq<u8>> {
    match text::quad(admin) {
        Some(ip) => match text::number(value, 65535) {
            Some(v) => Some(seq![1u8, sub] + ip@ + wire::be16(v as u16)),
            None => None,
        },
        None => match text::number(admin, 4294967295) {
            Some(asn) => if asn <= 65535 {
                match text::number(value, 4294967295) {
                    Some(v) => Some(seq![0u8, sub] + wire::be16(asn as u16) + wire::be32(v as u32)),
                    None => None,
                }
            } else {
                match text::number(value, 65535) {
                    Some(v) => Some(seq![2u8, sub] + wire::be32(asn as u32) + wire::be16(v as u16)),
                    None => None,
                }
            },
            None => None,
        },
    }
}

/// The extended community that a trimmed text denotes.
pub open spec fn ext_value(t: Seq<char>) -> Option<Seq<u8>> {
    if t.len() >= 2 && t[0] == '0' && (t[1] == 'x' || t[1] == 'X') {
        hex_eight(t.skip(2))
    } else {
        match text::cut(t, ':') {
            Some((kind, rest)) => match (kind_subtype(kind), text::cut(rest, ':')) {
                (Some(sub), Some((admin, value))) => structured(sub, admin, value),
                _ => None,
            },
            None => None,
        }
    }
}

/// The sixteen hexadecimal digits of eight octets.
pub open spec fn hex_digits(c: Seq<u8>) -> Seq<char>
    decreases c.len(),
{
    if c.len() == 0 {
        Seq::empty()
    } else {
        hex_digits(c.drop_last()) + text::hex_octet(c.last())
    }
}

/// The text of an extended community.
pub open spec fn ext_text(c: Seq<u8>) -> Seq<char> {
    let colon = seq![':'];
    let prefix = if c[1] == 2 {
        "rt"@
    } else {
        "ro"@
    };
    if (c[1] == 2 || c[1] == 3) && c[0] == 0 {
        prefix + colon + text::decimal(wire::u16_at(c, 2) as nat) + colon + text::decimal(
            wire::u32_at(c, 4) as nat,
        )
    } else if (c[1] == 2 || c[1] == 3) && c[0] == 1 {
        prefix + colon + text::dotted(c.subrange(2, 6)) + colon + text::decimal(
            wire::u16_at(c, 6) as nat,
        )
    } else if (c[1] == 2 || c[1] == 3) && c[0] == 2 {
        prefix + colon + text::decimal(wire::u32_at(c, 2) as nat) + colon + text::decimal(
            wire::u16_at(c, 6) as nat,
        )
    } else {
        "0x"@ + hex_digits(c)
    }
}

fn parse_hex_eight(h: &[char]) -> (r: Option<ExtCommunity>)
    ensures
        match r {
            Some(c) => hex_eight(h@) == Some(c@),
            None => hex_eight(h@) is None,
        },
{
    if h.len() != 16 {
        return None;
    }
    let mut out: Vec<u8> = Vec::new();
    let mut i: usize = 0;
    while i < 8
        invariant
            i <= 8,
            h@.len() == 16,
            out@.len() == i,
            forall|j: int|
                0 <= j < i ==> #[trigger] text::hex_pair(h@[2 * j], h@[2 * j + 1]) == Some(out@[j]),
        decreases 8 - i,
    {
        match text::parse_hex_pair(h[2 * i], h[2 * i + 1]) {
            Some(b) => {
                out.push(b);
            },
            None => {
                assert(text::hex_pair(h@[2 * i as int], h@[2 * i as int + 1]) is None);
                return None;
            },
        }
        i = i + 1;
    }
    let r = wire::read_arr8(out.as_slice(), 0);
    assert(r@ =~= out@);
    assert(r@ =~= hex_eight(h@)->0);
    Some(r)
}

fn parse_structured(sub: u8, admin: &[char], value: &[char]) -> (r: Option<ExtCommunity>)
    ensures
        match r {
            Some(c) => structured(sub, admin@, value@) == Some(c@),
            None => structured(sub, admin@, value@) is None,
        },
{
    let mut out: Vec<u8> = Vec::new();
    match text::parse_quad(admin) {
        Some(ip) => {
            match text::parse_number(value, 65535) {
                Some(v) => {
                    out.push(1);
                    out.push(sub);
                    wire::push_all(&mut out, ip.as_slice());
                    wire::push_u16(&mut out, v as u16);
                },
                None => {
                    return None;
                },
            }
        },
        None => {
            let asn = match text::parse_number(admin, 4294967295) {
                Some(a) => a,
                None => {
                    return None;
                },
            };
            if asn <= 65535 {
                match text::parse_number(value, 4294967295) {
                    Some(v) => {
                        out.push(0);
                        out.push(sub);
                        wire::push_u16(&mut out, asn as u16);
                        wire::push_u32(&mut out, v);
                    },
                    None => {
                        return None;
                    },
                }
            } else {
                match text::parse_number(value, 65535) {
                    Some(v) => {
                        out.push(2);
                        out.push(sub);
                        wire::push_u32(&mut out, asn);
                        wire::push_u16(&mut out, v as u16);
                    },
                    None => {
                        return None;
                    },
                }
            }
        },
    }
    assert(out@ =~= structured(sub, admin@, value@)->0);
    let r = wire::read_arr8(out.as_slice(), 0);
    assert(r@ =~= out@);
    Some(r)
}

/// Parse an extended community from text. `None` where it is malformed.
pub fn parse_ext_community(s: &str) -> (r: Option<ExtCommunity>)
    ensures
        match r {
            Some(c) => ext_value(text::trimmed(s@)) == Some(c@),
            None => ext_value(text::trimmed(s@)) is None,
        },
{
    let t = text::trim(s);
    let t = t.as_slice();
    if t.len() >= 2 && t[0] == '0' && (t[1] == 'x' || t[1] == 'X') {
        assert(t@.subrange(2, t@.len() as int) =~= t@.skip(2));
        return parse_hex_eight(&t[2..t.len()]);
    }
    let i = match text::find(t, ':') {
        Some(i) => i,
        None => {
            return None;
        },
    };
    assert(i < t.len());
    let kind = &t[0..i];
    let rest = &t[i + 1..t.len()];
    assert(kind@ =~= t@.take(i as int));
    assert(rest@ =~= t@.skip(i + 1));
    let sub: u8 = if text::same_word(kind, "rt") {
        SUBTYPE_ROUTE_TARGET
    } else if text::same_word(kind, "ro") || text::same_word(kind, "soo") {
        SUBTYPE_ROUTE_ORIGIN
    } else {
        return None;
    };
    let j = match text::find(rest, ':') {
        Some(j) => j,
        None => {
            return None;
        },
    };
    assert(j < rest.len());
    assert(rest@.subrange(0, j as int) =~= rest@.take(j as int));
    assert(rest@.subrange(j + 1, rest@.len() as int) =~= rest@.skip(j + 1));
    parse_structured(sub, &rest[0..j], &rest[j + 1..rest.len()])
}

/// Format an extended community as text.
pub fn format_ext_community(c: ExtCommunity) -> (r: String)
    ensures
        r@ == ext_text(c@),
{
    let mut out = String::new();
    let known = c[1] == SUBTYPE_ROUTE_TARGET || c[1] == SUBTYPE_ROUTE_ORIGIN;
    if known && c[0] <= 2 {
        proof {
            reveal_strlit(":");
            assert(":"@ =~= seq![':']);
        }
        if c[1] == SUBTYPE_ROUTE_TARGET {
            out.append("rt");
        } else {
            out.append("ro");
        }
        out.append(":");
        let s = c.as_slice();
        if c[0] == 0 {
            text::push_decimal(&mut out, wire::read_u16(s, 2) as u32);
            out.append(":");
            text::push_decimal(&mut out, wire::read_u32(s, 4));
        } else if c[0] == 1 {
            let ip = Ipv4Addr { octets: wire::read_arr4(s, 2) };
            assert(ip.octets@ =~= c@.subrange(2, 6));
            text::push_dotted(&mut out, &ip);
            out.append(":");
            text::push_decimal(&mut out, wire::read_u16(s, 6) as u32);
        } else {
            text::push_decimal(&mut out, wire::read_u32(s, 2));
            out.append(":");
            text::push_decimal(&mut out, wire::read_u16(s, 6) as u32);
        }
    } else {
        hex(&mut out, &c);
    }
    assert(out@ =~= ext_text(c@));
    out
}

fn hex(out: &mut String, c: &ExtCommunity)
    ensures
        final(out)@ == old(out)@ + "0x"@ + hex_digits(c@),
{
    out.append("0x");
    let mut i: usize = 0;
    assert(c@.take(0) =~= Seq::empty());
    while i < 8
        invariant
            i <= 8,
            out@ =~= old(out)@ + "0x"@ + hex_digits(c@.take(i as int)),
        decreases 8 - i,
    {
        text::push_hex(out, c[i]);
        assert(c@.take(i + 1).drop_last() =~= c@.take(i as int));
        i = i + 1;
    }
    assert(c@.take(8) =~= c@);
}

proof fn lemma_hex_digits(c: Seq<u8>)
    ensures
        hex_digits(c).len() == 2 * c.len(),
        forall|i: int|
            0 <= i < c.len() ==> #[trigger] text::hex_pair(
                hex_digits(c)[2 * i],
                hex_digits(c)[2 * i + 1],
            ) == Some(c[i]),
    decreases c.len(),
{
    if c.len() > 0 {
        let f = c.drop_last();
        lemma_hex_digits(f);
        text::lemma_hex_round_trip(c.last());
        assert forall|i: int| 0 <= i < c.len() implies #[trigger] text::hex_pair(
            hex_digits(c)[2 * i],
            hex_digits(c)[2 * i + 1],
        ) == Some(c[i]) by {
            if i < f.len() {
                assert(text::hex_pair(hex_digits(f)[2 * i], hex_digits(f)[2 * i + 1]) == Some(f[i]));
            }
        }
    }
}

/// A community whose text is a sub-type word, an administrator without a colon and a
/// number is read as those three.
proof fn lemma_three_parts(sub: u8, admin: Seq<char>, value: Seq<char>)
    requires
        sub == 2 || sub == 3,
        admin.len() > 0,
        text::is_digit(admin[0]),
        forall|j: int| 0 <= j < admin.len() ==> #[trigger] admin[j] != ':',
        value.len() > 0,
        text::is_digit(value.last()),
    ensures
        ({
            let prefix = if sub == 2 {
                "rt"@
            } else {
                "ro"@
            };
            ext_value(text::trimmed(prefix + seq![':'] + admin + seq![':'] + value)) == structured(
                sub,
                admin,
                value,
            )
        }),
{
    reveal_strlit("rt");
    reveal_strlit("ro");
    reveal_strlit("soo");
    let prefix = if sub == 2 {
        "rt"@
    } else {
        "ro"@
    };
    let s = prefix + seq![':'] + admin + seq![':'] + value;
    assert(s[0] == 'r');
    assert(s.last() == value.last());
    text::lemma_trim_idle(s);
    let rest = admin + seq![':'] + value;
    assert(s =~= prefix + seq![':'] + rest);
    text::lemma_cut_between(prefix, ':', rest);
    text::lemma_cut_between(admin, ':', value);
    assert(text::lower(prefix) =~= prefix);
    assert("rt"@[1] == 't' && "ro"@[1] == 'o');
}

proof fn lemma_address_form(c: [u8; 8])
    requires
        c@[1] == 2 || c@[1] == 3,
        c@[0] == 1,
    ensures
        ext_value(text::trimmed(ext_text(c@))) == Some(c@),
{
    let s = c@;
    let o = wire::arr4_at(s, 2);
    assert(o@ =~= s.subrange(2, 6));
    let v = wire::u16_at(s, 6);
    text::lemma_quad_round_trip(o);
    text::lemma_decimal(v as nat);
    text::lemma_number_round_trip(v as nat, 65535);
    assert(text::is_digit(text::decimal(v as nat)[text::decimal(v as nat).len() - 1]));
    lemma_three_parts(s[1], text::dotted(o@), text::decimal(v as nat));
    assert(seq![1u8, s[1]] + o@ + wire::be16(v) =~= s);
}

proof fn lemma_number_form(sub: u8, a: nat, v: nat, max: nat)
    requires
        sub == 2 || sub == 3,
        a <= 4294967295,
        v <= max <= 4294967295,
    ensures
        ({
            let prefix = if sub == 2 {
                "rt"@
            } else {
                "ro"@
            };
            ext_value(
                text::trimmed(prefix + seq![':'] + text::decimal(a) + seq![':'] + text::decimal(v)),
            ) == structured(sub, text::decimal(a), text::decimal(v))
        }),
        text::quad(text::decimal(a)) is None,
        text::number(text::decimal(a), 4294967295) == Some(a),
        text::number(text::decimal(v), max) == Some(v),
{
    let admin = text::decimal(a);
    text::lemma_decimal(a);
    text::lemma_decimal(v);
    text::lemma_number_round_trip(a, 4294967295);
    text::lemma_number_round_trip(v, max);
    assert forall|j: int| 0 <= j < admin.len() implies #[trigger] admin[j] != ':' by {
        assert(text::is_digit(admin[j]));
    }
    assert(text::is_digit(admin[0]));
    assert(text::is_digit(text::decimal(v)[text::decimal(v).len() - 1]));
    lemma_three_parts(sub, admin, text::decimal(v));
    lemma_digits_are_no_quad(admin);
}

proof fn lemma_short_number_form(c: [u8; 8])
    requires
        c@[1] == 2 || c@[1] == 3,
        c@[0] == 0,
    ensures
        ext_value(text::trimmed(ext_text(c@))) == Some(c@),
{
    let s = c@;
    let (a, v) = (wire::u16_at(s, 2), wire::u32_at(s, 4));
    lemma_number_form(s[1], a as nat, v as nat, 4294967295);
    assert(seq![0u8, s[1]] + wire::be16(a) + wire::be32(v) == s) by {
        wire::lemma_be16_at(s, 2);
        wire::lemma_be32_at(s, 4);
        assert(seq![0u8, s[1]] + s.subrange(2, 4) + s.subrange(4, 8) =~= s);
    }
}

proof fn lemma_long_number_form(c: [u8; 8])
    requires
        c@[1] == 2 || c@[1] == 3,
        c@[0] == 2,
        wire::u32_at(c@, 2) > 65535,
    ensures
        ext_value(text::trimmed(ext_text(c@))) == Some(c@),
{
    let s = c@;
    let (a, v) = (wire::u32_at(s, 2), wire::u16_at(s, 6));
    lemma_number_form(s[1], a as nat, v as nat, 65535);
    assert(seq![2u8, s[1]] + wire::be32(a) + wire::be16(v) == s) by {
        wire::lemma_be32_at(s, 2);
        wire::lemma_be16_at(s, 6);
        assert(seq![2u8, s[1]] + s.subrange(2, 6) + s.subrange(6, 8) =~= s);
    }
}

proof fn lemma_hex_form(c: [u8; 8])
    requires
        !((c@[1] == 2 || c@[1] == 3) && c@[0] <= 2),
    ensures
        ext_value(text::trimmed(ext_text(c@))) == Some(c@),
{
    let s = c@;
    reveal_strlit("0x");
    lemma_hex_digits(s);
    let t = ext_text(s);
    assert(t =~= "0x"@ + hex_digits(s));
    assert(t.skip(2) =~= hex_digits(s));
    let last = t.last();
    assert(last == hex_digits(s)[15]);
    assert(text::hex_pair(hex_digits(s)[2 * 7int], hex_digits(s)[2 * 7int + 1]) == Some(s[7]));
    text::lemma_trim_idle(t);
    assert(hex_eight(t.skip(2))->0 =~= s);
}

/// An extended community is read back from its text, unless it is a Route Target or
/// Route Origin in the four-octet AS form of a number that fits two octets, whose text
/// denotes the two-octet form.
pub proof fn lemma_ext_round_trip(c: [u8; 8])
    requires
        !((c@[1] == 2 || c@[1] == 3) && c@[0] == 2 && wire::u32_at(c@, 2) <= 65535),
    ensures
        ext_value(text::trimmed(ext_text(c@))) == Some(c@),
{
    let s = c@;
    if (s[1] == 2 || s[1] == 3) && s[0] <= 2 {
        if s[0] == 1 {
            lemma_address_form(c);
        } else if s[0] == 0 {
            lemma_short_number_form(c);
        } else {
            lemma_long_number_form(c);
        }
    } else {
        lemma_hex_form(c);
    }
}

proof fn lemma_digits_are_no_quad(s: Seq<char>)
    requires
        text::all_digits(s),
    ensures
        text::quad(s) is None,
{
    text::lemma_cut_absent(s, '.');
}

/// Which form an administrator and a value take: an IPv4 address or an AS number above
/// 65535 leaves sixteen bits for the value, any other AS number 32; the octets are form,
/// sub-type, administrator and value.
pub proof fn lemma_which_form(sub: u8, a: nat, v: nat, o: [u8; 4])
    ensures
        ({
            let (x, y) = (text::decimal(a), text::decimal(v));
            &&& a <= 65535 && v <= 4294967295 ==> structured(sub, x, y) == Some(
                seq![0u8, sub] + wire::be16(a as u16) + wire::be32(v as u32),
            )
            &&& a <= 65535 && v > 4294967295 ==> structured(sub, x, y) is None
            &&& 65535 < a <= 4294967295 && v <= 65535 ==> structured(sub, x, y) == Some(
                seq![2u8, sub] + wire::be32(a as u32) + wire::be16(v as u16),
            )
            &&& a > 65535 && v > 65535 ==> structured(sub, x, y) is None
            &&& a > 4294967295 ==> structured(sub, x, y) is None
            &&& v <= 65535 ==> structured(sub, text::dotted(o@), y) == Some(
                seq![1u8, sub] + o@ + wire::be16(v as u16),
            )
            &&& v > 65535 ==> structured(sub, text::dotted(o@), y) is None
        }),
{
    let (x, y) = (text::decimal(a), text::decimal(v));
    text::lemma_decimal(a);
    text::lemma_decimal(v);
    assert(text::is_digit(x[0]) && text::is_digit(y[0]));
    lemma_digits_are_no_quad(x);
    text::lemma_quad_round_trip(o);
}

/// The words for the sub-types, in whatever case.
pub proof fn lemma_words_for_kinds(k: Seq<char>)
    ensures
        kind_subtype(k) == Some(2u8) <==> text::lower(k) == "rt"@,
        kind_subtype(k) == Some(3u8) <==> text::lower(k) == "ro"@ || text::lower(k) == "soo"@,
        kind_subtype(k) is Some ==> kind_subtype(k) == Some(2u8) || kind_subtype(k) == Some(3u8),
{
    reveal_strlit("rt");
    reveal_strlit("ro");
    reveal_strlit("soo");
    assert("rt"@[1] == 't' && "ro"@[1] == 'o' && "soo"@[0] == 's' && "rt"@[0] == 'r');
}

} // verus!
