//! BGP communities (RFC 1997): 32-bit tags, written `asn:value`, with a few well-known
//! values that have names.

use vstd::prelude::*;
use vstd::string::*;

use crate::text;

verus! {

/// Do not advertise outside the local AS.
pub const NO_EXPORT: u32 = 0xFFFF_FF01;

/// Do not advertise to any peer.
pub const NO_ADVERTISE: u32 = 0xFFFF_FF02;

/// Do not advertise to any external peer, confederation peers among them.
pub const NO_EXPORT_SUBCONFED: u32 = 0xFFFF_FF03;

/// The community that a trimmed text denotes: a well-known name in any case, two
/// 16-bit halves with a colon between, or a plain 32-bit number.
pub open spec fn community_value(t: Seq<char>) -> Option<nat> {
    if text::lower(t) == "no-export"@ {
        Some(0xFFFF_FF01)
    } else if text::lower(t) == "no-advertise"@ {
        Some(0xFFFF_FF02)
    } else if text::lower(t) == "no-export-subconfed"@ {
        Some(0xFFFF_FF03)
    } else {
        match text::cut(t, ':') {
            Some((hi, lo)) => match (text::number(hi, 65535), text::number(lo, 65535)) {
                (Some(h), Some(l)) => Some(h * 65536 + l),
                _ => None,
            },
            None => text::number(t, 4294967295),
        }
    }
}

/// The text of a community: its name where it has one, else its two halves.
pub open spec fn community_text(c: u32) -> Seq<char> {
    if c == 0xFFFF_FF01 {
        "no-export"@
    } else if c == 0xFFFF_FF02 {
        "no-advertise"@
    } else if c == 0xFFFF_FF03 {
        "no-export-subconfed"@
    } else {
        text::decimal((c / 65536) as nat) + seq![':'] + text::decimal((c % 65536) as nat)
    }
}

/// Parse a community from text. `None` where it is malformed.
pub fn parse_community(s: &str) -> (r: Option<u32>)
    ensures
        match r {
            Some(c) => community_value(text::trimmed(s@)) == Some(c as nat),
            None => community_value(text::trimmed(s@)) is None,
        },
{
    let t = text::trim(s);
    let t = t.as_slice();
    if text::same_word(t, "no-export") {
        return Some(NO_EXPORT);
    }
    if text::same_word(t, "no-advertise") {
        return Some(NO_ADVERTISE);
    }
    if text::same_word(t, "no-export-subconfed") {
        return Some(NO_EXPORT_SUBCONFED);
    }
    match text::find(t, ':') {
        Some(i) => {
            assert(i < t.len());
            assert(t@.subrange(0, i as int) =~= t@.take(i as int));
            assert(t@.subrange(i + 1, t@.len() as int) =~= t@.skip(i + 1));
            match (
                text::parse_number(&t[0..i], 65535),
                text::parse_number(&t[i + 1..t.len()], 65535),
            ) {
                (Some(h), Some(l)) => Some(h * 65536 + l),
                _ => None,
            }
        },
        None => text::parse_number(t, 4294967295),
    }
}

/// Format a community as text.
pub fn format_community(c: u32) -> (r: String)
    ensures
        r@ == community_text(c),
{
    let mut out = String::new();
    if c == NO_EXPORT {
        out.append("no-export");
    } else if c == NO_ADVERTISE {
        out.append("no-advertise");
    } else if c == NO_EXPORT_SUBCONFED {
        out.append("no-export-subconfed");
    } else {
        proof {
            reveal_strlit(":");
        }
        text::push_decimal(&mut out, c / 65536);
        out.append(":");
        assert(":"@ =~= seq![':']);
        text::push_decimal(&mut out, c % 65536);
    }
    assert(out@ =~= community_text(c));
    out
}

/// Every community is read back from its text.
pub proof fn lemma_community_round_trip(c: u32)
    ensures
        community_value(text::trimmed(community_text(c))) == Some(c as nat),
{
    let s = community_text(c);
    reveal_strlit("no-export");
    reveal_strlit("no-advertise");
    reveal_strlit("no-export-subconfed");
    let hi = text::decimal((c / 65536) as nat);
    let lo = text::decimal((c % 65536) as nat);
    text::lemma_decimal((c / 65536) as nat);
    text::lemma_decimal((c % 65536) as nat);
    if c == 0xFFFF_FF01 || c == 0xFFFF_FF02 || c == 0xFFFF_FF03 {
        text::lemma_trim_idle(s);
        assert(text::lower(s) =~= s);
    } else {
        assert(text::is_digit(hi[0]));
        assert(text::is_digit(lo[lo.len() - 1]));
        assert(s[0] == hi[0]);
        assert(s.last() == lo.last());
        text::lemma_trim_idle(s);
        assert(text::lower(s)[0] == s[0]);
        assert("no-export"@[0] == 'n');
        assert("no-advertise"@[0] == 'n');
        assert("no-export-subconfed"@[0] == 'n');
        assert forall|j: int| 0 <= j < hi.len() implies hi[j] != ':' by {
            assert(text::is_digit(hi[j]));
        }
        text::lemma_cut_between(hi, ':', lo);
        text::lemma_number_round_trip((c / 65536) as nat, 65535);
        text::lemma_number_round_trip((c % 65536) as nat, 65535);
    }
}

/// What texts denote, spaces at their ends aside: two numbers of sixteen bits with a colon
/// between are the two halves, one number is the whole where it has 32 bits, and the three
/// names stand for their numbers in whatever case they are written.
pub proof fn lemma_what_texts_denote(a: nat, b: nat, t: Seq<char>)
    ensures
        community_value(text::decimal(a) + seq![':'] + text::decimal(b)) == (if a <= 65535 && b
            <= 65535 {
            Some(a * 65536 + b)
        } else {
            None
        }),
        community_value(text::decimal(a)) == (if a <= 4294967295 {
            Some(a)
        } else {
            None
        }),
        text::lower(t) == "no-export"@ ==> community_value(t) == Some(4294967041nat),
        text::lower(t) == "no-advertise"@ ==> community_value(t) == Some(4294967042nat),
        text::lower(t) == "no-export-subconfed"@ ==> community_value(t) == Some(4294967043nat),
{
    reveal_strlit("no-export");
    reveal_strlit("no-advertise");
    reveal_strlit("no-export-subconfed");
    let (hi, lo) = (text::decimal(a), text::decimal(b));
    let s = hi + seq![':'] + lo;
    text::lemma_decimal(a);
    text::lemma_decimal(b);
    assert(text::is_digit(hi[0]) && text::is_digit(lo[0]));
    assert(text::lower(s)[0] == hi[0] && text::lower(hi)[0] == hi[0]);
    assert("no-export"@[0] == 'n');
    assert("no-advertise"@[0] == 'n');
    assert("no-export-subconfed"@[0] == 'n');
    assert forall|j: int| 0 <= j < hi.len() implies hi[j] != ':' by {
        assert(text::is_digit(hi[j]));
    }
    text::lemma_cut_between(hi, ':', lo);
    text::lemma_cut_absent(hi, ':');
    assert("no-export"@.len() == 9 && "no-advertise"@.len() == 12 && "no-export-subconfed"@.len()
        == 19);
}

} // verus!
