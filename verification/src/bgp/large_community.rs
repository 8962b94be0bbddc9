//! BGP large communities (RFC 8092): three 32-bit numbers, written
//! `global:local1:local2`.

use vstd::prelude::*;
use vstd::string::*;

use crate::text;

verus! {

/// One large community: global administrator and two local parts.
pub type LargeCommunity = (u32, u32, u32);

/// The large community that a trimmed text denotes: three numbers with a colon between
/// each two.
pub open spec fn large_value(t: Seq<char>) -> Option<(nat, nat, nat)> {
    match text::cut(t, ':') {
        Some((g, rest)) => match text::cut(rest, ':') {
            Some((a, b)) => match (
                text::number(g, 4294967295),
                text::number(a, 4294967295),
                text::number(b, 4294967295),
            ) {
                (Some(x), Some(y), Some(z)) => Some((x, y, z)),
                _ => None,
            },
            None => None,
        },
        None => None,
    }
}

/// The text of a large community.
pub open spec fn large_text(c: (u32, u32, u32)) -> Seq<char> {
    text::decimal(c.0 as nat) + seq![':'] + text::decimal(c.1 as nat) + seq![':'] + text::decimal(
        c.2 as nat,
    )
}

/// Parse a large community from text. `None` where it is malformed.
pub fn parse_large_community(s: &str) -> (r: Option<LargeCommunity>)
    ensures
        match r {
            Some(c) => large_value(text::trimmed(s@)) == Some((c.0 as nat, c.1 as nat, c.2 as nat)),
            None => large_value(text::trimmed(s@)) is None,
        },
{
    let t = text::trim(s);
    let t = t.as_slice();
    let i = match text::find(t, ':') {
        Some(i) => i,
        None => {
            return None;
        },
    };
    assert(i < t.len());
    let rest = &t[i + 1..t.len()];
    assert(t@.subrange(0, i as int) =~= t@.take(i as int));
    assert(rest@ =~= t@.skip(i + 1));
    let j = match text::find(rest, ':') {
        Some(j) => j,
        None => {
            return None;
        },
    };
    assert(j < rest.len());
    assert(rest@.subrange(0, j as int) =~= rest@.take(j as int));
    assert(rest@.subrange(j + 1, rest@.len() as int) =~= rest@.skip(j + 1));
    match (
        text::parse_number(&t[0..i], 4294967295),
        text::parse_number(&rest[0..j], 4294967295),
        text::parse_number(&rest[j + 1..rest.len()], 4294967295),
    ) {
        (Some(x), Some(y), Some(z)) => Some((x, y, z)),
        _ => None,
    }
}

/// Format a large community as `global:local1:local2`.
pub fn format_large_community(c: LargeCommunity) -> (r: String)
    ensures
        r@ == large_text(c),
{
    let mut out = String::new();
    proof {
        reveal_strlit(":");
        assert(":"@ =~= seq![':']);
    }
    text::push_decimal(&mut out, c.0);
    out.append(":");
    text::push_decimal(&mut out, c.1);
    out.append(":");
    text::push_decimal(&mut out, c.2);
    assert(out@ =~= large_text(c));
    out
}

/// Every large community is read back from its text.
pub proof fn lemma_large_round_trip(c: (u32, u32, u32))
    ensures
        large_value(text::trimmed(large_text(c))) == Some((c.0 as nat, c.1 as nat, c.2 as nat)),
{
    let s = large_text(c);
    let (x, y, z) = (
        text::decimal(c.0 as nat),
        text::decimal(c.1 as nat),
        text::decimal(c.2 as nat),
    );
    text::lemma_decimal(c.0 as nat);
    text::lemma_decimal(c.1 as nat);
    text::lemma_decimal(c.2 as nat);
    assert(text::is_digit(x[0]));
    assert(text::is_digit(z[z.len() - 1]));
    assert(s[0] == x[0]);
    assert(s.last() == z.last());
    text::lemma_trim_idle(s);
    assert forall|j: int| 0 <= j < x.len() implies x[j] != ':' by {
        assert(text::is_digit(x[j]));
    }
    assert forall|j: int| 0 <= j < y.len() implies y[j] != ':' by {
        assert(text::is_digit(y[j]));
    }
    let rest = y + seq![':'] + z;
    text::lemma_cut_between(y, ':', z);
    text::lemma_cut_between(x, ':', rest);
    assert(s =~= x + seq![':'] + rest);
    text::lemma_number_round_trip(c.0 as nat, 4294967295);
    text::lemma_number_round_trip(c.1 as nat, 4294967295);
    text::lemma_number_round_trip(c.2 as nat, 4294967295);
}

/// What texts denote: three numbers with a colon between each two, each of at most 32 bits.
pub proof fn lemma_what_texts_denote(a: nat, b: nat, c: nat)
    ensures
        large_value(
            text::decimal(a) + seq![':'] + (text::decimal(b) + seq![':'] + text::decimal(c)),
        ) == (if a <= 4294967295 && b <= 4294967295 && c <= 4294967295 {
            Some((a, b, c))
        } else {
            None
        }),
        large_value(text::decimal(a) + seq![':'] + text::decimal(b)) is None,
        large_value(text::decimal(a)) is None,
{
    let (x, y, z) = (text::decimal(a), text::decimal(b), text::decimal(c));
    text::lemma_decimal(a);
    text::lemma_decimal(b);
    text::lemma_decimal(c);
    assert(text::is_digit(x[0]) && text::is_digit(y[0]) && text::is_digit(z[0]));
    assert forall|j: int| 0 <= j < x.len() implies x[j] != ':' by {
        assert(text::is_digit(x[j]));
    }
    assert forall|j: int| 0 <= j < y.len() implies y[j] != ':' by {
        assert(text::is_digit(y[j]));
    }
    text::lemma_cut_between(y, ':', z);
    text::lemma_cut_between(x, ':', y + seq![':'] + z);
    text::lemma_cut_between(x, ':', y);
    text::lemma_cut_absent(x, ':');
    text::lemma_cut_absent(y, ':');
}

} // verus!
