//! Text: characters in and out of strings, decimal and hexadecimal numbers, and the
//! reading of UTF-8 that may be damaged.

use vstd::prelude::*;
use vstd::string::*;

use crate::net::{IpAddr, Ipv4Addr, Ipv6Addr, Prefix};
use crate::wire;

verus! {

/// What `String::from_utf8_lossy` makes of octets that are not UTF-8.
pub uninterp spec fn utf8_repaired(b: Seq<u8>) -> Seq<char>;

/// The text that octets hold: what they encode where they are UTF-8, and what is left
/// after repair where they are not.
pub open spec fn text_of(b: Seq<u8>) -> Seq<char> {
    if vstd::utf8::valid_utf8(b) {
        vstd::utf8::decode_utf8(b)
    } else {
        utf8_repaired(b)
    }
}

/// `String::from_utf8_lossy`: octets that are UTF-8 are decoded; of others, the invalid
/// parts are replaced, which the contract names and does not describe.
#[verifier::external_body]
pub(crate) fn lossy(b: &[u8]) -> (r: String)
    ensures
        r@ == (if vstd::utf8::valid_utf8(b@) {
            vstd::utf8::decode_utf8(b@)
        } else {
            utf8_repaired(b@)
        }),
{
    String::from_utf8_lossy(b).into_owned()
}

/// Text survives being written as UTF-8 and read back.
pub proof fn lemma_text_round_trip(s: Seq<char>)
    ensures
        text_of(vstd::utf8::encode_utf8(s)) == s,
{
    vstd::utf8::encode_utf8_valid_utf8(s);
    vstd::utf8::encode_utf8_decode_utf8(s);
}

/// The digit of a value below 16, in lower case.
pub open spec fn digit(d: int) -> char {
    if d == 0 {
        '0'
    } else if d == 1 {
        '1'
    } else if d == 2 {
        '2'
    } else if d == 3 {
        '3'
    } else if d == 4 {
        '4'
    } else if d == 5 {
        '5'
    } else if d == 6 {
        '6'
    } else if d == 7 {
        '7'
    } else if d == 8 {
        '8'
    } else if d == 9 {
        '9'
    } else if d == 10 {
        'a'
    } else if d == 11 {
        'b'
    } else if d == 12 {
        'c'
    } else if d == 13 {
        'd'
    } else if d == 14 {
        'e'
    } else {
        'f'
    }
}

/// The decimal digits of a number.
pub open spec fn decimal(n: nat) -> Seq<char>
    decreases n,
{
    if n < 10 {
        seq![digit(n as int)]
    } else {
        decimal(n / 10).push(digit((n % 10) as int))
    }
}

/// The two hexadecimal digits of an octet.
pub open spec fn hex_octet(b: u8) -> Seq<char> {
    seq![digit((b / 16) as int), digit((b % 16) as int)]
}

pub fn push_digit(s: &mut String, d: u8)
    requires
        d < 16,
    ensures
        final(s)@ == old(s)@.push(digit(d as int)),
{
    let t = match d {
        0 => "0",
        1 => "1",
        2 => "2",
        3 => "3",
        4 => "4",
        5 => "5",
        6 => "6",
        7 => "7",
        8 => "8",
        9 => "9",
        10 => "a",
        11 => "b",
        12 => "c",
        13 => "d",
        14 => "e",
        _ => "f",
    };
    proof {
        reveal_strlit("0");
        reveal_strlit("1");
        reveal_strlit("2");
        reveal_strlit("3");
        reveal_strlit("4");
        reveal_strlit("5");
        reveal_strlit("6");
        reveal_strlit("7");
        reveal_strlit("8");
        reveal_strlit("9");
        reveal_strlit("a");
        reveal_strlit("b");
        reveal_strlit("c");
        reveal_strlit("d");
        reveal_strlit("e");
        reveal_strlit("f");
    }
    s.append(t);
    assert(s@ =~= old(s)@.push(digit(d as int)));
}

pub fn push_number(s: &mut String, n: u64)
    ensures
        final(s)@ == old(s)@ + decimal(n as nat),
    decreases n,
{
    if n < 10 {
        push_digit(s, n as u8);
        assert(s@ =~= old(s)@ + decimal(n as nat));
    } else {
        push_number(s, n / 10);
        push_digit(s, (n % 10) as u8);
        assert(s@ =~= old(s)@ + decimal(n as nat));
    }
}

pub fn push_decimal(s: &mut String, n: u32)
    ensures
        final(s)@ == old(s)@ + decimal(n as nat),
{
    push_number(s, n as u64)
}

pub fn push_count(s: &mut String, n: usize)
    ensures
        final(s)@ == old(s)@ + decimal(n as nat),
{
    push_number(s, n as u64)
}

pub fn push_hex(s: &mut String, b: u8)
    ensures
        final(s)@ == old(s)@ + hex_octet(b),
{
    push_digit(s, b / 16);
    push_digit(s, b % 16);
    assert(s@ =~= old(s)@ + hex_octet(b));
}

/// The dotted quad of an IPv4 address.
pub open spec fn dotted(o: Seq<u8>) -> Seq<char> {
    decimal(o[0] as nat) + seq!['.'] + decimal(o[1] as nat) + seq!['.'] + decimal(o[2] as nat)
        + seq!['.'] + decimal(o[3] as nat)
}

pub fn push_dotted(s: &mut String, a: &Ipv4Addr)
    ensures
        final(s)@ == old(s)@ + dotted(a.octets@),
{
    proof {
        reveal_strlit(".");
    }
    push_decimal(s, a.octets[0] as u32);
    s.append(".");
    push_decimal(s, a.octets[1] as u32);
    s.append(".");
    push_decimal(s, a.octets[2] as u32);
    s.append(".");
    push_decimal(s, a.octets[3] as u32);
    assert("."@ =~= seq!['.']);
    assert(s@ =~= old(s)@ + dotted(a.octets@));
}

/// The characters of a string.
pub fn chars_of(s: &str) -> (r: Vec<char>)
    ensures
        r@ == s@,
{
    let n = s.unicode_len();
    let mut out: Vec<char> = Vec::new();
    let mut i: usize = 0;
    while i < n
        invariant
            i <= n,
            n == s@.len(),
            out@ == s@.take(i as int),
        decreases n - i,
    {
        out.push(s.get_char(i));
        assert(s@.take(i + 1) =~= s@.take(i as int).push(s@[i as int]));
        i = i + 1;
    }
    assert(s@.take(i as int) =~= s@);
    out
}

/// White space, as Unicode has it.
pub open spec fn is_space(c: char) -> bool {
    let u = c as u32;
    ||| 0x09 <= u <= 0x0d
    ||| u == 0x20
    ||| u == 0x85
    ||| u == 0xa0
    ||| u == 0x1680
    ||| 0x2000 <= u <= 0x200a
    ||| u == 0x2028
    ||| u == 0x2029
    ||| u == 0x202f
    ||| u == 0x205f
    ||| u == 0x3000
}

fn space(c: char) -> (r: bool)
    ensures
        r == is_space(c),
{
    let u: u32 = c as u32;
    (0x09 <= u && u <= 0x0d) || u == 0x20 || u == 0x85 || u == 0xa0 || u == 0x1680 || (0x2000 <= u
        && u <= 0x200a) || u == 0x2028 || u == 0x2029 || u == 0x202f || u == 0x205f || u == 0x3000
}

/// The text without white space at its front.
pub open spec fn trimmed_front(s: Seq<char>) -> Seq<char>
    decreases s.len(),
{
    if s.len() > 0 && is_space(s[0]) {
        trimmed_front(s.drop_first())
    } else {
        s
    }
}

/// The text without white space at its end.
pub open spec fn trimmed_back(s: Seq<char>) -> Seq<char>
    decreases s.len(),
{
    if s.len() > 0 && is_space(s.last()) {
        trimmed_back(s.drop_last())
    } else {
        s
    }
}

/// The text without white space at either end.
pub open spec fn trimmed(s: Seq<char>) -> Seq<char> {
    trimmed_back(trimmed_front(s))
}

/// The characters of a string without white space at either end.
pub fn trim(s: &str) -> (r: Vec<char>)
    ensures
        r@ == trimmed(s@),
{
    let all = chars_of(s);
    let mut lo: usize = 0;
    assert(all@.skip(0) =~= all@);
    while lo < all.len() && space(all[lo])
        invariant
            lo <= all.len(),
            all@ == s@,
            trimmed_front(all@.skip(lo as int)) == trimmed_front(all@),
        decreases all.len() - lo,
    {
        assert(all@.skip(lo as int).drop_first() =~= all@.skip(lo + 1));
        lo = lo + 1;
    }
    let ghost t = all@.skip(lo as int);
    let mut hi: usize = all.len();
    assert(t.take(hi - lo) =~= t);
    while lo < hi && space(all[hi - 1])
        invariant
            lo <= hi <= all.len(),
            t == all@.skip(lo as int),
            t == trimmed_front(s@),
            trimmed_back(t.take(hi - lo)) == trimmed_back(t),
        decreases hi - lo,
    {
        assert(t.take(hi - lo).last() == all@[hi - 1]);
        assert(t.take(hi - lo).drop_last() =~= t.take(hi - 1 - lo));
        hi = hi - 1;
    }
    proof {
        if lo < hi {
            assert(t.take(hi - lo).last() == all@[hi - 1]);
        }
    }
    let mut out: Vec<char> = Vec::new();
    let mut i: usize = lo;
    while i < hi
        invariant
            lo <= i <= hi,
            hi <= all.len(),
            t == all@.skip(lo as int),
            out@ == t.take(i - lo),
        decreases hi - i,
    {
        out.push(all[i]);
        assert(t.take(i + 1 - lo) =~= t.take(i - lo).push(all@[i as int]));
        i = i + 1;
    }
    out
}

/// The text before and behind the first `c`.
pub open spec fn cut(s: Seq<char>, c: char) -> Option<(Seq<char>, Seq<char>)>
    decreases s.len(),
{
    if s.len() == 0 {
        None
    } else if s[0] == c {
        Some((Seq::empty(), s.drop_first()))
    } else {
        match cut(s.drop_first(), c) {
            Some((a, b)) => Some((seq![s[0]] + a, b)),
            None => None,
        }
    }
}

/// Where the first `c` stands is where the text is cut.
proof fn lemma_cut_at(s: Seq<char>, c: char, i: int)
    requires
        0 <= i < s.len(),
        s[i] == c,
        forall|j: int| 0 <= j < i ==> s[j] != c,
    ensures
        cut(s, c) == Some((s.take(i), s.skip(i + 1))),
    decreases s.len(),
{
    if i == 0 {
        assert(s.take(0) =~= Seq::empty());
        assert(s.skip(1) =~= s.drop_first());
    } else {
        let t = s.drop_first();
        assert forall|j: int| 0 <= j < i - 1 implies t[j] != c by {
            assert(t[j] == s[j + 1]);
        }
        lemma_cut_at(t, c, i - 1);
        assert(seq![s[0]] + t.take(i - 1) =~= s.take(i));
        assert(t.skip(i) =~= s.skip(i + 1));
    }
}

/// A text of digits is not cut at a character that is no digit.
pub proof fn lemma_cut_absent(s: Seq<char>, c: char)
    requires
        all_digits(s),
        !is_digit(c),
    ensures
        cut(s, c) is None,
{
    assert forall|j: int| 0 <= j < s.len() implies s[j] != c by {
        assert(is_digit(s[j]));
    }
    lemma_cut_none(s, c);
}

proof fn lemma_cut_none(s: Seq<char>, c: char)
    requires
        forall|j: int| 0 <= j < s.len() ==> s[j] != c,
    ensures
        cut(s, c) is None,
    decreases s.len(),
{
    if s.len() > 0 {
        assert forall|j: int| 0 <= j < s.drop_first().len() implies s.drop_first()[j] != c by {
            assert(s.drop_first()[j] == s[j + 1]);
        }
        lemma_cut_none(s.drop_first(), c);
    }
}

/// A text without `c`, then `c`, then anything, is cut at that `c`.
pub proof fn lemma_cut_between(a: Seq<char>, c: char, b: Seq<char>)
    requires
        forall|j: int| 0 <= j < a.len() ==> a[j] != c,
    ensures
        cut(a + seq![c] + b, c) == Some((a, b)),
{
    let s = a + seq![c] + b;
    assert forall|j: int| 0 <= j < a.len() implies s[j] != c by {
        assert(s[j] == a[j]);
    }
    lemma_cut_at(s, c, a.len() as int);
    assert(s.take(a.len() as int) =~= a);
    assert(s.skip(a.len() as int + 1) =~= b);
}

/// The position of the first `c`.
pub fn find(s: &[char], c: char) -> (r: Option<usize>)
    ensures
        match r {
            Some(i) => i < s@.len() && cut(s@, c) == Some((s@.take(i as int), s@.skip(i + 1))),
            None => cut(s@, c) is None,
        },
{
    let mut i: usize = 0;
    while i < s.len()
        invariant
            i <= s.len(),
            forall|j: int| 0 <= j < i ==> s@[j] != c,
        decreases s.len() - i,
    {
        if s[i] == c {
            proof {
                lemma_cut_at(s@, c, i as int);
            }
            return Some(i);
        }
        i = i + 1;
    }
    proof {
        lemma_cut_none(s@, c);
    }
    None
}

/// Whether a character is a decimal digit.
pub open spec fn is_digit(c: char) -> bool {
    '0' <= c && c <= '9'
}

/// Whether a text consists of decimal digits.
pub open spec fn all_digits(s: Seq<char>) -> bool {
    forall|i: int| 0 <= i < s.len() ==> is_digit(#[trigger] s[i])
}

/// The value of a text of decimal digits.
pub open spec fn value(s: Seq<char>) -> nat
    decreases s.len(),
{
    if s.len() == 0 {
        0
    } else {
        value(s.drop_last()) * 10 + (s.last() as u32 - 48) as nat
    }
}

/// The text without a leading plus sign.
pub open spec fn unsigned(s: Seq<char>) -> Seq<char> {
    if s.len() > 0 && s[0] == '+' {
        s.drop_first()
    } else {
        s
    }
}

/// The number that a text denotes: an optional plus sign and at least one digit, of a
/// value not above `max`.
pub open spec fn number(s: Seq<char>, max: nat) -> Option<nat> {
    let t = unsigned(s);
    if t.len() > 0 && all_digits(t) && value(t) <= max {
        Some(value(t))
    } else {
        None
    }
}

/// More digits do not make a smaller number.
proof fn lemma_value_grows(s: Seq<char>, i: int)
    requires
        0 <= i <= s.len(),
    ensures
        value(s.take(i)) <= value(s),
    decreases s.len() - i,
{
    if i < s.len() {
        lemma_value_grows(s, i + 1);
        assert(s.take(i + 1).drop_last() =~= s.take(i));
    } else {
        assert(s.take(i) =~= s);
    }
}

/// Read a number.
pub fn parse_number(s: &[char], max: u32) -> (r: Option<u32>)
    ensures
        match r {
            Some(n) => number(s@, max as nat) == Some(n as nat),
            None => number(s@, max as nat) is None,
        },
{
    let start: usize = if s.len() > 0 && s[0] == '+' {
        1
    } else {
        0
    };
    let ghost t = unsigned(s@);
    assert(t =~= s@.skip(start as int));
    if start == s.len() {
        return None;
    }
    let mut n: u64 = 0;
    let mut i: usize = start;
    assert(t.take(0) =~= Seq::empty());
    while i < s.len()
        invariant
            start <= i <= s.len(),
            t == s@.skip(start as int),
            t == unsigned(s@),
            all_digits(t.take(i - start)),
            n == value(t.take(i - start)),
            n <= max,
        decreases s.len() - i,
    {
        let c = s[i];
        assert(t[i - start] == c);
        if !(c >= '0' && c <= '9') {
            return None;
        }
        let d: u64 = c as u64 - 48;
        proof {
            let u = t.take(i + 1 - start);
            assert(u.drop_last() =~= t.take(i - start));
            assert(u.last() == c);
            assert forall|j: int| 0 <= j < u.len() implies is_digit(#[trigger] u[j]) by {
                if j < i - start {
                    assert(u[j] == t.take(i - start)[j]);
                }
            }
            lemma_value_grows(t, i + 1 - start);
        }
        n = n * 10 + d;
        if n > max as u64 {
            return None;
        }
        i = i + 1;
    }
    assert(t.take(i - start) =~= t);
    Some(n as u32)
}

/// The decimal digits of a number denote it.
pub proof fn lemma_decimal(n: nat)
    ensures
        decimal(n).len() > 0,
        all_digits(decimal(n)),
        value(decimal(n)) == n,
        n < 10 ==> decimal(n).len() == 1,
        n >= 10 ==> decimal(n)[0] != '0',
        n > 0 ==> decimal(n)[0] != '0',
    decreases n,
{
    if n >= 10 {
        lemma_decimal(n / 10);
        let front = decimal(n / 10);
        let s = decimal(n);
        assert(s.drop_last() =~= front);
        assert forall|i: int| 0 <= i < s.len() implies is_digit(#[trigger] s[i]) by {
            if i < front.len() {
                assert(s[i] == front[i]);
            }
        }
        assert(s[0] == front[0]);
    } else {
        let s = decimal(n);
        assert(s.drop_last() =~= Seq::empty());
        assert(value(s.drop_last()) == 0);
    }
}

/// A number that is not above the bound is read back from its decimal digits.
pub proof fn lemma_number_round_trip(n: nat, max: nat)
    requires
        n <= max,
    ensures
        number(decimal(n), max) == Some(n),
{
    lemma_decimal(n);
    assert(is_digit(decimal(n)[0]));
}

/// A text that neither begins nor ends in white space is not shortened by trimming.
pub proof fn lemma_trim_idle(s: Seq<char>)
    requires
        s.len() > 0 ==> !is_space(s[0]) && !is_space(s.last()),
    ensures
        trimmed(s) == s,
{
}

/// The lower-case form of an ASCII letter; any other character is itself.
pub open spec fn lower_char(c: char) -> char {
    if 'A' <= c && c <= 'Z' {
        (c as u32 + 32) as char
    } else {
        c
    }
}

/// The text with its ASCII letters in lower case.
pub open spec fn lower(s: Seq<char>) -> Seq<char> {
    s.map_values(|c: char| lower_char(c))
}

fn same_letter(c: char, w: char) -> (r: bool)
    ensures
        r == (lower_char(c) == w),
{
    if c >= 'A' && c <= 'Z' {
        let u: u32 = c as u32 + 32;
        w as u32 == u
    } else {
        c == w
    }
}

/// Whether a text is the word `w`, but for the case of its ASCII letters.
pub fn same_word(s: &[char], w: &str) -> (r: bool)
    ensures
        r == (lower(s@) == w@),
{
    let n = w.unicode_len();
    if s.len() != n {
        assert(lower(s@).len() == s@.len());
        return false;
    }
    let mut i: usize = 0;
    while i < n
        invariant
            i <= n,
            n == s@.len(),
            n == w@.len(),
            forall|j: int| 0 <= j < i ==> lower_char(s@[j]) == w@[j],
        decreases n - i,
    {
        if !same_letter(s[i], w.get_char(i)) {
            assert(lower(s@)[i as int] == lower_char(s@[i as int]));
            return false;
        }
        i = i + 1;
    }
    assert(lower(s@) =~= w@);
    true
}

/// The octet that a text denotes in a dotted quad: one to three digits, without a
/// leading zero, of a value not above 255.
pub open spec fn quad_octet(s: Seq<char>) -> Option<u8> {
    if 1 <= s.len() <= 3 && all_digits(s) && (s.len() > 1 ==> s[0] != '0') && value(s) <= 255 {
        Some(value(s) as u8)
    } else {
        None
    }
}

/// The IPv4 address that a text denotes.
pub open spec fn quad(s: Seq<char>) -> Option<[u8; 4]> {
    match cut(s, '.') {
        Some((a, r1)) => match cut(r1, '.') {
            Some((b, r2)) => match cut(r2, '.') {
                Some((c, d)) => match (quad_octet(a), quad_octet(b), quad_octet(c), quad_octet(d)) {
                    (Some(w), Some(x), Some(y), Some(z)) => Some([w, x, y, z]),
                    _ => None,
                },
                None => None,
            },
            None => None,
        },
        None => None,
    }
}

fn parse_quad_octet(s: &[char]) -> (r: Option<u8>)
    ensures
        r == quad_octet(s@),
{
    if s.len() < 1 || s.len() > 3 {
        return None;
    }
    if s.len() > 1 && s[0] == '0' {
        return None;
    }
    if s[0] == '+' {
        assert(!is_digit(s@[0]));
        return None;
    }
    match parse_number(s, 255) {
        Some(n) => Some(n as u8),
        None => None,
    }
}

/// Read a dotted quad.
pub fn parse_quad(s: &[char]) -> (r: Option<[u8; 4]>)
    ensures
        r == quad(s@),
{
    let i = match find(s, '.') {
        Some(i) => i,
        None => {
            return None;
        },
    };
    assert(i < s.len());
    let r1 = &s[i + 1..s.len()];
    assert(r1@ =~= s@.skip(i + 1));
    assert((s@.subrange(0, i as int)) =~= s@.take(i as int));
    let j = match find(r1, '.') {
        Some(j) => j,
        None => {
            return None;
        },
    };
    let r2 = &r1[j + 1..r1.len()];
    assert(r2@ =~= r1@.skip(j + 1));
    assert((r1@.subrange(0, j as int)) =~= r1@.take(j as int));
    let k = match find(r2, '.') {
        Some(k) => k,
        None => {
            return None;
        },
    };
    let d = &r2[k + 1..r2.len()];
    assert(d@ =~= r2@.skip(k + 1));
    assert((r2@.subrange(0, k as int)) =~= r2@.take(k as int));
    match (
        parse_quad_octet(&s[0..i]),
        parse_quad_octet(&r1[0..j]),
        parse_quad_octet(&r2[0..k]),
        parse_quad_octet(d),
    ) {
        (Some(w), Some(x), Some(y), Some(z)) => Some([w, x, y, z]),
        _ => None,
    }
}

proof fn lemma_quad_octet(b: u8)
    ensures
        quad_octet(decimal(b as nat)) == Some(b),
        forall|i: int|
            0 <= i < decimal(b as nat).len() ==> #[trigger] decimal(b as nat)[i] != '.' && decimal(
                b as nat,
            )[i] != ':',
{
    lemma_decimal(b as nat);
    let s = decimal(b as nat);
    assert forall|i: int| 0 <= i < s.len() implies #[trigger] s[i] != '.' && s[i] != ':' by {
        assert(is_digit(s[i]));
    }
    if b >= 100 {
        lemma_decimal((b / 10) as nat);
        lemma_decimal((b / 100) as nat);
        assert((b as nat) / 10 / 10 == b / 100);
    } else if b >= 10 {
        lemma_decimal((b / 10) as nat);
    }
}

/// An address is read back from its dotted quad, which holds no colon.
pub proof fn lemma_quad_round_trip(o: [u8; 4])
    ensures
        quad(dotted(o@)) == Some(o),
        forall|i: int| 0 <= i < dotted(o@).len() ==> #[trigger] dotted(o@)[i] != ':',
        dotted(o@).len() > 0,
        is_digit(dotted(o@)[0]),
{
    let (a, b, c, d) = (
        decimal(o@[0] as nat),
        decimal(o@[1] as nat),
        decimal(o@[2] as nat),
        decimal(o@[3] as nat),
    );
    lemma_quad_octet(o@[0]);
    lemma_quad_octet(o@[1]);
    lemma_quad_octet(o@[2]);
    lemma_quad_octet(o@[3]);
    let dot = seq!['.'];
    let r2 = c + dot + d;
    let r1 = b + dot + r2;
    lemma_cut_between(c, '.', d);
    lemma_cut_between(b, '.', r2);
    lemma_cut_between(a, '.', r1);
    assert(dotted(o@) =~= a + dot + r1);
    assert([o@[0], o@[1], o@[2], o@[3]] =~= o);
    lemma_decimal(o@[0] as nat);
    let s = dotted(o@);
    assert(s[0] == a[0]);
    assert(is_digit(a[0]));
    assert forall|i: int| 0 <= i < s.len() implies #[trigger] s[i] != ':' by {
        let n = a.len() as int;
        let m = n + 1 + b.len();
        let k = m + 1 + c.len();
        if i < n {
            assert(s[i] == a[i]);
        } else if i == n {
        } else if i < m {
            assert(s[i] == b[i - n - 1]);
        } else if i == m {
        } else if i < k {
            assert(s[i] == c[i - m - 1]);
        } else if i == k {
        } else {
            assert(s[i] == d[i - k - 1]);
        }
    }
}

/// The value of a hexadecimal digit, in either case.
pub open spec fn hex_value(c: char) -> Option<u8> {
    if '0' <= c && c <= '9' {
        Some((c as u32 - 48) as u8)
    } else if 'a' <= c && c <= 'f' {
        Some((c as u32 - 87) as u8)
    } else if 'A' <= c && c <= 'F' {
        Some((c as u32 - 55) as u8)
    } else {
        None
    }
}

pub fn parse_hex_digit(c: char) -> (r: Option<u8>)
    ensures
        r == hex_value(c),
        r matches Some(v) ==> v < 16,
{
    let u: u32 = c as u32;
    if c >= '0' && c <= '9' {
        Some((u - 48) as u8)
    } else if c >= 'a' && c <= 'f' {
        Some((u - 87) as u8)
    } else if c >= 'A' && c <= 'F' {
        Some((u - 55) as u8)
    } else {
        None
    }
}

/// The octet that two hexadecimal digits denote.
pub open spec fn hex_pair(a: char, b: char) -> Option<u8> {
    match (hex_value(a), hex_value(b)) {
        (Some(x), Some(y)) => Some((16 * x + y) as u8),
        _ => None,
    }
}

pub fn parse_hex_pair(a: char, b: char) -> (r: Option<u8>)
    ensures
        r == hex_pair(a, b),
{
    match (parse_hex_digit(a), parse_hex_digit(b)) {
        (Some(x), Some(y)) => Some(16 * x + y),
        _ => None,
    }
}

/// An octet is read back from its hexadecimal digits.
pub proof fn lemma_hex_round_trip(b: u8)
    ensures
        hex_pair(hex_octet(b)[0], hex_octet(b)[1]) == Some(b),
{
}

/// The hexadecimal digits of a number, without leading zeros.
pub open spec fn hexadecimal(n: nat) -> Seq<char>
    decreases n,
{
    if n < 16 {
        seq![digit(n as int)]
    } else {
        hexadecimal(n / 16).push(digit((n % 16) as int))
    }
}

pub fn push_hexadecimal(s: &mut String, n: u64)
    ensures
        final(s)@ == old(s)@ + hexadecimal(n as nat),
    decreases n,
{
    if n < 16 {
        push_digit(s, n as u8);
        assert(s@ =~= old(s)@ + hexadecimal(n as nat));
    } else {
        push_hexadecimal(s, n / 16);
        push_digit(s, (n % 16) as u8);
        assert(s@ =~= old(s)@ + hexadecimal(n as nat));
    }
}

/// How many zero groups stand one behind the other from group `i` on.
pub open spec fn zeros_from(o: Seq<u8>, i: int) -> int
    decreases 8 - i,
{
    if 0 <= i < 8 && wire::u16_at(o, 2 * i) == 0 {
        1 + zeros_from(o, i + 1)
    } else {
        0
    }
}

/// The first of the longest runs of zero groups that begin before group `k`: where it
/// begins and how long it is.
pub open spec fn longest_zeros(o: Seq<u8>, k: int) -> (int, int)
    decreases k,
{
    if k <= 0 {
        (0, 0)
    } else {
        let (i, n) = longest_zeros(o, k - 1);
        if zeros_from(o, k - 1) > n {
            (k - 1, zeros_from(o, k - 1))
        } else {
            (i, n)
        }
    }
}

/// Groups `from` to `to`, in hexadecimal, with colons between.
pub open spec fn groups(o: Seq<u8>, from: int, to: int) -> Seq<char>
    decreases to - from,
{
    if to <= from {
        Seq::empty()
    } else if to == from + 1 {
        hexadecimal(wire::u16_at(o, 2 * from) as nat)
    } else {
        groups(o, from, to - 1) + seq![':'] + hexadecimal(wire::u16_at(o, 2 * (to - 1)) as nat)
    }
}

/// Whether the address is an IPv4 address mapped into IPv6.
pub open spec fn v4_mapped(o: Seq<u8>) -> bool {
    zeros_from(o, 0) == 5 && wire::u16_at(o, 10) == 0xffff
}

/// The text of an IPv6 address (RFC 5952): the first of the longest runs of at least two
/// zero groups is left out, and a mapped IPv4 address is a dotted quad.
pub open spec fn colons(o: Seq<u8>) -> Seq<char> {
    let (i, n) = longest_zeros(o, 8);
    if v4_mapped(o) {
        "::ffff:"@ + dotted(o.skip(12))
    } else if n > 1 {
        groups(o, 0, i) + "::"@ + groups(o, i + n, 8)
    } else {
        groups(o, 0, 8)
    }
}

fn zeros_of(o: &[u8; 16], i: usize) -> (r: usize)
    requires
        i <= 8,
    ensures
        r == zeros_from(o@, i as int),
        i + r <= 8,
{
    let mut k: usize = i;
    while k < 8 && wire::read_u16(o.as_slice(), 2 * k) == 0
        invariant
            i <= k <= 8,
            zeros_from(o@, i as int) == k - i + zeros_from(o@, k as int),
        decreases 8 - k,
    {
        k = k + 1;
    }
    k - i
}

fn push_groups(s: &mut String, o: &[u8; 16], from: usize, to: usize)
    requires
        from <= to <= 8,
    ensures
        final(s)@ == old(s)@ + groups(o@, from as int, to as int),
    decreases to - from,
{
    if to == from {
        assert(s@ =~= old(s)@ + groups(o@, from as int, to as int));
    } else if to == from + 1 {
        push_hexadecimal(s, wire::read_u16(o.as_slice(), 2 * from) as u64);
    } else {
        push_groups(s, o, from, to - 1);
        proof {
            reveal_strlit(":");
        }
        s.append(":");
        push_hexadecimal(s, wire::read_u16(o.as_slice(), 2 * (to - 1)) as u64);
        assert(":"@ =~= seq![':']);
        assert(s@ =~= old(s)@ + groups(o@, from as int, to as int));
    }
}

/// Append the text of an IPv6 address.
pub fn push_colons(s: &mut String, a: &Ipv6Addr)
    ensures
        final(s)@ == old(s)@ + colons(a.octets@),
{
    let o = &a.octets;
    if zeros_of(o, 0) == 5 && wire::read_u16(o.as_slice(), 10) == 0xffff {
        s.append("::ffff:");
        let tail = Ipv4Addr { octets: [o[12], o[13], o[14], o[15]] };
        assert(tail.octets@ =~= o@.skip(12));
        push_dotted(s, &tail);
        assert(s@ =~= old(s)@ + colons(a.octets@));
        return;
    }
    let mut i: usize = 0;
    let mut n: usize = 0;
    let mut k: usize = 0;
    while k < 8
        invariant
            k <= 8,
            i + n <= 8,
            longest_zeros(o@, k as int) == (i as int, n as int),
        decreases 8 - k,
    {
        let z = zeros_of(o, k);
        if z > n {
            i = k;
            n = z;
        }
        k = k + 1;
    }
    if n > 1 {
        push_groups(s, o, 0, i);
        s.append("::");
        push_groups(s, o, i + n, 8);
    } else {
        push_groups(s, o, 0, 8);
    }
    assert(s@ =~= old(s)@ + colons(a.octets@));
}

/// The text of an address of either family.
pub open spec fn address(a: IpAddr) -> Seq<char> {
    match a {
        IpAddr::V4(v) => dotted(v.octets@),
        IpAddr::V6(v) => colons(v.octets@),
    }
}

/// Append the text of an address.
pub fn push_address(s: &mut String, a: &IpAddr)
    ensures
        final(s)@ == old(s)@ + address(*a),
{
    match a {
        IpAddr::V4(v) => push_dotted(s, v),
        IpAddr::V6(v) => push_colons(s, v),
    }
}

/// The text of a prefix: its address, a slash and its length.
pub open spec fn slashed(p: Prefix) -> Seq<char> {
    address(p.addr) + seq!['/'] + decimal(p.len as nat)
}

/// Append the text of a prefix.
pub fn push_slashed(s: &mut String, p: &Prefix)
    ensures
        final(s)@ == old(s)@ + slashed(*p),
{
    push_address(s, &p.addr);
    proof {
        reveal_strlit("/");
    }
    s.append("/");
    assert("/"@ =~= seq!['/']);
    push_decimal(s, p.len as u32);
    assert(s@ =~= old(s)@ + slashed(*p));
}

/// Octets in hexadecimal with a colon between each two.
pub open spec fn hex_list(o: Seq<u8>) -> Seq<char>
    decreases o.len(),
{
    if o.len() == 0 {
        Seq::empty()
    } else if o.len() == 1 {
        hex_octet(o[0])
    } else {
        hex_list(o.drop_last()) + seq![':'] + hex_octet(o.last())
    }
}

/// Append octets in hexadecimal with a colon between each two.
pub fn push_hex_list(s: &mut String, o: &[u8])
    ensures
        final(s)@ == old(s)@ + hex_list(o@),
{
    let mut i: usize = 0;
    while i < o.len()
        invariant
            i <= o.len(),
            s@ =~= old(s)@ + hex_list(o@.take(i as int)),
        decreases o.len() - i,
    {
        assert(o@.take(i + 1).drop_last() =~= o@.take(i as int));
        if i > 0 {
            proof {
                reveal_strlit(":");
            }
            s.append(":");
            assert(":"@ =~= seq![':']);
        }
        push_hex(s, o[i]);
        i = i + 1;
    }
    assert(o@.take(i as int) =~= o@);
}

/// A text where `there` holds, else nothing.
pub open spec fn given(there: bool, s: Seq<char>) -> Seq<char> {
    if there {
        s
    } else {
        Seq::empty()
    }
}

/// Append a text where `there` holds.
pub fn push_given(out: &mut String, there: bool, s: &str)
    ensures
        final(out)@ == old(out)@ + given(there, s@),
{
    if there {
        out.append(s);
    }
    assert(out@ =~= old(out)@ + given(there, s@));
}

/// Which texts are numbers: digits alone, one at least, or those behind one plus sign; each
/// digit counts ten times as much as the one behind it, and a number above `max` is none.
pub proof fn lemma_which_texts_are_numbers(s: Seq<char>, c: char, i: int, max: nat)
    requires
        0 <= i < s.len(),
    ensures
        all_digits(s) ==> number(s, max) == number(seq!['+'] + s, max) && (number(s, max) is Some
            <==> value(s) <= max),
        all_digits(s) && value(s) <= max ==> number(s, max) == Some(value(s)),
        !('0' <= s[i] && s[i] <= '9') && !(i == 0 && s[0] == '+') ==> number(s, max) is None,
        number(Seq::empty(), max) is None,
        number(seq!['+'], max) is None,
        value(s.push(c)) == 10 * value(s) + (c as u32 - 48) as nat,
        value(Seq::empty()) == 0,
{
    assert(s.push(c).drop_last() =~= s);
    assert((seq!['+'] + s).drop_first() =~= s);
    if all_digits(s) {
        assert(is_digit(s[0]));
    }
    let t = unsigned(s);
    if !('0' <= s[i] && s[i] <= '9') && !(i == 0 && s[0] == '+') {
        if s[0] == '+' {
            assert(t[i - 1] == s[i]);
        } else {
            assert(t[i] == s[i]);
        }
    }
    assert(seq!['+'].drop_first() =~= Seq::<char>::empty());
}

/// White space at either end does not count: spaces, tabs and line ends among it.
pub proof fn lemma_ends_are_trimmed(s: Seq<char>, c: char)
    requires
        is_space(c),
    ensures
        trimmed(seq![c] + s) == trimmed(s),
        trimmed(s.push(c)) == trimmed(s),
        is_space(' '),
        is_space('\t'),
        is_space('\n'),
        is_space('\r'),
    decreases s.len(),
{
    assert((seq![c] + s).drop_first() =~= s);
    if s.len() > 0 && is_space(s[0]) {
        lemma_ends_are_trimmed(s.drop_first(), c);
        assert(s.push(c).drop_first() =~= s.drop_first().push(c));
    } else if s.len() == 0 {
        assert(s.push(c).drop_first() =~= s);
    } else {
        assert(s.push(c).drop_last() =~= s);
    }
}

proof fn lemma_zeros_from(o: Seq<u8>, i: int, m: int)
    requires
        0 <= i <= 8,
        0 <= m,
        i + m <= 8,
    ensures
        0 <= zeros_from(o, i),
        i + zeros_from(o, i) <= 8,
        m <= zeros_from(o, i) <==> forall|j: int| 2 * i <= j < 2 * (i + m) ==> #[trigger] o[j] == 0,
    decreases 8 - i,
{
    if i < 8 {
        lemma_zeros_from(o, i + 1, 0);
        if m > 0 {
            lemma_zeros_from(o, i + 1, m - 1);
            assert(wire::u16_at(o, 2 * i) == 0 <==> o[2 * i] == 0 && o[2 * i + 1] == 0);
        }
    }
}

proof fn lemma_longest_so_far(o: Seq<u8>, k: int)
    requires
        0 <= k <= 8,
    ensures
        ({
            let (i, n) = longest_zeros(o, k);
            &&& 0 <= i <= 8
            &&& n >= 0
            &&& n == 0 || zeros_from(o, i) == n
            &&& forall|a: int| 0 <= a < k ==> #[trigger] zeros_from(o, a) <= n
            &&& forall|a: int| 0 <= a < i ==> #[trigger] zeros_from(o, a) < n
        }),
    decreases k,
{
    if k > 0 {
        lemma_longest_so_far(o, k - 1);
        lemma_zeros_from(o, k - 1, 0);
    }
}

/// The run of groups that an IPv6 address leaves out: all its octets are zero, and no run of
/// zero groups is longer, nor as long and in front of it.
pub proof fn lemma_the_longest_run_is_left_out(o: Seq<u8>, a: int, m: int)
    requires
        0 <= a,
        1 <= m,
        a + m <= 8,
    ensures
        ({
            let (i, n) = longest_zeros(o, 8);
            &&& forall|j: int| 2 * i <= j < 2 * (i + n) ==> #[trigger] o[j] == 0
            &&& (forall|j: int| 2 * a <= j < 2 * (a + m) ==> #[trigger] o[j] == 0) ==> m <= n && (m
                == n ==> i <= a)
        }),
{
    let (i, n) = longest_zeros(o, 8);
    lemma_longest_so_far(o, 8);
    lemma_zeros_from(o, a, m);
    if n > 0 {
        lemma_zeros_from(o, i, 0);
        lemma_zeros_from(o, i, n);
    }
}

/// Which form the text of an IPv6 address takes: a mapped IPv4 address is a dotted quad behind
/// `::ffff:`, one zero group alone is written out, and a longer run is left out.
pub proof fn lemma_forms_of_addresses(o: Seq<u8>)
    requires
        o.len() == 16,
    ensures
        ({
            let (i, n) = longest_zeros(o, 8);
            let mapped = (forall|j: int| 0 <= j < 10 ==> #[trigger] o[j] == 0) && o[10] == 255 && o[11]
                == 255;
            &&& mapped ==> colons(o) == "::ffff:"@ + dotted(o.subrange(12, 16))
            &&& !mapped && n >= 2 ==> colons(o) == groups(o, 0, i) + "::"@ + groups(o, i + n, 8)
            &&& !mapped && n < 2 ==> colons(o) == groups(o, 0, 8)
        }),
{
    lemma_zeros_from(o, 0, 5);
    lemma_zeros_from(o, 0, 6);
    assert(o.skip(12) =~= o.subrange(12, 16));
    if v4_mapped(o) {
        assert(o[10] * 256 + o[11] == 0xffff);
    }
    if (forall|j: int| 0 <= j < 10 ==> #[trigger] o[j] == 0) && o[10] == 255 && o[11] == 255 {
        assert(zeros_from(o, 0) >= 5);
        assert(wire::u16_at(o, 10) == 0xffff);
    }
}

/// The digits are those of ASCII, in lower case, and a number in hexadecimal has each digit
/// sixteen times as heavy as the one behind it and no zeros in front.
pub proof fn lemma_digits(d: int, n: nat)
    ensures
        0 <= d <= 9 ==> digit(d) as int == 48 + d,
        10 <= d <= 15 ==> digit(d) as int == 87 + d,
        n < 16 ==> hexadecimal(n) == seq![digit(n as int)],
        n >= 16 ==> hexadecimal(n).drop_last() == hexadecimal(n / 16) && hexadecimal(n).last()
            == digit((n % 16) as int),
{
    if n >= 16 {
        assert(hexadecimal(n).drop_last() =~= hexadecimal(n / 16));
    }
}

} // verus!
