//! Octet strings: fixed-width big-endian integers, and the few operations on byte
//! vectors that every codec shares.

use vstd::prelude::*;

verus! {

/// The two octets of `v`, most significant first.
pub open spec fn be16(v: u16) -> Seq<u8> {
    seq![(v / 256) as u8, (v % 256) as u8]
}

/// The low three octets of `v`, most significant first.
pub open spec fn be24(v: u32) -> Seq<u8> {
    seq![(v / 65536 % 256) as u8, (v / 256 % 256) as u8, (v % 256) as u8]
}

/// The four octets of `v`, most significant first.
pub open spec fn be32(v: u32) -> Seq<u8> {
    seq![
        (v / 16777216) as u8,
        (v / 65536 % 256) as u8,
        (v / 256 % 256) as u8,
        (v % 256) as u8,
    ]
}

/// The eight octets of `v`, most significant first.
pub open spec fn be64(v: u64) -> Seq<u8> {
    be32((v / 4294967296) as u32) + be32((v % 4294967296) as u32)
}

/// The big-endian 16-bit integer at offset `i` of `s`.
pub open spec fn u16_at(s: Seq<u8>, i: int) -> u16 {
    (s[i] * 256 + s[i + 1]) as u16
}

/// The big-endian 24-bit integer at offset `i` of `s`.
pub open spec fn u24_at(s: Seq<u8>, i: int) -> u32 {
    (s[i] * 65536 + s[i + 1] * 256 + s[i + 2]) as u32
}

/// The big-endian 32-bit integer at offset `i` of `s`.
pub open spec fn u32_at(s: Seq<u8>, i: int) -> u32 {
    (s[i] * 16777216 + s[i + 1] * 65536 + s[i + 2] * 256 + s[i + 3]) as u32
}

/// The big-endian 64-bit integer at offset `i` of `s`.
pub open spec fn u64_at(s: Seq<u8>, i: int) -> u64 {
    (u32_at(s, i) * 4294967296 + u32_at(s, i + 4)) as u64
}

/// The four octets at offset `i` of `s`.
pub open spec fn arr4_at(s: Seq<u8>, i: int) -> [u8; 4] {
    [s[i], s[i + 1], s[i + 2], s[i + 3]]
}

/// The six octets at offset `i` of `s`.
pub open spec fn arr6_at(s: Seq<u8>, i: int) -> [u8; 6] {
    [s[i], s[i + 1], s[i + 2], s[i + 3], s[i + 4], s[i + 5]]
}

/// The eight octets at offset `i` of `s`.
pub open spec fn arr8_at(s: Seq<u8>, i: int) -> [u8; 8] {
    [s[i], s[i + 1], s[i + 2], s[i + 3], s[i + 4], s[i + 5], s[i + 6], s[i + 7]]
}

/// The ten octets at offset `i` of `s`.
pub open spec fn arr10_at(s: Seq<u8>, i: int) -> [u8; 10] {
    [
        s[i],
        s[i + 1],
        s[i + 2],
        s[i + 3],
        s[i + 4],
        s[i + 5],
        s[i + 6],
        s[i + 7],
        s[i + 8],
        s[i + 9],
    ]
}

/// The sixteen octets at offset `i` of `s`.
pub open spec fn arr16_at(s: Seq<u8>, i: int) -> [u8; 16] {
    [
        s[i],
        s[i + 1],
        s[i + 2],
        s[i + 3],
        s[i + 4],
        s[i + 5],
        s[i + 6],
        s[i + 7],
        s[i + 8],
        s[i + 9],
        s[i + 10],
        s[i + 11],
        s[i + 12],
        s[i + 13],
        s[i + 14],
        s[i + 15],
    ]
}

/// Everything in `s` from offset `i` on.
pub open spec fn from_at(s: Seq<u8>, i: int) -> Seq<u8> {
    s.subrange(i, s.len() as int)
}

/// The views of the elements of a sequence.
pub open spec fn views<T: View>(s: Seq<T>) -> Seq<T::V> {
    s.map_values(|t: T| t@)
}

/// Appending an element appends its view.
pub broadcast proof fn lemma_views_push<T: View>(s: Seq<T>, t: T)
    ensures
        #[trigger] views(s.push(t)) == views(s).push(t@),
{
    assert(views(s.push(t)) =~= views(s).push(t@));
}

/// An octet splits into the bit of weight `w` and the rest.
pub open spec fn bit(b: u8, w: u8) -> bool {
    (b / w) % 2 == 1
}

/// The weight `w` where `set` holds, else zero.
pub open spec fn flag(set: bool, w: u8) -> u8 {
    if set {
        w
    } else {
        0
    }
}

pub fn bit_of(b: u8, w: u8) -> (r: bool)
    requires
        w != 0,
    ensures
        r == bit(b, w),
{
    (b / w) % 2 == 1
}

pub fn flag_of(set: bool, w: u8) -> (r: u8)
    ensures
        r == flag(set, w),
{
    if set {
        w
    } else {
        0
    }
}

pub fn push_u16(out: &mut Vec<u8>, v: u16)
    ensures
        final(out)@ == old(out)@ + be16(v),
{
    out.push((v / 256) as u8);
    out.push((v % 256) as u8);
}

pub fn push_u24(out: &mut Vec<u8>, v: u32)
    ensures
        final(out)@ == old(out)@ + be24(v),
{
    out.push((v / 65536 % 256) as u8);
    out.push((v / 256 % 256) as u8);
    out.push((v % 256) as u8);
}

pub fn push_u32(out: &mut Vec<u8>, v: u32)
    ensures
        final(out)@ == old(out)@ + be32(v),
{
    out.push((v / 16777216) as u8);
    out.push((v / 65536 % 256) as u8);
    out.push((v / 256 % 256) as u8);
    out.push((v % 256) as u8);
}

pub fn push_u64(out: &mut Vec<u8>, v: u64)
    ensures
        final(out)@ == old(out)@ + be64(v),
{
    push_u32(out, (v / 4294967296) as u32);
    push_u32(out, (v % 4294967296) as u32);
}

pub fn push_all(out: &mut Vec<u8>, bytes: &[u8])
    ensures
        final(out)@ == old(out)@ + bytes@,
{
    let mut i: usize = 0;
    while i < bytes.len()
        invariant
            i <= bytes.len(),
            out@ == old(out)@ + bytes@.subrange(0, i as int),
        decreases bytes.len() - i,
    {
        out.push(bytes[i]);
        assert(bytes@.subrange(0, i + 1) == bytes@.subrange(0, i as int).push(bytes@[i as int]));
        i = i + 1;
    }
    assert(bytes@.subrange(0, i as int) == bytes@);
}

pub fn copy_of(bytes: &[u8]) -> (r: Vec<u8>)
    ensures
        r@ == bytes@,
{
    let mut out: Vec<u8> = Vec::new();
    push_all(&mut out, bytes);
    assert(out@ == bytes@);
    out
}

/// Whether the two byte strings are equal.
pub fn same_bytes(a: &[u8], b: &[u8]) -> (r: bool)
    ensures
        r == (a@ == b@),
{
    if a.len() != b.len() {
        return false;
    }
    let mut i: usize = 0;
    while i < a.len()
        invariant
            i <= a.len(),
            a.len() == b.len(),
            forall|j: int| 0 <= j < i ==> a@[j] == b@[j],
        decreases a.len() - i,
    {
        if a[i] != b[i] {
            return false;
        }
        i = i + 1;
    }
    assert(a@ =~= b@);
    true
}

pub fn read_u16(s: &[u8], i: usize) -> (r: u16)
    requires
        i + 2 <= s@.len(),
    ensures
        r == u16_at(s@, i as int),
{
    s[i] as u16 * 256 + s[i + 1] as u16
}

pub fn read_u24(s: &[u8], i: usize) -> (r: u32)
    requires
        i + 3 <= s@.len(),
    ensures
        r == u24_at(s@, i as int),
{
    s[i] as u32 * 65536 + s[i + 1] as u32 * 256 + s[i + 2] as u32
}

pub fn read_u32(s: &[u8], i: usize) -> (r: u32)
    requires
        i + 4 <= s@.len(),
    ensures
        r == u32_at(s@, i as int),
{
    s[i] as u32 * 16777216 + s[i + 1] as u32 * 65536 + s[i + 2] as u32 * 256 + s[i + 3] as u32
}

pub fn read_u64(s: &[u8], i: usize) -> (r: u64)
    requires
        i + 8 <= s@.len(),
    ensures
        r == u64_at(s@, i as int),
{
    assert(i + 8 <= s.len());
    read_u32(s, i) as u64 * 4294967296 + read_u32(s, i + 4) as u64
}

pub fn read_arr4(s: &[u8], i: usize) -> (r: [u8; 4])
    requires
        i + 4 <= s@.len(),
    ensures
        r == arr4_at(s@, i as int),
{
    let r = [s[i], s[i + 1], s[i + 2], s[i + 3]];
    assert(r =~= arr4_at(s@, i as int));
    r
}

pub fn read_arr6(s: &[u8], i: usize) -> (r: [u8; 6])
    requires
        i + 6 <= s@.len(),
    ensures
        r == arr6_at(s@, i as int),
{
    let r = [s[i], s[i + 1], s[i + 2], s[i + 3], s[i + 4], s[i + 5]];
    assert(r =~= arr6_at(s@, i as int));
    r
}

pub fn read_arr8(s: &[u8], i: usize) -> (r: [u8; 8])
    requires
        i + 8 <= s@.len(),
    ensures
        r == arr8_at(s@, i as int),
{
    let r = [s[i], s[i + 1], s[i + 2], s[i + 3], s[i + 4], s[i + 5], s[i + 6], s[i + 7]];
    assert(r =~= arr8_at(s@, i as int));
    r
}

pub fn read_arr10(s: &[u8], i: usize) -> (r: [u8; 10])
    requires
        i + 10 <= s@.len(),
    ensures
        r == arr10_at(s@, i as int),
{
    let r = [
        s[i],
        s[i + 1],
        s[i + 2],
        s[i + 3],
        s[i + 4],
        s[i + 5],
        s[i + 6],
        s[i + 7],
        s[i + 8],
        s[i + 9],
    ];
    assert(r =~= arr10_at(s@, i as int));
    r
}

pub fn read_arr16(s: &[u8], i: usize) -> (r: [u8; 16])
    requires
        i + 16 <= s@.len(),
    ensures
        r == arr16_at(s@, i as int),
{
    let r = [
        s[i],
        s[i + 1],
        s[i + 2],
        s[i + 3],
        s[i + 4],
        s[i + 5],
        s[i + 6],
        s[i + 7],
        s[i + 8],
        s[i + 9],
        s[i + 10],
        s[i + 11],
        s[i + 12],
        s[i + 13],
        s[i + 14],
        s[i + 15],
    ];
    assert(r =~= arr16_at(s@, i as int));
    r
}

/// Reading back a 16-bit integer from between two octet strings gives it.
pub proof fn lemma_u16_back(pre: Seq<u8>, v: u16, post: Seq<u8>)
    ensures
        u16_at(pre + be16(v) + post, pre.len() as int) == v,
{
    let s = pre + be16(v) + post;
    assert(s[pre.len() as int] == be16(v)[0]);
    assert(s[pre.len() as int + 1] == be16(v)[1]);
}

/// Reading back a 24-bit integer from between two octet strings gives it.
pub proof fn lemma_u24_back(pre: Seq<u8>, v: u32, post: Seq<u8>)
    requires
        v < 16777216,
    ensures
        u24_at(pre + be24(v) + post, pre.len() as int) == v,
{
    let s = pre + be24(v) + post;
    assert(s[pre.len() as int] == be24(v)[0]);
    assert(s[pre.len() as int + 1] == be24(v)[1]);
    assert(s[pre.len() as int + 2] == be24(v)[2]);
}

/// Reading back a 32-bit integer from between two octet strings gives it.
pub proof fn lemma_u32_back(pre: Seq<u8>, v: u32, post: Seq<u8>)
    ensures
        u32_at(pre + be32(v) + post, pre.len() as int) == v,
{
    let s = pre + be32(v) + post;
    assert(s[pre.len() as int] == be32(v)[0]);
    assert(s[pre.len() as int + 1] == be32(v)[1]);
    assert(s[pre.len() as int + 2] == be32(v)[2]);
    assert(s[pre.len() as int + 3] == be32(v)[3]);
}

/// Reading back a 64-bit integer from between two octet strings gives it.
pub proof fn lemma_u64_back(pre: Seq<u8>, v: u64, post: Seq<u8>)
    ensures
        u64_at(pre + be64(v) + post, pre.len() as int) == v,
{
    let hi = (v / 4294967296) as u32;
    let lo = (v % 4294967296) as u32;
    lemma_u32_back(pre, hi, be32(lo) + post);
    lemma_u32_back(pre + be32(hi), lo, post);
    assert(pre + be64(v) + post =~= pre + be32(hi) + (be32(lo) + post));
    assert(pre + be64(v) + post =~= (pre + be32(hi)) + be32(lo) + post);
}

/// The two octets at an offset are those of the integer there.
pub proof fn lemma_be16_at(s: Seq<u8>, i: int)
    requires
        0 <= i,
        i + 2 <= s.len(),
    ensures
        be16(u16_at(s, i)) == s.subrange(i, i + 2),
{
    assert(be16(u16_at(s, i)) =~= s.subrange(i, i + 2));
}

proof fn lemma_places(a: int, b: int, c: int, d: int, v: int)
    requires
        0 <= a < 256,
        0 <= b < 256,
        0 <= c < 256,
        0 <= d < 256,
        v == a * 16777216 + b * 65536 + c * 256 + d,
    ensures
        v / 16777216 == a,
        v / 65536 % 256 == b,
        v / 256 % 256 == c,
        v % 256 == d,
{
    let hi = a * 256 + b;
    assert(v / 65536 == hi);
    assert(v / 256 == hi * 256 + c);
}

/// The four octets at an offset are those of the integer there.
pub proof fn lemma_be32_at(s: Seq<u8>, i: int)
    requires
        0 <= i,
        i + 4 <= s.len(),
    ensures
        be32(u32_at(s, i)) == s.subrange(i, i + 4),
{
    let v = u32_at(s, i);
    lemma_places(s[i] as int, s[i + 1] as int, s[i + 2] as int, s[i + 3] as int, v as int);
    let f = s.subrange(i, i + 4);
    assert(f[0] == s[i] && f[1] == s[i + 1] && f[2] == s[i + 2] && f[3] == s[i + 3]);
    assert(be32(v) =~= f);
}

/// The 16-bit integer at an offset where its octets stand.
pub proof fn lemma_u16_placed(s: Seq<u8>, i: int, v: u16)
    requires
        0 <= i,
        i + 2 <= s.len(),
        s.subrange(i, i + 2) == be16(v),
    ensures
        u16_at(s, i) == v,
{
    let f = s.subrange(i, i + 2);
    assert(s[i + 0] == f[0]);
    assert(s[i + 1] == f[1]);
}

/// The 24-bit integer at an offset where its octets stand.
pub proof fn lemma_u24_placed(s: Seq<u8>, i: int, v: u32)
    requires
        0 <= i,
        i + 3 <= s.len(),
        s.subrange(i, i + 3) == be24(v),
        v < 16777216,
    ensures
        u24_at(s, i) == v,
{
    let f = s.subrange(i, i + 3);
    assert(s[i + 0] == f[0]);
    assert(s[i + 1] == f[1]);
    assert(s[i + 2] == f[2]);
}

/// The 32-bit integer at an offset where its octets stand.
pub proof fn lemma_u32_placed(s: Seq<u8>, i: int, v: u32)
    requires
        0 <= i,
        i + 4 <= s.len(),
        s.subrange(i, i + 4) == be32(v),
    ensures
        u32_at(s, i) == v,
{
    let f = s.subrange(i, i + 4);
    assert(s[i + 0] == f[0]);
    assert(s[i + 1] == f[1]);
    assert(s[i + 2] == f[2]);
    assert(s[i + 3] == f[3]);
}

/// The 4 octets at an offset where they stand.
pub proof fn lemma_arr4_placed(s: Seq<u8>, i: int, a: [u8; 4])
    requires
        0 <= i,
        i + 4 <= s.len(),
        s.subrange(i, i + 4) == a@,
    ensures
        arr4_at(s, i) == a,
{
    let f = s.subrange(i, i + 4);
    let r = arr4_at(s, i);
    assert forall|k: int| 0 <= k < 4 implies r@[k] == a@[k] by {
        assert(s[i + k] == f[k]);
    }
    assert(r =~= a);
}

/// The 6 octets at an offset where they stand.
pub proof fn lemma_arr6_placed(s: Seq<u8>, i: int, a: [u8; 6])
    requires
        0 <= i,
        i + 6 <= s.len(),
        s.subrange(i, i + 6) == a@,
    ensures
        arr6_at(s, i) == a,
{
    let f = s.subrange(i, i + 6);
    let r = arr6_at(s, i);
    assert forall|k: int| 0 <= k < 6 implies r@[k] == a@[k] by {
        assert(s[i + k] == f[k]);
    }
    assert(r =~= a);
}

/// The 8 octets at an offset where they stand.
pub proof fn lemma_arr8_placed(s: Seq<u8>, i: int, a: [u8; 8])
    requires
        0 <= i,
        i + 8 <= s.len(),
        s.subrange(i, i + 8) == a@,
    ensures
        arr8_at(s, i) == a,
{
    let f = s.subrange(i, i + 8);
    let r = arr8_at(s, i);
    assert forall|k: int| 0 <= k < 8 implies r@[k] == a@[k] by {
        assert(s[i + k] == f[k]);
    }
    assert(r =~= a);
}

/// The 10 octets at an offset where they stand.
pub proof fn lemma_arr10_placed(s: Seq<u8>, i: int, a: [u8; 10])
    requires
        0 <= i,
        i + 10 <= s.len(),
        s.subrange(i, i + 10) == a@,
    ensures
        arr10_at(s, i) == a,
{
    let f = s.subrange(i, i + 10);
    let r = arr10_at(s, i);
    assert forall|k: int| 0 <= k < 10 implies r@[k] == a@[k] by {
        assert(s[i + k] == f[k]);
    }
    assert(r =~= a);
}

/// The 16 octets at an offset where they stand.
pub proof fn lemma_arr16_placed(s: Seq<u8>, i: int, a: [u8; 16])
    requires
        0 <= i,
        i + 16 <= s.len(),
        s.subrange(i, i + 16) == a@,
    ensures
        arr16_at(s, i) == a,
{
    let f = s.subrange(i, i + 16);
    let r = arr16_at(s, i);
    assert forall|k: int| 0 <= k < 16 implies r@[k] == a@[k] by {
        assert(s[i + k] == f[k]);
    }
    assert(r =~= a);
}

} // verus!
