//! MD5 (RFC 1321) and SHA-1 (RFC 3174), for BFD's keyed digests only.

use vstd::prelude::*;

use crate::wire;

verus! {

/// The rotation of each of the 64 steps of MD5.
pub const MD5_SHIFT: [u32; 64] = [
    7, 12, 17, 22, 7, 12, 17, 22, 7, 12, 17, 22, 7, 12, 17, 22, 5, 9, 14, 20, 5, 9, 14, 20, 5, 9, 14,
    20, 5, 9, 14, 20, 4, 11, 16, 23, 4, 11, 16, 23, 4, 11, 16, 23, 4, 11, 16, 23, 6, 10, 15, 21, 6,
    10, 15, 21, 6, 10, 15, 21, 6, 10, 15, 21,
];

/// The additive constant of each of the 64 steps of MD5.
pub const MD5_TABLE: [u32; 64] = [
    0xd76aa478, 0xe8c7b756, 0x242070db, 0xc1bdceee, 0xf57c0faf, 0x4787c62a, 0xa8304613, 0xfd469501,
    0x698098d8, 0x8b44f7af, 0xffff5bb1, 0x895cd7be, 0x6b901122, 0xfd987193, 0xa679438e, 0x49b40821,
    0xf61e2562, 0xc040b340, 0x265e5a51, 0xe9b6c7aa, 0xd62f105d, 0x02441453, 0xd8a1e681, 0xe7d3fbc8,
    0x21e1cde6, 0xc33707d6, 0xf4d50d87, 0x455a14ed, 0xa9e3e905, 0xfcefa3f8, 0x676f02d9, 0x8d2a4c8a,
    0xfffa3942, 0x8771f681, 0x6d9d6122, 0xfde5380c, 0xa4beea44, 0x4bdecfa9, 0xf6bb4b60, 0xbebfbc70,
    0x289b7ec6, 0xeaa127fa, 0xd4ef3085, 0x04881d05, 0xd9d4d039, 0xe6db99e5, 0x1fa27cf8, 0xc4ac5665,
    0xf4292244, 0x432aff97, 0xab9423a7, 0xfc93a039, 0x655b59c3, 0x8f0ccc92, 0xffeff47d, 0x85845dd1,
    0x6fa87e4f, 0xfe2ce6e0, 0xa3014314, 0x4e0811a1, 0xf7537e82, 0xbd3af235, 0x2ad7d2bb, 0xeb86d391,
];

/// `x` rotated left by `n` bits, for `0 < n < 32`.
pub open spec fn rotl(x: u32, n: u32) -> u32 {
    (x << n) | (x >> ((32 - n) as u32))
}

fn rotate(x: u32, n: u32) -> (r: u32)
    requires
        0 < n < 32,
    ensures
        r == rotl(x, n),
{
    (x << n) | (x >> (32 - n))
}

/// The number of zero octets between the 0x80 marker and the length field: the least
/// that makes the padded message a multiple of 64 octets.
pub open spec fn zeros(len: int) -> nat {
    ((119 - len % 64) % 64) as nat
}

/// The message with its padding: the marker, the zeros, and the eight octets that
/// hold the length in bits.
pub open spec fn padded(msg: Seq<u8>, length: Seq<u8>) -> Seq<u8> {
    msg + seq![0x80u8] + Seq::new(zeros(msg.len() as int), |i: int| 0u8) + length
}

/// The message length in bits, modulo 2 to the 64th.
pub open spec fn bit_length(len: nat) -> u64 {
    (len * 8 % 0x1_0000_0000_0000_0000) as u64
}

/// The octets of `s` in reverse order: big-endian to little-endian.
pub open spec fn reversed(s: Seq<u8>) -> Seq<u8> {
    Seq::new(s.len(), |i: int| s[s.len() - 1 - i])
}

/// The little-endian 32-bit integer at offset `i`.
pub open spec fn le32_at(s: Seq<u8>, i: int) -> u32 {
    (s[i + 3] * 16777216 + s[i + 2] * 65536 + s[i + 1] * 256 + s[i]) as u32
}

/// The registers of MD5.
pub type Md5State = (u32, u32, u32, u32);

/// The registers before the first block.
pub open spec fn md5_start() -> Md5State {
    (0x67452301, 0xefcdab89, 0x98badcfe, 0x10325476)
}

/// Which word of the block step `i` of MD5 reads.
pub open spec fn md5_word(i: int) -> int {
    if i < 16 {
        i
    } else if i < 32 {
        (5 * i + 1) % 16
    } else if i < 48 {
        (3 * i + 5) % 16
    } else {
        (7 * i) % 16
    }
}

/// The nonlinear function of step `i` of MD5.
pub open spec fn md5_mix(i: int, b: u32, c: u32, d: u32) -> u32 {
    if i < 16 {
        (b & c) | (!b & d)
    } else if i < 32 {
        (d & b) | (!d & c)
    } else if i < 48 {
        b ^ c ^ d
    } else {
        c ^ (b | !d)
    }
}

/// One step of MD5 on the block at offset `at` of `m`.
pub open spec fn md5_step(s: Md5State, m: Seq<u8>, at: int, i: int) -> Md5State {
    let f = md5_mix(i, s.1, s.2, s.3).wrapping_add(s.0).wrapping_add(
        MD5_TABLE@[i],
    ).wrapping_add(le32_at(m, at + 4 * md5_word(i)));
    (s.3, s.1.wrapping_add(rotl(f, MD5_SHIFT@[i])), s.1, s.2)
}

/// The registers after `n` steps on one block.
pub open spec fn md5_steps(s: Md5State, m: Seq<u8>, at: int, n: nat) -> Md5State
    decreases n,
{
    if n == 0 {
        s
    } else {
        md5_step(md5_steps(s, m, at, (n - 1) as nat), m, at, n - 1)
    }
}

/// The registers after the first `n` blocks of `m`.
pub open spec fn md5_blocks(m: Seq<u8>, n: nat) -> Md5State
    decreases n,
{
    if n == 0 {
        md5_start()
    } else {
        let s = md5_blocks(m, (n - 1) as nat);
        let t = md5_steps(s, m, 64 * (n - 1), 64);
        (
            s.0.wrapping_add(t.0),
            s.1.wrapping_add(t.1),
            s.2.wrapping_add(t.2),
            s.3.wrapping_add(t.3),
        )
    }
}

/// The padded message that MD5 works on.
pub open spec fn md5_padded(msg: Seq<u8>) -> Seq<u8> {
    padded(msg, reversed(wire::be64(bit_length(msg.len()))))
}

/// The MD5 digest of `msg` (RFC 1321).
pub open spec fn md5_digest(msg: Seq<u8>) -> Seq<u8> {
    let m = md5_padded(msg);
    let s = md5_blocks(m, (m.len() / 64) as nat);
    reversed(wire::be32(s.0)) + reversed(wire::be32(s.1)) + reversed(wire::be32(s.2)) + reversed(
        wire::be32(s.3),
    )
}

/// The registers of SHA-1.
pub type Sha1State = (u32, u32, u32, u32, u32);

/// The registers before the first block.
pub open spec fn sha1_start() -> Sha1State {
    (0x67452301, 0xEFCDAB89, 0x98BADCFE, 0x10325476, 0xC3D2E1F0)
}

/// Word `i` of the message schedule of the block at offset `at` of `m`.
pub open spec fn sha1_word(m: Seq<u8>, at: int, i: int) -> u32
    decreases i,
{
    if i < 16 {
        wire::u32_at(m, at + 4 * i)
    } else {
        rotl(
            sha1_word(m, at, i - 3) ^ sha1_word(m, at, i - 8) ^ sha1_word(m, at, i - 14) ^ sha1_word(
                m,
                at,
                i - 16,
            ),
            1,
        )
    }
}

/// The nonlinear function of step `i` of SHA-1.
pub open spec fn sha1_mix(i: int, b: u32, c: u32, d: u32) -> u32 {
    if i < 20 {
        (b & c) | (!b & d)
    } else if i < 40 {
        b ^ c ^ d
    } else if i < 60 {
        (b & c) | (b & d) | (c & d)
    } else {
        b ^ c ^ d
    }
}

/// The additive constant of step `i` of SHA-1.
pub open spec fn sha1_constant(i: int) -> u32 {
    if i < 20 {
        0x5A827999
    } else if i < 40 {
        0x6ED9EBA1
    } else if i < 60 {
        0x8F1BBCDC
    } else {
        0xCA62C1D6
    }
}

/// One step of SHA-1 on the block at offset `at` of `m`.
pub open spec fn sha1_step(s: Sha1State, m: Seq<u8>, at: int, i: int) -> Sha1State {
    let t = rotl(s.0, 5).wrapping_add(sha1_mix(i, s.1, s.2, s.3)).wrapping_add(s.4).wrapping_add(
        sha1_constant(i),
    ).wrapping_add(sha1_word(m, at, i));
    (t, s.0, rotl(s.1, 30), s.2, s.3)
}

/// The registers after `n` steps on one block.
pub open spec fn sha1_steps(s: Sha1State, m: Seq<u8>, at: int, n: nat) -> Sha1State
    decreases n,
{
    if n == 0 {
        s
    } else {
        sha1_step(sha1_steps(s, m, at, (n - 1) as nat), m, at, n - 1)
    }
}

/// The registers after the first `n` blocks of `m`.
pub open spec fn sha1_blocks(m: Seq<u8>, n: nat) -> Sha1State
    decreases n,
{
    if n == 0 {
        sha1_start()
    } else {
        let s = sha1_blocks(m, (n - 1) as nat);
        let t = sha1_steps(s, m, 64 * (n - 1), 80);
        (
            s.0.wrapping_add(t.0),
            s.1.wrapping_add(t.1),
            s.2.wrapping_add(t.2),
            s.3.wrapping_add(t.3),
            s.4.wrapping_add(t.4),
        )
    }
}

/// The padded message that SHA-1 works on.
pub open spec fn sha1_padded(msg: Seq<u8>) -> Seq<u8> {
    padded(msg, wire::be64(bit_length(msg.len())))
}

/// The SHA-1 hash of `msg` (RFC 3174).
pub open spec fn sha1_digest(msg: Seq<u8>) -> Seq<u8> {
    let m = sha1_padded(msg);
    let s = sha1_blocks(m, (m.len() / 64) as nat);
    wire::be32(s.0) + wire::be32(s.1) + wire::be32(s.2) + wire::be32(s.3) + wire::be32(s.4)
}

/// The padded message is a whole number of blocks, at most 72 octets longer than the
/// message itself.
proof fn lemma_padded_len(msg: Seq<u8>, length: Seq<u8>)
    requires
        length.len() == 8,
    ensures
        padded(msg, length).len() % 64 == 0,
        padded(msg, length).len() == msg.len() + 9 + zeros(msg.len() as int),
{
}

/// The message followed by the marker and the zeros; the length octets come after.
fn pad(msg: &[u8]) -> (m: Vec<u8>)
    ensures
        m@ == msg@ + seq![0x80u8] + Seq::new(zeros(msg@.len() as int), |i: int| 0u8),
{
    let mut m = wire::copy_of(msg);
    m.push(0x80);
    let n: usize = (119 - msg.len() % 64) % 64;
    let ghost base = msg@ + seq![0x80u8];
    let mut k: usize = 0;
    assert(m@ =~= base + Seq::new(0, |i: int| 0u8));
    while k < n
        invariant
            k <= n,
            m@ == base + Seq::new(k as nat, |i: int| 0u8),
        decreases n - k,
    {
        m.push(0);
        k = k + 1;
        assert(m@ =~= base + Seq::new(k as nat, |i: int| 0u8));
    }
    m
}

fn le_word(m: &[u8], i: usize) -> (r: u32)
    requires
        i + 4 <= m@.len(),
    ensures
        r == le32_at(m@, i as int),
{
    assert(i + 4 <= m.len());
    m[i + 3] as u32 * 16777216 + m[i + 2] as u32 * 65536 + m[i + 1] as u32 * 256 + m[i] as u32
}

fn md5_block(s: Md5State, m: &[u8], at: usize) -> (r: Md5State)
    requires
        at + 64 <= m@.len(),
    ensures
        r == md5_steps(s, m@, at as int, 64),
{
    let (mut a, mut b, mut c, mut d) = s;
    let mut i: usize = 0;
    while i < 64
        invariant
            i <= 64,
            at + 64 <= m@.len(),
            (a, b, c, d) == md5_steps(s, m@, at as int, i as nat),
        decreases 64 - i,
    {
        let (f, g): (u32, usize) = if i < 16 {
            ((b & c) | (!b & d), i)
        } else if i < 32 {
            ((d & b) | (!d & c), (5 * i + 1) % 16)
        } else if i < 48 {
            (b ^ c ^ d, (3 * i + 5) % 16)
        } else {
            (c ^ (b | !d), (7 * i) % 16)
        };
        assert(at + 64 <= m.len());
        let sum = f.wrapping_add(a).wrapping_add(MD5_TABLE[i]).wrapping_add(
            le_word(m, at + 4 * g),
        );
        assert(0 < MD5_SHIFT@[i as int] < 32);
        let next = b.wrapping_add(rotate(sum, MD5_SHIFT[i]));
        a = d;
        d = c;
        c = b;
        b = next;
        i = i + 1;
    }
    (a, b, c, d)
}

fn le_octets(v: u32, out: &mut Vec<u8>)
    ensures
        final(out)@ == old(out)@ + reversed(wire::be32(v)),
{
    out.push((v % 256) as u8);
    out.push((v / 256 % 256) as u8);
    out.push((v / 65536 % 256) as u8);
    out.push((v / 16777216) as u8);
    assert(out@ =~= old(out)@ + reversed(wire::be32(v)));
}

/// The MD5 digest of `msg` (RFC 1321).
pub fn md5(msg: &[u8]) -> (r: [u8; 16])
    ensures
        r@ == md5_digest(msg@),
{
    let mut m = pad(msg);
    let bits: u64 = (msg.len() as u64).wrapping_mul(8);
    le_octets((bits % 4294967296) as u32, &mut m);
    le_octets((bits / 4294967296) as u32, &mut m);
    proof {
        lemma_padded_len(msg@, reversed(wire::be64(bits)));
        assert(m@ =~= md5_padded(msg@));
    }
    let mut s: Md5State = (0x67452301, 0xefcdab89, 0x98badcfe, 0x10325476);
    let n: usize = m.len() / 64;
    let mut k: usize = 0;
    while k < n
        invariant
            k <= n,
            n == m@.len() / 64,
            s == md5_blocks(m@, k as nat),
        decreases n - k,
    {
        assert(64 * k + 64 <= m.len());
        let t = md5_block(s, m.as_slice(), 64 * k);
        s =
        (
            s.0.wrapping_add(t.0),
            s.1.wrapping_add(t.1),
            s.2.wrapping_add(t.2),
            s.3.wrapping_add(t.3),
        );
        k = k + 1;
    }
    let mut out: Vec<u8> = Vec::new();
    le_octets(s.0, &mut out);
    le_octets(s.1, &mut out);
    le_octets(s.2, &mut out);
    le_octets(s.3, &mut out);
    let r = wire::read_arr16(out.as_slice(), 0);
    assert(r@ =~= md5_digest(msg@));
    r
}

fn sha1_schedule(m: &[u8], at: usize) -> (w: Vec<u32>)
    requires
        at + 64 <= m@.len(),
    ensures
        w@.len() == 80,
        forall|j: int| 0 <= j < 80 ==> w@[j] == sha1_word(m@, at as int, j),
{
    let mut w: Vec<u32> = Vec::new();
    let mut i: usize = 0;
    while i < 80
        invariant
            i <= 80,
            at + 64 <= m@.len(),
            w@.len() == i,
            forall|j: int| 0 <= j < i ==> w@[j] == sha1_word(m@, at as int, j),
        decreases 80 - i,
    {
        assert(at + 64 <= m.len());
        if i < 16 {
            w.push(wire::read_u32(m, at + 4 * i));
        } else {
            w.push(rotate(w[i - 3] ^ w[i - 8] ^ w[i - 14] ^ w[i - 16], 1));
        }
        i = i + 1;
    }
    w
}

fn sha1_block(s: Sha1State, m: &[u8], at: usize) -> (r: Sha1State)
    requires
        at + 64 <= m@.len(),
    ensures
        r == sha1_steps(s, m@, at as int, 80),
{
    let w = sha1_schedule(m, at);
    let (mut a, mut b, mut c, mut d, mut e) = s;
    let mut i: usize = 0;
    while i < 80
        invariant
            i <= 80,
            w@.len() == 80,
            forall|j: int| 0 <= j < 80 ==> w@[j] == sha1_word(m@, at as int, j),
            (a, b, c, d, e) == sha1_steps(s, m@, at as int, i as nat),
        decreases 80 - i,
    {
        let (f, k): (u32, u32) = if i < 20 {
            ((b & c) | (!b & d), 0x5A827999)
        } else if i < 40 {
            (b ^ c ^ d, 0x6ED9EBA1)
        } else if i < 60 {
            ((b & c) | (b & d) | (c & d), 0x8F1BBCDC)
        } else {
            (b ^ c ^ d, 0xCA62C1D6)
        };
        let t = rotate(a, 5).wrapping_add(f).wrapping_add(e).wrapping_add(k).wrapping_add(w[i]);
        e = d;
        d = c;
        c = rotate(b, 30);
        b = a;
        a = t;
        i = i + 1;
    }
    (a, b, c, d, e)
}

/// The SHA-1 hash of `msg` (RFC 3174).
pub fn sha1(msg: &[u8]) -> (r: [u8; 20])
    ensures
        r@ == sha1_digest(msg@),
{
    let mut m = pad(msg);
    let bits: u64 = (msg.len() as u64).wrapping_mul(8);
    wire::push_u64(&mut m, bits);
    proof {
        lemma_padded_len(msg@, wire::be64(bits));
        assert(m@ =~= sha1_padded(msg@));
    }
    let mut s: Sha1State = (0x67452301, 0xEFCDAB89, 0x98BADCFE, 0x10325476, 0xC3D2E1F0);
    let n: usize = m.len() / 64;
    let mut k: usize = 0;
    while k < n
        invariant
            k <= n,
            n == m@.len() / 64,
            s == sha1_blocks(m@, k as nat),
        decreases n - k,
    {
        assert(64 * k + 64 <= m.len());
        let t = sha1_block(s, m.as_slice(), 64 * k);
        s =
        (
            s.0.wrapping_add(t.0),
            s.1.wrapping_add(t.1),
            s.2.wrapping_add(t.2),
            s.3.wrapping_add(t.3),
            s.4.wrapping_add(t.4),
        );
        k = k + 1;
    }
    let mut out: Vec<u8> = Vec::new();
    wire::push_u32(&mut out, s.0);
    wire::push_u32(&mut out, s.1);
    wire::push_u32(&mut out, s.2);
    wire::push_u32(&mut out, s.3);
    wire::push_u32(&mut out, s.4);
    let r: [u8; 20] = [
        out[0],
        out[1],
        out[2],
        out[3],
        out[4],
        out[5],
        out[6],
        out[7],
        out[8],
        out[9],
        out[10],
        out[11],
        out[12],
        out[13],
        out[14],
        out[15],
        out[16],
        out[17],
        out[18],
        out[19],
    ];
    assert(r@ =~= sha1_digest(msg@));
    r
}

} // verus!
