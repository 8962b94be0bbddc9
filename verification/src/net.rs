//! Internet addresses, prefixes and routes, as plain octets.

use vstd::prelude::*;

use crate::order::{Datum, Ranked};
use crate::wire;

verus! {

/// An IPv4 address: its four octets, in network order.
#[derive(Clone, Copy, PartialEq, Eq, PartialOrd, Ord, Hash, Debug)]
pub struct Ipv4Addr {
    pub octets: [u8; 4],
}

/// An IPv6 address: its sixteen octets, in network order.
#[derive(Clone, Copy, PartialEq, Eq, PartialOrd, Ord, Hash, Debug)]
pub struct Ipv6Addr {
    pub octets: [u8; 16],
}

/// An address of either family.
#[derive(Clone, Copy, PartialEq, Eq, PartialOrd, Ord, Hash, Debug)]
pub enum IpAddr {
    V4(Ipv4Addr),
    V6(Ipv6Addr),
}

/// An IPv4 address from the octets at offset `i` of `s`.
pub open spec fn v4_at(s: Seq<u8>, i: int) -> IpAddr {
    IpAddr::V4(Ipv4Addr { octets: wire::arr4_at(s, i) })
}

/// An IPv6 address from the octets at offset `i` of `s`.
pub open spec fn v6_at(s: Seq<u8>, i: int) -> IpAddr {
    IpAddr::V6(Ipv6Addr { octets: wire::arr16_at(s, i) })
}

pub fn read_v4(s: &[u8], i: usize) -> (r: IpAddr)
    requires
        i + 4 <= s@.len(),
    ensures
        r == v4_at(s@, i as int),
{
    IpAddr::V4(Ipv4Addr { octets: wire::read_arr4(s, i) })
}

pub fn read_v6(s: &[u8], i: usize) -> (r: IpAddr)
    requires
        i + 16 <= s@.len(),
    ensures
        r == v6_at(s@, i as int),
{
    IpAddr::V6(Ipv6Addr { octets: wire::read_arr16(s, i) })
}

impl Ipv4Addr {
    /// The address `a.b.c.d`.
    pub fn new(a: u8, b: u8, c: u8, d: u8) -> (r: Ipv4Addr)
        ensures
            r.octets@ == seq![a, b, c, d],
    {
        let r = Ipv4Addr { octets: [a, b, c, d] };
        assert(r.octets@ =~= seq![a, b, c, d]);
        r
    }

    /// Whether the two addresses are the same.
    pub fn same(&self, other: &Ipv4Addr) -> (r: bool)
        ensures
            r == (*self == *other),
    {
        let r = wire::same_bytes(self.octets.as_slice(), other.octets.as_slice());
        assert(r ==> self.octets =~= other.octets);
        r
    }

    /// The four octets.
    pub fn octets(&self) -> (r: [u8; 4])
        ensures
            r == self.octets,
    {
        self.octets
    }
}

impl Ipv6Addr {
    /// The address with these sixteen octets.
    pub fn new(octets: [u8; 16]) -> (r: Ipv6Addr)
        ensures
            r.octets == octets,
    {
        Ipv6Addr { octets }
    }

    /// Whether the two addresses are the same.
    pub fn same(&self, other: &Ipv6Addr) -> (r: bool)
        ensures
            r == (*self == *other),
    {
        let r = wire::same_bytes(self.octets.as_slice(), other.octets.as_slice());
        assert(r ==> self.octets =~= other.octets);
        r
    }

    /// The sixteen octets.
    pub fn octets(&self) -> (r: [u8; 16])
        ensures
            r == self.octets,
    {
        self.octets
    }

    /// Whether the address lies in `fe80::/10`.
    pub open spec fn link_local(self) -> bool {
        self.octets[0] == 0xfe && self.octets[1] / 64 == 2
    }

    /// Whether the address lies in `fe80::/10`.
    pub fn is_link_local(&self) -> (r: bool)
        ensures
            r == self.link_local(),
    {
        self.octets[0] == 0xfe && self.octets[1] / 64 == 2
    }
}

impl IpAddr {
    /// The octets of the address: four or sixteen.
    pub open spec fn bytes(self) -> Seq<u8> {
        match self {
            IpAddr::V4(a) => a.octets@,
            IpAddr::V6(a) => a.octets@,
        }
    }

    /// The number of bits of the family: 32 or 128.
    pub open spec fn width(self) -> u8 {
        match self {
            IpAddr::V4(_) => 32,
            IpAddr::V6(_) => 128,
        }
    }

    /// Whether every octet is zero.
    pub open spec fn unspecified(self) -> bool {
        is_zero(self.bytes())
    }

    pub fn is_ipv4(&self) -> (r: bool)
        ensures
            r == (self is V4),
    {
        match self {
            IpAddr::V4(_) => true,
            IpAddr::V6(_) => false,
        }
    }

    pub fn is_ipv6(&self) -> (r: bool)
        ensures
            r == (self is V6),
    {
        !self.is_ipv4()
    }

    /// Whether this is the all-zero address of its family.
    pub fn is_unspecified(&self) -> (r: bool)
        ensures
            r == self.unspecified(),
    {
        match self {
            IpAddr::V4(a) => all_zero(a.octets.as_slice()),
            IpAddr::V6(a) => all_zero(a.octets.as_slice()),
        }
    }

    /// Append the octets of the address.
    pub fn push_octets(&self, out: &mut Vec<u8>)
        ensures
            final(out)@ == old(out)@ + self.bytes(),
    {
        match self {
            IpAddr::V4(a) => wire::push_all(out, a.octets.as_slice()),
            IpAddr::V6(a) => wire::push_all(out, a.octets.as_slice()),
        }
    }
}

/// Whether every octet is zero.
pub open spec fn is_zero(s: Seq<u8>) -> bool {
    forall|i: int| 0 <= i < s.len() ==> s[i] == 0
}

fn all_zero(s: &[u8]) -> (r: bool)
    ensures
        r == is_zero(s@),
{
    let mut i: usize = 0;
    while i < s.len()
        invariant
            i <= s.len(),
            forall|j: int| 0 <= j < i ==> s@[j] == 0,
        decreases s.len() - i,
    {
        if s[i] != 0 {
            return false;
        }
        i = i + 1;
    }
    true
}

/// How many values the host part of an octet takes when `bits` of it, counted from
/// the top, belong to the network.
pub open spec fn span(bits: int) -> u8 {
    if bits == 1 {
        128
    } else if bits == 2 {
        64
    } else if bits == 3 {
        32
    } else if bits == 4 {
        16
    } else if bits == 5 {
        8
    } else if bits == 6 {
        4
    } else if bits == 7 {
        2
    } else {
        1
    }
}

/// Octet `i` of an address, with the bits past the first `len` of the address cleared.
pub open spec fn kept(o: u8, len: u8, i: int) -> u8 {
    if len - 8 * i <= 0 {
        0
    } else {
        (o - o % span(len - 8 * i)) as u8
    }
}

fn span_of(bits: u8) -> (r: u8)
    ensures
        r == span(bits as int),
        r >= 1,
{
    match bits {
        1 => 128,
        2 => 64,
        3 => 32,
        4 => 16,
        5 => 8,
        6 => 4,
        7 => 2,
        _ => 1,
    }
}

fn keep(o: u8, len: u8, i: u8) -> (r: u8)
    requires
        i < 16,
    ensures
        r == kept(o, len, i as int),
{
    if len <= 8 * i {
        0
    } else {
        let s = span_of(len - 8 * i);
        proof {
            vstd::arithmetic::div_mod::lemma_mod_decreases(o as nat, s as nat);
        }
        o - o % s
    }
}

/// The address with every bit past the first `len` cleared.
pub open spec fn masked(a: IpAddr, len: u8) -> IpAddr {
    match a {
        IpAddr::V4(a) => {
            let o = a.octets@;
            IpAddr::V4(
                Ipv4Addr {
                    octets: [
                        kept(o[0], len, 0),
                        kept(o[1], len, 1),
                        kept(o[2], len, 2),
                        kept(o[3], len, 3),
                    ],
                },
            )
        },
        IpAddr::V6(a) => {
            let o = a.octets@;
            IpAddr::V6(
                Ipv6Addr {
                    octets: [
                        kept(o[0], len, 0),
                        kept(o[1], len, 1),
                        kept(o[2], len, 2),
                        kept(o[3], len, 3),
                        kept(o[4], len, 4),
                        kept(o[5], len, 5),
                        kept(o[6], len, 6),
                        kept(o[7], len, 7),
                        kept(o[8], len, 8),
                        kept(o[9], len, 9),
                        kept(o[10], len, 10),
                        kept(o[11], len, 11),
                        kept(o[12], len, 12),
                        kept(o[13], len, 13),
                        kept(o[14], len, 14),
                        kept(o[15], len, 15),
                    ],
                },
            )
        },
    }
}

fn mask(a: IpAddr, len: u8) -> (r: IpAddr)
    ensures
        r == masked(a, len),
{
    match a {
        IpAddr::V4(a) => {
            let o = a.octets;
            let m = [keep(o[0], len, 0), keep(o[1], len, 1), keep(o[2], len, 2), keep(o[3], len, 3)];
            let r = IpAddr::V4(Ipv4Addr { octets: m });
            assert(m =~= masked(IpAddr::V4(a), len)->V4_0.octets);
            r
        },
        IpAddr::V6(a) => {
            let o = a.octets;
            let m = [
                keep(o[0], len, 0),
                keep(o[1], len, 1),
                keep(o[2], len, 2),
                keep(o[3], len, 3),
                keep(o[4], len, 4),
                keep(o[5], len, 5),
                keep(o[6], len, 6),
                keep(o[7], len, 7),
                keep(o[8], len, 8),
                keep(o[9], len, 9),
                keep(o[10], len, 10),
                keep(o[11], len, 11),
                keep(o[12], len, 12),
                keep(o[13], len, 13),
                keep(o[14], len, 14),
                keep(o[15], len, 15),
            ];
            let r = IpAddr::V6(Ipv6Addr { octets: m });
            assert(m =~= masked(IpAddr::V6(a), len)->V6_0.octets);
            r
        },
    }
}

/// A network prefix: an address whose bits past the first `len` are zero. `new`
/// makes one of any address by clearing them.
#[derive(Clone, Copy, PartialEq, Eq, PartialOrd, Ord, Hash, Debug)]
pub struct Prefix {
    pub addr: IpAddr,
    pub len: u8,
}

/// Why a prefix could not be made.
#[derive(Clone, Copy, PartialEq, Eq, Structural, Debug)]
pub enum PrefixError {
    /// The length exceeds the number of bits of the address.
    LengthTooLong,
}

/// The prefix of length `len` that holds `addr`, where the family is wide enough.
pub open spec fn prefix_of(addr: IpAddr, len: u8) -> Option<Prefix> {
    if len <= addr.width() {
        Some(Prefix { addr: masked(addr, len), len })
    } else {
        None
    }
}

impl Prefix {
    /// The length fits the family and the host bits are zero.
    pub open spec fn wf(self) -> bool {
        self.len <= self.addr.width() && masked(self.addr, self.len) == self.addr
    }

    /// How many octets the first `len` bits take, at most those of the family.
    pub open spec fn octet_count(self) -> int {
        let n = (self.len + 7) / 8;
        if n <= self.addr.bytes().len() {
            n
        } else {
            self.addr.bytes().len() as int
        }
    }

    /// The octets that hold the first `len` bits.
    pub open spec fn net_octets(self) -> Seq<u8> {
        self.addr.bytes().subrange(0, self.octet_count())
    }

    /// Whether the address belongs to the prefix.
    pub open spec fn covers(self, a: IpAddr) -> bool {
        (self.addr is V4) == (a is V4) && masked(a, self.len) == self.addr
    }

    /// The prefix of length `len` that holds `addr`; an error where the length
    /// exceeds the family's.
    pub fn new(addr: IpAddr, len: u8) -> (r: Result<Prefix, PrefixError>)
        ensures
            r == match prefix_of(addr, len) {
                Some(p) => Ok::<Prefix, PrefixError>(p),
                None => Err(PrefixError::LengthTooLong),
            },
            r matches Ok(p) ==> p.wf(),
    {
        match Prefix::checked(addr, len) {
            Some(p) => Ok(p),
            None => Err(PrefixError::LengthTooLong),
        }
    }

    /// The prefix of length `len` that holds `addr`, where the family is wide enough.
    pub fn checked(addr: IpAddr, len: u8) -> (r: Option<Prefix>)
        ensures
            r == prefix_of(addr, len),
            r matches Some(p) ==> p.wf(),
    {
        let width: u8 = if addr.is_ipv4() {
            32
        } else {
            128
        };
        if len > width {
            return None;
        }
        proof {
            lemma_prefix_of_wf(addr, len);
        }
        Some(Prefix { addr: mask(addr, len), len })
    }

    /// The network address.
    pub fn addr(&self) -> (r: IpAddr)
        ensures
            r == self.addr,
    {
        self.addr
    }

    /// The prefix length in bits.
    pub fn len(&self) -> (r: u8)
        ensures
            r == self.len,
    {
        self.len
    }

    pub fn is_ipv4(&self) -> (r: bool)
        ensures
            r == (self.addr is V4),
    {
        self.addr.is_ipv4()
    }

    /// Whether the address belongs to the prefix.
    pub fn contains(&self, a: IpAddr) -> (r: bool)
        ensures
            r == self.covers(a),
    {
        self.addr.is_ipv4() == a.is_ipv4() && mask(a, self.len).same(&self.addr)
    }

    /// Append the octets that hold the first `len` bits.
    pub fn push_net_octets(&self, out: &mut Vec<u8>)
        ensures
            final(out)@ == old(out)@ + self.net_octets(),
    {
        let n: usize = (self.len as usize + 7) / 8;
        match &self.addr {
            IpAddr::V4(a) => {
                let k: usize = if n < 4 {
                    n
                } else {
                    4
                };
                wire::push_all(out, &a.octets.as_slice()[0..k]);
            },
            IpAddr::V6(a) => {
                let k: usize = if n < 16 {
                    n
                } else {
                    16
                };
                wire::push_all(out, &a.octets.as_slice()[0..k]);
            },
        }
    }
}

/// Clearing the host bits twice is clearing them once.
pub proof fn lemma_kept_idempotent(o: u8, len: u8, i: int)
    ensures
        kept(kept(o, len, i), len, i) == kept(o, len, i),
        kept(0, len, i) == 0,
        len - 8 * i >= 8 ==> kept(o, len, i) == o,
{
    let b = len - 8 * i;
    let s = span(b);
    if b > 0 {
        if b == 1 {
            assert(s == 128);
        } else if b == 2 {
            assert(s == 64);
        } else if b == 3 {
            assert(s == 32);
        } else if b == 4 {
            assert(s == 16);
        } else if b == 5 {
            assert(s == 8);
        } else if b == 6 {
            assert(s == 4);
        } else if b == 7 {
            assert(s == 2);
        } else {
            assert(s == 1);
        }
    }
}

/// What `prefix_of` makes is a well-formed prefix that covers the address it was made
/// of.
pub proof fn lemma_prefix_of_wf(addr: IpAddr, len: u8)
    requires
        len <= addr.width(),
    ensures
        (Prefix { addr: masked(addr, len), len }).wf(),
        (Prefix { addr: masked(addr, len), len }).covers(addr),
{
    let m = masked(addr, len);
    let mm = masked(m, len);
    match addr {
        IpAddr::V4(a) => {
            assert forall|i: int| 0 <= i < 4 implies mm->V4_0.octets@[i] == m->V4_0.octets@[i] by {
                lemma_kept_idempotent(a.octets@[i], len, i);
            }
            assert(mm->V4_0.octets =~= m->V4_0.octets);
        },
        IpAddr::V6(a) => {
            assert forall|i: int| 0 <= i < 16 implies mm->V6_0.octets@[i] == m->V6_0.octets@[i] by {
                lemma_kept_idempotent(a.octets@[i], len, i);
            }
            assert(mm->V6_0.octets =~= m->V6_0.octets);
        },
    }
}

/// The octets as numbers.
pub open spec fn numbers(s: Seq<u8>) -> Seq<u64> {
    s.map_values(|b: u8| b as u64)
}

pub fn push_numbers(out: &mut Vec<u64>, s: &[u8])
    ensures
        final(out)@ == old(out)@ + numbers(s@),
{
    let mut i: usize = 0;
    while i < s.len()
        invariant
            i <= s.len(),
            out@ == old(out)@ + numbers(s@.take(i as int)),
        decreases s.len() - i,
    {
        out.push(s[i] as u64);
        assert(numbers(s@.take(i + 1)) =~= numbers(s@.take(i as int)).push(s@[i as int] as u64));
        i = i + 1;
    }
    assert(s@.take(i as int) =~= s@);
}

/// Octets are told by their numbers.
pub proof fn lemma_numbers_injective(a: Seq<u8>, b: Seq<u8>)
    requires
        numbers(a) == numbers(b),
    ensures
        a == b,
{
    assert(a.len() == numbers(a).len());
    assert(b.len() == numbers(b).len());
    assert forall|i: int| 0 <= i < a.len() implies a[i] == b[i] by {
        assert(numbers(a)[i] == a[i] as u64);
        assert(numbers(b)[i] == b[i] as u64);
    }
    assert(a =~= b);
}

impl View for Ipv4Addr {
    type V = Ipv4Addr;

    open spec fn view(&self) -> Ipv4Addr {
        *self
    }
}

impl Datum for Ipv4Addr {
    fn dup(&self) -> (r: Ipv4Addr) {
        *self
    }

    fn same(&self, other: &Ipv4Addr) -> (r: bool) {
        let r = wire::same_bytes(self.octets.as_slice(), other.octets.as_slice());
        assert(r ==> self.octets =~= other.octets);
        r
    }
}

impl View for IpAddr {
    type V = IpAddr;

    open spec fn view(&self) -> IpAddr {
        *self
    }
}

impl Datum for IpAddr {
    fn dup(&self) -> (r: IpAddr) {
        *self
    }

    fn same(&self, other: &IpAddr) -> (r: bool) {
        match (self, other) {
            (IpAddr::V4(a), IpAddr::V4(b)) => a.same(b),
            (IpAddr::V6(a), IpAddr::V6(b)) => a.same(b),
            _ => false,
        }
    }
}

impl Ranked for IpAddr {
    /// IPv4 before IPv6, then by octets.
    open spec fn rank(key: IpAddr) -> Seq<u64> {
        seq![if key is V4 {
            4u64
        } else {
            6u64
        }] + numbers(key.bytes())
    }

    fn rank_of(&self) -> (r: Vec<u64>) {
        let mut out: Vec<u64> = Vec::new();
        match self {
            IpAddr::V4(a) => {
                out.push(4);
                push_numbers(&mut out, a.octets.as_slice());
            },
            IpAddr::V6(a) => {
                out.push(6);
                push_numbers(&mut out, a.octets.as_slice());
            },
        }
        assert(out@ =~= IpAddr::rank(*self));
        out
    }
}

impl View for Prefix {
    type V = Prefix;

    open spec fn view(&self) -> Prefix {
        *self
    }
}

impl Datum for Prefix {
    fn dup(&self) -> (r: Prefix) {
        *self
    }

    fn same(&self, other: &Prefix) -> (r: bool) {
        self.len == other.len && self.addr.same(&other.addr)
    }
}

impl Ranked for Prefix {
    /// By address, then by length.
    open spec fn rank(key: Prefix) -> Seq<u64> {
        IpAddr::rank(key.addr).push(key.len as u64)
    }

    fn rank_of(&self) -> (r: Vec<u64>) {
        let mut out = self.addr.rank_of();
        out.push(self.len as u64);
        out
    }
}

/// The rank of an address is not the front of another address's rank.
pub proof fn lemma_addr_rank(a: IpAddr, x: Seq<u64>, b: IpAddr, y: Seq<u64>)
    requires
        IpAddr::rank(a) + x == IpAddr::rank(b) + y,
    ensures
        a == b,
        x == y,
{
    let s = IpAddr::rank(a) + x;
    let t = IpAddr::rank(b) + y;
    assert(s[0] == IpAddr::rank(a)[0]);
    assert(t[0] == IpAddr::rank(b)[0]);
    assert((a is V4) == (b is V4));
    let n = IpAddr::rank(a).len() as int;
    assert(n == IpAddr::rank(b).len());
    assert(s.take(n) =~= IpAddr::rank(a));
    assert(t.take(n) =~= IpAddr::rank(b));
    assert(s.skip(n) =~= x);
    assert(t.skip(n) =~= y);
    assert(IpAddr::rank(a).skip(1) =~= numbers(a.bytes()));
    assert(IpAddr::rank(b).skip(1) =~= numbers(b.bytes()));
    lemma_numbers_injective(a.bytes(), b.bytes());
    match (a, b) {
        (IpAddr::V4(p), IpAddr::V4(q)) => {
            assert(p.octets =~= q.octets);
        },
        (IpAddr::V6(p), IpAddr::V6(q)) => {
            assert(p.octets =~= q.octets);
        },
        _ => {},
    }
}

/// The rank of a prefix is not the front of another prefix's rank.
pub proof fn lemma_prefix_rank(a: Prefix, x: Seq<u64>, b: Prefix, y: Seq<u64>)
    requires
        Prefix::rank(a) + x == Prefix::rank(b) + y,
    ensures
        a == b,
        x == y,
{
    let u = seq![a.len as u64] + x;
    let v = seq![b.len as u64] + y;
    assert(Prefix::rank(a) + x =~= IpAddr::rank(a.addr) + u);
    assert(Prefix::rank(b) + y =~= IpAddr::rank(b.addr) + v);
    lemma_addr_rank(a.addr, u, b.addr, v);
    assert(u[0] == v[0]);
    assert(u.skip(1) =~= x);
    assert(v.skip(1) =~= y);
}

/// Prefixes of one rank are one prefix, and so are addresses.
pub proof fn lemma_net_ranks(a: Prefix, b: Prefix, p: IpAddr, q: IpAddr)
    ensures
        Prefix::rank(a) == Prefix::rank(b) ==> a == b,
        IpAddr::rank(p) == IpAddr::rank(q) ==> p == q,
{
    let e = Seq::<u64>::empty();
    if Prefix::rank(a) == Prefix::rank(b) {
        assert(Prefix::rank(a) + e =~= Prefix::rank(b) + e);
        lemma_prefix_rank(a, e, b, e);
    }
    if IpAddr::rank(p) == IpAddr::rank(q) {
        assert(IpAddr::rank(p) + e =~= IpAddr::rank(q) + e);
        lemma_addr_rank(p, e, q, e);
    }
}

/// The weight of a bit in its octet, the first being the highest.
pub open spec fn weight(j: int) -> u8 {
    if j == 0 {
        128
    } else if j == 1 {
        64
    } else if j == 2 {
        32
    } else if j == 3 {
        16
    } else if j == 4 {
        8
    } else if j == 5 {
        4
    } else if j == 6 {
        2
    } else {
        1
    }
}

/// Bit `j` of a string of octets, counted from the front.
pub open spec fn bit_at(s: Seq<u8>, j: int) -> bool {
    s[j / 8] / weight(j % 8) % 2 == 1
}

proof fn lemma_kept_bit(o: u8, len: u8, i: int, k: int)
    requires
        0 <= i,
        0 <= k < 8,
    ensures
        kept(o, len, i) / weight(k) % 2 == (if 8 * i + k < len {
            o / weight(k) % 2
        } else {
            0
        }),
{
    let b = len - 8 * i;
    if b > 0 {
        lemma_cut_bit(o, if b < 8 {
            b
        } else {
            8
        }, k);
    }
}

proof fn lemma_cut_bit(o: u8, b: int, k: int)
    requires
        1 <= b <= 8,
        0 <= k < 8,
    ensures
        ((o - o % span(b)) as u8) / weight(k) % 2 == (if k < b {
            o / weight(k) % 2
        } else {
            0
        }),
{
    lemma_cut_weight(o, span(b), weight(k));
}

proof fn lemma_cut_weight(o: u8, s: u8, w: u8)
    by (bit_vector)
    requires
        s == 1 || s == 2 || s == 4 || s == 8 || s == 16 || s == 32 || s == 64 || s == 128,
        w == 1 || w == 2 || w == 4 || w == 8 || w == 16 || w == 32 || w == 64 || w == 128,
    ensures
        ((o - o % s) as u8) / w % 2 == (if w >= s {
            o / w % 2
        } else {
            0
        }),
{
}

proof fn lemma_same_octet(a: u8, b: u8)
    requires
        forall|k: int| 0 <= k < 8 ==> #[trigger] (a / weight(k)) % 2 == (b / weight(k)) % 2,
    ensures
        a == b,
{
    assert((a / weight(0)) % 2 == (b / weight(0)) % 2);
    assert((a / weight(1)) % 2 == (b / weight(1)) % 2);
    assert((a / weight(2)) % 2 == (b / weight(2)) % 2);
    assert((a / weight(3)) % 2 == (b / weight(3)) % 2);
    assert((a / weight(4)) % 2 == (b / weight(4)) % 2);
    assert((a / weight(5)) % 2 == (b / weight(5)) % 2);
    assert((a / weight(6)) % 2 == (b / weight(6)) % 2);
    assert((a / weight(7)) % 2 == (b / weight(7)) % 2);
    assert(a == b) by (bit_vector)
        requires
            a / 128 % 2 == b / 128 % 2,
            a / 64 % 2 == b / 64 % 2,
            a / 32 % 2 == b / 32 % 2,
            a / 16 % 2 == b / 16 % 2,
            a / 8 % 2 == b / 8 % 2,
            a / 4 % 2 == b / 4 % 2,
            a / 2 % 2 == b / 2 % 2,
            a / 1 % 2 == b / 1 % 2,
    ;
}

/// Masking keeps the family and the first `len` bits and clears all others.
pub proof fn lemma_masking(a: IpAddr, len: u8, j: int)
    requires
        0 <= j < a.width(),
    ensures
        (masked(a, len) is V4) == (a is V4),
        bit_at(masked(a, len).bytes(), j) == (j < len && bit_at(a.bytes(), j)),
{
    lemma_kept_bit(a.bytes()[j / 8], len, j / 8, j % 8);
    assert(masked(a, len).bytes()[j / 8] == kept(a.bytes()[j / 8], len, j / 8));
    assert(j == 8 * (j / 8) + j % 8);
}

/// An address belongs to a prefix exactly where the two are of one family and agree in the
/// first `len` bits.
pub proof fn lemma_covers_by_bits(p: Prefix, a: IpAddr)
    requires
        p.wf(),
    ensures
        p.covers(a) <==> (p.addr is V4) == (a is V4) && forall|j: int|
            0 <= j < p.len ==> #[trigger] bit_at(p.addr.bytes(), j) == bit_at(a.bytes(), j),
{
    if p.covers(a) {
        assert forall|j: int| 0 <= j < p.len implies #[trigger] bit_at(p.addr.bytes(), j) == bit_at(
            a.bytes(),
            j,
        ) by {
            lemma_masking(a, p.len, j);
        }
    }
    if (p.addr is V4) == (a is V4) && forall|j: int|
        0 <= j < p.len ==> #[trigger] bit_at(p.addr.bytes(), j) == bit_at(a.bytes(), j) {
        let m = masked(a, p.len);
        assert forall|i: int| 0 <= i < m.bytes().len() implies m.bytes()[i] == p.addr.bytes()[i] by {
            let (x, y) = (m.bytes()[i], p.addr.bytes()[i]);
            assert forall|k: int| 0 <= k < 8 implies #[trigger] (x / weight(k)) % 2 == (y / weight(
                k,
            )) % 2 by {
                let j = 8 * i + k;
                assert(j / 8 == i && j % 8 == k);
                lemma_masking(a, p.len, j);
                lemma_masking(p.addr, p.len, j);
                assert(bit_at(m.bytes(), j) == bit_at(p.addr.bytes(), j));
                assert(bit_at(m.bytes(), j) == ((x / weight(k)) % 2 == 1));
                assert(bit_at(p.addr.bytes(), j) == ((y / weight(k)) % 2 == 1));
            }
            lemma_same_octet(x, y);
        }
        assert(m.bytes() =~= p.addr.bytes());
        match (m, p.addr) {
            (IpAddr::V4(x), IpAddr::V4(y)) => {
                assert(x.octets =~= y.octets);
            },
            (IpAddr::V6(x), IpAddr::V6(y)) => {
                assert(x.octets =~= y.octets);
            },
            _ => {},
        }
    }
}

/// A prefix of a length is there exactly where the family has as many bits, and is that of
/// the address in its first `len` bits; its octets are as many as hold them.
pub proof fn lemma_prefix_of(addr: IpAddr, len: u8, j: int)
    requires
        0 <= j < len,
    ensures
        prefix_of(addr, len) is Some <==> (addr is V4 && len <= 32) || (addr is V6 && len <= 128),
        prefix_of(addr, len) matches Some(p) ==> p.len == len && (p.addr is V4) == (addr is V4)
            && bit_at(p.addr.bytes(), j) == bit_at(addr.bytes(), j) && 8 * p.net_octets().len()
            >= len && 8 * p.net_octets().len() < len + 8,
{
    if len <= addr.width() {
        lemma_masking(addr, len, j);
    }
}

/// Addresses stand in the order of their octets, IPv4 before IPv6.
pub proof fn lemma_address_order(a: IpAddr, b: IpAddr, k: int)
    requires
        (a is V4) == (b is V4) ==> 0 <= k < a.bytes().len() && a.bytes()[k] < b.bytes()[k]
            && forall|i: int| 0 <= i < k ==> a.bytes()[i] == b.bytes()[i],
        (a is V4) != (b is V4) ==> a is V4,
    ensures
        crate::order::before(IpAddr::rank(a), IpAddr::rank(b)),
{
    let (x, y) = (IpAddr::rank(a), IpAddr::rank(b));
    if (a is V4) == (b is V4) {
        let front = x.take(k + 1);
        assert(y.take(k + 1) =~= front) by {
            assert forall|i: int| 0 <= i < k + 1 implies x[i] == y[i] by {
                if i > 0 {
                    assert(a.bytes()[i - 1] == b.bytes()[i - 1]);
                }
            }
        }
        assert(x =~= front + x.skip(k + 1));
        assert(y =~= front + y.skip(k + 1));
        assert(x.skip(k + 1)[0] == a.bytes()[k]);
        assert(y.skip(k + 1)[0] == b.bytes()[k]);
        crate::order::lemma_before_common_front(front, x.skip(k + 1), y.skip(k + 1));
    }
}

/// Link-local IPv6 addresses are those whose first ten bits are 1111111010.
pub proof fn lemma_link_local(a: Ipv6Addr)
    ensures
        a.link_local() <==> a.octets@[0] == 254 && 128 <= a.octets@[1] <= 191,
{
}

/// Prefixes stand in the order of their addresses, and those of one address in that of their
/// lengths.
pub proof fn lemma_prefix_order(a: Prefix, b: Prefix, k: int)
    ensures
        a.addr is V4 && b.addr is V6 ==> crate::order::before(Prefix::rank(a), Prefix::rank(b)),
        (a.addr is V4) == (b.addr is V4) && 0 <= k < a.addr.bytes().len() && a.addr.bytes()[k]
            < b.addr.bytes()[k] && (forall|i: int|
            0 <= i < k ==> a.addr.bytes()[i] == b.addr.bytes()[i]) ==> crate::order::before(
            Prefix::rank(a),
            Prefix::rank(b),
        ),
        a.addr == b.addr && a.len < b.len ==> crate::order::before(Prefix::rank(a), Prefix::rank(b)),
{
    let (x, y) = (Prefix::rank(a), Prefix::rank(b));
    if a.addr is V4 && b.addr is V6 {
        crate::order::lemma_first_difference_decides(x, y, 0);
    } else if a.addr == b.addr && a.len < b.len {
        crate::order::lemma_first_difference_decides(x, y, a.addr.bytes().len() + 1int);
    } else if (a.addr is V4) == (b.addr is V4) && 0 <= k < a.addr.bytes().len() && a.addr.bytes()[k]
        < b.addr.bytes()[k] && (forall|i: int|
        0 <= i < k ==> a.addr.bytes()[i] == b.addr.bytes()[i]) {
        assert forall|i: int| 0 <= i < k + 1 implies x[i] == y[i] by {
            if i > 0 {
                assert(a.addr.bytes()[i - 1] == b.addr.bytes()[i - 1]);
            }
        }
        crate::order::lemma_first_difference_decides(x, y, k + 1);
    }
}

} // verus!
