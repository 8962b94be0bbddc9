//! Validation of route origins (RFC 6811) against validated ROA payloads.
//!
//! A ROA covers a route whose prefix lies within its own. It matches where it covers, the
//! route is not more specific than it allows, and the AS is the one it names. A route that
//! some ROA matches is valid; one that is only covered is invalid; the others are unknown.

use vstd::prelude::*;

use crate::net::Prefix;

verus! {

/// The leave of an AS to originate a prefix and what lies in it, up to a length.
#[derive(Clone, Copy, PartialEq, Eq, Debug)]
pub struct Roa {
    pub prefix: Prefix,
    /// The longest prefix that may be announced.
    pub max_length: u8,
    /// The AS; zero gives leave to none.
    pub origin_as: u32,
}

impl Roa {
    /// Whether the ROA covers a prefix: same family, no more specific, and containing it.
    pub open spec fn covers(self, p: Prefix) -> bool {
        (self.prefix.addr is V4) == (p.addr is V4) && self.prefix.len <= p.len
            && self.prefix.covers(p.addr)
    }

    /// Whether the ROA matches a route.
    pub open spec fn matches_route(self, p: Prefix, origin_as: u32) -> bool {
        self.covers(p) && p.len <= self.max_length && self.origin_as == origin_as
    }
}

/// What validation says of a route.
#[derive(Clone, Copy, PartialEq, Eq, Structural, Debug)]
pub enum Validity {
    Valid,
    Invalid,
    NotFound,
}

impl Validity {
    /// The label.
    pub open spec fn label(self) -> Seq<char> {
        match self {
            Validity::Valid => "valid"@,
            Validity::Invalid => "invalid"@,
            Validity::NotFound => "notfound"@,
        }
    }

    /// The label.
    pub fn as_str(self) -> (r: &'static str)
        ensures
            r@ == self.label(),
    {
        match self {
            Validity::Valid => "valid",
            Validity::Invalid => "invalid",
            Validity::NotFound => "notfound",
        }
    }
}

/// Whether some ROA matches a route.
pub open spec fn some_match(roas: Seq<Roa>, p: Prefix, origin_as: u32) -> bool {
    exists|i: int| 0 <= i < roas.len() && (#[trigger] roas[i]).matches_route(p, origin_as)
}

/// Whether some ROA covers a prefix.
pub open spec fn some_cover(roas: Seq<Roa>, p: Prefix) -> bool {
    exists|i: int| 0 <= i < roas.len() && (#[trigger] roas[i]).covers(p)
}

/// What validation says of a route.
pub open spec fn validity(roas: Seq<Roa>, p: Prefix, origin_as: u32) -> Validity {
    if some_match(roas, p, origin_as) {
        Validity::Valid
    } else if some_cover(roas, p) {
        Validity::Invalid
    } else {
        Validity::NotFound
    }
}

/// The ROAs that routes are validated against.
#[derive(Clone)]
pub struct RoaTable {
    roas: Vec<Roa>,
}

impl View for RoaTable {
    type V = Seq<Roa>;

    closed spec fn view(&self) -> Seq<Roa> {
        self.roas@
    }
}

impl Default for RoaTable {
    fn default() -> (r: RoaTable)
        ensures
            r@ == Seq::<Roa>::empty(),
    {
        RoaTable { roas: Vec::new() }
    }
}

impl RoaTable {
    /// A table of ROAs.
    pub fn new(roas: Vec<Roa>) -> (r: RoaTable)
        ensures
            r@ == roas@,
    {
        RoaTable { roas }
    }

    /// Whether there are none.
    pub fn is_empty(&self) -> (r: bool)
        ensures
            r == (self@.len() == 0),
    {
        self.roas.len() == 0
    }

    /// How many there are.
    pub fn len(&self) -> (r: usize)
        ensures
            r == self@.len(),
    {
        self.roas.len()
    }

    /// All of them, in order.
    pub fn iter(&self) -> (r: &[Roa])
        ensures
            r@ == self@,
    {
        self.roas.as_slice()
    }

    /// Validate a route.
    pub fn validate(&self, prefix: &Prefix, origin_as: u32) -> (r: Validity)
        ensures
            r == validity(self@, *prefix, origin_as),
    {
        let mut covered = false;
        let mut i: usize = 0;
        while i < self.roas.len()
            invariant
                i <= self.roas.len(),
                covered == (exists|j: int| 0 <= j < i && (#[trigger] self@[j]).covers(*prefix)),
                forall|j: int|
                    0 <= j < i ==> !(#[trigger] self@[j]).matches_route(*prefix, origin_as),
            decreases self.roas.len() - i,
        {
            let roa = self.roas[i];
            assert(self@[i as int] == roa);
            if roa.prefix.is_ipv4() == prefix.is_ipv4() && roa.prefix.len <= prefix.len
                && roa.prefix.contains(prefix.addr) {
                covered = true;
                assert(self@[i as int].covers(*prefix));
                if prefix.len <= roa.max_length && roa.origin_as == origin_as {
                    assert(self@[i as int].matches_route(*prefix, origin_as));
                    return Validity::Valid;
                }
            }
            i = i + 1;
        }
        if covered {
            Validity::Invalid
        } else {
            Validity::NotFound
        }
    }
}

/// More ROAs never make a valid route anything else, and never make a covered route
/// unknown.
pub proof fn lemma_more_roas(roas: Seq<Roa>, more: Seq<Roa>, p: Prefix, origin_as: u32)
    ensures
        validity(roas, p, origin_as) is Valid ==> validity(roas + more, p, origin_as) is Valid,
        validity(roas, p, origin_as) is Invalid ==> !(validity(
            roas + more,
            p,
            origin_as,
        ) is NotFound),
{
    let all = roas + more;
    if some_match(roas, p, origin_as) {
        let i = choose|i: int|
            0 <= i < roas.len() && (#[trigger] roas[i]).matches_route(p, origin_as);
        assert(all[i].matches_route(p, origin_as));
    }
    if some_cover(roas, p) {
        let i = choose|i: int| 0 <= i < roas.len() && (#[trigger] roas[i]).covers(p);
        assert(all[i].covers(p));
    }
}

/// Whether a route is covered does not depend on its AS, and one that no ROA covers is
/// unknown whatever its AS.
pub proof fn lemma_cover_decides(roas: Seq<Roa>, p: Prefix, a: u32, b: u32)
    ensures
        (validity(roas, p, a) is NotFound) == !some_cover(roas, p),
        (validity(roas, p, a) is NotFound) == (validity(roas, p, b) is NotFound),
{
    if some_match(roas, p, a) {
        let i = choose|i: int| 0 <= i < roas.len() && (#[trigger] roas[i]).matches_route(p, a);
        assert(roas[i].covers(p));
    }
    if some_match(roas, p, b) {
        let i = choose|i: int| 0 <= i < roas.len() && (#[trigger] roas[i]).matches_route(p, b);
        assert(roas[i].covers(p));
    }
}

/// ROAs of AS zero alone make no route of any other AS valid.
pub proof fn lemma_as_zero_gives_no_leave(roas: Seq<Roa>, p: Prefix, origin_as: u32)
    requires
        origin_as != 0,
        forall|i: int| 0 <= i < roas.len() ==> (#[trigger] roas[i]).origin_as == 0,
    ensures
        !(validity(roas, p, origin_as) is Valid),
{
}

/// A route is valid exactly where a ROA of its family holds its address in a prefix that is
/// no longer than the route's, allows a length of at least the route's, and names the AS.
pub proof fn lemma_valid_exactly(roas: Seq<Roa>, p: Prefix, origin_as: u32)
    ensures
        validity(roas, p, origin_as) is Valid <==> exists|i: int|
            0 <= i < roas.len() && (#[trigger] roas[i]).prefix.covers(p.addr) && roas[i].prefix.len
                <= p.len <= roas[i].max_length && roas[i].origin_as == origin_as,
{
    if validity(roas, p, origin_as) is Valid {
        let i = choose|i: int|
            0 <= i < roas.len() && (#[trigger] roas[i]).matches_route(p, origin_as);
        assert(roas[i].prefix.covers(p.addr) && roas[i].prefix.len <= p.len
            <= roas[i].max_length);
    }
    if exists|i: int|
        0 <= i < roas.len() && (#[trigger] roas[i]).prefix.covers(p.addr) && roas[i].prefix.len
            <= p.len <= roas[i].max_length && roas[i].origin_as == origin_as {
        let i = choose|i: int|
            0 <= i < roas.len() && (#[trigger] roas[i]).prefix.covers(p.addr) && roas[i].prefix.len
                <= p.len <= roas[i].max_length && roas[i].origin_as == origin_as;
        assert(roas[i].matches_route(p, origin_as));
    }
}

/// A route is unknown exactly where no ROA of its family holds its address in a prefix that
/// is no longer than the route's, whatever the ROAs allow and name. What is neither valid
/// nor unknown is invalid.
pub proof fn lemma_unknown_exactly(roas: Seq<Roa>, p: Prefix, origin_as: u32)
    ensures
        validity(roas, p, origin_as) is NotFound <==> forall|i: int|
            0 <= i < roas.len() ==> !((#[trigger] roas[i]).prefix.covers(p.addr)
                && roas[i].prefix.len <= p.len),
{
    lemma_cover_decides(roas, p, origin_as, origin_as);
    if some_cover(roas, p) {
        let i = choose|i: int| 0 <= i < roas.len() && (#[trigger] roas[i]).covers(p);
        assert(roas[i].prefix.covers(p.addr) && roas[i].prefix.len <= p.len);
    }
    if !(forall|i: int|
        0 <= i < roas.len() ==> !((#[trigger] roas[i]).prefix.covers(p.addr) && roas[i].prefix.len
            <= p.len)) {
        let i = choose|i: int|
            0 <= i < roas.len() && (#[trigger] roas[i]).prefix.covers(p.addr) && roas[i].prefix.len
                <= p.len;
        assert(roas[i].covers(p));
    }
}

/// The order of the ROAs does not matter.
pub proof fn lemma_order_of_roas(a: Seq<Roa>, b: Seq<Roa>, p: Prefix, origin_as: u32)
    ensures
        validity(a + b, p, origin_as) == validity(b + a, p, origin_as),
{
    lemma_union(a, b, p, origin_as);
    lemma_union(b, a, p, origin_as);
}

proof fn lemma_union(a: Seq<Roa>, b: Seq<Roa>, p: Prefix, origin_as: u32)
    ensures
        some_match(a + b, p, origin_as) == (some_match(a, p, origin_as) || some_match(
            b,
            p,
            origin_as,
        )),
        some_cover(a + b, p) == (some_cover(a, p) || some_cover(b, p)),
{
    let all = a + b;
    assert forall|i: int| 0 <= i < a.len() implies all[i] == #[trigger] a[i] by {}
    assert forall|i: int| 0 <= i < b.len() implies all[i + a.len()] == #[trigger] b[i] by {}
    if some_match(a, p, origin_as) {
        let i = choose|i: int| 0 <= i < a.len() && (#[trigger] a[i]).matches_route(p, origin_as);
        assert(all[i].matches_route(p, origin_as));
    }
    if some_match(b, p, origin_as) {
        let i = choose|i: int| 0 <= i < b.len() && (#[trigger] b[i]).matches_route(p, origin_as);
        assert(all[i + a.len()].matches_route(p, origin_as));
    }
    if some_match(all, p, origin_as) {
        let i = choose|i: int|
            0 <= i < all.len() && (#[trigger] all[i]).matches_route(p, origin_as);
        if i < a.len() {
            assert(a[i].matches_route(p, origin_as));
        } else {
            assert(b[i - a.len()].matches_route(p, origin_as));
        }
    }
    if some_cover(a, p) {
        let i = choose|i: int| 0 <= i < a.len() && (#[trigger] a[i]).covers(p);
        assert(all[i].covers(p));
    }
    if some_cover(b, p) {
        let i = choose|i: int| 0 <= i < b.len() && (#[trigger] b[i]).covers(p);
        assert(all[i + a.len()].covers(p));
    }
    if some_cover(all, p) {
        let i = choose|i: int| 0 <= i < all.len() && (#[trigger] all[i]).covers(p);
        if i < a.len() {
            assert(a[i].covers(p));
        } else {
            assert(b[i - a.len()].covers(p));
        }
    }
}

} // verus!
