//! A total order on keys, given by ranks: finite sequences of numbers compared from
//! the front, a proper prefix before what it begins.

use vstd::prelude::*;

use crate::wire;

verus! {

/// Whether `a` stands before `b`.
pub open spec fn before(a: Seq<u64>, b: Seq<u64>) -> bool
    decreases a.len(),
{
    if b.len() == 0 {
        false
    } else if a.len() == 0 {
        true
    } else {
        a[0] < b[0] || (a[0] == b[0] && before(a.drop_first(), b.drop_first()))
    }
}

/// Nothing stands before itself.
pub proof fn lemma_before_irreflexive(a: Seq<u64>)
    ensures
        !before(a, a),
    decreases a.len(),
{
    if a.len() > 0 {
        lemma_before_irreflexive(a.drop_first());
    }
}

/// The order is transitive.
pub proof fn lemma_before_transitive(a: Seq<u64>, b: Seq<u64>, c: Seq<u64>)
    requires
        before(a, b),
        before(b, c),
    ensures
        before(a, c),
    decreases a.len(),
{
    if a.len() > 0 && b.len() > 0 && c.len() > 0 && a[0] == b[0] && b[0] == c[0] {
        lemma_before_transitive(a.drop_first(), b.drop_first(), c.drop_first());
    }
}

/// Any two ranks are equal or one stands before the other.
pub proof fn lemma_before_total(a: Seq<u64>, b: Seq<u64>)
    ensures
        a == b || before(a, b) || before(b, a),
    decreases a.len(),
{
    if a.len() == 0 && b.len() == 0 {
        assert(a =~= b);
    } else if a.len() > 0 && b.len() > 0 {
        lemma_before_total(a.drop_first(), b.drop_first());
        if a[0] == b[0] && a.drop_first() == b.drop_first() {
            assert(a =~= seq![a[0]] + a.drop_first());
            assert(b =~= seq![b[0]] + b.drop_first());
        }
    }
}

/// A common front does not matter.
pub proof fn lemma_before_common_front(front: Seq<u64>, a: Seq<u64>, b: Seq<u64>)
    ensures
        before(front + a, front + b) == before(a, b),
    decreases front.len(),
{
    if front.len() == 0 {
        assert(front + a =~= a);
        assert(front + b =~= b);
    } else {
        lemma_before_common_front(front.drop_first(), a, b);
        assert((front + a).drop_first() =~= front.drop_first() + a);
        assert((front + b).drop_first() =~= front.drop_first() + b);
    }
}

/// What is behind ranks of one length does not matter where they differ.
pub proof fn lemma_before_same_len(a: Seq<u64>, b: Seq<u64>, x: Seq<u64>, y: Seq<u64>)
    requires
        a.len() == b.len(),
        before(a, b),
    ensures
        before(a + x, b + y),
    decreases a.len(),
{
    assert((a + x)[0] == a[0] && (b + y)[0] == b[0]);
    if a[0] == b[0] {
        lemma_before_same_len(a.drop_first(), b.drop_first(), x, y);
        assert((a + x).drop_first() =~= a.drop_first() + x);
        assert((b + y).drop_first() =~= b.drop_first() + y);
    }
}

/// How two ranks stand to each other.
#[derive(Clone, Copy, PartialEq, Eq, Structural, Debug)]
pub enum Place {
    Before,
    Equal,
    After,
}

/// Compare two ranks.
pub fn place(a: &Vec<u64>, b: &Vec<u64>) -> (r: Place)
    ensures
        match r {
            Place::Before => before(a@, b@),
            Place::Equal => a@ == b@,
            Place::After => before(b@, a@),
        },
{
    let mut i: usize = 0;
    while i < a.len() && i < b.len()
        invariant
            i <= a.len(),
            i <= b.len(),
            forall|j: int| 0 <= j < i ==> a@[j] == b@[j],
        decreases a.len() - i,
    {
        if a[i] != b[i] {
            proof {
                lemma_tails(a@, b@, i as int);
            }
            if a[i] < b[i] {
                return Place::Before;
            } else {
                return Place::After;
            }
        }
        i = i + 1;
    }
    proof {
        lemma_tails(a@, b@, i as int);
    }
    if i < b.len() {
        Place::Before
    } else if i < a.len() {
        Place::After
    } else {
        assert(a@ =~= b@);
        Place::Equal
    }
}

proof fn lemma_tails(a: Seq<u64>, b: Seq<u64>, i: int)
    requires
        0 <= i <= a.len(),
        i <= b.len(),
        forall|j: int| 0 <= j < i ==> a[j] == b[j],
    ensures
        before(a, b) == before(a.skip(i), b.skip(i)),
        before(b, a) == before(b.skip(i), a.skip(i)),
{
    let front = a.take(i);
    assert(a =~= front + a.skip(i));
    assert(b =~= front + b.skip(i));
    lemma_before_common_front(front, a.skip(i), b.skip(i));
    lemma_before_common_front(front, b.skip(i), a.skip(i));
}

/// A value that can be copied and compared through its view.
pub trait Datum: View + Sized {
    /// A copy.
    fn dup(&self) -> (r: Self)
        ensures
            r@ == self@,
    ;

    /// Whether the two values have the same view.
    fn same(&self, other: &Self) -> (r: bool)
        ensures
            r == (self@ == other@),
    ;
}

/// A copy of every value.
pub fn dup_all<T: Datum>(all: &[T]) -> (r: Vec<T>)
    ensures
        wire::views(r@) == wire::views(all@),
{
    let mut out: Vec<T> = Vec::new();
    let mut i: usize = 0;
    while i < all.len()
        invariant
            i <= all.len(),
            out@.len() == i,
            forall|j: int| 0 <= j < i ==> (#[trigger] out@[j])@ == all@[j]@,
        decreases all.len() - i,
    {
        out.push(all[i].dup());
        i = i + 1;
    }
    assert(wire::views(out@) =~= wire::views(all@));
    out
}

/// Whether the values have the same views, one by one.
pub fn same_all<T: Datum>(a: &[T], b: &[T]) -> (r: bool)
    ensures
        r == (wire::views(a@) == wire::views(b@)),
{
    let ghost (x, y) = (wire::views(a@), wire::views(b@));
    assert(x.len() == a@.len() && y.len() == b@.len());
    if a.len() != b.len() {
        return false;
    }
    let mut i: usize = 0;
    while i < a.len()
        invariant
            i <= a.len(),
            a@.len() == b@.len(),
            x == wire::views(a@),
            y == wire::views(b@),
            forall|j: int| 0 <= j < i ==> #[trigger] x[j] == y[j],
        decreases a.len() - i,
    {
        if !a[i].same(&b[i]) {
            assert(x[i as int] != y[i as int]);
            return false;
        }
        i = i + 1;
    }
    assert(x =~= y);
    true
}

impl Datum for u32 {
    fn dup(&self) -> (r: u32) {
        *self
    }

    fn same(&self, other: &u32) -> (r: bool) {
        *self == *other
    }
}

impl Datum for (u32, u32, u32) {
    fn dup(&self) -> (r: (u32, u32, u32)) {
        *self
    }

    fn same(&self, other: &(u32, u32, u32)) -> (r: bool) {
        self.0 == other.0 && self.1 == other.1 && self.2 == other.2
    }
}

impl Datum for [u8; 8] {
    fn dup(&self) -> (r: [u8; 8]) {
        *self
    }

    fn same(&self, other: &[u8; 8]) -> (r: bool) {
        wire::same_bytes(self.as_slice(), other.as_slice())
    }
}

/// A key with a rank. Keys of one rank are one key.
pub trait Ranked: Datum {
    /// The rank of a key.
    spec fn rank(key: Self::V) -> Seq<u64>;

    /// The rank of this key.
    fn rank_of(&self) -> (r: Vec<u64>)
        ensures
            r@ == Self::rank(self@),
    ;
}

/// The first place where two keys differ decides, and of two of which one is the front of the
/// other the shorter stands before.
pub proof fn lemma_first_difference_decides(a: Seq<u64>, b: Seq<u64>, k: int)
    requires
        0 <= k <= a.len(),
        k < b.len(),
        forall|i: int| 0 <= i < k ==> a[i] == b[i],
        k == a.len() || a[k] < b[k],
    ensures
        before(a, b),
        !before(b, a),
    decreases k,
{
    if k > 0 {
        let (x, y) = (a.drop_first(), b.drop_first());
        assert(a[0] == b[0]);
        assert forall|i: int| 0 <= i < k - 1 implies x[i] == y[i] by {
            assert(a[i + 1] == b[i + 1]);
        }
        lemma_first_difference_decides(x, y, k - 1);
    }
}

} // verus!
