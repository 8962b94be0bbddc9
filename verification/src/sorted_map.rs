//! A map held as a vector that is sorted by the rank of its keys.

use vstd::prelude::*;

use crate::order;
use crate::order::{place, Datum, Place, Ranked};
use crate::wire;

verus! {

/// A map from keys to values. Its view is the sequence of its pairs, in key order.
pub struct SortedMap<K: Ranked, T: View> {
    ranks: Vec<Vec<u64>>,
    keys: Vec<K>,
    values: Vec<T>,
}

impl<K: Ranked, T: View> View for SortedMap<K, T> {
    type V = Seq<(K::V, T::V)>;

    closed spec fn view(&self) -> Seq<(K::V, T::V)> {
        Seq::new(self.keys@.len(), |i: int| (self.keys@[i]@, self.values@[i]@))
    }
}

/// Whether the pairs stand in strictly increasing key order.
pub open spec fn sorted<K: Ranked, W>(s: Seq<(K::V, W)>) -> bool {
    forall|i: int, j: int|
        0 <= i < j < s.len() ==> order::before(
            K::rank((#[trigger] s[i]).0),
            K::rank((#[trigger] s[j]).0),
        )
}

/// How many pairs at the front have a rank before `r`.
pub open spec fn slot<K: Ranked, W>(s: Seq<(K::V, W)>, r: Seq<u64>) -> int
    decreases s.len(),
{
    if s.len() > 0 && order::before(K::rank(s[0].0), r) {
        1 + slot::<K, W>(s.drop_first(), r)
    } else {
        0
    }
}

/// Whether a pair with rank `r` is there.
pub open spec fn present<K: Ranked, W>(s: Seq<(K::V, W)>, r: Seq<u64>) -> bool {
    slot::<K, W>(s, r) < s.len() && K::rank(s[slot::<K, W>(s, r)].0) == r
}

/// The value under rank `r`.
pub open spec fn lookup<K: Ranked, W>(s: Seq<(K::V, W)>, r: Seq<u64>) -> Option<W> {
    if present::<K, W>(s, r) {
        Some(s[slot::<K, W>(s, r)].1)
    } else {
        None
    }
}

/// The pairs with `w` under key `k`, in place of what was there under its rank.
pub open spec fn put<K: Ranked, W>(s: Seq<(K::V, W)>, k: K::V, w: W) -> Seq<(K::V, W)> {
    let p = slot::<K, W>(s, K::rank(k));
    if present::<K, W>(s, K::rank(k)) {
        s.update(p, (s[p].0, w))
    } else {
        s.insert(p, (k, w))
    }
}

/// The pairs without the one under rank `r`.
pub open spec fn without<K: Ranked, W>(s: Seq<(K::V, W)>, r: Seq<u64>) -> Seq<(K::V, W)> {
    if present::<K, W>(s, r) {
        s.remove(slot::<K, W>(s, r))
    } else {
        s
    }
}

/// The slot is within the sequence, with exactly the lesser ranks in front of it.
pub proof fn lemma_slot<K: Ranked, W>(s: Seq<(K::V, W)>, r: Seq<u64>)
    requires
        sorted::<K, W>(s),
    ensures
        0 <= slot::<K, W>(s, r) <= s.len(),
        forall|i: int|
            0 <= i < slot::<K, W>(s, r) ==> order::before(K::rank((#[trigger] s[i]).0), r),
        forall|i: int|
            slot::<K, W>(s, r) <= i < s.len() ==> !order::before(K::rank((#[trigger] s[i]).0), r),
    decreases s.len(),
{
    if s.len() > 0 && order::before(K::rank(s[0].0), r) {
        let t = s.drop_first();
        assert(sorted::<K, W>(t)) by {
            assert forall|i: int, j: int| 0 <= i < j < t.len() implies order::before(
                K::rank((#[trigger] t[i]).0),
                K::rank((#[trigger] t[j]).0),
            ) by {
                assert(t[i] == s[i + 1] && t[j] == s[j + 1]);
            }
        }
        lemma_slot::<K, W>(t, r);
        assert forall|i: int| 0 <= i < slot::<K, W>(s, r) implies order::before(
            K::rank((#[trigger] s[i]).0),
            r,
        ) by {
            if i > 0 {
                assert(t[i - 1] == s[i]);
            }
        }
        assert forall|i: int| slot::<K, W>(s, r) <= i < s.len() implies !order::before(
            K::rank((#[trigger] s[i]).0),
            r,
        ) by {
            assert(t[i - 1] == s[i]);
        }
    } else if s.len() > 0 {
        assert forall|i: int| 0 <= i < s.len() implies !order::before(
            K::rank((#[trigger] s[i]).0),
            r,
        ) by {
            if i > 0 && order::before(K::rank(s[i].0), r) {
                assert(order::before(K::rank(s[0].0), K::rank(s[i].0)));
                order::lemma_before_transitive(K::rank(s[0].0), K::rank(s[i].0), r);
            }
        }
    }
}

/// A position with exactly the lesser ranks in front of it is the slot.
pub proof fn lemma_slot_unique<K: Ranked, W>(s: Seq<(K::V, W)>, r: Seq<u64>, p: int)
    requires
        sorted::<K, W>(s),
        0 <= p <= s.len(),
        forall|i: int| 0 <= i < p ==> order::before(K::rank((#[trigger] s[i]).0), r),
        p < s.len() ==> !order::before(K::rank(s[p].0), r),
    ensures
        slot::<K, W>(s, r) == p,
{
    lemma_slot::<K, W>(s, r);
    let q = slot::<K, W>(s, r);
    if q < p {
        assert(order::before(K::rank(s[q].0), r));
    } else if p < q {
        assert(order::before(K::rank(s[p].0), r));
    }
}

/// A pair that is there is found under its rank.
pub proof fn lemma_lookup_at<K: Ranked, W>(s: Seq<(K::V, W)>, i: int)
    requires
        sorted::<K, W>(s),
        0 <= i < s.len(),
    ensures
        slot::<K, W>(s, K::rank(s[i].0)) == i,
        present::<K, W>(s, K::rank(s[i].0)),
        lookup::<K, W>(s, K::rank(s[i].0)) == Some(s[i].1),
{
    let r = K::rank(s[i].0);
    order::lemma_before_irreflexive(r);
    lemma_slot_unique::<K, W>(s, r, i);
}

/// Keys of pairs at different positions have different ranks.
pub proof fn lemma_ranks_distinct<K: Ranked, W>(s: Seq<(K::V, W)>, i: int, j: int)
    requires
        sorted::<K, W>(s),
        0 <= i < s.len(),
        0 <= j < s.len(),
        K::rank(s[i].0) == K::rank(s[j].0),
    ensures
        i == j,
{
    order::lemma_before_irreflexive(K::rank(s[i].0));
}

/// Storing under a key keeps the order; the key then has the value, and every other
/// rank what it had.
pub proof fn lemma_put<K: Ranked, W>(s: Seq<(K::V, W)>, k: K::V, w: W)
    requires
        sorted::<K, W>(s),
    ensures
        sorted::<K, W>(put::<K, W>(s, k, w)),
        lookup::<K, W>(put::<K, W>(s, k, w), K::rank(k)) == Some(w),
        forall|r: Seq<u64>|
            r != K::rank(k) ==> #[trigger] lookup::<K, W>(put::<K, W>(s, k, w), r) == lookup::<K, W>(
                s,
                r,
            ),
{
    let rk = K::rank(k);
    lemma_slot::<K, W>(s, rk);
    let p = slot::<K, W>(s, rk);
    let t = put::<K, W>(s, k, w);
    let here = present::<K, W>(s, rk);
    assert(K::rank(t[p].0) == rk);
    assert forall|i: int, j: int| 0 <= i < j < t.len() implies order::before(
        K::rank((#[trigger] t[i]).0),
        K::rank((#[trigger] t[j]).0),
    ) by {
        if here {
            assert(K::rank(t[i].0) == K::rank(s[i].0));
            assert(K::rank(t[j].0) == K::rank(s[j].0));
        } else {
            if i < p && j == p {
                assert(t[i] == s[i]);
            } else if i == p && j > p {
                assert(t[j] == s[j - 1]);
                order::lemma_before_total(K::rank(s[j - 1].0), rk);
                if K::rank(s[j - 1].0) == rk && j - 1 > p {
                    assert(order::before(K::rank(s[p].0), K::rank(s[j - 1].0)));
                }
            } else if j < p {
                assert(t[i] == s[i] && t[j] == s[j]);
            } else if i > p {
                assert(t[i] == s[i - 1] && t[j] == s[j - 1]);
            } else {
                assert(t[i] == s[i] && t[j] == s[j - 1]);
            }
        }
    }
    lemma_lookup_at::<K, W>(t, p);
    assert forall|r: Seq<u64>| r != rk implies #[trigger] lookup::<K, W>(t, r) == lookup::<K, W>(
        s,
        r,
    ) by {
        lemma_same_elsewhere::<K, W>(s, t, p, here, r);
    }
}

/// Two sorted sequences that differ in one pair agree on every other rank.
pub proof fn lemma_same_elsewhere<K: Ranked, W>(
    s: Seq<(K::V, W)>,
    t: Seq<(K::V, W)>,
    p: int,
    same_len: bool,
    r: Seq<u64>,
)
    requires
        sorted::<K, W>(s),
        sorted::<K, W>(t),
        0 <= p < t.len(),
        K::rank(t[p].0) != r,
        same_len ==> t.len() == s.len() && K::rank(s[p].0) == K::rank(t[p].0) && (forall|i: int|
            0 <= i < s.len() && i != p ==> #[trigger] t[i] == s[i]),
        !same_len ==> p <= s.len() && t == s.insert(p, t[p]),
    ensures
        lookup::<K, W>(t, r) == lookup::<K, W>(s, r),
{
    if present::<K, W>(s, r) {
        lemma_slot::<K, W>(s, r);
        let q = slot::<K, W>(s, r);
        let q2 = if same_len || q < p {
            q
        } else {
            q + 1
        };
        assert(t[q2] == s[q]);
        lemma_lookup_at::<K, W>(t, q2);
    } else if present::<K, W>(t, r) {
        lemma_slot::<K, W>(t, r);
        let q = slot::<K, W>(t, r);
        assert(q != p);
        let q2 = if same_len || q < p {
            q
        } else {
            q - 1
        };
        assert(t[q] == s[q2]);
        lemma_lookup_at::<K, W>(s, q2);
    }
}

/// Removing a rank keeps the order; the rank is then gone, and every other one has what
/// it had.
pub proof fn lemma_without<K: Ranked, W>(s: Seq<(K::V, W)>, r: Seq<u64>)
    requires
        sorted::<K, W>(s),
    ensures
        sorted::<K, W>(without::<K, W>(s, r)),
        lookup::<K, W>(without::<K, W>(s, r), r) is None,
        forall|q: Seq<u64>|
            q != r ==> #[trigger] lookup::<K, W>(without::<K, W>(s, r), q) == lookup::<K, W>(s, q),
{
    let t = without::<K, W>(s, r);
    if present::<K, W>(s, r) {
        lemma_slot::<K, W>(s, r);
        let p = slot::<K, W>(s, r);
        assert forall|i: int, j: int| 0 <= i < j < t.len() implies order::before(
            K::rank((#[trigger] t[i]).0),
            K::rank((#[trigger] t[j]).0),
        ) by {
            let i2 = if i < p {
                i
            } else {
                i + 1
            };
            let j2 = if j < p {
                j
            } else {
                j + 1
            };
            assert(t[i] == s[i2] && t[j] == s[j2]);
        }
        assert(t.insert(p, s[p]) =~= s);
        if present::<K, W>(t, r) {
            lemma_slot::<K, W>(t, r);
            let q = slot::<K, W>(t, r);
            let q2 = if q < p {
                q
            } else {
                q + 1
            };
            assert(t[q] == s[q2]);
            lemma_ranks_distinct::<K, W>(s, q2, p);
        }
        assert forall|q: Seq<u64>| q != r implies #[trigger] lookup::<K, W>(t, q) == lookup::<K, W>(
            s,
            q,
        ) by {
            lemma_same_elsewhere::<K, W>(t, s, p, false, q);
        }
    }
}

/// Storing what is there changes nothing.
pub proof fn lemma_put_again<K: Ranked, W>(s: Seq<(K::V, W)>, k: K::V, w: W)
    requires
        sorted::<K, W>(s),
        lookup::<K, W>(s, K::rank(k)) == Some(w),
    ensures
        put::<K, W>(s, k, w) == s,
{
    lemma_slot::<K, W>(s, K::rank(k));
    assert(put::<K, W>(s, k, w) =~= s);
}

/// Storing twice under a key is storing the second time only.
pub proof fn lemma_put_twice<K: Ranked, W>(s: Seq<(K::V, W)>, k: K::V, v: W, w: W)
    requires
        sorted::<K, W>(s),
    ensures
        put::<K, W>(put::<K, W>(s, k, v), k, w) == put::<K, W>(s, k, w),
{
    let r = K::rank(k);
    lemma_slot::<K, W>(s, r);
    lemma_put::<K, W>(s, k, v);
    let p = slot::<K, W>(s, r);
    let t = put::<K, W>(s, k, v);
    assert(K::rank(t[p].0) == r);
    lemma_lookup_at::<K, W>(t, p);
    assert(put::<K, W>(t, k, w) =~= put::<K, W>(s, k, w));
}

/// Removing what was stored under a new key gives back what there was.
pub proof fn lemma_put_without<K: Ranked, W>(s: Seq<(K::V, W)>, k: K::V, w: W)
    requires
        sorted::<K, W>(s),
        !present::<K, W>(s, K::rank(k)),
    ensures
        without::<K, W>(put::<K, W>(s, k, w), K::rank(k)) == s,
{
    let r = K::rank(k);
    lemma_slot::<K, W>(s, r);
    lemma_put::<K, W>(s, k, w);
    let p = slot::<K, W>(s, r);
    let t = put::<K, W>(s, k, w);
    assert(t[p].0 == k);
    lemma_lookup_at::<K, W>(t, p);
    assert(without::<K, W>(t, r) =~= s);
}

/// The pairs behind the first are sorted too, and hold what the whole holds under every
/// rank but the first one's.
proof fn lemma_behind_first<K: Ranked, W>(s: Seq<(K::V, W)>)
    requires
        sorted::<K, W>(s),
        s.len() > 0,
    ensures
        sorted::<K, W>(s.drop_first()),
        lookup::<K, W>(s.drop_first(), K::rank(s[0].0)) is None,
        forall|r: Seq<u64>|
            r != K::rank(s[0].0) ==> #[trigger] lookup::<K, W>(s.drop_first(), r) == lookup::<K, W>(
                s,
                r,
            ),
{
    let r = K::rank(s[0].0);
    lemma_lookup_at::<K, W>(s, 0);
    lemma_without::<K, W>(s, r);
    assert(without::<K, W>(s, r) =~= s.drop_first());
}

/// Two maps that hold the same under every rank are one, where keys of one rank are one.
pub proof fn lemma_same_map<K: Ranked, W>(s: Seq<(K::V, W)>, t: Seq<(K::V, W)>)
    requires
        sorted::<K, W>(s),
        sorted::<K, W>(t),
        forall|r: Seq<u64>| #[trigger] lookup::<K, W>(s, r) == lookup::<K, W>(t, r),
        forall|a: K::V, b: K::V| #[trigger] K::rank(a) == #[trigger] K::rank(b) ==> a == b,
    ensures
        s == t,
    decreases s.len(),
{
    if s.len() == 0 {
        if t.len() > 0 {
            lemma_lookup_at::<K, W>(t, 0);
            assert(lookup::<K, W>(s, K::rank(t[0].0)) is Some);
        }
        assert(s =~= t);
    } else {
        let a = K::rank(s[0].0);
        lemma_lookup_at::<K, W>(s, 0);
        assert(lookup::<K, W>(t, a) is Some);
        lemma_slot::<K, W>(t, a);
        let b = K::rank(t[0].0);
        lemma_lookup_at::<K, W>(t, 0);
        assert(lookup::<K, W>(s, b) is Some);
        lemma_slot::<K, W>(s, b);
        let (i, j) = (slot::<K, W>(t, a), slot::<K, W>(s, b));
        if i > 0 && j > 0 {
            assert(order::before(b, a) && order::before(a, b));
            order::lemma_before_transitive(a, b, a);
            order::lemma_before_irreflexive(a);
        }
        assert(a == b);
        lemma_behind_first::<K, W>(s);
        lemma_behind_first::<K, W>(t);
        assert forall|r: Seq<u64>| #[trigger]
            lookup::<K, W>(s.drop_first(), r) == lookup::<K, W>(t.drop_first(), r) by {
            if r != a {
                assert(lookup::<K, W>(s, r) == lookup::<K, W>(t, r));
            }
        }
        lemma_same_map::<K, W>(s.drop_first(), t.drop_first());
        assert(s =~= seq![s[0]] + s.drop_first());
        assert(t =~= seq![t[0]] + t.drop_first());
    }
}

/// Storing under two keys of different ranks: the order does not matter, where keys of one
/// rank are one.
pub proof fn lemma_put_commutes<K: Ranked, W>(s: Seq<(K::V, W)>, a: K::V, v: W, b: K::V, w: W)
    requires
        sorted::<K, W>(s),
        K::rank(a) != K::rank(b),
        forall|x: K::V, y: K::V| #[trigger] K::rank(x) == #[trigger] K::rank(y) ==> x == y,
    ensures
        put::<K, W>(put::<K, W>(s, a, v), b, w) == put::<K, W>(put::<K, W>(s, b, w), a, v),
{
    let (x, y) = (put::<K, W>(s, a, v), put::<K, W>(s, b, w));
    lemma_put::<K, W>(s, a, v);
    lemma_put::<K, W>(s, b, w);
    lemma_put::<K, W>(x, b, w);
    lemma_put::<K, W>(y, a, v);
    let (p, q) = (put::<K, W>(x, b, w), put::<K, W>(y, a, v));
    assert forall|r: Seq<u64>| #[trigger] lookup::<K, W>(p, r) == lookup::<K, W>(q, r) by {
        if r != K::rank(a) && r != K::rank(b) {
            assert(lookup::<K, W>(x, r) == lookup::<K, W>(s, r));
            assert(lookup::<K, W>(y, r) == lookup::<K, W>(s, r));
        } else if r == K::rank(a) {
            assert(lookup::<K, W>(x, r) == Some(v));
        } else {
            assert(lookup::<K, W>(y, r) == Some(w));
        }
    }
    lemma_same_map::<K, W>(p, q);
}

impl<K: Ranked, T: View> SortedMap<K, T> {
    /// The three vectors run in parallel, in strictly increasing rank.
    pub closed spec fn wf(&self) -> bool {
        &&& self.ranks@.len() == self.keys@.len()
        &&& self.values@.len() == self.keys@.len()
        &&& forall|i: int|
            0 <= i < self.keys@.len() ==> (#[trigger] self.ranks@[i])@ == K::rank(self.keys@[i]@)
        &&& sorted::<K, T::V>(self@)
    }

    /// The pairs of a well-formed map are sorted.
    pub proof fn lemma_wf_sorted(&self)
        requires
            self.wf(),
        ensures
            sorted::<K, T::V>(self@),
    {
    }

    /// An empty map.
    pub fn new() -> (r: Self)
        ensures
            r.wf(),
            r@ == Seq::<(K::V, T::V)>::empty(),
    {
        let r = SortedMap { ranks: Vec::new(), keys: Vec::new(), values: Vec::new() };
        assert(r@ =~= Seq::<(K::V, T::V)>::empty());
        r
    }

    /// The number of pairs.
    pub fn len(&self) -> (r: usize)
        ensures
            r == self@.len(),
    {
        self.keys.len()
    }

    /// The key at position `i`.
    pub fn key(&self, i: usize) -> (r: &K)
        requires
            i < self@.len(),
        ensures
            r@ == self@[i as int].0,
    {
        &self.keys[i]
    }

    /// The value at position `i`.
    pub fn value(&self, i: usize) -> (r: &T)
        requires
            self.wf(),
            i < self@.len(),
        ensures
            r@ == self@[i as int].1,
    {
        &self.values[i]
    }

    /// The slot of a rank, and whether it is taken by that rank.
    fn locate(&self, rank: &Vec<u64>) -> (r: (usize, bool))
        requires
            self.wf(),
        ensures
            r.0 == slot::<K, T::V>(self@, rank@),
            r.0 <= self@.len(),
            r.1 == present::<K, T::V>(self@, rank@),
    {
        let mut lo: usize = 0;
        let mut hi: usize = self.keys.len();
        while lo < hi
            invariant
                self.wf(),
                lo <= hi <= self.keys@.len(),
                forall|i: int|
                    0 <= i < lo ==> order::before(K::rank((#[trigger] self@[i]).0), rank@),
                hi < self@.len() ==> !order::before(K::rank(self@[hi as int].0), rank@),
            decreases hi - lo,
        {
            let mid: usize = lo + (hi - lo) / 2;
            let ghost m = K::rank(self@[mid as int].0);
            match place(&self.ranks[mid], rank) {
                Place::Before => {
                    assert forall|i: int| 0 <= i < mid + 1 implies order::before(
                        K::rank((#[trigger] self@[i]).0),
                        rank@,
                    ) by {
                        if i < mid {
                            assert(order::before(
                                K::rank(self@[i].0),
                                K::rank(self@[mid as int].0),
                            ));
                            order::lemma_before_transitive(K::rank(self@[i].0), m, rank@);
                        }
                    }
                    lo = mid + 1;
                },
                Place::Equal => {
                    proof {
                        order::lemma_before_irreflexive(rank@);
                    }
                    hi = mid;
                },
                Place::After => {
                    proof {
                        if order::before(m, rank@) {
                            order::lemma_before_transitive(m, rank@, m);
                            order::lemma_before_irreflexive(m);
                        }
                    }
                    hi = mid;
                },
            }
        }
        proof {
            lemma_slot_unique::<K, T::V>(self@, rank@, lo as int);
        }
        if lo < self.keys.len() {
            match place(&self.ranks[lo], rank) {
                Place::Equal => (lo, true),
                Place::Before => {
                    proof {
                        order::lemma_before_irreflexive(rank@);
                    }
                    (lo, false)
                },
                Place::After => {
                    proof {
                        order::lemma_before_irreflexive(rank@);
                    }
                    (lo, false)
                },
            }
        } else {
            (lo, false)
        }
    }

    /// The position of a key.
    pub fn position(&self, k: &K) -> (r: Option<usize>)
        requires
            self.wf(),
        ensures
            match r {
                Some(i) => present::<K, T::V>(self@, K::rank(k@)) && i == slot::<K, T::V>(
                    self@,
                    K::rank(k@),
                ) && i < self@.len(),
                None => !present::<K, T::V>(self@, K::rank(k@)),
            },
    {
        let rank = k.rank_of();
        let (p, here) = self.locate(&rank);
        if here {
            Some(p)
        } else {
            None
        }
    }

    /// The value under a key.
    pub fn get(&self, k: &K) -> (r: Option<&T>)
        requires
            self.wf(),
        ensures
            match r {
                Some(v) => lookup::<K, T::V>(self@, K::rank(k@)) == Some(v@),
                None => lookup::<K, T::V>(self@, K::rank(k@)) is None,
            },
    {
        match self.position(k) {
            Some(i) => Some(&self.values[i]),
            None => None,
        }
    }

    /// Store a value under a key, in place of what was there.
    pub fn insert(&mut self, k: K, v: T)
        requires
            old(self).wf(),
        ensures
            final(self).wf(),
            final(self)@ == put::<K, T::V>(old(self)@, k@, v@),
    {
        let rank = k.rank_of();
        let (p, here) = self.locate(&rank);
        proof {
            lemma_put::<K, T::V>(self@, k@, v@);
        }
        if here {
            self.values.set(p, v);
            assert(self@ =~= put::<K, T::V>(old(self)@, k@, v@));
        } else {
            self.ranks.insert(p, rank);
            self.keys.insert(p, k);
            self.values.insert(p, v);
            assert(self@ =~= put::<K, T::V>(old(self)@, k@, v@));
        }
    }

    /// Replace the value at position `i`.
    pub fn set_value(&mut self, i: usize, v: T)
        requires
            old(self).wf(),
            i < old(self)@.len(),
        ensures
            final(self).wf(),
            final(self)@ == old(self)@.update(i as int, (old(self)@[i as int].0, v@)),
    {
        self.values.set(i, v);
        assert(self@ =~= old(self)@.update(i as int, (old(self)@[i as int].0, v@)));
    }

    /// Remove the pair at position `i`.
    pub fn remove_at(&mut self, i: usize)
        requires
            old(self).wf(),
            i < old(self)@.len(),
        ensures
            final(self).wf(),
            final(self)@ == old(self)@.remove(i as int),
    {
        proof {
            lemma_lookup_at::<K, T::V>(self@, i as int);
            lemma_without::<K, T::V>(self@, K::rank(self@[i as int].0));
        }
        self.ranks.remove(i);
        self.keys.remove(i);
        self.values.remove(i);
        assert(self@ =~= old(self)@.remove(i as int));
    }

    /// Remove the pair under a key; returns whether there was one.
    pub fn remove(&mut self, k: &K) -> (r: bool)
        requires
            old(self).wf(),
        ensures
            final(self).wf(),
            final(self)@ == without::<K, T::V>(old(self)@, K::rank(k@)),
            r == present::<K, T::V>(old(self)@, K::rank(k@)),
    {
        match self.position(k) {
            Some(i) => {
                self.remove_at(i);
                true
            },
            None => false,
        }
    }
}

impl<K: Ranked, T: Datum> Clone for SortedMap<K, T> {
    fn clone(&self) -> (r: Self)
        ensures
            self.wf() ==> r.wf() && r@ == self@,
    {
        let mut ranks: Vec<Vec<u64>> = Vec::new();
        let mut i: usize = 0;
        while i < self.ranks.len()
            invariant
                i <= self.ranks.len(),
                ranks@.len() == i,
                forall|j: int| 0 <= j < i ==> (#[trigger] ranks@[j])@ == self.ranks@[j]@,
            decreases self.ranks.len() - i,
        {
            ranks.push(self.ranks[i].clone());
            i = i + 1;
        }
        let keys = order::dup_all(self.keys.as_slice());
        let values = order::dup_all(self.values.as_slice());
        proof {
            lemma_views_at(keys@, self.keys@);
            lemma_views_at(values@, self.values@);
        }
        let r = SortedMap { ranks, keys, values };
        assert(self.wf() ==> r@ =~= self@);
        r
    }
}

proof fn lemma_views_at<T: View>(a: Seq<T>, b: Seq<T>)
    requires
        wire::views(a) == wire::views(b),
    ensures
        a.len() == b.len(),
        forall|i: int| 0 <= i < a.len() ==> (#[trigger] a[i])@ == b[i]@,
{
    assert(wire::views(a).len() == a.len());
    assert(wire::views(b).len() == b.len());
    assert forall|i: int| 0 <= i < a.len() implies (#[trigger] a[i])@ == b[i]@ by {
        assert(wire::views(a)[i] == a[i]@);
        assert(wire::views(b)[i] == b[i]@);
    }
}

} // verus!
