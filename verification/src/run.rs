//! Runs of records: the codecs that write values one behind the other and read them
//! back until nothing is left.

use vstd::prelude::*;

use crate::wire;

verus! {

/// Nothing to agree on: the encoding depends on the value alone.
#[derive(Clone, Copy, PartialEq, Eq, Structural, Debug)]
pub struct Plain;

/// A value with a self-delimiting encoding. `Ctx` is what both ends have to agree on.
pub trait Record: View + Sized {
    /// What the encoding depends on besides the value.
    type Ctx: Copy;

    /// The values that survive their encoding.
    spec fn carried(v: Self::V, c: Self::Ctx) -> bool;

    /// The encoding of a value.
    spec fn octets(v: Self::V, c: Self::Ctx) -> Seq<u8>;

    /// The value at the front of a string that is not empty, and its length in octets;
    /// `None` where there is none.
    spec fn front(s: Seq<u8>, c: Self::Ctx) -> Option<(Self::V, int)>;

    /// A value that survives its encoding is read back from in front of anything.
    proof fn lemma_front(v: Self::V, c: Self::Ctx, rest: Seq<u8>)
        requires
            Self::carried(v, c),
        ensures
            Self::octets(v, c).len() > 0,
            Self::front(Self::octets(v, c) + rest, c) == Some((v, Self::octets(v, c).len() as int)),
    ;

    /// Append the encoding.
    fn write(&self, out: &mut Vec<u8>, c: Self::Ctx)
        ensures
            final(out)@ == old(out)@ + Self::octets(self@, c),
    ;

    /// Read the value at the front.
    fn read(s: &[u8], c: Self::Ctx) -> (r: Option<(Self, usize)>)
        requires
            s@.len() > 0,
        ensures
            match r {
                Some((v, used)) => Self::front(s@, c) == Some((v@, used as int)) && 0 < used
                    <= s@.len(),
                None => Self::front(s@, c) is None,
            },
    ;
}

/// The encodings of a run of values, one behind the other.
pub open spec fn run_octets<T: Record>(vs: Seq<T::V>, c: T::Ctx) -> Seq<u8>
    decreases vs.len(),
{
    if vs.len() == 0 {
        Seq::empty()
    } else {
        T::octets(vs[0], c) + run_octets::<T>(vs.drop_first(), c)
    }
}

/// The values that a string holds, one behind the other; `None` where something in it is
/// no value.
pub open spec fn run_values<T: Record>(s: Seq<u8>, c: T::Ctx) -> Option<Seq<T::V>>
    decreases s.len(),
{
    if s.len() == 0 {
        Some(Seq::empty())
    } else {
        match T::front(s, c) {
            None => None,
            Some((v, used)) => if 0 < used <= s.len() {
                match run_values::<T>(wire::from_at(s, used), c) {
                    None => None,
                    Some(rest) => Some(seq![v] + rest),
                }
            } else {
                None
            },
        }
    }
}

/// Append a run of values.
pub fn write_run<T: Record>(out: &mut Vec<u8>, vs: &[T], c: T::Ctx)
    ensures
        final(out)@ == old(out)@ + run_octets::<T>(wire::views(vs@), c),
{
    let ghost all = wire::views(vs@);
    let ghost start = out@;
    let mut i: usize = 0;
    assert(all.skip(0) =~= all);
    while i < vs.len()
        invariant
            i <= vs.len(),
            all == wire::views(vs@),
            out@ + run_octets::<T>(all.skip(i as int), c) == start + run_octets::<T>(all, c),
        decreases vs.len() - i,
    {
        let ghost rest = all.skip(i as int);
        let ghost before = out@;
        vs[i].write(out, c);
        assert(rest.drop_first() =~= all.skip(i + 1));
        assert(out@ + run_octets::<T>(all.skip(i + 1), c) =~= before + run_octets::<T>(rest, c));
        i = i + 1;
    }
    assert(out@ =~= out@ + run_octets::<T>(all.skip(i as int), c));
}

/// Read a run of values.
pub fn read_run<T: Record>(s: &[u8], c: T::Ctx) -> (r: Option<Vec<T>>)
    ensures
        match r {
            Some(vs) => run_values::<T>(s@, c) == Some(wire::views(vs@)),
            None => run_values::<T>(s@, c) is None,
        },
{
    let mut out: Vec<T> = Vec::new();
    let mut i: usize = 0;
    let ghost whole = run_values::<T>(s@, c);
    assert(wire::from_at(s@, 0) =~= s@);
    assert(wire::views(out@) =~= Seq::empty());
    proof {
        if let Some(w) = whole {
            assert(Seq::empty() + w =~= w);
        }
    }
    while i < s.len()
        invariant
            i <= s.len(),
            whole == run_values::<T>(s@, c),
            whole == (match run_values::<T>(wire::from_at(s@, i as int), c) {
                Some(rest) => Some(wire::views(out@) + rest),
                None => None::<Seq<T::V>>,
            }),
        decreases s.len() - i,
    {
        let ghost rest = wire::from_at(s@, i as int);
        let ghost done = wire::views(out@);
        match T::read(&s[i..s.len()], c) {
            None => {
                return None;
            },
            Some((v, used)) => {
                proof {
                    assert(wire::from_at(rest, used as int) =~= wire::from_at(s@, i + used));
                    wire::lemma_views_push(out@, v);
                    if let Some(r) = run_values::<T>(wire::from_at(s@, i + used), c) {
                        assert(done + (seq![v@] + r) =~= done.push(v@) + r);
                    }
                }
                out.push(v);
                i = i + used;
            },
        }
    }
    assert(wire::views(out@) + Seq::empty() =~= wire::views(out@));
    Some(out)
}

/// A run of values that survive their encoding is read back from it.
pub proof fn lemma_run_round_trip<T: Record>(vs: Seq<T::V>, c: T::Ctx)
    requires
        forall|i: int| 0 <= i < vs.len() ==> T::carried(#[trigger] vs[i], c),
    ensures
        run_values::<T>(run_octets::<T>(vs, c), c) == Some(vs),
    decreases vs.len(),
{
    let s = run_octets::<T>(vs, c);
    if vs.len() > 0 {
        let first = T::octets(vs[0], c);
        let rest = run_octets::<T>(vs.drop_first(), c);
        T::lemma_front(vs[0], c, rest);
        assert(wire::from_at(s, first.len() as int) =~= rest);
        assert forall|i: int| 0 <= i < vs.drop_first().len() implies T::carried(
            #[trigger] vs.drop_first()[i],
            c,
        ) by {
            assert(vs.drop_first()[i] == vs[i + 1]);
        }
        lemma_run_round_trip::<T>(vs.drop_first(), c);
        assert(seq![vs[0]] + vs.drop_first() =~= vs);
    } else {
        assert(vs =~= Seq::empty());
    }
}

/// Two runs one behind the other are written as one.
pub proof fn lemma_run_concat<T: Record>(a: Seq<T::V>, b: Seq<T::V>, c: T::Ctx)
    ensures
        run_octets::<T>(a + b, c) == run_octets::<T>(a, c) + run_octets::<T>(b, c),
    decreases a.len(),
{
    if a.len() == 0 {
        assert(a + b =~= b);
        assert(run_octets::<T>(a, c) + run_octets::<T>(b, c) =~= run_octets::<T>(b, c));
    } else {
        lemma_run_concat::<T>(a.drop_first(), b, c);
        assert((a + b).drop_first() =~= a.drop_first() + b);
        assert(run_octets::<T>(a + b, c) =~= run_octets::<T>(a, c) + run_octets::<T>(b, c));
    }
}

/// One more value at the end is written behind the run.
pub proof fn lemma_run_push<T: Record>(a: Seq<T::V>, v: T::V, c: T::Ctx)
    ensures
        run_octets::<T>(a.push(v), c) == run_octets::<T>(a, c) + T::octets(v, c),
{
    let one = seq![v];
    lemma_run_concat::<T>(a, one, c);
    assert(a.push(v) =~= a + one);
    assert(one.drop_first() =~= Seq::<T::V>::empty());
    assert(run_octets::<T>(one, c) =~= T::octets(v, c) + run_octets::<T>(one.drop_first(), c));
    assert(run_octets::<T>(one, c) =~= T::octets(v, c));
}

} // verus!
