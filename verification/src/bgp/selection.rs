//! The choice of one offer by the decision process, whatever is offered beside the path.

use vstd::prelude::*;

use crate::bgp::decision;
use crate::bgp::decision::{is_better, Path, PathView};
use crate::bgp::table::{Offer, Selector, Source};
use crate::order::Datum;
use crate::wire;

verus! {

/// Something that came on a path.
pub trait Carried: Datum {
    /// The path.
    spec fn path(v: Self::V) -> PathView;

    /// The path.
    fn path_of(&self) -> (r: &Path)
        ensures
            r@ == Self::path(self@),
    ;
}

impl Carried for Path {
    open spec fn path(v: PathView) -> PathView {
        v
    }

    fn path_of(&self) -> (r: &Path) {
        self
    }
}

/// The paths of some offers.
pub open spec fn paths_of<P: Carried>(offers: Seq<(Source, P::V)>) -> Seq<PathView> {
    Seq::new(offers.len(), |i: int| P::path(offers[i].1))
}

/// The best of some offers.
pub open spec fn best_of<P: Carried>(offers: Seq<(Source, P::V)>) -> P::V {
    offers[decision::champion(paths_of::<P>(offers))].1
}

/// Where the best of some offers stands.
pub fn best_index<P: Carried>(offers: &Vec<Offer<P>>) -> (r: usize)
    requires
        offers@.len() > 0,
    ensures
        r < offers@.len(),
        r == decision::champion(paths_of::<P>(wire::views(offers@))),
{
    let ghost all = paths_of::<P>(wire::views(offers@));
    let mut best: usize = 0;
    let mut i: usize = 1;
    while i < offers.len()
        invariant
            1 <= i <= offers.len(),
            best < i,
            all == paths_of::<P>(wire::views(offers@)),
            best == decision::champion(all.take(i as int)),
        decreases offers.len() - i,
    {
        assert(all.take(i + 1).drop_last() =~= all.take(i as int));
        if is_better(offers[i].what.path_of(), offers[best].what.path_of()) {
            best = i;
        }
        i = i + 1;
    }
    assert(all.take(i as int) =~= all);
    best
}

/// The choice of the best path.
#[derive(Clone, Copy, PartialEq, Eq, Debug)]
pub struct SinglePath;

impl Selector for SinglePath {
    type Item = Path;

    type Choice = Path;

    open spec fn chosen(&self, offers: Seq<(Source, PathView)>) -> PathView {
        best_of::<Path>(offers)
    }

    fn select(&self, offers: &Vec<Offer<Path>>) -> (r: Path) {
        offers[best_index(offers)].what.dup()
    }
}

/// The best of some offers is one of them, and among offers between whose paths MED counts
/// or makes no difference none is better.
pub proof fn lemma_best_offer<P: Carried>(offers: Seq<(Source, P::V)>)
    requires
        offers.len() > 0,
    ensures
        exists|i: int| 0 <= i < offers.len() && (#[trigger] offers[i]).1 == best_of::<P>(offers),
        (forall|i: int, j: int|
            0 <= i < offers.len() && 0 <= j < offers.len() ==> decision::med_agrees(
                P::path((#[trigger] offers[i]).1),
                P::path((#[trigger] offers[j]).1),
            )) ==> forall|i: int|
            0 <= i < offers.len() ==> !decision::better(
                P::path((#[trigger] offers[i]).1),
                P::path(best_of::<P>(offers)),
            ),
{
    let ps = paths_of::<P>(offers);
    decision::lemma_champion_in(ps);
    let c = decision::champion(ps);
    assert(offers[c].1 == best_of::<P>(offers));
    if forall|i: int, j: int|
        0 <= i < offers.len() && 0 <= j < offers.len() ==> decision::med_agrees(
            P::path((#[trigger] offers[i]).1),
            P::path((#[trigger] offers[j]).1),
        ) {
        assert forall|i: int| 0 <= i < offers.len() implies !decision::better(
            P::path((#[trigger] offers[i]).1),
            P::path(best_of::<P>(offers)),
        ) by {
            assert forall|j: int, k: int|
                0 <= j < ps.len() && 0 <= k < ps.len() implies decision::med_agrees(
                #[trigger] ps[j],
                #[trigger] ps[k],
            ) by {
                assert(decision::med_agrees(P::path(offers[j].1), P::path(offers[k].1)));
            }
            decision::lemma_best_is_unbeaten(ps, i);
            assert(ps[i] == P::path(offers[i].1));
        }
    }
}

/// Among offers between whose paths MED counts or makes no difference, the first of those
/// that are equally good is the best: every offer in front of it is worse.
pub proof fn lemma_first_of_the_best<P: Carried>(offers: Seq<(Source, P::V)>) -> (c: int)
    requires
        offers.len() > 0,
        forall|i: int, j: int|
            0 <= i < offers.len() && 0 <= j < offers.len() ==> decision::med_agrees(
                P::path((#[trigger] offers[i]).1),
                P::path((#[trigger] offers[j]).1),
            ),
    ensures
        0 <= c < offers.len(),
        offers[c].1 == best_of::<P>(offers),
        forall|i: int|
            0 <= i < c ==> decision::better(
                P::path(offers[c].1),
                P::path((#[trigger] offers[i]).1),
            ),
        forall|i: int|
            0 <= i < offers.len() ==> !decision::better(
                P::path((#[trigger] offers[i]).1),
                P::path(offers[c].1),
            ),
{
    let ps = paths_of::<P>(offers);
    decision::lemma_champion_in(ps);
    lemma_best_offer::<P>(offers);
    let c = decision::champion(ps);
    assert forall|j: int, k: int|
        0 <= j < ps.len() && 0 <= k < ps.len() implies decision::med_agrees(
        #[trigger] ps[j],
        #[trigger] ps[k],
    ) by {
        assert(decision::med_agrees(P::path(offers[j].1), P::path(offers[k].1)));
    }
    assert forall|i: int| 0 <= i < c implies decision::better(
        P::path(offers[c].1),
        P::path((#[trigger] offers[i]).1),
    ) by {
        decision::lemma_best_is_first(ps, i);
        assert(ps[i] == P::path(offers[i].1) && ps[c] == P::path(offers[c].1));
    }
    c
}

/// One more offer at the end is the best where its path is better than that of the best so
/// far; otherwise that one stays.
pub proof fn lemma_one_more_offer<P: Carried>(offers: Seq<(Source, P::V)>, o: (Source, P::V))
    requires
        offers.len() > 0,
    ensures
        best_of::<P>(seq![o]) == o.1,
        best_of::<P>(offers.push(o)) == (if decision::better(
            P::path(o.1),
            P::path(best_of::<P>(offers)),
        ) {
            o.1
        } else {
            best_of::<P>(offers)
        }),
{
    let ps = paths_of::<P>(offers);
    decision::lemma_champion_in(ps);
    decision::lemma_one_more_candidate(ps, P::path(o.1));
    assert(paths_of::<P>(offers.push(o)) =~= ps.push(P::path(o.1)));
    assert(ps[decision::champion(ps)] == P::path(best_of::<P>(offers)));
}

/// Of one path that one is chosen. Another one is chosen instead exactly where it is
/// better.
pub proof fn lemma_who_is_chosen(offers: Seq<(Source, PathView)>, o: (Source, PathView))
    requires
        offers.len() > 0,
    ensures
        SinglePath.chosen(seq![o]) == o.1,
        SinglePath.chosen(offers.push(o)) == (if decision::better(
            o.1,
            SinglePath.chosen(offers),
        ) {
            o.1
        } else {
            SinglePath.chosen(offers)
        }),
{
    lemma_one_more_offer::<Path>(offers, o);
}

} // verus!
