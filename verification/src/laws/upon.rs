//! What a fill comes upon, in which order, and what it makes of it.
use vstd::prelude::*;
use crate::amount::Amount;
use crate::flood::{
    filled, flood_from, flooded, lemma_border_len, through, upon, upon_all, Flood, Probe,
};
use crate::grid::{neighbours, TurfID};
use crate::laws::flood::lemma_flooded;
use crate::tables::TurfMixture;

verus! {

/// The turfs that a fill comes upon from the first `n` turfs of its border, in their order: all that
/// lie in an open direction of one that belongs to no planet.
pub open spec fn comes_upon<A: Amount>(
    border: Seq<(TurfID, TurfMixture, A)>,
    n: int,
    max_x: int,
    max_y: int,
) -> Seq<TurfID>
    decreases n,
{
    if n <= 0 {
        Seq::empty()
    } else {
        let (i, mixture, moles) = border[n - 1];
        let before = comes_upon(border, n - 1, max_x, max_y);
        if mixture.planetary_atmos is Some {
            before
        } else {
            before + places(neighbours(mixture.adjacency, i, max_x, max_y, 0, 7))
        }
    }
}

/// Where steps lead.
pub open spec fn places(steps: Seq<(u8, TurfID)>) -> Seq<TurfID> {
    steps.map_values(|step: (u8, TurfID)| step.1)
}

/// Turf `k` is neither the one where the fill began nor one that had been found before.
pub open spec fn is_fresh(found: Set<TurfID>, i: TurfID, k: TurfID) -> bool {
    !found.contains(k) && k != i
}

/// Turf `k` was read and takes part in the simulation.
pub open spec fn takes_part<A: Amount>(world: Map<TurfID, Probe<A>>, k: TurfID) -> bool {
    world.contains_key(k) && world[k] is Turf && world[k]->Turf_0.mixture.simulated
}

/// Someone else is at work on turf `k`, or it is space.
pub open spec fn in_the_way<A: Amount>(world: Map<TurfID, Probe<A>>, k: TurfID) -> bool {
    world.contains_key(k) && (world[k] is Turf ==> world[k]->Turf_0.immutable)
}

/// The first of the turfs of `met` that is in the way.
pub open spec fn first_in_the_way<A: Amount>(
    world: Map<TurfID, Probe<A>>,
    found: Set<TurfID>,
    i: TurfID,
    met: Seq<TurfID>,
) -> Option<TurfID>
    decreases met.len(),
{
    if met.len() == 0 {
        None
    } else {
        match first_in_the_way(world, found, i, met.drop_last()) {
            Some(k) => Some(k),
            None => if is_fresh(found, i, met.last()) && in_the_way(world, met.last()) {
                Some(met.last())
            } else {
                None
            },
        }
    }
}

/// Those of the turfs of `met` that the fill goes on to, each once, in the order in which it first
/// came upon them, with what was read of them.
pub open spec fn goes_on_to<A: Amount>(
    world: Map<TurfID, Probe<A>>,
    found: Set<TurfID>,
    i: TurfID,
    met: Seq<TurfID>,
) -> Seq<(TurfID, TurfMixture, A)>
    decreases met.len(),
{
    if met.len() == 0 {
        Seq::empty()
    } else {
        let k = met.last();
        let before = goes_on_to(world, found, i, met.drop_last());
        if is_fresh(found, i, k) && takes_part(world, k) && !met.drop_last().contains(k) {
            before.push((k, world[k]->Turf_0.mixture, world[k]->Turf_0.moles))
        } else {
            before
        }
    }
}

/// The fill has come upon the turfs of `met` and has made of them what it should.
pub open spec fn has_met<A: Amount>(
    world: Map<TurfID, Probe<A>>,
    found: Set<TurfID>,
    first: (TurfID, TurfMixture, A),
    met: Seq<TurfID>,
    flood: Flood<A>,
) -> bool {
    let i = first.0;
    &&& forall|k: TurfID| #[trigger]
        flood.found.contains(k) == (found.contains(k) || k == i || met.contains(k))
    &&& flood.border == seq![first] + goes_on_to(world, found, i, met)
    &&& flood.ignore_zone == (first_in_the_way(world, found, i, met) is Some)
    &&& flood.depressurize == (first_in_the_way(world, found, i, met) matches Some(k)
        && world[k] is Turf)
}

/// If one of the turfs of `met` is in the way, there is a first one.
proof fn lemma_some_in_the_way<A: Amount>(
    world: Map<TurfID, Probe<A>>,
    found: Set<TurfID>,
    i: TurfID,
    met: Seq<TurfID>,
    k: TurfID,
)
    requires
        met.contains(k),
        is_fresh(found, i, k),
        in_the_way(world, k),
    ensures
        first_in_the_way(world, found, i, met) is Some,
    decreases met.len(),
{
    let p = choose|p: int| 0 <= p < met.len() && met[p] == k;
    if p < met.len() - 1 {
        assert(met.drop_last()[p] == k);
        lemma_some_in_the_way(world, found, i, met.drop_last(), k);
    }
}

proof fn lemma_upon<A: Amount>(
    world: Map<TurfID, Probe<A>>,
    found: Set<TurfID>,
    first: (TurfID, TurfMixture, A),
    met: Seq<TurfID>,
    flood: Flood<A>,
    loc: TurfID,
)
    requires
        has_met(world, found, first, met, flood),
    ensures
        has_met(world, found, first, met.push(loc), upon(world, flood, loc)),
        upon(world, flood, loc).turfs == flood.turfs,
{
    let i = first.0;
    let more = met.push(loc);
    let next = upon(world, flood, loc);
    assert(more.drop_last() =~= met);
    assert(more[met.len() as int] == loc);
    assert forall|k: TurfID| #[trigger] more.contains(k) == (met.contains(k) || k == loc) by {
        if met.contains(k) {
            let p = choose|p: int| 0 <= p < met.len() && met[p] == k;
            assert(more[p] == k);
        }
        if more.contains(k) && k != loc {
            let p = choose|p: int| 0 <= p < more.len() && more[p] == k;
            assert(met[p] == k);
        }
    }
    if met.contains(loc) && is_fresh(found, i, loc) && in_the_way(world, loc) {
        lemma_some_in_the_way(world, found, i, met, loc);
    }
    assert(flood.found.contains(loc) == (found.contains(loc) || loc == i || met.contains(loc)));
    assert(next.border =~= seq![first] + goes_on_to(world, found, i, more));
}

proof fn lemma_upon_all<A: Amount>(
    world: Map<TurfID, Probe<A>>,
    found: Set<TurfID>,
    first: (TurfID, TurfMixture, A),
    met: Seq<TurfID>,
    flood: Flood<A>,
    steps: Seq<(u8, TurfID)>,
)
    requires
        has_met(world, found, first, met, flood),
    ensures
        has_met(world, found, first, met + places(steps), upon_all(world, flood, steps)),
    decreases steps.len(),
{
    if steps.len() == 0 {
        assert(met + places(steps) =~= met);
    } else {
        let loc = steps[0].1;
        lemma_upon(world, found, first, met, flood, loc);
        lemma_upon_all(
            world,
            found,
            first,
            met.push(loc),
            upon(world, flood, loc),
            steps.drop_first(),
        );
        assert(met.push(loc) + places(steps.drop_first()) =~= met + places(steps));
    }
}

proof fn lemma_same_border<A: Amount>(
    a: Seq<(TurfID, TurfMixture, A)>,
    b: Seq<(TurfID, TurfMixture, A)>,
    n: int,
    max_x: int,
    max_y: int,
)
    requires
        n <= a.len(),
        a.is_prefix_of(b),
    ensures
        comes_upon(a, n, max_x, max_y) == comes_upon(b, n, max_x, max_y),
    decreases n,
{
    if n > 0 {
        lemma_same_border(a, b, n - 1, max_x, max_y);
        assert(b[n - 1] == a[n - 1]);
    }
}

/// Coming upon turfs makes the border no shorter.
proof fn lemma_border_grows<A: Amount>(
    world: Map<TurfID, Probe<A>>,
    flood: Flood<A>,
    steps: Seq<(u8, TurfID)>,
)
    ensures
        flood.border.is_prefix_of(upon_all(world, flood, steps).border),
    decreases steps.len(),
{
    if steps.len() > 0 {
        lemma_border_grows(world, upon(world, flood, steps[0].1), steps.drop_first());
    }
}

proof fn lemma_filled<A: Amount>(
    world: Map<TurfID, Probe<A>>,
    max_x: int,
    max_y: int,
    found: Set<TurfID>,
    first: (TurfID, TurfMixture, A),
    flood: Flood<A>,
    at: int,
) -> (n: int)
    requires
        0 <= at <= flood.border.len(),
        has_met(world, found, first, comes_upon(flood.border, at, max_x, max_y), flood),
    ensures
        ({
            let end = filled(world, max_x, max_y, flood, at);
            &&& 0 <= n <= end.border.len()
            &&& n < end.border.len() ==> n >= 0x1_0000_0000
            &&& has_met(world, found, first, comes_upon(end.border, n, max_x, max_y), end)
        }),
    decreases 0x1_0000_0000 - at,
{
    if at < flood.border.len() && at < 0x1_0000_0000 {
        let (i, mixture, moles) = flood.border[at];
        let next = through(world, max_x, max_y, flood, flood.border[at]);
        let met = comes_upon(flood.border, at, max_x, max_y);
        if mixture.planetary_atmos is None {
            let counted = Flood {
                total_moles: A::spec_total_plus(flood.total_moles, moles),
                ..flood
            };
            let steps = neighbours(mixture.adjacency, i, max_x, max_y, 0, 7);
            lemma_upon_all(world, found, first, met, counted, steps);
            lemma_border_grows(world, counted, steps);
        }
        assert(flood.border.is_prefix_of(next.border));
        lemma_same_border(flood.border, next.border, at, max_x, max_y);
        assert(next.border[at] == flood.border[at]);
        lemma_filled(world, max_x, max_y, found, first, next, at + 1)
    } else {
        at
    }
}

/// A fill goes breadth first, and knows what it comes upon. From the turf where it begins it goes on
/// to every turf that takes part and that it comes upon for the first time, in this order. What it
/// has found in the end is what had been found before and what it came upon, and nothing else.
/// Its zone is left alone if and only if something it came upon was in the way, and loses its
/// air if and only if the first such thing was space.
pub proof fn fill_makes_the_right_of_what_it_meets<A: Amount>(
    i: TurfID,
    m: TurfMixture,
    moles: A,
    world: Map<TurfID, Probe<A>>,
    max_x: int,
    max_y: int,
    found: Set<TurfID>,
)
    ensures
        ({
            let end = flooded(i, m, moles, world, max_x, max_y, found);
            has_met(
                world,
                found,
                (i, m, moles),
                comes_upon(end.border, end.border.len() as int, max_x, max_y),
                end,
            )
        }),
{
    let first = flood_from(i, m, moles, found);
    let end = flooded(i, m, moles, world, max_x, max_y, found);
    assert(comes_upon(first.border, 0, max_x, max_y) =~= Seq::empty());
    assert(first.border =~= seq![(i, m, moles)] + goes_on_to(
        world,
        found,
        i,
        Seq::<TurfID>::empty(),
    ));
    let n = lemma_filled(world, max_x, max_y, found, (i, m, moles), first, 0);
    lemma_flooded(i, m, moles, world, max_x, max_y, found);
    lemma_border_len(end);
    assert(n == end.border.len());
}

} // verus!
