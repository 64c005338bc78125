//! What a flood fill finds.
use vstd::prelude::*;
use crate::amount::Amount;
use crate::flood::{
    border_ok, filled, flood_from, flooded, lemma_border_len, lemma_upon_all_keeps, through, upon,
    upon_all, Flood, Probe,
};
use crate::grid::{neighbours, TurfID};
use crate::tables::{distinct, holds, place, put, MixWithID, TurfMixture};
use crate::zone::all_read;

verus! {

/// The turfs of `border` that belong to a planet, or those that do not.
pub open spec fn part<A: Amount>(
    border: Seq<(TurfID, TurfMixture, A)>,
    planetary: bool,
) -> Seq<MixWithID>
    decreases border.len(),
{
    if border.len() == 0 {
        Seq::empty()
    } else if (border.last().1.planetary_atmos is Some) == planetary {
        part(border.drop_last(), planetary).push((border.last().0, border.last().1))
    } else {
        part(border.drop_last(), planetary)
    }
}

/// The gas in the turfs of `border` that belong to no planet.
pub open spec fn gas_of<A: Amount>(border: Seq<(TurfID, TurfMixture, A)>) -> A::Total
    decreases border.len(),
{
    if border.len() == 0 {
        A::spec_total_zero()
    } else if border.last().1.planetary_atmos is Some {
        gas_of(border.drop_last())
    } else {
        A::spec_total_plus(gas_of(border.drop_last()), border.last().2)
    }
}

/// Turf `loc` keeps the fill from equalizing the zone: someone else is at work
/// on it, or its air can never change.
pub open spec fn blocks<A: Amount>(world: Map<TurfID, Probe<A>>, loc: TurfID) -> bool {
    world.contains_key(loc) && match world[loc] {
        Probe::Locked => true,
        Probe::Turf(reading) => reading.immutable,
    }
}

/// Turf `loc` takes part in the fill.
pub open spec fn joins<A: Amount>(world: Map<TurfID, Probe<A>>, loc: TurfID) -> bool {
    world.contains_key(loc) && (world[loc] matches Probe::Turf(reading)
        && reading.mixture.simulated)
}

/// The turf is on the border.
pub open spec fn on_border<A: Amount>(
    border: Seq<(TurfID, TurfMixture, A)>,
    i: TurfID,
) -> bool {
    exists|p: int| 0 <= p < border.len() && (#[trigger] border[p]).0 == i
}

/// Turf `i` was read as `m` with `moles` of gas.
pub open spec fn read_as<A: Amount>(
    world: Map<TurfID, Probe<A>>,
    i: TurfID,
    m: TurfMixture,
    moles: A,
) -> bool {
    world.contains_key(i) && (world[i] matches Probe::Turf(reading) && reading.mixture == m
        && reading.moles == moles)
}

/// What holds of a fill that began at turf `i` all the while.
pub open spec fn fill_ok<A: Amount>(
    world: Map<TurfID, Probe<A>>,
    found: Set<TurfID>,
    i: TurfID,
    flood: Flood<A>,
) -> bool {
    &&& border_ok(flood)
    &&& flood.border.len() > 0
    &&& flood.border[0].0 == i
    &&& flood.found.contains(i)
    &&& forall|k: TurfID| #[trigger] found.contains(k) ==> flood.found.contains(k)
    &&& forall|p: int|
        1 <= p < flood.border.len() ==> {
            let (loc, mixture, moles) = #[trigger] flood.border[p];
            !found.contains(loc) && read_as(world, loc, mixture, moles)
        }
    &&& forall|k: TurfID| #[trigger]
        flood.found.contains(k) && !found.contains(k) && k != i && joins(world, k) ==> on_border(
            flood.border,
            k,
        )
    &&& forall|k: TurfID| #[trigger]
        flood.found.contains(k) && !found.contains(k) && k != i && blocks(world, k)
            ==> flood.ignore_zone
    &&& flood.ignore_zone ==> exists|k: TurfID| #[trigger]
        flood.found.contains(k) && !found.contains(k) && k != i && blocks(world, k)
    &&& flood.depressurize ==> flood.ignore_zone && exists|k: TurfID| #[trigger]
        flood.found.contains(k) && !found.contains(k) && k != i && blocks(world, k)
            && world[k] is Turf
    &&& flood.ignore_zone && !flood.depressurize ==> exists|k: TurfID| #[trigger]
        flood.found.contains(k) && !found.contains(k) && k != i && blocks(world, k)
            && world[k] is Locked
}

/// [`fill_ok`] does not depend on what the fill has counted.
proof fn lemma_counted<A: Amount>(
    world: Map<TurfID, Probe<A>>,
    found: Set<TurfID>,
    i: TurfID,
    flood: Flood<A>,
    turfs: Seq<MixWithID>,
    planet_turfs: Seq<MixWithID>,
    total_moles: A::Total,
)
    requires
        fill_ok(world, found, i, flood),
    ensures
        fill_ok(world, found, i, Flood { turfs, planet_turfs, total_moles, ..flood }),
{
    let next = Flood { turfs, planet_turfs, total_moles, ..flood };
    assert(next.found == flood.found && next.border == flood.border);
    assert(next.ignore_zone == flood.ignore_zone);
    assert(next.depressurize == flood.depressurize);
}

proof fn lemma_upon<A: Amount>(
    world: Map<TurfID, Probe<A>>,
    found: Set<TurfID>,
    i: TurfID,
    flood: Flood<A>,
    loc: TurfID,
)
    requires
        fill_ok(world, found, i, flood),
    ensures
        ({
            let next = upon(world, flood, loc);
            &&& fill_ok(world, found, i, next)
            &&& next.found == flood.found.insert(loc)
            &&& flood.border.is_prefix_of(next.border)
        }),
{
    let next = upon(world, flood, loc);
    if flood.found.contains(loc) {
        assert(next.found =~= flood.found.insert(loc));
    } else {
        assert(!found.contains(loc));
        assert(loc != i);
        assert(next.found.contains(loc));
        assert forall|p: int| 0 <= p < flood.border.len() implies (#[trigger] flood.border[p])
            == next.border[p] && flood.border[p].0 != loc by {}
        assert forall|k: TurfID| #[trigger]
            next.found.contains(k) && !found.contains(k) && k != i && joins(
                world,
                k,
            ) implies on_border(next.border, k) by {
            if k == loc {
                assert(next.border[flood.border.len() as int].0 == loc);
            } else {
                assert(flood.found.contains(k));
                assert(on_border(flood.border, k));
                let p = choose|p: int|
                    0 <= p < flood.border.len() && (#[trigger] flood.border[p]).0 == k;
                assert(next.border[p].0 == k);
            }
        }
        assert forall|k: TurfID| #[trigger]
            next.found.contains(k) && !found.contains(k) && k != i && blocks(
                world,
                k,
            ) implies next.ignore_zone by {
            if k != loc {
                assert(flood.found.contains(k));
            }
        }
        if next.ignore_zone {
            if flood.ignore_zone {
                let k = choose|k: TurfID| #[trigger]
                    flood.found.contains(k) && !found.contains(k) && k != i && blocks(world, k);
                assert(next.found.contains(k));
            } else {
                assert(blocks(world, loc));
            }
        }
        if next.ignore_zone && !next.depressurize {
            if flood.ignore_zone {
                let k = choose|k: TurfID| #[trigger]
                    flood.found.contains(k) && !found.contains(k) && k != i && blocks(world, k)
                        && world[k] is Locked;
                assert(next.found.contains(k));
            } else {
                assert(blocks(world, loc) && world[loc] is Locked);
            }
        }
        if next.depressurize {
            if flood.depressurize {
                let k = choose|k: TurfID| #[trigger]
                    flood.found.contains(k) && !found.contains(k) && k != i && blocks(world, k)
                        && world[k] is Turf;
                assert(next.found.contains(k));
            } else {
                assert(blocks(world, loc) && world[loc] is Turf);
            }
        }
    }
}

proof fn lemma_upon_all<A: Amount>(
    world: Map<TurfID, Probe<A>>,
    found: Set<TurfID>,
    i: TurfID,
    flood: Flood<A>,
    steps: Seq<(u8, TurfID)>,
)
    requires
        fill_ok(world, found, i, flood),
    ensures
        ({
            let next = upon_all(world, flood, steps);
            &&& fill_ok(world, found, i, next)
            &&& flood.border.is_prefix_of(next.border)
            &&& forall|k: TurfID| #[trigger] flood.found.contains(k) ==> next.found.contains(k)
            &&& forall|k: int| 0 <= k < steps.len() ==> next.found.contains((#[trigger] steps[k]).1)
        }),
    decreases steps.len(),
{
    if steps.len() > 0 {
        lemma_upon(world, found, i, flood, steps[0].1);
        let between = upon(world, flood, steps[0].1);
        let rest = steps.drop_first();
        lemma_upon_all(world, found, i, between, rest);
        let next = upon_all(world, flood, steps);
        assert forall|k: int| 0 <= k < steps.len() implies next.found.contains(
            (#[trigger] steps[k]).1,
        ) by {
            if k > 0 {
                assert(rest[k - 1] == steps[k]);
            } else {
                assert(between.found.contains(steps[0].1));
            }
        }
        assert forall|k: TurfID| #[trigger] flood.found.contains(k) implies next.found.contains(
            k,
        ) by {
            assert(between.found.contains(k));
        }
    }
}

/// The parts of a border hold exactly its turfs, each in its part.
pub proof fn lemma_part<A: Amount>(border: Seq<(TurfID, TurfMixture, A)>, planetary: bool)
    requires
        forall|p: int, q: int|
            0 <= p < q < border.len() ==> (#[trigger] border[p]).0 != (#[trigger] border[q]).0,
    ensures
        distinct(part(border, planetary)),
        forall|p: int|
            0 <= p < border.len() && ((#[trigger] border[p]).1.planetary_atmos is Some)
                == planetary ==> holds(part(border, planetary), border[p].0),
        forall|k: int|
            #![trigger part(border, planetary)[k]]
            0 <= k < part(border, planetary).len() ==> exists|p: int|
                0 <= p < border.len() && (#[trigger] border[p]).0 == part(border, planetary)[k].0
                    && border[p].1 == part(border, planetary)[k].1
                    && (border[p].1.planetary_atmos is Some) == planetary,
    decreases border.len(),
{
    if border.len() > 0 {
        let front = border.drop_last();
        let before = part(front, planetary);
        let after = part(border, planetary);
        let last = border.len() - 1;
        lemma_part(front, planetary);
        assert forall|k: int|
            #![trigger after[k]]
            0 <= k < after.len() implies exists|p: int|
            0 <= p < border.len() && (#[trigger] border[p]).0 == after[k].0 && border[p].1
                == after[k].1 && (border[p].1.planetary_atmos is Some) == planetary by {
            if k < before.len() {
                assert(after[k] == before[k]);
                let p = choose|p: int|
                    0 <= p < front.len() && (#[trigger] front[p]).0 == before[k].0 && front[p].1
                        == before[k].1 && (front[p].1.planetary_atmos is Some) == planetary;
                assert(border[p] == front[p]);
            } else {
                assert(border[last].0 == after[k].0);
            }
        }
        assert forall|p: int|
            0 <= p < border.len() && ((#[trigger] border[p]).1.planetary_atmos is Some)
                == planetary implies holds(after, border[p].0) by {
            if p < last {
                assert(front[p] == border[p]);
                let k = place(before, border[p].0);
                assert(after[k] == before[k]);
            } else {
                assert(after[after.len() - 1].0 == border[p].0);
            }
        }
        assert forall|k: int, l: int| 0 <= k < l < after.len() implies (#[trigger] after[k]).0 != (
        #[trigger] after[l]).0 by {
            if l < before.len() {
                assert(after[k] == before[k] && after[l] == before[l]);
            } else {
                assert(after[k] == before[k]);
                let p = choose|p: int|
                    0 <= p < front.len() && (#[trigger] front[p]).0 == before[k].0 && front[p].1
                        == before[k].1 && (front[p].1.planetary_atmos is Some) == planetary;
                assert(border[p] == front[p]);
                assert(border[p].0 != border[last].0);
            }
        }
    }
}

/// The fill has gone through the first `at` turfs of its border.
pub open spec fn gone_through<A: Amount>(
    flood: Flood<A>,
    at: int,
    max_x: int,
    max_y: int,
) -> bool {
    &&& 0 <= at <= flood.border.len()
    &&& flood.turfs == part(flood.border.take(at), false)
    &&& flood.planet_turfs == part(flood.border.take(at), true)
    &&& flood.total_moles == gas_of(flood.border.take(at))
    &&& forall|p: int, k: int|
        #![trigger neighbours(flood.border[p].1.adjacency, flood.border[p].0, max_x, max_y, 0, 7)[k]]
        0 <= p < at && flood.border[p].1.planetary_atmos is None && 0 <= k < neighbours(
            flood.border[p].1.adjacency,
            flood.border[p].0,
            max_x,
            max_y,
            0,
            7,
        ).len() ==> flood.found.contains(
            neighbours(flood.border[p].1.adjacency, flood.border[p].0, max_x, max_y, 0, 7)[k].1,
        )
}

proof fn lemma_put_new(
    entries: Seq<MixWithID>,
    i: TurfID,
    mixture: TurfMixture,
)
    requires
        !holds(entries, i),
    ensures
        put(entries, i, mixture) == entries.push((i, mixture)),
{
}

/// The turf at `at` is in neither part of what comes before it.
proof fn lemma_not_yet<A: Amount>(border: Seq<(TurfID, TurfMixture, A)>, at: int, planetary: bool)
    requires
        0 <= at < border.len(),
        forall|p: int, q: int|
            0 <= p < q < border.len() ==> (#[trigger] border[p]).0 != (#[trigger] border[q]).0,
    ensures
        !holds(part(border.take(at), planetary), border[at].0),
{
    let front = border.take(at);
    let before = part(front, planetary);
    assert forall|p: int, q: int| 0 <= p < q < front.len() implies (#[trigger] front[p]).0 != (
    #[trigger] front[q]).0 by {
        assert(front[p] == border[p] && front[q] == border[q]);
    }
    lemma_part(front, planetary);
    if holds(before, border[at].0) {
        let k = place(before, border[at].0);
        assert(before[k].0 == border[at].0);
        let p = choose|p: int|
            0 <= p < front.len() && (#[trigger] front[p]).0 == before[k].0 && front[p].1
                == before[k].1 && (front[p].1.planetary_atmos is Some) == planetary;
        assert(front[p] == border[p]);
        assert(border[p].0 != border[at].0);
    }
}

proof fn lemma_through<A: Amount>(
    world: Map<TurfID, Probe<A>>,
    found: Set<TurfID>,
    i: TurfID,
    flood: Flood<A>,
    at: int,
    max_x: int,
    max_y: int,
)
    requires
        fill_ok(world, found, i, flood),
        gone_through(flood, at, max_x, max_y),
        at < flood.border.len(),
    ensures
        ({
            let next = through(world, max_x, max_y, flood, flood.border[at]);
            &&& fill_ok(world, found, i, next)
            &&& gone_through(next, at + 1, max_x, max_y)
            &&& next.border[0] == flood.border[0]
        }),
{
    let (loc, mixture, moles) = flood.border[at];
    let next = through(world, max_x, max_y, flood, flood.border[at]);
    let steps = neighbours(mixture.adjacency, loc, max_x, max_y, 0, 7);
    let counted = Flood { total_moles: A::spec_total_plus(flood.total_moles, moles), ..flood };
    if mixture.planetary_atmos is None {
        lemma_counted(
            world,
            found,
            i,
            flood,
            flood.turfs,
            flood.planet_turfs,
            counted.total_moles,
        );
        lemma_upon_all(world, found, i, counted, steps);
        lemma_upon_all_keeps(world, counted, steps);
        let after = upon_all(world, counted, steps);
        lemma_counted(world, found, i, after, next.turfs, after.planet_turfs, after.total_moles);
    } else {
        lemma_counted(
            world,
            found,
            i,
            flood,
            flood.turfs,
            next.planet_turfs,
            flood.total_moles,
        );
    }
    assert(fill_ok(world, found, i, next));
    assert(flood.border.is_prefix_of(next.border));
    assert forall|p: int| 0 <= p < flood.border.len() implies (#[trigger] flood.border[p])
        == next.border[p] by {}
    let upto = next.border.take(at + 1);
    assert(upto.drop_last() =~= flood.border.take(at));
    assert(upto.last() == flood.border[at]);
    lemma_not_yet(flood.border, at, mixture.planetary_atmos is Some);
    lemma_put_new(
        part(flood.border.take(at), mixture.planetary_atmos is Some),
        loc,
        mixture,
    );
    assert forall|p: int, k: int|
        #![trigger neighbours(next.border[p].1.adjacency, next.border[p].0, max_x, max_y, 0, 7)[k]]
        0 <= p < at + 1 && next.border[p].1.planetary_atmos is None && 0 <= k < neighbours(
            next.border[p].1.adjacency,
            next.border[p].0,
            max_x,
            max_y,
            0,
            7,
        ).len() implies next.found.contains(
        neighbours(next.border[p].1.adjacency, next.border[p].0, max_x, max_y, 0, 7)[k].1,
    ) by {
        assert(next.border[p] == flood.border[p]);
        let around = neighbours(
            flood.border[p].1.adjacency,
            flood.border[p].0,
            max_x,
            max_y,
            0,
            7,
        );
        if p < at {
            assert(flood.found.contains(around[k].1));
            assert(counted.found.contains(around[k].1));
        } else {
            assert(around == steps);
            assert(next.found.contains(steps[k].1));
        }
    }
}

proof fn lemma_filled<A: Amount>(
    world: Map<TurfID, Probe<A>>,
    found: Set<TurfID>,
    i: TurfID,
    flood: Flood<A>,
    at: int,
    max_x: int,
    max_y: int,
)
    requires
        fill_ok(world, found, i, flood),
        gone_through(flood, at, max_x, max_y),
    ensures
        ({
            let end = filled(world, max_x, max_y, flood, at);
            &&& fill_ok(world, found, i, end)
            &&& end.border[0] == flood.border[0]
            &&& gone_through(end, end.border.len() as int, max_x, max_y)
        }),
    decreases 0x1_0000_0000 - at,
{
    lemma_border_len(flood);
    if at < flood.border.len() {
        lemma_through(world, found, i, flood, at, max_x, max_y);
        lemma_filled(
            world,
            found,
            i,
            through(world, max_x, max_y, flood, flood.border[at]),
            at + 1,
            max_x,
            max_y,
        );
    }
}

pub proof fn lemma_flooded<A: Amount>(
    i: TurfID,
    m: TurfMixture,
    moles: A,
    world: Map<TurfID, Probe<A>>,
    max_x: int,
    max_y: int,
    found: Set<TurfID>,
)
    ensures
        ({
            let end = flooded(i, m, moles, world, max_x, max_y, found);
            &&& fill_ok(world, found, i, end)
            &&& end.border[0] == (i, m, moles)
            &&& gone_through(end, end.border.len() as int, max_x, max_y)
        }),
{
    let first = flood_from(i, m, moles, found);
    assert(first.border[0].0 == i);
    assert(first.border.take(0) =~= Seq::empty());
    assert(fill_ok(world, found, i, first));
    lemma_filled(world, found, i, first, 0, max_x, max_y);
}

/// The turf is in the zone, or is one of its planet turfs.
pub open spec fn in_zone<A: Amount>(zone: Flood<A>, i: TurfID) -> bool {
    holds(zone.turfs, i) || holds(zone.planet_turfs, i)
}

/// A fill sorts the turfs that it goes through, each once: those of a planet go
/// to the planet turfs, all others to the zone. The total is the gas in the
/// turfs of the zone, and all of them are found now. If the first turf had not
/// been found before, none of them had; and if it was read as the world has it,
/// all of them were.
pub proof fn fill_sorts_its_turfs<A: Amount>(
    i: TurfID,
    m: TurfMixture,
    moles: A,
    world: Map<TurfID, Probe<A>>,
    max_x: int,
    max_y: int,
    found: Set<TurfID>,
)
    ensures
        ({
            let end = flooded(i, m, moles, world, max_x, max_y, found);
            &&& end.turfs == part(end.border, false)
            &&& end.planet_turfs == part(end.border, true)
            &&& end.total_moles == gas_of(end.border)
            &&& distinct(end.turfs) && distinct(end.planet_turfs)
            &&& in_zone(end, i)
            &&& forall|k: TurfID| #[trigger] found.contains(k) ==> end.found.contains(k)
            &&& forall|k: TurfID| #[trigger] in_zone(end, k) ==> end.found.contains(k)
            &&& forall|p: int|
                0 <= p < end.turfs.len() ==> (#[trigger] end.turfs[p]).1.planetary_atmos is None
            &&& forall|p: int|
                0 <= p < end.planet_turfs.len() ==> (
                #[trigger] end.planet_turfs[p]).1.planetary_atmos is Some
            &&& forall|p: int|
                0 <= p < end.planet_turfs.len() ==> !holds(
                    end.turfs,
                    (#[trigger] end.planet_turfs[p]).0,
                )
            &&& !found.contains(i) ==> forall|k: TurfID| #[trigger]
                in_zone(end, k) ==> !found.contains(k)
            &&& read_as(world, i, m, moles) ==> {
                &&& all_read(world, end.turfs) && all_read(world, end.planet_turfs)
                &&& forall|p: int|
                    0 <= p < end.turfs.len() ==> (#[trigger] end.turfs[p]).1
                        == world[end.turfs[p].0]->Turf_0.mixture
                &&& forall|p: int|
                    0 <= p < end.planet_turfs.len() ==> (#[trigger] end.planet_turfs[p]).1
                        == world[end.planet_turfs[p].0]->Turf_0.mixture
            }
        }),
{
    let end = flooded(i, m, moles, world, max_x, max_y, found);
    let border = end.border;
    lemma_flooded(i, m, moles, world, max_x, max_y, found);
    assert(border.take(border.len() as int) =~= border);
    lemma_part(border, false);
    lemma_part(border, true);
    assert(border[0] == (i, m, moles));
    assert forall|q: int| 0 <= q < border.len() implies {
        let (k, mixture, amount) = #[trigger] border[q];
        &&& end.found.contains(k)
        &&& !found.contains(i) ==> !found.contains(k)
        &&& read_as(world, i, m, moles) ==> read_as(world, k, mixture, amount)
    } by {}
    assert forall|p: int|
        0 <= p < end.turfs.len() implies {
        let k = (#[trigger] end.turfs[p]).0;
        &&& end.turfs[p].1.planetary_atmos is None
        &&& end.found.contains(k)
        &&& !found.contains(i) ==> !found.contains(k)
        &&& read_as(world, i, m, moles) ==> world.contains_key(k) && world[k] is Turf
            && end.turfs[p].1 == world[k]->Turf_0.mixture
    } by {
        let q = choose|q: int|
            0 <= q < border.len() && (#[trigger] border[q]).0 == part(border, false)[p].0
                && border[q].1 == part(border, false)[p].1 && (border[q].1.planetary_atmos is Some)
                == false;
        assert(border[q].0 == end.turfs[p].0);
    }
    assert forall|p: int|
        0 <= p < end.planet_turfs.len() implies {
        let k = (#[trigger] end.planet_turfs[p]).0;
        &&& end.planet_turfs[p].1.planetary_atmos is Some
        &&& end.found.contains(k)
        &&& !found.contains(i) ==> !found.contains(k)
        &&& read_as(world, i, m, moles) ==> world.contains_key(k) && world[k] is Turf
            && end.planet_turfs[p].1 == world[k]->Turf_0.mixture
        &&& !holds(end.turfs, k)
    } by {
        let q = choose|q: int|
            0 <= q < border.len() && (#[trigger] border[q]).0 == part(border, true)[p].0
                && border[q].1 == part(border, true)[p].1 && (border[q].1.planetary_atmos is Some)
                == true;
        assert(border[q].0 == end.planet_turfs[p].0);
        if holds(end.turfs, border[q].0) {
            let r = place(end.turfs, border[q].0);
            assert(part(border, false)[r].0 == border[q].0);
            let t = choose|t: int|
                0 <= t < border.len() && (#[trigger] border[t]).0 == part(border, false)[r].0
                    && border[t].1 == part(border, false)[r].1 && (
                border[t].1.planetary_atmos is Some) == false;
            if t < q {
                assert(border[t].0 != border[q].0);
            } else if q < t {
                assert(border[q].0 != border[t].0);
            }
        }
    }
    assert forall|k: TurfID| #[trigger] in_zone(end, k) implies end.found.contains(k) && (
    !found.contains(i) ==> !found.contains(k)) by {
        if holds(end.turfs, k) {
            assert(end.turfs[place(end.turfs, k)].0 == k);
        } else {
            assert(end.planet_turfs[place(end.planet_turfs, k)].0 == k);
        }
    }
}

/// A fill stops at nothing but walls. Whatever lies next to a turf of the
/// zone had been found before, does not exist, does not take part in the
/// simulation, or is in the zone or among its planet turfs.
pub proof fn fill_leaves_no_gaps<A: Amount>(
    i: TurfID,
    m: TurfMixture,
    moles: A,
    world: Map<TurfID, Probe<A>>,
    max_x: int,
    max_y: int,
    found: Set<TurfID>,
    p: int,
    k: int,
)
    requires
        ({
            let end = flooded(i, m, moles, world, max_x, max_y, found);
            let (loc, mixture) = end.turfs[p];
            &&& 0 <= p < end.turfs.len()
            &&& 0 <= k < neighbours(mixture.adjacency, loc, max_x, max_y, 0, 7).len()
        }),
    ensures
        ({
            let end = flooded(i, m, moles, world, max_x, max_y, found);
            let (loc, mixture) = end.turfs[p];
            let next = neighbours(mixture.adjacency, loc, max_x, max_y, 0, 7)[k].1;
            found.contains(next) || !joins(world, next) || in_zone(end, next)
        }),
{
    let end = flooded(i, m, moles, world, max_x, max_y, found);
    let border = end.border;
    lemma_flooded(i, m, moles, world, max_x, max_y, found);
    assert(border.take(border.len() as int) =~= border);
    lemma_part(border, false);
    lemma_part(border, true);
    let (loc, mixture) = end.turfs[p];
    let next = neighbours(mixture.adjacency, loc, max_x, max_y, 0, 7)[k].1;
    assert(part(border, false)[p] == end.turfs[p]);
    let q = choose|q: int|
        0 <= q < border.len() && (#[trigger] border[q]).0 == part(border, false)[p].0
            && border[q].1 == part(border, false)[p].1 && (border[q].1.planetary_atmos is Some)
            == false;
    assert(neighbours(border[q].1.adjacency, border[q].0, max_x, max_y, 0, 7)[k].1 == next);
    assert(end.found.contains(next));
    if !found.contains(next) && joins(world, next) {
        assert(border[0].0 == i);
        assert(on_border(border, next));
        let r = choose|r: int| 0 <= r < border.len() && (#[trigger] border[r]).0 == next;
        assert(holds(part(border, border[r].1.planetary_atmos is Some), border[r].0));
    }
}

/// A zone is left alone if and only if the fill came upon a turf that someone
/// else was at work on, or whose air can never change. It loses its air only if
/// there was one of the latter, and does so if there was and nobody was at work
/// on any turf that the fill came upon.
pub proof fn fill_respects_blocks<A: Amount>(
    i: TurfID,
    m: TurfMixture,
    moles: A,
    world: Map<TurfID, Probe<A>>,
    max_x: int,
    max_y: int,
    found: Set<TurfID>,
)
    ensures
        ({
            let end = flooded(i, m, moles, world, max_x, max_y, found);
            &&& end.ignore_zone <==> exists|k: TurfID| #[trigger]
                end.found.contains(k) && !found.contains(k) && k != i && blocks(world, k)
            &&& end.depressurize ==> end.ignore_zone && exists|k: TurfID| #[trigger]
                end.found.contains(k) && !found.contains(k) && k != i && blocks(world, k)
                    && world[k] is Turf
            &&& (exists|k: TurfID| #[trigger]
                end.found.contains(k) && !found.contains(k) && k != i && blocks(world, k)
                    && world[k] is Turf) && (forall|k: TurfID| #[trigger]
                end.found.contains(k) && !found.contains(k) && k != i && blocks(world, k)
                    ==> !(world[k] is Locked)) ==> end.depressurize
        }),
{
    lemma_flooded(i, m, moles, world, max_x, max_y, found);
}

} // verus!
