//! What becomes of the gas of a zone from beginning to end.
use vstd::prelude::*;
use crate::amount::{below_zero, ordered, Amount};
use crate::balance::{exact_amounts_are_signed, in_step, lemma_group, paired, sum};
use crate::finalize::Task;
use crate::flood::{flooded, Flood, Probe};
use crate::grid::{opposite, opposite_step_returns, TurfID};
use crate::laws::breadth::opens_to;
use crate::laws::carried::{known_visits, to_visit};
use crate::laws::course::{aired, gas_ends_up_as_booked, Course};
use crate::laws::flood::{fill_sorts_its_turfs, read_as};
use crate::laws::once::visits_only;
use crate::laws::ordered::lemma_order;
use crate::laws::runs::Run;
use crate::laws::sums::whole_delta;
use crate::laws::ways::{equalizing_follows_ways, follows_ways, is_open, way};
use crate::laws::whole::{all_found_zones_are_evened_out, two_way};
use crate::laws::zone::{balancing_conserves, equalizing_conserves, lemma_opened};
use crate::tables::{books_wf, entry_of, holds, place, MixWithID, TurfMixture};
use crate::zone::{balanced, opened, zone_books};

verus! {

/// The gas of the zone `zone` as its books say that it is to be moved.
pub open spec fn course_of<A: Amount>(
    zone: Flood<A>,
    world: Map<TurfID, Probe<A>>,
    average: A,
    max_x: int,
    max_y: int,
    gas: Map<usize, A>,
    rank: spec_fn(TurfID) -> int,
) -> Course<A> {
    Course {
        turfs: zone.turfs,
        max_x,
        max_y,
        info: balanced(zone.turfs, max_x, max_y, opened(world, zone.turfs, average)),
        gas,
        planets: Map::empty(),
        rank,
    }
}

/// No two turfs share their air, and of each the world was read as it is.
pub open spec fn read_truly<A: Amount>(
    turfs: Seq<MixWithID>,
    world: Map<TurfID, Probe<A>>,
    gas: Map<usize, A>,
) -> bool {
    &&& forall|p: int, q: int|
        0 <= p < q < turfs.len() ==> (#[trigger] turfs[p]).1.mix != (#[trigger] turfs[q]).1.mix
    &&& forall|p: int|
        0 <= p < turfs.len() ==> gas[(#[trigger] turfs[p]).1.mix]
            == world[turfs[p].0]->Turf_0.moles
}

/// In a zone that a fill finds, where gas can flow back wherever it can flow, what
/// is booked to flow can flow, to a turf of the zone.
proof fn lemma_self_contained<A: Amount>(
    i: TurfID,
    m: TurfMixture,
    moles: A,
    world: Map<TurfID, Probe<A>>,
    max_x: int,
    max_y: int,
    found: Set<TurfID>,
    average: A,
    gas: Map<usize, A>,
    rank: spec_fn(TurfID) -> int,
)
    requires
        ordered::<A>(),
        read_as(world, i, m, moles),
        two_way(world, max_x, max_y),
        read_truly(flooded(i, m, moles, world, max_x, max_y, found).turfs, world, gas),
    ensures
        ({
            let zone = flooded(i, m, moles, world, max_x, max_y, found);
            let c = course_of(zone, world, average, max_x, max_y, gas, rank);
            &&& c.self_contained()
            &&& books_wf(c.info)
            &&& paired(c.info, max_x, max_y)
        }),
{
    let zone = flooded(i, m, moles, world, max_x, max_y, found);
    let turfs = zone.turfs;
    let c = course_of(zone, world, average, max_x, max_y, gas, rank);
    let info = opened(world, turfs, average);
    let z = A::spec_zero();
    fill_sorts_its_turfs(i, m, moles, world, max_x, max_y, found);
    exact_amounts_are_signed::<A>();
    lemma_opened(world, turfs, average, max_x, max_y);
    balancing_conserves(turfs, max_x, max_y, info);
    assert(in_step(c.info, max_x, max_y));
    equalizing_follows_ways(
        turfs,
        Seq::empty(),
        average,
        world,
        Map::empty(),
        max_x,
        max_y,
        0,
    );
    assert forall|k: TurfID| #[trigger] c.info.contains_key(k) == holds(turfs, k) by {
        assert(c.info.contains_key(k) == info.contains_key(k));
    }
    lemma_order(z, z, z);
    assert forall|k: TurfID| #[trigger] c.info.contains_key(k) implies !below_zero(
        c.booked(k, 6),
    ) by {
        assert(info.contains_key(k));
        assert(info[k].transfers[6] == z);
    }
    assert forall|k: TurfID| #[trigger] holds(turfs, k) implies world.contains_key(k)
        && world[k] is Turf && entry_of(turfs, k) == Some(world[k]->Turf_0.mixture) by {
        let p = place(turfs, k);
        assert(turfs[p].0 == k);
        assert(turfs[p].1 == world[turfs[p].0]->Turf_0.mixture);
    }
    assert forall|k: TurfID, d: int|
        #![trigger c.booked(k, d)]
        c.info.contains_key(k) && 0 <= d < 6 && c.booked(k, d) != z implies opens_to(
        (entry_of(turfs, k)->0).adjacency,
        d as u8,
    ) && c.info.contains_key(c.next(k, d)) by {
        let loc = c.next(k, d);
        assert(follows_ways(turfs, c.info, k, max_x, max_y));
        assert(c.info[k].transfers[d] != z);
        assert(way(turfs, c.info.dom(), k, d, max_x, max_y));
        assert(holds(turfs, k) && c.info.contains_key(loc) && holds(turfs, loc));
        opposite_step_returns(d, k, max_x, max_y);
        if !is_open(turfs, k, d) {
            assert(opens_to(world[loc]->Turf_0.mixture.adjacency, opposite(d) as u8));
        }
    }
    assert(paired(c.info, max_x, max_y));
}

/// A zone ends up at the average. Of a zone that a fill finds, all is read as it is,
/// no two turfs share their air, no turf belongs to a planet, gas can flow back
/// wherever it can flow, and the turfs, in all, are neither above nor below the
/// average. If the books let gas flow nowhere in a circle, then once all turfs have
/// been worked off, in any order, every single turf holds exactly the average. The
/// result is the number of steps.
pub proof fn zones_end_up_at_the_average<A: Amount>(
    i: TurfID,
    m: TurfMixture,
    moles: A,
    world: Map<TurfID, Probe<A>>,
    max_x: int,
    max_y: int,
    found: Set<TurfID>,
    average: A,
    gas: Map<usize, A>,
    rank: spec_fn(TurfID) -> int,
    agenda: Seq<Task<A>>,
) -> (n: nat)
    requires
        ordered::<A>(),
        read_as(world, i, m, moles),
        m.simulated,
        !found.contains(i),
        two_way(world, max_x, max_y),
        A::spec_zero().spec_le(average),
        ({
            let zone = flooded(i, m, moles, world, max_x, max_y, found);
            &&& zone.planet_turfs.len() == 0
            &&& whole_delta(opened(world, zone.turfs, average)) == A::spec_zero()
            &&& read_truly(zone.turfs, world, gas)
            &&& course_of(zone, world, average, max_x, max_y, gas, rank).no_circles()
            &&& visits_only(agenda)
            &&& known_visits(zone.turfs, agenda)
            &&& forall|p: int|
                0 <= p < zone.turfs.len() ==> to_visit(agenda, (#[trigger] zone.turfs[p]).0)
        }),
    ensures
        ({
            let zone = flooded(i, m, moles, world, max_x, max_y, found);
            let books = zone_books(
                zone.turfs,
                zone.planet_turfs,
                average,
                world,
                Map::empty(),
                max_x,
                max_y,
                0,
            ).0;
            let run = Run { agenda, info: books, effects: Seq::empty() };
            let (end, after) = aired(zone.turfs, max_x, max_y, run, gas, Map::empty(), n);
            &&& end.agenda.len() == 0
            &&& forall|p: int|
                0 <= p < zone.turfs.len() ==> after[(#[trigger] zone.turfs[p]).1.mix] == average
        }),
{
    let zone = flooded(i, m, moles, world, max_x, max_y, found);
    let turfs = zone.turfs;
    let c = course_of(zone, world, average, max_x, max_y, gas, rank);
    let none = Map::<u32, A>::empty();
    let z = A::spec_zero();
    lemma_self_contained(i, m, moles, world, max_x, max_y, found, average, gas, rank);
    all_found_zones_are_evened_out(
        i,
        m,
        moles,
        world,
        max_x,
        max_y,
        found,
        average,
        none,
        0,
    );
    equalizing_conserves(turfs, zone.planet_turfs, average, world, none, max_x, max_y, 0);
    let books = zone_books(
        turfs,
        zone.planet_turfs,
        average,
        world,
        none,
        max_x,
        max_y,
        0,
    ).0;
    assert(books == c.info);
    assert forall|k: TurfID| #[trigger] holds(turfs, k) implies c.goal(k) == average by {
        let p = place(turfs, k);
        assert(turfs[p].0 == k);
        assert(c.mix(k) == turfs[p].1.mix);
        assert(gas[turfs[p].1.mix] == world[turfs[p].0]->Turf_0.moles);
        assert(books[k].mole_delta == z);
        lemma_group(average, z, z);
    }
    assert(c.affordable()) by {
        assert forall|k: TurfID| #[trigger] c.info.contains_key(k) implies z.spec_le(c.goal(k)) by {
            assert(holds(turfs, k));
        }
    }
    let n = gas_ends_up_as_booked(c, agenda);
    let run = Run { agenda, info: books, effects: Seq::empty() };
    let (end, after) = aired(turfs, max_x, max_y, run, gas, none, n);
    assert forall|p: int| 0 <= p < turfs.len() implies after[(#[trigger] turfs[p]).1.mix]
        == average by {
        let k = turfs[p].0;
        assert(holds(turfs, k));
        assert(c.goal(k) == average);
        let q = place(turfs, k);
        assert(turfs[q].0 == k);
        if p < q {
            assert(turfs[p].0 != turfs[q].0);
        } else if q < p {
            assert(turfs[q].0 != turfs[p].0);
        }
        assert(c.mix(k) == turfs[p].1.mix);
        assert(after[turfs[p].1.mix] == c.gas[turfs[p].1.mix].spec_minus(
            sum(c.info[turfs[p].0].transfers),
        ));
    }
    n
}

} // verus!
