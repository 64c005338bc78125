//! What a flood fill and the matching of turfs come to together.
use vstd::prelude::*;
use crate::amount::{ordered, Amount};
use crate::flood::{filled, flood_from, flooded, through, upon, upon_all, Flood, Probe};
use crate::grid::{adjacent, lemma_neighbours, neighbours, opposite, opposite_step_returns, TurfID};
use crate::info::Ledger;
use crate::laws::breadth::opens_to;
use crate::laws::flood::{
    fill_sorts_its_turfs, in_zone, joins, lemma_flooded, lemma_part, part, read_as,
};
use crate::laws::grid::neighbours_lie_where_set;
use crate::laws::level::{above, all_above, joined, zone_ok, zones_are_evened_out};
use crate::laws::ordered::{on_side, one_sided};
use crate::laws::planet::planets_outside_take_nothing;
use crate::laws::quick::roomy;
use crate::laws::reach::{closed_under_steps, within_reach};
use crate::laws::sums::whole_delta;
use crate::laws::zone::lemma_opened;
use crate::planet::planet_sum;
use crate::quanta::Quanta;
use crate::settle::passable;
use crate::tables::{entry_of, holds, place, MixWithID, TurfMixture};
use crate::zone::{balanced, opened, zone_books};

verus! {

/// Where gas can flow from a turf to its neighbour, it can flow back.
pub open spec fn two_way<A: Amount>(
    world: Map<TurfID, Probe<A>>,
    max_x: int,
    max_y: int,
) -> bool {
    forall|i: TurfID, dir: u8|
        #![trigger opens_to(world[i]->Turf_0.mixture.adjacency, dir)]
        dir < 6 && world.contains_key(i) && world[i] is Turf && opens_to(
            world[i]->Turf_0.mixture.adjacency,
            dir,
        ) ==> {
            let loc = adjacent(dir as int, i, max_x, max_y);
            world.contains_key(loc) && world[loc] is Turf ==> opens_to(
                world[loc]->Turf_0.mixture.adjacency,
                opposite(dir as int) as u8,
            )
        }
}

/// Turf `p` of the border was come upon from turf `q`, in direction `dir`.
pub open spec fn came_from<A: Amount>(
    border: Seq<(TurfID, TurfMixture, A)>,
    p: int,
    q: int,
    dir: u8,
    max_x: int,
    max_y: int,
) -> bool {
    &&& 0 <= q < p
    &&& dir < 6
    &&& border[q].1.planetary_atmos is None
    &&& opens_to(border[q].1.adjacency, dir)
    &&& border[p].0 == adjacent(dir as int, border[q].0, max_x, max_y)
}

/// Each turf of the border but the first was come upon from an earlier one, and
/// takes part in the simulation.
spec fn linked<A: Amount>(flood: Flood<A>, max_x: int, max_y: int) -> bool {
    forall|p: int|
        1 <= p < flood.border.len() ==> (#[trigger] flood.border[p]).1.simulated && exists|
            q: int,
            dir: u8,
        | #[trigger]
            came_from(flood.border, p, q, dir, max_x, max_y)
}

/// All turfs on the border have been found.
spec fn border_found<A: Amount>(flood: Flood<A>) -> bool {
    forall|p: int|
        0 <= p < flood.border.len() ==> flood.found.contains((#[trigger] flood.border[p]).0)
}

proof fn lemma_upon_all_linked<A: Amount>(
    world: Map<TurfID, Probe<A>>,
    flood: Flood<A>,
    at: int,
    steps: Seq<(u8, TurfID)>,
    max_x: int,
    max_y: int,
)
    requires
        linked(flood, max_x, max_y),
        0 <= at < flood.border.len(),
        flood.border[at].1.planetary_atmos is None,
        flood.found.contains(flood.border[at].0),
        forall|k: int|
            #![trigger steps[k]]
            0 <= k < steps.len() ==> steps[k].0 < 7 && steps[k].1 == adjacent(
                steps[k].0 as int,
                flood.border[at].0,
                max_x,
                max_y,
            ) && opens_to(flood.border[at].1.adjacency, steps[k].0),
    ensures
        linked(upon_all(world, flood, steps), max_x, max_y),
        flood.border.is_prefix_of(upon_all(world, flood, steps).border),
    decreases steps.len(),
{
    if steps.len() > 0 {
        let (j, loc) = steps[0];
        let next = upon(world, flood, loc);
        let i = flood.border[at].0;
        let last = flood.border.len() as int;
        assert(flood.border.is_prefix_of(next.border));
        assert forall|p: int| 0 <= p < last implies (#[trigger] next.border[p])
            == flood.border[p] by {}
        assert forall|p: int| 1 <= p < next.border.len() implies (
        #[trigger] next.border[p]).1.simulated && exists|q: int, dir: u8| #[trigger]
            came_from(next.border, p, q, dir, max_x, max_y) by {
            if p < last {
                assert(flood.border[p].1.simulated);
                let (q, dir) = choose|q: int, dir: u8| #[trigger]
                    came_from(flood.border, p, q, dir, max_x, max_y);
                assert(next.border[p] == flood.border[p] && next.border[q] == flood.border[q]);
                assert(came_from(next.border, p, q, dir, max_x, max_y));
            } else {
                if j == 6 {
                    assert((i + 0) % 0x1_0000_0000 == i);
                    assert(loc == i);
                }
                assert(next.border[at] == flood.border[at]);
                assert(came_from(next.border, p, at, j, max_x, max_y));
            }
        }
        let rest = steps.drop_first();
        assert(next.border[at] == flood.border[at]);
        assert forall|k: int|
            #![trigger rest[k]]
            0 <= k < rest.len() implies rest[k].0 < 7 && rest[k].1 == adjacent(
            rest[k].0 as int,
            next.border[at].0,
            max_x,
            max_y,
        ) && opens_to(next.border[at].1.adjacency, rest[k].0) by {
            assert(rest[k] == steps[k + 1]);
        }
        lemma_upon_all_linked(world, next, at, rest, max_x, max_y);
    }
}

proof fn lemma_filled_linked<A: Amount>(
    world: Map<TurfID, Probe<A>>,
    flood: Flood<A>,
    at: int,
    max_x: int,
    max_y: int,
)
    requires
        linked(flood, max_x, max_y),
        border_found(flood),
        0 <= at,
    ensures
        linked(filled(world, max_x, max_y, flood, at), max_x, max_y),
    decreases 0x1_0000_0000 - at,
{
    if at < flood.border.len() && at < 0x1_0000_0000 {
        let (i, mixture, moles) = flood.border[at];
        let next = through(world, max_x, max_y, flood, flood.border[at]);
        if mixture.planetary_atmos is None {
            let counted = Flood {
                total_moles: A::spec_total_plus(flood.total_moles, moles),
                ..flood
            };
            let steps = neighbours(mixture.adjacency, i, max_x, max_y, 0, 7);
            lemma_neighbours(mixture.adjacency, i, max_x, max_y, 0, 7);
            assert forall|k: int|
                #![trigger steps[k]]
                0 <= k < steps.len() implies steps[k].0 < 7 && steps[k].1 == adjacent(
                steps[k].0 as int,
                counted.border[at].0,
                max_x,
                max_y,
            ) && opens_to(counted.border[at].1.adjacency, steps[k].0) by {
                neighbours_lie_where_set(
                    mixture.adjacency,
                    i,
                    max_x,
                    max_y,
                    0,
                    7,
                    steps[k].0,
                );
                assert(steps.contains(steps[k]));
            }
            assert(counted.found.contains(counted.border[at].0));
            lemma_upon_all_linked(world, counted, at, steps, max_x, max_y);
            assert(border_found(counted));
            lemma_upon_all_found(world, counted, steps);
            assert(border_found(next)) by {
                let after = upon_all(world, counted, steps);
                assert(next.border == after.border && next.found == after.found);
            }
            assert(next.border == upon_all(world, counted, steps).border);
        }
        assert(linked(next, max_x, max_y)) by {
            if mixture.planetary_atmos is Some {
                assert(next.border == flood.border);
            }
        }
        lemma_filled_linked(world, next, at + 1, max_x, max_y);
    }
}

/// Coming upon turfs, the fill puts none on its border that it has not found.
proof fn lemma_upon_all_found<A: Amount>(
    world: Map<TurfID, Probe<A>>,
    flood: Flood<A>,
    steps: Seq<(u8, TurfID)>,
)
    requires
        border_found(flood),
    ensures
        border_found(upon_all(world, flood, steps)),
    decreases steps.len(),
{
    if steps.len() > 0 {
        let loc = steps[0].1;
        let next = upon(world, flood, loc);
        assert forall|p: int| 0 <= p < next.border.len() implies next.found.contains(
            (#[trigger] next.border[p]).0,
        ) by {
            if p < flood.border.len() {
                assert(next.border[p] == flood.border[p]);
            }
        }
        assert(border_found(next));
        lemma_upon_all_found(world, next, steps.drop_first());
    }
}

/// Gas can flow from turf `a` of the zone to turf `k`, in direction `dir`.
pub open spec fn spreads(
    turfs: Seq<MixWithID>,
    a: TurfID,
    dir: u8,
    k: TurfID,
    max_x: int,
    max_y: int,
) -> bool {
    &&& dir < 6
    &&& entry_of(turfs, a) matches Some(mixture) && opens_to(mixture.adjacency, dir)
    &&& k == adjacent(dir as int, a, max_x, max_y)
}

/// With every turf of the zone, `set` holds the turfs to which gas can flow from
/// there.
pub open spec fn closed_under_spread(
    set: Set<TurfID>,
    turfs: Seq<MixWithID>,
    max_x: int,
    max_y: int,
) -> bool {
    forall|a: TurfID, dir: u8, k: TurfID|
        set.contains(a) && #[trigger] spreads(turfs, a, dir, k, max_x, max_y) ==> set.contains(k)
}

proof fn lemma_spread<A: Amount>(
    flood: Flood<A>,
    max_x: int,
    max_y: int,
    set: Set<TurfID>,
    p: int,
)
    requires
        linked(flood, max_x, max_y),
        flood.turfs == part(flood.border, false),
        forall|p: int, q: int|
            0 <= p < q < flood.border.len() ==> (#[trigger] flood.border[p]).0 != (
            #[trigger] flood.border[q]).0,
        0 <= p < flood.border.len(),
        set.contains(flood.border[0].0),
        closed_under_spread(set, flood.turfs, max_x, max_y),
    ensures
        set.contains(flood.border[p].0),
        p > 0 ==> exists|a: TurfID, dir: u8| #[trigger]
            spreads(flood.turfs, a, dir, flood.border[p].0, max_x, max_y),
    decreases p,
{
    let border = flood.border;
    let turfs = flood.turfs;
    if p > 0 {
        assert(border[p].1.simulated);
        let (q, dir) = choose|q: int, dir: u8| #[trigger]
            came_from(border, p, q, dir, max_x, max_y);
        lemma_spread(flood, max_x, max_y, set, q);
        let a = border[q].0;
        lemma_part(border, false);
        assert(holds(turfs, a));
        let at = place(turfs, a);
        let r = choose|r: int|
            0 <= r < border.len() && (#[trigger] border[r]).0 == part(border, false)[at].0
                && border[r].1 == part(border, false)[at].1 && (border[r].1.planetary_atmos is Some)
                == false;
        assert(r == q) by {
            assert(border[r].0 == border[q].0);
        }
        assert(spreads(turfs, a, dir, border[p].0, max_x, max_y));
    }
}

/// A fill spreads step by step. Each turf of the zone, and each of its planet
/// turfs, takes part in the simulation and lies where gas can flow from a turf of
/// the zone, but for the turf that the fill began at; and from there such steps
/// lead to all of them.
pub proof fn fill_spreads_step_by_step<A: Amount>(
    i: TurfID,
    m: TurfMixture,
    moles: A,
    world: Map<TurfID, Probe<A>>,
    max_x: int,
    max_y: int,
    found: Set<TurfID>,
)
    ensures
        ({
            let zone = flooded(i, m, moles, world, max_x, max_y, found);
            &&& forall|k: TurfID| #[trigger]
                in_zone(zone, k) && k != i ==> joins(world, k) && exists|a: TurfID, dir: u8|
                    #[trigger] spreads(zone.turfs, a, dir, k, max_x, max_y)
            &&& forall|k: TurfID, set: Set<TurfID>|
                #![trigger in_zone(zone, k), set.contains(k)]
                in_zone(zone, k) && set.contains(i) && closed_under_spread(
                    set,
                    zone.turfs,
                    max_x,
                    max_y,
                ) ==> set.contains(k)
        }),
{
    let first = flood_from(i, m, moles, found);
    let zone = flooded(i, m, moles, world, max_x, max_y, found);
    let border = zone.border;
    fill_sorts_its_turfs(i, m, moles, world, max_x, max_y, found);
    lemma_flooded(i, m, moles, world, max_x, max_y, found);
    lemma_filled_linked(world, first, 0, max_x, max_y);
    lemma_part(border, false);
    lemma_part(border, true);
    assert forall|k: TurfID| #[trigger] in_zone(zone, k) implies exists|p: int|
        0 <= p < border.len() && (#[trigger] border[p]).0 == k by {
        if holds(zone.turfs, k) {
            let at = place(zone.turfs, k);
            assert(part(border, false)[at].0 == k);
        } else {
            let at = place(zone.planet_turfs, k);
            assert(part(border, true)[at].0 == k);
        }
    }
    assert forall|k: TurfID| #[trigger] in_zone(zone, k) && k != i implies joins(world, k)
        && exists|a: TurfID, dir: u8| #[trigger]
        spreads(zone.turfs, a, dir, k, max_x, max_y) by {
        let p = choose|p: int| 0 <= p < border.len() && (#[trigger] border[p]).0 == k;
        assert(p != 0);
        assert(border[p].1.simulated);
        lemma_spread(zone, max_x, max_y, Set::full(), p);
    }
    assert forall|k: TurfID, set: Set<TurfID>|
        #![trigger in_zone(zone, k), set.contains(k)]
        in_zone(zone, k) && set.contains(i) && closed_under_spread(
            set,
            zone.turfs,
            max_x,
            max_y,
        ) implies set.contains(k) by {
        let p = choose|p: int| 0 <= p < border.len() && (#[trigger] border[p]).0 == k;
        lemma_spread(zone, max_x, max_y, set, p);
    }
}

/// One step reaches a neighbour.
proof fn lemma_step_reaches<A: Amount>(
    turfs: Seq<MixWithID>,
    info: Map<TurfID, Ledger<A>>,
    max_x: int,
    max_y: int,
    i: TurfID,
    mixture: TurfMixture,
    dir: u8,
)
    requires
        entry_of(turfs, i) == Some(mixture),
        dir < 6,
        opens_to(mixture.adjacency, dir),
        passable(turfs, info, adjacent(dir as int, i, max_x, max_y)),
    ensures
        within_reach(turfs, info, max_x, max_y, i, adjacent(dir as int, i, max_x, max_y)),
{
    let loc = adjacent(dir as int, i, max_x, max_y);
    let steps = neighbours(mixture.adjacency, i, max_x, max_y, 0, 6);
    neighbours_lie_where_set(mixture.adjacency, i, max_x, max_y, 0, 6, dir);
    let k = choose|k: int| 0 <= k < steps.len() && steps[k] == (dir, loc);
    assert forall|set: Set<TurfID>|
        set.contains(i) && #[trigger] closed_under_steps(
            set,
            turfs,
            info,
            max_x,
            max_y,
        ) implies set.contains(loc) by {
        assert(neighbours((entry_of(turfs, i)->0).adjacency, i, max_x, max_y, 0, 6)[k].1 == loc);
    }
}

/// Reach is transitive.
proof fn lemma_reach_on<A: Amount>(
    turfs: Seq<MixWithID>,
    info: Map<TurfID, Ledger<A>>,
    max_x: int,
    max_y: int,
    a: TurfID,
    b: TurfID,
    c: TurfID,
)
    requires
        within_reach(turfs, info, max_x, max_y, a, b),
        within_reach(turfs, info, max_x, max_y, b, c),
    ensures
        within_reach(turfs, info, max_x, max_y, a, c),
{
}

/// A turf of the border that belongs to no planet can be reached from the first
/// one, and the first one from it.
proof fn lemma_both_ways<A: Amount>(
    world: Map<TurfID, Probe<A>>,
    flood: Flood<A>,
    info: Map<TurfID, Ledger<A>>,
    max_x: int,
    max_y: int,
    p: int,
)
    requires
        two_way(world, max_x, max_y),
        linked(flood, max_x, max_y),
        0 <= p < flood.border.len(),
        forall|q: int|
            0 <= q < flood.border.len() && (#[trigger] flood.border[q]).1.planetary_atmos is None
                ==> {
                let (i, mixture, moles) = flood.border[q];
                &&& entry_of(flood.turfs, i) == Some(mixture)
                &&& passable(flood.turfs, info, i)
                &&& world.contains_key(i) && world[i] is Turf && world[i]->Turf_0.mixture
                    == mixture
            },
        flood.border[p].1.planetary_atmos is None,
        flood.border[0].1.planetary_atmos is None,
    ensures
        within_reach(flood.turfs, info, max_x, max_y, flood.border[0].0, flood.border[p].0),
        within_reach(flood.turfs, info, max_x, max_y, flood.border[p].0, flood.border[0].0),
    decreases p,
{
    let turfs = flood.turfs;
    let border = flood.border;
    if p > 0 {
        assert(border[p].1.simulated);
        let (q, dir) = choose|q: int, dir: u8| #[trigger]
            came_from(border, p, q, dir, max_x, max_y);
        lemma_both_ways(world, flood, info, max_x, max_y, q);
        let a = border[q].0;
        let b = border[p].0;
        assert(opens_to(world[a]->Turf_0.mixture.adjacency, dir));
        lemma_step_reaches(turfs, info, max_x, max_y, a, border[q].1, dir);
        opposite_step_returns(dir as int, a, max_x, max_y);
        let back = opposite(dir as int) as u8;
        assert(opens_to(border[p].1.adjacency, back));
        lemma_step_reaches(turfs, info, max_x, max_y, b, border[p].1, back);
        lemma_reach_on(turfs, info, max_x, max_y, border[0].0, a, b);
        lemma_reach_on(turfs, info, max_x, max_y, b, a, border[0].0);
    }
}

/// In the zone that a fill finds, every turf can be reached from every other,
/// if gas can flow back wherever it can flow.
pub proof fn found_zones_are_joined<A: Amount>(
    i: TurfID,
    m: TurfMixture,
    moles: A,
    world: Map<TurfID, Probe<A>>,
    max_x: int,
    max_y: int,
    found: Set<TurfID>,
    average: A,
)
    requires
        read_as(world, i, m, moles),
        m.simulated,
        !found.contains(i),
        two_way(world, max_x, max_y),
    ensures
        ({
            let turfs = flooded(i, m, moles, world, max_x, max_y, found).turfs;
            let info = opened(world, turfs, average);
            zone_ok(turfs, info) && joined(turfs, info, max_x, max_y)
        }),
{
    let first = flood_from(i, m, moles, found);
    let end = flooded(i, m, moles, world, max_x, max_y, found);
    let turfs = end.turfs;
    let border = end.border;
    let info = opened(world, turfs, average);
    fill_sorts_its_turfs(i, m, moles, world, max_x, max_y, found);
    lemma_flooded(i, m, moles, world, max_x, max_y, found);
    lemma_filled_linked(world, first, 0, max_x, max_y);
    lemma_part(border, false);
    assert(turfs == part(border, false));
    assert(zone_ok(turfs, info)) by {
        assert forall|p: int| 0 <= p < turfs.len() implies info.contains_key(
            (#[trigger] turfs[p]).0,
        ) by {
            assert(holds(turfs, turfs[p].0));
        }
    }
    assert forall|q: int|
        0 <= q < border.len() && (#[trigger] border[q]).1.planetary_atmos is None implies ({
        let (k, mixture, amount) = border[q];
        &&& entry_of(turfs, k) == Some(mixture)
        &&& passable(turfs, info, k)
        &&& world.contains_key(k) && world[k] is Turf && world[k]->Turf_0.mixture == mixture
    }) by {
        let k = border[q].0;
        assert(holds(turfs, k));
        let p = place(turfs, k);
        assert(turfs[p].1 == world[turfs[p].0]->Turf_0.mixture);
        assert(q > 0 ==> border[q].1.simulated);
        assert(q == 0 ==> border[q].0 == i);
    }
    assert forall|a: TurfID, b: TurfID|
        info.contains_key(a) && info.contains_key(b) implies #[trigger] within_reach(
        turfs,
        info,
        max_x,
        max_y,
        a,
        b,
    ) by {
        let p = lemma_on_border(border, turfs, a);
        let q = lemma_on_border(border, turfs, b);
        lemma_first_joins(end, max_x, max_y, p);
        lemma_both_ways(world, end, info, max_x, max_y, p);
        lemma_both_ways(world, end, info, max_x, max_y, q);
        lemma_reach_on(turfs, info, max_x, max_y, a, border[0].0, b);
    }
}

/// Where on the border a turf of the zone stands.
proof fn lemma_on_border<A: Amount>(
    border: Seq<(TurfID, TurfMixture, A)>,
    turfs: Seq<MixWithID>,
    a: TurfID,
) -> (p: int)
    requires
        forall|p: int, q: int|
            0 <= p < q < border.len() ==> (#[trigger] border[p]).0 != (#[trigger] border[q]).0,
        turfs == part(border, false),
        holds(turfs, a),
    ensures
        0 <= p < border.len(),
        border[p].0 == a,
        border[p].1.planetary_atmos is None,
{
    lemma_part(border, false);
    let k = place(turfs, a);
    assert(part(border, false)[k].0 == a);
    choose|p: int|
        0 <= p < border.len() && (#[trigger] border[p]).0 == part(border, false)[k].0 && border[p].1
            == part(border, false)[k].1 && (border[p].1.planetary_atmos is Some) == false
}

/// If any turf of the border belongs to no planet, the first one does not either:
/// the fill goes on from no turf of a planet.
proof fn lemma_first_joins<A: Amount>(flood: Flood<A>, max_x: int, max_y: int, p: int)
    requires
        linked(flood, max_x, max_y),
        0 <= p < flood.border.len(),
        flood.border[p].1.planetary_atmos is None,
    ensures
        flood.border[0].1.planetary_atmos is None,
    decreases p,
{
    if p > 0 {
        assert(flood.border[p].1.simulated);
        let (q, dir) = choose|q: int, dir: u8| #[trigger]
            came_from(flood.border, p, q, dir, max_x, max_y);
        lemma_first_joins(flood, max_x, max_y, q);
    }
}

/// A zone that a fill finds is evened out as far as its gas goes, if gas can
/// flow back wherever it can flow: there are not both turfs above and turfs
/// below the average at the end. If, in all, its turfs are neither above nor
/// below it, then every single turf ends up with exactly the average.
pub proof fn found_zones_are_evened_out(
    i: TurfID,
    m: TurfMixture,
    moles: Quanta,
    world: Map<TurfID, Probe<Quanta>>,
    max_x: int,
    max_y: int,
    found: Set<TurfID>,
    average: Quanta,
    planets: Map<u32, Quanta>,
    limit: int,
)
    requires
        read_as(world, i, m, moles),
        m.simulated,
        !found.contains(i),
        two_way(world, max_x, max_y),
        ({
            let turfs = flooded(i, m, moles, world, max_x, max_y, found).turfs;
            roomy(turfs, opened(world, turfs, average))
        }),
    ensures
        ({
            let zone = flooded(i, m, moles, world, max_x, max_y, found);
            let info = opened(world, zone.turfs, average);
            let books = zone_books(
                zone.turfs,
                zone.planet_turfs,
                average,
                world,
                planets,
                max_x,
                max_y,
                limit,
            ).0;
            &&& {
                ||| forall|k: TurfID| #[trigger] holds(zone.turfs, k) ==> above(books, k) >= 0
                ||| forall|k: TurfID| #[trigger] holds(zone.turfs, k) ==> above(books, k) <= 0
            }
            &&& all_above(zone.turfs, info, zone.turfs.len() as int) == 0 ==> forall|k: TurfID|
             #[trigger]
                holds(zone.turfs, k) ==> above(books, k) == 0
        }),
{
    let zone = flooded(i, m, moles, world, max_x, max_y, found);
    let turfs = zone.turfs;
    let info = opened(world, turfs, average);
    found_zones_are_joined(i, m, moles, world, max_x, max_y, found, average);
    zones_are_evened_out(turfs, max_x, max_y, info);
    let level = balanced(turfs, max_x, max_y, info);
    assert forall|k: TurfID| #[trigger] level.contains_key(k) == holds(turfs, k) by {
        assert(level.contains_key(k) == info.contains_key(k));
    }
    fill_sorts_its_turfs(i, m, moles, world, max_x, max_y, found);
    let books = zone_books(
        turfs,
        zone.planet_turfs,
        average,
        world,
        planets,
        max_x,
        max_y,
        limit,
    ).0;
    if zone.planet_turfs.len() > 0 && planet_sum(zone.planet_turfs, planets) is Some {
        planets_outside_take_nothing(
            zone.planet_turfs,
            turfs,
            max_x,
            max_y,
            limit,
            level,
            planet_sum(zone.planet_turfs, planets)->0.spec_minus(average),
        );
    }
    assert forall|k: TurfID| #[trigger] holds(turfs, k) implies above(books, k) == above(
        level,
        k,
    ) by {
        assert(level.contains_key(k));
    }
    if forall|k: TurfID| #[trigger] level.contains_key(k) ==> above(level, k) >= 0 {
        assert forall|k: TurfID| #[trigger] holds(turfs, k) implies above(books, k) >= 0 by {
            assert(level.contains_key(k));
        }
    } else {
        assert forall|k: TurfID| #[trigger] holds(turfs, k) implies above(books, k) <= 0 by {
            assert(level.contains_key(k));
        }
    }
    if all_above(turfs, info, turfs.len() as int) == 0 {
        assert forall|k: TurfID| #[trigger] holds(turfs, k) implies above(books, k) == 0 by {
            assert(level.contains_key(k));
        }
    }
}

/// The same holds of any exact amounts with an order that addition keeps: a zone
/// that a fill finds is evened out as far as its gas goes, and ends up with
/// exactly the average everywhere if its turfs, in all, are neither above nor
/// below it.
pub proof fn all_found_zones_are_evened_out<A: Amount>(
    i: TurfID,
    m: TurfMixture,
    moles: A,
    world: Map<TurfID, Probe<A>>,
    max_x: int,
    max_y: int,
    found: Set<TurfID>,
    average: A,
    planets: Map<u32, A>,
    limit: int,
)
    requires
        ordered::<A>(),
        read_as(world, i, m, moles),
        m.simulated,
        !found.contains(i),
        two_way(world, max_x, max_y),
    ensures
        ({
            let zone = flooded(i, m, moles, world, max_x, max_y, found);
            let info = opened(world, zone.turfs, average);
            let books = zone_books(
                zone.turfs,
                zone.planet_turfs,
                average,
                world,
                planets,
                max_x,
                max_y,
                limit,
            ).0;
            &&& {
                ||| forall|k: TurfID| #[trigger]
                    holds(zone.turfs, k) ==> on_side(true, books[k].mole_delta)
                ||| forall|k: TurfID| #[trigger]
                    holds(zone.turfs, k) ==> on_side(false, books[k].mole_delta)
            }
            &&& whole_delta(info) == A::spec_zero() ==> forall|k: TurfID| #[trigger]
                holds(zone.turfs, k) ==> books[k].mole_delta == A::spec_zero()
        }),
{
    let zone = flooded(i, m, moles, world, max_x, max_y, found);
    let turfs = zone.turfs;
    let info = opened(world, turfs, average);
    found_zones_are_joined(i, m, moles, world, max_x, max_y, found, average);
    lemma_opened(world, turfs, average, max_x, max_y);
    crate::laws::ordered::zones_are_evened_out(turfs, max_x, max_y, info);
    let level = balanced(turfs, max_x, max_y, info);
    assert forall|k: TurfID| #[trigger] level.contains_key(k) == holds(turfs, k) by {
        assert(level.contains_key(k) == info.contains_key(k));
    }
    fill_sorts_its_turfs(i, m, moles, world, max_x, max_y, found);
    let books = zone_books(
        turfs,
        zone.planet_turfs,
        average,
        world,
        planets,
        max_x,
        max_y,
        limit,
    ).0;
    if zone.planet_turfs.len() > 0 && planet_sum(zone.planet_turfs, planets) is Some {
        planets_outside_take_nothing(
            zone.planet_turfs,
            turfs,
            max_x,
            max_y,
            limit,
            level,
            planet_sum(zone.planet_turfs, planets)->0.spec_minus(average),
        );
    }
    let up = one_sided(level, true);
    assert forall|k: TurfID| #[trigger] holds(turfs, k) implies on_side(up, books[k].mole_delta)
        && books[k].mole_delta == level[k].mole_delta by {
        assert(level.contains_key(k));
    }
    assert forall|k: TurfID| #[trigger] holds(turfs, k) && whole_delta(info)
        == A::spec_zero() implies books[k].mole_delta == A::spec_zero() by {
        assert(level.contains_key(k));
    }
}

} // verus!
