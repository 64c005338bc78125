//! Where the air of a zone that is open to space goes.
use vstd::prelude::*;
use crate::amount::{exact, Amount};
use crate::balance::{lemma_group, lemma_plus_first, lemma_second};
use crate::depressurize::{
    all_let_out, hunt_from, hunt_on, hunt_through, hunted, laden, let_out, space_left, spread_from,
    spread_on, spread_step, spread_steps, SpaceCall, SpaceHunt, Spread,
};
use crate::flood::TurfReading;
use crate::grid::{
    adjacent, lemma_neighbours, neighbours, opposite, opposite_step_returns, TurfID,
};
use crate::info::ReducedInfo;
use crate::tables::{lemma_distinct_len, reduced_of};

verus! {

/// The turf exists, belongs to no planet, and its air can never change.
pub open spec fn is_space<A: Amount>(world: Map<TurfID, TurfReading<A>>, i: TurfID) -> bool {
    world.contains_key(i) && world[i].mixture.planetary_atmos is None && world[i].immutable
}

/// The turf exists and belongs to a planet.
pub open spec fn on_planet<A: Amount>(world: Map<TurfID, TurfReading<A>>, i: TurfID) -> bool {
    world.contains_key(i) && world[i].mixture.planetary_atmos is Some
}

/// What holds of the search for space, once it has gone through `at` turfs.
spec fn hunt_ok<A: Amount>(world: Map<TurfID, TurfReading<A>>, hunt: SpaceHunt, at: int) -> bool {
    &&& 0 <= at <= hunt.turfs.len()
    &&& hunt.turfs.no_duplicates()
    &&& hunt.space.no_duplicates()
    &&& forall|p: int| 1 <= p < hunt.turfs.len() ==> world.contains_key(#[trigger] hunt.turfs[p])
    &&& forall|i: TurfID| #[trigger]
        hunt.space.contains(i) <==> is_space(world, i) && hunt.turfs.take(at).contains(i)
    &&& forall|i: TurfID|
        hunt.space.contains(i) <==> #[trigger] hunt.calls.contains(SpaceCall::OwnTarget(i))
    &&& hunt.planet <==> planet_met(world, hunt.turfs, at)
    &&& hunt.given_up ==> hunt.planet
}

/// A turf of a planet is among the first `at` turfs of `turfs`.
spec fn planet_met<A: Amount>(
    world: Map<TurfID, TurfReading<A>>,
    turfs: Seq<TurfID>,
    at: int,
) -> bool {
    exists|p: int| 0 <= p < at && #[trigger] on_planet(world, turfs[p])
}

proof fn lemma_planets_met<A: Amount>(
    world: Map<TurfID, TurfReading<A>>,
    a: Seq<TurfID>,
    b: Seq<TurfID>,
    at: int,
)
    requires
        at <= a.len(),
        a.is_prefix_of(b),
    ensures
        planet_met(world, a, at) == planet_met(world, b, at),
{
    if planet_met(world, a, at) {
        let p = choose|p: int| 0 <= p < at && #[trigger] on_planet(world, a[p]);
        assert(b[p] == a[p]);
    }
    if planet_met(world, b, at) {
        let p = choose|p: int| 0 <= p < at && #[trigger] on_planet(world, b[p]);
        assert(b[p] == a[p]);
    }
}

proof fn lemma_hunt_on<A: Amount>(
    world: Map<TurfID, TurfReading<A>>,
    hunt: SpaceHunt,
    i: TurfID,
    steps: Seq<(u8, TurfID)>,
    at: int,
)
    requires
        hunt_ok(world, hunt, at),
        hunt.turfs.len() > 0,
    ensures
        hunt_ok(world, hunt_on(world, hunt, i, steps), at),
        hunt.turfs.is_prefix_of(hunt_on(world, hunt, i, steps).turfs),
    decreases steps.len(),
{
    if steps.len() > 0 {
        let loc = steps[0].1;
        let rest = steps.drop_first();
        if world.contains_key(loc) && !hunt.turfs.contains(loc) {
            let next = SpaceHunt {
                turfs: hunt.turfs.push(loc),
                calls: hunt.calls.push(SpaceCall::Firelocks(i, loc)),
                ..hunt
            };
            assert(next.turfs.take(at) =~= hunt.turfs.take(at));
            assert(hunt_ok(world, next, at)) by {
                lemma_planets_met(world, hunt.turfs, next.turfs, at);
                assert forall|k: TurfID|
                    next.space.contains(k) <==> #[trigger] next.calls.contains(
                        SpaceCall::OwnTarget(k),
                    ) by {
                    let call = SpaceCall::OwnTarget(k);
                    if hunt.calls.contains(call) {
                        let p = choose|p: int| 0 <= p < hunt.calls.len() && hunt.calls[p] == call;
                        assert(next.calls[p] == call);
                    }
                    if next.calls.contains(call) {
                        let p = choose|p: int| 0 <= p < next.calls.len() && next.calls[p] == call;
                        assert(hunt.calls[p] == call);
                    }
                    assert(hunt.space.contains(k) <==> hunt.calls.contains(call));
                }
                assert forall|k: TurfID| #[trigger]
                    next.space.contains(k) <==> is_space(world, k) && next.turfs.take(
                        at,
                    ).contains(k) by {
                    assert(hunt.space.contains(k) <==> is_space(world, k) && hunt.turfs.take(
                        at,
                    ).contains(k));
                }
            }
            lemma_hunt_on(world, next, i, rest, at);
        } else {
            lemma_hunt_on(world, hunt, i, rest, at);
        }
    }
}

proof fn lemma_hunt_through<A: Amount>(
    world: Map<TurfID, TurfReading<A>>,
    max_x: int,
    max_y: int,
    limit: int,
    hunt: SpaceHunt,
    at: int,
)
    requires
        hunt_ok(world, hunt, at),
        at < hunt.turfs.len(),
    ensures
        hunt_ok(
            world,
            hunt_through(world, max_x, max_y, limit, hunt, hunt.turfs[at], at + 1),
            at + 1,
        ),
{
    let i = hunt.turfs[at];
    let next = hunt_through(world, max_x, max_y, limit, hunt, i, at + 1);
    if world.contains_key(i) && world[i].mixture.planetary_atmos is None && !world[i].immutable
        && at + 1 <= limit {
        lemma_hunt_on(
            world,
            hunt,
            i,
            neighbours(world[i].mixture.adjacency, i, max_x, max_y, 0, 7),
            at,
        );
    }
    assert(hunt.turfs.is_prefix_of(next.turfs));
    assert(next.turfs[at] == i);
    lemma_planets_met(world, hunt.turfs, next.turfs, at);
    assert(planet_met(world, next.turfs, at + 1) == (planet_met(world, next.turfs, at)
        || on_planet(world, i))) by {
        if planet_met(world, next.turfs, at + 1) {
            let p = choose|p: int| 0 <= p < at + 1 && #[trigger] on_planet(world, next.turfs[p]);
            assert(p < at || next.turfs[p] == i);
        }
        if planet_met(world, next.turfs, at) {
            let p = choose|p: int| 0 <= p < at && #[trigger] on_planet(world, next.turfs[p]);
            assert(on_planet(world, next.turfs[p]));
        }
        if on_planet(world, i) {
            assert(on_planet(world, next.turfs[at]));
        }
    }
    assert(next.turfs.take(at) =~= hunt.turfs.take(at));
    let before = hunt.turfs.take(at);
    let upto = next.turfs.take(at + 1);
    assert(upto =~= before.push(i));
    assert(!before.contains(i)) by {
        if before.contains(i) {
            let p = choose|p: int| 0 <= p < before.len() && before[p] == i;
            assert(hunt.turfs[p] == hunt.turfs[at]);
        }
    }
    assert forall|k: TurfID| #[trigger] upto.contains(k) == (before.contains(k) || k == i) by {
        assert(upto[at] == i);
        if before.contains(k) {
            let p = choose|p: int| 0 <= p < before.len() && before[p] == k;
            assert(upto[p] == k);
        }
        if upto.contains(k) && k != i {
            let p = choose|p: int| 0 <= p < upto.len() && upto[p] == k;
            assert(before[p] == k);
        }
    }
    assert(!hunt.space.contains(i));
    if is_space(world, i) {
        assert(next.space == hunt.space.push(i));
        assert forall|k: TurfID| #[trigger] next.space.contains(k) == (hunt.space.contains(k) || k
            == i) by {
            assert(next.space[hunt.space.len() as int] == i);
            if hunt.space.contains(k) {
                let p = choose|p: int| 0 <= p < hunt.space.len() && hunt.space[p] == k;
                assert(next.space[p] == k);
            }
        }
        assert forall|k: TurfID|
            next.space.contains(k) <==> #[trigger] next.calls.contains(
                SpaceCall::OwnTarget(k),
            ) by {
            let call = SpaceCall::OwnTarget(k);
            assert(hunt.space.contains(k) <==> hunt.calls.contains(call));
            assert(next.calls[hunt.calls.len() as int] == SpaceCall::OwnTarget(i));
            if hunt.calls.contains(call) {
                let p = choose|p: int| 0 <= p < hunt.calls.len() && hunt.calls[p] == call;
                assert(next.calls[p] == call);
            }
            if next.calls.contains(call) && k != i {
                let p = choose|p: int| 0 <= p < next.calls.len() && next.calls[p] == call;
                assert(hunt.calls[p] == call);
            }
        }
    }
}

proof fn lemma_hunted<A: Amount>(
    world: Map<TurfID, TurfReading<A>>,
    max_x: int,
    max_y: int,
    limit: int,
    hunt: SpaceHunt,
    at: int,
)
    requires
        hunt_ok(world, hunt, at),
    ensures
        ({
            let end = hunted(world, max_x, max_y, limit, hunt, at);
            &&& exists|n: int| #[trigger] hunt_ok(world, end, n)
            &&& !end.given_up ==> hunt_ok(world, end, end.turfs.len() as int)
        }),
    decreases 0x1_0000_0000 - at,
{
    lemma_distinct_len(hunt.turfs);
    if at < hunt.turfs.len() && !hunt.given_up {
        lemma_hunt_through(world, max_x, max_y, limit, hunt, at);
        lemma_hunted(
            world,
            max_x,
            max_y,
            limit,
            hunt_through(world, max_x, max_y, limit, hunt, hunt.turfs[at], at + 1),
            at + 1,
        );
    }
}

/// The search for space finds turfs of space only, each once, and exactly
/// those are made their own target. Unless it has come upon a turf of a planet,
/// it finds all of the turfs of space that it has come upon.
pub proof fn hunt_finds_space<A: Amount>(
    world: Map<TurfID, TurfReading<A>>,
    max_x: int,
    max_y: int,
    limit: int,
    turf_idx: TurfID,
)
    ensures
        ({
            let end = hunted(world, max_x, max_y, limit, hunt_from(turf_idx), 0);
            &&& end.space.no_duplicates()
            &&& forall|i: TurfID| #[trigger]
                end.space.contains(i) ==> is_space(world, i) && end.turfs.contains(i)
            &&& forall|i: TurfID|
                end.space.contains(i) <==> #[trigger] end.calls.contains(SpaceCall::OwnTarget(i))
            &&& !end.planet ==> forall|i: TurfID| #[trigger]
                end.turfs.contains(i) && is_space(world, i) ==> end.space.contains(i)
        }),
{
    let first = hunt_from(turf_idx);
    lemma_hunt_begins(world, turf_idx);
    lemma_hunted(world, max_x, max_y, limit, first, 0);
    let end = hunted(world, max_x, max_y, limit, first, 0);
    let n = choose|n: int| #[trigger] hunt_ok(world, end, n);
    assert forall|i: TurfID| #[trigger] end.space.contains(i) implies is_space(world, i)
        && end.turfs.contains(i) by {
        let upto = end.turfs.take(n);
        let p = choose|p: int| 0 <= p < upto.len() && upto[p] == i;
        assert(end.turfs[p] == i);
    }
    if !end.given_up {
        assert(end.turfs.take(end.turfs.len() as int) =~= end.turfs);
    }
}

/// A planet goes before space: the search tells that nothing is to be done if
/// and only if it has come upon a turf of a planet.
pub proof fn planets_go_before_space<A: Amount>(
    world: Map<TurfID, TurfReading<A>>,
    max_x: int,
    max_y: int,
    limit: int,
    turf_idx: TurfID,
)
    ensures
        ({
            let end = hunted(world, max_x, max_y, limit, hunt_from(turf_idx), 0);
            end.planet <==> exists|i: TurfID| #[trigger]
                end.turfs.contains(i) && world.contains_key(i)
                    && world[i].mixture.planetary_atmos is Some
        }),
{
    let first = hunt_from(turf_idx);
    lemma_hunt_begins(world, turf_idx);
    lemma_hunted(world, max_x, max_y, limit, first, 0);
    let end = hunted(world, max_x, max_y, limit, first, 0);
    let n = choose|n: int| #[trigger] hunt_ok(world, end, n);
    if end.planet {
        let p = choose|p: int| 0 <= p < n && #[trigger] on_planet(world, end.turfs[p]);
        assert(end.turfs.contains(end.turfs[p]));
    } else if exists|i: TurfID| #[trigger] end.turfs.contains(i) && on_planet(world, i) {
        let i = choose|i: TurfID| #[trigger] end.turfs.contains(i) && on_planet(world, i);
        let p = choose|p: int| 0 <= p < end.turfs.len() && end.turfs[p] == i;
        assert(hunt_ok(world, end, end.turfs.len() as int));
        assert(on_planet(world, end.turfs[p]));
    }
}

proof fn lemma_hunt_begins<A: Amount>(world: Map<TurfID, TurfReading<A>>, turf_idx: TurfID)
    ensures
        hunt_ok(world, hunt_from(turf_idx), 0),
{
    let first = hunt_from(turf_idx);
    assert(first.turfs.take(0) =~= Seq::empty());
    assert forall|i: TurfID| !#[trigger] first.calls.contains(SpaceCall::OwnTarget(i)) by {}
}

/// No turf occurs twice.
pub open spec fn distinct_turfs(order: Seq<(TurfID, u8)>) -> bool {
    forall|p: int, q: int|
        0 <= p < q < order.len() ==> (#[trigger] order[p]).0 != (#[trigger] order[q]).0
}

/// The air of the turf at `p` goes to a turf that was reached before it.
pub open spec fn leads_back<A: Amount>(
    order: Seq<(TurfID, u8)>,
    info: Map<TurfID, ReducedInfo<A>>,
    p: int,
    max_x: int,
    max_y: int,
) -> bool {
    let i = order[p].0;
    let dir = reduced_of(info, i).curr_transfer_dir;
    &&& dir < 6
    &&& exists|q: int|
        0 <= q < p && (#[trigger] order[q]).0 == adjacent(dir as int, i, max_x, max_y)
}

/// Of the turfs of `order`, the first `n` are the ends of all ways, and the air
/// of every other one goes to a turf that was reached before it.
pub open spec fn ways_out<A: Amount>(
    order: Seq<(TurfID, u8)>,
    info: Map<TurfID, ReducedInfo<A>>,
    n: int,
    max_x: int,
    max_y: int,
) -> bool {
    &&& 0 <= n <= order.len()
    &&& distinct_turfs(order)
    &&& forall|p: int|
        0 <= p < n ==> reduced_of(info, (#[trigger] order[p]).0).curr_transfer_dir == 6
    &&& forall|p: int|
        n <= p < order.len() ==> #[trigger] leads_back(order, info, p, max_x, max_y)
}

/// What holds of the way inwards all the while.
pub open spec fn spread_ok<A: Amount>(
    world: Map<TurfID, TurfReading<A>>,
    spread: Spread<A>,
    n: int,
    max_x: int,
    max_y: int,
) -> bool {
    let order = spread.order;
    &&& ways_out(order, spread.info, n, max_x, max_y)
    &&& forall|p: int|
        0 <= p < order.len() ==> world.contains_key((#[trigger] order[p]).0) && order[p].1
            == world[order[p].0].mixture.adjacency
    &&& forall|i: TurfID|
        (#[trigger] reduced_of(spread.info, i)).curr_transfer_amount == A::spec_zero()
    &&& spread.targets.len() == order.len() - n
    &&& forall|k: int|
        #![trigger spread.targets[k]]
        0 <= k < spread.targets.len() ==> {
            let loc = order[n + k].0;
            spread.targets[k] == (
                adjacent(
                    reduced_of(spread.info, loc).curr_transfer_dir as int,
                    loc,
                    max_x,
                    max_y,
                ),
                loc,
            )
        }
}

#[verifier::rlimit(40)]
pub proof fn lemma_spread_step<A: Amount>(
    world: Map<TurfID, TurfReading<A>>,
    spread: Spread<A>,
    n: int,
    at: int,
    step: (u8, TurfID),
    max_x: int,
    max_y: int,
)
    requires
        spread_ok(world, spread, n, max_x, max_y),
        0 <= at < spread.order.len(),
        step.0 < 7,
        step.1 == adjacent(step.0 as int, spread.order[at].0, max_x, max_y),
    ensures
        ({
            let next = spread_step(world, spread, spread.order[at].0, step);
            &&& spread_ok(world, next, n, max_x, max_y)
            &&& spread.order.is_prefix_of(next.order)
        }),
{
    let (j, loc) = step;
    let i = spread.order[at].0;
    let next = spread_step(world, spread, i, step);
    let order = spread.order;
    assert forall|k: TurfID|
        (#[trigger] reduced_of(next.info, k)).curr_transfer_amount == A::spec_zero() by {
        assert(reduced_of(spread.info, k).curr_transfer_amount == A::spec_zero());
    }
    if world.contains_key(loc) {
        let turf = (loc, world[loc].mixture.adjacency);
        if world[loc].immutable || order.contains(turf) {
            assert forall|k: TurfID| #[trigger] reduced_of(next.info, k) == reduced_of(
                spread.info,
                k,
            ) by {}
            assert forall|p: int| n <= p < order.len() implies #[trigger] leads_back(
                order,
                next.info,
                p,
                max_x,
                max_y,
            ) by {
                assert(leads_back(order, spread.info, p, max_x, max_y));
            }
        } else {
            // the turf itself is on the way already
            assert forall|p: int| 0 <= p < order.len() implies (#[trigger] order[p]).0 != loc by {
                if order[p].0 == loc {
                    assert(order[p] == turf);
                }
            }
            if j == 6 {
                assert(loc == i) by {
                    assert((i + 0) % 0x1_0000_0000 == i);
                }
                assert(order[at].0 != loc);
            }
            assert(j < 6);
            opposite_step_returns(j as int, i, max_x, max_y);
            assert forall|p: int| 0 <= p < order.len() implies (#[trigger] next.order[p])
                == order[p] && reduced_of(next.info, order[p].0) == reduced_of(
                spread.info,
                order[p].0,
            ) by {
                assert(order[p].0 != loc);
            }
            let last = order.len() as int;
            assert(next.order[last] == turf);
            assert(reduced_of(next.info, loc).curr_transfer_dir == opposite(j as int));
            assert forall|p: int| n <= p < next.order.len() implies #[trigger] leads_back(
                next.order,
                next.info,
                p,
                max_x,
                max_y,
            ) by {
                if p < last {
                    assert(leads_back(order, spread.info, p, max_x, max_y));
                    let k = order[p].0;
                    assert(next.order[p] == order[p]);
                    let q = choose|q: int|
                        0 <= q < p && (#[trigger] order[q]).0 == adjacent(
                            reduced_of(spread.info, k).curr_transfer_dir as int,
                            k,
                            max_x,
                            max_y,
                        );
                    assert(next.order[q] == order[q]);
                } else {
                    assert(next.order[at] == order[at]);
                }
            }
            assert forall|k: int|
                #![trigger next.targets[k]]
                0 <= k < next.targets.len() implies ({
                let to = next.order[n + k].0;
                next.targets[k] == (
                    adjacent(
                        reduced_of(next.info, to).curr_transfer_dir as int,
                        to,
                        max_x,
                        max_y,
                    ),
                    to,
                )
            }) by {
                if k < spread.targets.len() {
                    assert(next.targets[k] == spread.targets[k]);
                    assert(next.order[n + k] == order[n + k]);
                } else {
                    assert(n + k == last);
                }
            }
            assert(ways_out(next.order, next.info, n, max_x, max_y));
        }
    }
}

proof fn lemma_spread_steps<A: Amount>(
    world: Map<TurfID, TurfReading<A>>,
    spread: Spread<A>,
    n: int,
    at: int,
    steps: Seq<(u8, TurfID)>,
    max_x: int,
    max_y: int,
)
    requires
        spread_ok(world, spread, n, max_x, max_y),
        0 <= at < spread.order.len(),
        forall|k: int|
            #![trigger steps[k]]
            0 <= k < steps.len() ==> steps[k].0 < 7 && steps[k].1 == adjacent(
                steps[k].0 as int,
                spread.order[at].0,
                max_x,
                max_y,
            ),
    ensures
        spread_ok(
            world,
            spread_steps(world, spread, spread.order[at].0, steps),
            n,
            max_x,
            max_y,
        ),
    decreases steps.len(),
{
    if steps.len() > 0 {
        let i = spread.order[at].0;
        lemma_spread_step(world, spread, n, at, steps[0], max_x, max_y);
        let next = spread_step(world, spread, i, steps[0]);
        assert(next.order[at] == spread.order[at]);
        lemma_spread_steps(world, next, n, at, steps.drop_first(), max_x, max_y);
    }
}

proof fn lemma_spread_on<A: Amount>(
    world: Map<TurfID, TurfReading<A>>,
    max_x: int,
    max_y: int,
    limit: int,
    spread: Spread<A>,
    n: int,
    at: int,
)
    requires
        spread_ok(world, spread, n, max_x, max_y),
        0 <= at,
    ensures
        spread_ok(world, spread_on(world, max_x, max_y, limit, spread, at), n, max_x, max_y),
    decreases 0x100_0000_0000 - at,
{
    if at < spread.order.len() && at < 0x100_0000_0000 {
        if at + 1 > limit {
            lemma_spread_on(world, max_x, max_y, limit, spread, n, at + 1);
        } else {
            let (i, adjacency) = spread.order[at];
            let steps = neighbours(adjacency, i, max_x, max_y, 0, 7);
            lemma_neighbours(adjacency, i, max_x, max_y, 0, 7);
            lemma_spread_steps(world, spread, n, at, steps, max_x, max_y);
            lemma_spread_on(
                world,
                max_x,
                max_y,
                limit,
                spread_steps(world, spread, i, steps),
                n,
                at + 1,
            );
        }
    }
}

pub proof fn lemma_space_left<A: Amount>(
    world: Map<TurfID, TurfReading<A>>,
    space: Seq<TurfID>,
)
    requires
        space.no_duplicates(),
    ensures
        distinct_turfs(space_left(world, space)),
        forall|p: int|
            #![trigger space_left(world, space)[p]]
            0 <= p < space_left(world, space).len() ==> {
                let (i, adjacency) = space_left(world, space)[p];
                space.contains(i) && world.contains_key(i) && adjacency
                    == world[i].mixture.adjacency
            },
    decreases space.len(),
{
    if space.len() > 0 {
        let front = space.drop_last();
        lemma_space_left(world, front);
        let before = space_left(world, front);
        let after = space_left(world, space);
        assert forall|p: int|
            #![trigger after[p]]
            0 <= p < after.len() implies ({
            let (i, adjacency) = after[p];
            space.contains(i) && world.contains_key(i) && adjacency
                == world[i].mixture.adjacency && (p < before.len() ==> i != space.last())
        }) by {
            if p < before.len() {
                assert(after[p] == before[p]);
                let k = choose|k: int| 0 <= k < front.len() && front[k] == before[p].0;
                assert(space[k] == before[p].0);
                assert(space[k] != space[space.len() - 1]);
            } else {
                assert(space[space.len() - 1] == after[p].0);
            }
        }
        assert forall|p: int, q: int| 0 <= p < q < after.len() implies (#[trigger] after[p]).0 != (
        #[trigger] after[q]).0 by {
            if q < before.len() {
                assert(after[p] == before[p] && after[q] == before[q]);
            }
        }
    }
}

/// From space inwards every turf is reached but once, and but for the turfs of
/// space themselves, its air goes to a turf that was reached before it: the
/// air of every turf finds its way to space. Each turf gets the target of the
/// turf that its air goes to.
pub proof fn air_finds_its_way<A: Amount>(
    world: Map<TurfID, TurfReading<A>>,
    max_x: int,
    max_y: int,
    limit: int,
    space: Seq<TurfID>,
)
    requires
        space.no_duplicates(),
    ensures
        ({
            let spread = spread_from(world, max_x, max_y, limit, space);
            let n = space_left(world, space).len() as int;
            &&& ways_out(spread.order, spread.info, n, max_x, max_y)
            &&& forall|i: TurfID|
                (#[trigger] reduced_of(spread.info, i)).curr_transfer_amount == A::spec_zero()
            &&& spread.targets.len() == spread.order.len() - n
            &&& forall|k: int|
                #![trigger spread.targets[k]]
                0 <= k < spread.targets.len() ==> {
                    let loc = spread.order[n + k].0;
                    spread.targets[k] == (
                        adjacent(
                            reduced_of(spread.info, loc).curr_transfer_dir as int,
                            loc,
                            max_x,
                            max_y,
                        ),
                        loc,
                    )
                }
        }),
{
    let order = space_left(world, space);
    let n = order.len() as int;
    let first = Spread::<A> { order, info: Map::empty(), targets: Seq::empty() };
    lemma_space_left(world, space);
    assert(spread_ok(world, first, n, max_x, max_y));
    lemma_spread_on(world, max_x, max_y, limit, first, n, 0);
}

/// What has come in at the first `n` turfs of `order`.
pub open spec fn come_in<A: Amount>(
    info: Map<TurfID, ReducedInfo<A>>,
    order: Seq<(TurfID, u8)>,
    n: int,
) -> A
    decreases n,
{
    if n <= 0 {
        A::spec_zero()
    } else {
        come_in(info, order, n - 1).spec_plus(
            reduced_of(info, order[n - 1].0).curr_transfer_amount,
        )
    }
}

/// The sum of `sums` from `from` up to (and without) `to`.
pub open spec fn range_sum<A: Amount>(sums: Seq<A>, from: int, to: int) -> A
    decreases to - from,
{
    if to <= from {
        A::spec_zero()
    } else {
        sums[from].spec_plus(range_sum(sums, from + 1, to))
    }
}

proof fn lemma_come_in_same<A: Amount>(
    a: Map<TurfID, ReducedInfo<A>>,
    b: Map<TurfID, ReducedInfo<A>>,
    order: Seq<(TurfID, u8)>,
    n: int,
)
    requires
        n <= order.len(),
        forall|p: int|
            0 <= p < n ==> reduced_of(a, (#[trigger] order[p]).0).curr_transfer_amount
                == reduced_of(b, order[p].0).curr_transfer_amount,
    ensures
        come_in(a, order, n) == come_in(b, order, n),
    decreases n,
{
    if n > 0 {
        lemma_come_in_same(a, b, order, n - 1);
        assert(reduced_of(a, order[n - 1].0).curr_transfer_amount == reduced_of(
            b,
            order[n - 1].0,
        ).curr_transfer_amount);
    }
}

proof fn lemma_come_in_plus<A: Amount>(
    a: Map<TurfID, ReducedInfo<A>>,
    b: Map<TurfID, ReducedInfo<A>>,
    order: Seq<(TurfID, u8)>,
    n: int,
    q: int,
    x: A,
)
    requires
        exact::<A>(),
        distinct_turfs(order),
        0 <= q < n <= order.len(),
        reduced_of(b, order[q].0).curr_transfer_amount == reduced_of(
            a,
            order[q].0,
        ).curr_transfer_amount.spec_plus(x),
        forall|p: int|
            0 <= p < n && p != q ==> reduced_of(
                a,
                (#[trigger] order[p]).0,
            ).curr_transfer_amount == reduced_of(b, order[p].0).curr_transfer_amount,
    ensures
        come_in(b, order, n) == come_in(a, order, n).spec_plus(x),
    decreases n,
{
    let own = reduced_of(a, order[n - 1].0).curr_transfer_amount;
    if q == n - 1 {
        lemma_come_in_same(a, b, order, n - 1);
        lemma_second(come_in(a, order, n - 1), own, x);
    } else {
        lemma_come_in_plus(a, b, order, n - 1, q, x);
        lemma_plus_first(come_in(a, order, n - 1), own, x);
        assert(reduced_of(b, order[n - 1].0).curr_transfer_amount == own);
    }
}

/// Letting air out changes no direction.
proof fn lemma_same_ways<A: Amount>(
    info: Map<TurfID, ReducedInfo<A>>,
    order: Seq<(TurfID, u8)>,
    sums: Seq<A>,
    from: int,
    to: int,
    max_x: int,
    max_y: int,
)
    ensures
        forall|i: TurfID|
            (#[trigger] reduced_of(
                all_let_out(info, order, sums, from, to, max_x, max_y),
                i,
            )).curr_transfer_dir == reduced_of(info, i).curr_transfer_dir,
    decreases from - to,
{
    if to < from {
        lemma_same_ways(info, order, sums, from, to + 1, max_x, max_y);
        let before = all_let_out(info, order, sums, from, to + 1, max_x, max_y);
        let after = all_let_out(info, order, sums, from, to, max_x, max_y);
        assert forall|i: TurfID|
            (#[trigger] reduced_of(after, i)).curr_transfer_dir == reduced_of(
                info,
                i,
            ).curr_transfer_dir by {
            assert(reduced_of(before, i).curr_transfer_dir == reduced_of(
                info,
                i,
            ).curr_transfer_dir);
        }
    }
}

/// The turf that the air of the turf at `q` goes to, as a place in `order`.
pub open spec fn ahead<A: Amount>(
    info: Map<TurfID, ReducedInfo<A>>,
    order: Seq<(TurfID, u8)>,
    q: int,
    max_x: int,
    max_y: int,
) -> int {
    let i = order[q].0;
    choose|r: int|
        0 <= r < q && (#[trigger] order[r]).0 == adjacent(
            reduced_of(info, i).curr_transfer_dir as int,
            i,
            max_x,
            max_y,
        )
}

/// What the turn of the turf at `p` does to the amounts.
proof fn lemma_turn<A: Amount>(
    info: Map<TurfID, ReducedInfo<A>>,
    order: Seq<(TurfID, u8)>,
    sums: Seq<A>,
    n: int,
    p: int,
    max_x: int,
    max_y: int,
)
    requires
        ways_out(order, info, n, max_x, max_y),
        n <= p < order.len(),
    ensures
        ({
            let len = order.len() as int;
            let before = all_let_out(info, order, sums, len, p + 1, max_x, max_y);
            let after = all_let_out(info, order, sums, len, p, max_x, max_y);
            let a = ahead(info, order, p, max_x, max_y);
            let handed = reduced_of(before, order[p].0).curr_transfer_amount.spec_plus(sums[p]);
            &&& 0 <= a < p
            &&& laden(before, order[p].0, sums[p]).curr_transfer_amount == handed
            &&& reduced_of(after, order[a].0).curr_transfer_amount == reduced_of(
                before,
                order[a].0,
            ).curr_transfer_amount.spec_plus(handed)
            &&& forall|r: int|
                0 <= r < p && r != a ==> reduced_of(
                    after,
                    (#[trigger] order[r]).0,
                ).curr_transfer_amount == reduced_of(before, order[r].0).curr_transfer_amount
        }),
{
    let len = order.len() as int;
    let before = all_let_out(info, order, sums, len, p + 1, max_x, max_y);
    let after = all_let_out(info, order, sums, len, p, max_x, max_y);
    let a = ahead(info, order, p, max_x, max_y);
    let i = order[p].0;
    lemma_same_ways(info, order, sums, len, p + 1, max_x, max_y);
    assert(leads_back(order, info, p, max_x, max_y));
    assert(reduced_of(before, i).curr_transfer_dir == reduced_of(info, i).curr_transfer_dir);
    assert(after == let_out(before, i, sums[p], max_x, max_y));
    assert(order[a].0 != order[p].0);
    assert forall|r: int| 0 <= r < p && r != a implies reduced_of(
        after,
        (#[trigger] order[r]).0,
    ).curr_transfer_amount == reduced_of(before, order[r].0).curr_transfer_amount by {
        assert(order[r].0 != order[p].0);
        if r < a {
            assert(order[r].0 != order[a].0);
        } else {
            assert(order[a].0 != order[r].0);
        }
    }
}

/// Ends of ways keep what has come in there.
proof fn lemma_ends_keep<A: Amount>(
    info: Map<TurfID, ReducedInfo<A>>,
    order: Seq<(TurfID, u8)>,
    sums: Seq<A>,
    n: int,
    to: int,
    max_x: int,
    max_y: int,
)
    requires
        ways_out(order, info, n, max_x, max_y),
        0 <= to <= n,
    ensures
        forall|i: TurfID| #[trigger]
            reduced_of(
                all_let_out(info, order, sums, order.len() as int, to, max_x, max_y),
                i,
            ) == reduced_of(
                all_let_out(info, order, sums, order.len() as int, n, max_x, max_y),
                i,
            ),
    decreases n - to,
{
    if to < n {
        let len = order.len() as int;
        lemma_ends_keep(info, order, sums, n, to + 1, max_x, max_y);
        lemma_same_ways(info, order, sums, len, to + 1, max_x, max_y);
        let before = all_let_out(info, order, sums, len, to + 1, max_x, max_y);
        let after = all_let_out(info, order, sums, len, to, max_x, max_y);
        let end = all_let_out(info, order, sums, len, n, max_x, max_y);
        assert(reduced_of(info, order[to].0).curr_transfer_dir == 6);
        assert(reduced_of(before, order[to].0).curr_transfer_dir == 6);
        assert forall|i: TurfID| #[trigger] reduced_of(after, i) == reduced_of(end, i) by {
            assert(reduced_of(before, i) == reduced_of(end, i));
        }
    }
}

proof fn lemma_all_come_in<A: Amount>(
    info: Map<TurfID, ReducedInfo<A>>,
    order: Seq<(TurfID, u8)>,
    sums: Seq<A>,
    n: int,
    p: int,
    max_x: int,
    max_y: int,
)
    requires
        exact::<A>(),
        ways_out(order, info, n, max_x, max_y),
        n <= p <= order.len(),
    ensures
        come_in(
            all_let_out(info, order, sums, order.len() as int, p, max_x, max_y),
            order,
            p,
        ) == come_in(info, order, order.len() as int).spec_plus(
            range_sum(sums, p, order.len() as int),
        ),
    decreases order.len() - p,
{
    let len = order.len() as int;
    let total = come_in(info, order, len);
    if p == len {
        lemma_group(total, A::spec_zero(), A::spec_zero());
    } else {
        lemma_all_come_in(info, order, sums, n, p + 1, max_x, max_y);
        lemma_turn(info, order, sums, n, p, max_x, max_y);
        let before = all_let_out(info, order, sums, len, p + 1, max_x, max_y);
        let after = all_let_out(info, order, sums, len, p, max_x, max_y);
        let a = ahead(info, order, p, max_x, max_y);
        let own = reduced_of(before, order[p].0).curr_transfer_amount;
        let sum = sums[p];
        lemma_come_in_plus(before, after, order, p, a, own.spec_plus(sum));
        lemma_second(come_in(before, order, p), own, sum);
        // (total + later) + sum == total + (sum + later)
        let later = range_sum(sums, p + 1, len);
        lemma_second(total, later, sum);
        lemma_group(later, sum, sum);
    }
}

/// Nothing is lost on the way to space: once every turf has had its turn, what
/// has come in at the turfs of space is what was there to begin with and all
/// the gas that was counted on the way.
pub proof fn all_air_reaches_space<A: Amount>(
    info: Map<TurfID, ReducedInfo<A>>,
    order: Seq<(TurfID, u8)>,
    sums: Seq<A>,
    n: int,
    max_x: int,
    max_y: int,
)
    requires
        exact::<A>(),
        ways_out(order, info, n, max_x, max_y),
    ensures
        come_in(
            all_let_out(info, order, sums, order.len() as int, 0, max_x, max_y),
            order,
            n,
        ) == come_in(info, order, order.len() as int).spec_plus(
            range_sum(sums, n, order.len() as int),
        ),
{
    let len = order.len() as int;
    lemma_all_come_in(info, order, sums, n, n, max_x, max_y);
    lemma_ends_keep(info, order, sums, n, 0, max_x, max_y);
    let end = all_let_out(info, order, sums, len, 0, max_x, max_y);
    let last = all_let_out(info, order, sums, len, n, max_x, max_y);
    assert forall|p: int| 0 <= p < n implies reduced_of(
        end,
        (#[trigger] order[p]).0,
    ).curr_transfer_amount == reduced_of(last, order[p].0).curr_transfer_amount by {
        assert(reduced_of(end, order[p].0) == reduced_of(last, order[p].0));
    }
    lemma_come_in_same(end, last, order, n);
}

/// Where the air of the turf at `q` first comes to a place below `m`, going from
/// turf to turf ahead.
pub open spec fn comes_to<A: Amount>(
    info: Map<TurfID, ReducedInfo<A>>,
    order: Seq<(TurfID, u8)>,
    q: int,
    m: int,
    max_x: int,
    max_y: int,
) -> int
    decreases q,
{
    let a = ahead(info, order, q, max_x, max_y);
    if q < m || !(0 <= a < q) {
        q
    } else {
        comes_to(info, order, a, m, max_x, max_y)
    }
}

/// The gas that was counted at the turfs from `from` on whose air comes to the
/// place `r` before any other place below `m`.
pub open spec fn gathered<A: Amount>(
    info: Map<TurfID, ReducedInfo<A>>,
    order: Seq<(TurfID, u8)>,
    sums: Seq<A>,
    m: int,
    r: int,
    from: int,
    max_x: int,
    max_y: int,
) -> A
    decreases order.len() - from,
{
    if from >= order.len() {
        A::spec_zero()
    } else {
        (if comes_to(info, order, from, m, max_x, max_y) == r {
            sums[from]
        } else {
            A::spec_zero()
        }).spec_plus(gathered(info, order, sums, m, r, from + 1, max_x, max_y))
    }
}

/// Below the place `p` the air goes on from `p`, and all other air as before.
proof fn lemma_comes_to<A: Amount>(
    info: Map<TurfID, ReducedInfo<A>>,
    order: Seq<(TurfID, u8)>,
    n: int,
    p: int,
    q: int,
    max_x: int,
    max_y: int,
)
    requires
        ways_out(order, info, n, max_x, max_y),
        n <= p <= q < order.len(),
    ensures
        comes_to(info, order, q, p, max_x, max_y) == if comes_to(
            info,
            order,
            q,
            p + 1,
            max_x,
            max_y,
        ) == p {
            ahead(info, order, p, max_x, max_y)
        } else {
            comes_to(info, order, q, p + 1, max_x, max_y)
        },
    decreases q,
{
    let a = ahead(info, order, q, max_x, max_y);
    assert(leads_back(order, info, q, max_x, max_y));
    assert(0 <= a < q);
    assert(a < p ==> comes_to(info, order, a, p, max_x, max_y) == a);
    assert(a <= p ==> comes_to(info, order, a, p + 1, max_x, max_y) == a);
    if q > p && a >= p {
        lemma_comes_to(info, order, n, p, a, max_x, max_y);
    }
}

proof fn lemma_gathered<A: Amount>(
    info: Map<TurfID, ReducedInfo<A>>,
    order: Seq<(TurfID, u8)>,
    sums: Seq<A>,
    n: int,
    p: int,
    r: int,
    from: int,
    max_x: int,
    max_y: int,
)
    requires
        exact::<A>(),
        ways_out(order, info, n, max_x, max_y),
        n <= p < from,
        p < order.len(),
        0 <= r < p,
    ensures
        gathered(info, order, sums, p, r, from, max_x, max_y) == if r == ahead(
            info,
            order,
            p,
            max_x,
            max_y,
        ) {
            gathered(info, order, sums, p + 1, r, from, max_x, max_y).spec_plus(
                gathered(info, order, sums, p + 1, p, from, max_x, max_y),
            )
        } else {
            gathered(info, order, sums, p + 1, r, from, max_x, max_y)
        },
    decreases order.len() - from,
{
    let z = A::spec_zero();
    lemma_group(z, z, z);
    if from < order.len() {
        lemma_comes_to(info, order, n, p, from, max_x, max_y);
        lemma_gathered(info, order, sums, n, p, r, from + 1, max_x, max_y);
        let x = sums[from];
        let c = gathered(info, order, sums, p + 1, r, from + 1, max_x, max_y);
        let d = gathered(info, order, sums, p + 1, p, from + 1, max_x, max_y);
        // x + (c + d) == (x + c) + (0 + d) == (0 + c) + (x + d)
        lemma_group(x, c, d);
        lemma_group(z, d, z);
        lemma_group(d, z, z);
        lemma_group(z, c, z);
        lemma_group(c, z, z);
        lemma_group(c, x, d);
        lemma_group(c, d, x);
        lemma_group(z, c.spec_plus(d), z);
        lemma_group(c.spec_plus(d), z, z);
    }
}

/// Air gathers on its way: when all turfs from `m` on have had their turn, what
/// has come in at a turf below is the gas that was counted at those turfs from
/// `m` on whose air comes there first.
pub proof fn air_gathers<A: Amount>(
    info: Map<TurfID, ReducedInfo<A>>,
    order: Seq<(TurfID, u8)>,
    sums: Seq<A>,
    n: int,
    m: int,
    r: int,
    max_x: int,
    max_y: int,
)
    requires
        exact::<A>(),
        ways_out(order, info, n, max_x, max_y),
        forall|i: TurfID| (#[trigger] reduced_of(info, i)).curr_transfer_amount == A::spec_zero(),
        n <= m <= order.len(),
        0 <= r < m,
    ensures
        reduced_of(
            all_let_out(info, order, sums, order.len() as int, m, max_x, max_y),
            order[r].0,
        ).curr_transfer_amount == gathered(info, order, sums, m, r, m, max_x, max_y),
    decreases order.len() - m,
{
    if m < order.len() {
        let a = ahead(info, order, m, max_x, max_y);
        assert(leads_back(order, info, m, max_x, max_y));
        air_gathers(info, order, sums, n, m + 1, r, max_x, max_y);
        air_gathers(info, order, sums, n, m + 1, m, max_x, max_y);
        lemma_turn(info, order, sums, n, m, max_x, max_y);
        lemma_gathered(info, order, sums, n, m, r, m + 1, max_x, max_y);
        assert(comes_to(info, order, a, m, max_x, max_y) == a);
        assert(comes_to(info, order, m, m, max_x, max_y) == a);
        let x = sums[m];
        let c = gathered(info, order, sums, m + 1, r, m + 1, max_x, max_y);
        let d = gathered(info, order, sums, m + 1, m, m + 1, max_x, max_y);
        let z = A::spec_zero();
        // x + (c + d) == c + (d + x)
        lemma_group(c, d, x);
        lemma_group(c.spec_plus(d), x, z);
        lemma_group(z, c, z);
        lemma_group(c, z, z);
    }
}

/// The pressure difference that a turf gets when it lets its air out is the gas
/// that was counted at all the turfs whose air comes through it, itself
/// among them.
pub proof fn pressure_adds_up<A: Amount>(
    info: Map<TurfID, ReducedInfo<A>>,
    order: Seq<(TurfID, u8)>,
    sums: Seq<A>,
    n: int,
    p: int,
    max_x: int,
    max_y: int,
)
    requires
        exact::<A>(),
        ways_out(order, info, n, max_x, max_y),
        forall|i: TurfID| (#[trigger] reduced_of(info, i)).curr_transfer_amount == A::spec_zero(),
        n <= p < order.len(),
    ensures
        laden(
            all_let_out(info, order, sums, order.len() as int, p + 1, max_x, max_y),
            order[p].0,
            sums[p],
        ).curr_transfer_amount == gathered(info, order, sums, p + 1, p, p, max_x, max_y),
{
    air_gathers(info, order, sums, n, p + 1, p, max_x, max_y);
    lemma_turn(info, order, sums, n, p, max_x, max_y);
    lemma_group(
        gathered(info, order, sums, p + 1, p, p + 1, max_x, max_y),
        sums[p],
        sums[p],
    );
}

} // verus!
