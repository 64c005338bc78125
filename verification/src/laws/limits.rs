//! How far the search for space and the way inwards from space go.
use vstd::prelude::*;
use crate::amount::Amount;
use crate::depressurize::{
    hunt_from, hunt_on, hunt_through, hunted, space_left, spread_from, spread_on, spread_step,
    spread_steps, SpaceCall, SpaceHunt, Spread,
};
use crate::flood::TurfReading;
use crate::grid::{neighbours, TurfID};
use crate::laws::breadth::{lemma_next_to, next_to};
use crate::laws::depressurize::{air_finds_its_way, is_space, on_planet};
use crate::laws::hunt::hunt_links;
use crate::tables::{lemma_distinct_len, lemma_distinct_pairs_len};

verus! {

/// The turf at `m` makes the search look up: it exists, belongs to no planet, and is space or
/// comes before the limit.
pub open spec fn looks_up<A: Amount>(
    world: Map<TurfID, TurfReading<A>>,
    limit: int,
    turfs: Seq<TurfID>,
    m: int,
) -> bool {
    &&& world.contains_key(turfs[m])
    &&& world[turfs[m]].mixture.planetary_atmos is None
    &&& world[turfs[m]].immutable || m < limit
}

/// The search looks up at the turf at `m`, and has come upon a planet before, at `q`.
pub open spec fn too_late<A: Amount>(
    world: Map<TurfID, TurfReading<A>>,
    limit: int,
    turfs: Seq<TurfID>,
    q: int,
    m: int,
) -> bool {
    0 <= q < m && on_planet(world, turfs[q]) && looks_up(world, limit, turfs, m)
}

/// The turf at `p` was come upon from one of the first `n` turfs, and that before the limit.
pub open spec fn come_upon<A: Amount>(
    world: Map<TurfID, TurfReading<A>>,
    max_x: int,
    max_y: int,
    limit: int,
    turfs: Seq<TurfID>,
    n: int,
    p: int,
) -> bool {
    exists|q: int|
        0 <= q < n && q < p && q < limit && hunt_links(world, max_x, max_y)(
            #[trigger] turfs[q],
            turfs[p],
        )
}

/// What holds of the search once it has gone through `n` turfs.
spec fn gone_through<A: Amount>(
    world: Map<TurfID, TurfReading<A>>,
    max_x: int,
    max_y: int,
    limit: int,
    hunt: SpaceHunt,
    n: int,
) -> bool {
    let turfs = hunt.turfs;
    &&& 0 <= n <= turfs.len()
    &&& turfs.no_duplicates()
    &&& hunt.planet <==> exists|q: int| 0 <= q < n && #[trigger] on_planet(world, turfs[q])
    &&& hunt.given_up ==> exists|q: int| #[trigger] too_late(world, limit, turfs, q, n - 1)
    &&& forall|q: int, m: int|
        m < n && #[trigger] too_late(world, limit, turfs, q, m) ==> m == n - 1 && hunt.given_up
    &&& forall|p: int| 0 < p < turfs.len() ==> #[trigger] come_upon(
        world,
        max_x,
        max_y,
        limit,
        turfs,
        n,
        p,
    )
    &&& forall|p: int, v: TurfID|
        0 <= p < n && p < limit && #[trigger] hunt_links(world, max_x, max_y)(turfs[p], v)
            ==> turfs.contains(v)
    &&& hunt.space == turfs.take(n).filter(|i: TurfID| is_space(world, i))
}

proof fn lemma_on<A: Amount>(
    world: Map<TurfID, TurfReading<A>>,
    hunt: SpaceHunt,
    i: TurfID,
    steps: Seq<(u8, TurfID)>,
)
    ensures
        ({
            let end = hunt_on(world, hunt, i, steps);
            &&& end.space == hunt.space && end.planet == hunt.planet && end.given_up
                == hunt.given_up
            &&& hunt.turfs.is_prefix_of(end.turfs)
            &&& hunt.turfs.no_duplicates() ==> end.turfs.no_duplicates()
            &&& forall|p: int|
                hunt.turfs.len() <= p < end.turfs.len() ==> world.contains_key(
                    #[trigger] end.turfs[p],
                ) && exists|k: int| 0 <= k < steps.len() && (#[trigger] steps[k]).1 == end.turfs[p]
            &&& forall|k: int|
                0 <= k < steps.len() && world.contains_key((#[trigger] steps[k]).1)
                    ==> end.turfs.contains(steps[k].1)
        }),
    decreases steps.len(),
{
    if steps.len() > 0 {
        let loc = steps[0].1;
        let rest = steps.drop_first();
        let fresh = world.contains_key(loc) && !hunt.turfs.contains(loc);
        let next = if fresh {
            SpaceHunt {
                turfs: hunt.turfs.push(loc),
                calls: hunt.calls.push(SpaceCall::Firelocks(i, loc)),
                ..hunt
            }
        } else {
            hunt
        };
        lemma_on(world, next, i, rest);
        let end = hunt_on(world, hunt, i, steps);
        assert(end == hunt_on(world, next, i, rest));
        if fresh && hunt.turfs.no_duplicates() {
            assert forall|p: int, q: int|
                0 <= p < next.turfs.len() && 0 <= q < next.turfs.len() && p
                    != q implies next.turfs[p] != next.turfs[q] by {
                if p < hunt.turfs.len() {
                    assert(hunt.turfs.contains(hunt.turfs[p]));
                }
                if q < hunt.turfs.len() {
                    assert(hunt.turfs.contains(hunt.turfs[q]));
                }
            }
        }
        assert forall|p: int| 0 <= p < hunt.turfs.len() implies hunt.turfs[p] == end.turfs[p] by {
            assert(hunt.turfs[p] == next.turfs[p]);
        }
        assert forall|p: int| hunt.turfs.len() <= p < end.turfs.len() implies world.contains_key(
            #[trigger] end.turfs[p],
        ) && exists|k: int| 0 <= k < steps.len() && (#[trigger] steps[k]).1 == end.turfs[p] by {
            if p < next.turfs.len() {
                assert(next.turfs[p] == end.turfs[p]);
                assert(steps[0].1 == end.turfs[p]);
            } else {
                let k = choose|k: int|
                    0 <= k < rest.len() && (#[trigger] rest[k]).1 == end.turfs[p];
                assert(steps[k + 1].1 == end.turfs[p]);
            }
        }
        assert forall|k: int|
            0 <= k < steps.len() && world.contains_key(
                (#[trigger] steps[k]).1,
            ) implies end.turfs.contains(steps[k].1) by {
            if k > 0 {
                assert(rest[k - 1] == steps[k]);
            } else {
                assert(next.turfs.contains(loc)) by {
                    if fresh {
                        assert(next.turfs[hunt.turfs.len() as int] == loc);
                    }
                }
                let p = choose|p: int| 0 <= p < next.turfs.len() && next.turfs[p] == loc;
                assert(end.turfs[p] == loc);
            }
        }
    }
}

proof fn lemma_one_through<A: Amount>(
    world: Map<TurfID, TurfReading<A>>,
    max_x: int,
    max_y: int,
    limit: int,
    hunt: SpaceHunt,
    at: int,
)
    requires
        gone_through(world, max_x, max_y, limit, hunt, at),
        at < hunt.turfs.len(),
        !hunt.given_up,
    ensures
        gone_through(
            world,
            max_x,
            max_y,
            limit,
            hunt_through(world, max_x, max_y, limit, hunt, hunt.turfs[at], at + 1),
            at + 1,
        ),
{
    let turfs = hunt.turfs;
    let i = turfs[at];
    let next = hunt_through(world, max_x, max_y, limit, hunt, i, at + 1);
    let links = hunt_links(world, max_x, max_y);
    let space = |i: TurfID| is_space(world, i);
    let going = world.contains_key(i) && world[i].mixture.planetary_atmos is None
        && !world[i].immutable && at < limit;
    if going {
        let adjacency = world[i].mixture.adjacency;
        let steps = neighbours(adjacency, i, max_x, max_y, 0, 7);
        lemma_on(world, hunt, i, steps);
        lemma_next_to(adjacency, i, max_x, max_y, 7);
        assert(next.turfs == hunt_on(world, hunt, i, steps).turfs);
        assert forall|v: TurfID| #[trigger] links(i, v) implies next.turfs.contains(v) by {
            let k = choose|k: int| 0 <= k < steps.len() && (#[trigger] steps[k]).1 == v;
            assert(world.contains_key(steps[k].1));
        }
        assert forall|p: int| turfs.len() <= p < next.turfs.len() implies links(
            i,
            #[trigger] next.turfs[p],
        ) by {
            let k = choose|k: int| 0 <= k < steps.len() && (#[trigger] steps[k]).1 == next.turfs[p];
            assert(steps[k].1 == next.turfs[p]);
        }
    } else {
        assert(next.turfs == turfs);
    }
    assert(turfs.is_prefix_of(next.turfs));
    assert forall|q: int| 0 <= q < turfs.len() implies #[trigger] next.turfs[q] == turfs[q] by {}
    assert forall|q: int, m: int|
        m < at + 1 && #[trigger] too_late(world, limit, next.turfs, q, m) implies m == at
        && next.given_up by {
        assert(next.turfs[q] == turfs[q] && next.turfs[m] == turfs[m]);
        if m < at {
            assert(too_late(world, limit, turfs, q, m));
        } else {
            assert(on_planet(world, turfs[q]));
        }
    }
    if next.given_up {
        let q = choose|q: int| 0 <= q < at && #[trigger] on_planet(world, turfs[q]);
        assert(too_late(world, limit, next.turfs, q, at + 1 - 1));
    }
    if hunt.planet {
        let q = choose|q: int| 0 <= q < at && #[trigger] on_planet(world, turfs[q]);
        assert(on_planet(world, next.turfs[q]));
    }
    if on_planet(world, i) {
        assert(on_planet(world, next.turfs[at]));
    }
    assert(next.planet ==> exists|q: int|
        0 <= q < at + 1 && #[trigger] on_planet(world, next.turfs[q]));
    if exists|q: int| 0 <= q < at + 1 && #[trigger] on_planet(world, next.turfs[q]) {
        let q = choose|q: int| 0 <= q < at + 1 && #[trigger] on_planet(world, next.turfs[q]);
        if q < at {
            assert(on_planet(world, turfs[q]));
        }
        assert(next.planet);
    }
    assert forall|p: int| 0 < p < next.turfs.len() implies #[trigger] come_upon(
        world,
        max_x,
        max_y,
        limit,
        next.turfs,
        at + 1,
        p,
    ) by {
        if p < turfs.len() {
            assert(come_upon(world, max_x, max_y, limit, turfs, at, p));
            let q = choose|q: int|
                0 <= q < at && q < p && q < limit && links(#[trigger] turfs[q], turfs[p]);
            assert(links(next.turfs[q], next.turfs[p]));
        } else {
            assert(links(next.turfs[at], next.turfs[p]));
        }
    }
    assert forall|p: int, v: TurfID|
        0 <= p < at + 1 && p < limit && #[trigger] links(next.turfs[p], v) implies next.turfs.contains(
        v,
    ) by {
        assert(next.turfs[p] == turfs[p]);
        if p < at {
            assert(links(turfs[p], v));
            let r = choose|r: int| 0 <= r < turfs.len() && turfs[r] == v;
            assert(next.turfs[r] == v);
        }
    }
    assert(next.space == next.turfs.take(at + 1).filter(space)) by {
        reveal(Seq::filter);
        let upto = next.turfs.take(at + 1);
        assert(upto.drop_last() =~= turfs.take(at));
        assert(upto.last() == i);
        if is_space(world, i) && hunt.space.contains(i) {
            let k = choose|k: int| 0 <= k < hunt.space.len() && hunt.space[k] == i;
            turfs.take(at).lemma_filter_contains_rev(space, i);
            let p = choose|p: int| 0 <= p < turfs.take(at).len() && turfs.take(at)[p] == i;
            assert(turfs[p] == turfs[at]);
        }
    }
}

proof fn lemma_all_through<A: Amount>(
    world: Map<TurfID, TurfReading<A>>,
    max_x: int,
    max_y: int,
    limit: int,
    hunt: SpaceHunt,
    at: int,
) -> (n: int)
    requires
        gone_through(world, max_x, max_y, limit, hunt, at),
        at <= 0x1_0000_0000,
    ensures
        ({
            let end = hunted(world, max_x, max_y, limit, hunt, at);
            &&& gone_through(world, max_x, max_y, limit, end, n)
            &&& end.given_up || n == end.turfs.len()
            &&& hunt.turfs.is_prefix_of(end.turfs)
        }),
    decreases 0x1_0000_0000 - at,
{
    lemma_distinct_len(hunt.turfs);
    if at >= hunt.turfs.len() || hunt.given_up {
        at
    } else {
        let i = hunt.turfs[at];
        lemma_one_through(world, max_x, max_y, limit, hunt, at);
        let next = hunt_through(world, max_x, max_y, limit, hunt, i, at + 1);
        if world.contains_key(i) {
            lemma_on(
                world,
                hunt,
                i,
                neighbours(world[i].mixture.adjacency, i, max_x, max_y, 0, 7),
            );
        }
        assert(hunt.turfs.is_prefix_of(next.turfs));
        let n = lemma_all_through(world, max_x, max_y, limit, next, at + 1);
        let end = hunted(world, max_x, max_y, limit, hunt, at);
        assert(end == hunted(world, max_x, max_y, limit, next, at + 1));
        assert forall|p: int| 0 <= p < hunt.turfs.len() implies hunt.turfs[p] == end.turfs[p] by {
            assert(hunt.turfs[p] == next.turfs[p]);
        }
        n
    }
}

/// How far the search for space goes. It goes through `n` turfs, and comes upon all that exists and
/// lies where gas can flow from those of them that are before the limit and neither of a planet nor
/// space, and upon nothing else. It goes through all turfs that it comes upon, unless, after one of
/// a planet, there is one that belongs to none and is space or before the limit: with the first
/// such turf it is given up. The turfs of space that it finds are those that it goes through, in
/// their order.
pub proof fn hunts_go_as_far_as_they_should<A: Amount>(
    world: Map<TurfID, TurfReading<A>>,
    max_x: int,
    max_y: int,
    limit: int,
    turf_idx: TurfID,
) -> (n: int)
    ensures
        ({
            let end = hunted(world, max_x, max_y, limit, hunt_from(turf_idx), 0);
            let turfs = end.turfs;
            &&& 0 < n <= turfs.len()
            &&& turfs[0] == turf_idx
            &&& turfs.no_duplicates()
            &&& !end.given_up ==> n == turfs.len()
            &&& end.given_up ==> exists|q: int| #[trigger]
                too_late(world, limit, turfs, q, n - 1)
            &&& forall|q: int, m: int|
                m < n && #[trigger] too_late(world, limit, turfs, q, m) ==> m == n - 1
                    && end.given_up
            &&& end.planet <==> exists|q: int| 0 <= q < n && #[trigger] on_planet(world, turfs[q])
            &&& forall|p: int|
                0 < p < turfs.len() ==> #[trigger] come_upon(
                    world,
                    max_x,
                    max_y,
                    limit,
                    turfs,
                    n,
                    p,
                )
            &&& forall|p: int, v: TurfID|
                0 <= p < n && p < limit && #[trigger] hunt_links(world, max_x, max_y)(turfs[p], v)
                    ==> turfs.contains(v)
            &&& end.space == turfs.take(n).filter(|i: TurfID| is_space(world, i))
        }),
{
    let first = hunt_from(turf_idx);
    assert(first.turfs.take(0) =~= Seq::<TurfID>::empty());
    reveal(Seq::filter);
    assert(first.space =~= first.turfs.take(0).filter(|i: TurfID| is_space(world, i)));
    assert(gone_through(world, max_x, max_y, limit, first, 0));
    let n = lemma_all_through(world, max_x, max_y, limit, first, 0);
    let end = hunted(world, max_x, max_y, limit, first, 0);
    assert(end.turfs[0] == first.turfs[0]);
    n
}

/// The turf that another one gets its target from is among the first `b` turfs.
spec fn from_before<A: Amount>(spread: Spread<A>, b: int) -> bool {
    forall|k: int|
        0 <= k < spread.targets.len() ==> #[trigger] reached_before(
            spread.order,
            spread.targets[k].0,
            b,
        )
}

/// Turf `i` is one of the first `b` turfs of `order`.
pub open spec fn reached_before(order: Seq<(TurfID, u8)>, i: TurfID, b: int) -> bool {
    exists|q: int| 0 <= q < b && q < order.len() && (#[trigger] order[q]).0 == i
}

proof fn lemma_still_before(a: Seq<(TurfID, u8)>, b: Seq<(TurfID, u8)>, i: TurfID, n: int)
    requires
        a.is_prefix_of(b),
        reached_before(a, i, n),
    ensures
        reached_before(b, i, n),
{
    let q = choose|q: int| 0 <= q < n && q < a.len() && (#[trigger] a[q]).0 == i;
    assert(b[q].0 == i);
}

proof fn lemma_steps_before<A: Amount>(
    world: Map<TurfID, TurfReading<A>>,
    spread: Spread<A>,
    i: TurfID,
    steps: Seq<(u8, TurfID)>,
    b: int,
)
    requires
        from_before(spread, b),
        reached_before(spread.order, i, b),
    ensures
        from_before(spread_steps(world, spread, i, steps), b),
        spread.order.is_prefix_of(spread_steps(world, spread, i, steps).order),
    decreases steps.len(),
{
    if steps.len() > 0 {
        let next = spread_step(world, spread, i, steps[0]);
        assert(spread.order.is_prefix_of(next.order));
        lemma_still_before(spread.order, next.order, i, b);
        assert forall|k: int| 0 <= k < next.targets.len() implies #[trigger] reached_before(
            next.order,
            next.targets[k].0,
            b,
        ) by {
            if k < spread.targets.len() {
                assert(next.targets[k] == spread.targets[k]);
                assert(reached_before(spread.order, spread.targets[k].0, b));
                lemma_still_before(spread.order, next.order, spread.targets[k].0, b);
            }
        }
        lemma_steps_before(world, next, i, steps.drop_first(), b);
        let end = spread_steps(world, spread, i, steps);
        assert forall|p: int| 0 <= p < spread.order.len() implies spread.order[p]
            == end.order[p] by {
            assert(spread.order[p] == next.order[p]);
        }
    }
}

proof fn lemma_on_before<A: Amount>(
    world: Map<TurfID, TurfReading<A>>,
    max_x: int,
    max_y: int,
    limit: int,
    spread: Spread<A>,
    at: int,
)
    requires
        from_before(spread, limit),
        0 <= at,
    ensures
        from_before(spread_on(world, max_x, max_y, limit, spread, at), limit),
    decreases 0x100_0000_0000 - at,
{
    if at < spread.order.len() && at < 0x100_0000_0000 {
        if at + 1 > limit {
            lemma_on_before(world, max_x, max_y, limit, spread, at + 1);
        } else {
            let (i, adjacency) = spread.order[at];
            let steps = neighbours(adjacency, i, max_x, max_y, 0, 7);
            assert(spread.order[at].0 == i);
            assert(reached_before(spread.order, i, limit));
            lemma_steps_before(world, spread, i, steps, limit);
            let next = spread_steps(world, spread, i, steps);
            lemma_on_before(world, max_x, max_y, limit, next, at + 1);
        }
    }
}

/// On the way inwards nothing is reached from a turf past the limit: whatever gets the target of
/// another turf gets that of one of the first `limit` turfs.
pub proof fn nothing_is_drawn_past_the_limit<A: Amount>(
    world: Map<TurfID, TurfReading<A>>,
    max_x: int,
    max_y: int,
    limit: int,
    space: Seq<TurfID>,
)
    ensures
        ({
            let spread = spread_from(world, max_x, max_y, limit, space);
            forall|k: int|
                0 <= k < spread.targets.len() ==> #[trigger] reached_before(
                    spread.order,
                    spread.targets[k].0,
                    limit,
                )
        }),
{
    let first = Spread::<A> {
        order: space_left(world, space),
        info: Map::empty(),
        targets: Seq::empty(),
    };
    lemma_on_before(world, max_x, max_y, limit, first, 0);
}

/// Turf `v` lies where gas can flow from the turf at `p`, going by the adjacency that it was
/// reached with.
pub open spec fn seen_from(
    order: Seq<(TurfID, u8)>,
    p: int,
    v: TurfID,
    max_x: int,
    max_y: int,
) -> bool {
    next_to(order[p].1, order[p].0, v, max_x, max_y, 7)
}

/// Turf `v` is seen from one of the first `at` turfs, and that before the limit.
pub open spec fn seen(
    order: Seq<(TurfID, u8)>,
    limit: int,
    at: int,
    v: TurfID,
    max_x: int,
    max_y: int,
) -> bool {
    exists|p: int|
        0 <= p < at && p < limit && p < order.len() && #[trigger] seen_from(
            order,
            p,
            v,
            max_x,
            max_y,
        )
}

spec fn seen_have_books<A: Amount>(
    world: Map<TurfID, TurfReading<A>>,
    spread: Spread<A>,
    limit: int,
    at: int,
    max_x: int,
    max_y: int,
) -> bool {
    forall|v: TurfID| #[trigger]
        spread.info.contains_key(v) <==> world.contains_key(v) && seen(
            spread.order,
            limit,
            at,
            v,
            max_x,
            max_y,
        )
}

proof fn lemma_steps_give_books<A: Amount>(
    world: Map<TurfID, TurfReading<A>>,
    spread: Spread<A>,
    i: TurfID,
    steps: Seq<(u8, TurfID)>,
)
    ensures
        ({
            let end = spread_steps(world, spread, i, steps);
            &&& spread.order.is_prefix_of(end.order)
            &&& forall|v: TurfID| #[trigger]
                end.info.contains_key(v) <==> spread.info.contains_key(v) || (world.contains_key(v)
                    && exists|k: int| 0 <= k < steps.len() && (#[trigger] steps[k]).1 == v)
        }),
    decreases steps.len(),
{
    if steps.len() > 0 {
        let rest = steps.drop_first();
        let next = spread_step(world, spread, i, steps[0]);
        lemma_steps_give_books(world, next, i, rest);
        let end = spread_steps(world, spread, i, steps);
        assert(end == spread_steps(world, next, i, rest));
        assert forall|v: TurfID| #[trigger] end.info.contains_key(v) <==> spread.info.contains_key(
            v,
        ) || (world.contains_key(v) && exists|k: int|
            0 <= k < steps.len() && (#[trigger] steps[k]).1 == v) by {
            assert(next.info.contains_key(v) <==> spread.info.contains_key(v) || (
            world.contains_key(v) && steps[0].1 == v));
            if exists|k: int| 0 <= k < rest.len() && (#[trigger] rest[k]).1 == v {
                let k = choose|k: int| 0 <= k < rest.len() && (#[trigger] rest[k]).1 == v;
                assert(steps[k + 1].1 == v);
            }
            if exists|k: int| 0 <= k < steps.len() && (#[trigger] steps[k]).1 == v {
                let k = choose|k: int| 0 <= k < steps.len() && (#[trigger] steps[k]).1 == v;
                if k > 0 {
                    assert(rest[k - 1].1 == v);
                }
            }
        }
        assert forall|p: int| 0 <= p < spread.order.len() implies spread.order[p]
            == end.order[p] by {
            assert(spread.order[p] == next.order[p]);
        }
    }
}

proof fn lemma_on_gives_books<A: Amount>(
    world: Map<TurfID, TurfReading<A>>,
    max_x: int,
    max_y: int,
    limit: int,
    spread: Spread<A>,
    at: int,
) -> (n: int)
    requires
        seen_have_books(world, spread, limit, at, max_x, max_y),
        0 <= at,
    ensures
        ({
            let end = spread_on(world, max_x, max_y, limit, spread, at);
            &&& seen_have_books(world, end, limit, n, max_x, max_y)
            &&& n >= end.order.len() || n >= 0x100_0000_0000
        }),
    decreases 0x100_0000_0000 - at,
{
    if at < spread.order.len() && at < 0x100_0000_0000 {
        let order = spread.order;
        if at + 1 > limit {
            assert forall|v: TurfID| #[trigger] spread.info.contains_key(v) <==> world.contains_key(
                v,
            ) && seen(order, limit, at + 1, v, max_x, max_y) by {
                assert(seen(order, limit, at + 1, v, max_x, max_y) <==> seen(
                    order,
                    limit,
                    at,
                    v,
                    max_x,
                    max_y,
                ));
            }
            lemma_on_gives_books(world, max_x, max_y, limit, spread, at + 1)
        } else {
            let (i, adjacency) = order[at];
            let steps = neighbours(adjacency, i, max_x, max_y, 0, 7);
            let next = spread_steps(world, spread, i, steps);
            lemma_steps_give_books(world, spread, i, steps);
            lemma_next_to(adjacency, i, max_x, max_y, 7);
            assert forall|v: TurfID| #[trigger] next.info.contains_key(v) <==> world.contains_key(v)
                && seen(next.order, limit, at + 1, v, max_x, max_y) by {
                assert(spread.info.contains_key(v) <==> world.contains_key(v) && seen(
                    order,
                    limit,
                    at,
                    v,
                    max_x,
                    max_y,
                ));
                if seen(order, limit, at, v, max_x, max_y) {
                    let p = choose|p: int|
                        0 <= p < at && p < limit && p < order.len() && #[trigger] seen_from(
                            order,
                            p,
                            v,
                            max_x,
                            max_y,
                        );
                    assert(next.order[p] == order[p]);
                    assert(seen_from(next.order, p, v, max_x, max_y));
                }
                if exists|k: int| 0 <= k < steps.len() && (#[trigger] steps[k]).1 == v {
                    assert(next.order[at] == order[at]);
                    assert(seen_from(next.order, at, v, max_x, max_y));
                }
                if seen(next.order, limit, at + 1, v, max_x, max_y) {
                    let p = choose|p: int|
                        0 <= p < at + 1 && p < limit && p < next.order.len()
                            && #[trigger] seen_from(next.order, p, v, max_x, max_y);
                    assert(next.order[p] == order[p]);
                    if p < at {
                        assert(seen_from(order, p, v, max_x, max_y));
                    } else {
                        assert(next_to(adjacency, i, v, max_x, max_y, 7));
                    }
                }
            }
            lemma_on_gives_books(world, max_x, max_y, limit, next, at + 1)
        }
    } else {
        at
    }
}

/// On the way inwards books are begun for all that is seen, and for nothing else: for every turf
/// that exists and lies where gas can flow from a turf that was reached before the limit.
pub proof fn all_that_is_seen_has_books<A: Amount>(
    world: Map<TurfID, TurfReading<A>>,
    max_x: int,
    max_y: int,
    limit: int,
    space: Seq<TurfID>,
    v: TurfID,
)
    requires
        space.no_duplicates(),
    ensures
        ({
            let spread = spread_from(world, max_x, max_y, limit, space);
            spread.info.contains_key(v) <==> world.contains_key(v) && seen(
                spread.order,
                limit,
                spread.order.len() as int,
                v,
                max_x,
                max_y,
            )
        }),
{
    let first = Spread::<A> {
        order: space_left(world, space),
        info: Map::empty(),
        targets: Seq::empty(),
    };
    let n = lemma_on_gives_books(world, max_x, max_y, limit, first, 0);
    let spread = spread_from(world, max_x, max_y, limit, space);
    let order = spread.order;
    air_finds_its_way(world, max_x, max_y, limit, space);
    assert(order.no_duplicates()) by {
        assert forall|p: int, q: int|
            0 <= p < order.len() && 0 <= q < order.len() && p != q implies order[p] != order[q] by {
            if p < q {
                assert(order[p].0 != order[q].0);
            } else {
                assert(order[q].0 != order[p].0);
            }
        }
    }
    lemma_distinct_pairs_len(order);
    assert(spread.info.contains_key(v) <==> world.contains_key(v) && seen(
        order,
        limit,
        n,
        v,
        max_x,
        max_y,
    ));
    assert(seen(order, limit, n, v, max_x, max_y) <==> seen(
        order,
        limit,
        order.len() as int,
        v,
        max_x,
        max_y,
    ));
}

} // verus!
