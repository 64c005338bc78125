//! Which turf of space the air of a turf goes to, and which turfs let air out.
use vstd::prelude::*;
use crate::amount::Amount;
use crate::depressurize::{
    all_listed, same_ways, space_left, spread_from, spread_on, spread_step, spread_steps, vents,
    Spread,
};
use crate::flood::TurfReading;
use crate::grid::{adjacent, lemma_neighbours, neighbours, opposite_step_returns, TurfID};
use crate::info::ReducedInfo;
use crate::laws::breadth::{
    breadth_first, breadth_first_is_shortest, depth, lemma_goes_on, lemma_next_to, lemma_reaches,
    looked_around, nearest, next_to, opens_to, reached_by, source,
};
use crate::laws::depressurize::{
    ahead, distinct_turfs, leads_back, lemma_space_left, lemma_spread_step, spread_ok, ways_out,
};
use crate::laws::grid::neighbours_lie_where_set;
use crate::tables::{lemma_distinct_pairs_len, reduced_of};

verus! {

/// The turfs of `order` without their adjacency.
pub open spec fn ids(order: Seq<(TurfID, u8)>) -> Seq<TurfID> {
    order.map_values(|turf: (TurfID, u8)| turf.0)
}

/// Gas can flow from turf `u` to turf `v`, and the air of `v` can change.
pub open spec fn air_links<A: Amount>(
    world: Map<TurfID, TurfReading<A>>,
    max_x: int,
    max_y: int,
) -> spec_fn(TurfID, TurfID) -> bool {
    |u: TurfID, v: TurfID|
        {
            &&& world.contains_key(u)
            &&& next_to(world[u].mixture.adjacency, u, v, max_x, max_y, 7)
            &&& world.contains_key(v)
            &&& !world[v].immutable
        }
}

/// How many steps the air of the turf at `p` has to go to one of the first `n`
/// turfs.
pub open spec fn way_len<A: Amount>(
    info: Map<TurfID, ReducedInfo<A>>,
    order: Seq<(TurfID, u8)>,
    n: int,
    p: int,
    max_x: int,
    max_y: int,
) -> nat
    decreases p,
{
    let q = ahead(info, order, p, max_x, max_y);
    if p < n || !(0 <= q < p) {
        0
    } else {
        1 + way_len(info, order, n, q, max_x, max_y)
    }
}

/// Where the air of the turf at `p` ends up, as a place in `order`.
pub open spec fn way_end<A: Amount>(
    info: Map<TurfID, ReducedInfo<A>>,
    order: Seq<(TurfID, u8)>,
    n: int,
    p: int,
    max_x: int,
    max_y: int,
) -> int
    decreases p,
{
    let q = ahead(info, order, p, max_x, max_y);
    if p < n || !(0 <= q < p) {
        p
    } else {
        way_end(info, order, n, q, max_x, max_y)
    }
}

/// The targets of all turfs, once every pair of `pairs` has been heeded, one
/// after the other: the second turf of a pair gets the target of the first.
pub open spec fn targets_told(
    targets: Map<TurfID, TurfID>,
    pairs: Seq<(TurfID, TurfID)>,
) -> Map<TurfID, TurfID>
    decreases pairs.len(),
{
    if pairs.len() == 0 {
        targets
    } else {
        let before = targets_told(targets, pairs.drop_last());
        before.insert(pairs.last().1, before[pairs.last().0])
    }
}

/// The air of the turf at `p` goes to the turf from which it was reached.
spec fn goes_back<A: Amount>(
    spread: Spread<A>,
    from: Seq<int>,
    p: int,
    max_x: int,
    max_y: int,
) -> bool {
    let i = spread.order[p].0;
    0 <= from[p] < p && spread.order[from[p]].0 == adjacent(
        reduced_of(spread.info, i).curr_transfer_dir as int,
        i,
        max_x,
        max_y,
    )
}

spec fn found_in_turn<A: Amount>(
    world: Map<TurfID, TurfReading<A>>,
    spread: Spread<A>,
    from: Seq<int>,
    n: int,
    at: int,
    max_x: int,
    max_y: int,
) -> bool {
    &&& spread_ok(world, spread, n, max_x, max_y)
    &&& breadth_first(air_links(world, max_x, max_y), ids(spread.order), from, n, at)
    &&& forall|p: int|
        n <= p < spread.order.len() ==> #[trigger] goes_back(spread, from, p, max_x, max_y)
}

proof fn lemma_step_in_turn<A: Amount>(
    world: Map<TurfID, TurfReading<A>>,
    spread: Spread<A>,
    from: Seq<int>,
    n: int,
    at: int,
    step: (u8, TurfID),
    max_x: int,
    max_y: int,
) -> (came: Seq<int>)
    requires
        found_in_turn(world, spread, from, n, at, max_x, max_y),
        at < spread.order.len(),
        step.0 < 7,
        opens_to(spread.order[at].1, step.0),
        step.1 == adjacent(step.0 as int, spread.order[at].0, max_x, max_y),
    ensures
        ({
            let next = spread_step(world, spread, spread.order[at].0, step);
            &&& found_in_turn(world, next, came, n, at, max_x, max_y)
            &&& spread.order.is_prefix_of(next.order)
            &&& world.contains_key(step.1) && !world[step.1].immutable ==> ids(
                next.order,
            ).contains(step.1)
        }),
{
    let (j, loc) = step;
    let order = spread.order;
    let i = order[at].0;
    let next = spread_step(world, spread, i, step);
    let links = air_links(world, max_x, max_y);
    lemma_spread_step(world, spread, n, at, step, max_x, max_y);
    let turf = (loc, world[loc].mixture.adjacency);
    if world.contains_key(loc) && !world[loc].immutable && !order.contains(turf) {
        let came = from.push(at);
        let last = order.len() as int;
        assert(!ids(order).contains(loc)) by {
            if ids(order).contains(loc) {
                let p = choose|p: int| 0 <= p < ids(order).len() && ids(order)[p] == loc;
                assert(order[p] == turf);
            }
        }
        assert(ids(next.order) =~= ids(order).push(loc));
        assert(world.contains_key(order[at].0));
        assert(next_to(world[i].mixture.adjacency, i, loc, max_x, max_y, 7));
        assert(ids(order)[at] == i);
        assert(links(i, loc));
        lemma_reaches(links, ids(order), from, n, at, loc);
        assert(j < 6) by {
            if j == 6 {
                assert((i + 0) % 0x1_0000_0000 == i);
                assert(ids(order)[at] == loc);
            }
        }
        opposite_step_returns(j as int, i, max_x, max_y);
        assert forall|p: int| n <= p < next.order.len() implies #[trigger] goes_back(
            next,
            came,
            p,
            max_x,
            max_y,
        ) by {
            if p < last {
                assert(goes_back(spread, from, p, max_x, max_y));
                assert(ids(order)[p] == order[p].0);
                assert(order[p].0 != loc);
                assert(reduced_of(next.info, order[p].0) == reduced_of(spread.info, order[p].0));
            }
        }
        assert(ids(next.order)[last] == loc);
        came
    } else {
        assert(next.order == order);
        assert forall|p: int| n <= p < next.order.len() implies #[trigger] goes_back(
            next,
            from,
            p,
            max_x,
            max_y,
        ) by {
            assert(goes_back(spread, from, p, max_x, max_y));
            assert(reduced_of(next.info, order[p].0) == reduced_of(spread.info, order[p].0));
        }
        if order.contains(turf) {
            let p = choose|p: int| 0 <= p < order.len() && order[p] == turf;
            assert(ids(order)[p] == loc);
        }
        from
    }
}

proof fn lemma_steps_in_turn<A: Amount>(
    world: Map<TurfID, TurfReading<A>>,
    spread: Spread<A>,
    from: Seq<int>,
    n: int,
    at: int,
    steps: Seq<(u8, TurfID)>,
    max_x: int,
    max_y: int,
) -> (came: Seq<int>)
    requires
        found_in_turn(world, spread, from, n, at, max_x, max_y),
        at < spread.order.len(),
        forall|k: int|
            #![trigger steps[k]]
            0 <= k < steps.len() ==> steps[k].0 < 7 && opens_to(spread.order[at].1, steps[k].0)
                && steps[k].1 == adjacent(steps[k].0 as int, spread.order[at].0, max_x, max_y),
    ensures
        ({
            let end = spread_steps(world, spread, spread.order[at].0, steps);
            &&& found_in_turn(world, end, came, n, at, max_x, max_y)
            &&& spread.order.is_prefix_of(end.order)
            &&& forall|k: int|
                #![trigger steps[k]]
                0 <= k < steps.len() && world.contains_key(steps[k].1)
                    && !world[steps[k].1].immutable ==> ids(end.order).contains(steps[k].1)
        }),
    decreases steps.len(),
{
    if steps.len() > 0 {
        let i = spread.order[at].0;
        let rest = steps.drop_first();
        let between = lemma_step_in_turn(world, spread, from, n, at, steps[0], max_x, max_y);
        let next = spread_step(world, spread, i, steps[0]);
        assert(next.order[at] == spread.order[at]);
        let came = lemma_steps_in_turn(world, next, between, n, at, rest, max_x, max_y);
        let end = spread_steps(world, spread, i, steps);
        assert(end == spread_steps(world, next, i, rest));
        assert forall|k: int|
            #![trigger steps[k]]
            0 <= k < steps.len() && world.contains_key(steps[k].1)
                && !world[steps[k].1].immutable implies ids(end.order).contains(steps[k].1) by {
            if k > 0 {
                assert(rest[k - 1] == steps[k]);
            } else {
                let p = choose|p: int|
                    0 <= p < ids(next.order).len() && ids(next.order)[p] == steps[0].1;
                assert(end.order[p] == next.order[p]);
                assert(ids(end.order)[p] == steps[0].1);
            }
        }
        came
    } else {
        from
    }
}

proof fn lemma_order_len(order: Seq<(TurfID, u8)>)
    requires
        distinct_turfs(order),
    ensures
        order.len() <= 0x100_0000_0000,
{
    assert forall|p: int, q: int|
        0 <= p < order.len() && 0 <= q < order.len() && p != q implies order[p] != order[q] by {
        if p < q {
            assert(order[p].0 != order[q].0);
        } else {
            assert(order[q].0 != order[p].0);
        }
    }
    lemma_distinct_pairs_len(order);
}

proof fn lemma_spread_in_turn<A: Amount>(
    world: Map<TurfID, TurfReading<A>>,
    max_x: int,
    max_y: int,
    limit: int,
    spread: Spread<A>,
    from: Seq<int>,
    n: int,
    at: int,
    done: int,
) -> (end: (Seq<int>, int))
    requires
        found_in_turn(world, spread, from, n, done, max_x, max_y),
        0 <= done <= at,
        done == at || done >= limit,
    ensures
        found_in_turn(
            world,
            spread_on(world, max_x, max_y, limit, spread, at),
            end.0,
            n,
            end.1,
            max_x,
            max_y,
        ),
        spread.order.is_prefix_of(spread_on(world, max_x, max_y, limit, spread, at).order),
        end.1 == spread_on(world, max_x, max_y, limit, spread, at).order.len() || end.1 >= limit,
    decreases 0x100_0000_0000 - at,
{
    lemma_order_len(spread.order);
    if at >= spread.order.len() {
        (from, done)
    } else if at + 1 > limit {
        lemma_spread_in_turn(world, max_x, max_y, limit, spread, from, n, at + 1, done)
    } else {
        let (i, adjacency) = spread.order[at];
        let links = air_links(world, max_x, max_y);
        let steps = neighbours(adjacency, i, max_x, max_y, 0, 7);
        lemma_neighbours(adjacency, i, max_x, max_y, 0, 7);
        assert forall|k: int| #![trigger steps[k]] 0 <= k < steps.len() implies opens_to(
            adjacency,
            steps[k].0,
        ) by {
            neighbours_lie_where_set(adjacency, i, max_x, max_y, 0, 7, steps[k].0);
            assert(steps.contains(steps[k]));
        }
        let between = lemma_steps_in_turn(world, spread, from, n, at, steps, max_x, max_y);
        let next = spread_steps(world, spread, i, steps);
        assert(next.order[at] == spread.order[at]);
        assert(ids(next.order)[at] == i);
        assert(adjacency == world[spread.order[at].0].mixture.adjacency);
        lemma_next_to(adjacency, i, max_x, max_y, 7);
        assert forall|v: TurfID| links(i, v) implies #[trigger] ids(next.order).contains(v) by {
            assert(next_to(adjacency, i, v, max_x, max_y, 7));
            let k = choose|k: int| 0 <= k < steps.len() && (#[trigger] steps[k]).1 == v;
            assert(world.contains_key(steps[k].1));
        }
        lemma_goes_on(links, ids(next.order), between, n, at);
        lemma_spread_in_turn(world, max_x, max_y, limit, next, between, n, at + 1, at + 1)
    }
}

proof fn lemma_way<A: Amount>(
    world: Map<TurfID, TurfReading<A>>,
    spread: Spread<A>,
    from: Seq<int>,
    n: int,
    at: int,
    p: int,
    max_x: int,
    max_y: int,
)
    requires
        found_in_turn(world, spread, from, n, at, max_x, max_y),
        0 <= p < spread.order.len(),
    ensures
        way_len(spread.info, spread.order, n, p, max_x, max_y) == depth(from, n, p),
        way_end(spread.info, spread.order, n, p, max_x, max_y) == source(from, n, p),
        p >= n ==> ahead(spread.info, spread.order, p, max_x, max_y) == from[p],
    decreases p,
{
    if p >= n {
        let order = spread.order;
        assert(goes_back(spread, from, p, max_x, max_y));
        assert(leads_back(order, spread.info, p, max_x, max_y));
        let q = ahead(spread.info, order, p, max_x, max_y);
        assert(0 <= q < p && order[q].0 == order[from[p]].0);
        assert(ids(order)[q] == ids(order)[from[p]]);
        assert(q == from[p]);
        lemma_way(world, spread, from, n, at, q, max_x, max_y);
    }
}

proof fn lemma_targets<A: Amount>(
    spread: Spread<A>,
    n: int,
    targets: Map<TurfID, TurfID>,
    m: int,
    max_x: int,
    max_y: int,
)
    requires
        ways_out(spread.order, spread.info, n, max_x, max_y),
        spread.targets.len() == spread.order.len() - n,
        forall|k: int|
            #![trigger spread.targets[k]]
            0 <= k < spread.targets.len() ==> spread.targets[k] == (
                spread.order[ahead(spread.info, spread.order, n + k, max_x, max_y)].0,
                spread.order[n + k].0,
            ),
        forall|p: int|
            0 <= p < n ==> targets[(#[trigger] spread.order[p]).0] == spread.order[p].0,
        n <= m <= spread.order.len(),
    ensures
        forall|p: int|
            0 <= p < m ==> targets_told(targets, spread.targets.take(m - n))[(
            #[trigger] spread.order[p]).0] == spread.order[way_end(
                spread.info,
                spread.order,
                n,
                p,
                max_x,
                max_y,
            )].0,
    decreases m - n,
{
    let order = spread.order;
    let pairs = spread.targets.take(m - n);
    if m > n {
        lemma_targets(spread, n, targets, m - 1, max_x, max_y);
        let front = spread.targets.take(m - 1 - n);
        assert(pairs.drop_last() =~= front);
        assert(pairs.last() == spread.targets[m - 1 - n]);
        assert(leads_back(order, spread.info, m - 1, max_x, max_y));
        let q = ahead(spread.info, order, m - 1, max_x, max_y);
        assert(0 <= q < m - 1);
        let before = targets_told(targets, front);
        assert forall|p: int| 0 <= p < m implies targets_told(targets, pairs)[(
        #[trigger] order[p]).0] == order[way_end(spread.info, order, n, p, max_x, max_y)].0 by {
            if p < m - 1 {
                assert(order[p].0 != order[m - 1].0);
            } else {
                assert(before[order[q].0] == order[way_end(
                    spread.info,
                    order,
                    n,
                    q,
                    max_x,
                    max_y,
                )].0);
            }
        }
    } else {
        assert(pairs =~= Seq::empty());
    }
}

/// The way inwards goes breadth first.
proof fn lemma_whole_spread<A: Amount>(
    world: Map<TurfID, TurfReading<A>>,
    max_x: int,
    max_y: int,
    limit: int,
    space: Seq<TurfID>,
) -> (end: (Seq<int>, int))
    requires
        space.no_duplicates(),
    ensures
        ({
            let spread = spread_from(world, max_x, max_y, limit, space);
            let n = space_left(world, space).len() as int;
            &&& found_in_turn(world, spread, end.0, n, end.1, max_x, max_y)
            &&& end.1 == spread.order.len() || end.1 >= limit
            &&& ids(spread.order).take(n) == ids(space_left(world, space))
            &&& space_left(world, space).is_prefix_of(spread.order)
        }),
{
    let start = space_left(world, space);
    let n = start.len() as int;
    let first = Spread::<A> { order: start, info: Map::empty(), targets: Seq::empty() };
    lemma_space_left(world, space);
    let none = Seq::new(n as nat, |p: int| 0int);
    assert(spread_ok(world, first, n, max_x, max_y));
    assert(ids(start).no_duplicates()) by {
        assert forall|p: int, q: int|
            0 <= p < ids(start).len() && 0 <= q < ids(start).len() && p != q implies ids(start)[p]
            != ids(start)[q] by {
            if p < q {
                assert(start[p].0 != start[q].0);
            } else {
                assert(start[q].0 != start[p].0);
            }
        }
    }
    assert(found_in_turn(world, first, none, n, 0, max_x, max_y));
    let end = lemma_spread_in_turn(
        world,
        max_x,
        max_y,
        limit,
        first,
        none,
        n,
        0,
        0,
    );
    let spread = spread_from(world, max_x, max_y, limit, space);
    assert(spread == spread_on(world, max_x, max_y, limit, first, 0));
    assert(ids(spread.order).take(n) =~= ids(start));
    end
}

/// No turf is left out on the way inwards: as long as the limit is not passed, every
/// turf whose air can change and that lies where gas can flow from a turf that was
/// reached has been reached, too.
pub proof fn air_is_drawn_from_everywhere<A: Amount>(
    world: Map<TurfID, TurfReading<A>>,
    max_x: int,
    max_y: int,
    limit: int,
    space: Seq<TurfID>,
)
    requires
        space.no_duplicates(),
    ensures
        ({
            let order = ids(spread_from(world, max_x, max_y, limit, space).order);
            forall|p: int, v: TurfID|
                0 <= p < order.len() && p < limit && #[trigger] air_links(world, max_x, max_y)(
                    order[p],
                    v,
                ) ==> order.contains(v)
        }),
{
    let (from, at) = lemma_whole_spread(world, max_x, max_y, limit, space);
    let links = air_links(world, max_x, max_y);
    let order = ids(spread_from(world, max_x, max_y, limit, space).order);
    let n = space_left(world, space).len() as int;
    assert forall|p: int, v: TurfID|
        0 <= p < order.len() && p < limit && #[trigger] links(order[p], v) implies order.contains(
        v,
    ) by {
        assert(looked_around(links, order, from, n, p));
        let r = choose|r: int| #[trigger] reached_by(order, from, n, p, v, r);
        assert(order[r] == v);
    }
}

/// The air of every turf goes to the nearest turf of space, by a shortest way,
/// and that is the turf that the turf is given for its target. A way leads
/// from a turf of space over turfs whose air can change, from each to one to which
/// gas can flow. `targets` are the targets before; the turfs of space are their
/// own.
pub proof fn air_goes_to_the_nearest_space<A: Amount>(
    world: Map<TurfID, TurfReading<A>>,
    max_x: int,
    max_y: int,
    limit: int,
    space: Seq<TurfID>,
    targets: Map<TurfID, TurfID>,
)
    requires
        space.no_duplicates(),
        forall|p: int| 0 <= p < space.len() ==> targets[#[trigger] space[p]] == space[p],
    ensures
        ({
            let spread = spread_from(world, max_x, max_y, limit, space);
            let n = space_left(world, space).len() as int;
            let order = spread.order;
            forall|p: int|
                #![trigger order[p]]
                0 <= p < order.len() ==> {
                    let end = way_end(spread.info, order, n, p, max_x, max_y);
                    &&& 0 <= end < n
                    &&& targets_told(targets, spread.targets)[order[p].0] == order[end].0
                    &&& nearest(
                        air_links(world, max_x, max_y),
                        ids(space_left(world, space)),
                        order[end].0,
                        order[p].0,
                        way_len(spread.info, order, n, p, max_x, max_y),
                    )
                }
        }),
{
    let start = space_left(world, space);
    let n = start.len() as int;
    let links = air_links(world, max_x, max_y);
    lemma_space_left(world, space);
    let (from, at) = lemma_whole_spread(world, max_x, max_y, limit, space);
    let spread = spread_from(world, max_x, max_y, limit, space);
    let order = spread.order;
    assert forall|k: int|
        #![trigger spread.targets[k]]
        0 <= k < spread.targets.len() implies spread.targets[k] == (
        order[ahead(spread.info, order, n + k, max_x, max_y)].0,
        order[n + k].0,
    ) by {
        assert(leads_back(order, spread.info, n + k, max_x, max_y));
    }
    assert forall|p: int| 0 <= p < n implies targets[(#[trigger] order[p]).0] == order[p].0 by {
        assert(order[p] == start[p]);
        let k = choose|k: int| 0 <= k < space.len() && space[k] == start[p].0;
        assert(targets[space[k]] == space[k]);
    }
    lemma_targets(spread, n, targets, order.len() as int, max_x, max_y);
    assert(spread.targets.take(order.len() - n) =~= spread.targets);
    assert forall|p: int|
        #![trigger order[p]]
        0 <= p < order.len() implies ({
        let end = way_end(spread.info, order, n, p, max_x, max_y);
        &&& 0 <= end < n
        &&& targets_told(targets, spread.targets)[order[p].0] == order[end].0
        &&& nearest(
            links,
            ids(start),
            order[end].0,
            order[p].0,
            way_len(spread.info, order, n, p, max_x, max_y),
        )
    }) by {
        lemma_way(world, spread, from, n, at, p, max_x, max_y);
        breadth_first_is_shortest(links, ids(order), from, n, at, p);
        assert(ids(order)[p] == order[p].0);
        let end = source(from, n, p);
        assert(ids(order)[end] == order[end].0);
    }
}

/// A venting can be gone through part by part: the turfs that let their air out
/// from `from` down to `to` are those down to `mid` and then those from there on,
/// and listing them all is listing the ones and then the others.
pub proof fn ventings_add_up<A: Amount>(
    info: Map<TurfID, ReducedInfo<A>>,
    between: Map<TurfID, ReducedInfo<A>>,
    order: Seq<(TurfID, u8)>,
    from: int,
    mid: int,
    to: int,
    list: Seq<Option<TurfID>>,
)
    requires
        same_ways(between, info),
        to <= mid <= from,
    ensures
        vents(info, order, from, to) == vents(info, order, from, mid) + vents(
            between,
            order,
            mid,
            to,
        ),
        all_listed(list, vents(info, order, from, to)) == all_listed(
            all_listed(list, vents(info, order, from, mid)),
            vents(between, order, mid, to),
        ),
    decreases mid - to,
{
    let first = vents(info, order, from, mid);
    let rest = vents(between, order, mid, to);
    let all = vents(info, order, from, to);
    if to < mid {
        ventings_add_up(info, between, order, from, mid, to + 1, list);
        let i = order[to].0;
        assert(reduced_of(between, i).curr_transfer_dir == reduced_of(info, i).curr_transfer_dir);
        let before = vents(between, order, mid, to + 1);
        if reduced_of(info, i).curr_transfer_dir != 6 {
            assert(rest.drop_last() =~= before);
            assert(all =~= first + rest);
            assert(all.drop_last() =~= first + before);
        }
    } else {
        assert(first + rest =~= first);
    }
}

proof fn lemma_vents<A: Amount>(
    info: Map<TurfID, ReducedInfo<A>>,
    order: Seq<(TurfID, u8)>,
    n: int,
    to: int,
    max_x: int,
    max_y: int,
)
    requires
        ways_out(order, info, n, max_x, max_y),
        0 <= to <= order.len(),
    ensures
        ({
            let turfs = vents(info, order, order.len() as int, to);
            let m = if to < n {
                n
            } else {
                to
            };
            &&& turfs.len() == order.len() - m
            &&& forall|k: int|
                0 <= k < turfs.len() ==> #[trigger] turfs[k] == order[order.len() - 1 - k].0
        }),
    decreases order.len() - to,
{
    if to < order.len() {
        lemma_vents(info, order, n, to + 1, max_x, max_y);
        if to < n {
            assert(reduced_of(info, order[to].0).curr_transfer_dir == 6);
        } else {
            assert(leads_back(order, info, to, max_x, max_y));
        }
    }
}

/// A whole venting lets out the air of every turf that was reached but for the
/// ends of the ways, once each, the last one first.
pub proof fn every_turf_vents_once<A: Amount>(
    info: Map<TurfID, ReducedInfo<A>>,
    order: Seq<(TurfID, u8)>,
    n: int,
    max_x: int,
    max_y: int,
)
    requires
        ways_out(order, info, n, max_x, max_y),
    ensures
        ({
            let turfs = vents(info, order, order.len() as int, 0);
            &&& turfs.len() == order.len() - n
            &&& forall|k: int|
                0 <= k < turfs.len() ==> #[trigger] turfs[k] == order[order.len() - 1 - k].0
            &&& turfs.no_duplicates()
        }),
{
    lemma_vents(info, order, n, 0, max_x, max_y);
    let turfs = vents(info, order, order.len() as int, 0);
    assert forall|p: int, q: int|
        0 <= p < turfs.len() && 0 <= q < turfs.len() && p != q implies turfs[p] != turfs[q] by {
        let len = order.len();
        assert(turfs[p] == order[len - 1 - p].0 && turfs[q] == order[len - 1 - q].0);
        if p < q {
            assert(order[len - 1 - q].0 != order[len - 1 - p].0);
        } else {
            assert(order[len - 1 - p].0 != order[len - 1 - q].0);
        }
    }
}

/// The list of turfs under high pressure keeps what is in it. Turfs are added
/// behind it, none of them twice and none that is named already, and in the
/// end each of them is named.
pub proof fn turfs_are_listed_once(list: Seq<Option<TurfID>>, turfs: Seq<TurfID>)
    ensures
        ({
            let end = all_listed(list, turfs);
            &&& list.is_prefix_of(end)
            &&& forall|i: TurfID| #[trigger] turfs.contains(i) ==> end.contains(Some(i))
            &&& forall|k: int|
                list.len() <= k < end.len() ==> (#[trigger] end[k] matches Some(i)
                    && turfs.contains(i))
            &&& forall|k: int, l: int|
                0 <= k < l < end.len() && list.len() <= l ==> #[trigger] end[k]
                    != #[trigger] end[l]
        }),
    decreases turfs.len(),
{
    if turfs.len() > 0 {
        let front = turfs.drop_last();
        let last = turfs.last();
        turfs_are_listed_once(list, front);
        let before = all_listed(list, front);
        let end = all_listed(list, turfs);
        assert(turfs[turfs.len() - 1] == last);
        assert forall|k: int| 0 <= k < before.len() implies #[trigger] end[k] == before[k] by {}
        assert(end.contains(Some(last))) by {
            if !before.contains(Some(last)) {
                assert(end[before.len() as int] == Some(last));
            }
        }
        assert forall|i: TurfID| #[trigger] turfs.contains(i) implies end.contains(Some(i)) by {
            if i != last {
                let p = choose|p: int| 0 <= p < turfs.len() && turfs[p] == i;
                assert(front[p] == i);
                assert(front.contains(i));
                let k = choose|k: int| 0 <= k < before.len() && before[k] == Some(i);
                assert(end[k] == Some(i));
            }
        }
        assert forall|k: int| list.len() <= k < end.len() implies (#[trigger] end[k] matches Some(
            i,
        ) && turfs.contains(i)) by {
            if k < before.len() {
                assert(end[k] == before[k]);
                let i = before[k]->0;
                assert(front.contains(i));
                let p = choose|p: int| 0 <= p < front.len() && front[p] == i;
                assert(turfs[p] == i);
            }
        }
        assert forall|k: int, l: int|
            0 <= k < l < end.len() && list.len() <= l implies #[trigger] end[k]
            != #[trigger] end[l] by {
            assert(end[k] == before[k]);
            if l < before.len() {
                assert(end[l] == before[l]);
            } else {
                assert(before.contains(before[k]));
            }
        }
    }
}

/// All turfs of space that still exist are where the way inwards begins, in their order, and no
/// others.
pub proof fn all_space_is_left<A: Amount>(
    world: Map<TurfID, TurfReading<A>>,
    space: Seq<TurfID>,
)
    ensures
        ids(space_left(world, space)) == space.filter(|i: TurfID| world.contains_key(i)),
        forall|i: TurfID|
            space.contains(i) && world.contains_key(i) ==> #[trigger] ids(
                space_left(world, space),
            ).contains(i),
        forall|p: int|
            0 <= p < space_left(world, space).len() ==> (#[trigger] space_left(world, space)[p]).1
                == world[space_left(world, space)[p].0].mixture.adjacency,
    decreases space.len(),
{
    let there = |i: TurfID| world.contains_key(i);
    reveal(Seq::filter);
    let all = space_left(world, space);
    if space.len() > 0 {
        let front = space.drop_last();
        let last = space.last();
        all_space_is_left(world, front);
        let before = space_left(world, front);
        if there(last) {
            assert(ids(all) =~= ids(before).push(last));
        }
        assert forall|p: int| 0 <= p < all.len() implies (#[trigger] all[p]).1
            == world[all[p].0].mixture.adjacency by {
            if p < before.len() {
                assert(all[p] == before[p]);
            }
        }
    } else {
        assert(ids(all) =~= Seq::empty());
    }
    assert forall|i: TurfID| space.contains(i) && world.contains_key(i) implies #[trigger] ids(
        all,
    ).contains(i) by {
        let p = choose|p: int| 0 <= p < space.len() && space[p] == i;
        space.lemma_filter_contains(there, p);
    }
}

} // verus!
