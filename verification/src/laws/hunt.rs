//! Where the search for space goes.
use vstd::prelude::*;
use crate::amount::Amount;
use crate::depressurize::{hunt_from, hunt_on, hunt_through, hunted, SpaceCall, SpaceHunt};
use crate::flood::TurfReading;
use crate::grid::{adjacent, lemma_neighbours, neighbours, TurfID};
use crate::laws::breadth::{
    breadth_first, lemma_goes_on, lemma_next_to, lemma_reaches, looked_around, next_to, opens_to,
    reached_by, reached_from,
};
use crate::laws::grid::neighbours_lie_where_set;
use crate::tables::lemma_distinct_len;

verus! {

/// The search goes on from turf `u`, which is neither of a planet nor space, to
/// turf `v`.
pub open spec fn hunt_links<A: Amount>(
    world: Map<TurfID, TurfReading<A>>,
    max_x: int,
    max_y: int,
) -> spec_fn(TurfID, TurfID) -> bool {
    |u: TurfID, v: TurfID|
        {
            &&& world.contains_key(u)
            &&& world[u].mixture.planetary_atmos is None
            &&& !world[u].immutable
            &&& next_to(world[u].mixture.adjacency, u, v, max_x, max_y, 7)
            &&& world.contains_key(v)
        }
}

/// Turf `i` is told to consider firelocks towards the turf at `p`, which was
/// reached from it.
pub open spec fn told(hunt: SpaceHunt, from: Seq<int>, p: int) -> bool {
    hunt.calls.contains(SpaceCall::Firelocks(hunt.turfs[from[p]], hunt.turfs[p]))
}

/// The call is that of a turf that was reached, or of one that is space.
pub open spec fn called_for(hunt: SpaceHunt, from: Seq<int>, call: SpaceCall) -> bool {
    match call {
        SpaceCall::OwnTarget(i) => hunt.space.contains(i),
        SpaceCall::Firelocks(i, loc) => exists|p: int|
            1 <= p < hunt.turfs.len() && #[trigger] hunt.turfs[p] == loc && hunt.turfs[from[p]]
                == i,
    }
}

/// The search goes breadth first, and of each turf that it reaches the game is told
/// once.
pub open spec fn hunted_in_turn<A: Amount>(
    world: Map<TurfID, TurfReading<A>>,
    hunt: SpaceHunt,
    from: Seq<int>,
    at: int,
    max_x: int,
    max_y: int,
) -> bool {
    &&& breadth_first(hunt_links(world, max_x, max_y), hunt.turfs, from, 1, at)
    &&& hunt.calls.len() == hunt.turfs.len() - 1 + hunt.space.len()
    &&& forall|p: int| 1 <= p < hunt.turfs.len() ==> #[trigger] told(hunt, from, p)
    &&& forall|k: int|
        0 <= k < hunt.calls.len() ==> called_for(hunt, from, #[trigger] hunt.calls[k])
}

proof fn lemma_hunt_on<A: Amount>(
    world: Map<TurfID, TurfReading<A>>,
    hunt: SpaceHunt,
    from: Seq<int>,
    at: int,
    steps: Seq<(u8, TurfID)>,
    max_x: int,
    max_y: int,
) -> (came: Seq<int>)
    requires
        hunted_in_turn(world, hunt, from, at, max_x, max_y),
        at < hunt.turfs.len(),
        world.contains_key(hunt.turfs[at]),
        world[hunt.turfs[at]].mixture.planetary_atmos is None,
        !world[hunt.turfs[at]].immutable,
        forall|k: int|
            #![trigger steps[k]]
            0 <= k < steps.len() ==> steps[k].0 < 7 && opens_to(
                world[hunt.turfs[at]].mixture.adjacency,
                steps[k].0,
            ) && steps[k].1 == adjacent(steps[k].0 as int, hunt.turfs[at], max_x, max_y),
    ensures
        ({
            let end = hunt_on(world, hunt, hunt.turfs[at], steps);
            &&& hunted_in_turn(world, end, came, at, max_x, max_y)
            &&& hunt.turfs.is_prefix_of(end.turfs)
            &&& forall|k: int|
                #![trigger steps[k]]
                0 <= k < steps.len() && world.contains_key(steps[k].1) ==> end.turfs.contains(
                    steps[k].1,
                )
        }),
    decreases steps.len(),
{
    if steps.len() > 0 {
        let i = hunt.turfs[at];
        let loc = steps[0].1;
        let rest = steps.drop_first();
        let links = hunt_links(world, max_x, max_y);
        let fresh = world.contains_key(loc) && !hunt.turfs.contains(loc);
        let next = if fresh {
            SpaceHunt {
                turfs: hunt.turfs.push(loc),
                calls: hunt.calls.push(SpaceCall::Firelocks(i, loc)),
                ..hunt
            }
        } else {
            hunt
        };
        let between = if fresh {
            from.push(at)
        } else {
            from
        };
        if fresh {
            assert(next_to(world[i].mixture.adjacency, i, loc, max_x, max_y, 7));
            assert(links(i, loc));
            lemma_reaches(links, hunt.turfs, from, 1, at, loc);
            let last = hunt.turfs.len() as int;
            assert forall|p: int| 1 <= p < last implies 0 <= #[trigger] from[p] < last by {
                assert(reached_from(links, hunt.turfs, from, p));
            }
            assert forall|p: int| 1 <= p < next.turfs.len() implies #[trigger] told(
                next,
                between,
                p,
            ) by {
                let call = SpaceCall::Firelocks(next.turfs[between[p]], next.turfs[p]);
                if p < last {
                    assert(told(hunt, from, p));
                    assert(0 <= from[p] < last);
                    let k = choose|k: int| 0 <= k < hunt.calls.len() && hunt.calls[k] == call;
                    assert(next.calls[k] == call);
                } else {
                    assert(next.calls[hunt.calls.len() as int] == call);
                }
            }
            assert forall|k: int| 0 <= k < next.calls.len() implies called_for(
                next,
                between,
                #[trigger] next.calls[k],
            ) by {
                if k < hunt.calls.len() {
                    assert(next.calls[k] == hunt.calls[k]);
                    assert(called_for(hunt, from, hunt.calls[k]));
                    if let SpaceCall::Firelocks(a, b) = hunt.calls[k] {
                        let p = choose|p: int|
                            1 <= p < hunt.turfs.len() && #[trigger] hunt.turfs[p] == b
                                && hunt.turfs[from[p]] == a;
                        assert(0 <= from[p] < last);
                        assert(next.turfs[p] == b);
                    }
                } else {
                    assert(next.turfs[last] == loc);
                }
            }
        }
        assert(next.turfs[at] == i);
        let came = lemma_hunt_on(world, next, between, at, rest, max_x, max_y);
        let end = hunt_on(world, hunt, i, steps);
        assert(end == hunt_on(world, next, i, rest));
        assert forall|k: int|
            #![trigger steps[k]]
            0 <= k < steps.len() && world.contains_key(steps[k].1) implies end.turfs.contains(
            steps[k].1,
        ) by {
            if k > 0 {
                assert(rest[k - 1] == steps[k]);
            } else {
                assert(next.turfs.contains(loc)) by {
                    if fresh {
                        assert(next.turfs[hunt.turfs.len() as int] == loc);
                    }
                }
                let p = choose|p: int| 0 <= p < next.turfs.len() && next.turfs[p] == loc;
                assert(end.turfs[p] == loc);
            }
        }
        came
    } else {
        from
    }
}

/// The search finds a turf of space.
proof fn lemma_space_found<A: Amount>(
    world: Map<TurfID, TurfReading<A>>,
    hunt: SpaceHunt,
    next: SpaceHunt,
    from: Seq<int>,
    at: int,
    i: TurfID,
    max_x: int,
    max_y: int,
)
    requires
        hunted_in_turn(world, hunt, from, at, max_x, max_y),
        next.turfs == hunt.turfs,
        next.space == hunt.space.push(i),
        next.calls == hunt.calls.push(SpaceCall::OwnTarget(i)),
    ensures
        hunted_in_turn(world, next, from, at, max_x, max_y),
{
    let links = hunt_links(world, max_x, max_y);
    let last = hunt.turfs.len() as int;
    assert forall|p: int| 1 <= p < last implies 0 <= #[trigger] from[p] < last by {
        assert(reached_from(links, hunt.turfs, from, p));
    }
    assert(next.space[hunt.space.len() as int] == i);
    assert forall|p: int| 1 <= p < next.turfs.len() implies #[trigger] told(
        next,
        from,
        p,
    ) by {
        assert(told(hunt, from, p));
        let call = SpaceCall::Firelocks(hunt.turfs[from[p]], hunt.turfs[p]);
        let k = choose|k: int| 0 <= k < hunt.calls.len() && hunt.calls[k] == call;
        assert(next.calls[k] == call);
    }
    assert forall|k: int| 0 <= k < next.calls.len() implies called_for(
        next,
        from,
        #[trigger] next.calls[k],
    ) by {
        if k < hunt.calls.len() {
            assert(next.calls[k] == hunt.calls[k]);
            assert(called_for(hunt, from, hunt.calls[k]));
            match hunt.calls[k] {
                SpaceCall::OwnTarget(a) => {
                    let p = choose|p: int|
                        0 <= p < hunt.space.len() && hunt.space[p] == a;
                    assert(next.space[p] == a);
                },
                SpaceCall::Firelocks(a, b) => {
                    let p = choose|p: int|
                        1 <= p < hunt.turfs.len() && #[trigger] hunt.turfs[p] == b
                            && hunt.turfs[from[p]] == a;
                    assert(next.turfs[p] == b);
                },
            }
        }
    }
}

proof fn lemma_hunt_through<A: Amount>(
    world: Map<TurfID, TurfReading<A>>,
    limit: int,
    hunt: SpaceHunt,
    from: Seq<int>,
    at: int,
    max_x: int,
    max_y: int,
) -> (came: Seq<int>)
    requires
        hunted_in_turn(world, hunt, from, at, max_x, max_y),
        at < hunt.turfs.len(),
    ensures
        ({
            let next = hunt_through(world, max_x, max_y, limit, hunt, hunt.turfs[at], at + 1);
            &&& hunted_in_turn(world, next, came, at, max_x, max_y)
            &&& at + 1 <= limit ==> hunted_in_turn(world, next, came, at + 1, max_x, max_y)
            &&& hunt.turfs.is_prefix_of(next.turfs)
        }),
{
    let i = hunt.turfs[at];
    let next = hunt_through(world, max_x, max_y, limit, hunt, i, at + 1);
    let links = hunt_links(world, max_x, max_y);
    let going = world.contains_key(i) && world[i].mixture.planetary_atmos is None
        && !world[i].immutable;
    if going && at + 1 <= limit {
        let adjacency = world[i].mixture.adjacency;
        let steps = neighbours(adjacency, i, max_x, max_y, 0, 7);
        lemma_neighbours(adjacency, i, max_x, max_y, 0, 7);
        assert forall|k: int| #![trigger steps[k]] 0 <= k < steps.len() implies opens_to(
            adjacency,
            steps[k].0,
        ) by {
            neighbours_lie_where_set(adjacency, i, max_x, max_y, 0, 7, steps[k].0);
            assert(steps.contains(steps[k]));
        }
        let came = lemma_hunt_on(world, hunt, from, at, steps, max_x, max_y);
        let end = hunt_on(world, hunt, i, steps);
        lemma_same_hunt(world, end, next, came, at, max_x, max_y);
        assert(next.turfs[at] == i);
        lemma_next_to(adjacency, i, max_x, max_y, 7);
        assert forall|v: TurfID| links(i, v) implies #[trigger] next.turfs.contains(v) by {
            assert(next_to(adjacency, i, v, max_x, max_y, 7));
            let k = choose|k: int| 0 <= k < steps.len() && (#[trigger] steps[k]).1 == v;
            assert(world.contains_key(steps[k].1));
        }
        lemma_goes_on(links, next.turfs, came, 1, at);
        came
    } else {
        assert(next.turfs == hunt.turfs);
        if next.space == hunt.space {
            lemma_same_hunt(world, hunt, next, from, at, max_x, max_y);
        } else {
            lemma_space_found(world, hunt, next, from, at, i, max_x, max_y);
        }
        if at + 1 <= limit {
            assert forall|v: TurfID| links(next.turfs[at], v) implies #[trigger] next.turfs.contains(
                v,
            ) by {}
            lemma_goes_on(links, next.turfs, from, 1, at);
        }
        from
    }
}

/// Whether the search is broken off is another matter.
proof fn lemma_same_hunt<A: Amount>(
    world: Map<TurfID, TurfReading<A>>,
    a: SpaceHunt,
    b: SpaceHunt,
    from: Seq<int>,
    at: int,
    max_x: int,
    max_y: int,
)
    requires
        hunted_in_turn(world, a, from, at, max_x, max_y),
        a.turfs == b.turfs,
        a.calls == b.calls,
        a.space == b.space,
    ensures
        hunted_in_turn(world, b, from, at, max_x, max_y),
{
    assert forall|p: int| 1 <= p < b.turfs.len() implies #[trigger] told(b, from, p) by {
        assert(told(a, from, p));
    }
    assert forall|k: int| 0 <= k < b.calls.len() implies called_for(
        b,
        from,
        #[trigger] b.calls[k],
    ) by {
        assert(called_for(a, from, a.calls[k]));
    }
}

proof fn lemma_hunted<A: Amount>(
    world: Map<TurfID, TurfReading<A>>,
    max_x: int,
    max_y: int,
    limit: int,
    hunt: SpaceHunt,
    from: Seq<int>,
    at: int,
    done: int,
) -> (end: (Seq<int>, int))
    requires
        hunted_in_turn(world, hunt, from, done, max_x, max_y),
        0 <= done <= at,
        done == at || done >= limit,
    ensures
        ({
            let last = hunted(world, max_x, max_y, limit, hunt, at);
            &&& hunted_in_turn(world, last, end.0, end.1, max_x, max_y)
            &&& last.given_up || end.1 == last.turfs.len() || end.1 >= limit
        }),
    decreases 0x1_0000_0000 - at,
{
    lemma_distinct_len(hunt.turfs);
    if at >= hunt.turfs.len() || hunt.given_up {
        (from, done)
    } else if at + 1 <= limit {
        let came = lemma_hunt_through(world, limit, hunt, from, at, max_x, max_y);
        let next = hunt_through(world, max_x, max_y, limit, hunt, hunt.turfs[at], at + 1);
        lemma_hunted(world, max_x, max_y, limit, next, came, at + 1, at + 1)
    } else {
        let next = hunt_through(world, max_x, max_y, limit, hunt, hunt.turfs[at], at + 1);
        let came = lemma_past_limit(world, limit, hunt, from, at, done, max_x, max_y);
        lemma_hunted(world, max_x, max_y, limit, next, came, at + 1, done)
    }
}

/// Past the limit the search finds space, but goes no further.
proof fn lemma_past_limit<A: Amount>(
    world: Map<TurfID, TurfReading<A>>,
    limit: int,
    hunt: SpaceHunt,
    from: Seq<int>,
    at: int,
    done: int,
    max_x: int,
    max_y: int,
) -> (came: Seq<int>)
    requires
        hunted_in_turn(world, hunt, from, done, max_x, max_y),
        0 <= done <= at < hunt.turfs.len(),
        at + 1 > limit,
    ensures
        hunted_in_turn(
            world,
            hunt_through(world, max_x, max_y, limit, hunt, hunt.turfs[at], at + 1),
            came,
            done,
            max_x,
            max_y,
        ),
{
    let i = hunt.turfs[at];
    let next = hunt_through(world, max_x, max_y, limit, hunt, i, at + 1);
    assert(next.turfs == hunt.turfs);
    if next.space == hunt.space {
        lemma_same_hunt(world, hunt, next, from, done, max_x, max_y);
    } else {
        lemma_space_found(world, hunt, next, from, done, i, max_x, max_y);
    }
    from
}

/// The search for space leaves no gaps, and tells the game once of each turf that it
/// reaches. Every turf but the first was reached from one before it, along an
/// open direction; that turf, and no other, is told to consider firelocks towards
/// it, and there are no further calls but those that make a turf of space its own
/// target. Unless the search is broken off, whatever exists and lies where gas
/// can flow from a turf before the limit that is neither of a planet nor space
/// has been reached. The result tells from where each turf was reached.
pub proof fn hunt_leaves_no_gaps<A: Amount>(
    world: Map<TurfID, TurfReading<A>>,
    max_x: int,
    max_y: int,
    limit: int,
    turf_idx: TurfID,
) -> (from: Seq<int>)
    ensures
        ({
            let end = hunted(world, max_x, max_y, limit, hunt_from(turf_idx), 0);
            let links = hunt_links(world, max_x, max_y);
            &&& end.turfs[0] == turf_idx
            &&& end.turfs.no_duplicates()
            &&& forall|p: int|
                1 <= p < end.turfs.len() ==> #[trigger] reached_from(links, end.turfs, from, p)
                    && told(end, from, p)
            &&& forall|k: int|
                0 <= k < end.calls.len() ==> called_for(end, from, #[trigger] end.calls[k])
            &&& end.calls.len() == end.turfs.len() - 1 + end.space.len()
            &&& !end.given_up ==> forall|p: int, v: TurfID|
                0 <= p < end.turfs.len() && p < limit && #[trigger] links(end.turfs[p], v)
                    ==> end.turfs.contains(v)
        }),
{
    let first = hunt_from(turf_idx);
    let links = hunt_links(world, max_x, max_y);
    assert(hunted_in_turn(world, first, seq![0int], 0, max_x, max_y));
    let (from, at) = lemma_hunted(world, max_x, max_y, limit, first, seq![0int], 0, 0);
    let end = hunted(world, max_x, max_y, limit, first, 0);
    lemma_first_stays(world, max_x, max_y, limit, first, 0);
    assert forall|p: int| 1 <= p < end.turfs.len() implies #[trigger] reached_from(
        links,
        end.turfs,
        from,
        p,
    ) && told(end, from, p) by {}
    if !end.given_up {
        assert forall|p: int, v: TurfID|
            0 <= p < end.turfs.len() && p < limit && #[trigger] links(
                end.turfs[p],
                v,
            ) implies end.turfs.contains(v) by {
            assert(looked_around(links, end.turfs, from, 1, p));
            let r = choose|r: int| #[trigger] reached_by(end.turfs, from, 1, p, v, r);
            assert(end.turfs[r] == v);
        }
    }
    from
}

proof fn lemma_on_keeps<A: Amount>(
    world: Map<TurfID, TurfReading<A>>,
    hunt: SpaceHunt,
    i: TurfID,
    steps: Seq<(u8, TurfID)>,
)
    ensures
        hunt.turfs.is_prefix_of(hunt_on(world, hunt, i, steps).turfs),
    decreases steps.len(),
{
    if steps.len() > 0 {
        let loc = steps[0].1;
        let next = if world.contains_key(loc) && !hunt.turfs.contains(loc) {
            SpaceHunt {
                turfs: hunt.turfs.push(loc),
                calls: hunt.calls.push(SpaceCall::Firelocks(i, loc)),
                ..hunt
            }
        } else {
            hunt
        };
        lemma_on_keeps(world, next, i, steps.drop_first());
    }
}

/// The search keeps the turf that it began with in its place.
proof fn lemma_first_stays<A: Amount>(
    world: Map<TurfID, TurfReading<A>>,
    max_x: int,
    max_y: int,
    limit: int,
    hunt: SpaceHunt,
    at: int,
)
    requires
        hunt.turfs.len() > 0,
    ensures
        hunt.turfs.is_prefix_of(hunted(world, max_x, max_y, limit, hunt, at).turfs),
    decreases 0x1_0000_0000 - at,
{
    if at < hunt.turfs.len() && at < 0x1_0000_0000 && !hunt.given_up {
        let i = hunt.turfs[at];
        let next = hunt_through(world, max_x, max_y, limit, hunt, i, at + 1);
        if world.contains_key(i) {
            lemma_on_keeps(
                world,
                hunt,
                i,
                neighbours(world[i].mixture.adjacency, i, max_x, max_y, 0, 7),
            );
        }
        assert(hunt.turfs.is_prefix_of(next.turfs));
        lemma_first_stays(world, max_x, max_y, limit, next, at + 1);
    }
}

} // verus!
