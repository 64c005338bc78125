//! Where the paths to a planet lead.
use vstd::prelude::*;
use crate::amount::Amount;
use crate::grid::{
    adjacent, lemma_neighbours, neighbours, opposite, opposite_step_returns, TurfID,
};
use crate::info::Ledger;
use crate::laws::breadth::{
    breadth_first, breadth_first_is_shortest, depth, lemma_goes_on, lemma_next_to, lemma_reaches,
    nearest, next_to, opens_to, source,
};
use crate::laws::grid::neighbours_lie_where_set;
use crate::planet::{
    all_drained, drained, ends_marked, path_step, path_steps, paths_found, planet_paths, Paths,
};
use crate::settle::rewritten;
use crate::tables::{distinct, entry_of, holds, lemma_distinct_len, place, MixWithID};

verus! {

/// All turfs of the zone that belong to a planet are among `planet_turfs`.
pub open spec fn all_ends(planet_turfs: Seq<MixWithID>, turfs: Seq<MixWithID>) -> bool {
    forall|p: int|
        0 <= p < turfs.len() && (#[trigger] turfs[p]).1.planetary_atmos is Some ==> holds(
            planet_turfs,
            turfs[p].0,
        )
}

/// The path of the turf at `p` goes on to a turf that was reached before it.
pub open spec fn leads_on<A: Amount>(
    order: Seq<TurfID>,
    info: Map<TurfID, Ledger<A>>,
    p: int,
    max_x: int,
    max_y: int,
) -> bool {
    let i = order[p];
    let dir = info[i].curr_transfer_dir;
    &&& 0 <= dir < 6
    &&& exists|q: int| 0 <= q < p && #[trigger] order[q] == adjacent(dir, i, max_x, max_y)
}

/// Of the turfs of `order`, the first `n` are the ends of all paths, and the path
/// of every other one goes on to a turf that was reached before it.
pub open spec fn paths_lead<A: Amount>(
    order: Seq<TurfID>,
    info: Map<TurfID, Ledger<A>>,
    n: int,
    max_x: int,
    max_y: int,
) -> bool {
    &&& 0 <= n
    &&& order.no_duplicates()
    &&& forall|p: int| 0 <= p < order.len() ==> info.contains_key(#[trigger] order[p])
    &&& forall|p: int|
        0 <= p < n && p < order.len() ==> info[#[trigger] order[p]].curr_transfer_dir == 6
    &&& forall|p: int|
        n <= p < order.len() ==> #[trigger] leads_on(order, info, p, max_x, max_y)
}

/// Where the path of the turf at `p` ends.
pub open spec fn path_end<A: Amount>(
    order: Seq<TurfID>,
    info: Map<TurfID, Ledger<A>>,
    p: int,
    max_x: int,
    max_y: int,
) -> int
    decreases p,
{
    let i = order[p];
    let dir = info[i].curr_transfer_dir;
    let q = choose|q: int| 0 <= q < p && #[trigger] order[q] == adjacent(dir, i, max_x, max_y);
    if dir == 6 || !(0 <= q < p) {
        p
    } else {
        path_end(order, info, q, max_x, max_y)
    }
}

/// What lies next to the first `at` turfs of `order` and takes part has been reached.
pub open spec fn spread_out<A: Amount>(
    turfs: Seq<MixWithID>,
    order: Seq<TurfID>,
    info: Map<TurfID, Ledger<A>>,
    at: int,
    max_x: int,
    max_y: int,
) -> bool {
    forall|p: int, k: int|
        #![trigger neighbours((entry_of(turfs, order[p])->0).adjacency, order[p], max_x, max_y, 0, 6)[k]]
        0 <= p < at && entry_of(turfs, order[p]) is Some && 0 <= k < neighbours(
            (entry_of(turfs, order[p])->0).adjacency,
            order[p],
            max_x,
            max_y,
            0,
            6,
        ).len() && takes_part(
            turfs,
            info,
            neighbours(
                (entry_of(turfs, order[p])->0).adjacency,
                order[p],
                max_x,
                max_y,
                0,
                6,
            )[k].1,
        ) ==> order.contains(
            neighbours(
                (entry_of(turfs, order[p])->0).adjacency,
                order[p],
                max_x,
                max_y,
                0,
                6,
            )[k].1,
        )
}

/// The turf belongs to the zone, has books, and takes part in the simulation.
pub open spec fn takes_part<A: Amount>(
    turfs: Seq<MixWithID>,
    info: Map<TurfID, Ledger<A>>,
    loc: TurfID,
) -> bool {
    info.contains_key(loc) && (entry_of(turfs, loc) matches Some(mixture) && mixture.simulated)
}

spec fn paths_ok<A: Amount>(
    planet_turfs: Seq<MixWithID>,
    turfs: Seq<MixWithID>,
    dom: Set<TurfID>,
    paths: Paths<A>,
    max_x: int,
    max_y: int,
) -> bool {
    let n = planet_turfs.len() as int;
    &&& n <= paths.order.len()
    &&& paths.info.dom() == dom
    &&& paths_lead(paths.order, paths.info, n, max_x, max_y)
    &&& forall|p: int| 0 <= p < n ==> #[trigger] paths.order[p] == planet_turfs[p].0
    &&& forall|p: int| n <= p < paths.order.len() ==> holds(turfs, #[trigger] paths.order[p])
}

proof fn lemma_path_step<A: Amount>(
    planet_turfs: Seq<MixWithID>,
    turfs: Seq<MixWithID>,
    dom: Set<TurfID>,
    limit: int,
    paths: Paths<A>,
    at: int,
    step: (u8, TurfID),
    max_x: int,
    max_y: int,
)
    requires
        all_ends(planet_turfs, turfs),
        paths_ok(planet_turfs, turfs, dom, paths, max_x, max_y),
        0 <= at < paths.order.len(),
        step.0 < 6,
        step.1 == adjacent(step.0 as int, paths.order[at], max_x, max_y),
    ensures
        ({
            let next = path_step(turfs, limit, paths, paths.order[at], at + 1, step);
            &&& paths_ok(planet_turfs, turfs, dom, next, max_x, max_y)
            &&& paths.order.is_prefix_of(next.order)
            &&& takes_part(turfs, paths.info, step.1) ==> next.order.contains(step.1)
        }),
{
    let (j, loc) = step;
    let order = paths.order;
    let i = order[at];
    let n = planet_turfs.len() as int;
    let next = path_step(turfs, limit, paths, i, at + 1, step);
    if takes_part(turfs, paths.info, loc) && !order.contains(loc) {
        let mixture = entry_of(turfs, loc)->0;
        let last = order.len() as int;
        if mixture.planetary_atmos is Some {
            assert(turfs[place(turfs, loc)].0 == loc);
            assert(holds(planet_turfs, loc));
            let p = place(planet_turfs, loc);
            assert(planet_turfs[p].0 == loc);
            assert(order[p] == planet_turfs[p].0);
        }
        assert(next.order == order.push(loc));
        assert(next.info.dom() =~= dom);
        assert(next.order[last] == loc);
        opposite_step_returns(j as int, i, max_x, max_y);
        assert forall|p: int| 0 <= p < last implies (#[trigger] next.order[p]) == order[p]
            && order[p] != loc && next.info[order[p]] == paths.info[order[p]] by {
            assert(order.contains(order[p]));
        }
        assert forall|p: int| n <= p < next.order.len() implies #[trigger] leads_on(
            next.order,
            next.info,
            p,
            max_x,
            max_y,
        ) by {
            if p < last {
                assert(leads_on(order, paths.info, p, max_x, max_y));
                let dir = paths.info[order[p]].curr_transfer_dir;
                assert(next.order[p] == order[p]);
                let q = choose|q: int|
                    0 <= q < p && #[trigger] order[q] == adjacent(dir, order[p], max_x, max_y);
                assert(next.order[q] == order[q]);
            } else {
                assert(next.order[at] == order[at]);
                assert(next.info[loc].curr_transfer_dir == opposite(j as int));
            }
        }
        assert forall|p: int| 0 <= p < next.order.len() implies next.info.contains_key(
            #[trigger] next.order[p],
        ) by {
            if p < last {
                assert(paths.info.contains_key(order[p]));
            }
        }
        assert(next.order.no_duplicates());
        assert(paths_lead(next.order, next.info, n, max_x, max_y));
    } else {
        assert(next.info == paths.info && next.order == order);
    }
}

proof fn lemma_path_steps<A: Amount>(
    planet_turfs: Seq<MixWithID>,
    turfs: Seq<MixWithID>,
    dom: Set<TurfID>,
    limit: int,
    paths: Paths<A>,
    at: int,
    steps: Seq<(u8, TurfID)>,
    max_x: int,
    max_y: int,
)
    requires
        all_ends(planet_turfs, turfs),
        paths_ok(planet_turfs, turfs, dom, paths, max_x, max_y),
        0 <= at < paths.order.len(),
        forall|k: int|
            #![trigger steps[k]]
            0 <= k < steps.len() ==> steps[k].0 < 6 && steps[k].1 == adjacent(
                steps[k].0 as int,
                paths.order[at],
                max_x,
                max_y,
            ),
    ensures
        ({
            let next = path_steps(turfs, limit, paths, paths.order[at], at + 1, steps);
            &&& paths_ok(planet_turfs, turfs, dom, next, max_x, max_y)
            &&& paths.order.is_prefix_of(next.order)
            &&& forall|k: int|
                0 <= k < steps.len() && takes_part(turfs, paths.info, (#[trigger] steps[k]).1)
                    ==> next.order.contains(steps[k].1)
        }),
    decreases steps.len(),
{
    if steps.len() > 0 {
        let i = paths.order[at];
        lemma_path_step(planet_turfs, turfs, dom, limit, paths, at, steps[0], max_x, max_y);
        let between = path_step(turfs, limit, paths, i, at + 1, steps[0]);
        let rest = steps.drop_first();
        assert(between.order[at] == i);
        lemma_path_steps(planet_turfs, turfs, dom, limit, between, at, rest, max_x, max_y);
        let next = path_steps(turfs, limit, paths, i, at + 1, steps);
        assert(next == path_steps(turfs, limit, between, i, at + 1, rest));
        assert forall|k: int|
            0 <= k < steps.len() && takes_part(
                turfs,
                paths.info,
                (#[trigger] steps[k]).1,
            ) implies next.order.contains(steps[k].1) by {
            assert(paths.info.contains_key(steps[k].1) == between.info.contains_key(steps[k].1));
            if k > 0 {
                assert(rest[k - 1] == steps[k]);
            } else {
                let p = choose|p: int|
                    0 <= p < between.order.len() && between.order[p] == steps[0].1;
                assert(next.order[p] == steps[0].1);
            }
        }
    }
}

/// A turf outside the zone keeps its place when its books are wiped.
proof fn lemma_wiped<A: Amount>(
    planet_turfs: Seq<MixWithID>,
    turfs: Seq<MixWithID>,
    dom: Set<TurfID>,
    paths: Paths<A>,
    at: int,
    max_x: int,
    max_y: int,
)
    requires
        paths_ok(planet_turfs, turfs, dom, paths, max_x, max_y),
        0 <= at < paths.order.len(),
        entry_of(turfs, paths.order[at]) is None,
    ensures
        at < planet_turfs.len(),
        paths_ok(
            planet_turfs,
            turfs,
            dom,
            Paths { info: rewritten(paths.info, paths.order[at], Ledger::blank()), ..paths },
            max_x,
            max_y,
        ),
{
    let i = paths.order[at];
    let n = planet_turfs.len() as int;
    let next = Paths { info: rewritten(paths.info, i, Ledger::blank()), ..paths };
    assert(at < n);
    assert(paths.info.contains_key(paths.order[at]));
    assert(next.info.dom() =~= dom);
    assert forall|p: int| 0 <= p < next.order.len() implies next.info.contains_key(
        #[trigger] next.order[p],
    ) && next.info[next.order[p]].curr_transfer_dir
        == paths.info[next.order[p]].curr_transfer_dir by {
        assert(paths.info.contains_key(paths.order[p]));
        assert(paths.info[paths.order[at]].curr_transfer_dir == 6);
    }
    assert forall|p: int| n <= p < next.order.len() implies #[trigger] leads_on(
        next.order,
        next.info,
        p,
        max_x,
        max_y,
    ) by {
        assert(leads_on(paths.order, paths.info, p, max_x, max_y));
        assert(next.info[next.order[p]].curr_transfer_dir
            == paths.info[next.order[p]].curr_transfer_dir);
    }
}

proof fn lemma_paths_found<A: Amount>(
    planet_turfs: Seq<MixWithID>,
    turfs: Seq<MixWithID>,
    dom: Set<TurfID>,
    limit: int,
    paths: Paths<A>,
    at: int,
    max_x: int,
    max_y: int,
)
    requires
        all_ends(planet_turfs, turfs),
        paths_ok(planet_turfs, turfs, dom, paths, max_x, max_y),
        0 <= at <= paths.order.len(),
        spread_out(turfs, paths.order, paths.info, at, max_x, max_y),
    ensures
        ({
            let end = paths_found(turfs, max_x, max_y, limit, paths, at);
            &&& paths_ok(planet_turfs, turfs, dom, end, max_x, max_y)
            &&& spread_out(turfs, end.order, end.info, end.order.len() as int, max_x, max_y)
        }),
    decreases 0x1_0000_0000 - at,
{
    lemma_distinct_len(paths.order);
    if at < paths.order.len() {
        let i = paths.order[at];
        let n = planet_turfs.len() as int;
        let next = match entry_of(turfs, i) {
            None => Paths { info: rewritten(paths.info, i, Ledger::blank()), ..paths },
            Some(m) => path_steps(
                turfs,
                limit,
                paths,
                i,
                at + 1,
                neighbours(m.adjacency, i, max_x, max_y, 0, 6),
            ),
        };
        match entry_of(turfs, i) {
            None => {
                lemma_wiped(planet_turfs, turfs, dom, paths, at, max_x, max_y);
            },
            Some(m) => {
                let steps = neighbours(m.adjacency, i, max_x, max_y, 0, 6);
                lemma_neighbours(m.adjacency, i, max_x, max_y, 0, 6);
                lemma_path_steps(planet_turfs, turfs, dom, limit, paths, at, steps, max_x, max_y);
            },
        }
        assert(paths.order.is_prefix_of(next.order));
        assert forall|p: int, k: int|
            #![trigger neighbours((entry_of(turfs, next.order[p])->0).adjacency, next.order[p], max_x, max_y, 0, 6)[k]]
            0 <= p < at + 1 && entry_of(turfs, next.order[p]) is Some && 0 <= k < neighbours(
                (entry_of(turfs, next.order[p])->0).adjacency,
                next.order[p],
                max_x,
                max_y,
                0,
                6,
            ).len() && takes_part(
                turfs,
                next.info,
                neighbours(
                    (entry_of(turfs, next.order[p])->0).adjacency,
                    next.order[p],
                    max_x,
                    max_y,
                    0,
                    6,
                )[k].1,
            ) implies next.order.contains(
            neighbours(
                (entry_of(turfs, next.order[p])->0).adjacency,
                next.order[p],
                max_x,
                max_y,
                0,
                6,
            )[k].1,
        ) by {
            assert(next.order[p] == paths.order[p]);
            let around = neighbours(
                (entry_of(turfs, paths.order[p])->0).adjacency,
                paths.order[p],
                max_x,
                max_y,
                0,
                6,
            );
            let loc = around[k].1;
            assert(paths.info.contains_key(loc) == next.info.contains_key(loc));
            if p < at {
                assert(paths.order.contains(loc));
                let r = choose|r: int| 0 <= r < paths.order.len() && paths.order[r] == loc;
                assert(next.order[r] == loc);
            }
        }
        lemma_paths_found(planet_turfs, turfs, dom, limit, next, at + 1, max_x, max_y);
    }
}

proof fn lemma_marked<A: Amount>(info: Map<TurfID, Ledger<A>>, planet_turfs: Seq<MixWithID>)
    ensures
        forall|p: int|
            #![trigger planet_turfs[p]]
            0 <= p < planet_turfs.len() ==> ends_marked(info, planet_turfs).contains_key(
                planet_turfs[p].0,
            ) && ends_marked(info, planet_turfs)[planet_turfs[p].0].curr_transfer_dir == 6,
    decreases planet_turfs.len(),
{
    if planet_turfs.len() > 0 {
        let front = planet_turfs.drop_last();
        lemma_marked(info, front);
        assert forall|p: int|
            #![trigger planet_turfs[p]]
            0 <= p < planet_turfs.len() implies ends_marked(info, planet_turfs).contains_key(
            planet_turfs[p].0,
        ) && ends_marked(info, planet_turfs)[planet_turfs[p].0].curr_transfer_dir == 6 by {
            if p < front.len() {
                assert(front[p] == planet_turfs[p]);
            }
        }
    }
}

proof fn lemma_path_end<A: Amount>(
    order: Seq<TurfID>,
    info: Map<TurfID, Ledger<A>>,
    n: int,
    p: int,
    max_x: int,
    max_y: int,
)
    requires
        paths_lead(order, info, n, max_x, max_y),
        0 <= p < order.len(),
    ensures
        0 <= path_end(order, info, p, max_x, max_y) < n,
    decreases p,
{
    let dir = info[order[p]].curr_transfer_dir;
    if p < n {
        assert(dir == 6);
    } else {
        assert(leads_on(order, info, p, max_x, max_y));
        let q = choose|q: int|
            0 <= q < p && #[trigger] order[q] == adjacent(dir, order[p], max_x, max_y);
        lemma_path_end(order, info, n, q, max_x, max_y);
    }
}

/// The search begins with the turfs of the planet.
proof fn lemma_start<A: Amount>(
    planet_turfs: Seq<MixWithID>,
    turfs: Seq<MixWithID>,
    info: Map<TurfID, Ledger<A>>,
    max_x: int,
    max_y: int,
) -> (start: Paths<A>)
    requires
        distinct(planet_turfs),
    ensures
        start.info == ends_marked(info, planet_turfs),
        start.order == planet_turfs.map_values(|turf: MixWithID| turf.0),
        start.firelocks == Seq::<(TurfID, TurfID)>::empty(),
        paths_ok(planet_turfs, turfs, start.info.dom(), start, max_x, max_y),
{
    let order = planet_turfs.map_values(|turf: MixWithID| turf.0);
    let start = Paths { info: ends_marked(info, planet_turfs), order, firelocks: Seq::empty() };
    lemma_marked(info, planet_turfs);
    assert forall|p: int| 0 <= p < order.len() implies start.info.contains_key(#[trigger] order[p])
        && start.info[order[p]].curr_transfer_dir == 6 by {
        assert(order[p] == planet_turfs[p].0);
    }
    assert(order.no_duplicates()) by {
        assert forall|p: int, q: int|
            0 <= p < order.len() && 0 <= q < order.len() && p != q implies order[p] != order[q] by {
            if p < q {
                assert(planet_turfs[p].0 != planet_turfs[q].0);
            } else {
                assert(planet_turfs[q].0 != planet_turfs[p].0);
            }
        }
    }
    assert(paths_ok(planet_turfs, turfs, start.info.dom(), start, max_x, max_y));
    start
}

/// The paths lead to the planet: the turfs of the planet come first, every other
/// turf was reached from one that came before it, and following the paths one
/// ends at a turf of the planet. Nothing that takes part and lies next to a turf
/// of the zone that was reached is left out.
pub proof fn paths_lead_to_the_planet<A: Amount>(
    planet_turfs: Seq<MixWithID>,
    turfs: Seq<MixWithID>,
    max_x: int,
    max_y: int,
    limit: int,
    info: Map<TurfID, Ledger<A>>,
)
    requires
        distinct(planet_turfs),
        all_ends(planet_turfs, turfs),
    ensures
        ({
            let paths = planet_paths(planet_turfs, turfs, max_x, max_y, limit, info);
            let n = planet_turfs.len() as int;
            &&& n <= paths.order.len()
            &&& forall|p: int| 0 <= p < n ==> #[trigger] paths.order[p] == planet_turfs[p].0
            &&& forall|p: int|
                n <= p < paths.order.len() ==> holds(turfs, #[trigger] paths.order[p])
            &&& paths_lead(paths.order, paths.info, n, max_x, max_y)
            &&& forall|p: int|
                0 <= p < paths.order.len() ==> 0 <= #[trigger] path_end(
                    paths.order,
                    paths.info,
                    p,
                    max_x,
                    max_y,
                ) < n
            &&& spread_out(
                turfs,
                paths.order,
                paths.info,
                paths.order.len() as int,
                max_x,
                max_y,
            )
        }),
{
    let start = lemma_start(planet_turfs, turfs, info, max_x, max_y);
    lemma_paths_found(planet_turfs, turfs, start.info.dom(), limit, start, 0, max_x, max_y);
    let paths = planet_paths(planet_turfs, turfs, max_x, max_y, limit, info);
    let n = planet_turfs.len() as int;
    assert forall|p: int| 0 <= p < paths.order.len() implies 0 <= #[trigger] path_end(
        paths.order,
        paths.info,
        p,
        max_x,
        max_y,
    ) < n by {
        lemma_path_end(paths.order, paths.info, n, p, max_x, max_y);
    }
}

/// Gas can flow between the zone's turfs `u` and `v`, and `v` takes part in the
/// simulation and has books, as all turfs of `dom` have.
pub open spec fn path_links(
    turfs: Seq<MixWithID>,
    dom: Set<TurfID>,
    max_x: int,
    max_y: int,
) -> spec_fn(TurfID, TurfID) -> bool {
    |u: TurfID, v: TurfID|
        {
            &&& entry_of(turfs, u) matches Some(m) && next_to(m.adjacency, u, v, max_x, max_y, 6)
            &&& dom.contains(v)
            &&& entry_of(turfs, v) matches Some(mixture) && mixture.simulated
        }
}

/// How long the path of the turf at `p` is.
pub open spec fn path_len<A: Amount>(
    order: Seq<TurfID>,
    info: Map<TurfID, Ledger<A>>,
    p: int,
    max_x: int,
    max_y: int,
) -> nat
    decreases p,
{
    let i = order[p];
    let dir = info[i].curr_transfer_dir;
    let q = choose|q: int| 0 <= q < p && #[trigger] order[q] == adjacent(dir, i, max_x, max_y);
    if dir == 6 || !(0 <= q < p) {
        0
    } else {
        1 + path_len(order, info, q, max_x, max_y)
    }
}

/// The path of the turf at `p` goes on to the turf from which it was reached.
spec fn goes_back<A: Amount>(
    paths: Paths<A>,
    from: Seq<int>,
    p: int,
    max_x: int,
    max_y: int,
) -> bool {
    let dir = paths.info[paths.order[p]].curr_transfer_dir;
    0 <= dir < 6 && 0 <= from[p] < p && paths.order[from[p]] == adjacent(
        dir,
        paths.order[p],
        max_x,
        max_y,
    )
}

spec fn found_in_turn<A: Amount>(
    turfs: Seq<MixWithID>,
    dom: Set<TurfID>,
    paths: Paths<A>,
    from: Seq<int>,
    n: int,
    at: int,
    max_x: int,
    max_y: int,
) -> bool {
    &&& breadth_first(path_links(turfs, dom, max_x, max_y), paths.order, from, n, at)
    &&& forall|p: int|
        n <= p < paths.order.len() ==> #[trigger] goes_back(paths, from, p, max_x, max_y)
}

proof fn lemma_step_in_turn<A: Amount>(
    planet_turfs: Seq<MixWithID>,
    turfs: Seq<MixWithID>,
    dom: Set<TurfID>,
    limit: int,
    paths: Paths<A>,
    from: Seq<int>,
    at: int,
    step: (u8, TurfID),
    max_x: int,
    max_y: int,
) -> (came: Seq<int>)
    requires
        all_ends(planet_turfs, turfs),
        paths_ok(planet_turfs, turfs, dom, paths, max_x, max_y),
        found_in_turn(turfs, dom, paths, from, planet_turfs.len() as int, at, max_x, max_y),
        at < paths.order.len(),
        entry_of(turfs, paths.order[at]) is Some,
        step.0 < 6,
        opens_to((entry_of(turfs, paths.order[at])->0).adjacency, step.0),
        step.1 == adjacent(step.0 as int, paths.order[at], max_x, max_y),
    ensures
        found_in_turn(
            turfs,
            dom,
            path_step(turfs, limit, paths, paths.order[at], at + 1, step),
            came,
            planet_turfs.len() as int,
            at,
            max_x,
            max_y,
        ),
{
    let (j, loc) = step;
    let order = paths.order;
    let i = order[at];
    let n = planet_turfs.len() as int;
    let next = path_step(turfs, limit, paths, i, at + 1, step);
    if takes_part(turfs, paths.info, loc) && !order.contains(loc) {
        let mixture = entry_of(turfs, loc)->0;
        if mixture.planetary_atmos is Some {
            assert(turfs[place(turfs, loc)].0 == loc);
            assert(holds(planet_turfs, loc));
            let p = place(planet_turfs, loc);
            assert(planet_turfs[p].0 == loc);
            assert(order[p] == planet_turfs[p].0);
        }
        let links = path_links(turfs, dom, max_x, max_y);
        let came = from.push(at);
        let last = order.len() as int;
        assert(next_to((entry_of(turfs, i)->0).adjacency, i, loc, max_x, max_y, 6));
        assert(dom.contains(loc));
        assert(links(i, loc));
        lemma_reaches(links, order, from, n, at, loc);
        opposite_step_returns(j as int, i, max_x, max_y);
        assert forall|p: int| n <= p < next.order.len() implies #[trigger] goes_back(
            next,
            came,
            p,
            max_x,
            max_y,
        ) by {
            if p < last {
                assert(goes_back(paths, from, p, max_x, max_y));
                assert(order.contains(order[p]));
                assert(next.info[order[p]] == paths.info[order[p]]);
            }
        }
        came
    } else {
        assert(next.info == paths.info && next.order == order);
        assert forall|p: int| n <= p < next.order.len() implies #[trigger] goes_back(
            next,
            from,
            p,
            max_x,
            max_y,
        ) by {
            assert(goes_back(paths, from, p, max_x, max_y));
        }
        from
    }
}

proof fn lemma_steps_in_turn<A: Amount>(
    planet_turfs: Seq<MixWithID>,
    turfs: Seq<MixWithID>,
    dom: Set<TurfID>,
    limit: int,
    paths: Paths<A>,
    from: Seq<int>,
    at: int,
    steps: Seq<(u8, TurfID)>,
    max_x: int,
    max_y: int,
) -> (came: Seq<int>)
    requires
        all_ends(planet_turfs, turfs),
        paths_ok(planet_turfs, turfs, dom, paths, max_x, max_y),
        found_in_turn(turfs, dom, paths, from, planet_turfs.len() as int, at, max_x, max_y),
        at < paths.order.len(),
        entry_of(turfs, paths.order[at]) is Some,
        forall|k: int|
            #![trigger steps[k]]
            0 <= k < steps.len() ==> steps[k].0 < 6 && steps[k].1 == adjacent(
                steps[k].0 as int,
                paths.order[at],
                max_x,
                max_y,
            ) && opens_to((entry_of(turfs, paths.order[at])->0).adjacency, steps[k].0),
    ensures
        found_in_turn(
            turfs,
            dom,
            path_steps(turfs, limit, paths, paths.order[at], at + 1, steps),
            came,
            planet_turfs.len() as int,
            at,
            max_x,
            max_y,
        ),
    decreases steps.len(),
{
    if steps.len() > 0 {
        let i = paths.order[at];
        lemma_path_step(planet_turfs, turfs, dom, limit, paths, at, steps[0], max_x, max_y);
        let between = lemma_step_in_turn(
            planet_turfs,
            turfs,
            dom,
            limit,
            paths,
            from,
            at,
            steps[0],
            max_x,
            max_y,
        );
        let next = path_step(turfs, limit, paths, i, at + 1, steps[0]);
        assert(next.order[at] == i);
        lemma_steps_in_turn(
            planet_turfs,
            turfs,
            dom,
            limit,
            next,
            between,
            at,
            steps.drop_first(),
            max_x,
            max_y,
        )
    } else {
        from
    }
}

proof fn lemma_found_in_turn<A: Amount>(
    planet_turfs: Seq<MixWithID>,
    turfs: Seq<MixWithID>,
    dom: Set<TurfID>,
    limit: int,
    paths: Paths<A>,
    from: Seq<int>,
    at: int,
    max_x: int,
    max_y: int,
) -> (came: Seq<int>)
    requires
        all_ends(planet_turfs, turfs),
        paths_ok(planet_turfs, turfs, dom, paths, max_x, max_y),
        found_in_turn(turfs, dom, paths, from, planet_turfs.len() as int, at, max_x, max_y),
    ensures
        ({
            let end = paths_found(turfs, max_x, max_y, limit, paths, at);
            &&& paths_ok(planet_turfs, turfs, dom, end, max_x, max_y)
            &&& found_in_turn(
                turfs,
                dom,
                end,
                came,
                planet_turfs.len() as int,
                end.order.len() as int,
                max_x,
                max_y,
            )
        }),
    decreases 0x1_0000_0000 - at,
{
    lemma_distinct_len(paths.order);
    if at < paths.order.len() {
        let i = paths.order[at];
        let n = planet_turfs.len() as int;
        let links = path_links(turfs, dom, max_x, max_y);
        let next = match entry_of(turfs, i) {
            None => Paths { info: rewritten(paths.info, i, Ledger::blank()), ..paths },
            Some(m) => path_steps(
                turfs,
                limit,
                paths,
                i,
                at + 1,
                neighbours(m.adjacency, i, max_x, max_y, 0, 6),
            ),
        };
        let between = match entry_of(turfs, i) {
            None => {
                lemma_wiped(planet_turfs, turfs, dom, paths, at, max_x, max_y);
                assert forall|p: int| n <= p < next.order.len() implies #[trigger] goes_back(
                    next,
                    from,
                    p,
                    max_x,
                    max_y,
                ) by {
                    assert(goes_back(paths, from, p, max_x, max_y));
                    assert(paths.order[p] != paths.order[at]);
                }
                from
            },
            Some(m) => {
                let steps = neighbours(m.adjacency, i, max_x, max_y, 0, 6);
                lemma_neighbours(m.adjacency, i, max_x, max_y, 0, 6);
                lemma_path_steps(planet_turfs, turfs, dom, limit, paths, at, steps, max_x, max_y);
                assert forall|k: int|
                    #![trigger steps[k]]
                    0 <= k < steps.len() implies opens_to(m.adjacency, steps[k].0) by {
                    neighbours_lie_where_set(m.adjacency, i, max_x, max_y, 0, 6, steps[k].0);
                    assert(steps.contains(steps[k]));
                }
                lemma_next_to(m.adjacency, i, max_x, max_y, 6);
                lemma_steps_in_turn(
                    planet_turfs,
                    turfs,
                    dom,
                    limit,
                    paths,
                    from,
                    at,
                    steps,
                    max_x,
                    max_y,
                )
            },
        };
        assert(paths.order.is_prefix_of(next.order));
        assert(next.order[at] == i);
        assert forall|v: TurfID| links(i, v) implies #[trigger] next.order.contains(v) by {
            let m = entry_of(turfs, i)->0;
            let steps = neighbours(m.adjacency, i, max_x, max_y, 0, 6);
            assert(next_to(m.adjacency, i, v, max_x, max_y, 6));
            let k = choose|k: int| 0 <= k < steps.len() && (#[trigger] steps[k]).1 == v;
            assert(takes_part(turfs, paths.info, steps[k].1));
        }
        lemma_goes_on(links, next.order, between, n, at);
        lemma_found_in_turn(
            planet_turfs,
            turfs,
            dom,
            limit,
            next,
            between,
            at + 1,
            max_x,
            max_y,
        )
    } else {
        from
    }
}

proof fn lemma_path_len<A: Amount>(
    turfs: Seq<MixWithID>,
    dom: Set<TurfID>,
    paths: Paths<A>,
    from: Seq<int>,
    n: int,
    at: int,
    p: int,
    max_x: int,
    max_y: int,
)
    requires
        found_in_turn(turfs, dom, paths, from, n, at, max_x, max_y),
        paths_lead(paths.order, paths.info, n, max_x, max_y),
        0 <= p < paths.order.len(),
    ensures
        path_len(paths.order, paths.info, p, max_x, max_y) == depth(from, n, p),
        path_end(paths.order, paths.info, p, max_x, max_y) == source(from, n, p),
    decreases p,
{
    let order = paths.order;
    let dir = paths.info[order[p]].curr_transfer_dir;
    if p < n {
        assert(dir == 6);
    } else {
        assert(goes_back(paths, from, p, max_x, max_y));
        assert(leads_on(order, paths.info, p, max_x, max_y));
        let q = choose|q: int|
            0 <= q < p && #[trigger] order[q] == adjacent(dir, order[p], max_x, max_y);
        assert(order[q] == order[from[p]]);
        assert(q == from[p]);
        lemma_path_len(turfs, dom, paths, from, n, at, q, max_x, max_y);
    }
}

/// The paths are the shortest ones, and lead to the nearest turf of the planet:
/// no way from a turf of the planet to a turf that was reached, from one turf to
/// another to which gas can flow and that takes part, has fewer steps than the
/// path of that turf.
pub proof fn paths_are_shortest<A: Amount>(
    planet_turfs: Seq<MixWithID>,
    turfs: Seq<MixWithID>,
    max_x: int,
    max_y: int,
    limit: int,
    info: Map<TurfID, Ledger<A>>,
)
    requires
        distinct(planet_turfs),
        all_ends(planet_turfs, turfs),
    ensures
        ({
            let paths = planet_paths(planet_turfs, turfs, max_x, max_y, limit, info);
            forall|p: int|
                0 <= p < paths.order.len() ==> nearest(
                    path_links(turfs, paths.info.dom(), max_x, max_y),
                    planet_turfs.map_values(|turf: MixWithID| turf.0),
                    paths.order[path_end(paths.order, paths.info, p, max_x, max_y)],
                    paths.order[p],
                    #[trigger] path_len(paths.order, paths.info, p, max_x, max_y),
                )
        }),
{
    let start = lemma_start(planet_turfs, turfs, info, max_x, max_y);
    let n = planet_turfs.len() as int;
    let dom = start.info.dom();
    let none = Seq::new(n as nat, |p: int| 0int);
    let links = path_links(turfs, dom, max_x, max_y);
    assert(found_in_turn(turfs, dom, start, none, n, 0, max_x, max_y));
    let from = lemma_found_in_turn(planet_turfs, turfs, dom, limit, start, none, 0, max_x, max_y);
    let paths = planet_paths(planet_turfs, turfs, max_x, max_y, limit, info);
    assert(paths == paths_found(turfs, max_x, max_y, limit, start, 0));
    let at = paths.order.len() as int;
    assert(paths.order.take(n) =~= start.order);
    assert forall|p: int| 0 <= p < paths.order.len() implies nearest(
        path_links(turfs, paths.info.dom(), max_x, max_y),
        planet_turfs.map_values(|turf: MixWithID| turf.0),
        paths.order[path_end(paths.order, paths.info, p, max_x, max_y)],
        paths.order[p],
        #[trigger] path_len(paths.order, paths.info, p, max_x, max_y),
    ) by {
        lemma_path_len(turfs, dom, paths, from, n, at, p, max_x, max_y);
        breadth_first_is_shortest(links, paths.order, from, n, at, p);
    }
}

proof fn lemma_all_drained<A: Amount>(
    info: Map<TurfID, Ledger<A>>,
    order: Seq<TurfID>,
    turfs: Seq<MixWithID>,
    n: int,
    max_x: int,
    max_y: int,
    target: A,
)
    requires
        paths_lead(order, info, n, max_x, max_y),
    ensures
        ({
            let end = all_drained(info, order, turfs, max_x, max_y, target);
            &&& forall|p: int|
                0 <= p < order.len() && holds(turfs, #[trigger] order[p])
                    ==> end[order[p]].mole_delta == target
            &&& forall|k: TurfID| !order.contains(k) ==> #[trigger] end[k] == info[k]
        }),
    decreases order.len(),
{
    if order.len() > 0 {
        let last = order.len() - 1;
        let i = order.last();
        let rest = order.drop_last();
        let next = drained(info, i, turfs, max_x, max_y, target);
        let end = all_drained(info, order, turfs, max_x, max_y, target);
        let dir = info[i].curr_transfer_dir;
        let loc = adjacent(dir, i, max_x, max_y);
        assert(info.contains_key(order[last]));
        if last < n {
            assert(info[order[last]].curr_transfer_dir == 6);
        } else {
            assert(leads_on(order, info, last, max_x, max_y));
            let q = choose|q: int| 0 <= q < last && #[trigger] order[q] == loc;
            assert(info.contains_key(order[q]));
            assert(rest[q] == loc);
            assert(order[q] != order[last]);
        }
        assert(next.dom() =~= info.dom());
        assert forall|k: TurfID| #[trigger] next.contains_key(k) implies next[k].curr_transfer_dir
            == info[k].curr_transfer_dir by {}
        assert(paths_lead(rest, next, n, max_x, max_y)) by {
            assert forall|p: int| 0 <= p < rest.len() implies next.contains_key(
                #[trigger] rest[p],
            ) by {
                assert(info.contains_key(order[p]));
            }
            assert forall|p: int|
                0 <= p < n && p < rest.len() implies next[#[trigger] rest[p]].curr_transfer_dir
                == 6 by {
                assert(info[order[p]].curr_transfer_dir == 6);
                assert(next.contains_key(rest[p]));
            }
            assert forall|p: int| n <= p < rest.len() implies #[trigger] leads_on(
                rest,
                next,
                p,
                max_x,
                max_y,
            ) by {
                assert(leads_on(order, info, p, max_x, max_y));
                assert(rest[p] == order[p]);
                assert(next.contains_key(rest[p]));
                let q = choose|q: int|
                    0 <= q < p && #[trigger] order[q] == adjacent(
                        info[order[p]].curr_transfer_dir,
                        order[p],
                        max_x,
                        max_y,
                    );
                assert(rest[q] == order[q]);
            }
        }
        lemma_all_drained(next, rest, turfs, n, max_x, max_y, target);
        assert(end == all_drained(next, rest, turfs, max_x, max_y, target));
        assert(!rest.contains(i)) by {
            if rest.contains(i) {
                let p = choose|p: int| 0 <= p < rest.len() && rest[p] == i;
                assert(order[p] == order[last]);
            }
        }
        assert(end[i].mole_delta == next[i].mole_delta);
        assert forall|p: int|
            0 <= p < order.len() && holds(turfs, #[trigger] order[p]) implies end[order[p]].mole_delta
            == target by {
            if p < last {
                assert(rest[p] == order[p]);
            }
        }
        assert forall|k: TurfID| !order.contains(k) implies #[trigger] end[k] == info[k] by {
            assert(order.contains(order[last]));
            if rest.contains(k) {
                let p = choose|p: int| 0 <= p < rest.len() && rest[p] == k;
                assert(order[p] == k);
            }
            if last >= n {
                let q = choose|q: int| 0 <= q < last && #[trigger] order[q] == loc;
                assert(order.contains(order[q]));
            }
        }
    }
}

/// Every turf of the zone that a path was found for ends up exactly as far above
/// the average as the planet is. The books of all turfs that no path was found for
/// stay as they are.
pub proof fn drained_turfs_match_the_planet<A: Amount>(
    planet_turfs: Seq<MixWithID>,
    turfs: Seq<MixWithID>,
    max_x: int,
    max_y: int,
    limit: int,
    info: Map<TurfID, Ledger<A>>,
    target: A,
)
    requires
        distinct(planet_turfs),
        all_ends(planet_turfs, turfs),
    ensures
        ({
            let paths = planet_paths(planet_turfs, turfs, max_x, max_y, limit, info);
            let end = all_drained(paths.info, paths.order, turfs, max_x, max_y, target);
            &&& forall|p: int|
                0 <= p < paths.order.len() && holds(turfs, #[trigger] paths.order[p])
                    ==> end[paths.order[p]].mole_delta == target
            &&& forall|k: TurfID|
                !paths.order.contains(k) ==> #[trigger] end[k] == paths.info[k]
        }),
{
    paths_lead_to_the_planet(planet_turfs, turfs, max_x, max_y, limit, info);
    let paths = planet_paths(planet_turfs, turfs, max_x, max_y, limit, info);
    lemma_all_drained(
        paths.info,
        paths.order,
        turfs,
        planet_turfs.len() as int,
        max_x,
        max_y,
        target,
    );
}

} // verus!
