//! Whom a turf is matched with first.
use vstd::prelude::*;
use crate::amount::Amount;
use crate::grid::{adjacent, lemma_neighbours, neighbours, TurfID};
use crate::info::Ledger;
use crate::laws::breadth::{
    breadth_first, breadth_first_is_shortest, depth, lemma_depth_grows, lemma_goes_on,
    lemma_nearer, lemma_next_to, lemma_reaches, next_to, opens_to, steps_away,
};
use crate::laws::grid::neighbours_lie_where_set;
use crate::laws::reach::{
    lemma_look, lemma_look_around, lemma_pass_all_on, thorough, zero_ordered,
};
use crate::settle::{
    explore, look, look_around, matches_side, passable, satisfied, search_from, settled_one,
    Search, Side,
};
use crate::tables::{
    entry_of, holds, lemma_distinct_entries_len, lemma_put, place, MixWithID,
};

verus! {

/// The search may go on from turf `u` to turf `v`.
pub open spec fn search_links<A: Amount>(
    turfs: Seq<MixWithID>,
    info: Map<TurfID, Ledger<A>>,
    max_x: int,
    max_y: int,
) -> spec_fn(TurfID, TurfID) -> bool {
    |u: TurfID, v: TurfID|
        {
            &&& entry_of(turfs, u) matches Some(m) && next_to(m.adjacency, u, v, max_x, max_y, 6)
            &&& passable(turfs, info, v)
        }
}

spec fn ids(queue: Seq<MixWithID>) -> Seq<TurfID> {
    queue.map_values(|turf: MixWithID| turf.0)
}

/// None of the turfs of the queue before the one at `t` can be matched any more,
/// but for the first.
spec fn none_before<A: Amount>(side: Side, search: Search<A>, t: int) -> bool {
    forall|p: int|
        1 <= p < t ==> !matches_side(side, search.info[(#[trigger] search.queue[p]).0].mole_delta)
}

/// What holds of a search all the while: it goes breadth first, and has matched
/// only turfs before which none was left to be matched.
spec fn in_turn<A: Amount>(
    side: Side,
    turfs: Seq<MixWithID>,
    info: Map<TurfID, Ledger<A>>,
    max_x: int,
    max_y: int,
    root: TurfID,
    search: Search<A>,
    from: Seq<int>,
    at: int,
) -> bool {
    let queue = search.queue;
    &&& thorough(side, turfs, info, max_x, max_y, root, search, at)
    &&& breadth_first(search_links(turfs, info, max_x, max_y), ids(queue), from, 1, at)
    &&& forall|t: int|
        1 <= t < queue.len() && search.info[(#[trigger] queue[t]).0].mole_delta
            != info[queue[t].0].mole_delta ==> none_before(side, search, t)
    &&& forall|k: TurfID| #[trigger]
        info.contains_key(k) && !holds(queue, k) ==> search.info[k].mole_delta
            == info[k].mole_delta
}

proof fn lemma_look_in_turn<A: Amount>(
    side: Side,
    turfs: Seq<MixWithID>,
    info: Map<TurfID, Ledger<A>>,
    max_x: int,
    max_y: int,
    root: TurfID,
    search: Search<A>,
    from: Seq<int>,
    at: int,
    step: (u8, TurfID),
) -> (came: Seq<int>)
    requires
        zero_ordered::<A>(),
        in_turn(side, turfs, info, max_x, max_y, root, search, from, at),
        !satisfied(side, search.own.mole_delta),
        at < search.queue.len(),
        step.0 < 6,
        opens_to(search.queue[at].1.adjacency, step.0),
        step.1 == adjacent(step.0 as int, search.queue[at].0, max_x, max_y),
    ensures
        in_turn(
            side,
            turfs,
            info,
            max_x,
            max_y,
            root,
            look(side, turfs, root, search, step),
            came,
            at,
        ),
{
    let (j, loc) = step;
    let queue = search.queue;
    let next = look(side, turfs, root, search, step);
    let links = search_links(turfs, info, max_x, max_y);
    lemma_look(side, turfs, info, max_x, max_y, root, search, at, step);
    assert(passable(turfs, search.info, loc) == passable(turfs, info, loc));
    assert(holds(queue, queue[0].0));
    assert forall|p: int| 1 <= p < queue.len() implies (#[trigger] queue[p]).0 != root by {
        assert(queue[0].0 != queue[p].0);
    }
    if passable(turfs, info, loc) && !holds(queue, loc) {
        let mixture = entry_of(turfs, loc)->0;
        let came = from.push(at);
        let last = queue.len() as int;
        lemma_put(queue, loc, mixture);
        assert(next.queue =~= queue.push((loc, mixture)));
        assert(ids(next.queue) =~= ids(queue).push(loc));
        let i = queue[at].0;
        assert(!ids(queue).contains(loc)) by {
            if ids(queue).contains(loc) {
                let p = choose|p: int| 0 <= p < ids(queue).len() && ids(queue)[p] == loc;
                assert(queue[p].0 == loc);
            }
        }
        assert(ids(queue)[at] == i);
        assert(entry_of(turfs, queue[at].0) == Some(queue[at].1));
        assert(next_to(queue[at].1.adjacency, i, loc, max_x, max_y, 6));
        assert(links(i, loc));
        lemma_reaches(links, ids(queue), from, 1, at, loc);
        assert forall|p: int| 1 <= p < last implies (#[trigger] next.queue[p]).0 == queue[p].0
            && next.info[queue[p].0] == search.info[queue[p].0] by {
            assert(holds(queue, queue[p].0));
            assert(queue[p].0 != root);
        }
        assert forall|t: int|
            1 <= t < next.queue.len() && next.info[(#[trigger] next.queue[t]).0].mole_delta
                != info[next.queue[t].0].mole_delta implies none_before(side, next, t) by {
            if t < last {
                assert(queue[t].0 == next.queue[t].0);
                assert(none_before(side, search, t));
            }
            assert forall|p: int| 1 <= p < t implies !matches_side(
                side,
                next.info[(#[trigger] next.queue[p]).0].mole_delta,
            ) by {
                assert(!matches_side(side, search.info[queue[p].0].mole_delta));
            }
        }
        assert forall|k: TurfID| #[trigger]
            info.contains_key(k) && !holds(next.queue, k) implies next.info[k].mole_delta
            == info[k].mole_delta by {
            assert(!holds(queue, k));
            assert(next.queue[0].0 == root);
            assert(next.queue[last].0 == loc);
        }
        came
    } else {
        assert(next.queue =~= queue) by {
            if passable(turfs, info, loc) {
                let p = place(queue, loc);
                assert(entry_of(turfs, queue[p].0) == Some(queue[p].1));
            }
        }
        assert forall|p: int| 1 <= p < queue.len() implies next.info[(#[trigger] queue[p]).0]
            == search.info[queue[p].0] by {
            assert(queue[p].0 != root);
        }
        assert forall|t: int|
            1 <= t < next.queue.len() && next.info[(#[trigger] next.queue[t]).0].mole_delta
                != info[next.queue[t].0].mole_delta implies none_before(side, next, t) by {
            assert(queue[t].0 == next.queue[t].0);
            assert(none_before(side, search, t));
            assert forall|p: int| 1 <= p < t implies !matches_side(
                side,
                next.info[(#[trigger] next.queue[p]).0].mole_delta,
            ) by {
                assert(!matches_side(side, search.info[queue[p].0].mole_delta));
            }
        }
        from
    }
}

proof fn lemma_look_around_in_turn<A: Amount>(
    side: Side,
    turfs: Seq<MixWithID>,
    info: Map<TurfID, Ledger<A>>,
    max_x: int,
    max_y: int,
    root: TurfID,
    search: Search<A>,
    from: Seq<int>,
    at: int,
    steps: Seq<(u8, TurfID)>,
) -> (came: Seq<int>)
    requires
        zero_ordered::<A>(),
        in_turn(side, turfs, info, max_x, max_y, root, search, from, at),
        at < search.queue.len(),
        forall|k: int|
            #![trigger steps[k]]
            0 <= k < steps.len() ==> steps[k].0 < 6 && opens_to(
                search.queue[at].1.adjacency,
                steps[k].0,
            ) && steps[k].1 == adjacent(steps[k].0 as int, search.queue[at].0, max_x, max_y),
    ensures
        in_turn(
            side,
            turfs,
            info,
            max_x,
            max_y,
            root,
            look_around(side, turfs, root, search, steps),
            came,
            at,
        ),
    decreases steps.len(),
{
    if steps.len() > 0 && !satisfied(side, search.own.mole_delta) {
        lemma_look(side, turfs, info, max_x, max_y, root, search, at, steps[0]);
        let between = lemma_look_in_turn(
            side,
            turfs,
            info,
            max_x,
            max_y,
            root,
            search,
            from,
            at,
            steps[0],
        );
        let next = look(side, turfs, root, search, steps[0]);
        assert(next.queue[at] == search.queue[at]);
        lemma_look_around_in_turn(
            side,
            turfs,
            info,
            max_x,
            max_y,
            root,
            next,
            between,
            at,
            steps.drop_first(),
        )
    } else {
        from
    }
}

proof fn lemma_explore_in_turn<A: Amount>(
    side: Side,
    turfs: Seq<MixWithID>,
    info: Map<TurfID, Ledger<A>>,
    max_x: int,
    max_y: int,
    root: TurfID,
    search: Search<A>,
    from: Seq<int>,
    at: int,
) -> (end: (Seq<int>, int))
    requires
        zero_ordered::<A>(),
        in_turn(side, turfs, info, max_x, max_y, root, search, from, at),
    ensures
        in_turn(
            side,
            turfs,
            info,
            max_x,
            max_y,
            root,
            explore(side, turfs, max_x, max_y, root, search, at),
            end.0,
            end.1,
        ),
    decreases 0x1_0000_0000 - at,
{
    lemma_distinct_entries_len(search.queue);
    if at < search.queue.len() && !satisfied(side, search.own.mole_delta) {
        let (i, mixture) = search.queue[at];
        let links = search_links(turfs, info, max_x, max_y);
        let steps = neighbours(mixture.adjacency, i, max_x, max_y, 0, 6);
        lemma_neighbours(mixture.adjacency, i, max_x, max_y, 0, 6);
        assert forall|k: int| #![trigger steps[k]] 0 <= k < steps.len() implies opens_to(
            mixture.adjacency,
            steps[k].0,
        ) by {
            neighbours_lie_where_set(mixture.adjacency, i, max_x, max_y, 0, 6, steps[k].0);
            assert(steps.contains(steps[k]));
        }
        lemma_look_around(side, turfs, info, max_x, max_y, root, search, at, steps);
        let between = lemma_look_around_in_turn(
            side,
            turfs,
            info,
            max_x,
            max_y,
            root,
            search,
            from,
            at,
            steps,
        );
        let next = look_around(side, turfs, root, search, steps);
        assert(next.queue[at] == (i, mixture));
        if satisfied(side, next.own.mole_delta) {
            assert(explore(side, turfs, max_x, max_y, root, next, at + 1) == next);
            (between, at)
        } else {
            assert(ids(next.queue)[at] == i);
            assert(entry_of(turfs, search.queue[at].0) == Some(mixture));
            lemma_next_to(mixture.adjacency, i, max_x, max_y, 6);
            assert forall|v: TurfID| links(i, v) implies #[trigger] ids(next.queue).contains(v) by {
                assert(next_to(mixture.adjacency, i, v, max_x, max_y, 6));
                let k = choose|k: int| 0 <= k < steps.len() && (#[trigger] steps[k]).1 == v;
                assert(holds(next.queue, steps[k].1));
                let p = place(next.queue, v);
                assert(ids(next.queue)[p] == v);
            }
            lemma_goes_on(links, ids(next.queue), between, 1, at);
            assert(thorough(side, turfs, info, max_x, max_y, root, next, at + 1));
            lemma_explore_in_turn(
                side,
                turfs,
                info,
                max_x,
                max_y,
                root,
                next,
                between,
                at + 1,
            )
        }
    } else {
        (from, at)
    }
}

/// Nearer turfs come first: a turf that is farther away than another is matched
/// only once that other one can be matched no more. `near` can be reached from
/// `turf` in `l` steps, and `far` in no fewer than one more.
pub proof fn nearer_turfs_are_matched_first<A: Amount>(
    side: Side,
    turfs: Seq<MixWithID>,
    max_x: int,
    max_y: int,
    info: Map<TurfID, Ledger<A>>,
    turf: MixWithID,
    near: TurfID,
    far: TurfID,
    l: nat,
)
    requires
        zero_ordered::<A>(),
        info.contains_key(turf.0),
        info.contains_key(far),
        entry_of(turfs, turf.0) == Some(turf.1),
        near != turf.0,
        steps_away(search_links(turfs, info, max_x, max_y), seq![turf.0], near, l),
        forall|m: nat|
            m <= l ==> !#[trigger] steps_away(
                search_links(turfs, info, max_x, max_y),
                seq![turf.0],
                far,
                m,
            ),
    ensures
        ({
            let after = settled_one(side, turfs, max_x, max_y, info, turf);
            after[far].mole_delta != info[far].mole_delta ==> !matches_side(
                side,
                after[near].mole_delta,
            )
        }),
{
    let root = turf.0;
    let links = search_links(turfs, info, max_x, max_y);
    let first = search_from(info, turf);
    assert(first.info.dom() =~= info.dom());
    assert(holds(first.queue, first.queue[0].0));
    assert(in_turn(side, turfs, info, max_x, max_y, root, first, seq![0int], 0));
    let (from, at) = lemma_explore_in_turn(
        side,
        turfs,
        info,
        max_x,
        max_y,
        root,
        first,
        seq![0int],
        0,
    );
    let end = explore(side, turfs, max_x, max_y, root, first, 0);
    let queue = end.queue;
    let order = ids(queue);
    lemma_pass_all_on(end.info, queue, max_x, max_y);
    let after = settled_one(side, turfs, max_x, max_y, info, turf);
    if after[far].mole_delta != info[far].mole_delta {
        assert(end.info.contains_key(far));
        assert(holds(queue, far));
        let t = place(queue, far);
        assert(order.take(1) =~= seq![root]);
        assert(seq![root][0] == root);
        assert(!steps_away(links, seq![root], far, 0));
        assert(far != root);
        assert(order[t] == far);
        breadth_first_is_shortest(links, order, from, 1, at, t);
        assert(steps_away(links, seq![root], far, depth(from, 1, t)));
        assert(depth(from, 1, t) > l);
        let r = lemma_nearer(links, order, from, 1, at, t, near, l);
        if t <= r {
            lemma_depth_grows(links, order, from, 1, at, t, r);
        }
        assert(queue[r].0 == near);
        assert(queue[t].0 == far);
        assert(r >= 1);
        assert(none_before(side, end, t));
        assert(!matches_side(side, end.info[queue[r].0].mole_delta));
        assert(info.contains_key(queue[r].0));
        assert(end.info.contains_key(near));
    }
}

} // verus!
