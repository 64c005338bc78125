//! Gas is booked to flow only where it can.
use vstd::prelude::*;
use crate::amount::{above_zero, Amount};
use crate::fast::{fast_processed, lemma_open_steps, open_steps, open_to, shared_out};
use crate::flood::Probe;
use crate::grid::{
    adjacent, lemma_neighbours, neighbours, opposite, opposite_step_returns, TurfID,
};
use crate::info::Ledger;
use crate::laws::breadth::opens_to;
use crate::laws::fast::quick_round_conserves;
use crate::laws::grid::neighbours_lie_where_set;
use crate::laws::level::{known, lemma_known};
use crate::laws::tree::{lemma_explore_tree, lemma_search_begins, settling_stays_in_step};
use crate::laws::zone::balancing_conserves;
use crate::planet::{
    all_drained, drained, ends_marked, path_step, path_steps, paths_found, planet_paths,
    planet_sum, Paths,
};
use crate::settle::{
    explore, look, look_around, pass_all_on, pass_on, passable, rewritten, satisfied, search_from,
    settled, settled_one, Search, Side,
};
use crate::tables::{
    books_wf, distinct, entry_of, holds, lemma_put, place, MixWithID, TurfMixture,
};
use crate::zone::{
    all_fast_processed, balanced, deficit_turfs, needs_quick_round, opened, other_turfs,
    surplus_turfs, zone_books,
};

verus! {

/// Turf `i` is open to its neighbour in direction `d`, as the zone knows it.
pub open spec fn is_open(turfs: Seq<MixWithID>, i: TurfID, d: int) -> bool {
    entry_of(turfs, i) matches Some(mixture) && opens_to(mixture.adjacency, d as u8)
}

/// Gas can flow between turf `i` and its neighbour in direction `d`: one of them is
/// a turf of the zone that is open to the other, and the neighbour is one of
/// `dom`.
pub open spec fn way(
    turfs: Seq<MixWithID>,
    dom: Set<TurfID>,
    i: TurfID,
    d: int,
    max_x: int,
    max_y: int,
) -> bool {
    let loc = adjacent(d, i, max_x, max_y);
    dom.contains(loc) && (is_open(turfs, i, d) || is_open(turfs, loc, opposite(d)))
}

/// All that is booked for turf `i` to flow can flow, and so can what it is about to
/// pass on.
pub open spec fn follows_ways<A: Amount>(
    turfs: Seq<MixWithID>,
    info: Map<TurfID, Ledger<A>>,
    i: TurfID,
    max_x: int,
    max_y: int,
) -> bool {
    let dir = info[i].curr_transfer_dir;
    &&& dir == 6 || 0 <= dir < 6 && way(turfs, info.dom(), i, dir, max_x, max_y)
    &&& forall|d: int|
        0 <= d < 6 && #[trigger] info[i].transfers[d] != A::spec_zero() ==> way(
            turfs,
            info.dom(),
            i,
            d,
            max_x,
            max_y,
        )
}

/// All that is booked to flow between turfs can flow.
pub open spec fn all_follow_ways<A: Amount>(
    turfs: Seq<MixWithID>,
    info: Map<TurfID, Ledger<A>>,
    max_x: int,
    max_y: int,
) -> bool {
    forall|i: TurfID| #[trigger]
        info.contains_key(i) ==> follows_ways(turfs, info, i, max_x, max_y)
}

/// A way leads back.
proof fn lemma_way_back(
    turfs: Seq<MixWithID>,
    dom: Set<TurfID>,
    i: TurfID,
    d: int,
    max_x: int,
    max_y: int,
)
    requires
        0 <= d < 6,
        dom.contains(i),
        way(turfs, dom, i, d, max_x, max_y),
    ensures
        way(turfs, dom, adjacent(d, i, max_x, max_y), opposite(d), max_x, max_y),
{
    opposite_step_returns(d, i, max_x, max_y);
}

/// Booking along a way keeps all books on ways.
proof fn lemma_booked_on_way<A: Amount>(
    turfs: Seq<MixWithID>,
    before: Map<TurfID, Ledger<A>>,
    after: Map<TurfID, Ledger<A>>,
    i: TurfID,
    dir: int,
    max_x: int,
    max_y: int,
)
    requires
        all_follow_ways(turfs, before, max_x, max_y),
        after.dom() == before.dom(),
        before.contains_key(i),
        0 <= dir < 6 ==> way(turfs, before.dom(), i, dir, max_x, max_y),
        0 <= dir <= 6,
        forall|k: TurfID| #[trigger]
            before.contains_key(k) ==> after[k].curr_transfer_dir == before[k].curr_transfer_dir,
        forall|k: TurfID, d: int|
            #![trigger after[k].transfers[d]]
            before.contains_key(k) && 0 <= d < 6 && !(k == i && d == dir) && !(k == adjacent(
                dir,
                i,
                max_x,
                max_y,
            ) && d == opposite(dir)) ==> after[k].transfers[d] == before[k].transfers[d],
    ensures
        all_follow_ways(turfs, after, max_x, max_y),
{
    if dir < 6 {
        lemma_way_back(turfs, before.dom(), i, dir, max_x, max_y);
    }
    assert forall|k: TurfID| #[trigger] after.contains_key(k) implies follows_ways(
        turfs,
        after,
        k,
        max_x,
        max_y,
    ) by {
        assert(before.contains_key(k));
        assert(follows_ways(turfs, before, k, max_x, max_y));
        assert forall|d: int|
            0 <= d < 6 && #[trigger] after[k].transfers[d] != A::spec_zero() implies way(
            turfs,
            after.dom(),
            k,
            d,
            max_x,
            max_y,
        ) by {
            if !(k == i && d == dir) && !(k == adjacent(dir, i, max_x, max_y) && d == opposite(
                dir,
            )) {
                assert(before[k].transfers[d] != A::spec_zero());
            }
        }
    }
}

/// Turfs that keep their books, and get no direction or one along a way, stay on
/// ways.
proof fn lemma_turned_on_way<A: Amount>(
    turfs: Seq<MixWithID>,
    before: Map<TurfID, Ledger<A>>,
    after: Map<TurfID, Ledger<A>>,
    max_x: int,
    max_y: int,
)
    requires
        all_follow_ways(turfs, before, max_x, max_y),
        before.dom().subset_of(after.dom()),
        forall|k: TurfID| #[trigger]
            after.contains_key(k) ==> {
                let dir = after[k].curr_transfer_dir;
                ||| dir == 6
                ||| 0 <= dir < 6 && way(turfs, after.dom(), k, dir, max_x, max_y)
                ||| before.contains_key(k) && dir == before[k].curr_transfer_dir
            },
        forall|k: TurfID| #[trigger]
            after.contains_key(k) ==> {
                ||| before.contains_key(k) && after[k].transfers == before[k].transfers
                ||| after[k].transfers == Ledger::<A>::blank().transfers
            },
    ensures
        all_follow_ways(turfs, after, max_x, max_y),
{
    assert forall|k: TurfID| #[trigger] after.contains_key(k) implies follows_ways(
        turfs,
        after,
        k,
        max_x,
        max_y,
    ) by {
        if before.contains_key(k) {
            assert(follows_ways(turfs, before, k, max_x, max_y));
        }
        assert forall|d: int|
            0 <= d < 6 && #[trigger] after[k].transfers[d] != A::spec_zero() implies way(
            turfs,
            after.dom(),
            k,
            d,
            max_x,
            max_y,
        ) by {
            assert(before[k].transfers[d] != A::spec_zero());
        }
    }
}

/// The search knows the turfs of its queue as the zone does.
spec fn queue_known<A: Amount>(
    turfs: Seq<MixWithID>,
    info: Map<TurfID, Ledger<A>>,
    queue: Seq<MixWithID>,
) -> bool {
    &&& distinct(queue)
    &&& forall|p: int|
        0 <= p < queue.len() ==> entry_of(turfs, (#[trigger] queue[p]).0) == Some(queue[p].1)
            && info.contains_key(queue[p].0)
}

spec fn search_on_ways<A: Amount>(
    turfs: Seq<MixWithID>,
    root: TurfID,
    search: Search<A>,
    max_x: int,
    max_y: int,
) -> bool {
    &&& all_follow_ways(turfs, search.info, max_x, max_y)
    &&& queue_known(turfs, search.info, search.queue)
    &&& search.info.contains_key(root)
    &&& search.own.transfers == search.info[root].transfers
    &&& search.own.curr_transfer_dir == 6
    &&& holds(search.queue, root)
}

proof fn lemma_look_on_ways<A: Amount>(
    side: Side,
    turfs: Seq<MixWithID>,
    root: TurfID,
    search: Search<A>,
    at: int,
    step: (u8, TurfID),
    max_x: int,
    max_y: int,
)
    requires
        search_on_ways(turfs, root, search, max_x, max_y),
        0 <= at < search.queue.len(),
        step.0 < 6,
        opens_to(search.queue[at].1.adjacency, step.0),
        step.1 == adjacent(step.0 as int, search.queue[at].0, max_x, max_y),
    ensures
        ({
            let next = look(side, turfs, root, search, step);
            &&& search_on_ways(turfs, root, next, max_x, max_y)
            &&& search.queue.len() <= next.queue.len()
            &&& next.queue[at] == search.queue[at]
        }),
{
    let next = look(side, turfs, root, search, step);
    let (j, loc) = step;
    let queue = search.queue;
    let i = queue[at].0;
    assert(entry_of(turfs, queue[at].0) == Some(queue[at].1));
    assert(next.info.dom() =~= search.info.dom());
    opposite_step_returns(j as int, i, max_x, max_y);
    assert(is_open(turfs, i, j as int));
    assert(way(turfs, search.info.dom(), loc, opposite(j as int), max_x, max_y));
    assert forall|k: TurfID| #[trigger] next.info.contains_key(k) implies next.info[k].transfers
        == search.info[k].transfers by {
        assert(search.info.contains_key(k));
    }
    lemma_turned_on_way(turfs, search.info, next.info, max_x, max_y);
    if passable(turfs, search.info, loc) {
        let mixture = entry_of(turfs, loc)->0;
        lemma_put(queue, loc, mixture);
        if holds(queue, loc) {
            let p = place(queue, loc);
            assert(entry_of(turfs, queue[p].0) == Some(queue[p].1));
            assert(next.queue =~= queue);
        } else {
            assert(next.queue =~= queue.push((loc, mixture)));
            let p = place(queue, root);
            assert(next.queue[p].0 == root);
        }
    }
}

proof fn lemma_look_around_on_ways<A: Amount>(
    side: Side,
    turfs: Seq<MixWithID>,
    root: TurfID,
    search: Search<A>,
    at: int,
    steps: Seq<(u8, TurfID)>,
    max_x: int,
    max_y: int,
)
    requires
        search_on_ways(turfs, root, search, max_x, max_y),
        0 <= at < search.queue.len(),
        forall|k: int|
            #![trigger steps[k]]
            0 <= k < steps.len() ==> steps[k].0 < 6 && opens_to(
                search.queue[at].1.adjacency,
                steps[k].0,
            ) && steps[k].1 == adjacent(steps[k].0 as int, search.queue[at].0, max_x, max_y),
    ensures
        search_on_ways(turfs, root, look_around(side, turfs, root, search, steps), max_x, max_y),
    decreases steps.len(),
{
    if steps.len() > 0 && !satisfied(side, search.own.mole_delta) {
        lemma_look_on_ways(side, turfs, root, search, at, steps[0], max_x, max_y);
        let next = look(side, turfs, root, search, steps[0]);
        lemma_look_around_on_ways(
            side,
            turfs,
            root,
            next,
            at,
            steps.drop_first(),
            max_x,
            max_y,
        );
    }
}

/// All steps to neighbours are open.
proof fn lemma_steps_open(adjacency: u8, i: TurfID, max_x: int, max_y: int)
    ensures
        forall|k: int|
            #![trigger neighbours(adjacency, i, max_x, max_y, 0, 6)[k]]
            0 <= k < neighbours(adjacency, i, max_x, max_y, 0, 6).len() ==> {
                let (j, loc) = neighbours(adjacency, i, max_x, max_y, 0, 6)[k];
                j < 6 && opens_to(adjacency, j) && loc == adjacent(j as int, i, max_x, max_y)
            },
{
    let steps = neighbours(adjacency, i, max_x, max_y, 0, 6);
    lemma_neighbours(adjacency, i, max_x, max_y, 0, 6);
    assert forall|k: int| #![trigger steps[k]] 0 <= k < steps.len() implies steps[k].0 < 6
        && opens_to(adjacency, steps[k].0) && steps[k].1 == adjacent(
        steps[k].0 as int,
        i,
        max_x,
        max_y,
    ) by {
        neighbours_lie_where_set(adjacency, i, max_x, max_y, 0, 6, steps[k].0);
        assert(steps.contains(steps[k]));
    }
}

proof fn lemma_explore_on_ways<A: Amount>(
    side: Side,
    turfs: Seq<MixWithID>,
    root: TurfID,
    search: Search<A>,
    at: int,
    max_x: int,
    max_y: int,
)
    requires
        search_on_ways(turfs, root, search, max_x, max_y),
        0 <= at,
    ensures
        search_on_ways(
            turfs,
            root,
            explore(side, turfs, max_x, max_y, root, search, at),
            max_x,
            max_y,
        ),
    decreases 0x1_0000_0000 - at,
{
    if at < search.queue.len() && at < 0x1_0000_0000 && !satisfied(side, search.own.mole_delta) {
        let (i, mixture) = search.queue[at];
        let steps = neighbours(mixture.adjacency, i, max_x, max_y, 0, 6);
        lemma_steps_open(mixture.adjacency, i, max_x, max_y);
        lemma_look_around_on_ways(side, turfs, root, search, at, steps, max_x, max_y);
        lemma_explore_on_ways(
            side,
            turfs,
            root,
            look_around(side, turfs, root, search, steps),
            at + 1,
            max_x,
            max_y,
        );
    }
}

proof fn lemma_pass_all_on_ways<A: Amount>(
    turfs: Seq<MixWithID>,
    info: Map<TurfID, Ledger<A>>,
    queue: Seq<MixWithID>,
    max_x: int,
    max_y: int,
)
    requires
        books_wf(info),
        all_follow_ways(turfs, info, max_x, max_y),
    ensures
        all_follow_ways(turfs, pass_all_on(info, queue, max_x, max_y), max_x, max_y),
        pass_all_on(info, queue, max_x, max_y).dom() == info.dom(),
    decreases queue.len(),
{
    if queue.len() > 0 {
        let i = queue.last().0;
        let next = pass_on(info, i, max_x, max_y);
        let dir = info[i].curr_transfer_dir;
        assert(next.dom() =~= info.dom());
        assert forall|k: TurfID| #[trigger] next.contains_key(k) implies next[k].wf() by {
            assert(info[k].wf());
        }
        if next != info {
            assert(follows_ways(turfs, info, i, max_x, max_y));
            assert(info[i].wf());
            assert(info[adjacent(dir, i, max_x, max_y)].wf());
            lemma_booked_on_way(turfs, info, next, i, dir, max_x, max_y);
        }
        lemma_pass_all_on_ways(turfs, next, queue.drop_last(), max_x, max_y);
    }
}

/// Matching a turf books gas to flow only where it can.
pub proof fn matching_follows_ways<A: Amount>(
    side: Side,
    turfs: Seq<MixWithID>,
    max_x: int,
    max_y: int,
    info: Map<TurfID, Ledger<A>>,
    turf: MixWithID,
)
    requires
        books_wf(info),
        all_follow_ways(turfs, info, max_x, max_y),
        entry_of(turfs, turf.0) == Some(turf.1),
    ensures
        all_follow_ways(
            turfs,
            settled_one(side, turfs, max_x, max_y, info, turf),
            max_x,
            max_y,
        ),
{
    if info.contains_key(turf.0) {
        let root = turf.0;
        let first = search_from(info, turf);
        assert(first.info.dom() =~= info.dom());
        lemma_turned_on_way(turfs, info, first.info, max_x, max_y);
        assert(first.queue[0].0 == root);
        assert(search_on_ways(turfs, root, first, max_x, max_y));
        lemma_explore_on_ways(side, turfs, root, first, 0, max_x, max_y);
        let end = explore(side, turfs, max_x, max_y, root, first, 0);
        lemma_search_begins(info, turf, max_x, max_y);
        lemma_explore_tree(info, side, turfs, root, first, 0, max_x, max_y);
        lemma_pass_all_on_ways(turfs, end.info, end.queue, max_x, max_y);
    }
}

/// Matching turf after turf books gas to flow only where it can.
pub proof fn matching_all_follows_ways<A: Amount>(
    side: Side,
    list: Seq<MixWithID>,
    turfs: Seq<MixWithID>,
    max_x: int,
    max_y: int,
    info: Map<TurfID, Ledger<A>>,
)
    requires
        books_wf(info),
        all_follow_ways(turfs, info, max_x, max_y),
        known(turfs, list),
    ensures
        all_follow_ways(
            turfs,
            settled(side, list, turfs, max_x, max_y, info),
            max_x,
            max_y,
        ),
    decreases list.len(),
{
    if list.len() > 0 {
        let front = list.drop_last();
        assert forall|p: int| 0 <= p < front.len() implies entry_of(
            turfs,
            (#[trigger] front[p]).0,
        ) == Some(front[p].1) by {
            assert(front[p] == list[p]);
        }
        matching_all_follows_ways(side, front, turfs, max_x, max_y, info);
        settling_stays_in_step(side, front, turfs, max_x, max_y, info);
        let between = settled(side, front, turfs, max_x, max_y, info);
        assert(list[list.len() - 1] == list.last());
        matching_follows_ways(side, turfs, max_x, max_y, between, list.last());
    }
}

proof fn lemma_shared_on_ways<A: Amount>(
    turfs: Seq<MixWithID>,
    info: Map<TurfID, Ledger<A>>,
    i: TurfID,
    own: Ledger<A>,
    steps: Seq<(u8, TurfID)>,
    moles: A,
    max_x: int,
    max_y: int,
)
    requires
        books_wf(info),
        all_follow_ways(turfs, info, max_x, max_y),
        info.contains_key(i),
        info[i] == own,
        forall|k: int|
            #![trigger steps[k]]
            0 <= k < steps.len() ==> {
                &&& steps[k].0 < 6
                &&& steps[k].1 == adjacent(steps[k].0 as int, i, max_x, max_y)
                &&& steps[k].1 != i
                &&& info.contains_key(steps[k].1)
                &&& is_open(turfs, i, steps[k].0 as int)
            },
    ensures
        all_follow_ways(turfs, shared_out(info, i, own, steps, moles), max_x, max_y),
    decreases steps.len(),
{
    if steps.len() > 0 {
        let (j, loc) = steps[0];
        let after = Ledger {
            mole_delta: own.mole_delta.spec_minus(moles),
            ..own.sends(j as int, moles)
        };
        let got = info[loc].receives(opposite(j as int), moles);
        let there = Ledger { mole_delta: got.mole_delta.spec_plus(moles), ..got };
        let next = info.insert(loc, there).insert(i, after);
        assert(next.dom() =~= info.dom());
        assert(own.wf() && info[loc].wf());
        assert forall|k: TurfID| #[trigger] next.contains_key(k) implies next[k].wf() by {
            assert(info[k].wf());
        }
        lemma_booked_on_way(turfs, info, next, i, j as int, max_x, max_y);
        lemma_shared_on_ways(turfs, next, i, after, steps.drop_first(), moles, max_x, max_y);
    }
}

/// The turn of a turf in the quick round books gas to flow only where it can.
pub proof fn fast_process_follows_ways<A: Amount>(
    i: TurfID,
    m: TurfMixture,
    turfs: Seq<MixWithID>,
    max_x: int,
    max_y: int,
    info: Map<TurfID, Ledger<A>>,
)
    requires
        books_wf(info),
        all_follow_ways(turfs, info, max_x, max_y),
        entry_of(turfs, i) == Some(m),
    ensures
        all_follow_ways(turfs, fast_processed(i, m, turfs, max_x, max_y, info), max_x, max_y),
{
    if info.contains_key(i) {
        let own = Ledger { fast_done: true, ..info[i] };
        let marked = info.insert(i, own);
        assert(marked.dom() =~= info.dom());
        assert forall|k: TurfID| #[trigger] marked.contains_key(k) implies marked[k].wf() by {
            assert(info[k].wf());
        }
        lemma_turned_on_way(turfs, info, marked, max_x, max_y);
        let all = neighbours(m.adjacency, i, max_x, max_y, 0, 6);
        let steps = open_steps(turfs, marked, all);
        lemma_neighbours(m.adjacency, i, max_x, max_y, 0, 6);
        lemma_steps_open(m.adjacency, i, max_x, max_y);
        lemma_open_steps(turfs, marked, all);
        assert forall|k: int|
            #![trigger steps[k]]
            0 <= k < steps.len() implies {
            &&& steps[k].0 < 6
            &&& steps[k].1 == adjacent(steps[k].0 as int, i, max_x, max_y)
            &&& steps[k].1 != i
            &&& marked.contains_key(steps[k].1)
            &&& is_open(turfs, i, steps[k].0 as int)
        } by {
            assert(open_to(turfs, marked, steps[k].1));
            assert(all.contains(steps[k]));
            let p = choose|p: int| 0 <= p < all.len() && all[p] == steps[k];
            assert(all[p].1 == adjacent(all[p].0 as int, i, max_x, max_y));
        }
        lemma_shared_on_ways(
            turfs,
            marked,
            i,
            own,
            steps,
            own.mole_delta.spec_share(steps.len() as u32),
            max_x,
            max_y,
        );
    }
}

proof fn lemma_quick_round_on_ways<A: Amount>(
    list: Seq<MixWithID>,
    turfs: Seq<MixWithID>,
    max_x: int,
    max_y: int,
    info: Map<TurfID, Ledger<A>>,
)
    requires
        books_wf(info),
        all_follow_ways(turfs, info, max_x, max_y),
        known(turfs, list),
    ensures
        all_follow_ways(
            turfs,
            all_fast_processed(list, turfs, max_x, max_y, info),
            max_x,
            max_y,
        ),
    decreases list.len(),
{
    if list.len() > 0 {
        let front = list.drop_last();
        assert forall|p: int| 0 <= p < front.len() implies entry_of(
            turfs,
            (#[trigger] front[p]).0,
        ) == Some(front[p].1) by {
            assert(front[p] == list[p]);
        }
        lemma_quick_round_on_ways(front, turfs, max_x, max_y, info);
        quick_round_conserves(front, turfs, max_x, max_y, info);
        let between = all_fast_processed(front, turfs, max_x, max_y, info);
        assert(list[list.len() - 1] == list.last());
        fast_process_follows_ways(
            list.last().0,
            list.last().1,
            turfs,
            max_x,
            max_y,
            between,
        );
    }
}

proof fn lemma_balanced_on_ways<A: Amount>(
    turfs: Seq<MixWithID>,
    max_x: int,
    max_y: int,
    info: Map<TurfID, Ledger<A>>,
)
    requires
        distinct(turfs),
        books_wf(info),
        all_follow_ways(turfs, info, max_x, max_y),
    ensures
        all_follow_ways(turfs, balanced(turfs, max_x, max_y, info), max_x, max_y),
{
    let start = if needs_quick_round(turfs, info) {
        all_fast_processed(turfs, turfs, max_x, max_y, info)
    } else {
        info
    };
    assert(known(turfs, turfs)) by {
        assert forall|p: int| 0 <= p < turfs.len() implies entry_of(turfs, (#[trigger] turfs[p]).0)
            == Some(turfs[p].1) by {
            let q = place(turfs, turfs[p].0);
            assert(holds(turfs, turfs[p].0));
            if p < q {
                assert(turfs[p].0 != turfs[q].0);
            } else if q < p {
                assert(turfs[q].0 != turfs[p].0);
            }
        }
    }
    lemma_quick_round_on_ways(turfs, turfs, max_x, max_y, info);
    quick_round_conserves(turfs, turfs, max_x, max_y, info);
    let gives = |turf: MixWithID|
        turf.1.planetary_atmos is None && above_zero(start[turf.0].mole_delta);
    let takes = |turf: MixWithID|
        turf.1.planetary_atmos is None && !above_zero(start[turf.0].mole_delta);
    let lacks = |turf: MixWithID|
        turf.1.planetary_atmos is None && start[turf.0].mole_delta.spec_le(A::spec_zero());
    lemma_known(turfs, gives);
    lemma_known(turfs, takes);
    lemma_known(turfs, lacks);
    matching_all_follows_ways(
        Side::Giver,
        surplus_turfs(turfs, start),
        turfs,
        max_x,
        max_y,
        start,
    );
    matching_all_follows_ways(
        Side::Taker,
        other_turfs(turfs, start),
        turfs,
        max_x,
        max_y,
        start,
    );
    matching_all_follows_ways(
        Side::Taker,
        deficit_turfs(turfs, start),
        turfs,
        max_x,
        max_y,
        start,
    );
}

/// Paths on ways: so are the books, and all turfs reached have books.
spec fn paths_on_ways<A: Amount>(
    turfs: Seq<MixWithID>,
    paths: Paths<A>,
    max_x: int,
    max_y: int,
) -> bool {
    &&& books_wf(paths.info)
    &&& all_follow_ways(turfs, paths.info, max_x, max_y)
    &&& forall|p: int|
        0 <= p < paths.order.len() ==> paths.info.contains_key(#[trigger] paths.order[p])
}

proof fn lemma_path_steps_on_ways<A: Amount>(
    turfs: Seq<MixWithID>,
    limit: int,
    paths: Paths<A>,
    i: TurfID,
    nth: int,
    steps: Seq<(u8, TurfID)>,
    max_x: int,
    max_y: int,
)
    requires
        paths_on_ways(turfs, paths, max_x, max_y),
        paths.info.contains_key(i),
        forall|k: int|
            #![trigger steps[k]]
            0 <= k < steps.len() ==> steps[k].0 < 6 && is_open(turfs, i, steps[k].0 as int)
                && steps[k].1 == adjacent(steps[k].0 as int, i, max_x, max_y),
    ensures
        paths_on_ways(turfs, path_steps(turfs, limit, paths, i, nth, steps), max_x, max_y),
    decreases steps.len(),
{
    if steps.len() > 0 {
        let (j, loc) = steps[0];
        let next = path_step(turfs, limit, paths, i, nth, steps[0]);
        assert(next.info.dom() =~= paths.info.dom());
        opposite_step_returns(j as int, i, max_x, max_y);
        assert(way(turfs, paths.info.dom(), loc, opposite(j as int), max_x, max_y));
        assert forall|k: TurfID| #[trigger] next.info.contains_key(k) implies next.info[k].wf()
            && next.info[k].transfers == paths.info[k].transfers by {
            assert(paths.info[k].wf());
        }
        lemma_turned_on_way(turfs, paths.info, next.info, max_x, max_y);
        assert forall|p: int| 0 <= p < next.order.len() implies next.info.contains_key(
            #[trigger] next.order[p],
        ) by {
            if p < paths.order.len() {
                assert(paths.info.contains_key(paths.order[p]));
            }
        }
        lemma_path_steps_on_ways(
            turfs,
            limit,
            next,
            i,
            nth,
            steps.drop_first(),
            max_x,
            max_y,
        );
    }
}

proof fn lemma_paths_on_ways<A: Amount>(
    turfs: Seq<MixWithID>,
    max_x: int,
    max_y: int,
    limit: int,
    paths: Paths<A>,
    at: int,
)
    requires
        paths_on_ways(turfs, paths, max_x, max_y),
        0 <= at,
    ensures
        paths_on_ways(turfs, paths_found(turfs, max_x, max_y, limit, paths, at), max_x, max_y),
    decreases 0x1_0000_0000 - at,
{
    if at < paths.order.len() && at < 0x1_0000_0000 {
        let i = paths.order[at];
        match entry_of(turfs, i) {
            None => {
                let next = Paths { info: rewritten(paths.info, i, Ledger::blank()), ..paths };
                assert(next.info.dom() =~= paths.info.dom());
                assert forall|k: TurfID| #[trigger] next.info.contains_key(k) implies next.info[k].wf() by {
                    assert(paths.info[k].wf());
                }
                lemma_turned_on_way(turfs, paths.info, next.info, max_x, max_y);
                lemma_paths_on_ways(turfs, max_x, max_y, limit, next, at + 1);
            },
            Some(m) => {
                let steps = neighbours(m.adjacency, i, max_x, max_y, 0, 6);
                lemma_steps_open(m.adjacency, i, max_x, max_y);
                lemma_path_steps_on_ways(
                    turfs,
                    limit,
                    paths,
                    i,
                    at + 1,
                    steps,
                    max_x,
                    max_y,
                );
                lemma_paths_on_ways(
                    turfs,
                    max_x,
                    max_y,
                    limit,
                    path_steps(turfs, limit, paths, i, at + 1, steps),
                    at + 1,
                );
            },
        }
    }
}

proof fn lemma_ends_on_ways<A: Amount>(
    turfs: Seq<MixWithID>,
    info: Map<TurfID, Ledger<A>>,
    planet_turfs: Seq<MixWithID>,
    max_x: int,
    max_y: int,
)
    requires
        books_wf(info),
        all_follow_ways(turfs, info, max_x, max_y),
    ensures
        books_wf(ends_marked(info, planet_turfs)),
        all_follow_ways(turfs, ends_marked(info, planet_turfs), max_x, max_y),
        forall|p: int|
            0 <= p < planet_turfs.len() ==> ends_marked(info, planet_turfs).contains_key(
                (#[trigger] planet_turfs[p]).0,
            ),
    decreases planet_turfs.len(),
{
    if planet_turfs.len() > 0 {
        let front = planet_turfs.drop_last();
        lemma_ends_on_ways(turfs, info, front, max_x, max_y);
        let before = ends_marked(info, front);
        let after = ends_marked(info, planet_turfs);
        assert forall|k: TurfID| #[trigger] after.contains_key(k) implies after[k].wf() by {
            assert(before.contains_key(k) ==> before[k].wf());
        }
        lemma_turned_on_way(turfs, before, after, max_x, max_y);
        assert forall|p: int| 0 <= p < planet_turfs.len() implies after.contains_key(
            (#[trigger] planet_turfs[p]).0,
        ) by {
            if p < front.len() {
                assert(front[p] == planet_turfs[p]);
            }
        }
    }
}

proof fn lemma_drained_on_ways<A: Amount>(
    turfs: Seq<MixWithID>,
    info: Map<TurfID, Ledger<A>>,
    order: Seq<TurfID>,
    target: A,
    max_x: int,
    max_y: int,
)
    requires
        books_wf(info),
        all_follow_ways(turfs, info, max_x, max_y),
    ensures
        all_follow_ways(
            turfs,
            all_drained(info, order, turfs, max_x, max_y, target),
            max_x,
            max_y,
        ),
    decreases order.len(),
{
    if order.len() > 0 {
        let i = order.last();
        let next = drained(info, i, turfs, max_x, max_y, target);
        let dir = info[i].curr_transfer_dir;
        assert(next.dom() =~= info.dom());
        assert forall|k: TurfID| #[trigger] next.contains_key(k) implies next[k].wf() by {
            assert(info[k].wf());
        }
        if next != info {
            assert(follows_ways(turfs, info, i, max_x, max_y));
            assert(info[i].wf());
            if dir < 6 {
                assert(info[adjacent(dir, i, max_x, max_y)].wf());
            }
            lemma_booked_on_way(turfs, info, next, i, dir, max_x, max_y);
        }
        lemma_drained_on_ways(turfs, next, order.drop_last(), target, max_x, max_y);
    }
}

/// Equalizing a zone books gas to flow only where it can: whatever is booked to
/// flow from a turf in one of the six directions is booked between two neighbours
/// that have books, and of which one is a turf of the zone that is open to the
/// other.
pub proof fn equalizing_follows_ways<A: Amount>(
    turfs: Seq<MixWithID>,
    planet_turfs: Seq<MixWithID>,
    average: A,
    world: Map<TurfID, Probe<A>>,
    planets: Map<u32, A>,
    max_x: int,
    max_y: int,
    limit: int,
)
    requires
        distinct(turfs),
    ensures
        all_follow_ways(
            turfs,
            zone_books(turfs, planet_turfs, average, world, planets, max_x, max_y, limit).0,
            max_x,
            max_y,
        ),
{
    let info = opened(world, turfs, average);
    let level = balanced(turfs, max_x, max_y, info);
    assert(all_follow_ways(turfs, info, max_x, max_y));
    assert(books_wf(info));
    lemma_balanced_on_ways(turfs, max_x, max_y, info);
    balancing_conserves(turfs, max_x, max_y, info);
    if planet_turfs.len() > 0 && planet_sum(planet_turfs, planets) is Some {
        let target = planet_sum(planet_turfs, planets)->0.spec_minus(average);
        let start = Paths {
            info: ends_marked(level, planet_turfs),
            order: planet_turfs.map_values(|turf: MixWithID| turf.0),
            firelocks: Seq::empty(),
        };
        lemma_ends_on_ways(turfs, level, planet_turfs, max_x, max_y);
        assert forall|p: int| 0 <= p < start.order.len() implies start.info.contains_key(
            #[trigger] start.order[p],
        ) by {
            assert(start.order[p] == planet_turfs[p].0);
        }
        lemma_paths_on_ways(turfs, max_x, max_y, limit, start, 0);
        let paths = planet_paths(planet_turfs, turfs, max_x, max_y, limit, level);
        lemma_drained_on_ways(turfs, paths.info, paths.order, target, max_x, max_y);
    }
}

} // verus!
