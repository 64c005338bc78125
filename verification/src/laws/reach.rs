//! How far matching a turf goes.
use vstd::prelude::*;
use crate::amount::Amount;
use crate::grid::{neighbours, TurfID};
use crate::info::Ledger;
use crate::quanta::Quanta;
use crate::settle::{
    explore, look, look_around, matched, matches_side, pass_all_on, pass_on, passable, reached,
    satisfied, search_from, settled_one, Search, Side,
};
use crate::tables::{
    distinct, entry_of, holds, lemma_distinct_entries_len, lemma_put, place, MixWithID,
};

verus! {

/// Zero is not below itself, but at most itself.
pub open spec fn zero_ordered<A: Amount>() -> bool {
    &&& !A::spec_zero().spec_lt(A::spec_zero())
    &&& A::spec_zero().spec_le(A::spec_zero())
}

/// No step leads out of `set` to a turf that takes part.
pub open spec fn closed_under_steps<A: Amount>(
    set: Set<TurfID>,
    turfs: Seq<MixWithID>,
    info: Map<TurfID, Ledger<A>>,
    max_x: int,
    max_y: int,
) -> bool {
    forall|i: TurfID, k: int|
        #![trigger neighbours((entry_of(turfs, i)->0).adjacency, i, max_x, max_y, 0, 6)[k]]
        set.contains(i) && entry_of(turfs, i) is Some && 0 <= k < neighbours(
            (entry_of(turfs, i)->0).adjacency,
            i,
            max_x,
            max_y,
            0,
            6,
        ).len() && passable(
            turfs,
            info,
            neighbours((entry_of(turfs, i)->0).adjacency, i, max_x, max_y, 0, 6)[k].1,
        ) ==> set.contains(
            neighbours((entry_of(turfs, i)->0).adjacency, i, max_x, max_y, 0, 6)[k].1,
        )
}

/// Turf `i` can be reached from turf `root`, going from neighbour to neighbour
/// through turfs that take part.
pub open spec fn within_reach<A: Amount>(
    turfs: Seq<MixWithID>,
    info: Map<TurfID, Ledger<A>>,
    max_x: int,
    max_y: int,
    root: TurfID,
    i: TurfID,
) -> bool {
    forall|set: Set<TurfID>|
        set.contains(root) && #[trigger] closed_under_steps(set, turfs, info, max_x, max_y)
            ==> set.contains(i)
}

/// The search knows the turfs of its queue as the zone does, all but the first
/// of them are matched, and those before `at` have been looked around.
pub open spec fn thorough<A: Amount>(
    side: Side,
    turfs: Seq<MixWithID>,
    info: Map<TurfID, Ledger<A>>,
    max_x: int,
    max_y: int,
    root: TurfID,
    search: Search<A>,
    at: int,
) -> bool {
    let queue = search.queue;
    &&& distinct(queue)
    &&& 0 <= at <= queue.len()
    &&& queue.len() > 0
    &&& queue[0].0 == root
    &&& search.info.dom() == info.dom()
    &&& search.info.contains_key(root)
    &&& search.info[root].mole_delta == search.own.mole_delta
    &&& forall|p: int|
        0 <= p < queue.len() ==> entry_of(turfs, (#[trigger] queue[p]).0) == Some(queue[p].1)
            && info.contains_key(queue[p].0)
    &&& satisfied(side, search.own.mole_delta) || forall|p: int|
        1 <= p < queue.len() ==> !matches_side(
            side,
            search.info[(#[trigger] queue[p]).0].mole_delta,
        )
    &&& satisfied(side, search.own.mole_delta) || forall|p: int, k: int|
        #![trigger neighbours(queue[p].1.adjacency, queue[p].0, max_x, max_y, 0, 6)[k]]
        0 <= p < at && p < queue.len() && 0 <= k < neighbours(
            queue[p].1.adjacency,
            queue[p].0,
            max_x,
            max_y,
            0,
            6,
        ).len() && passable(
            turfs,
            info,
            neighbours(queue[p].1.adjacency, queue[p].0, max_x, max_y, 0, 6)[k].1,
        ) ==> holds(
            queue,
            neighbours(queue[p].1.adjacency, queue[p].0, max_x, max_y, 0, 6)[k].1,
        )
}

pub proof fn lemma_look<A: Amount>(
    side: Side,
    turfs: Seq<MixWithID>,
    info: Map<TurfID, Ledger<A>>,
    max_x: int,
    max_y: int,
    root: TurfID,
    search: Search<A>,
    at: int,
    step: (u8, TurfID),
)
    requires
        zero_ordered::<A>(),
        thorough(side, turfs, info, max_x, max_y, root, search, at),
        !satisfied(side, search.own.mole_delta),
    ensures
        ({
            let next = look(side, turfs, root, search, step);
            &&& thorough(side, turfs, info, max_x, max_y, root, next, at)
            &&& search.queue.len() <= next.queue.len()
            &&& forall|p: int|
                0 <= p < search.queue.len() ==> (#[trigger] next.queue[p]) == search.queue[p]
            &&& passable(turfs, info, step.1) ==> holds(next.queue, step.1)
            &&& forall|i: TurfID| #[trigger] holds(search.queue, i) ==> holds(next.queue, i)
        }),
{
    let next = look(side, turfs, root, search, step);
    let queue = search.queue;
    let loc = step.1;
    assert(passable(turfs, search.info, loc) == passable(turfs, info, loc));
    assert(holds(queue, root));
    if passable(turfs, info, loc) {
        let mixture = entry_of(turfs, loc)->0;
        lemma_put(queue, loc, mixture);
        if holds(queue, loc) {
            let p = place(queue, loc);
            assert(entry_of(turfs, queue[p].0) == Some(queue[p].1));
            assert(next.queue =~= queue);
        } else {
            let (found, left) = matched(
                side,
                reached(search.info[loc], step.0 as int),
                search.own.mole_delta,
            );
            assert(next.info.dom() =~= info.dom());
            assert(next.queue =~= queue.push((loc, mixture)));
            assert forall|p: int| 1 <= p < queue.len() implies (#[trigger] queue[p]).0 != root
                && queue[p].0 != loc by {
                assert(queue[0].0 != queue[p].0);
                assert(holds(queue, queue[p].0));
            }
            assert(next.queue[queue.len() as int] == (loc, mixture));
            assert(next.info[loc] == found);
            assert forall|p: int| 1 <= p < queue.len() implies next.info[(
            #[trigger] next.queue[p]).0] == search.info[queue[p].0] by {
                assert(queue[p].0 != root);
            }
        }
    }
    assert(next.info.dom() =~= info.dom());
    assert forall|p: int, k: int|
        #![trigger neighbours(next.queue[p].1.adjacency, next.queue[p].0, max_x, max_y, 0, 6)[k]]
        0 <= p < at && p < next.queue.len() && 0 <= k < neighbours(
            next.queue[p].1.adjacency,
            next.queue[p].0,
            max_x,
            max_y,
            0,
            6,
        ).len() && passable(
            turfs,
            info,
            neighbours(next.queue[p].1.adjacency, next.queue[p].0, max_x, max_y, 0, 6)[k].1,
        ) implies holds(
        next.queue,
        neighbours(next.queue[p].1.adjacency, next.queue[p].0, max_x, max_y, 0, 6)[k].1,
    ) by {
        assert(next.queue[p] == queue[p]);
        let steps = neighbours(queue[p].1.adjacency, queue[p].0, max_x, max_y, 0, 6);
        assert(holds(queue, steps[k].1));
    }
}

pub proof fn lemma_look_around<A: Amount>(
    side: Side,
    turfs: Seq<MixWithID>,
    info: Map<TurfID, Ledger<A>>,
    max_x: int,
    max_y: int,
    root: TurfID,
    search: Search<A>,
    at: int,
    steps: Seq<(u8, TurfID)>,
)
    requires
        zero_ordered::<A>(),
        thorough(side, turfs, info, max_x, max_y, root, search, at),
    ensures
        ({
            let next = look_around(side, turfs, root, search, steps);
            &&& thorough(side, turfs, info, max_x, max_y, root, next, at)
            &&& search.queue.len() <= next.queue.len()
            &&& forall|p: int|
                0 <= p < search.queue.len() ==> (#[trigger] next.queue[p]) == search.queue[p]
            &&& satisfied(side, next.own.mole_delta) || forall|k: int|
                0 <= k < steps.len() && passable(turfs, info, (#[trigger] steps[k]).1) ==> holds(
                    next.queue,
                    steps[k].1,
                )
            &&& forall|i: TurfID| #[trigger] holds(search.queue, i) ==> holds(next.queue, i)
        }),
    decreases steps.len(),
{
    if steps.len() > 0 && !satisfied(side, search.own.mole_delta) {
        lemma_look(side, turfs, info, max_x, max_y, root, search, at, steps[0]);
        let between = look(side, turfs, root, search, steps[0]);
        let rest = steps.drop_first();
        lemma_look_around(side, turfs, info, max_x, max_y, root, between, at, rest);
        let next = look_around(side, turfs, root, search, steps);
        assert(next == look_around(side, turfs, root, between, rest));
        assert forall|p: int| 0 <= p < search.queue.len() implies (#[trigger] next.queue[p])
            == search.queue[p] by {
            assert(between.queue[p] == search.queue[p]);
        }
        if !satisfied(side, next.own.mole_delta) {
            assert forall|k: int|
                0 <= k < steps.len() && passable(
                    turfs,
                    info,
                    (#[trigger] steps[k]).1,
                ) implies holds(next.queue, steps[k].1) by {
                if k > 0 {
                    assert(rest[k - 1] == steps[k]);
                } else {
                    assert(holds(between.queue, steps[0].1));
                }
            }
        }
    }
}

pub proof fn lemma_explore<A: Amount>(
    side: Side,
    turfs: Seq<MixWithID>,
    info: Map<TurfID, Ledger<A>>,
    max_x: int,
    max_y: int,
    root: TurfID,
    search: Search<A>,
    at: int,
)
    requires
        zero_ordered::<A>(),
        thorough(side, turfs, info, max_x, max_y, root, search, at),
        0 <= at,
    ensures
        ({
            let end = explore(side, turfs, max_x, max_y, root, search, at);
            thorough(side, turfs, info, max_x, max_y, root, end, end.queue.len() as int)
        }),
    decreases 0x1_0000_0000 - at,
{
    lemma_distinct_entries_len(search.queue);
    if at < search.queue.len() && !satisfied(side, search.own.mole_delta) {
        let (i, mixture) = search.queue[at];
        let steps = neighbours(mixture.adjacency, i, max_x, max_y, 0, 6);
        lemma_look_around(side, turfs, info, max_x, max_y, root, search, at, steps);
        let next = look_around(side, turfs, root, search, steps);
        assert(next.queue[at] == (i, mixture));
        assert(thorough(side, turfs, info, max_x, max_y, root, next, at + 1));
        lemma_explore(side, turfs, info, max_x, max_y, root, next, at + 1);
    }
}

/// What is passed on is passed on in the transfers: no surplus changes.
pub proof fn lemma_pass_all_on<A: Amount>(
    info: Map<TurfID, Ledger<A>>,
    queue: Seq<MixWithID>,
    max_x: int,
    max_y: int,
)
    ensures
        pass_all_on(info, queue, max_x, max_y).dom() == info.dom(),
        forall|k: TurfID| #[trigger]
            info.contains_key(k) ==> pass_all_on(info, queue, max_x, max_y)[k].mole_delta
                == info[k].mole_delta,
    decreases queue.len(),
{
    if queue.len() > 0 {
        let next = pass_on(info, queue.last().0, max_x, max_y);
        assert(next.dom() =~= info.dom());
        lemma_pass_all_on(next, queue.drop_last(), max_x, max_y);
        let end = pass_all_on(info, queue, max_x, max_y);
        assert forall|k: TurfID| #[trigger] info.contains_key(k) implies end[k].mole_delta
            == info[k].mole_delta by {
            assert(next.contains_key(k));
        }
    }
}

/// A turf that has been matched is satisfied, or no other turf within its
/// reach is left to match it with.
pub proof fn matching_goes_all_the_way<A: Amount>(
    side: Side,
    turfs: Seq<MixWithID>,
    max_x: int,
    max_y: int,
    info: Map<TurfID, Ledger<A>>,
    turf: MixWithID,
)
    requires
        zero_ordered::<A>(),
        info.contains_key(turf.0),
        entry_of(turfs, turf.0) == Some(turf.1),
    ensures
        ({
            let after = settled_one(side, turfs, max_x, max_y, info, turf);
            ||| satisfied(side, after[turf.0].mole_delta)
            ||| forall|i: TurfID| #[trigger]
                within_reach(turfs, info, max_x, max_y, turf.0, i) && i != turf.0
                    ==> !matches_side(side, after[i].mole_delta)
        }),
{
    let root = turf.0;
    let first = search_from(info, turf);
    assert(first.info.dom() =~= info.dom());
    assert(thorough(side, turfs, info, max_x, max_y, root, first, 0));
    lemma_explore(side, turfs, info, max_x, max_y, root, first, 0);
    let end = explore(side, turfs, max_x, max_y, root, first, 0);
    let queue = end.queue;
    lemma_pass_all_on(end.info, queue, max_x, max_y);
    let after = settled_one(side, turfs, max_x, max_y, info, turf);
    assert(end.info.contains_key(root));
    if !satisfied(side, after[root].mole_delta) {
        let set = Set::new(|i: TurfID| holds(queue, i));
        assert(holds(queue, queue[0].0));
        assert(closed_under_steps(set, turfs, info, max_x, max_y)) by {
            assert forall|i: TurfID, k: int|
                #![trigger neighbours((entry_of(turfs, i)->0).adjacency, i, max_x, max_y, 0, 6)[k]]
                set.contains(i) && entry_of(turfs, i) is Some && 0 <= k < neighbours(
                    (entry_of(turfs, i)->0).adjacency,
                    i,
                    max_x,
                    max_y,
                    0,
                    6,
                ).len() && passable(
                    turfs,
                    info,
                    neighbours((entry_of(turfs, i)->0).adjacency, i, max_x, max_y, 0, 6)[k].1,
                ) implies set.contains(
                neighbours((entry_of(turfs, i)->0).adjacency, i, max_x, max_y, 0, 6)[k].1,
            ) by {
                let p = place(queue, i);
                assert(entry_of(turfs, queue[p].0) == Some(queue[p].1));
                let steps = neighbours(queue[p].1.adjacency, queue[p].0, max_x, max_y, 0, 6);
                assert(holds(queue, steps[k].1));
            }
        }
        assert forall|i: TurfID| #[trigger]
            within_reach(turfs, info, max_x, max_y, root, i) && i != root implies !matches_side(
            side,
            after[i].mole_delta,
        ) by {
            assert(set.contains(i));
            let p = place(queue, i);
            assert(queue[p].0 == i);
            assert(p >= 1);
            assert(!matches_side(side, end.info[queue[p].0].mole_delta));
            assert(end.info.contains_key(i));
        }
    }
}

/// Whole quanta are ordered around zero.
pub proof fn quanta_are_ordered()
    ensures
        zero_ordered::<Quanta>(),
{
}

/// Matching two turfs moves as much as the lesser of the two can do with: one
/// of them ends at zero, neither goes past it, and nothing is lost.
pub proof fn match_never_overshoots(side: Side, found: Ledger<Quanta>, own: Quanta)
    requires
        found.curr_transfer_amount.n == 0,
        found.mole_delta.n > i64::MIN,
        own.n > i64::MIN,
        !satisfied(side, own),
        matches_side(side, found.mole_delta),
    ensures
        ({
            let (after, left) = matched(side, found, own);
            let there = found.mole_delta.n;
            &&& left.n == 0 || after.mole_delta.n == 0
            &&& left.n + after.mole_delta.n == own.n + there
            &&& after.curr_transfer_amount.n == left.n - own.n
            &&& match side {
                Side::Giver => 0 <= left.n < own.n && there < after.mole_delta.n <= 0,
                Side::Taker => own.n < left.n <= 0 && 0 <= after.mole_delta.n < there,
            }
        }),
{
}

} // verus!
