//! The tree that a search for a match grows, and what passing on along it keeps.
use vstd::prelude::*;
use crate::amount::{signed, Amount};
use crate::balance::{
    booked, lemma_booked_in_step, lemma_same_in_step, same_transfers, sixth_kept, stays_in_step,
};
use crate::grid::{
    adjacent, lemma_neighbours, neighbours, opposite, opposite_step_returns, TurfID,
};
use crate::info::Ledger;
use crate::settle::{
    explore, look, look_around, pass_all_on, pass_on, passable, satisfied,
    search_from, settled, settled_one, Search, Side,
};
use crate::tables::{books_wf, distinct, entry_of, holds, lemma_put, put, MixWithID};

verus! {

/// Turf `p` of the queue was reached from an earlier one.
pub open spec fn led_to<A: Amount>(
    info: Map<TurfID, Ledger<A>>,
    queue: Seq<MixWithID>,
    p: int,
    max_x: int,
    max_y: int,
) -> bool {
    let i = queue[p].0;
    &&& 0 <= info[i].curr_transfer_dir < 6
    &&& exists|q: int|
        0 <= q < p && (#[trigger] queue[q]).0 == adjacent(
            info[i].curr_transfer_dir,
            i,
            max_x,
            max_y,
        )
}

/// The queue is a tree: every turf but the first was reached from an earlier one.
pub open spec fn tree<A: Amount>(
    info: Map<TurfID, Ledger<A>>,
    queue: Seq<MixWithID>,
    max_x: int,
    max_y: int,
) -> bool {
    &&& distinct(queue)
    &&& queue.len() > 0
    &&& info[queue[0].0].curr_transfer_dir == 6
    &&& forall|p: int| 0 <= p < queue.len() ==> info.contains_key((#[trigger] queue[p]).0)
    &&& forall|p: int| 1 <= p < queue.len() ==> #[trigger] led_to(info, queue, p, max_x, max_y)
}

/// A turf that is put in the place of itself leaves the turfs of a queue alone.
pub proof fn lemma_put_ids(queue: Seq<MixWithID>, i: TurfID, entry: MixWithID)
    requires
        distinct(queue),
        entry.0 == i,
        holds(queue, i),
    ensures
        put(queue, i, entry.1).len() == queue.len(),
        forall|p: int|
            0 <= p < queue.len() ==> (#[trigger] put(queue, i, entry.1)[p]).0 == queue[p].0,
        distinct(put(queue, i, entry.1)),
        forall|k: TurfID| #[trigger] holds(put(queue, i, entry.1), k) == holds(queue, k),
{
    lemma_put(queue, i, entry.1);
}

/// What holds of a search all the while, whatever the amounts.
pub open spec fn tree_ok<A: Amount>(
    start: Map<TurfID, Ledger<A>>,
    search: Search<A>,
    root: TurfID,
    max_x: int,
    max_y: int,
) -> bool {
    &&& tree(search.info, search.queue, max_x, max_y)
    &&& books_wf(search.info)
    &&& same_transfers(start, search.info)
    &&& search.queue[0].0 == root
    &&& search.own.wf()
    &&& search.own.curr_transfer_dir == 6
    &&& search.own.transfers == search.info[root].transfers
}

pub proof fn lemma_look_tree<A: Amount>(
    start: Map<TurfID, Ledger<A>>,
    side: Side,
    turfs: Seq<MixWithID>,
    root: TurfID,
    search: Search<A>,
    at: int,
    step: (u8, TurfID),
    max_x: int,
    max_y: int,
)
    requires
        tree_ok(start, search, root, max_x, max_y),
        0 <= at < search.queue.len(),
        step.0 < 6,
        step.1 == adjacent(step.0 as int, search.queue[at].0, max_x, max_y),
    ensures
        ({
            let next = look(side, turfs, root, search, step);
            &&& tree_ok(start, next, root, max_x, max_y)
            &&& search.queue.len() <= next.queue.len()
            &&& forall|p: int|
                0 <= p < search.queue.len() ==> (#[trigger] next.queue[p]).0 == search.queue[p].0
        }),
{
    let next = look(side, turfs, root, search, step);
    let loc = step.1;
    let queue = search.queue;
    let info = search.info;
    assert(queue[0].0 == root);
    assert(holds(queue, root));
    assert(info.contains_key(queue[0].0));
    assert(next.info.dom() =~= info.dom());
    assert forall|k: TurfID| #[trigger] next.info.contains_key(k) implies next.info[k].wf()
        && next.info[k].transfers == start[k].transfers by {
        assert(info.contains_key(k));
        assert(info[k].wf());
        assert(start.contains_key(k));
    }
    let len = queue.len() as int;
    if passable(turfs, info, loc) {
        let mixture = entry_of(turfs, loc)->0;
        lemma_put(queue, loc, mixture);
        if holds(queue, loc) {
            lemma_put_ids(queue, loc, (loc, mixture));
        } else {
            opposite_step_returns(step.0 as int, queue[at].0, max_x, max_y);
            assert(loc != root);
            assert(next.queue =~= queue.push((loc, mixture)));
            assert(next.info[loc].curr_transfer_dir == opposite(step.0 as int));
        }
    }
    assert forall|p: int| 0 <= p < next.queue.len() implies next.info.contains_key(
        (#[trigger] next.queue[p]).0,
    ) by {
        if p < len {
            assert(info.contains_key(queue[p].0));
        }
    }
    assert forall|p: int| 1 <= p < next.queue.len() implies #[trigger] led_to(
        next.info,
        next.queue,
        p,
        max_x,
        max_y,
    ) by {
        if p < len {
            assert(led_to(info, queue, p, max_x, max_y));
            let i = queue[p].0;
            assert(next.queue[p].0 == i);
            assert(queue[0].0 != queue[p].0);
            assert(holds(queue, i));
            assert(next.info[i] == info[i]);
            let q = choose|q: int|
                0 <= q < p && (#[trigger] queue[q]).0 == adjacent(
                    info[i].curr_transfer_dir,
                    i,
                    max_x,
                    max_y,
                );
            assert(next.queue[q].0 == queue[q].0);
        } else {
            assert(next.queue[at].0 == queue[at].0);
        }
    }
}

proof fn lemma_look_around_tree<A: Amount>(
    start: Map<TurfID, Ledger<A>>,
    side: Side,
    turfs: Seq<MixWithID>,
    root: TurfID,
    search: Search<A>,
    at: int,
    steps: Seq<(u8, TurfID)>,
    max_x: int,
    max_y: int,
)
    requires
        tree_ok(start, search, root, max_x, max_y),
        0 <= at < search.queue.len(),
        forall|k: int|
            #![trigger steps[k]]
            0 <= k < steps.len() ==> steps[k].0 < 6 && steps[k].1 == adjacent(
                steps[k].0 as int,
                search.queue[at].0,
                max_x,
                max_y,
            ),
    ensures
        tree_ok(start, look_around(side, turfs, root, search, steps), root, max_x, max_y),
    decreases steps.len(),
{
    if steps.len() > 0 && !satisfied(side, search.own.mole_delta) {
        lemma_look_tree(start, side, turfs, root, search, at, steps[0], max_x, max_y);
        let next = look(side, turfs, root, search, steps[0]);
        assert(next.queue[at].0 == search.queue[at].0);
        lemma_look_around_tree(
            start,
            side,
            turfs,
            root,
            next,
            at,
            steps.drop_first(),
            max_x,
            max_y,
        );
    }
}

pub proof fn lemma_explore_tree<A: Amount>(
    start: Map<TurfID, Ledger<A>>,
    side: Side,
    turfs: Seq<MixWithID>,
    root: TurfID,
    search: Search<A>,
    at: int,
    max_x: int,
    max_y: int,
)
    requires
        tree_ok(start, search, root, max_x, max_y),
        0 <= at,
    ensures
        tree_ok(start, explore(side, turfs, max_x, max_y, root, search, at), root, max_x, max_y),
    decreases 0x1_0000_0000 - at,
{
    if at < search.queue.len() && at < 0x1_0000_0000 && !satisfied(side, search.own.mole_delta) {
        let (i, mixture) = search.queue[at];
        let steps = neighbours(mixture.adjacency, i, max_x, max_y, 0, 6);
        lemma_neighbours(mixture.adjacency, i, max_x, max_y, 0, 6);
        lemma_look_around_tree(start, side, turfs, root, search, at, steps, max_x, max_y);
        lemma_explore_tree(
            start,
            side,
            turfs,
            root,
            look_around(side, turfs, root, search, steps),
            at + 1,
            max_x,
            max_y,
        );
    }
}

/// A search begins with a tree of one turf.
pub proof fn lemma_search_begins<A: Amount>(
    info: Map<TurfID, Ledger<A>>,
    turf: MixWithID,
    max_x: int,
    max_y: int,
)
    requires
        books_wf(info),
        info.contains_key(turf.0),
    ensures
        tree_ok(info, search_from(info, turf), turf.0, max_x, max_y),
{
    let first = search_from(info, turf);
    assert(first.info.dom() =~= info.dom());
    assert(info[turf.0].wf());
    assert forall|k: TurfID| #[trigger] first.info.contains_key(k) implies first.info[k].wf() by {
        assert(info.contains_key(k));
        assert(info[k].wf());
    }
}

pub proof fn lemma_pass_on_tree<A: Amount>(
    info: Map<TurfID, Ledger<A>>,
    queue: Seq<MixWithID>,
    max_x: int,
    max_y: int,
)
    requires
        tree(info, queue, max_x, max_y),
        books_wf(info),
        queue.len() > 1,
    ensures
        ({
            let after = pass_on(info, queue.last().0, max_x, max_y);
            &&& tree(after, queue.drop_last(), max_x, max_y)
            &&& books_wf(after)
            &&& signed::<A>() ==> stays_in_step(info, after, max_x, max_y)
            &&& sixth_kept(info, after)
        }),
{
    let n = queue.len() as int;
    let i = queue.last().0;
    let rest = queue.drop_last();
    let own = info[i];
    let dir = own.curr_transfer_dir;
    let loc = adjacent(dir, i, max_x, max_y);
    let after = pass_on(info, i, max_x, max_y);
    assert(led_to(info, queue, n - 1, max_x, max_y));
    let q = choose|q: int| 0 <= q < n - 1 && (#[trigger] queue[q]).0 == loc;
    assert(info.contains_key(queue[q].0));
    assert(info.contains_key(queue[n - 1].0));
    assert(queue[q].0 != queue[n - 1].0);
    assert(own.wf() && info[loc].wf());
    opposite_step_returns(dir, i, max_x, max_y);
    if after != info {
        assert(after.dom() =~= info.dom());
        let x = own.curr_transfer_amount;
        assert(booked(info, after, i, dir, x, max_x, max_y));
        lemma_booked_in_step(info, after, i, dir, x, max_x, max_y);
    }
    assert(after.dom() =~= info.dom());
    assert forall|k: TurfID| #[trigger] after.contains_key(k) implies after[k].wf()
        && after[k].curr_transfer_dir == info[k].curr_transfer_dir by {
        assert(info.contains_key(k));
        assert(info[k].wf());
    }
    assert forall|p: int| 0 <= p < rest.len() implies after.contains_key((#[trigger] rest[p]).0) by {
        assert(info.contains_key(queue[p].0));
    }
    assert(rest[0] == queue[0]);
    assert(info.contains_key(queue[0].0));
    assert(after[queue[0].0].curr_transfer_dir == 6);
    assert forall|p: int| 1 <= p < rest.len() implies #[trigger] led_to(
        after,
        rest,
        p,
        max_x,
        max_y,
    ) by {
        assert(led_to(info, queue, p, max_x, max_y));
        let k = queue[p].0;
        assert(info.contains_key(queue[p].0));
        assert(after[k].curr_transfer_dir == info[k].curr_transfer_dir);
        let l = choose|l: int|
            0 <= l < p && (#[trigger] queue[l]).0 == adjacent(
                info[k].curr_transfer_dir,
                k,
                max_x,
                max_y,
            );
        assert(rest[l].0 == queue[l].0);
    }
}

proof fn lemma_pass_all_on<A: Amount>(
    info: Map<TurfID, Ledger<A>>,
    queue: Seq<MixWithID>,
    max_x: int,
    max_y: int,
)
    requires
        tree(info, queue, max_x, max_y),
        books_wf(info),
    ensures
        ({
            let after = pass_all_on(info, queue, max_x, max_y);
            &&& books_wf(after)
            &&& signed::<A>() ==> stays_in_step(info, after, max_x, max_y)
            &&& sixth_kept(info, after)
        }),
    decreases queue.len(),
{
    if queue.len() > 1 {
        lemma_pass_on_tree(info, queue, max_x, max_y);
        let next = pass_on(info, queue.last().0, max_x, max_y);
        lemma_pass_all_on(next, queue.drop_last(), max_x, max_y);
        let after = pass_all_on(info, queue, max_x, max_y);
        assert forall|k: TurfID| #[trigger] info.contains_key(k) implies after[k].transfers[6]
            == info[k].transfers[6] by {
            assert(next.contains_key(k));
        }
    } else {
        assert(queue.last().0 == queue[0].0);
        assert(pass_on(info, queue[0].0, max_x, max_y) == info);
        assert(queue.drop_last() =~= Seq::<MixWithID>::empty());
        assert(pass_all_on(info, queue.drop_last(), max_x, max_y) == info);
    }
}

/// Matching one turf leaves books in step that were in step, and pairs of books
/// in step that were, if amounts are signed, be they rounded or not. What is to
/// leave for the planet stays as it is.
pub proof fn settle_one_stays_in_step<A: Amount>(
    side: Side,
    turfs: Seq<MixWithID>,
    max_x: int,
    max_y: int,
    info: Map<TurfID, Ledger<A>>,
    turf: MixWithID,
)
    requires
        books_wf(info),
    ensures
        ({
            let after = settled_one(side, turfs, max_x, max_y, info, turf);
            &&& books_wf(after)
            &&& signed::<A>() ==> stays_in_step(info, after, max_x, max_y)
            &&& sixth_kept(info, after)
        }),
{
    if info.contains_key(turf.0) {
        let first = search_from(info, turf);
        lemma_search_begins(info, turf, max_x, max_y);
        lemma_explore_tree(info, side, turfs, turf.0, first, 0, max_x, max_y);
        let end = explore(side, turfs, max_x, max_y, turf.0, first, 0);
        lemma_same_in_step(info, end.info, max_x, max_y);
        lemma_pass_all_on(end.info, end.queue, max_x, max_y);
        let after = settled_one(side, turfs, max_x, max_y, info, turf);
        assert forall|k: TurfID| #[trigger] info.contains_key(k) implies after[k].transfers[6]
            == info[k].transfers[6] by {
            assert(end.info.contains_key(k));
        }
    }
}

/// Matching turfs, be it givers with takers or takers with givers, leaves books
/// in step that were in step, and pairs of books in step that were, if amounts
/// are signed, be they rounded or not. What is to leave for the planet stays as
/// it is.
pub proof fn settling_stays_in_step<A: Amount>(
    side: Side,
    list: Seq<MixWithID>,
    turfs: Seq<MixWithID>,
    max_x: int,
    max_y: int,
    info: Map<TurfID, Ledger<A>>,
)
    requires
        books_wf(info),
    ensures
        ({
            let after = settled(side, list, turfs, max_x, max_y, info);
            &&& books_wf(after)
            &&& signed::<A>() ==> stays_in_step(info, after, max_x, max_y)
            &&& sixth_kept(info, after)
        }),
    decreases list.len(),
{
    if list.len() > 0 {
        settling_stays_in_step(side, list.drop_last(), turfs, max_x, max_y, info);
        let between = settled(side, list.drop_last(), turfs, max_x, max_y, info);
        settle_one_stays_in_step(side, turfs, max_x, max_y, between, list.last());
        let after = settled(side, list, turfs, max_x, max_y, info);
        assert forall|k: TurfID| #[trigger] info.contains_key(k) implies after[k].transfers[6]
            == info[k].transfers[6] by {
            assert(between.contains_key(k));
        }
    }
}

} // verus!
