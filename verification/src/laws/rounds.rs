//! When a quick round is held, who is matched, and who is left alone.
use vstd::prelude::*;
use crate::amount::{above_zero, Amount};
use crate::fast::fast_processed;
use crate::flood::Probe;
use crate::grid::{adjacent, neighbours, TurfID};
use crate::info::Ledger;
use crate::laws::fast::quick_round_conserves;
use crate::laws::reach::{closed_under_steps, within_reach};
use crate::laws::shares::{eligible, eligible_count, surplus_is_shared_equally};
use crate::laws::tree::{
    led_to, lemma_explore_tree, lemma_pass_on_tree, lemma_search_begins, tree,
};
use crate::settle::{
    explore, look, look_around, matches_side, pass_all_on, pass_on, passable, satisfied,
    search_from, settled, settled_one, Search, Side,
};
use crate::tables::{
    books_wf, distinct, entry_of, holds, lemma_put, place, MixWithID, TurfMixture,
};
use crate::zone::{
    all_fast_processed, balanced, needs_quick_round, opened, other_turfs, surplus_turfs,
};

verus! {

/// The same turfs have books, and the same of them have had their turn in a quick round.
pub open spec fn same_flags<A: Amount>(
    a: Map<TurfID, Ledger<A>>,
    b: Map<TurfID, Ledger<A>>,
) -> bool {
    &&& a.dom() == b.dom()
    &&& forall|k: TurfID| #[trigger] a.contains_key(k) ==> a[k].fast_done == b[k].fast_done
}

spec fn search_flags<A: Amount>(
    info: Map<TurfID, Ledger<A>>,
    root: TurfID,
    search: Search<A>,
) -> bool {
    &&& same_flags(info, search.info)
    &&& info.contains_key(root)
    &&& search.own.fast_done == info[root].fast_done
}

proof fn lemma_look_around_flags<A: Amount>(
    side: Side,
    turfs: Seq<MixWithID>,
    info: Map<TurfID, Ledger<A>>,
    root: TurfID,
    search: Search<A>,
    steps: Seq<(u8, TurfID)>,
)
    requires
        search_flags(info, root, search),
    ensures
        search_flags(info, root, look_around(side, turfs, root, search, steps)),
    decreases steps.len(),
{
    if steps.len() > 0 && !satisfied(side, search.own.mole_delta) {
        let next = look(side, turfs, root, search, steps[0]);
        assert(next.info.dom() =~= info.dom());
        assert forall|k: TurfID| #[trigger] info.contains_key(k) implies info[k].fast_done
            == next.info[k].fast_done by {
            assert(search.info.contains_key(k));
        }
        lemma_look_around_flags(side, turfs, info, root, next, steps.drop_first());
    }
}

proof fn lemma_explore_flags<A: Amount>(
    side: Side,
    turfs: Seq<MixWithID>,
    max_x: int,
    max_y: int,
    info: Map<TurfID, Ledger<A>>,
    root: TurfID,
    search: Search<A>,
    at: int,
)
    requires
        search_flags(info, root, search),
    ensures
        search_flags(info, root, explore(side, turfs, max_x, max_y, root, search, at)),
    decreases 0x1_0000_0000 - at,
{
    if !(at >= search.queue.len() || at >= 0x1_0000_0000 || satisfied(
        side,
        search.own.mole_delta,
    )) {
        let (i, mixture) = search.queue[at];
        let steps = neighbours(mixture.adjacency, i, max_x, max_y, 0, 6);
        lemma_look_around_flags(side, turfs, info, root, search, steps);
        lemma_explore_flags(
            side,
            turfs,
            max_x,
            max_y,
            info,
            root,
            look_around(side, turfs, root, search, steps),
            at + 1,
        );
    }
}

proof fn lemma_pass_all_flags<A: Amount>(
    info: Map<TurfID, Ledger<A>>,
    queue: Seq<MixWithID>,
    max_x: int,
    max_y: int,
)
    ensures
        same_flags(info, pass_all_on(info, queue, max_x, max_y)),
    decreases queue.len(),
{
    if queue.len() > 0 {
        let next = pass_on(info, queue.last().0, max_x, max_y);
        assert(next.dom() =~= info.dom());
        lemma_pass_all_flags(next, queue.drop_last(), max_x, max_y);
        let end = pass_all_on(info, queue, max_x, max_y);
        assert forall|k: TurfID| #[trigger] info.contains_key(k) implies info[k].fast_done
            == end[k].fast_done by {
            assert(next.contains_key(k));
        }
    }
}

/// Matching turfs gives no turf its turn in a quick round, and begins no books.
pub proof fn settling_keeps_flags<A: Amount>(
    side: Side,
    list: Seq<MixWithID>,
    turfs: Seq<MixWithID>,
    max_x: int,
    max_y: int,
    info: Map<TurfID, Ledger<A>>,
)
    ensures
        same_flags(info, settled(side, list, turfs, max_x, max_y, info)),
    decreases list.len(),
{
    if list.len() > 0 {
        let front = list.drop_last();
        let turf = list.last();
        settling_keeps_flags(side, front, turfs, max_x, max_y, info);
        let between = settled(side, front, turfs, max_x, max_y, info);
        let after = settled(side, list, turfs, max_x, max_y, info);
        if between.contains_key(turf.0) {
            let first = search_from(between, turf);
            assert(first.info.dom() =~= between.dom());
            lemma_explore_flags(side, turfs, max_x, max_y, between, turf.0, first, 0);
            let end = explore(side, turfs, max_x, max_y, turf.0, first, 0);
            lemma_pass_all_flags(end.info, end.queue, max_x, max_y);
            assert forall|k: TurfID| #[trigger] info.contains_key(k) implies info[k].fast_done
                == after[k].fast_done by {
                assert(between.contains_key(k));
                assert(end.info.contains_key(k));
            }
        }
    }
}

/// The search has changed no books but those of the turfs of its queue, and can reach these.
spec fn search_within<A: Amount>(
    turfs: Seq<MixWithID>,
    max_x: int,
    max_y: int,
    info: Map<TurfID, Ledger<A>>,
    root: TurfID,
    search: Search<A>,
) -> bool {
    &&& distinct(search.queue)
    &&& search.info.dom() == info.dom()
    &&& holds(search.queue, root)
    &&& forall|p: int|
        0 <= p < search.queue.len() ==> entry_of(turfs, (#[trigger] search.queue[p]).0) == Some(
            search.queue[p].1,
        ) && within_reach(turfs, info, max_x, max_y, root, search.queue[p].0)
    &&& forall|k: TurfID| #[trigger]
        info.contains_key(k) && !holds(search.queue, k) ==> search.info[k] == info[k]
}

proof fn lemma_look_within<A: Amount>(
    side: Side,
    turfs: Seq<MixWithID>,
    max_x: int,
    max_y: int,
    info: Map<TurfID, Ledger<A>>,
    root: TurfID,
    search: Search<A>,
    at: int,
    k: int,
)
    requires
        search_within(turfs, max_x, max_y, info, root, search),
        0 <= at < search.queue.len(),
        0 <= k < neighbours(
            search.queue[at].1.adjacency,
            search.queue[at].0,
            max_x,
            max_y,
            0,
            6,
        ).len(),
    ensures
        ({
            let step = neighbours(
                search.queue[at].1.adjacency,
                search.queue[at].0,
                max_x,
                max_y,
                0,
                6,
            )[k];
            let next = look(side, turfs, root, search, step);
            &&& search_within(turfs, max_x, max_y, info, root, next)
            &&& search.queue.len() <= next.queue.len()
            &&& next.queue[at] == search.queue[at]
        }),
{
    let queue = search.queue;
    let (i, m) = queue[at];
    let step = neighbours(m.adjacency, i, max_x, max_y, 0, 6)[k];
    let next = look(side, turfs, root, search, step);
    let loc = step.1;
    assert(entry_of(turfs, queue[at].0) == Some(queue[at].1));
    assert(next.info.dom() =~= info.dom());
    assert(passable(turfs, search.info, loc) == passable(turfs, info, loc));
    if passable(turfs, info, loc) {
        let mixture = entry_of(turfs, loc)->0;
        lemma_put(queue, loc, mixture);
        if holds(queue, loc) {
            let p = place(queue, loc);
            assert(entry_of(turfs, queue[p].0) == Some(queue[p].1));
            assert(next.queue =~= queue);
        } else {
            assert(next.queue =~= queue.push((loc, mixture)));
            assert(within_reach(turfs, info, max_x, max_y, root, loc)) by {
                assert forall|set: Set<TurfID>|
                    set.contains(root) && #[trigger] closed_under_steps(
                        set,
                        turfs,
                        info,
                        max_x,
                        max_y,
                    ) implies set.contains(loc) by {
                    assert(set.contains(i));
                    assert(neighbours(
                        (entry_of(turfs, i)->0).adjacency,
                        i,
                        max_x,
                        max_y,
                        0,
                        6,
                    )[k].1 == loc);
                }
            }
            assert forall|p: int| 0 <= p < next.queue.len() implies entry_of(
                turfs,
                (#[trigger] next.queue[p]).0,
            ) == Some(next.queue[p].1) && within_reach(
                turfs,
                info,
                max_x,
                max_y,
                root,
                next.queue[p].0,
            ) by {
                if p < queue.len() {
                    assert(next.queue[p] == queue[p]);
                }
            }
        }
    }
    assert forall|t: TurfID| #[trigger] info.contains_key(t) && !holds(next.queue, t) implies next.info[t]
        == info[t] by {
        assert(!holds(queue, t)) by {
            if holds(queue, t) {
                assert(next.queue[place(queue, t)].0 == t);
            }
        }
    }
}

proof fn lemma_look_around_within<A: Amount>(
    side: Side,
    turfs: Seq<MixWithID>,
    max_x: int,
    max_y: int,
    info: Map<TurfID, Ledger<A>>,
    root: TurfID,
    search: Search<A>,
    at: int,
    k: int,
)
    requires
        search_within(turfs, max_x, max_y, info, root, search),
        0 <= at < search.queue.len(),
        0 <= k <= neighbours(
            search.queue[at].1.adjacency,
            search.queue[at].0,
            max_x,
            max_y,
            0,
            6,
        ).len(),
    ensures
        search_within(
            turfs,
            max_x,
            max_y,
            info,
            root,
            look_around(
                side,
                turfs,
                root,
                search,
                neighbours(
                    search.queue[at].1.adjacency,
                    search.queue[at].0,
                    max_x,
                    max_y,
                    0,
                    6,
                ).skip(k),
            ),
        ),
    decreases
            neighbours(
                search.queue[at].1.adjacency,
                search.queue[at].0,
                max_x,
                max_y,
                0,
                6,
            ).len() - k,
{
    let (i, m) = search.queue[at];
    let all = neighbours(m.adjacency, i, max_x, max_y, 0, 6);
    let steps = all.skip(k);
    if steps.len() > 0 && !satisfied(side, search.own.mole_delta) {
        assert(steps[0] == all[k]);
        lemma_look_within(side, turfs, max_x, max_y, info, root, search, at, k);
        let next = look(side, turfs, root, search, steps[0]);
        assert(steps.drop_first() =~= all.skip(k + 1));
        lemma_look_around_within(side, turfs, max_x, max_y, info, root, next, at, k + 1);
    }
}

proof fn lemma_explore_within<A: Amount>(
    side: Side,
    turfs: Seq<MixWithID>,
    max_x: int,
    max_y: int,
    info: Map<TurfID, Ledger<A>>,
    root: TurfID,
    search: Search<A>,
    at: int,
)
    requires
        search_within(turfs, max_x, max_y, info, root, search),
        0 <= at,
    ensures
        search_within(
            turfs,
            max_x,
            max_y,
            info,
            root,
            explore(side, turfs, max_x, max_y, root, search, at),
        ),
    decreases 0x1_0000_0000 - at,
{
    if at < search.queue.len() && at < 0x1_0000_0000 && !satisfied(side, search.own.mole_delta) {
        let (i, m) = search.queue[at];
        let all = neighbours(m.adjacency, i, max_x, max_y, 0, 6);
        lemma_look_around_within(side, turfs, max_x, max_y, info, root, search, at, 0);
        assert(all.skip(0) =~= all);
        lemma_explore_within(
            side,
            turfs,
            max_x,
            max_y,
            info,
            root,
            look_around(side, turfs, root, search, all),
            at + 1,
        );
    }
}

proof fn lemma_pass_all_within<A: Amount>(
    info: Map<TurfID, Ledger<A>>,
    queue: Seq<MixWithID>,
    max_x: int,
    max_y: int,
)
    requires
        tree(info, queue, max_x, max_y),
        books_wf(info),
    ensures
        forall|k: TurfID| #[trigger]
            info.contains_key(k) && !holds(queue, k) ==> pass_all_on(
                info,
                queue,
                max_x,
                max_y,
            )[k] == info[k],
    decreases queue.len(),
{
    if queue.len() > 1 {
        let n = queue.len() as int;
        let i = queue.last().0;
        let rest = queue.drop_last();
        let next = pass_on(info, i, max_x, max_y);
        lemma_pass_on_tree(info, queue, max_x, max_y);
        lemma_pass_all_within(next, rest, max_x, max_y);
        assert(led_to(info, queue, n - 1, max_x, max_y));
        let loc = adjacent(info[i].curr_transfer_dir, i, max_x, max_y);
        let q = choose|q: int| 0 <= q < n - 1 && (#[trigger] queue[q]).0 == loc;
        assert(queue[n - 1].0 == i);
        assert(next.dom() =~= info.dom()) by {
            assert(info.contains_key(queue[q].0) && info.contains_key(queue[n - 1].0));
        }
        assert forall|k: TurfID| #[trigger] info.contains_key(k) && !holds(queue, k) implies pass_all_on(
            info,
            queue,
            max_x,
            max_y,
        )[k] == info[k] by {
            assert(k != i && k != loc) by {
                assert(queue[q].0 == loc);
            }
            assert(!holds(rest, k)) by {
                if holds(rest, k) {
                    assert(queue[place(rest, k)].0 == k);
                }
            }
            assert(next.contains_key(k));
        }
    } else {
        assert(queue.last().0 == queue[0].0);
        assert(pass_on(info, queue[0].0, max_x, max_y) == info);
        assert(queue.drop_last() =~= Seq::<MixWithID>::empty());
        assert(pass_all_on(info, queue.drop_last(), max_x, max_y) == info);
    }
}

/// Matching a turf leaves all turfs alone that are not within its reach: their books stay as they
/// are.
pub proof fn matching_leaves_others_alone<A: Amount>(
    side: Side,
    turfs: Seq<MixWithID>,
    max_x: int,
    max_y: int,
    info: Map<TurfID, Ledger<A>>,
    turf: MixWithID,
    k: TurfID,
)
    requires
        books_wf(info),
        entry_of(turfs, turf.0) == Some(turf.1),
        info.contains_key(k),
        !within_reach(turfs, info, max_x, max_y, turf.0, k),
    ensures
        settled_one(side, turfs, max_x, max_y, info, turf)[k] == info[k],
{
    if info.contains_key(turf.0) {
        let root = turf.0;
        let first = search_from(info, turf);
        assert(first.info.dom() =~= info.dom());
        assert(first.queue[0].0 == root);
        assert(search_within(turfs, max_x, max_y, info, root, first));
        lemma_explore_within(side, turfs, max_x, max_y, info, root, first, 0);
        lemma_search_begins(info, turf, max_x, max_y);
        lemma_explore_tree(info, side, turfs, root, first, 0, max_x, max_y);
        let end = explore(side, turfs, max_x, max_y, root, first, 0);
        lemma_pass_all_within(end.info, end.queue, max_x, max_y);
        assert(!holds(end.queue, k)) by {
            if holds(end.queue, k) {
                assert(end.queue[place(end.queue, k)].0 == k);
            }
        }
        assert(end.info.contains_key(k));
    }
}

/// There is nothing to be passed on.
pub open spec fn nothing_left<A: Amount>(books: Ledger<A>) -> bool {
    books.curr_transfer_amount == A::spec_zero() || books.curr_transfer_amount.spec_same(
        A::spec_zero(),
    )
}

proof fn lemma_all_passed_on<A: Amount>(
    info: Map<TurfID, Ledger<A>>,
    queue: Seq<MixWithID>,
    max_x: int,
    max_y: int,
)
    requires
        tree(info, queue, max_x, max_y),
        books_wf(info),
    ensures
        forall|p: int|
            1 <= p < queue.len() ==> nothing_left(
                pass_all_on(info, queue, max_x, max_y)[(#[trigger] queue[p]).0],
            ),
    decreases queue.len(),
{
    if queue.len() > 1 {
        let n = queue.len() as int;
        let i = queue.last().0;
        let rest = queue.drop_last();
        let next = pass_on(info, i, max_x, max_y);
        let end = pass_all_on(info, queue, max_x, max_y);
        lemma_pass_on_tree(info, queue, max_x, max_y);
        lemma_all_passed_on(next, rest, max_x, max_y);
        lemma_pass_all_within(next, rest, max_x, max_y);
        assert(led_to(info, queue, n - 1, max_x, max_y));
        assert(queue[n - 1].0 == i);
        let loc = adjacent(info[i].curr_transfer_dir, i, max_x, max_y);
        let q = choose|q: int| 0 <= q < n - 1 && (#[trigger] queue[q]).0 == loc;
        assert(info.contains_key(queue[q].0) && info.contains_key(queue[n - 1].0));
        assert(next.contains_key(i));
        assert(!holds(rest, i)) by {
            if holds(rest, i) {
                let p = place(rest, i);
                assert(queue[p].0 == queue[n - 1].0);
            }
        }
        assert(end[i] == next[i]);
        assert(nothing_left(next[i]));
        assert forall|p: int| 1 <= p < queue.len() implies nothing_left(
            end[(#[trigger] queue[p]).0],
        ) by {
            if p < n - 1 {
                assert(rest[p] == queue[p]);
            }
        }
    }
}

/// Once a turf has been matched, nothing is left to be passed on by any other turf: the books of a
/// turf are as they were, or what it had to pass on has been passed on.
pub proof fn matching_passes_everything_on<A: Amount>(
    side: Side,
    turfs: Seq<MixWithID>,
    max_x: int,
    max_y: int,
    info: Map<TurfID, Ledger<A>>,
    turf: MixWithID,
    k: TurfID,
)
    requires
        books_wf(info),
        entry_of(turfs, turf.0) == Some(turf.1),
        info.contains_key(k),
        k != turf.0,
    ensures
        settled_one(side, turfs, max_x, max_y, info, turf)[k] == info[k] || nothing_left(
            settled_one(side, turfs, max_x, max_y, info, turf)[k],
        ),
{
    if info.contains_key(turf.0) {
        let root = turf.0;
        let first = search_from(info, turf);
        assert(first.info.dom() =~= info.dom());
        assert(first.queue[0].0 == root);
        assert(search_within(turfs, max_x, max_y, info, root, first));
        lemma_explore_within(side, turfs, max_x, max_y, info, root, first, 0);
        lemma_search_begins(info, turf, max_x, max_y);
        lemma_explore_tree(info, side, turfs, root, first, 0, max_x, max_y);
        let end = explore(side, turfs, max_x, max_y, root, first, 0);
        lemma_pass_all_within(end.info, end.queue, max_x, max_y);
        lemma_all_passed_on(end.info, end.queue, max_x, max_y);
        assert(end.info.contains_key(k));
        if holds(end.queue, k) {
            let p = place(end.queue, k);
            assert(end.queue[p].0 == k);
            assert(p != 0);
        }
    }
}

/// How many of the first `n` turfs of `turfs` belong to no planet and hold more than `level`, or how
/// many of them do not.
pub open spec fn turfs_above<A: Amount>(
    world: Map<TurfID, Probe<A>>,
    turfs: Seq<MixWithID>,
    level: A,
    above: bool,
    n: int,
) -> nat
    decreases n,
{
    if n <= 0 {
        0
    } else {
        let (i, mixture) = turfs[n - 1];
        let surplus = world[i]->Turf_0.moles.spec_minus(level);
        turfs_above(world, turfs, level, above, n - 1) + if mixture.planetary_atmos is None
            && A::spec_zero().spec_lt(surplus) == above {
            1nat
        } else {
            0
        }
    }
}

proof fn lemma_lists<A: Amount>(
    world: Map<TurfID, Probe<A>>,
    turfs: Seq<MixWithID>,
    level: A,
    n: int,
)
    requires
        0 <= n <= turfs.len(),
    ensures
        ({
            let info = opened(world, turfs, level);
            &&& surplus_turfs(turfs.take(n), info).len() == turfs_above(world, turfs, level, true, n)
            &&& other_turfs(turfs.take(n), info).len() == turfs_above(world, turfs, level, false, n)
        }),
    decreases n,
{
    reveal(Seq::filter);
    if n > 0 {
        lemma_lists(world, turfs, level, n - 1);
        let info = opened(world, turfs, level);
        assert(turfs.take(n).drop_last() =~= turfs.take(n - 1));
        assert(turfs.take(n).last() == turfs[n - 1]);
        assert(holds(turfs, turfs[n - 1].0));
    }
}

proof fn lemma_quick_flags<A: Amount>(
    list: Seq<MixWithID>,
    turfs: Seq<MixWithID>,
    max_x: int,
    max_y: int,
    info: Map<TurfID, Ledger<A>>,
)
    requires
        books_wf(info),
    ensures
        all_fast_processed(list, turfs, max_x, max_y, info).dom() == info.dom(),
        forall|k: TurfID| #[trigger]
            info.contains_key(k) ==> all_fast_processed(list, turfs, max_x, max_y, info)[k].fast_done
                == (info[k].fast_done || holds(list, k)),
    decreases list.len(),
{
    quick_round_conserves(list, turfs, max_x, max_y, info);
    if list.len() > 0 {
        let front = list.drop_last();
        let (i, m) = list.last();
        lemma_quick_flags(front, turfs, max_x, max_y, info);
        quick_round_conserves(front, turfs, max_x, max_y, info);
        let between = all_fast_processed(front, turfs, max_x, max_y, info);
        let after = all_fast_processed(list, turfs, max_x, max_y, info);
        surplus_is_shared_equally(i, m, turfs, max_x, max_y, between);
        assert(list[list.len() - 1].0 == i);
        assert forall|k: TurfID| #[trigger] info.contains_key(k) implies after[k].fast_done == (
        info[k].fast_done || holds(list, k)) by {
            assert(between.contains_key(k));
            assert(holds(list, k) == (holds(front, k) || k == i)) by {
                if holds(front, k) {
                    assert(list[place(front, k)].0 == k);
                }
                if holds(list, k) && k != i {
                    assert(front[place(list, k)].0 == k);
                }
            }
            if k != i && between.contains_key(i) {
                lemma_fast_flag(i, m, turfs, max_x, max_y, between, k);
            }
        }
    }
}

/// The turn of a turf gives no other turf its turn.
proof fn lemma_fast_flag<A: Amount>(
    i: TurfID,
    m: TurfMixture,
    turfs: Seq<MixWithID>,
    max_x: int,
    max_y: int,
    info: Map<TurfID, Ledger<A>>,
    k: TurfID,
)
    requires
        books_wf(info),
        info.contains_key(i),
        info.contains_key(k),
        k != i,
    ensures
        fast_processed(i, m, turfs, max_x, max_y, info)[k].fast_done
            == info[k].fast_done,
{
    surplus_is_shared_equally(i, m, turfs, max_x, max_y, info);
    let gives = |j: int|
        eligible(turfs, info, i, m.adjacency, j, max_x, max_y);
    let n = eligible_count(turfs, info, i, m.adjacency, 6, max_x, max_y);
    if n > 0 && A::spec_zero().spec_lt(info[i].mole_delta) {
        if exists|j: int| #[trigger] gives(j) && adjacent(j, i, max_x, max_y) == k {
            let j = choose|j: int| #[trigger] gives(j) && adjacent(j, i, max_x, max_y) == k;
            assert(gives(j));
        }
    }
}

/// A quick round is held exactly when it is due: when among the turfs of a zone that belong to no
/// planet both those that hold more than `level` and the others are more than the binary
/// logarithm of the number of turfs. Then every turf has had its turn in the end, and else none
/// has.
pub proof fn quick_rounds_are_held_when_due<A: Amount>(
    turfs: Seq<MixWithID>,
    world: Map<TurfID, Probe<A>>,
    level: A,
    max_x: int,
    max_y: int,
    k: TurfID,
)
    requires
        holds(turfs, k),
    ensures
        ({
            let books = balanced(turfs, max_x, max_y, opened(world, turfs, level));
            let n = turfs.len() as int;
            let few = A::spec_log2_floor(turfs.len() as usize);
            books[k].fast_done == (turfs_above(world, turfs, level, true, n) > few && turfs_above(
                world,
                turfs,
                level,
                false,
                n,
            ) > few)
        }),
{
    let info = opened(world, turfs, level);
    let n = turfs.len() as int;
    lemma_lists(world, turfs, level, n);
    assert(turfs.take(n) =~= turfs);
    assert(books_wf(info));
    let quick = all_fast_processed(turfs, turfs, max_x, max_y, info);
    lemma_quick_flags(turfs, turfs, max_x, max_y, info);
    assert(info.contains_key(k));
    assert(quick.contains_key(k));
    let start = if needs_quick_round(turfs, info) {
        quick
    } else {
        info
    };
    assert forall|side: Side, list: Seq<MixWithID>| #[trigger] settled(
        side,
        list,
        turfs,
        max_x,
        max_y,
        start,
    )[k].fast_done == start[k].fast_done by {
        settling_keeps_flags(side, list, turfs, max_x, max_y, start);
    }
}

/// Of the turfs that have too much and those that do not, the fewer are matched, those that have too
/// little if there are as many of both. After a quick round the two are told apart anew.
pub proof fn the_shorter_list_is_matched<A: Amount>(
    turfs: Seq<MixWithID>,
    info: Map<TurfID, Ledger<A>>,
    max_x: int,
    max_y: int,
)
    ensures
        ({
            let quick = all_fast_processed(turfs, turfs, max_x, max_y, info);
            let few = A::spec_log2_floor(turfs.len() as usize);
            let rich = |books: Map<TurfID, Ledger<A>>|
                turfs.filter(
                    |turf: MixWithID|
                        turf.1.planetary_atmos is None && A::spec_zero().spec_lt(
                            books[turf.0].mole_delta,
                        ),
                );
            let poor = turfs.filter(
                |turf: MixWithID|
                    turf.1.planetary_atmos is None && !A::spec_zero().spec_lt(
                        info[turf.0].mole_delta,
                    ),
            );
            let poor_now = turfs.filter(
                |turf: MixWithID|
                    turf.1.planetary_atmos is None && quick[turf.0].mole_delta.spec_le(
                        A::spec_zero(),
                    ),
            );
            let end = balanced(turfs, max_x, max_y, info);
            if rich(info).len() > few && poor.len() > few {
                &&& rich(quick).len() < poor_now.len() ==> end == settled(
                    Side::Giver,
                    rich(quick),
                    turfs,
                    max_x,
                    max_y,
                    quick,
                )
                &&& rich(quick).len() >= poor_now.len() ==> end == settled(
                    Side::Taker,
                    poor_now,
                    turfs,
                    max_x,
                    max_y,
                    quick,
                )
            } else {
                &&& rich(info).len() < poor.len() ==> end == settled(
                    Side::Giver,
                    rich(info),
                    turfs,
                    max_x,
                    max_y,
                    info,
                )
                &&& rich(info).len() >= poor.len() ==> end == settled(
                    Side::Taker,
                    poor,
                    turfs,
                    max_x,
                    max_y,
                    info,
                )
            }
        }),
{
    let quick = all_fast_processed(turfs, turfs, max_x, max_y, info);
    let zero = A::spec_zero();
    assert forall|books: Map<TurfID, Ledger<A>>| #[trigger] surplus_turfs(turfs, books)
        == turfs.filter(
        |turf: MixWithID|
            turf.1.planetary_atmos is None && A::spec_zero().spec_lt(books[turf.0].mole_delta),
    ) by {
        assert((|turf: MixWithID|
            turf.1.planetary_atmos is None && above_zero(books[turf.0].mole_delta))
            =~= (|turf: MixWithID|
            turf.1.planetary_atmos is None && A::spec_zero().spec_lt(books[turf.0].mole_delta)));
    }
    assert((|turf: MixWithID|
        turf.1.planetary_atmos is None && !above_zero(info[turf.0].mole_delta))
        =~= (|turf: MixWithID|
        turf.1.planetary_atmos is None && !A::spec_zero().spec_lt(info[turf.0].mole_delta)));
}

/// Turfs have their turns one after the other, each on the books that the one before it left behind,
/// in the quick round and when they are matched.
pub proof fn turns_are_taken_in_order<A: Amount>(
    side: Side,
    list: Seq<MixWithID>,
    turf: MixWithID,
    turfs: Seq<MixWithID>,
    max_x: int,
    max_y: int,
    info: Map<TurfID, Ledger<A>>,
)
    ensures
        all_fast_processed(Seq::empty(), turfs, max_x, max_y, info) == info,
        all_fast_processed(list.push(turf), turfs, max_x, max_y, info) == fast_processed(
            turf.0,
            turf.1,
            turfs,
            max_x,
            max_y,
            all_fast_processed(list, turfs, max_x, max_y, info),
        ),
        settled(side, Seq::empty(), turfs, max_x, max_y, info) == info,
        settled(side, list.push(turf), turfs, max_x, max_y, info) == settled_one(
            side,
            turfs,
            max_x,
            max_y,
            settled(side, list, turfs, max_x, max_y, info),
            turf,
        ),
{
    assert(list.push(turf).drop_last() =~= list);
    assert(list.push(turf).last() == turf);
}

/// A search goes on to every turf of the zone that has books and takes part in the simulation. A turf
/// that has too much is matched with those that have less than nothing too much, until it has not
/// too much any more, and a turf that has too little with those that have too much, until it has
/// not too little any more.
pub proof fn searches_know_their_match<A: Amount>(
    turfs: Seq<MixWithID>,
    info: Map<TurfID, Ledger<A>>,
    loc: TurfID,
    x: A,
)
    ensures
        passable(turfs, info, loc) <==> info.contains_key(loc) && entry_of(turfs, loc) is Some && (
        entry_of(turfs, loc)->0).simulated,
        matches_side(Side::Giver, x) <==> x.spec_lt(A::spec_zero()),
        matches_side(Side::Taker, x) <==> A::spec_zero().spec_lt(x),
        satisfied(Side::Giver, x) <==> x.spec_le(A::spec_zero()),
        satisfied(Side::Taker, x) <==> A::spec_zero().spec_le(x),
{
}

} // verus!
