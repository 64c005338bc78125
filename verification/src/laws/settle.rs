//! What matching turfs keeps.
use vstd::prelude::*;
use crate::amount::{exact, Amount};
use crate::balance::{
    holdings, lemma_group, lemma_holdings, lemma_minus_first, lemma_plus_first, lemma_second,
    lemma_undo, same_transfers, sum,
};
use crate::grid::{
    adjacent, lemma_neighbours, neighbours, opposite, opposite_step_returns, TurfID,
};
use crate::info::Ledger;
use crate::laws::fast::same_holdings;
use crate::laws::sums::{delta_at, lemma_moved_delta, lemma_same_delta, whole_delta};
use crate::laws::tree::{led_to, lemma_look_tree, lemma_pass_on_tree, lemma_put_ids, tree};
use crate::settle::{
    explore, look, look_around, matched, matches_side, outweighs, pass_all_on, pass_on, passable,
    reached, satisfied, search_from, settled, settled_one, Search, Side,
};
use crate::tables::{books_wf, distinct, entry_of, holds, lemma_put, place, MixWithID};

verus! {

/// What the turfs of the queue from the second to the `n`th have to pass on.
pub open spec fn pending<A: Amount>(
    info: Map<TurfID, Ledger<A>>,
    queue: Seq<MixWithID>,
    n: int,
) -> A
    decreases n,
{
    if n <= 1 {
        A::spec_zero()
    } else {
        pending(info, queue, n - 1).spec_plus(info[queue[n - 1].0].curr_transfer_amount)
    }
}

/// The books `info` of a search add up to the books `start`, counting what is
/// still to be passed on.
pub open spec fn accounted<A: Amount>(
    start: Map<TurfID, Ledger<A>>,
    info: Map<TurfID, Ledger<A>>,
    queue: Seq<MixWithID>,
) -> bool {
    let root = queue[0].0;
    &&& books_wf(info)
    &&& info.dom() == start.dom()
    &&& forall|k: TurfID| #[trigger]
        info.contains_key(k) && !holds(queue, k) ==> holdings(info[k]) == holdings(start[k])
    &&& forall|k: TurfID| #[trigger]
        info.contains_key(k) && holds(queue, k) && k != root ==> holdings(info[k]).spec_plus(
            info[k].curr_transfer_amount,
        ) == holdings(start[k])
    &&& holdings(info[root]) == holdings(start[root]).spec_plus(
        pending(info, queue, queue.len() as int),
    )
}

/// What is pending is a matter of the amounts of the turfs concerned.
proof fn lemma_pending_same<A: Amount>(
    a: Map<TurfID, Ledger<A>>,
    b: Map<TurfID, Ledger<A>>,
    p: Seq<MixWithID>,
    q: Seq<MixWithID>,
    n: int,
)
    requires
        0 <= n <= p.len(),
        n <= q.len(),
        forall|k: int|
            1 <= k < n ==> (#[trigger] p[k]).0 == q[k].0 && a[p[k].0].curr_transfer_amount
                == b[p[k].0].curr_transfer_amount,
    ensures
        pending(a, p, n) == pending(b, q, n),
    decreases n,
{
    if n > 1 {
        lemma_pending_same(a, b, p, q, n - 1);
        assert(p[n - 1].0 == q[n - 1].0);
    }
}

/// If one turf has `x` more to pass on, then so much more is pending.
proof fn lemma_pending_plus<A: Amount>(
    a: Map<TurfID, Ledger<A>>,
    b: Map<TurfID, Ledger<A>>,
    queue: Seq<MixWithID>,
    n: int,
    q: int,
    x: A,
)
    requires
        exact::<A>(),
        distinct(queue),
        1 <= q < n <= queue.len(),
        b[queue[q].0].curr_transfer_amount == a[queue[q].0].curr_transfer_amount.spec_plus(x),
        forall|k: int|
            1 <= k < n && k != q ==> a[(#[trigger] queue[k]).0].curr_transfer_amount
                == b[queue[k].0].curr_transfer_amount,
    ensures
        pending(b, queue, n) == pending(a, queue, n).spec_plus(x),
    decreases n,
{
    if q == n - 1 {
        lemma_pending_same(a, b, queue, queue, n - 1);
        lemma_second(pending(a, queue, n - 1), a[queue[q].0].curr_transfer_amount, x);
    } else {
        lemma_pending_plus(a, b, queue, n - 1, q, x);
        lemma_plus_first(
            pending(a, queue, n - 1),
            a[queue[n - 1].0].curr_transfer_amount,
            x,
        );
    }
}

/// A match moves gas on paper from one turf to the other, and what was moved
/// is what the turf that was found has to pass on.
pub proof fn match_conserves<A: Amount>(side: Side, found: Ledger<A>, own: A)
    requires
        exact::<A>(),
        found.curr_transfer_amount == A::spec_zero(),
    ensures
        ({
            let (after, left) = matched(side, found, own);
            &&& left == own.spec_plus(after.curr_transfer_amount)
            &&& holdings(after).spec_plus(after.curr_transfer_amount) == holdings(found)
            &&& after.mole_delta == found.mole_delta.spec_minus(after.curr_transfer_amount)
            &&& after.transfers == found.transfers
            &&& after.curr_transfer_dir == found.curr_transfer_dir
            &&& after.fast_done == found.fast_done
        }),
{
    let (after, left) = matched(side, found, own);
    let z = A::spec_zero();
    let d = found.mole_delta;
    let s = sum(found.transfers);
    lemma_group(own, z, z);
    lemma_group(holdings(found), z, z);
    lemma_undo(d, z);
    lemma_group(d, z, z);
    if matches_side(side, d) {
        if outweighs(side, d, own) {
            // own + (0 - own) == 0, and ((d + own) + s) + (0 - own) == d + s
            lemma_group(z, own, z);
            lemma_group(own, z.spec_minus(own), z);
            lemma_undo(z, own);
            lemma_plus_first(d, s, own);
            lemma_second(d.spec_plus(s).spec_plus(own), z, own);
            lemma_group(d.spec_plus(s).spec_plus(own), z, z);
            lemma_undo(d.spec_plus(s), own);
            // d + own == d - (0 - own)
            lemma_second(d.spec_plus(own), z, own);
            lemma_group(d.spec_plus(own), z, z);
            lemma_undo(d, own);
            lemma_undo(d.spec_plus(own), z.spec_minus(own));
        } else {
            // 0 == d - (0 + d)
            lemma_undo(z, d);
            lemma_group(z, d, z);
            lemma_group(d, z, z);
            lemma_group(z, s, d);
            lemma_group(s, z, z);
            lemma_group(s, d, z);
        }
    }
}

/// What holds of a search all the while.
pub open spec fn search_ok<A: Amount>(
    start: Map<TurfID, Ledger<A>>,
    search: Search<A>,
    root: TurfID,
    max_x: int,
    max_y: int,
) -> bool {
    &&& tree(search.info, search.queue, max_x, max_y)
    &&& accounted(start, search.info, search.queue)
    &&& same_transfers(start, search.info)
    &&& whole_delta(search.info) == whole_delta(start)
    &&& search.queue[0].0 == root
    &&& search.info[root] == search.own
    &&& search.own.curr_transfer_amount == A::spec_zero()
}

/// [`accounted`] is a matter of which turfs are in the queue.
proof fn lemma_same_ids<A: Amount>(
    start: Map<TurfID, Ledger<A>>,
    info: Map<TurfID, Ledger<A>>,
    p: Seq<MixWithID>,
    q: Seq<MixWithID>,
)
    requires
        accounted(start, info, p),
        p.len() == q.len() > 0,
        forall|k: int| 0 <= k < p.len() ==> (#[trigger] q[k]).0 == p[k].0,
        forall|k: TurfID| #[trigger] holds(q, k) == holds(p, k),
    ensures
        accounted(start, info, q),
{
    lemma_pending_same(info, info, p, q, p.len() as int);
    assert(q[0].0 == p[0].0);
}

/// A search that is in order stays so when it looks at a neighbour.
#[verifier::rlimit(40)]
proof fn lemma_look<A: Amount>(
    start: Map<TurfID, Ledger<A>>,
    side: Side,
    turfs: Seq<MixWithID>,
    root: TurfID,
    search: Search<A>,
    at: int,
    step: (u8, TurfID),
    max_x: int,
    max_y: int,
)
    requires
        exact::<A>(),
        search_ok(start, search, root, max_x, max_y),
        0 <= at < search.queue.len(),
        step.0 < 6,
        step.1 == adjacent(step.0 as int, search.queue[at].0, max_x, max_y),
    ensures
        search_ok(start, look(side, turfs, root, search, step), root, max_x, max_y),
        search.queue.len() <= look(side, turfs, root, search, step).queue.len(),
        look(side, turfs, root, search, step).queue[at].0 == search.queue[at].0,
{
    let next = look(side, turfs, root, search, step);
    let loc = step.1;
    let queue = search.queue;
    let info = search.info;
    assert(holds(queue, root));
    assert(info.contains_key(root));
    assert(info.insert(root, search.own) =~= info);
    lemma_look_tree(start, side, turfs, root, search, at, step, max_x, max_y);
    if passable(turfs, info, loc) {
        let mixture = entry_of(turfs, loc)->0;
        lemma_put(queue, loc, mixture);
        if holds(queue, loc) {
            lemma_put_ids(queue, loc, (loc, mixture));
            lemma_same_ids(start, info, queue, next.queue);
        } else {
            let fresh = reached(info[loc], step.0 as int);
            match_conserves(side, fresh, search.own.mole_delta);
            let (found, left) = matched(side, fresh, search.own.mole_delta);
            opposite_step_returns(step.0 as int, queue[at].0, max_x, max_y);
            assert(loc != root);
            assert(info[loc].wf());
            assert(next.info =~= info.insert(loc, found).insert(root, next.own));
            assert(next.info.dom() =~= info.dom());
            assert(next.queue =~= queue.push((loc, mixture)));
            let len = queue.len() as int;
            lemma_pending_same(info, next.info, queue, next.queue, len);
            // what the first turf gave away is now pending
            let h = holdings(start[root]);
            let u = pending(info, queue, len);
            let x = found.curr_transfer_amount;
            lemma_plus_first(search.own.mole_delta, sum(search.own.transfers), x);
            lemma_group(h, u, x);
            assert(holdings(next.own) == h.spec_plus(u.spec_plus(x)));
            assert(pending(next.info, next.queue, len + 1) == u.spec_plus(x));
            assert forall|k: TurfID| k != root && k != loc implies #[trigger] delta_at(info, k)
                == delta_at(next.info, k) by {}
            assert(info[root].mole_delta == search.own.mole_delta);
            lemma_moved_delta(info, next.info, root, loc, x);
            assert(accounted(start, next.info, next.queue)) by {
                assert forall|k: TurfID| #[trigger]
                    next.info.contains_key(k) && !holds(next.queue, k) implies holdings(
                    next.info[k],
                ) == holdings(start[k]) by {
                    assert(info.contains_key(k) && !holds(queue, k));
                }
                assert forall|k: TurfID| #[trigger]
                    next.info.contains_key(k) && holds(next.queue, k) && k != root implies holdings(
                    next.info[k],
                ).spec_plus(next.info[k].curr_transfer_amount) == holdings(start[k]) by {
                    assert(info.contains_key(k));
                    if k == loc {
                        assert(!holds(queue, k));
                        assert(holdings(fresh) == holdings(info[loc]));
                    } else {
                        assert(holds(queue, k));
                    }
                }
            }
        }
    }
}

proof fn lemma_look_around<A: Amount>(
    start: Map<TurfID, Ledger<A>>,
    side: Side,
    turfs: Seq<MixWithID>,
    root: TurfID,
    search: Search<A>,
    at: int,
    steps: Seq<(u8, TurfID)>,
    max_x: int,
    max_y: int,
)
    requires
        exact::<A>(),
        search_ok(start, search, root, max_x, max_y),
        0 <= at < search.queue.len(),
        forall|k: int|
            #![trigger steps[k]]
            0 <= k < steps.len() ==> steps[k].0 < 6 && steps[k].1 == adjacent(
                steps[k].0 as int,
                search.queue[at].0,
                max_x,
                max_y,
            ),
    ensures
        search_ok(start, look_around(side, turfs, root, search, steps), root, max_x, max_y),
    decreases steps.len(),
{
    if steps.len() > 0 && !satisfied(side, search.own.mole_delta) {
        lemma_look(start, side, turfs, root, search, at, steps[0], max_x, max_y);
        lemma_look_around(
            start,
            side,
            turfs,
            root,
            look(side, turfs, root, search, steps[0]),
            at,
            steps.drop_first(),
            max_x,
            max_y,
        );
    }
}

proof fn lemma_explore<A: Amount>(
    start: Map<TurfID, Ledger<A>>,
    side: Side,
    turfs: Seq<MixWithID>,
    root: TurfID,
    search: Search<A>,
    at: int,
    max_x: int,
    max_y: int,
)
    requires
        exact::<A>(),
        search_ok(start, search, root, max_x, max_y),
        0 <= at,
    ensures
        search_ok(start, explore(side, turfs, max_x, max_y, root, search, at), root, max_x, max_y),
    decreases 0x1_0000_0000 - at,
{
    if at < search.queue.len() && at < 0x1_0000_0000 && !satisfied(side, search.own.mole_delta) {
        let (i, mixture) = search.queue[at];
        let steps = neighbours(mixture.adjacency, i, max_x, max_y, 0, 6);
        lemma_neighbours(mixture.adjacency, i, max_x, max_y, 0, 6);
        lemma_look_around(start, side, turfs, root, search, at, steps, max_x, max_y);
        lemma_explore(
            start,
            side,
            turfs,
            root,
            look_around(side, turfs, root, search, steps),
            at + 1,
            max_x,
            max_y,
        );
    }
}

/// The last turf of the queue passes on what it has to.
#[verifier::rlimit(40)]
proof fn lemma_pass_on<A: Amount>(
    start: Map<TurfID, Ledger<A>>,
    info: Map<TurfID, Ledger<A>>,
    queue: Seq<MixWithID>,
    max_x: int,
    max_y: int,
)
    requires
        exact::<A>(),
        tree(info, queue, max_x, max_y),
        accounted(start, info, queue),
        queue.len() > 1,
    ensures
        tree(pass_on(info, queue.last().0, max_x, max_y), queue.drop_last(), max_x, max_y),
        accounted(start, pass_on(info, queue.last().0, max_x, max_y), queue.drop_last()),
        whole_delta(pass_on(info, queue.last().0, max_x, max_y)) == whole_delta(info),
{
    let n = queue.len() as int;
    let i = queue.last().0;
    let root = queue[0].0;
    let rest = queue.drop_last();
    let own = info[i];
    let dir = own.curr_transfer_dir;
    let x = own.curr_transfer_amount;
    let loc = adjacent(dir, i, max_x, max_y);
    let after = pass_on(info, i, max_x, max_y);
    assert(led_to(info, queue, n - 1, max_x, max_y));
    let q = choose|q: int| 0 <= q < n - 1 && (#[trigger] queue[q]).0 == loc;
    assert(info.contains_key(queue[q].0));
    assert(info.contains_key(queue[n - 1].0));
    assert(queue[q].0 != queue[n - 1].0);
    assert(queue[0].0 != queue[n - 1].0);
    assert(own.wf() && info[loc].wf());
    assert(rest[q] == queue[q]);
    // which turfs are left
    assert forall|k: TurfID| #[trigger] holds(rest, k) == (holds(queue, k) && k != i) by {
        if holds(rest, k) {
            let p = place(rest, k);
            assert(queue[p].0 == k);
            assert(queue[p].0 != queue[n - 1].0);
        }
        if holds(queue, k) && k != i {
            let p = place(queue, k);
            assert(rest[p].0 == k);
        }
    }
    assert(holds(queue, i));
    assert(holds(rest, loc));
    let u = pending(info, queue, n - 1);
    let z = A::spec_zero();
    lemma_group(x, z, z);
    if x.spec_same(z) {
        assert(after == info);
        lemma_group(u, z, z);
        lemma_group(holdings(own), z, z);
        lemma_pending_same(info, info, queue, rest, n - 1);
    } else {
        lemma_holdings(own, dir, x);
        lemma_holdings(info[loc], opposite(dir), x);
        opposite_step_returns(dir, i, max_x, max_y);
        assert(after.dom() =~= info.dom());
        let h = holdings(start[root]);
        if q == 0 {
            lemma_pending_same(info, after, queue, rest, n - 1);
            // (h + (u + x)) - x == h + u
            lemma_second(h, u, x);
            lemma_undo(h.spec_plus(u), x);
        } else {
            assert(queue[0].0 != queue[q].0);
            lemma_pending_plus(info, after, queue, n - 1, q, x);
            lemma_pending_same(after, after, queue, rest, n - 1);
            // (g - x) + (a + x) == g + a
            let g = holdings(info[loc]);
            let a = info[loc].curr_transfer_amount;
            lemma_second(g.spec_minus(x), a, x);
            lemma_minus_first(g, a, x);
            lemma_undo(g.spec_plus(a), x);
        }
        assert forall|k: TurfID| #[trigger] delta_at(info, k) == delta_at(after, k) by {}
        lemma_same_delta(info, after, 0x1_0000_0000);
    }
    lemma_pass_on_tree(info, queue, max_x, max_y);
    assert(accounted(start, after, rest)) by {
        assert forall|k: TurfID| #[trigger] after.contains_key(k) && !holds(rest, k) implies holdings(
            after[k],
        ) == holdings(start[k]) by {
            assert(info.contains_key(k));
            if k == i {
                assert(holds(queue, i) && i != root);
            }
        }
        assert forall|k: TurfID| #[trigger]
            after.contains_key(k) && holds(rest, k) && k != root implies holdings(
            after[k],
        ).spec_plus(after[k].curr_transfer_amount) == holdings(start[k]) by {
            assert(info.contains_key(k));
            assert(holds(queue, k));
        }
    }
}

proof fn lemma_pass_all_on<A: Amount>(
    start: Map<TurfID, Ledger<A>>,
    info: Map<TurfID, Ledger<A>>,
    queue: Seq<MixWithID>,
    max_x: int,
    max_y: int,
)
    requires
        exact::<A>(),
        tree(info, queue, max_x, max_y),
        accounted(start, info, queue),
    ensures
        books_wf(pass_all_on(info, queue, max_x, max_y)),
        same_holdings(start, pass_all_on(info, queue, max_x, max_y)),
        whole_delta(pass_all_on(info, queue, max_x, max_y)) == whole_delta(info),
    decreases queue.len(),
{
    if queue.len() > 1 {
        lemma_pass_on(start, info, queue, max_x, max_y);
        let next = pass_on(info, queue.last().0, max_x, max_y);
        lemma_pass_all_on(start, next, queue.drop_last(), max_x, max_y);
        assert forall|k: TurfID| #[trigger] info.contains_key(k) implies next.contains_key(k) by {}
    } else {
        let root = queue[0].0;
        assert(queue.last().0 == root);
        assert(pass_on(info, root, max_x, max_y) == info);
        assert(queue.drop_last() =~= Seq::<MixWithID>::empty());
        assert(pass_all_on(info, queue.drop_last(), max_x, max_y) == info);
        lemma_group(holdings(start[root]), A::spec_zero(), A::spec_zero());
        assert forall|k: TurfID| #[trigger] start.contains_key(k) implies holdings(info[k])
            == holdings(start[k]) by {
            assert(info.contains_key(k));
            if holds(queue, k) {
                assert(queue[place(queue, k)].0 == root);
            }
        }
    }
}

/// Matching one turf changes no turf's holdings, nor how far all turfs are above
/// their due in all, if amounts are exact.
pub proof fn settle_one_conserves<A: Amount>(
    side: Side,
    turfs: Seq<MixWithID>,
    max_x: int,
    max_y: int,
    info: Map<TurfID, Ledger<A>>,
    turf: MixWithID,
)
    requires
        exact::<A>(),
        books_wf(info),
    ensures
        books_wf(settled_one(side, turfs, max_x, max_y, info, turf)),
        same_holdings(info, settled_one(side, turfs, max_x, max_y, info, turf)),
        whole_delta(settled_one(side, turfs, max_x, max_y, info, turf)) == whole_delta(info),
{
    if info.contains_key(turf.0) {
        let first = search_from(info, turf);
        let root = turf.0;
        assert(info[root].wf());
        assert(first.info.dom() =~= info.dom());
        assert(first.queue[0] == turf);
        assert(holds(first.queue, root));
        lemma_group(holdings(info[root]), A::spec_zero(), A::spec_zero());
        assert(books_wf(first.info)) by {
            assert forall|k: TurfID| #[trigger] first.info.contains_key(k) implies first.info[k].wf() by {
                assert(info.contains_key(k));
                assert(info[k].wf());
            }
        }
        assert forall|k: TurfID| #[trigger] holds(first.queue, k) implies k == root by {
            assert(first.queue[place(first.queue, k)] == turf);
        }
        assert(accounted(info, first.info, first.queue));
        assert forall|k: TurfID| #[trigger] delta_at(info, k) == delta_at(first.info, k) by {}
        lemma_same_delta(info, first.info, 0x1_0000_0000);
        assert(search_ok(info, first, root, max_x, max_y));
        lemma_explore(info, side, turfs, root, first, 0, max_x, max_y);
        let end = explore(side, turfs, max_x, max_y, root, first, 0);
        lemma_pass_all_on(info, end.info, end.queue, max_x, max_y);
    }
}

/// Matching turfs, be it givers with takers or takers with givers, changes no
/// turf's holdings, nor how far all turfs are above their due in all, if amounts
/// are exact.
pub proof fn settling_conserves<A: Amount>(
    side: Side,
    list: Seq<MixWithID>,
    turfs: Seq<MixWithID>,
    max_x: int,
    max_y: int,
    info: Map<TurfID, Ledger<A>>,
)
    requires
        exact::<A>(),
        books_wf(info),
    ensures
        books_wf(settled(side, list, turfs, max_x, max_y, info)),
        same_holdings(info, settled(side, list, turfs, max_x, max_y, info)),
        whole_delta(settled(side, list, turfs, max_x, max_y, info)) == whole_delta(info),
    decreases list.len(),
{
    if list.len() > 0 {
        settling_conserves(side, list.drop_last(), turfs, max_x, max_y, info);
        let between = settled(side, list.drop_last(), turfs, max_x, max_y, info);
        settle_one_conserves(side, turfs, max_x, max_y, between, list.last());
        let end = settled(side, list, turfs, max_x, max_y, info);
        assert forall|k: TurfID| #[trigger] info.contains_key(k) implies holdings(end[k])
            == holdings(info[k]) by {
            assert(between.contains_key(k));
        }
    }
}

} // verus!
