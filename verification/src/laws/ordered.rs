//! How level a zone becomes, for any exact amounts with an order that addition
//! keeps.
use vstd::prelude::*;
use crate::amount::{above_zero, order_kept, ordered, Amount};
use crate::balance::{lemma_group, lemma_undo};
use crate::grid::{neighbours, TurfID};
use crate::info::Ledger;
use crate::laws::fast::quick_round_conserves;
use crate::laws::level::{
    all_booked, done_with, joined, known, lemma_known, lemma_same_reach, zone_ok,
};
use crate::laws::reach::{
    lemma_look, lemma_look_around, lemma_pass_all_on, matching_goes_all_the_way, thorough,
    within_reach, zero_ordered,
};
use crate::laws::settle::settling_conserves;
use crate::laws::sums::{delta_at, total_delta, whole_delta};
use crate::settle::{
    explore, look, look_around, matched, matches_side, passable, reached, satisfied, search_from,
    settled, settled_one, Search, Side,
};
use crate::tables::{books_wf, entry_of, holds, lemma_distinct_entries_len, place, MixWithID};
use crate::zone::{
    all_fast_processed, balanced, deficit_turfs, matched_up, needs_quick_round, other_turfs,
    surplus_turfs,
};

verus! {

pub proof fn lemma_order<A: Amount>(a: A, b: A, c: A)
    requires
        ordered::<A>(),
    ensures
        a.spec_le(a),
        a.spec_le(b) || b.spec_le(a),
        a.spec_le(b) && b.spec_le(a) ==> a == b,
        a.spec_le(b) && b.spec_le(c) ==> a.spec_le(c),
        a.spec_lt(b) == !b.spec_le(a),
        b.spec_lt(a) == !a.spec_le(b),
        a.spec_le(b) == a.spec_plus(c).spec_le(b.spec_plus(c)),
        a.spec_lt(b) == a.spec_plus(c).spec_lt(b.spec_plus(c)),
{
    let n = c.spec_negate();
    assert(order_kept(a, b, c));
    assert(order_kept(b, a, c));
    assert(order_kept(a, a, c));
    let x = a.spec_plus(c);
    let y = b.spec_plus(c);
    assert(order_kept(x, y, n));
    assert(order_kept(y, x, n));
    lemma_undo(a, c);
    lemma_undo(b, c);
    lemma_group(x, c, c);
    lemma_group(y, c, c);
}

/// What is added to an amount, if it is not below zero, makes it no less, and if
/// it is not above zero, no more.
pub proof fn lemma_more<A: Amount>(a: A, x: A)
    requires
        ordered::<A>(),
    ensures
        A::spec_zero().spec_le(x) == a.spec_le(a.spec_plus(x)),
        A::spec_zero().spec_lt(x) == a.spec_lt(a.spec_plus(x)),
        x.spec_le(A::spec_zero()) == a.spec_plus(x).spec_le(a),
        x.spec_lt(A::spec_zero()) == a.spec_plus(x).spec_lt(a),
{
    let z = A::spec_zero();
    lemma_order(z, x, a);
    lemma_order(x, z, a);
    lemma_group(z, a, a);
    lemma_group(a, z, z);
    lemma_group(x, a, a);
}

/// Zero is not below itself, but at most itself.
pub proof fn ordered_amounts_have_a_zero<A: Amount>()
    requires
        ordered::<A>(),
    ensures
        zero_ordered::<A>(),
{
    lemma_order(A::spec_zero(), A::spec_zero(), A::spec_zero());
}

/// Matching two turfs moves as much as the lesser of the two can do with: one
/// of them ends at zero, neither goes past it, and nothing is lost.
pub proof fn match_never_overshoots<A: Amount>(side: Side, found: Ledger<A>, own: A)
    requires
        ordered::<A>(),
        found.curr_transfer_amount == A::spec_zero(),
        !satisfied(side, own),
        matches_side(side, found.mole_delta),
    ensures
        ({
            let (after, left) = matched(side, found, own);
            let there = found.mole_delta;
            let z = A::spec_zero();
            &&& left == z || after.mole_delta == z
            &&& left.spec_plus(after.mole_delta) == own.spec_plus(there)
            &&& after.curr_transfer_amount == left.spec_minus(own)
            &&& match side {
                Side::Giver => z.spec_le(left) && left.spec_lt(own) && there.spec_lt(
                    after.mole_delta,
                ) && after.mole_delta.spec_le(z),
                Side::Taker => own.spec_lt(left) && left.spec_le(z) && z.spec_le(
                    after.mole_delta,
                ) && after.mole_delta.spec_lt(there),
            }
        }),
{
    let z = A::spec_zero();
    let there = found.mole_delta;
    let n = there.spec_negate();
    let m = own.spec_negate();
    lemma_order(z, own, z);
    lemma_order(own, z, z);
    lemma_order(z, z, z);
    lemma_group(z, own, z);
    lemma_group(z, there, z);
    lemma_group(own, there, z);
    lemma_group(there, own, z);
    lemma_group(there, z, z);
    lemma_group(own, z, z);
    // own + there against zero
    lemma_order(own, n, there);
    lemma_order(n, own, there);
    lemma_group(n, there, z);
    lemma_order(m, there, own);
    lemma_order(there, m, own);
    lemma_group(m, own, z);
    lemma_more(there, own);
    lemma_more(own, there);
    // (own + there) - own == there
    let sum = own.spec_plus(there);
    lemma_undo(there, own);
    lemma_group(sum, z, z);
    lemma_group(z, sum, z);
    lemma_order(sum, z, z);
    lemma_order(z, sum, z);
}

/// `after` is between `before` and zero.
pub open spec fn towards_zero<A: Amount>(before: A, after: A) -> bool {
    let z = A::spec_zero();
    z.spec_le(after) && after.spec_le(before) || before.spec_le(after) && after.spec_le(z)
}

proof fn lemma_towards_zero<A: Amount>(a: A, b: A, c: A)
    requires
        ordered::<A>(),
    ensures
        towards_zero(a, a),
        towards_zero(a, b) && towards_zero(b, c) ==> towards_zero(a, c),
{
    let z = A::spec_zero();
    lemma_order(a, b, c);
    lemma_order(c, b, a);
    lemma_order(z, c, b);
    lemma_order(z, b, c);
    lemma_order(b, c, z);
    lemma_order(c, b, z);
    lemma_order(z, b, a);
    lemma_order(a, b, z);
    lemma_order(a, z, z);
    lemma_order(z, c, a);
    lemma_order(a, c, z);
}

/// From the books `before` to the books `after` no turf has gone away from its
/// due or past it.
pub open spec fn nearer_due<A: Amount>(
    before: Map<TurfID, Ledger<A>>,
    after: Map<TurfID, Ledger<A>>,
) -> bool {
    &&& before.dom() == after.dom()
    &&& forall|k: TurfID| #[trigger]
        before.contains_key(k) ==> towards_zero(before[k].mole_delta, after[k].mole_delta)
}

proof fn lemma_nearer_due<A: Amount>(
    a: Map<TurfID, Ledger<A>>,
    b: Map<TurfID, Ledger<A>>,
    c: Map<TurfID, Ledger<A>>,
)
    requires
        ordered::<A>(),
        nearer_due(a, b),
        nearer_due(b, c),
    ensures
        nearer_due(a, c),
{
    assert forall|k: TurfID| #[trigger] a.contains_key(k) implies towards_zero(
        a[k].mole_delta,
        c[k].mole_delta,
    ) by {
        assert(b.contains_key(k));
        lemma_towards_zero(a[k].mole_delta, b[k].mole_delta, c[k].mole_delta);
    }
}

proof fn lemma_same_due<A: Amount>(a: Map<TurfID, Ledger<A>>, b: Map<TurfID, Ledger<A>>)
    requires
        ordered::<A>(),
        a.dom() == b.dom(),
        forall|k: TurfID| #[trigger] a.contains_key(k) ==> a[k].mole_delta == b[k].mole_delta,
    ensures
        nearer_due(a, b),
{
    assert forall|k: TurfID| #[trigger] a.contains_key(k) implies towards_zero(
        a[k].mole_delta,
        b[k].mole_delta,
    ) by {
        let d = a[k].mole_delta;
        lemma_towards_zero(d, d, d);
    }
}

proof fn lemma_look_levels<A: Amount>(
    side: Side,
    turfs: Seq<MixWithID>,
    info: Map<TurfID, Ledger<A>>,
    max_x: int,
    max_y: int,
    root: TurfID,
    search: Search<A>,
    at: int,
    step: (u8, TurfID),
)
    requires
        ordered::<A>(),
        thorough(side, turfs, info, max_x, max_y, root, search, at),
        !satisfied(side, search.own.mole_delta),
    ensures
        nearer_due(search.info, look(side, turfs, root, search, step).info),
{
    let next = look(side, turfs, root, search, step);
    let loc = step.1;
    let queue = search.queue;
    assert(holds(queue, queue[0].0));
    assert(search.info.contains_key(root));
    assert(next.info.dom() =~= search.info.dom());
    let own = search.own.mole_delta;
    let fresh = reached(search.info[loc], step.0 as int);
    if passable(turfs, search.info, loc) && !holds(queue, loc) && matches_side(
        side,
        fresh.mole_delta,
    ) {
        let (found, left) = matched(side, fresh, own);
        match_never_overshoots(side, fresh, own);
        assert(loc != root);
        assert(next.info[loc].mole_delta == found.mole_delta);
        assert(next.info[root].mole_delta == left);
        assert forall|k: TurfID| #[trigger] search.info.contains_key(k) implies towards_zero(
            search.info[k].mole_delta,
            next.info[k].mole_delta,
        ) by {
            let d = search.info[k].mole_delta;
            lemma_towards_zero(d, d, d);
            lemma_order(left, own, own);
            lemma_order(own, left, own);
            lemma_order(found.mole_delta, fresh.mole_delta, own);
            lemma_order(fresh.mole_delta, found.mole_delta, own);
        }
    } else {
        assert forall|k: TurfID| #[trigger] search.info.contains_key(
            k,
        ) implies search.info[k].mole_delta == next.info[k].mole_delta by {}
        lemma_same_due(search.info, next.info);
    }
}

proof fn lemma_look_around_levels<A: Amount>(
    side: Side,
    turfs: Seq<MixWithID>,
    info: Map<TurfID, Ledger<A>>,
    max_x: int,
    max_y: int,
    root: TurfID,
    search: Search<A>,
    at: int,
    steps: Seq<(u8, TurfID)>,
)
    requires
        ordered::<A>(),
        thorough(side, turfs, info, max_x, max_y, root, search, at),
    ensures
        nearer_due(search.info, look_around(side, turfs, root, search, steps).info),
    decreases steps.len(),
{
    ordered_amounts_have_a_zero::<A>();
    if steps.len() > 0 && !satisfied(side, search.own.mole_delta) {
        let next = look(side, turfs, root, search, steps[0]);
        lemma_look(side, turfs, info, max_x, max_y, root, search, at, steps[0]);
        lemma_look_levels(side, turfs, info, max_x, max_y, root, search, at, steps[0]);
        let rest = steps.drop_first();
        lemma_look_around_levels(side, turfs, info, max_x, max_y, root, next, at, rest);
        lemma_nearer_due(
            search.info,
            next.info,
            look_around(side, turfs, root, next, rest).info,
        );
    } else {
        lemma_same_due(search.info, search.info);
    }
}

proof fn lemma_explore_levels<A: Amount>(
    side: Side,
    turfs: Seq<MixWithID>,
    info: Map<TurfID, Ledger<A>>,
    max_x: int,
    max_y: int,
    root: TurfID,
    search: Search<A>,
    at: int,
)
    requires
        ordered::<A>(),
        thorough(side, turfs, info, max_x, max_y, root, search, at),
        0 <= at,
    ensures
        nearer_due(search.info, explore(side, turfs, max_x, max_y, root, search, at).info),
    decreases 0x1_0000_0000 - at,
{
    ordered_amounts_have_a_zero::<A>();
    lemma_distinct_entries_len(search.queue);
    if at < search.queue.len() && !satisfied(side, search.own.mole_delta) {
        let (i, mixture) = search.queue[at];
        let steps = neighbours(mixture.adjacency, i, max_x, max_y, 0, 6);
        let next = look_around(side, turfs, root, search, steps);
        lemma_look_around(side, turfs, info, max_x, max_y, root, search, at, steps);
        lemma_look_around_levels(side, turfs, info, max_x, max_y, root, search, at, steps);
        assert(next.queue[at] == (i, mixture));
        assert(thorough(side, turfs, info, max_x, max_y, root, next, at + 1));
        lemma_explore_levels(side, turfs, info, max_x, max_y, root, next, at + 1);
        lemma_nearer_due(
            search.info,
            next.info,
            explore(side, turfs, max_x, max_y, root, next, at + 1).info,
        );
    } else {
        lemma_same_due(search.info, search.info);
    }
}

/// Matching a turf brings turfs nearer to their due: none goes away from it or
/// past it, and nothing is lost.
pub proof fn matching_levels<A: Amount>(
    side: Side,
    turfs: Seq<MixWithID>,
    max_x: int,
    max_y: int,
    info: Map<TurfID, Ledger<A>>,
    turf: MixWithID,
)
    requires
        ordered::<A>(),
        books_wf(info),
        info.contains_key(turf.0),
        entry_of(turfs, turf.0) == Some(turf.1),
    ensures
        ({
            let after = settled_one(side, turfs, max_x, max_y, info, turf);
            nearer_due(info, after) && whole_delta(after) == whole_delta(info)
        }),
{
    ordered_amounts_have_a_zero::<A>();
    let root = turf.0;
    let first = search_from(info, turf);
    assert(first.info.dom() =~= info.dom());
    assert(thorough(side, turfs, info, max_x, max_y, root, first, 0));
    lemma_same_due(info, first.info);
    lemma_explore_levels(side, turfs, info, max_x, max_y, root, first, 0);
    let end = explore(side, turfs, max_x, max_y, root, first, 0);
    lemma_nearer_due(info, first.info, end.info);
    let after = settled_one(side, turfs, max_x, max_y, info, turf);
    lemma_pass_all_on(end.info, end.queue, max_x, max_y);
    lemma_same_due(end.info, after);
    lemma_nearer_due(info, end.info, after);
    settling_conserves(side, seq![turf], turfs, max_x, max_y, info);
    assert(seq![turf].drop_last() =~= Seq::empty());
    assert(settled(side, seq![turf].drop_last(), turfs, max_x, max_y, info) == info);
    assert(settled(side, seq![turf], turfs, max_x, max_y, info) == after);
}

/// A turf that is done with stays so.
proof fn lemma_done_with_stays<A: Amount>(
    side: Side,
    turfs: Seq<MixWithID>,
    max_x: int,
    max_y: int,
    a: Map<TurfID, Ledger<A>>,
    b: Map<TurfID, Ledger<A>>,
    g: TurfID,
)
    requires
        ordered::<A>(),
        nearer_due(a, b),
        a.contains_key(g),
        done_with(side, turfs, max_x, max_y, a, g),
    ensures
        done_with(side, turfs, max_x, max_y, b, g),
{
    let z = A::spec_zero();
    assert(towards_zero(a[g].mole_delta, b[g].mole_delta));
    if !satisfied(side, b[g].mole_delta) {
        assert(!satisfied(side, a[g].mole_delta)) by {
            lemma_order(b[g].mole_delta, a[g].mole_delta, z);
            lemma_order(z, a[g].mole_delta, b[g].mole_delta);
        }
        assert forall|i: TurfID| #[trigger]
            within_reach(turfs, b, max_x, max_y, g, i) && i != g && b.contains_key(
                i,
            ) implies !matches_side(side, b[i].mole_delta) by {
            lemma_same_reach(turfs, max_x, max_y, b, a, g, i);
            assert(a.contains_key(i));
            assert(towards_zero(a[i].mole_delta, b[i].mole_delta));
            lemma_order(z, a[i].mole_delta, b[i].mole_delta);
            lemma_order(b[i].mole_delta, a[i].mole_delta, z);
            lemma_order(z, b[i].mole_delta, z);
            lemma_order(a[i].mole_delta, z, z);
        }
    }
}

/// Matching turf after turf brings turfs nearer to their due, nothing is lost, and
/// each turf that was matched is done with.
pub proof fn matching_all_levels<A: Amount>(
    side: Side,
    list: Seq<MixWithID>,
    turfs: Seq<MixWithID>,
    max_x: int,
    max_y: int,
    info: Map<TurfID, Ledger<A>>,
)
    requires
        ordered::<A>(),
        books_wf(info),
        all_booked(turfs, info),
        known(turfs, list),
    ensures
        ({
            let after = settled(side, list, turfs, max_x, max_y, info);
            &&& nearer_due(info, after)
            &&& whole_delta(after) == whole_delta(info)
            &&& forall|p: int|
                0 <= p < list.len() ==> done_with(
                    side,
                    turfs,
                    max_x,
                    max_y,
                    after,
                    (#[trigger] list[p]).0,
                )
        }),
    decreases list.len(),
{
    ordered_amounts_have_a_zero::<A>();
    settling_conserves(side, list, turfs, max_x, max_y, info);
    if list.len() == 0 {
        lemma_same_due(info, info);
    } else {
        let front = list.drop_last();
        let turf = list.last();
        assert forall|p: int| 0 <= p < front.len() implies entry_of(
            turfs,
            (#[trigger] front[p]).0,
        ) == Some(front[p].1) by {
            assert(front[p] == list[p]);
        }
        settling_conserves(side, front, turfs, max_x, max_y, info);
        matching_all_levels(side, front, turfs, max_x, max_y, info);
        let between = settled(side, front, turfs, max_x, max_y, info);
        let after = settled(side, list, turfs, max_x, max_y, info);
        assert(all_booked(turfs, between));
        assert(list[list.len() - 1] == turf);
        assert(holds(turfs, turf.0));
        assert(info.contains_key(turfs[place(turfs, turf.0)].0));
        assert(between.contains_key(turf.0));
        matching_levels(side, turfs, max_x, max_y, between, turf);
        lemma_nearer_due(info, between, after);
        matching_goes_all_the_way(side, turfs, max_x, max_y, between, turf);
        assert(done_with(side, turfs, max_x, max_y, after, turf.0)) by {
            if !satisfied(side, after[turf.0].mole_delta) {
                assert forall|i: TurfID| #[trigger]
                    within_reach(turfs, after, max_x, max_y, turf.0, i) && i != turf.0
                        && after.contains_key(i) implies !matches_side(
                    side,
                    after[i].mole_delta,
                ) by {
                    lemma_same_reach(turfs, max_x, max_y, after, between, turf.0, i);
                }
            }
        }
        assert forall|p: int| 0 <= p < list.len() implies done_with(
            side,
            turfs,
            max_x,
            max_y,
            after,
            (#[trigger] list[p]).0,
        ) by {
            if p < front.len() {
                assert(front[p] == list[p]);
                assert(holds(turfs, list[p].0));
                assert(info.contains_key(turfs[place(turfs, list[p].0)].0));
                assert(between.contains_key(list[p].0));
                lemma_done_with_stays(side, turfs, max_x, max_y, between, after, list[p].0);
            }
        }
    }
}

/// The amount is not below zero, or not above it.
pub open spec fn on_side<A: Amount>(up: bool, x: A) -> bool {
    if up {
        A::spec_zero().spec_le(x)
    } else {
        x.spec_le(A::spec_zero())
    }
}

/// No turf is below its due, or none is above it.
pub open spec fn one_sided<A: Amount>(info: Map<TurfID, Ledger<A>>, up: bool) -> bool {
    forall|k: TurfID| #[trigger] info.contains_key(k) ==> on_side(up, info[k].mole_delta)
}

proof fn lemma_one_sided<A: Amount>(
    side: Side,
    list: Seq<MixWithID>,
    turfs: Seq<MixWithID>,
    max_x: int,
    max_y: int,
    info: Map<TurfID, Ledger<A>>,
)
    requires
        ordered::<A>(),
        books_wf(info),
        zone_ok(turfs, info),
        joined(turfs, info, max_x, max_y),
        known(turfs, list),
        forall|p: int|
            0 <= p < turfs.len() && !satisfied(
                side,
                info[(#[trigger] turfs[p]).0].mole_delta,
            ) ==> list.contains(turfs[p]),
    ensures
        ({
            let after = settled(side, list, turfs, max_x, max_y, info);
            &&& nearer_due(info, after)
            &&& whole_delta(after) == whole_delta(info)
            &&& one_sided(after, true) || one_sided(after, false)
        }),
{
    matching_all_levels(side, list, turfs, max_x, max_y, info);
    let after = settled(side, list, turfs, max_x, max_y, info);
    let z = A::spec_zero();
    if exists|g: TurfID| #[trigger]
        after.contains_key(g) && !satisfied(side, after[g].mole_delta) {
        let g = choose|g: TurfID| #[trigger]
            after.contains_key(g) && !satisfied(side, after[g].mole_delta);
        assert(info.contains_key(g));
        let p = place(turfs, g);
        assert(turfs[p].0 == g);
        assert(towards_zero(info[g].mole_delta, after[g].mole_delta));
        lemma_order(after[g].mole_delta, info[g].mole_delta, z);
        lemma_order(z, info[g].mole_delta, after[g].mole_delta);
        assert(list.contains(turfs[p]));
        let q = choose|q: int| 0 <= q < list.len() && list[q] == turfs[p];
        assert(done_with(side, turfs, max_x, max_y, after, list[q].0));
        let up = side is Giver;
        assert forall|k: TurfID| #[trigger] after.contains_key(k) implies on_side(
            up,
            after[k].mole_delta,
        ) by {
            assert(info.contains_key(k));
            assert(within_reach(turfs, info, max_x, max_y, g, k));
            lemma_same_reach(turfs, max_x, max_y, info, after, g, k);
            lemma_order(z, after[k].mole_delta, z);
            if k != g {
                assert(!matches_side(side, after[k].mole_delta));
            }
        }
        assert(one_sided(after, up));
    } else {
        let up = side is Taker;
        assert forall|k: TurfID| #[trigger] after.contains_key(k) implies on_side(
            up,
            after[k].mole_delta,
        ) by {
            assert(satisfied(side, after[k].mole_delta));
        }
        assert(one_sided(after, up));
    }
}

/// Either method levels, and leaves books on one side.
proof fn lemma_sides<A: Amount>(
    turfs: Seq<MixWithID>,
    max_x: int,
    max_y: int,
    info: Map<TurfID, Ledger<A>>,
)
    requires
        ordered::<A>(),
        books_wf(info),
        zone_ok(turfs, info),
        joined(turfs, info, max_x, max_y),
    ensures
        ({
            let given = settled(
                Side::Giver,
                surplus_turfs(turfs, info),
                turfs,
                max_x,
                max_y,
                info,
            );
            let taken = settled(
                Side::Taker,
                other_turfs(turfs, info),
                turfs,
                max_x,
                max_y,
                info,
            );
            &&& nearer_due(info, given) && whole_delta(given) == whole_delta(info)
            &&& one_sided(given, true) || one_sided(given, false)
            &&& nearer_due(info, taken) && whole_delta(taken) == whole_delta(info)
            &&& one_sided(taken, true) || one_sided(taken, false)
        }),
{
    let z = A::spec_zero();
    let givers = surplus_turfs(turfs, info);
    let takers = other_turfs(turfs, info);
    let gives = |turf: MixWithID|
        turf.1.planetary_atmos is None && above_zero(info[turf.0].mole_delta);
    let takes = |turf: MixWithID|
        turf.1.planetary_atmos is None && !above_zero(info[turf.0].mole_delta);
    lemma_known(turfs, gives);
    lemma_known(turfs, takes);
    assert forall|p: int|
        0 <= p < turfs.len() && !satisfied(
            Side::Giver,
            info[(#[trigger] turfs[p]).0].mole_delta,
        ) implies givers.contains(turfs[p]) by {
        lemma_order(z, info[turfs[p].0].mole_delta, z);
        assert(gives(turfs[p]));
    }
    lemma_one_sided(Side::Giver, givers, turfs, max_x, max_y, info);
    assert forall|p: int|
        0 <= p < turfs.len() && !satisfied(
            Side::Taker,
            info[(#[trigger] turfs[p]).0].mole_delta,
        ) implies takers.contains(turfs[p]) by {
        lemma_order(z, info[turfs[p].0].mole_delta, z);
        assert(takes(turfs[p]));
    }
    lemma_one_sided(Side::Taker, takers, turfs, max_x, max_y, info);
}

/// Matching evens a zone out as far as its gas goes: if every turf can be
/// reached from every other, then there are not both turfs above and turfs
/// below their due at the end. On the way no turf goes away from its due or
/// past it, and nothing is lost.
pub proof fn matching_leaves_one_side<A: Amount>(
    turfs: Seq<MixWithID>,
    max_x: int,
    max_y: int,
    info: Map<TurfID, Ledger<A>>,
)
    requires
        ordered::<A>(),
        books_wf(info),
        zone_ok(turfs, info),
        joined(turfs, info, max_x, max_y),
    ensures
        ({
            let after = matched_up(
                surplus_turfs(turfs, info),
                other_turfs(turfs, info),
                turfs,
                max_x,
                max_y,
                info,
            );
            &&& nearer_due(info, after)
            &&& whole_delta(after) == whole_delta(info)
            &&& one_sided(after, true) || one_sided(after, false)
        }),
{
    lemma_sides(turfs, max_x, max_y, info);
}

/// Amounts on one side that add up to zero are all zero.
proof fn lemma_all_zero<A: Amount>(info: Map<TurfID, Ledger<A>>, up: bool, n: nat)
    requires
        ordered::<A>(),
        one_sided(info, up),
        n <= 0x1_0000_0000,
    ensures
        on_side(up, total_delta(info, n)),
        total_delta(info, n) == A::spec_zero() ==> forall|k: TurfID|
            k < n ==> #[trigger] delta_at(info, k) == A::spec_zero(),
    decreases n,
{
    let z = A::spec_zero();
    lemma_order(z, z, z);
    if n > 0 {
        let last = (n - 1) as u32;
        lemma_all_zero(info, up, (n - 1) as nat);
        let before = total_delta(info, (n - 1) as nat);
        let x = delta_at(info, last);
        let all = total_delta(info, n);
        assert(on_side(up, x));
        lemma_more(before, x);
        lemma_more(x, before);
        lemma_group(before, x, z);
        lemma_order(z, before, all);
        lemma_order(all, before, z);
        lemma_order(x, z, z);
        lemma_order(before, z, z);
        lemma_order(z, x, all);
        if all == z {
            assert(x == z);
            assert(before == z);
            assert forall|k: TurfID| k < n implies #[trigger] delta_at(info, k) == z by {
                assert(k < n - 1 || k == last);
            }
        }
    }
}

/// Books on one side that add up to zero are all zero.
proof fn lemma_level_zero<A: Amount>(info: Map<TurfID, Ledger<A>>)
    requires
        ordered::<A>(),
        one_sided(info, true) || one_sided(info, false),
        whole_delta(info) == A::spec_zero(),
    ensures
        forall|k: TurfID| #[trigger]
            info.contains_key(k) ==> info[k].mole_delta == A::spec_zero(),
{
    if one_sided(info, true) {
        lemma_all_zero(info, true, 0x1_0000_0000);
    } else {
        lemma_all_zero(info, false, 0x1_0000_0000);
    }
    assert forall|k: TurfID| #[trigger] info.contains_key(k) implies info[k].mole_delta
        == A::spec_zero() by {
        assert(delta_at(info, k) == A::spec_zero());
    }
}

/// Which of the two methods is taken is a matter of speed: in a zone in which
/// every turf can be reached from every other and whose turfs, in all, are
/// neither above nor below their due, matching those above their due and
/// matching the others both leave every turf with exactly its due.
pub proof fn both_methods_level<A: Amount>(
    turfs: Seq<MixWithID>,
    max_x: int,
    max_y: int,
    info: Map<TurfID, Ledger<A>>,
)
    requires
        ordered::<A>(),
        books_wf(info),
        zone_ok(turfs, info),
        joined(turfs, info, max_x, max_y),
        whole_delta(info) == A::spec_zero(),
    ensures
        ({
            let given = settled(
                Side::Giver,
                surplus_turfs(turfs, info),
                turfs,
                max_x,
                max_y,
                info,
            );
            let taken = settled(
                Side::Taker,
                other_turfs(turfs, info),
                turfs,
                max_x,
                max_y,
                info,
            );
            forall|k: TurfID| #[trigger]
                info.contains_key(k) ==> given[k].mole_delta == A::spec_zero()
                    && taken[k].mole_delta == A::spec_zero()
        }),
{
    lemma_sides(turfs, max_x, max_y, info);
    let given = settled(Side::Giver, surplus_turfs(turfs, info), turfs, max_x, max_y, info);
    let taken = settled(Side::Taker, other_turfs(turfs, info), turfs, max_x, max_y, info);
    lemma_level_zero(given);
    lemma_level_zero(taken);
    assert forall|k: TurfID| #[trigger] info.contains_key(k) implies given[k].mole_delta
        == A::spec_zero() && taken[k].mole_delta == A::spec_zero() by {
        assert(given.contains_key(k) && taken.contains_key(k));
    }
}

/// A zone in which every turf can be reached from every other is evened out as
/// far as its gas goes: nothing is lost, and there are not both turfs above and
/// turfs below their due at the end. If, in all, its turfs are neither above
/// nor below their due, then every single turf ends up with exactly its due.
pub proof fn zones_are_evened_out<A: Amount>(
    turfs: Seq<MixWithID>,
    max_x: int,
    max_y: int,
    info: Map<TurfID, Ledger<A>>,
)
    requires
        ordered::<A>(),
        books_wf(info),
        zone_ok(turfs, info),
        joined(turfs, info, max_x, max_y),
    ensures
        ({
            let end = balanced(turfs, max_x, max_y, info);
            &&& end.dom() == info.dom()
            &&& one_sided(end, true) || one_sided(end, false)
            &&& whole_delta(end) == whole_delta(info)
            &&& whole_delta(info) == A::spec_zero() ==> forall|k: TurfID| #[trigger]
                end.contains_key(k) ==> end[k].mole_delta == A::spec_zero()
        }),
{
    let z = A::spec_zero();
    let start = if needs_quick_round(turfs, info) {
        all_fast_processed(turfs, turfs, max_x, max_y, info)
    } else {
        info
    };
    let end = balanced(turfs, max_x, max_y, info);
    quick_round_conserves(turfs, turfs, max_x, max_y, info);
    assert(start.dom() == info.dom());
    assert(zone_ok(turfs, start)) by {
        assert forall|k: TurfID| #[trigger] start.contains_key(k) implies holds(turfs, k) by {
            assert(info.contains_key(k));
        }
        assert forall|p: int| 0 <= p < turfs.len() implies start.contains_key(
            (#[trigger] turfs[p]).0,
        ) by {
            assert(info.contains_key(turfs[p].0));
        }
    }
    assert forall|i: TurfID, j: TurfID|
        start.contains_key(i) && start.contains_key(j) implies #[trigger] within_reach(
        turfs,
        start,
        max_x,
        max_y,
        i,
        j,
    ) by {
        assert(info.contains_key(i) && info.contains_key(j));
        lemma_same_reach(turfs, max_x, max_y, info, start, i, j);
    }
    matching_leaves_one_side(turfs, max_x, max_y, start);
    assert(deficit_turfs(turfs, start) == other_turfs(turfs, start)) by {
        assert forall|a: A| #[trigger] a.spec_le(z) == !above_zero(a) by {
            lemma_order(z, a, z);
        }
        assert((|turf: MixWithID|
            turf.1.planetary_atmos is None && start[turf.0].mole_delta.spec_le(A::spec_zero()))
            =~= (|turf: MixWithID|
            turf.1.planetary_atmos is None && !above_zero(start[turf.0].mole_delta)));
    }
    if whole_delta(info) == z {
        lemma_level_zero(end);
    }
}

} // verus!
