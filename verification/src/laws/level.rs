//! How level a zone of whole quanta becomes.
use vstd::prelude::*;
use crate::amount::{above_zero, below_zero, Amount};
use crate::grid::{neighbours, TurfID};
use crate::info::Ledger;
use crate::laws::quick::{quick_round_loses_nothing, roomy};
use crate::laws::reach::{
    closed_under_steps, lemma_look, lemma_look_around, lemma_pass_all_on, match_never_overshoots,
    matching_goes_all_the_way, thorough, within_reach,
};
use crate::quanta::Quanta;
use crate::settle::{
    explore, look, look_around, matched, matches_side, passable, reached, satisfied, search_from,
    settled, settled_one, Search, Side,
};
use crate::tables::{
    distinct, entry_of, holds, lemma_distinct_entries_len, place, MixWithID,
};
use crate::zone::{
    all_fast_processed, balanced, deficit_turfs, matched_up, needs_quick_round, other_turfs,
    surplus_turfs,
};

verus! {

/// How far turf `i` is above its due.
pub open spec fn above(info: Map<TurfID, Ledger<Quanta>>, i: TurfID) -> int {
    info[i].mole_delta.n as int
}

/// How far the first `n` turfs of `turfs` are above their due in all.
pub open spec fn all_above(
    turfs: Seq<MixWithID>,
    info: Map<TurfID, Ledger<Quanta>>,
    n: int,
) -> int
    decreases n,
{
    if n <= 0 {
        0
    } else {
        all_above(turfs, info, n - 1) + above(info, turfs[n - 1].0)
    }
}

/// No surplus is the one number of which the negative cannot be represented.
pub open spec fn representable(info: Map<TurfID, Ledger<Quanta>>) -> bool {
    forall|k: TurfID| #[trigger] info.contains_key(k) ==> above(info, k) > i64::MIN
}

/// All turfs of `turfs` have books.
pub open spec fn all_booked<A: Amount>(turfs: Seq<MixWithID>, info: Map<TurfID, Ledger<A>>) -> bool {
    forall|p: int| 0 <= p < turfs.len() ==> info.contains_key((#[trigger] turfs[p]).0)
}

/// `after` is between `before` and zero.
pub open spec fn towards_zero(before: int, after: int) -> bool {
    0 <= after <= before || before <= after <= 0
}

/// From the books `before` to the books `after` no turf has gone away from its
/// due or past it, and nothing has been lost.
pub open spec fn levelled(
    turfs: Seq<MixWithID>,
    before: Map<TurfID, Ledger<Quanta>>,
    after: Map<TurfID, Ledger<Quanta>>,
) -> bool {
    &&& before.dom() == after.dom()
    &&& forall|k: TurfID| #[trigger]
        before.contains_key(k) ==> towards_zero(above(before, k), above(after, k))
    &&& all_above(turfs, before, turfs.len() as int) == all_above(
        turfs,
        after,
        turfs.len() as int,
    )
}

proof fn lemma_levelled(
    turfs: Seq<MixWithID>,
    a: Map<TurfID, Ledger<Quanta>>,
    b: Map<TurfID, Ledger<Quanta>>,
    c: Map<TurfID, Ledger<Quanta>>,
)
    requires
        levelled(turfs, a, b),
        levelled(turfs, b, c),
    ensures
        levelled(turfs, a, c),
{
    assert forall|k: TurfID| #[trigger] a.contains_key(k) implies towards_zero(
        above(a, k),
        above(c, k),
    ) by {
        assert(b.contains_key(k));
    }
}

proof fn lemma_representable(
    turfs: Seq<MixWithID>,
    a: Map<TurfID, Ledger<Quanta>>,
    b: Map<TurfID, Ledger<Quanta>>,
)
    requires
        levelled(turfs, a, b),
        representable(a),
    ensures
        representable(b),
{
    assert forall|k: TurfID| #[trigger] b.contains_key(k) implies above(b, k) > i64::MIN by {
        assert(a.contains_key(k));
    }
}

/// The total does not change if no surplus does.
pub proof fn lemma_same_total(
    turfs: Seq<MixWithID>,
    a: Map<TurfID, Ledger<Quanta>>,
    b: Map<TurfID, Ledger<Quanta>>,
    n: int,
)
    requires
        n <= turfs.len(),
        forall|p: int| 0 <= p < n ==> above(a, (#[trigger] turfs[p]).0) == above(b, turfs[p].0),
    ensures
        all_above(turfs, a, n) == all_above(turfs, b, n),
    decreases n,
{
    if n > 0 {
        lemma_same_total(turfs, a, b, n - 1);
        assert(above(a, turfs[n - 1].0) == above(b, turfs[n - 1].0));
    }
}

/// What changes of the total if the surplus of two turfs changes.
pub proof fn lemma_total(
    turfs: Seq<MixWithID>,
    a: Map<TurfID, Ledger<Quanta>>,
    b: Map<TurfID, Ledger<Quanta>>,
    n: int,
    p: int,
    q: int,
)
    requires
        0 <= n <= turfs.len(),
        distinct(turfs),
        0 <= p < turfs.len(),
        0 <= q < turfs.len(),
        p != q,
        forall|k: int|
            0 <= k < turfs.len() && k != p && k != q ==> above(a, (#[trigger] turfs[k]).0)
                == above(b, turfs[k].0),
    ensures
        all_above(turfs, b, n) - all_above(turfs, a, n) == (if p < n {
            above(b, turfs[p].0) - above(a, turfs[p].0)
        } else {
            0
        }) + (if q < n {
            above(b, turfs[q].0) - above(a, turfs[q].0)
        } else {
            0
        }),
    decreases n,
{
    if n > 0 {
        lemma_total(turfs, a, b, n - 1, p, q);
        if n - 1 != p && n - 1 != q {
            assert(above(a, turfs[n - 1].0) == above(b, turfs[n - 1].0));
        }
    }
}

proof fn lemma_look_levels(
    side: Side,
    turfs: Seq<MixWithID>,
    info: Map<TurfID, Ledger<Quanta>>,
    max_x: int,
    max_y: int,
    root: TurfID,
    search: Search<Quanta>,
    at: int,
    step: (u8, TurfID),
)
    requires
        distinct(turfs),
        thorough(side, turfs, info, max_x, max_y, root, search, at),
        !satisfied(side, search.own.mole_delta),
        representable(search.info),
    ensures
        levelled(turfs, search.info, look(side, turfs, root, search, step).info),
{
    let next = look(side, turfs, root, search, step);
    let loc = step.1;
    let queue = search.queue;
    lemma_look(side, turfs, info, max_x, max_y, root, search, at, step);
    assert(holds(queue, queue[0].0));
    assert(entry_of(turfs, queue[0].0) == Some(queue[0].1));
    let p = place(turfs, root);
    assert(turfs[p].0 == root);
    assert(search.info.contains_key(root));
    if passable(turfs, search.info, loc) && !holds(queue, loc) {
        let fresh = reached(search.info[loc], step.0 as int);
        let own = search.own.mole_delta;
        let q = place(turfs, loc);
        assert(turfs[q].0 == loc);
        assert(loc != root);
        assert(p != q);
        assert(above(search.info, loc) > i64::MIN);
        assert(above(search.info, root) > i64::MIN);
        if matches_side(side, fresh.mole_delta) {
            match_never_overshoots(side, fresh, own);
        }
        let (found, left) = matched(side, fresh, own);
        assert(next.info[loc].mole_delta == found.mole_delta);
        assert(next.info[root].mole_delta == left);
        assert forall|k: int|
            0 <= k < turfs.len() && k != p && k != q implies above(
            search.info,
            (#[trigger] turfs[k]).0,
        ) == above(next.info, turfs[k].0) by {
            if k < p {
                assert(turfs[k].0 != turfs[p].0);
            } else {
                assert(turfs[p].0 != turfs[k].0);
            }
            if k < q {
                assert(turfs[k].0 != turfs[q].0);
            } else {
                assert(turfs[q].0 != turfs[k].0);
            }
        }
        lemma_total(turfs, search.info, next.info, turfs.len() as int, p, q);
        assert(next.info.dom() =~= search.info.dom());
    } else {
        assert(next.info.dom() =~= search.info.dom());
        assert forall|k: TurfID| #[trigger] search.info.contains_key(k) implies above(
            next.info,
            k,
        ) == above(search.info, k) by {}
        assert forall|k: int| 0 <= k < turfs.len() implies above(
            search.info,
            (#[trigger] turfs[k]).0,
        ) == above(next.info, turfs[k].0) by {}
        lemma_same_total(turfs, search.info, next.info, turfs.len() as int);
    }
}

proof fn lemma_stays_level(turfs: Seq<MixWithID>, info: Map<TurfID, Ledger<Quanta>>)
    ensures
        levelled(turfs, info, info),
{
}

proof fn lemma_look_around_levels(
    side: Side,
    turfs: Seq<MixWithID>,
    info: Map<TurfID, Ledger<Quanta>>,
    max_x: int,
    max_y: int,
    root: TurfID,
    search: Search<Quanta>,
    at: int,
    steps: Seq<(u8, TurfID)>,
)
    requires
        distinct(turfs),
        thorough(side, turfs, info, max_x, max_y, root, search, at),
        representable(search.info),
    ensures
        levelled(turfs, search.info, look_around(side, turfs, root, search, steps).info),
    decreases steps.len(),
{
    if steps.len() > 0 && !satisfied(side, search.own.mole_delta) {
        let next = look(side, turfs, root, search, steps[0]);
        lemma_look(side, turfs, info, max_x, max_y, root, search, at, steps[0]);
        lemma_look_levels(side, turfs, info, max_x, max_y, root, search, at, steps[0]);
        lemma_representable(turfs, search.info, next.info);
        let rest = steps.drop_first();
        lemma_look_around_levels(side, turfs, info, max_x, max_y, root, next, at, rest);
        lemma_levelled(
            turfs,
            search.info,
            next.info,
            look_around(side, turfs, root, next, rest).info,
        );
    } else {
        lemma_stays_level(turfs, search.info);
    }
}

proof fn lemma_explore_levels(
    side: Side,
    turfs: Seq<MixWithID>,
    info: Map<TurfID, Ledger<Quanta>>,
    max_x: int,
    max_y: int,
    root: TurfID,
    search: Search<Quanta>,
    at: int,
)
    requires
        distinct(turfs),
        thorough(side, turfs, info, max_x, max_y, root, search, at),
        representable(search.info),
        0 <= at,
    ensures
        levelled(
            turfs,
            search.info,
            explore(side, turfs, max_x, max_y, root, search, at).info,
        ),
    decreases 0x1_0000_0000 - at,
{
    lemma_distinct_entries_len(search.queue);
    if at < search.queue.len() && !satisfied(side, search.own.mole_delta) {
        let (i, mixture) = search.queue[at];
        let steps = neighbours(mixture.adjacency, i, max_x, max_y, 0, 6);
        let next = look_around(side, turfs, root, search, steps);
        lemma_look_around(side, turfs, info, max_x, max_y, root, search, at, steps);
        lemma_look_around_levels(side, turfs, info, max_x, max_y, root, search, at, steps);
        lemma_representable(turfs, search.info, next.info);
        assert(next.queue[at] == (i, mixture));
        assert(thorough(side, turfs, info, max_x, max_y, root, next, at + 1));
        lemma_explore_levels(side, turfs, info, max_x, max_y, root, next, at + 1);
        lemma_levelled(
            turfs,
            search.info,
            next.info,
            explore(side, turfs, max_x, max_y, root, next, at + 1).info,
        );
    } else {
        lemma_stays_level(turfs, search.info);
    }
}

/// Matching a turf brings turfs nearer to their due: none goes away from it or
/// past it, and nothing is lost.
pub proof fn matching_levels(
    side: Side,
    turfs: Seq<MixWithID>,
    max_x: int,
    max_y: int,
    info: Map<TurfID, Ledger<Quanta>>,
    turf: MixWithID,
)
    requires
        distinct(turfs),
        all_booked(turfs, info),
        representable(info),
        info.contains_key(turf.0),
        entry_of(turfs, turf.0) == Some(turf.1),
    ensures
        levelled(turfs, info, settled_one(side, turfs, max_x, max_y, info, turf)),
{
    let root = turf.0;
    let first = search_from(info, turf);
    assert(first.info.dom() =~= info.dom());
    assert(thorough(side, turfs, info, max_x, max_y, root, first, 0));
    assert forall|k: TurfID| #[trigger] info.contains_key(k) implies above(first.info, k) == above(
        info,
        k,
    ) by {}
    lemma_same_total(turfs, info, first.info, turfs.len() as int);
    assert(levelled(turfs, info, first.info));
    lemma_representable(turfs, info, first.info);
    lemma_explore_levels(side, turfs, info, max_x, max_y, root, first, 0);
    let end = explore(side, turfs, max_x, max_y, root, first, 0);
    lemma_levelled(turfs, info, first.info, end.info);
    let after = settled_one(side, turfs, max_x, max_y, info, turf);
    lemma_pass_all_on(end.info, end.queue, max_x, max_y);
    assert(levelled(turfs, end.info, after)) by {
        assert forall|k: TurfID| #[trigger] end.info.contains_key(k) implies above(after, k)
            == above(end.info, k) by {}
        assert forall|p: int| 0 <= p < turfs.len() implies above(
            end.info,
            (#[trigger] turfs[p]).0,
        ) == above(after, turfs[p].0) by {
            assert(info.contains_key(turfs[p].0));
            assert(end.info.contains_key(turfs[p].0));
        }
        lemma_same_total(turfs, end.info, after, turfs.len() as int);
    }
    lemma_levelled(turfs, info, end.info, after);
}

/// The turfs of `list` are turfs of the zone.
pub open spec fn known(turfs: Seq<MixWithID>, list: Seq<MixWithID>) -> bool {
    forall|p: int|
        0 <= p < list.len() ==> entry_of(turfs, (#[trigger] list[p]).0) == Some(list[p].1)
}

/// Turf `g` is satisfied, or there is no other turf within its reach left to
/// match it with.
pub open spec fn done_with<A: Amount>(
    side: Side,
    turfs: Seq<MixWithID>,
    max_x: int,
    max_y: int,
    info: Map<TurfID, Ledger<A>>,
    g: TurfID,
) -> bool {
    ||| satisfied(side, info[g].mole_delta)
    ||| forall|i: TurfID| #[trigger]
        within_reach(turfs, info, max_x, max_y, g, i) && i != g && info.contains_key(i)
            ==> !matches_side(side, info[i].mole_delta)
}

/// What is within reach does not depend on the amounts.
pub proof fn lemma_same_reach<A: Amount>(
    turfs: Seq<MixWithID>,
    max_x: int,
    max_y: int,
    a: Map<TurfID, Ledger<A>>,
    b: Map<TurfID, Ledger<A>>,
    g: TurfID,
    i: TurfID,
)
    requires
        a.dom() == b.dom(),
        within_reach(turfs, a, max_x, max_y, g, i),
    ensures
        within_reach(turfs, b, max_x, max_y, g, i),
{
    assert forall|loc: TurfID| #[trigger] passable(turfs, a, loc) == passable(turfs, b, loc) by {
        assert(a.contains_key(loc) == b.contains_key(loc));
    }
    assert forall|set: Set<TurfID>|
        set.contains(g) && #[trigger] closed_under_steps(
            set,
            turfs,
            b,
            max_x,
            max_y,
        ) implies set.contains(i) by {
        assert(closed_under_steps(set, turfs, a, max_x, max_y));
    }
}

/// A turf that is done with stays so.
proof fn lemma_done_with_stays(
    side: Side,
    turfs: Seq<MixWithID>,
    max_x: int,
    max_y: int,
    a: Map<TurfID, Ledger<Quanta>>,
    b: Map<TurfID, Ledger<Quanta>>,
    g: TurfID,
)
    requires
        levelled(turfs, a, b),
        a.contains_key(g),
        done_with(side, turfs, max_x, max_y, a, g),
    ensures
        done_with(side, turfs, max_x, max_y, b, g),
{
    assert(towards_zero(above(a, g), above(b, g)));
    if !satisfied(side, b[g].mole_delta) {
        assert(!satisfied(side, a[g].mole_delta));
        assert forall|i: TurfID| #[trigger]
            within_reach(turfs, b, max_x, max_y, g, i) && i != g && b.contains_key(
                i,
            ) implies !matches_side(side, b[i].mole_delta) by {
            lemma_same_reach(turfs, max_x, max_y, b, a, g, i);
            assert(a.contains_key(i));
            assert(towards_zero(above(a, i), above(b, i)));
        }
    }
}

/// Matching turf after turf brings turfs nearer to their due, and each turf
/// that was matched is done with.
pub proof fn matching_all_levels(
    side: Side,
    list: Seq<MixWithID>,
    turfs: Seq<MixWithID>,
    max_x: int,
    max_y: int,
    info: Map<TurfID, Ledger<Quanta>>,
)
    requires
        distinct(turfs),
        all_booked(turfs, info),
        representable(info),
        known(turfs, list),
    ensures
        ({
            let after = settled(side, list, turfs, max_x, max_y, info);
            &&& levelled(turfs, info, after)
            &&& forall|p: int|
                0 <= p < list.len() ==> done_with(
                    side,
                    turfs,
                    max_x,
                    max_y,
                    after,
                    (#[trigger] list[p]).0,
                )
        }),
    decreases list.len(),
{
    if list.len() == 0 {
        lemma_stays_level(turfs, info);
    } else {
        let front = list.drop_last();
        let turf = list.last();
        assert forall|p: int| 0 <= p < front.len() implies entry_of(
            turfs,
            (#[trigger] front[p]).0,
        ) == Some(front[p].1) by {
            assert(front[p] == list[p]);
        }
        matching_all_levels(side, front, turfs, max_x, max_y, info);
        let between = settled(side, front, turfs, max_x, max_y, info);
        let after = settled(side, list, turfs, max_x, max_y, info);
        lemma_representable(turfs, info, between);
        assert(all_booked(turfs, between));
        assert(list[list.len() - 1] == turf);
        assert(holds(turfs, turf.0));
        assert(info.contains_key(turfs[place(turfs, turf.0)].0));
        assert(between.contains_key(turf.0));
        matching_levels(side, turfs, max_x, max_y, between, turf);
        lemma_levelled(turfs, info, between, after);
        matching_goes_all_the_way(side, turfs, max_x, max_y, between, turf);
        assert(done_with(side, turfs, max_x, max_y, after, turf.0)) by {
            if !satisfied(side, after[turf.0].mole_delta) {
                assert forall|i: TurfID| #[trigger]
                    within_reach(turfs, after, max_x, max_y, turf.0, i) && i != turf.0
                        && after.contains_key(i) implies !matches_side(
                    side,
                    after[i].mole_delta,
                ) by {
                    lemma_same_reach(turfs, max_x, max_y, after, between, turf.0, i);
                }
            }
        }
        assert forall|p: int| 0 <= p < list.len() implies done_with(
            side,
            turfs,
            max_x,
            max_y,
            after,
            (#[trigger] list[p]).0,
        ) by {
            if p < front.len() {
                assert(front[p] == list[p]);
                assert(holds(turfs, list[p].0));
                assert(info.contains_key(turfs[place(turfs, list[p].0)].0));
                assert(between.contains_key(list[p].0));
                lemma_done_with_stays(side, turfs, max_x, max_y, between, after, list[p].0);
            }
        }
    }
}

/// Every turf that has books is within reach of every other.
pub open spec fn joined<A: Amount>(
    turfs: Seq<MixWithID>,
    info: Map<TurfID, Ledger<A>>,
    max_x: int,
    max_y: int,
) -> bool {
    forall|i: TurfID, j: TurfID|
        info.contains_key(i) && info.contains_key(j) ==> #[trigger] within_reach(
            turfs,
            info,
            max_x,
            max_y,
            i,
            j,
        )
}

/// No turf is below its due, or none is above it.
pub open spec fn one_sided(info: Map<TurfID, Ledger<Quanta>>) -> bool {
    ||| forall|k: TurfID| #[trigger] info.contains_key(k) ==> above(info, k) >= 0
    ||| forall|k: TurfID| #[trigger] info.contains_key(k) ==> above(info, k) <= 0
}

/// The zone: no turf twice, none of a planet, and exactly its turfs have books.
pub open spec fn zone_ok<A: Amount>(turfs: Seq<MixWithID>, info: Map<TurfID, Ledger<A>>) -> bool {
    &&& distinct(turfs)
    &&& all_booked(turfs, info)
    &&& forall|k: TurfID| #[trigger] info.contains_key(k) ==> holds(turfs, k)
    &&& forall|p: int| 0 <= p < turfs.len() ==> (#[trigger] turfs[p]).1.planetary_atmos is None
}

pub proof fn lemma_known(turfs: Seq<MixWithID>, fits: spec_fn(MixWithID) -> bool)
    requires
        distinct(turfs),
    ensures
        known(turfs, turfs.filter(fits)),
        forall|p: int|
            0 <= p < turfs.len() && fits(#[trigger] turfs[p]) ==> turfs.filter(fits).contains(
                turfs[p],
            ),
{
    let list = turfs.filter(fits);
    assert forall|p: int| 0 <= p < list.len() implies entry_of(turfs, (#[trigger] list[p]).0)
        == Some(list[p].1) by {
        assert(list.contains(list[p]));
        turfs.lemma_filter_contains_rev(fits, list[p]);
        let q = choose|q: int| 0 <= q < turfs.len() && turfs[q] == list[p];
        assert(turfs[q].0 == list[p].0);
        let r = place(turfs, list[p].0);
        if r < q {
            assert(turfs[r].0 != turfs[q].0);
        } else if q < r {
            assert(turfs[q].0 != turfs[r].0);
        }
    }
    assert forall|p: int|
        0 <= p < turfs.len() && fits(#[trigger] turfs[p]) implies turfs.filter(fits).contains(
        turfs[p],
    ) by {
        turfs.lemma_filter_contains(fits, p);
    }
}

proof fn lemma_one_sided(
    side: Side,
    list: Seq<MixWithID>,
    turfs: Seq<MixWithID>,
    max_x: int,
    max_y: int,
    info: Map<TurfID, Ledger<Quanta>>,
)
    requires
        zone_ok(turfs, info),
        representable(info),
        joined(turfs, info, max_x, max_y),
        known(turfs, list),
        forall|p: int|
            0 <= p < turfs.len() && !satisfied(
                side,
                info[(#[trigger] turfs[p]).0].mole_delta,
            ) ==> list.contains(turfs[p]),
    ensures
        levelled(turfs, info, settled(side, list, turfs, max_x, max_y, info)),
        one_sided(settled(side, list, turfs, max_x, max_y, info)),
{
    matching_all_levels(side, list, turfs, max_x, max_y, info);
    let after = settled(side, list, turfs, max_x, max_y, info);
    if exists|g: TurfID| #[trigger]
        after.contains_key(g) && !satisfied(side, after[g].mole_delta) {
        let g = choose|g: TurfID| #[trigger]
            after.contains_key(g) && !satisfied(side, after[g].mole_delta);
        assert(info.contains_key(g));
        assert(towards_zero(above(info, g), above(after, g)));
        let p = place(turfs, g);
        assert(turfs[p].0 == g);
        assert(list.contains(turfs[p]));
        let q = choose|q: int| 0 <= q < list.len() && list[q] == turfs[p];
        assert(done_with(side, turfs, max_x, max_y, after, list[q].0));
        assert forall|k: TurfID| #[trigger] after.contains_key(k) implies !matches_side(
            side,
            after[k].mole_delta,
        ) by {
            assert(info.contains_key(k));
            assert(within_reach(turfs, info, max_x, max_y, g, k));
            lemma_same_reach(turfs, max_x, max_y, info, after, g, k);
        }
        match side {
            Side::Giver => {
                assert forall|k: TurfID| #[trigger] after.contains_key(k) implies above(after, k)
                    >= 0 by {
                    assert(!below_zero(after[k].mole_delta));
                }
            },
            Side::Taker => {
                assert forall|k: TurfID| #[trigger] after.contains_key(k) implies above(after, k)
                    <= 0 by {
                    assert(!above_zero(after[k].mole_delta));
                }
            },
        }
    } else {
        match side {
            Side::Giver => {
                assert forall|k: TurfID| #[trigger] after.contains_key(k) implies above(after, k)
                    <= 0 by {
                    assert(satisfied(side, after[k].mole_delta));
                }
            },
            Side::Taker => {
                assert forall|k: TurfID| #[trigger] after.contains_key(k) implies above(after, k)
                    >= 0 by {
                    assert(satisfied(side, after[k].mole_delta));
                }
            },
        }
    }
}

/// Either method levels, and leaves books on one side.
proof fn lemma_sides(
    turfs: Seq<MixWithID>,
    max_x: int,
    max_y: int,
    info: Map<TurfID, Ledger<Quanta>>,
)
    requires
        zone_ok(turfs, info),
        representable(info),
        joined(turfs, info, max_x, max_y),
    ensures
        ({
            let given = settled(
                Side::Giver,
                surplus_turfs(turfs, info),
                turfs,
                max_x,
                max_y,
                info,
            );
            let taken = settled(
                Side::Taker,
                other_turfs(turfs, info),
                turfs,
                max_x,
                max_y,
                info,
            );
            &&& levelled(turfs, info, given) && one_sided(given)
            &&& levelled(turfs, info, taken) && one_sided(taken)
        }),
{
    let givers = surplus_turfs(turfs, info);
    let takers = other_turfs(turfs, info);
    let gives = |turf: MixWithID|
        turf.1.planetary_atmos is None && above_zero(info[turf.0].mole_delta);
    let takes = |turf: MixWithID|
        turf.1.planetary_atmos is None && !above_zero(info[turf.0].mole_delta);
    lemma_known(turfs, gives);
    lemma_known(turfs, takes);
    assert forall|p: int|
        0 <= p < turfs.len() && !satisfied(
            Side::Giver,
            info[(#[trigger] turfs[p]).0].mole_delta,
        ) implies givers.contains(turfs[p]) by {
        assert(gives(turfs[p]));
    }
    lemma_one_sided(Side::Giver, givers, turfs, max_x, max_y, info);
    assert forall|p: int|
        0 <= p < turfs.len() && !satisfied(
            Side::Taker,
            info[(#[trigger] turfs[p]).0].mole_delta,
        ) implies takers.contains(turfs[p]) by {
        assert(takes(turfs[p]));
    }
    lemma_one_sided(Side::Taker, takers, turfs, max_x, max_y, info);
}

/// Matching evens a zone out as far as its gas goes: if every turf can be
/// reached from every other, then there are not both turfs above and turfs
/// below their due at the end. On the way no turf goes away from its due or
/// past it, and nothing is lost.
pub proof fn matching_leaves_one_side(
    turfs: Seq<MixWithID>,
    max_x: int,
    max_y: int,
    info: Map<TurfID, Ledger<Quanta>>,
)
    requires
        zone_ok(turfs, info),
        representable(info),
        joined(turfs, info, max_x, max_y),
    ensures
        ({
            let after = matched_up(
                surplus_turfs(turfs, info),
                other_turfs(turfs, info),
                turfs,
                max_x,
                max_y,
                info,
            );
            levelled(turfs, info, after) && one_sided(after)
        }),
{
    lemma_sides(turfs, max_x, max_y, info);
}

/// Which of the two methods is taken is a matter of speed: in a zone in which
/// every turf can be reached from every other and whose turfs, in all, are
/// neither above nor below their due, matching those above their due and
/// matching the others both leave every turf with exactly its due.
pub proof fn both_methods_level(
    turfs: Seq<MixWithID>,
    max_x: int,
    max_y: int,
    info: Map<TurfID, Ledger<Quanta>>,
)
    requires
        zone_ok(turfs, info),
        representable(info),
        joined(turfs, info, max_x, max_y),
        all_above(turfs, info, turfs.len() as int) == 0,
    ensures
        ({
            let given = settled(
                Side::Giver,
                surplus_turfs(turfs, info),
                turfs,
                max_x,
                max_y,
                info,
            );
            let taken = settled(
                Side::Taker,
                other_turfs(turfs, info),
                turfs,
                max_x,
                max_y,
                info,
            );
            forall|k: TurfID| #[trigger]
                info.contains_key(k) ==> above(given, k) == 0 && above(taken, k) == 0
        }),
{
    lemma_sides(turfs, max_x, max_y, info);
    let given = settled(Side::Giver, surplus_turfs(turfs, info), turfs, max_x, max_y, info);
    let taken = settled(Side::Taker, other_turfs(turfs, info), turfs, max_x, max_y, info);
    lemma_level_zero(turfs, info, given);
    lemma_level_zero(turfs, info, taken);
}

/// Books on one side that add up to zero are all zero.
proof fn lemma_level_zero(
    turfs: Seq<MixWithID>,
    info: Map<TurfID, Ledger<Quanta>>,
    after: Map<TurfID, Ledger<Quanta>>,
)
    requires
        zone_ok(turfs, info),
        levelled(turfs, info, after),
        one_sided(after),
        all_above(turfs, info, turfs.len() as int) == 0,
    ensures
        forall|k: TurfID| #[trigger] info.contains_key(k) ==> above(after, k) == 0,
{
    assert forall|p: int| 0 <= p < turfs.len() implies after.contains_key(
        (#[trigger] turfs[p]).0,
    ) by {
        assert(info.contains_key(turfs[p].0));
    }
    if forall|k: TurfID| #[trigger] after.contains_key(k) ==> above(after, k) >= 0 {
        lemma_all_zero(turfs, after, turfs.len() as int, 1);
    } else {
        lemma_all_zero(turfs, after, turfs.len() as int, -1);
    }
    assert forall|k: TurfID| #[trigger] info.contains_key(k) implies above(after, k) == 0 by {
        assert(holds(turfs, k));
        assert(above(after, turfs[place(turfs, k)].0) == 0);
    }
}

/// A zone in which every turf can be reached from every other is evened out as
/// far as its gas goes: nothing is lost, and there are not both turfs above and
/// turfs below their due at the end. If, in all, its turfs are neither above
/// nor below their due, then every single turf ends up with exactly its due.
pub proof fn zones_are_evened_out(
    turfs: Seq<MixWithID>,
    max_x: int,
    max_y: int,
    info: Map<TurfID, Ledger<Quanta>>,
)
    requires
        zone_ok(turfs, info),
        joined(turfs, info, max_x, max_y),
        roomy(turfs, info),
    ensures
        ({
            let end = balanced(turfs, max_x, max_y, info);
            &&& end.dom() == info.dom()
            &&& one_sided(end)
            &&& all_above(turfs, info, turfs.len() as int) == all_above(
                turfs,
                end,
                turfs.len() as int,
            )
            &&& all_above(turfs, info, turfs.len() as int) == 0 ==> forall|k: TurfID| #[trigger]
                end.contains_key(k) ==> above(end, k) == 0
        }),
{
    let start = if needs_quick_round(turfs, info) {
        all_fast_processed(turfs, turfs, max_x, max_y, info)
    } else {
        info
    };
    let end = balanced(turfs, max_x, max_y, info);
    assert forall|p: int| 0 <= p < turfs.len() implies holds(turfs, (#[trigger] turfs[p]).0) by {}
    quick_round_loses_nothing(turfs, turfs, max_x, max_y, info);
    assert(start.dom() == info.dom());
    assert(zone_ok(turfs, start)) by {
        assert forall|k: TurfID| #[trigger] start.contains_key(k) implies holds(turfs, k) by {
            assert(info.contains_key(k));
        }
        assert forall|p: int| 0 <= p < turfs.len() implies start.contains_key(
            (#[trigger] turfs[p]).0,
        ) by {
            assert(info.contains_key(turfs[p].0));
        }
    }
    assert forall|i: TurfID, j: TurfID|
        start.contains_key(i) && start.contains_key(j) implies #[trigger] within_reach(
        turfs,
        start,
        max_x,
        max_y,
        i,
        j,
    ) by {
        assert(info.contains_key(i) && info.contains_key(j));
        lemma_same_reach(turfs, max_x, max_y, info, start, i, j);
    }
    matching_leaves_one_side(turfs, max_x, max_y, start);
    assert(deficit_turfs(turfs, start) == other_turfs(turfs, start)) by {
        assert((|turf: MixWithID|
            turf.1.planetary_atmos is None && start[turf.0].mole_delta.spec_le(
                Quanta::spec_zero(),
            )) =~= (|turf: MixWithID|
            turf.1.planetary_atmos is None && !above_zero(start[turf.0].mole_delta)));
    }
    if all_above(turfs, info, turfs.len() as int) == 0 {
        lemma_level_zero(turfs, start, end);
        assert forall|k: TurfID| #[trigger] end.contains_key(k) implies above(end, k) == 0 by {
            assert(start.contains_key(k));
        }
    }
}

/// Numbers of one sign that add up to zero are all zero.
proof fn lemma_all_zero(
    turfs: Seq<MixWithID>,
    info: Map<TurfID, Ledger<Quanta>>,
    n: int,
    sign: int,
)
    requires
        0 <= n <= turfs.len(),
        sign == 1 || sign == -1,
        forall|p: int|
            0 <= p < n ==> (sign == 1 ==> above(info, (#[trigger] turfs[p]).0) >= 0) && (sign
                == -1 ==> above(info, turfs[p].0) <= 0),
    ensures
        sign == 1 ==> all_above(turfs, info, n) >= 0,
        sign == -1 ==> all_above(turfs, info, n) <= 0,
        all_above(turfs, info, n) == 0 ==> forall|p: int|
            0 <= p < n ==> above(info, (#[trigger] turfs[p]).0) == 0,
    decreases n,
{
    if n > 0 {
        lemma_all_zero(turfs, info, n - 1, sign);
        assert((sign == 1 ==> above(info, turfs[n - 1].0) >= 0) && (sign == -1 ==> above(
            info,
            turfs[n - 1].0,
        ) <= 0));
    }
}

} // verus!
