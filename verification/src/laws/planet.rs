//! What sending gas to a planet keeps.
use vstd::prelude::*;
use crate::amount::{exact, signed, Amount};
use crate::balance::{
    booked, flow_in_step, holdings, in_step, lemma_booked_in_step, lemma_group, lemma_holdings,
    lemma_same_outflow, lemma_second, lemma_sum_plus, lemma_undo, outflow, sum,
};
use crate::grid::{adjacent, lemma_neighbours, neighbours, opposite, opposite_step_returns, TurfID};
use crate::info::Ledger;
use crate::laws::grid::apart;
use crate::planet::{
    all_drained, drained, ends_marked, path_step, path_steps, paths_found, planet_paths, Paths,
};
use crate::settle::rewritten;
use crate::tables::{books_wf, entry_of, holds, place, MixWithID};

verus! {

/// No turf of `planet_turfs` belongs to the zone.
pub open spec fn outside(planet_turfs: Seq<MixWithID>, turfs: Seq<MixWithID>) -> bool {
    forall|p: int| 0 <= p < planet_turfs.len() ==> !holds(turfs, (#[trigger] planet_turfs[p]).0)
}

/// `after` has the books of `before`, and blank transfers for all other turfs.
spec fn extends<A: Amount>(
    before: Map<TurfID, Ledger<A>>,
    after: Map<TurfID, Ledger<A>>,
) -> bool {
    &&& books_wf(after)
    &&& forall|k: TurfID| #[trigger]
        before.contains_key(k) ==> after.contains_key(k) && after[k].transfers
            == before[k].transfers && after[k].mole_delta == before[k].mole_delta
    &&& forall|k: TurfID| #[trigger]
        after.contains_key(k) && !before.contains_key(k) ==> after[k].transfers
            == Ledger::<A>::blank().transfers
}

proof fn lemma_ends_marked<A: Amount>(
    info: Map<TurfID, Ledger<A>>,
    planet_turfs: Seq<MixWithID>,
)
    requires
        books_wf(info),
    ensures
        extends(info, ends_marked(info, planet_turfs)),
    decreases planet_turfs.len(),
{
    if planet_turfs.len() > 0 {
        lemma_ends_marked(info, planet_turfs.drop_last());
        let between = ends_marked(info, planet_turfs.drop_last());
        let after = ends_marked(info, planet_turfs);
        assert forall|k: TurfID| #[trigger] after.contains_key(k) implies after[k].wf() by {
            assert(between.contains_key(k) ==> between[k].wf());
        }
        assert forall|k: TurfID| #[trigger]
            after.contains_key(k) && !info.contains_key(k) implies after[k].transfers
            == Ledger::<A>::blank().transfers by {
            assert(between.contains_key(k) ==> between[k].transfers
                == Ledger::<A>::blank().transfers);
        }
    }
}

proof fn lemma_path_steps<A: Amount>(
    info: Map<TurfID, Ledger<A>>,
    turfs: Seq<MixWithID>,
    limit: int,
    paths: Paths<A>,
    i: TurfID,
    nth: int,
    steps: Seq<(u8, TurfID)>,
)
    requires
        extends(info, paths.info),
        forall|k: int| 0 <= k < steps.len() ==> (#[trigger] steps[k]).0 < 6,
    ensures
        extends(info, path_steps(turfs, limit, paths, i, nth, steps).info),
    decreases steps.len(),
{
    if steps.len() > 0 {
        let next = path_step(turfs, limit, paths, i, nth, steps[0]);
        assert(steps[0].0 < 6);
        assert(extends(info, next.info)) by {
            assert forall|k: TurfID| #[trigger] next.info.contains_key(k) implies next.info[k].wf() by {
                assert(paths.info.contains_key(k));
                assert(paths.info[k].wf());
            }
            assert forall|k: TurfID| #[trigger]
                next.info.contains_key(k) && !info.contains_key(k) implies next.info[k].transfers
                == Ledger::<A>::blank().transfers by {
                assert(paths.info.contains_key(k));
            }
        }
        lemma_path_steps(info, turfs, limit, next, i, nth, steps.drop_first());
    }
}

proof fn lemma_paths_found<A: Amount>(
    info: Map<TurfID, Ledger<A>>,
    turfs: Seq<MixWithID>,
    max_x: int,
    max_y: int,
    limit: int,
    paths: Paths<A>,
    at: int,
)
    requires
        extends(info, paths.info),
        forall|k: TurfID| #[trigger] info.contains_key(k) ==> holds(turfs, k),
        0 <= at,
    ensures
        extends(info, paths_found(turfs, max_x, max_y, limit, paths, at).info),
    decreases 0x1_0000_0000 - at,
{
    if at < paths.order.len() && at < 0x1_0000_0000 {
        let i = paths.order[at];
        match entry_of(turfs, i) {
            None => {
                let next = Paths {
                    info: rewritten(paths.info, i, Ledger::blank()),
                    ..paths
                };
                assert(!info.contains_key(i));
                assert(extends(info, next.info)) by {
                    assert forall|k: TurfID| #[trigger] next.info.contains_key(k) implies next.info[k].wf() by {
                        assert(paths.info.contains_key(k));
                        assert(paths.info[k].wf());
                    }
                    assert forall|k: TurfID| #[trigger]
                        next.info.contains_key(k) && !info.contains_key(
                            k,
                        ) implies next.info[k].transfers == Ledger::<A>::blank().transfers by {
                        assert(paths.info.contains_key(k));
                    }
                }
                lemma_paths_found(info, turfs, max_x, max_y, limit, next, at + 1);
            },
            Some(m) => {
                let steps = neighbours(m.adjacency, i, max_x, max_y, 0, 6);
                lemma_neighbours(m.adjacency, i, max_x, max_y, 0, 6);
                lemma_path_steps(info, turfs, limit, paths, i, at + 1, steps);
                let next = path_steps(turfs, limit, paths, i, at + 1, steps);
                lemma_paths_found(info, turfs, max_x, max_y, limit, next, at + 1);
            },
        }
    }
}

/// Blank books keep all books in step.
proof fn lemma_extends_in_step<A: Amount>(
    before: Map<TurfID, Ledger<A>>,
    after: Map<TurfID, Ledger<A>>,
    max_x: int,
    max_y: int,
)
    requires
        extends(before, after),
        in_step(before, max_x, max_y),
    ensures
        in_step(after, max_x, max_y),
{
    assert forall|i: TurfID, dir: int| 0 <= dir < 6 implies #[trigger] outflow(after, i, dir)
        == outflow(before, i, dir) by {
        assert(before.contains_key(i) ==> after.contains_key(i));
    }
    assert forall|i: TurfID, dir: int| 0 <= dir < 6 implies #[trigger] flow_in_step(
        after,
        i,
        dir,
        max_x,
        max_y,
    ) by {
        let loc = adjacent(dir, i, max_x, max_y);
        assert(flow_in_step(before, i, dir, max_x, max_y));
        assert(outflow(after, i, dir) == outflow(before, i, dir));
        assert(outflow(after, loc, opposite(dir)) == outflow(before, loc, opposite(dir)));
    }
}

/// All turfs of `before` have kept their books and their holdings.
pub open spec fn keeps_holdings<A: Amount>(
    before: Map<TurfID, Ledger<A>>,
    after: Map<TurfID, Ledger<A>>,
) -> bool {
    forall|k: TurfID| #[trigger]
        before.contains_key(k) ==> after.contains_key(k) && holdings(after[k]) == holdings(
            before[k],
        )
}

/// A turf that sends all above a target along its path keeps its holdings, and
/// so do all others.
pub proof fn draining_conserves<A: Amount>(
    info: Map<TurfID, Ledger<A>>,
    i: TurfID,
    turfs: Seq<MixWithID>,
    max_x: int,
    max_y: int,
    target: A,
)
    requires
        books_wf(info),
    ensures
        books_wf(drained(info, i, turfs, max_x, max_y, target)),
        exact::<A>() ==> keeps_holdings(info, drained(info, i, turfs, max_x, max_y, target)),
        drained(info, i, turfs, max_x, max_y, target).dom() == info.dom(),
        signed::<A>() && in_step(info, max_x, max_y) && apart(max_x, max_y) ==> in_step(
            drained(info, i, turfs, max_x, max_y, target),
            max_x,
            max_y,
        ),
{
    let after = drained(info, i, turfs, max_x, max_y, target);
    if info.contains_key(i) && after != info {
        let own = info[i];
        let dir = own.curr_transfer_dir;
        let airflow = own.mole_delta.spec_minus(target);
        let loc = adjacent(dir, i, max_x, max_y);
        assert(own.wf());
        assert(exact::<A>() ==> holdings(after[i]) == holdings(own)) by {
            if exact::<A>() {
                // t + (s + (d - t)) == d + s
                let d = own.mole_delta;
                let s = sum(own.transfers);
                lemma_sum_plus(own.transfers, dir, airflow);
                lemma_second(s, d, target);
                lemma_group(target, s.spec_plus(airflow), target);
                lemma_undo(s.spec_plus(d), target);
                lemma_group(s, d, d);
            }
        }
        if dir != 6 {
            assert(info[loc].wf());
            opposite_step_returns(dir, i, max_x, max_y);
            if exact::<A>() {
                lemma_holdings(info[loc], opposite(dir), airflow);
            }
        }
        assert(after.dom() =~= info.dom());
        assert forall|k: TurfID| #[trigger] after.contains_key(k) implies after[k].wf() by {
            assert(info.contains_key(k));
            assert(info[k].wf());
        }
        if signed::<A>() && in_step(info, max_x, max_y) && apart(max_x, max_y) {
            if dir == 6 {
                assert forall|k: TurfID, d: int| 0 <= d < 6 implies #[trigger] outflow(after, k, d)
                    == outflow(info, k, d) by {}
                lemma_same_outflow(info, after, max_x, max_y);
            } else {
                assert(booked(info, after, i, dir, airflow, max_x, max_y));
                lemma_booked_in_step(info, after, i, dir, airflow, max_x, max_y);
            }
        }
    }
}

proof fn lemma_all_drained<A: Amount>(
    info: Map<TurfID, Ledger<A>>,
    order: Seq<TurfID>,
    turfs: Seq<MixWithID>,
    max_x: int,
    max_y: int,
    target: A,
)
    requires
        books_wf(info),
    ensures
        books_wf(all_drained(info, order, turfs, max_x, max_y, target)),
        all_drained(info, order, turfs, max_x, max_y, target).dom() == info.dom(),
        exact::<A>() ==> keeps_holdings(
            info,
            all_drained(info, order, turfs, max_x, max_y, target),
        ),
        signed::<A>() && in_step(info, max_x, max_y) && apart(max_x, max_y) ==> in_step(
            all_drained(info, order, turfs, max_x, max_y, target),
            max_x,
            max_y,
        ),
    decreases order.len(),
{
    if order.len() > 0 {
        let next = drained(info, order.last(), turfs, max_x, max_y, target);
        draining_conserves(info, order.last(), turfs, max_x, max_y, target);
        lemma_all_drained(next, order.drop_last(), turfs, max_x, max_y, target);
        let end = all_drained(info, order, turfs, max_x, max_y, target);
        assert forall|k: TurfID| #[trigger]
            info.contains_key(k) && exact::<A>() implies end.contains_key(k) && holdings(end[k])
            == holdings(info[k]) by {
            assert(next.contains_key(k));
        }
    }
}

/// Sending the surplus of a zone to its planet keeps the holdings of all turfs
/// of the zone, if amounts are exact, and leaves books in step that were in
/// step, if they are signed: what a turf is above its due is either still there
/// or booked to leave it.
pub proof fn planet_step_conserves<A: Amount>(
    planet_turfs: Seq<MixWithID>,
    turfs: Seq<MixWithID>,
    max_x: int,
    max_y: int,
    limit: int,
    info: Map<TurfID, Ledger<A>>,
    target: A,
)
    requires
        books_wf(info),
        forall|k: TurfID| #[trigger] info.contains_key(k) ==> holds(turfs, k),
    ensures
        ({
            let paths = planet_paths(planet_turfs, turfs, max_x, max_y, limit, info);
            let end = all_drained(paths.info, paths.order, turfs, max_x, max_y, target);
            &&& books_wf(end)
            &&& info.dom().subset_of(end.dom())
            &&& exact::<A>() ==> keeps_holdings(info, end)
            &&& signed::<A>() && in_step(info, max_x, max_y) && apart(max_x, max_y) ==> in_step(
                end,
                max_x,
                max_y,
            )
        }),
{
    let start = Paths {
        info: ends_marked(info, planet_turfs),
        order: planet_turfs.map_values(|turf: MixWithID| turf.0),
        firelocks: Seq::empty(),
    };
    lemma_ends_marked(info, planet_turfs);
    lemma_paths_found(info, turfs, max_x, max_y, limit, start, 0);
    let paths = planet_paths(planet_turfs, turfs, max_x, max_y, limit, info);
    if in_step(info, max_x, max_y) {
        lemma_extends_in_step(info, paths.info, max_x, max_y);
    }
    lemma_all_drained(paths.info, paths.order, turfs, max_x, max_y, target);
    let end = all_drained(paths.info, paths.order, turfs, max_x, max_y, target);
    assert forall|k: TurfID| #[trigger] info.contains_key(k) implies end.contains_key(k) && (
    exact::<A>() ==> holdings(end[k]) == holdings(info[k])) by {
        assert(paths.info.contains_key(k));
    }
}

/// `after` is `before` with blank books for the turfs of `planet_turfs`.
pub open spec fn blanks_added<A: Amount>(
    before: Map<TurfID, Ledger<A>>,
    planet_turfs: Seq<MixWithID>,
) -> Map<TurfID, Ledger<A>> {
    Map::new(
        |k: TurfID| before.contains_key(k) || holds(planet_turfs, k),
        |k: TurfID|
            if before.contains_key(k) {
                before[k]
            } else {
                Ledger::blank()
            },
    )
}

proof fn lemma_ends_blank<A: Amount>(
    info: Map<TurfID, Ledger<A>>,
    planet_turfs: Seq<MixWithID>,
)
    requires
        forall|p: int|
            0 <= p < planet_turfs.len() ==> !info.contains_key((#[trigger] planet_turfs[p]).0),
    ensures
        ends_marked(info, planet_turfs) == blanks_added(info, planet_turfs),
    decreases planet_turfs.len(),
{
    if planet_turfs.len() == 0 {
        assert forall|k: TurfID| !holds(planet_turfs, k) by {}
    } else {
        let front = planet_turfs.drop_last();
        let i = planet_turfs.last().0;
        assert forall|p: int| 0 <= p < front.len() implies !info.contains_key(
            (#[trigger] front[p]).0,
        ) by {
            assert(front[p] == planet_turfs[p]);
        }
        lemma_ends_blank(info, front);
        assert(!info.contains_key(planet_turfs[planet_turfs.len() - 1].0));
        assert forall|k: TurfID| #[trigger] holds(planet_turfs, k) == (holds(front, k) || k == i) by {
            assert(planet_turfs[planet_turfs.len() - 1].0 == i);
            if holds(front, k) {
                assert(planet_turfs[place(front, k)].0 == k);
            }
            if holds(planet_turfs, k) && k != i {
                assert(front[place(planet_turfs, k)].0 == k);
            }
        }
    }
    assert(ends_marked(info, planet_turfs) =~= blanks_added(info, planet_turfs));
}

proof fn lemma_no_paths<A: Amount>(
    info: Map<TurfID, Ledger<A>>,
    planet_turfs: Seq<MixWithID>,
    turfs: Seq<MixWithID>,
    max_x: int,
    max_y: int,
    limit: int,
    paths: Paths<A>,
    at: int,
)
    requires
        outside(planet_turfs, turfs),
        forall|k: TurfID| #[trigger] info.contains_key(k) ==> holds(turfs, k),
        paths.info == blanks_added(info, planet_turfs),
        paths.order == planet_turfs.map_values(|turf: MixWithID| turf.0),
        0 <= at,
    ensures
        paths_found(turfs, max_x, max_y, limit, paths, at) == paths,
    decreases 0x1_0000_0000 - at,
{
    if at < paths.order.len() && at < 0x1_0000_0000 {
        let i = paths.order[at];
        assert(i == planet_turfs[at].0);
        assert(!holds(turfs, planet_turfs[at].0));
        assert(holds(planet_turfs, i));
        assert(rewritten(paths.info, i, Ledger::blank()) =~= paths.info);
        lemma_no_paths(info, planet_turfs, turfs, max_x, max_y, limit, paths, at + 1);
    }
}

proof fn lemma_none_drained<A: Amount>(
    info: Map<TurfID, Ledger<A>>,
    order: Seq<TurfID>,
    turfs: Seq<MixWithID>,
    max_x: int,
    max_y: int,
    target: A,
)
    requires
        forall|p: int| 0 <= p < order.len() ==> !holds(turfs, #[trigger] order[p]),
    ensures
        all_drained(info, order, turfs, max_x, max_y, target) == info,
    decreases order.len(),
{
    if order.len() > 0 {
        assert(!holds(turfs, order[order.len() - 1]));
        lemma_none_drained(info, order.drop_last(), turfs, max_x, max_y, target);
    }
}

/// Where no planet turf belongs to the zone, nothing is sent to the planet and
/// no firelock is considered: the planet turfs get blank books, and all other
/// books stay as they are.
pub proof fn planets_outside_take_nothing<A: Amount>(
    planet_turfs: Seq<MixWithID>,
    turfs: Seq<MixWithID>,
    max_x: int,
    max_y: int,
    limit: int,
    info: Map<TurfID, Ledger<A>>,
    target: A,
)
    requires
        outside(planet_turfs, turfs),
        forall|k: TurfID| #[trigger] info.contains_key(k) ==> holds(turfs, k),
    ensures
        ({
            let paths = planet_paths(planet_turfs, turfs, max_x, max_y, limit, info);
            &&& paths.firelocks.len() == 0
            &&& all_drained(paths.info, paths.order, turfs, max_x, max_y, target) == blanks_added(
                info,
                planet_turfs,
            )
        }),
{
    lemma_ends_blank(info, planet_turfs);
    let order = planet_turfs.map_values(|turf: MixWithID| turf.0);
    let start = Paths {
        info: ends_marked(info, planet_turfs),
        order,
        firelocks: Seq::empty(),
    };
    lemma_no_paths(info, planet_turfs, turfs, max_x, max_y, limit, start, 0);
    assert forall|p: int| 0 <= p < order.len() implies !holds(turfs, #[trigger] order[p]) by {
        assert(order[p] == planet_turfs[p].0);
    }
    lemma_none_drained(start.info, order, turfs, max_x, max_y, target);
}

/// Blank books for turfs that have none leave books in step that were in step.
pub proof fn blanks_stay_in_step<A: Amount>(
    info: Map<TurfID, Ledger<A>>,
    planet_turfs: Seq<MixWithID>,
    max_x: int,
    max_y: int,
)
    requires
        books_wf(info),
        in_step(info, max_x, max_y),
    ensures
        in_step(blanks_added(info, planet_turfs), max_x, max_y),
{
    let after = blanks_added(info, planet_turfs);
    assert forall|k: TurfID| #[trigger] after.contains_key(k) implies after[k].wf() by {
        assert(info.contains_key(k) ==> info[k].wf());
    }
    lemma_extends_in_step(info, after, max_x, max_y);
}

} // verus!
