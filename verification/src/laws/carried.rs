//! Everything that is booked to flow is carried out.
use vstd::prelude::*;
use crate::amount::{above_zero, opposed, Amount};
use crate::balance::{flow_in_step, outflow, paired};
use crate::finalize::{errands, flows, source_bits, stepped, visits, Effect, Task};
use crate::grid::{adjacent, opposite, opposite_step_returns, TurfID};
use crate::info::Ledger;
use crate::laws::breadth::opens_to;
use crate::laws::finalize::{
    by_the_books, only_spent, spent, visited_turfs_stay_spent, visits_follow_the_books,
    zero_is_still,
};
use crate::laws::once::{
    flow_from, flows_as_booked, how_many, leaves, lemma_how_many_add, lemma_how_many_push,
    lemma_turn_as_booked, lemma_visits_fit_none, lemma_visits_only, times_carried_out,
    visits_only,
};
use crate::laws::runs::{finishes, lemma_only_spent, lemma_turn_wf, run_wf, turn, Run};
use crate::quanta::Quanta;
use crate::tables::{books_wf, entry_of, MixWithID};

verus! {

/// No two amounts above zero are opposed.
pub open spec fn one_sign<A: Amount>() -> bool {
    forall|a: A, b: A| above_zero(a) && above_zero(b) ==> !#[trigger] opposed(a, b)
}

/// All visits on the agenda are to turfs of the zone, as the zone knows them.
pub open spec fn known_visits<A: Amount>(turfs: Seq<MixWithID>, agenda: Seq<Task<A>>) -> bool {
    forall|p: int|
        0 <= p < agenda.len() ==> ((#[trigger] agenda[p]) matches Task::Visit { turf } ==> entry_of(
            turfs,
            turf.0,
        ) == Some(turf.1))
}

/// A visit to turf `i` is on the agenda.
pub open spec fn to_visit<A: Amount>(agenda: Seq<Task<A>>, i: TurfID) -> bool {
    exists|p: int|
        0 <= p < agenda.len() && ((#[trigger] agenda[p]) matches Task::Visit { turf } && turf.0
            == i)
}

/// How many flows from turf `i` in direction `d` are still to come.
pub open spec fn to_come<A: Amount>(run: Run<A>, i: TurfID, d: int) -> nat {
    how_many(run.agenda, flow_from(i, d)) + leaves(run.info, i, d)
}

/// Gas is booked to flow from turf `i` in direction `d`, and can flow there.
pub open spec fn can_flow<A: Amount>(
    turfs: Seq<MixWithID>,
    info: Map<TurfID, Ledger<A>>,
    i: TurfID,
    d: int,
) -> bool {
    &&& 0 <= d < 6
    &&& info.contains_key(i)
    &&& above_zero(info[i].transfers[d])
    &&& entry_of(turfs, i) matches Some(mixture) && opens_to(mixture.adjacency, d as u8)
}

/// The visits that a check leads to are to turfs of the zone.
pub proof fn lemma_visits_known<A: Amount>(
    turfs: Seq<MixWithID>,
    max_x: int,
    max_y: int,
    i: TurfID,
    sources: u8,
    dir: int,
)
    requires
        0 <= dir <= 6,
    ensures
        known_visits(turfs, visits::<A>(turfs, max_x, max_y, i, sources, dir)),
        forall|p: int|
            #![trigger visits::<A>(turfs, max_x, max_y, i, sources, dir)[p]]
            0 <= p < visits::<A>(turfs, max_x, max_y, i, sources, dir).len() ==> (visits::<A>(
                turfs,
                max_x,
                max_y,
                i,
                sources,
                dir,
            )[p] matches Task::Visit { turf } && exists|j: u8|
                dir <= j < 6 && #[trigger] opens_to(sources, j) && turf.0 == adjacent(
                    j as int,
                    i,
                    max_x,
                    max_y,
                )),
        forall|j: u8|
            dir <= j < 6 && #[trigger] opens_to(sources, j) && entry_of(
                turfs,
                adjacent(j as int, i, max_x, max_y),
            ) is Some ==> to_visit(
                visits::<A>(turfs, max_x, max_y, i, sources, dir),
                adjacent(j as int, i, max_x, max_y),
            ),
    decreases 6 - dir,
{
    if dir < 6 {
        lemma_visits_known::<A>(turfs, max_x, max_y, i, sources, dir + 1);
        let later = visits::<A>(turfs, max_x, max_y, i, sources, dir + 1);
        let all = visits::<A>(turfs, max_x, max_y, i, sources, dir);
        let loc = adjacent(dir, i, max_x, max_y);
        assert forall|p: int| 0 <= p < all.len() implies ((#[trigger] all[p]) matches Task::Visit {
            turf,
        } && entry_of(turfs, turf.0) == Some(turf.1) && exists|j: u8|
            dir <= j < 6 && #[trigger] opens_to(sources, j) && turf.0 == adjacent(
                j as int,
                i,
                max_x,
                max_y,
            )) by {
            if p < later.len() {
                assert(all[p] == later[p]);
            } else {
                assert(opens_to(sources, dir as u8));
            }
        }
        assert forall|j: u8|
            dir <= j < 6 && #[trigger] opens_to(sources, j) && entry_of(
                turfs,
                adjacent(j as int, i, max_x, max_y),
            ) is Some implies to_visit(all, adjacent(j as int, i, max_x, max_y)) by {
            if j == dir {
                let turf = (loc, entry_of(turfs, loc)->0);
                assert(all[later.len() as int] == Task::<A>::Visit { turf });
            } else {
                let k = adjacent(j as int, i, max_x, max_y);
                let p = choose|p: int|
                    0 <= p < later.len() && ((#[trigger] later[p]) matches Task::Visit { turf }
                        && turf.0 == k);
                assert(all[p] == later[p]);
            }
        }
    }
}

proof fn lemma_flows_exact<A: Amount>(
    turf: MixWithID,
    transfers: Seq<A>,
    sources: u8,
    dir: int,
    i: TurfID,
    d: int,
)
    requires
        0 <= dir <= 6,
        0 <= d < 6,
    ensures
        how_many(flows(turf, transfers, sources, dir), flow_from(i, d)) == (if turf.0 == i && dir
            <= d && opens_to(turf.1.adjacency, d as u8) && above_zero(transfers[d]) {
            1nat
        } else {
            0
        }),
    decreases 6 - dir,
{
    if dir < 6 {
        lemma_flows_exact(turf, transfers, sources, dir + 1, i, d);
        let later = flows(turf, transfers, sources, dir + 1);
        let amount = transfers[dir];
        let flow = Task::Flow { turf, dir: dir as u8, amount };
        let check = Task::Check { turf, sources, amount };
        lemma_how_many_push(later, flow, flow_from(i, d));
        lemma_how_many_push(later.push(flow), check, flow_from(i, d));
    }
}

proof fn lemma_errands_exact<A: Amount>(turf: MixWithID, transfers: Seq<A>, i: TurfID, d: int)
    requires
        0 <= d < 6,
    ensures
        how_many(errands(turf, transfers), flow_from(i, d)) == (if turf.0 == i && opens_to(
            turf.1.adjacency,
            d as u8,
        ) && above_zero(transfers[d]) {
            1nat
        } else {
            0
        }),
{
    let sources = source_bits(transfers, turf.1.adjacency, 6);
    let later = flows(turf, transfers, sources, 0);
    let amount = transfers[6];
    lemma_flows_exact(turf, transfers, sources, 0, i, d);
    let vent = Task::Vent { mix: turf.1.mix, amount };
    let check = Task::Check { turf, sources, amount };
    lemma_how_many_push(later, vent, flow_from(i, d));
    lemma_how_many_push(later.push(vent), check, flow_from(i, d));
    if turf.1.planetary_atmos is Some {
        let draw = Task::Draw { mix: turf.1.mix, planet: turf.1.planetary_atmos->0, amount };
        lemma_how_many_push(later, draw, flow_from(i, d));
    }
}

/// Where gas is booked to leave for a neighbour, none is booked to come in from
/// there.
proof fn lemma_one_way<A: Amount>(
    info: Map<TurfID, Ledger<A>>,
    i: TurfID,
    d: int,
    max_x: int,
    max_y: int,
)
    requires
        one_sign::<A>(),
        paired(info, max_x, max_y),
        0 <= d < 6,
        info.contains_key(i),
        info.contains_key(adjacent(d, i, max_x, max_y)),
        above_zero(info[i].transfers[d]),
    ensures
        !above_zero(info[adjacent(d, i, max_x, max_y)].transfers[opposite(d)]),
{
    let loc = adjacent(d, i, max_x, max_y);
    let x = info[i].transfers[d];
    let y = info[loc].transfers[opposite(d)];
    assert(flow_in_step(info, i, d, max_x, max_y));
    assert(opposed(outflow(info, i, d), outflow(info, loc, opposite(d))));
    assert(opposed(x, y));
}

/// What one turn does to the flows that are to come: none is lost.
pub proof fn lemma_turn_exact<A: Amount>(
    turfs: Seq<MixWithID>,
    max_x: int,
    max_y: int,
    start: Map<TurfID, Ledger<A>>,
    run: Run<A>,
    answer: (A, Option<A>),
    i: TurfID,
    d: int,
)
    requires
        zero_is_still::<A>(),
        one_sign::<A>(),
        paired(start, max_x, max_y),
        run_wf(run),
        only_spent(start, run.info),
        flows_as_booked(start, run.agenda),
        known_visits(turfs, run.agenda),
        run.agenda.len() > 0,
        can_flow(turfs, start, i, d),
    ensures
        ({
            let next = turn(turfs, max_x, max_y, run, answer);
            let carried = if flow_from(i, d)(run.agenda.last()) {
                1nat
            } else {
                0
            };
            &&& carried + to_come(next, i, d) == to_come(run, i, d)
            &&& leaves(next.info, i, d) <= leaves(run.info, i, d)
        }),
{
    let next = turn(turfs, max_x, max_y, run, answer);
    let rest = run.agenda.drop_last();
    let task = run.agenda.last();
    let top = run.agenda.len() - 1;
    let p = stepped(turfs, max_x, max_y, run.agenda, run.info);
    lemma_turn_wf(turfs, max_x, max_y, run, answer);
    assert(run.agenda[top] == task);
    assert(run.info.contains_key(i) && next.info.contains_key(i));
    assert(next.info[i].transfers[d] == run.info[i].transfers[d] || next.info[i].transfers[d]
        == A::spec_zero());
    match task {
        Task::Visit { turf } => {
            if run.info.contains_key(turf.0) {
                let transfers = run.info[turf.0].transfers;
                let more = errands(turf, transfers);
                lemma_errands_exact(turf, transfers, i, d);
                lemma_how_many_add(rest, more, flow_from(i, d));
                if turf.0 == i {
                    assert(next.info[i].transfers[d] == A::spec_zero());
                    assert(entry_of(turfs, turf.0) == Some(turf.1));
                }
            }
        },
        Task::Check { turf, sources, amount } => {
            let more = visits::<A>(turfs, max_x, max_y, turf.0, sources, 0);
            lemma_visits_fit_none::<A>(turfs, max_x, max_y, turf.0, sources, 0, flow_from(i, d));
            lemma_how_many_add(rest, more, flow_from(i, d));
        },
        Task::Flow { turf, dir, amount } => {
            let loc = adjacent(dir as int, turf.0, max_x, max_y);
            let blow = Task::Blow { from: turf.0, to: loc, amount };
            lemma_how_many_push(rest, blow, flow_from(i, d));
            opposite_step_returns(dir as int, turf.0, max_x, max_y);
            assert(start.contains_key(turf.0) && amount == start[turf.0].transfers[dir as int]);
            if loc == i && opposite(dir as int) == d {
                lemma_one_way(start, turf.0, dir as int, max_x, max_y);
            }
            assert(next.info[i].transfers[d] == run.info[i].transfers[d]);
        },
        _ => {},
    }
}

/// A turn keeps all visits to turfs of the zone.
pub proof fn lemma_turn_known<A: Amount>(
    turfs: Seq<MixWithID>,
    max_x: int,
    max_y: int,
    run: Run<A>,
    answer: (A, Option<A>),
)
    requires
        known_visits(turfs, run.agenda),
    ensures
        known_visits(turfs, turn(turfs, max_x, max_y, run, answer).agenda),
{
    let next = turn(turfs, max_x, max_y, run, answer);
    if run.agenda.len() > 0 {
        let rest = run.agenda.drop_last();
        assert forall|p: int| 0 <= p < next.agenda.len() implies ((
        #[trigger] next.agenda[p]) matches Task::Visit { turf } ==> entry_of(turfs, turf.0)
            == Some(turf.1)) by {
            if p < rest.len() {
                assert(next.agenda[p] == run.agenda[p]);
            } else {
                match run.agenda.last() {
                    Task::Visit { turf } => {
                        let transfers = run.info[turf.0].transfers;
                        let more = errands(turf, transfers);
                        visits_follow_the_books(turf, transfers);
                        assert(next.agenda[p] == more[p - rest.len()]);
                        assert(by_the_books(turf, transfers, more[p - rest.len()]));
                    },
                    Task::Check { turf, sources, amount } => {
                        let more = visits::<A>(turfs, max_x, max_y, turf.0, sources, 0);
                        lemma_visits_known::<A>(turfs, max_x, max_y, turf.0, sources, 0);
                        assert(next.agenda[p] == more[p - rest.len()]);
                    },
                    _ => {},
                }
            }
        }
    }
}

/// A turf that is to be visited is visited, or still to be visited.
pub proof fn lemma_turn_to_visit<A: Amount>(
    turfs: Seq<MixWithID>,
    max_x: int,
    max_y: int,
    run: Run<A>,
    answer: (A, Option<A>),
    i: TurfID,
)
    requires
        run_wf(run),
        run.agenda.len() > 0,
        to_visit(run.agenda, i) || spent(run.info, i),
    ensures
        ({
            let next = turn(turfs, max_x, max_y, run, answer);
            to_visit(next.agenda, i) || spent(next.info, i)
        }),
{
    let next = turn(turfs, max_x, max_y, run, answer);
    let rest = run.agenda.drop_last();
    visited_turfs_stay_spent(turfs, max_x, max_y, run.agenda, run.info);
    if to_visit(run.agenda, i) {
        let p = choose|p: int|
            0 <= p < run.agenda.len() && ((#[trigger] run.agenda[p]) matches Task::Visit { turf }
                && turf.0 == i);
        if p < rest.len() {
            assert(next.agenda[p] == rest[p]);
        } else {
            assert(run.agenda.last() == run.agenda[p]);
        }
    }
}

proof fn lemma_carried_out<A: Amount>(
    turfs: Seq<MixWithID>,
    max_x: int,
    max_y: int,
    start: Map<TurfID, Ledger<A>>,
    run: Run<A>,
    answers: Seq<(A, Option<A>)>,
    i: TurfID,
    d: int,
)
    requires
        zero_is_still::<A>(),
        one_sign::<A>(),
        paired(start, max_x, max_y),
        run_wf(run),
        only_spent(start, run.info),
        flows_as_booked(start, run.agenda),
        known_visits(turfs, run.agenda),
        can_flow(turfs, start, i, d),
        to_visit(run.agenda, i) || spent(run.info, i),
        finishes(turfs, max_x, max_y, run, answers),
    ensures
        times_carried_out(turfs, max_x, max_y, run, answers, i, d) == to_come(run, i, d),
    decreases answers.len(),
{
    if answers.len() > 0 {
        let next = turn(turfs, max_x, max_y, run, answers[0]);
        lemma_turn_wf(turfs, max_x, max_y, run, answers[0]);
        lemma_turn_as_booked(turfs, max_x, max_y, start, run, answers[0]);
        lemma_only_spent(start, run.info, next.info);
        lemma_turn_known(turfs, max_x, max_y, run, answers[0]);
        lemma_turn_to_visit(turfs, max_x, max_y, run, answers[0], i);
        lemma_turn_exact(turfs, max_x, max_y, start, run, answers[0], i, d);
        lemma_carried_out(
            turfs,
            max_x,
            max_y,
            start,
            next,
            answers.drop_first(),
            i,
            d,
        );
    } else {
        assert(spent(run.info, i));
        assert(run.info.contains_key(i));
        assert(run.info[i].transfers[d] == A::spec_zero());
    }
}

/// Everything that is booked to flow is carried out: when turfs are worked off,
/// be it one or all of a zone, and pairs of books are in step, then from each of
/// them, in each direction in which gas can flow and something is booked to
/// leave, a flow is carried out exactly once, whatever is answered. It moves
/// nothing only if there is no turf of the zone in that direction.
pub proof fn booked_flows_happen<A: Amount>(
    turfs: Seq<MixWithID>,
    max_x: int,
    max_y: int,
    agenda: Seq<Task<A>>,
    info: Map<TurfID, Ledger<A>>,
    answers: Seq<(A, Option<A>)>,
    i: TurfID,
    d: int,
)
    requires
        zero_is_still::<A>(),
        one_sign::<A>(),
        books_wf(info),
        paired(info, max_x, max_y),
        visits_only(agenda),
        known_visits(turfs, agenda),
        to_visit(agenda, i),
        can_flow(turfs, info, i, d),
        finishes(
            turfs,
            max_x,
            max_y,
            (Run { agenda, info, effects: Seq::empty() }),
            answers,
        ),
    ensures
        times_carried_out(
            turfs,
            max_x,
            max_y,
            (Run { agenda, info, effects: Seq::empty() }),
            answers,
            i,
            d,
        ) == 1,
{
    let run = Run { agenda, info, effects: Seq::<Effect<A>>::empty() };
    lemma_visits_only(agenda, flow_from(i, d));
    assert(run_wf(run)) by {
        assert forall|p: int| 0 <= p < agenda.len() implies ((
        #[trigger] agenda[p]) matches Task::Flow { dir, .. } ==> dir < 6) by {
            assert(agenda[p] is Visit);
        }
    }
    assert(only_spent(info, info)) by {
        assert forall|k: TurfID| #[trigger] info.contains_key(k) implies info[k].wf() by {}
    }
    assert(flows_as_booked(info, agenda)) by {
        assert forall|p: int| 0 <= p < agenda.len() implies (#[trigger] agenda[p]) is Visit by {}
    }
    lemma_carried_out(turfs, max_x, max_y, info, run, answers, i, d);
}

/// Whole quanta have one sign.
pub proof fn quanta_have_one_sign()
    ensures
        one_sign::<Quanta>(),
{
}

} // verus!
