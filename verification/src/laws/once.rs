//! Everything that is booked is carried out once at most.
use vstd::prelude::*;
use crate::amount::{above_zero, Amount};
use crate::finalize::{errands, flows, source_bits, stepped, visits, Effect, Task};
use crate::grid::{adjacent, TurfID};
use crate::info::Ledger;
use crate::laws::finalize::{
    by_the_books, only_spent, steps_only_spend, visits_follow_the_books, zero_is_still,
};
use crate::laws::runs::{
    lemma_only_spent, lemma_turn_wf, lemma_visits_wf, run_on, run_wf, turn, Run,
};
use crate::tables::{books_wf, entry_of, MixWithID};

verus! {

/// How many tasks of `agenda` fit.
pub open spec fn how_many<A: Amount>(agenda: Seq<Task<A>>, fits: spec_fn(Task<A>) -> bool) -> nat
    decreases agenda.len(),
{
    if agenda.len() == 0 {
        0
    } else {
        how_many(agenda.drop_last(), fits) + if fits(agenda.last()) {
            1nat
        } else {
            0
        }
    }
}

pub proof fn lemma_how_many_add<A: Amount>(
    a: Seq<Task<A>>,
    b: Seq<Task<A>>,
    fits: spec_fn(Task<A>) -> bool,
)
    ensures
        how_many(a + b, fits) == how_many(a, fits) + how_many(b, fits),
    decreases b.len(),
{
    if b.len() == 0 {
        assert(a + b =~= a);
    } else {
        assert((a + b).drop_last() =~= a + b.drop_last());
        lemma_how_many_add(a, b.drop_last(), fits);
    }
}

pub proof fn lemma_how_many_push<A: Amount>(
    a: Seq<Task<A>>,
    task: Task<A>,
    fits: spec_fn(Task<A>) -> bool,
)
    ensures
        how_many(a.push(task), fits) == how_many(a, fits) + if fits(task) {
            1nat
        } else {
            0
        },
{
    assert(a.push(task).drop_last() =~= a);
}

/// The task lets gas flow from turf `i` in direction `d`.
pub open spec fn flow_from<A: Amount>(i: TurfID, d: int) -> spec_fn(Task<A>) -> bool {
    |task: Task<A>| task matches Task::Flow { turf, dir, .. } && turf.0 == i && dir == d
}

/// The task lets gas flow between turfs, or makes such a flow felt.
pub open spec fn flow_or_blow<A: Amount>() -> spec_fn(Task<A>) -> bool {
    |task: Task<A>| task is Flow || task is Blow
}

pub proof fn lemma_visits_fit_none<A: Amount>(
    turfs: Seq<MixWithID>,
    max_x: int,
    max_y: int,
    i: TurfID,
    sources: u8,
    dir: int,
    fits: spec_fn(Task<A>) -> bool,
)
    requires
        0 <= dir <= 6,
        forall|turf: MixWithID| !fits(Task::Visit { turf }),
    ensures
        how_many(visits::<A>(turfs, max_x, max_y, i, sources, dir), fits) == 0,
    decreases 6 - dir,
{
    if dir < 6 {
        lemma_visits_fit_none(turfs, max_x, max_y, i, sources, dir + 1, fits);
        let later = visits::<A>(turfs, max_x, max_y, i, sources, dir + 1);
        let loc = adjacent(dir, i, max_x, max_y);
        if entry_of(turfs, loc) is Some {
            lemma_how_many_push(
                later,
                Task::Visit { turf: (loc, entry_of(turfs, loc)->0) },
                fits,
            );
        }
    }
}

/// Something is booked to leave turf `i` in direction `d`.
pub open spec fn leaves<A: Amount>(info: Map<TurfID, Ledger<A>>, i: TurfID, d: int) -> nat {
    if info.contains_key(i) && above_zero(info[i].transfers[d]) {
        1
    } else {
        0
    }
}

/// In how many of the first `n` directions something is booked to leave.
pub open spec fn outlets<A: Amount>(transfers: Seq<A>, n: int) -> nat
    decreases n,
{
    if n <= 0 {
        0
    } else {
        outlets(transfers, n - 1) + if above_zero(transfers[n - 1]) {
            1nat
        } else {
            0
        }
    }
}

/// The number of outlets of a turf.
pub open spec fn outlets_of<A: Amount>(info: Map<TurfID, Ledger<A>>, i: TurfID) -> nat {
    if info.contains_key(i) {
        outlets(info[i].transfers, 6)
    } else {
        0
    }
}

/// The number of outlets of all turfs below `n`.
pub open spec fn all_outlets<A: Amount>(info: Map<TurfID, Ledger<A>>, n: nat) -> nat
    decreases n,
{
    if n == 0 {
        0
    } else {
        all_outlets(info, (n - 1) as nat) + outlets_of(info, (n - 1) as u32)
    }
}

/// How many flows there are in the directions from `dir` on.
proof fn lemma_flows<A: Amount>(
    turf: MixWithID,
    transfers: Seq<A>,
    sources: u8,
    dir: int,
    i: TurfID,
    d: int,
)
    requires
        0 <= dir <= 6,
        0 <= d < 6,
    ensures
        how_many(flows(turf, transfers, sources, dir), flow_from(i, d)) <= (if turf.0 == i && dir
            <= d && above_zero(transfers[d]) {
            1nat
        } else {
            0
        }),
        how_many(flows(turf, transfers, sources, dir), flow_or_blow()) + outlets(transfers, dir)
            <= outlets(transfers, 6),
    decreases 6 - dir,
{
    if dir < 6 {
        lemma_flows(turf, transfers, sources, dir + 1, i, d);
        let later = flows(turf, transfers, sources, dir + 1);
        let amount = transfers[dir];
        let flow = Task::Flow { turf, dir: dir as u8, amount };
        let check = Task::Check { turf, sources, amount };
        lemma_how_many_push(later, flow, flow_from(i, d));
        lemma_how_many_push(later.push(flow), check, flow_from(i, d));
        lemma_how_many_push(later, flow, flow_or_blow());
        lemma_how_many_push(later.push(flow), check, flow_or_blow());
    }
}

proof fn lemma_errands<A: Amount>(turf: MixWithID, transfers: Seq<A>, i: TurfID, d: int)
    requires
        0 <= d < 6,
    ensures
        how_many(errands(turf, transfers), flow_from(i, d)) <= (if turf.0 == i && above_zero(
            transfers[d],
        ) {
            1nat
        } else {
            0
        }),
        how_many(errands(turf, transfers), flow_or_blow()) <= outlets(transfers, 6),
{
    let sources = source_bits(transfers, turf.1.adjacency, 6);
    let later = flows(turf, transfers, sources, 0);
    let amount = transfers[6];
    lemma_flows(turf, transfers, sources, 0, i, d);
    let vent = Task::Vent { mix: turf.1.mix, amount };
    let check = Task::Check { turf, sources, amount };
    lemma_how_many_push(later, vent, flow_from(i, d));
    lemma_how_many_push(later.push(vent), check, flow_from(i, d));
    lemma_how_many_push(later, vent, flow_or_blow());
    lemma_how_many_push(later.push(vent), check, flow_or_blow());
    if turf.1.planetary_atmos is Some {
        let draw = Task::Draw { mix: turf.1.mix, planet: turf.1.planetary_atmos->0, amount };
        lemma_how_many_push(later, draw, flow_from(i, d));
        lemma_how_many_push(later, draw, flow_or_blow());
    }
}

/// Spending opens no outlet.
proof fn lemma_outlets_spent<A: Amount>(
    before: Map<TurfID, Ledger<A>>,
    after: Map<TurfID, Ledger<A>>,
    i: TurfID,
    n: int,
)
    requires
        zero_is_still::<A>(),
        only_spent(before, after),
        before.contains_key(i),
        n <= 6,
    ensures
        outlets(after[i].transfers, n) <= outlets(before[i].transfers, n),
    decreases n,
{
    if n > 0 {
        lemma_outlets_spent(before, after, i, n - 1);
        let d = n - 1;
        assert(after[i].transfers[d] == before[i].transfers[d] || after[i].transfers[d]
            == A::spec_zero());
    }
}

proof fn lemma_none_left<A: Amount>(transfers: Seq<A>, n: int)
    requires
        zero_is_still::<A>(),
        n <= 6,
        forall|d: int| 0 <= d < 7 ==> #[trigger] transfers[d] == A::spec_zero(),
    ensures
        outlets(transfers, n) == 0,
    decreases n,
{
    if n > 0 {
        lemma_none_left(transfers, n - 1);
        assert(transfers[n - 1] == A::spec_zero());
    }
}

/// Spending opens no outlet anywhere; and where it closes all of a turf, there
/// are so many fewer.
proof fn lemma_all_outlets<A: Amount>(
    before: Map<TurfID, Ledger<A>>,
    after: Map<TurfID, Ledger<A>>,
    i: TurfID,
    n: nat,
)
    requires
        zero_is_still::<A>(),
        only_spent(before, after),
        n <= 0x1_0000_0000,
    ensures
        all_outlets(after, n) <= all_outlets(before, n),
        i < n && outlets_of(after, i) == 0 ==> all_outlets(after, n) + outlets_of(before, i)
            <= all_outlets(before, n),
    decreases n,
{
    if n > 0 {
        let k = (n - 1) as u32;
        lemma_all_outlets(before, after, i, (n - 1) as nat);
        assert(before.contains_key(k) == after.contains_key(k));
        if before.contains_key(k) {
            lemma_outlets_spent(before, after, k, 6);
        }
    }
}

/// How often gas was let flow from turf `i` in direction `d`.
pub open spec fn times_carried_out<A: Amount>(
    turfs: Seq<MixWithID>,
    max_x: int,
    max_y: int,
    run: Run<A>,
    answers: Seq<(A, Option<A>)>,
    i: TurfID,
    d: int,
) -> nat
    decreases answers.len(),
{
    if answers.len() == 0 {
        0
    } else {
        times_carried_out(
            turfs,
            max_x,
            max_y,
            turn(turfs, max_x, max_y, run, answers[0]),
            answers.drop_first(),
            i,
            d,
        ) + if run.agenda.len() > 0 && flow_from(i, d)(run.agenda.last()) {
            1nat
        } else {
            0
        }
    }
}

/// How many of `effects` make a flow felt.
pub open spec fn times_felt<A: Amount>(effects: Seq<Effect<A>>) -> nat
    decreases effects.len(),
{
    if effects.len() == 0 {
        0
    } else {
        times_felt(effects.drop_last()) + if effects.last() is Consider {
            1nat
        } else {
            0
        }
    }
}

proof fn lemma_times_felt<A: Amount>(effects: Seq<Effect<A>>, effect: Effect<A>)
    ensures
        times_felt(effects.push(effect)) == times_felt(effects) + if effect is Consider {
            1nat
        } else {
            0
        },
{
    assert(effects.push(effect).drop_last() =~= effects);
}

/// What one turn does to the counts.
#[verifier::rlimit(40)]
proof fn lemma_turn_counts<A: Amount>(
    turfs: Seq<MixWithID>,
    max_x: int,
    max_y: int,
    run: Run<A>,
    answer: (A, Option<A>),
    i: TurfID,
    d: int,
)
    requires
        zero_is_still::<A>(),
        run_wf(run),
        run.agenda.len() > 0,
        0 <= d < 6,
    ensures
        ({
            let next = turn(turfs, max_x, max_y, run, answer);
            let carried = if flow_from(i, d)(run.agenda.last()) {
                1nat
            } else {
                0
            };
            &&& carried + how_many(next.agenda, flow_from(i, d)) + leaves(next.info, i, d)
                <= how_many(run.agenda, flow_from(i, d)) + leaves(run.info, i, d)
            &&& times_felt(next.effects) + how_many(next.agenda, flow_or_blow()) + all_outlets(
                next.info,
                0x1_0000_0000,
            ) <= times_felt(run.effects) + how_many(run.agenda, flow_or_blow()) + all_outlets(
                run.info,
                0x1_0000_0000,
            )
        }),
{
    let next = turn(turfs, max_x, max_y, run, answer);
    let rest = run.agenda.drop_last();
    let task = run.agenda.last();
    let p = stepped(turfs, max_x, max_y, run.agenda, run.info);
    lemma_turn_wf(turfs, max_x, max_y, run, answer);
    steps_only_spend(turfs, max_x, max_y, run.agenda, run.info);
    lemma_times_felt(run.effects, p.effect);
    assert(run.info.contains_key(i) == next.info.contains_key(i));
    assert(leaves(next.info, i, d) <= leaves(run.info, i, d)) by {
        if run.info.contains_key(i) {
            assert(next.info[i].transfers[d] == run.info[i].transfers[d]
                || next.info[i].transfers[d] == A::spec_zero());
        }
    }
    lemma_all_outlets(run.info, next.info, i, 0x1_0000_0000);
    match task {
        Task::Visit { turf } => {
            if run.info.contains_key(turf.0) {
                let transfers = run.info[turf.0].transfers;
                let more = errands(turf, transfers);
                lemma_errands(turf, transfers, i, d);
                lemma_how_many_add(rest, more, flow_from(i, d));
                lemma_how_many_add(rest, more, flow_or_blow());
                assert(next.info.contains_key(turf.0));
                lemma_none_left(next.info[turf.0].transfers, 6);
                lemma_all_outlets(run.info, next.info, turf.0, 0x1_0000_0000);
                if turf.0 == i {
                    assert(next.info[i].transfers[d] == A::spec_zero());
                }
            }
        },
        Task::Check { turf, sources, amount } => {
            let more = visits::<A>(turfs, max_x, max_y, turf.0, sources, 0);
            lemma_visits_fit_none::<A>(turfs, max_x, max_y, turf.0, sources, 0, flow_from(i, d));
            lemma_visits_fit_none::<A>(
                turfs,
                max_x,
                max_y,
                turf.0,
                sources,
                0,
                flow_or_blow(),
            );
            lemma_how_many_add(rest, more, flow_from(i, d));
            lemma_how_many_add(rest, more, flow_or_blow());
        },
        Task::Flow { turf, dir, amount } => {
            let blow = Task::Blow {
                from: turf.0,
                to: adjacent(dir as int, turf.0, max_x, max_y),
                amount,
            };
            lemma_how_many_push(rest, blow, flow_from(i, d));
            lemma_how_many_push(rest, blow, flow_or_blow());
        },
        Task::Draw { mix, planet, amount } => {
            lemma_times_felt(run.effects.push(p.effect), next.effects.last());
            assert(next.effects =~= run.effects.push(p.effect).push(next.effects.last()));
        },
        _ => {},
    }
}

/// Everything that is booked to flow from a turf to another is carried out once
/// at most: of each turf and each direction, the flows that were carried out and
/// those that are still to come are no more than what was on the agenda and in
/// the books to begin with. Nor are flows felt more often than there are
/// outlets and flows to begin with.
pub proof fn flows_are_carried_out_once<A: Amount>(
    turfs: Seq<MixWithID>,
    max_x: int,
    max_y: int,
    run: Run<A>,
    answers: Seq<(A, Option<A>)>,
    i: TurfID,
    d: int,
)
    requires
        zero_is_still::<A>(),
        run_wf(run),
        0 <= d < 6,
    ensures
        ({
            let end = run_on(turfs, max_x, max_y, run, answers);
            &&& times_carried_out(turfs, max_x, max_y, run, answers, i, d) + how_many(
                end.agenda,
                flow_from(i, d),
            ) + leaves(end.info, i, d) <= how_many(run.agenda, flow_from(i, d)) + leaves(
                run.info,
                i,
                d,
            )
            &&& times_felt(end.effects) + how_many(end.agenda, flow_or_blow()) + all_outlets(
                end.info,
                0x1_0000_0000,
            ) <= times_felt(run.effects) + how_many(run.agenda, flow_or_blow()) + all_outlets(
                run.info,
                0x1_0000_0000,
            )
        }),
    decreases answers.len(),
{
    if answers.len() > 0 {
        let next = turn(turfs, max_x, max_y, run, answers[0]);
        lemma_turn_wf(turfs, max_x, max_y, run, answers[0]);
        if run.agenda.len() > 0 {
            lemma_turn_counts(turfs, max_x, max_y, run, answers[0], i, d);
        }
        flows_are_carried_out_once(turfs, max_x, max_y, next, answers.drop_first(), i, d);
    }
}

/// Every task of the agenda is a visit.
pub open spec fn visits_only<A: Amount>(agenda: Seq<Task<A>>) -> bool {
    forall|p: int| 0 <= p < agenda.len() ==> (#[trigger] agenda[p]) is Visit
}

pub proof fn lemma_visits_only<A: Amount>(agenda: Seq<Task<A>>, fits: spec_fn(Task<A>) -> bool)
    requires
        visits_only(agenda),
        forall|turf: MixWithID| !fits(Task::Visit { turf }),
    ensures
        how_many(agenda, fits) == 0,
    decreases agenda.len(),
{
    if agenda.len() > 0 {
        let front = agenda.drop_last();
        assert forall|p: int| 0 <= p < front.len() implies (#[trigger] front[p]) is Visit by {
            assert(front[p] == agenda[p]);
        }
        lemma_visits_only(front, fits);
        assert(agenda[agenda.len() - 1] is Visit);
        let turf = agenda.last()->Visit_turf;
        assert(!fits(Task::Visit { turf }));
    }
}

/// All flows of the agenda are as the books `info` say.
pub open spec fn flows_as_booked<A: Amount>(
    info: Map<TurfID, Ledger<A>>,
    agenda: Seq<Task<A>>,
) -> bool {
    forall|p: int|
        0 <= p < agenda.len() ==> ((#[trigger] agenda[p]) matches Task::Flow { turf, dir, amount }
            ==> info.contains_key(turf.0) && above_zero(amount) && amount
            == info[turf.0].transfers[dir as int])
}

pub proof fn lemma_turn_as_booked<A: Amount>(
    turfs: Seq<MixWithID>,
    max_x: int,
    max_y: int,
    start: Map<TurfID, Ledger<A>>,
    run: Run<A>,
    answer: (A, Option<A>),
)
    requires
        zero_is_still::<A>(),
        run_wf(run),
        only_spent(start, run.info),
        flows_as_booked(start, run.agenda),
    ensures
        flows_as_booked(start, turn(turfs, max_x, max_y, run, answer).agenda),
{
    let next = turn(turfs, max_x, max_y, run, answer);
    if run.agenda.len() > 0 {
        let rest = run.agenda.drop_last();
        assert forall|p: int|
            0 <= p < next.agenda.len() implies ((#[trigger] next.agenda[p]) matches Task::Flow {
            turf,
            dir,
            amount,
        } ==> start.contains_key(turf.0) && above_zero(amount) && amount
            == start[turf.0].transfers[dir as int]) by {
            if p < rest.len() {
                assert(next.agenda[p] == rest[p]);
                assert(rest[p] == run.agenda[p]);
            } else {
                match run.agenda.last() {
                    Task::Visit { turf } => {
                        let transfers = run.info[turf.0].transfers;
                        let more = errands(turf, transfers);
                        visits_follow_the_books(turf, transfers);
                        assert(next.agenda[p] == more[p - rest.len()]);
                        assert(by_the_books(turf, transfers, more[p - rest.len()]));
                        if let Task::Flow { turf: from, dir, amount } = next.agenda[p] {
                            assert(start.contains_key(turf.0));
                            assert(run.info[turf.0].transfers[dir as int]
                                == start[turf.0].transfers[dir as int]
                                || run.info[turf.0].transfers[dir as int] == A::spec_zero());
                        }
                    },
                    Task::Check { turf, sources, amount } => {
                        let more = visits::<A>(turfs, max_x, max_y, turf.0, sources, 0);
                        lemma_visits_wf::<A>(turfs, max_x, max_y, turf.0, sources, 0);
                        assert(next.agenda[p] == more[p - rest.len()]);
                    },
                    _ => {},
                }
            }
        }
    }
}

/// Gas flows as it was booked: whenever it is let flow between turfs, it is as
/// much as the books said to begin with.
pub proof fn flows_follow_the_first_books<A: Amount>(
    turfs: Seq<MixWithID>,
    max_x: int,
    max_y: int,
    start: Map<TurfID, Ledger<A>>,
    run: Run<A>,
    answers: Seq<(A, Option<A>)>,
)
    requires
        zero_is_still::<A>(),
        run_wf(run),
        only_spent(start, run.info),
        flows_as_booked(start, run.agenda),
    ensures
        flows_as_booked(start, run_on(turfs, max_x, max_y, run, answers).agenda),
    decreases answers.len(),
{
    if answers.len() > 0 {
        let next = turn(turfs, max_x, max_y, run, answers[0]);
        lemma_turn_wf(turfs, max_x, max_y, run, answers[0]);
        lemma_turn_as_booked(turfs, max_x, max_y, start, run, answers[0]);
        lemma_only_spent(start, run.info, next.info);
        flows_follow_the_first_books(turfs, max_x, max_y, start, next, answers.drop_first());
    }
}

/// When turfs are worked off, be it one or all of a zone, then gas flows from
/// each turf in each direction once at most, and not at all if nothing was
/// booked to leave there. Flows are felt no more often than there were outlets.
pub proof fn booked_flows_happen_once<A: Amount>(
    turfs: Seq<MixWithID>,
    max_x: int,
    max_y: int,
    agenda: Seq<Task<A>>,
    info: Map<TurfID, Ledger<A>>,
    answers: Seq<(A, Option<A>)>,
    i: TurfID,
    d: int,
)
    requires
        zero_is_still::<A>(),
        books_wf(info),
        visits_only(agenda),
        0 <= d < 6,
    ensures
        ({
            let run = Run { agenda, info, effects: Seq::empty() };
            &&& times_carried_out(turfs, max_x, max_y, run, answers, i, d) <= leaves(info, i, d)
            &&& times_felt(run_on(turfs, max_x, max_y, run, answers).effects) <= all_outlets(
                info,
                0x1_0000_0000,
            )
        }),
{
    let run = Run { agenda, info, effects: Seq::empty() };
    lemma_visits_only(agenda, flow_from(i, d));
    lemma_visits_only(agenda, flow_or_blow());
    flows_are_carried_out_once(turfs, max_x, max_y, run, answers, i, d);
}

} // verus!
