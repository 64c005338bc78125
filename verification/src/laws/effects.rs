//! What is asked for in all while turfs are worked off.
use vstd::prelude::*;
use crate::amount::{above_zero, Amount};
use crate::balance::paired;
use crate::finalize::{errands, stepped, visits, Effect, Task};
use crate::grid::{adjacent, TurfID};
use crate::info::Ledger;
use crate::laws::carried::{
    can_flow, known_visits, lemma_turn_exact, lemma_turn_known, lemma_turn_to_visit, one_sign,
    to_come, to_visit,
};
use crate::laws::course::visits_set_off_the_exchange;
use crate::laws::finalize::{
    by_the_books, only_spent, spent, visits_follow_the_books, zero_is_still,
};
use crate::laws::once::{
    flow_from, flows_as_booked, how_many, lemma_how_many_add, lemma_how_many_push,
    lemma_turn_as_booked, lemma_visits_fit_none, lemma_visits_only, visits_only,
};
use crate::laws::runs::{
    finishes, lemma_only_spent, lemma_turn_wf, lemma_visits_wf, run_on, run_wf, turn, Run,
};
use crate::tables::{books_wf, entry_of, MixWithID};

verus! {

/// How many of `effects` fit.
pub open spec fn times_asked<A: Amount>(
    effects: Seq<Effect<A>>,
    fits: spec_fn(Effect<A>) -> bool,
) -> nat
    decreases effects.len(),
{
    if effects.len() == 0 {
        0
    } else {
        times_asked(effects.drop_last(), fits) + if fits(effects.last()) {
            1nat
        } else {
            0
        }
    }
}

proof fn lemma_asked_push<A: Amount>(
    effects: Seq<Effect<A>>,
    effect: Effect<A>,
    fits: spec_fn(Effect<A>) -> bool,
)
    ensures
        times_asked(effects.push(effect), fits) == times_asked(effects, fits) + if fits(effect) {
            1nat
        } else {
            0
        },
{
    assert(effects.push(effect).drop_last() =~= effects);
}

/// What a turn asks for, after what was asked for before.
proof fn lemma_turn_asks<A: Amount>(
    turfs: Seq<MixWithID>,
    max_x: int,
    max_y: int,
    run: Run<A>,
    answer: (A, Option<A>),
    fits: spec_fn(Effect<A>) -> bool,
)
    requires
        run.agenda.len() > 0,
    ensures
        ({
            let next = turn(turfs, max_x, max_y, run, answer);
            let first = stepped(turfs, max_x, max_y, run.agenda, run.info).effect;
            times_asked(next.effects, fits) == times_asked(run.effects, fits) + (if fits(first) {
                1nat
            } else {
                0
            }) + (if run.agenda.last() is Draw && fits(next.effects.last()) {
                1nat
            } else {
                0
            })
        }),
{
    let next = turn(turfs, max_x, max_y, run, answer);
    let first = stepped(turfs, max_x, max_y, run.agenda, run.info).effect;
    lemma_asked_push(run.effects, first, fits);
    lemma_asked_push(run.effects.push(first), next.effects.last(), fits);
    if run.agenda.last() is Draw {
        assert(next.effects =~= run.effects.push(first).push(next.effects.last()));
    }
}

/// Gas is removed from the air `mix`, or added to it, for the sake of a planet.
pub open spec fn adds_to<A: Amount>(mix: usize) -> spec_fn(Effect<A>) -> bool {
    |effect: Effect<A>| effect matches Effect::Add { mix: m, .. } && m == mix
}

/// Gas of a planet is merged into the air `mix`.
pub open spec fn merges_into<A: Amount>(mix: usize) -> spec_fn(Effect<A>) -> bool {
    |effect: Effect<A>| effect matches Effect::Merge { mix: m, .. } && m == mix
}

spec fn vents_of<A: Amount>(mix: usize) -> spec_fn(Task<A>) -> bool {
    |task: Task<A>| task matches Task::Vent { mix: m, .. } && m == mix
}

spec fn draws_of<A: Amount>(mix: usize) -> spec_fn(Task<A>) -> bool {
    |task: Task<A>| task matches Task::Draw { mix: m, .. } && m == mix
}

/// Something is to leave the turf for its planet.
spec fn gives<A: Amount>(x: A) -> bool {
    A::spec_zero().spec_lt(x)
}

/// Something is to come in at the turf from its planet.
spec fn takes<A: Amount>(turf: MixWithID, x: A) -> bool {
    !A::spec_zero().spec_lt(x) && x.spec_lt(A::spec_zero()) && turf.1.planetary_atmos is Some
}

/// `n` if `b`, else nothing.
spec fn one_if(b: bool) -> nat {
    if b {
        1
    } else {
        0
    }
}

/// No other turf of the zone has the air of `turf`.
pub open spec fn own_air(turfs: Seq<MixWithID>, turf: MixWithID) -> bool {
    &&& entry_of(turfs, turf.0) == Some(turf.1)
    &&& forall|k: TurfID|
        (#[trigger] entry_of(turfs, k) matches Some(mixture) && mixture.mix == turf.1.mix) ==> k
            == turf.0
}

/// The exchanges of `turf` with its planet on the agenda, and what was asked for of them, are
/// as the books say to begin with: `x` is what is to leave.
spec fn exchanges_ok<A: Amount>(run: Run<A>, turf: MixWithID, x: A) -> bool {
    let mix = turf.1.mix;
    &&& forall|p: int|
        0 <= p < run.agenda.len() ==> match #[trigger] run.agenda[p] {
            Task::Vent { mix: m, amount } => m == mix ==> amount == x && gives(x),
            Task::Draw { mix: m, planet, amount } => m == mix ==> amount == x && takes(turf, x)
                && Some(planet) == turf.1.planetary_atmos,
            _ => true,
        }
    &&& forall|k: int|
        0 <= k < run.effects.len() ==> match #[trigger] run.effects[k] {
            Effect::Add { mix: m, amount } => m == mix ==> amount == x.spec_negate(),
            Effect::Merge { mix: m, planet, amount, total } => m == mix ==> amount
                == x.spec_negate() && Some(planet) == turf.1.planetary_atmos && above_zero(total),
            _ => true,
        }
    &&& run.info.contains_key(turf.0)
    &&& run.info[turf.0].transfers[6] == x || run.info[turf.0].transfers[6] == A::spec_zero()
}

/// How many exchanges of `turf` have been asked for or are still to come.
spec fn given<A: Amount>(run: Run<A>, turf: MixWithID) -> nat {
    times_asked(run.effects, adds_to(turf.1.mix)) + how_many(run.agenda, vents_of(turf.1.mix))
        + one_if(gives(run.info[turf.0].transfers[6]))
}

spec fn taken<A: Amount>(run: Run<A>, turf: MixWithID) -> nat {
    times_asked(run.effects, merges_into(turf.1.mix)) + how_many(
        run.agenda,
        draws_of(turf.1.mix),
    ) + one_if(takes(turf, run.info[turf.0].transfers[6]))
}

proof fn lemma_errand_exchanges<A: Amount>(turf: MixWithID, transfers: Seq<A>, mix: usize)
    ensures
        how_many(errands(turf, transfers), vents_of(mix)) == one_if(
            mix == turf.1.mix && gives(transfers[6]),
        ),
        how_many(errands(turf, transfers), draws_of(mix)) == one_if(
            mix == turf.1.mix && takes(turf, transfers[6]),
        ),
{
    visits_set_off_the_exchange(turf, transfers);
    visits_follow_the_books(turf, transfers);
    let tasks = errands(turf, transfers);
    let x = transfers[6];
    let vent = |task: Task<A>| task == (Task::Vent { mix: turf.1.mix, amount: x });
    let draw = |task: Task<A>|
        task == (Task::Draw {
            mix: turf.1.mix,
            planet: turf.1.planetary_atmos->0,
            amount: x,
        });
    let none = |task: Task<A>| false;
    let any = |task: Task<A>| task is Vent || task is Draw;
    assert forall|p: int| 0 <= p < tasks.len() implies by_the_books(
        turf,
        transfers,
        #[trigger] tasks[p],
    ) by {}
    lemma_none_fit(tasks, none);
    if mix == turf.1.mix {
        lemma_same_fit(tasks, vents_of(mix), vent);
        if takes(turf, x) {
            lemma_same_fit(tasks, draws_of(mix), draw);
        } else if gives(x) {
            assert forall|p: int| 0 <= p < tasks.len() implies draws_of::<A>(mix)(
                #[trigger] tasks[p],
            ) == none(tasks[p]) by {
                lemma_one_kind(tasks, any, vent, p);
            }
            lemma_same_fit(tasks, draws_of(mix), none);
        } else {
            lemma_some_fit(tasks, any);
            lemma_same_fit(tasks, draws_of(mix), none);
        }
    } else {
        lemma_same_fit(tasks, vents_of(mix), none);
        lemma_same_fit(tasks, draws_of(mix), none);
    }
}

proof fn lemma_none_fit<A: Amount>(tasks: Seq<Task<A>>, fits: spec_fn(Task<A>) -> bool)
    requires
        forall|task: Task<A>| !#[trigger] fits(task),
    ensures
        how_many(tasks, fits) == 0,
    decreases tasks.len(),
{
    if tasks.len() > 0 {
        lemma_none_fit(tasks.drop_last(), fits);
        assert(!fits(tasks.last()));
    }
}

/// If none fit in all, no single one fits.
proof fn lemma_some_fit<A: Amount>(tasks: Seq<Task<A>>, fits: spec_fn(Task<A>) -> bool)
    ensures
        forall|p: int|
            0 <= p < tasks.len() && fits(#[trigger] tasks[p]) ==> how_many(tasks, fits) > 0,
    decreases tasks.len(),
{
    if tasks.len() > 0 {
        let front = tasks.drop_last();
        lemma_some_fit(front, fits);
        assert forall|p: int| 0 <= p < tasks.len() && fits(#[trigger] tasks[p]) implies how_many(
            tasks,
            fits,
        ) > 0 by {
            if p < front.len() {
                assert(front[p] == tasks[p]);
            }
        }
    }
}

/// If as many fit `part` as fit `all`, and what fits `part` fits `all`, then each that fits the
/// one fits the other.
proof fn lemma_one_kind<A: Amount>(
    tasks: Seq<Task<A>>,
    all: spec_fn(Task<A>) -> bool,
    part: spec_fn(Task<A>) -> bool,
    p: int,
)
    requires
        0 <= p < tasks.len(),
        forall|task: Task<A>| #[trigger] part(task) ==> all(task),
        how_many(tasks, all) == how_many(tasks, part),
    ensures
        all(tasks[p]) == part(tasks[p]),
    decreases tasks.len(),
{
    let front = tasks.drop_last();
    lemma_fewer(front, all, part);
    assert(part(tasks.last()) ==> all(tasks.last()));
    assert(tasks.last() == tasks[tasks.len() - 1]);
    if p < front.len() {
        lemma_one_kind(front, all, part, p);
        assert(front[p] == tasks[p]);
    }
}

proof fn lemma_fewer<A: Amount>(
    tasks: Seq<Task<A>>,
    all: spec_fn(Task<A>) -> bool,
    part: spec_fn(Task<A>) -> bool,
)
    requires
        forall|task: Task<A>| #[trigger] part(task) ==> all(task),
    ensures
        how_many(tasks, part) <= how_many(tasks, all),
    decreases tasks.len(),
{
    if tasks.len() > 0 {
        lemma_fewer(tasks.drop_last(), all, part);
        assert(part(tasks.last()) ==> all(tasks.last()));
    }
}

proof fn lemma_same_fit<A: Amount>(
    tasks: Seq<Task<A>>,
    a: spec_fn(Task<A>) -> bool,
    b: spec_fn(Task<A>) -> bool,
)
    requires
        forall|p: int| 0 <= p < tasks.len() ==> a(#[trigger] tasks[p]) == b(tasks[p]),
    ensures
        how_many(tasks, a) == how_many(tasks, b),
    decreases tasks.len(),
{
    if tasks.len() > 0 {
        let front = tasks.drop_last();
        assert forall|p: int| 0 <= p < front.len() implies a(#[trigger] front[p]) == b(
            front[p],
        ) by {
            assert(front[p] == tasks[p]);
        }
        lemma_same_fit(front, a, b);
        assert(tasks[tasks.len() - 1] == tasks.last());
    }
}

proof fn lemma_turn_exchange<A: Amount>(
    turfs: Seq<MixWithID>,
    max_x: int,
    max_y: int,
    run: Run<A>,
    answer: (A, Option<A>),
    turf: MixWithID,
    x: A,
)
    requires
        zero_is_still::<A>(),
        run_wf(run),
        known_visits(turfs, run.agenda),
        own_air(turfs, turf),
        exchanges_ok(run, turf, x),
        run.agenda.len() > 0,
    ensures
        ({
            let next = turn(turfs, max_x, max_y, run, answer);
            &&& exchanges_ok(next, turf, x)
            &&& given(next, turf) == given(run, turf)
            &&& taken(next, turf) <= taken(run, turf)
            &&& answer.1 is Some && above_zero(answer.1->0) ==> taken(next, turf) == taken(
                run,
                turf,
            )
        }),
{
    let i = turf.0;
    let mix = turf.1.mix;
    let z = A::spec_zero();
    let next = turn(turfs, max_x, max_y, run, answer);
    let rest = run.agenda.drop_last();
    let top = run.agenda.len() - 1;
    let task = run.agenda.last();
    let add = adds_to::<A>(mix);
    let merge = merges_into::<A>(mix);
    assert(run.agenda[top] == task);
    lemma_turn_wf(turfs, max_x, max_y, run, answer);
    lemma_turn_asks(turfs, max_x, max_y, run, answer, add);
    lemma_turn_asks(turfs, max_x, max_y, run, answer, merge);
    assert(next.info.contains_key(i));
    assert(next.info[i].transfers[6] == run.info[i].transfers[6] || next.info[i].transfers[6] == z);
    assert(rest.is_prefix_of(next.agenda));
    assert(run.effects.is_prefix_of(next.effects));
    match task {
        Task::Visit { turf: other } => {
            assert(entry_of(turfs, other.0) == Some(other.1));
            if run.info.contains_key(other.0) {
                let t = run.info[other.0].transfers;
                let more = errands(other, t);
                lemma_how_many_add(rest, more, vents_of(mix));
                lemma_how_many_add(rest, more, draws_of(mix));
                lemma_errand_exchanges(other, t, mix);
                visits_follow_the_books(other, t);
                if other.1.mix == mix {
                    assert(other == turf);
                    assert(next.info[i].transfers[6] == z);
                } else {
                    assert(other.0 != i);
                    assert(next.info[i] == run.info[i]);
                }
                assert forall|p: int| 0 <= p < next.agenda.len() implies match #[trigger] next.agenda[p] {
                    Task::Vent { mix: m, amount } => m == mix ==> amount == x && gives(x),
                    Task::Draw { mix: m, planet, amount } => m == mix ==> amount == x && takes(
                        turf,
                        x,
                    ) && Some(planet) == turf.1.planetary_atmos,
                    _ => true,
                } by {
                    if p < top {
                        assert(next.agenda[p] == run.agenda[p]);
                    } else {
                        assert(next.agenda[p] == more[p - top]);
                        assert(by_the_books(other, t, more[p - top]));
                        if next.agenda[p] is Draw {
                            assert(draws_of::<A>(other.1.mix)(more[p - top]));
                            lemma_some_fit(more, draws_of(other.1.mix));
                            lemma_errand_exchanges(other, t, other.1.mix);
                        }
                    }
                }
            } else {
                assert(next.agenda == rest);
                assert forall|p: int| 0 <= p < next.agenda.len() implies #[trigger] next.agenda[p]
                    == run.agenda[p] by {}
            }
        },
        Task::Check { turf: other, sources, amount } => {
            let more = visits::<A>(turfs, max_x, max_y, other.0, sources, 0);
            lemma_visits_wf::<A>(turfs, max_x, max_y, other.0, sources, 0);
            lemma_visits_fit_none::<A>(
                turfs,
                max_x,
                max_y,
                other.0,
                sources,
                0,
                vents_of(mix),
            );
            lemma_visits_fit_none::<A>(
                turfs,
                max_x,
                max_y,
                other.0,
                sources,
                0,
                draws_of(mix),
            );
            lemma_how_many_add(rest, more, vents_of(mix));
            lemma_how_many_add(rest, more, draws_of(mix));
            assert forall|p: int| 0 <= p < next.agenda.len() implies (p < top ==> #[trigger] next.agenda[p]
                == run.agenda[p]) && (p >= top ==> next.agenda[p] is Visit) by {
                if p >= top {
                    assert(next.agenda[p] == more[p - top]);
                }
            }
        },
        Task::Flow { turf: other, dir, amount } => {
            let blow = Task::Blow {
                from: other.0,
                to: adjacent(dir as int, other.0, max_x, max_y),
                amount,
            };
            lemma_how_many_push(rest, blow, vents_of(mix));
            lemma_how_many_push(rest, blow, draws_of(mix));
            assert(dir < 6);
            assert(next.info[i].transfers[6] == run.info[i].transfers[6]);
            assert forall|p: int| 0 <= p < next.agenda.len() implies (p < top ==> #[trigger] next.agenda[p]
                == run.agenda[p]) && (p >= top ==> next.agenda[p] is Blow) by {}
        },
        _ => {
            assert(next.agenda == rest);
            assert forall|p: int| 0 <= p < next.agenda.len() implies #[trigger] next.agenda[p]
                == run.agenda[p] by {}
        },
    }
    assert forall|k: int| 0 <= k < next.effects.len() implies match #[trigger] next.effects[k] {
        Effect::Add { mix: m, amount } => m == mix ==> amount == x.spec_negate(),
        Effect::Merge { mix: m, planet, amount, total } => m == mix ==> amount == x.spec_negate()
            && Some(planet) == turf.1.planetary_atmos && above_zero(total),
        _ => true,
    } by {
        if k < run.effects.len() {
            assert(next.effects[k] == run.effects[k]);
        }
    }
}

proof fn lemma_run_exchange<A: Amount>(
    turfs: Seq<MixWithID>,
    max_x: int,
    max_y: int,
    run: Run<A>,
    answers: Seq<(A, Option<A>)>,
    turf: MixWithID,
    x: A,
)
    requires
        zero_is_still::<A>(),
        run_wf(run),
        known_visits(turfs, run.agenda),
        own_air(turfs, turf),
        exchanges_ok(run, turf, x),
        to_visit(run.agenda, turf.0) || spent(run.info, turf.0),
        finishes(turfs, max_x, max_y, run, answers),
    ensures
        ({
            let end = run_on(turfs, max_x, max_y, run, answers);
            &&& exchanges_ok(end, turf, x)
            &&& times_asked(end.effects, adds_to(turf.1.mix)) == given(run, turf)
            &&& times_asked(end.effects, merges_into(turf.1.mix)) <= taken(run, turf)
            &&& (forall|k: int|
                0 <= k < answers.len() ==> (#[trigger] answers[k]).1 is Some && above_zero(
                    answers[k].1->0,
                )) ==> times_asked(end.effects, merges_into(turf.1.mix)) == taken(run, turf)
        }),
    decreases answers.len(),
{
    if answers.len() > 0 {
        let next = turn(turfs, max_x, max_y, run, answers[0]);
        let rest = answers.drop_first();
        lemma_turn_wf(turfs, max_x, max_y, run, answers[0]);
        lemma_turn_known(turfs, max_x, max_y, run, answers[0]);
        lemma_turn_to_visit(turfs, max_x, max_y, run, answers[0], turf.0);
        lemma_turn_exchange(turfs, max_x, max_y, run, answers[0], turf, x);
        lemma_run_exchange(turfs, max_x, max_y, next, rest, turf, x);
        if forall|k: int|
            0 <= k < answers.len() ==> (#[trigger] answers[k]).1 is Some && above_zero(
                answers[k].1->0,
            ) {
            assert forall|k: int| 0 <= k < rest.len() implies (#[trigger] rest[k]).1 is Some
                && above_zero(rest[k].1->0) by {
                assert(rest[k] == answers[k + 1]);
            }
        }
    } else {
        assert(spent(run.info, turf.0));
        assert(run.info[turf.0].transfers[6] == A::spec_zero());
    }
}

/// The exchange of a turf with its planet is carried out once, whatever else is booked. If
/// `x` is booked to leave for the planet, then, once the turf has been worked off, exactly
/// one thing that was asked for changes its air for the planet's sake, and that is to add
/// `-x`. If something is booked to come in and the turf belongs to a planet, then the only
/// thing that can be asked for is to merge `-x` of that planet's gas, at most once, and
/// exactly once if the planet is known to have gas. Otherwise nothing is asked for. No
/// other turf of the zone has the air of `turf`.
pub proof fn exchanges_happen_once<A: Amount>(
    turfs: Seq<MixWithID>,
    max_x: int,
    max_y: int,
    agenda: Seq<Task<A>>,
    info: Map<TurfID, Ledger<A>>,
    answers: Seq<(A, Option<A>)>,
    turf: MixWithID,
)
    requires
        zero_is_still::<A>(),
        books_wf(info),
        visits_only(agenda),
        known_visits(turfs, agenda),
        to_visit(agenda, turf.0),
        own_air(turfs, turf),
        info.contains_key(turf.0),
        finishes(
            turfs,
            max_x,
            max_y,
            (Run { agenda, info, effects: Seq::empty() }),
            answers,
        ),
    ensures
        ({
            let run = Run { agenda, info, effects: Seq::empty() };
            let effects = run_on(turfs, max_x, max_y, run, answers).effects;
            let x = info[turf.0].transfers[6];
            let mix = turf.1.mix;
            let leaves = A::spec_zero().spec_lt(x);
            let comes = !leaves && x.spec_lt(A::spec_zero()) && turf.1.planetary_atmos is Some;
            &&& times_asked(effects, adds_to(mix)) == (if leaves {
                1nat
            } else {
                0
            })
            &&& forall|k: int|
                0 <= k < effects.len() ==> ((#[trigger] effects[k]) matches Effect::Add {
                    mix: m,
                    amount,
                } ==> m == mix ==> amount == x.spec_negate())
            &&& !comes ==> times_asked(effects, merges_into(mix)) == 0
            &&& times_asked(effects, merges_into(mix)) <= 1
            &&& comes && (forall|k: int|
                0 <= k < answers.len() ==> (#[trigger] answers[k]).1 is Some
                    && A::spec_zero().spec_lt(answers[k].1->0)) ==> times_asked(
                effects,
                merges_into(mix),
            ) == 1
            &&& forall|k: int|
                0 <= k < effects.len() ==> ((#[trigger] effects[k]) matches Effect::Merge {
                    mix: m,
                    planet,
                    amount,
                    total,
                } ==> m == mix ==> amount == x.spec_negate() && Some(planet)
                    == turf.1.planetary_atmos)
        }),
{
    let run = Run { agenda, info, effects: Seq::<Effect<A>>::empty() };
    let x = info[turf.0].transfers[6];
    let mix = turf.1.mix;
    assert forall|p: int| 0 <= p < agenda.len() implies (#[trigger] agenda[p]) is Visit by {}
    assert(run_wf(run)) by {
        assert forall|p: int| 0 <= p < agenda.len() implies ((
        #[trigger] agenda[p]) matches Task::Flow { dir, .. } ==> dir < 6) by {
            assert(agenda[p] is Visit);
        }
    }
    lemma_visits_only(agenda, vents_of(mix));
    lemma_visits_only(agenda, draws_of(mix));
    lemma_run_exchange(turfs, max_x, max_y, run, answers, turf, x);
    let effects = run_on(turfs, max_x, max_y, run, answers).effects;
    assert forall|k: int| 0 <= k < effects.len() implies ((
    #[trigger] effects[k]) matches Effect::Add { mix: m, amount } ==> m == mix ==> amount
        == x.spec_negate()) by {}
}

/// The flow from turf `i` to turf `loc` is made felt.
pub open spec fn felt_between<A: Amount>(i: TurfID, loc: TurfID) -> spec_fn(Effect<A>) -> bool {
    |effect: Effect<A>|
        effect matches Effect::Consider { turf, other, .. } && turf == i && other == loc
}

/// Gas is shared from the air `from` with the air `to`.
pub open spec fn shared_between<A: Amount>(from: usize, to: usize) -> spec_fn(
    Effect<A>,
) -> bool {
    |effect: Effect<A>|
        effect matches Effect::Share { from: f, to: t, .. } && f == from && t == to
}

/// Neither turf shares its air with another one.
pub open spec fn own_airs(turfs: Seq<MixWithID>, i: TurfID, loc: TurfID) -> bool {
    &&& own_air(turfs, (i, entry_of(turfs, i)->0))
    &&& own_air(turfs, (loc, entry_of(turfs, loc)->0))
    &&& i != loc
}

spec fn blows<A: Amount>(i: TurfID, loc: TurfID) -> spec_fn(Task<A>) -> bool {
    |task: Task<A>| task matches Task::Blow { from, to, .. } && from == i && to == loc
}

/// The flows on the agenda are of turfs of the zone, and what is asked for between turf `i` and
/// turf `loc` is `x`.
spec fn flows_known<A: Amount>(
    turfs: Seq<MixWithID>,
    run: Run<A>,
    i: TurfID,
    loc: TurfID,
    x: A,
) -> bool {
    let from = (entry_of(turfs, i)->0).mix;
    let to = (entry_of(turfs, loc)->0).mix;
    &&& forall|p: int|
        0 <= p < run.agenda.len() ==> match #[trigger] run.agenda[p] {
            Task::Flow { turf, .. } => entry_of(turfs, turf.0) == Some(turf.1),
            Task::Blow { from: a, to: b, amount } => a == i && b == loc ==> amount == x,
            _ => true,
        }
    &&& forall|k: int|
        0 <= k < run.effects.len() ==> match #[trigger] run.effects[k] {
            Effect::Consider { turf, other, amount } => turf == i && other == loc ==> amount == x,
            Effect::Share { from: a, to: b, amount } => a == from && b == to && own_airs(
                turfs,
                i,
                loc,
            ) ==> amount == x,
            _ => true,
        }
}

proof fn lemma_turn_felt<A: Amount>(
    turfs: Seq<MixWithID>,
    max_x: int,
    max_y: int,
    start: Map<TurfID, Ledger<A>>,
    run: Run<A>,
    answer: (A, Option<A>),
    i: TurfID,
    d: int,
)
    requires
        zero_is_still::<A>(),
        one_sign::<A>(),
        paired(start, max_x, max_y),
        run_wf(run),
        only_spent(start, run.info),
        flows_as_booked(start, run.agenda),
        known_visits(turfs, run.agenda),
        run.agenda.len() > 0,
        can_flow(turfs, start, i, d),
        start.contains_key(adjacent(d, i, max_x, max_y)),
        entry_of(turfs, adjacent(d, i, max_x, max_y)) is Some,
        forall|e: int|
            0 <= e < 6 && e != d ==> #[trigger] adjacent(e, i, max_x, max_y) != adjacent(
                d,
                i,
                max_x,
                max_y,
            ),
        flows_known(turfs, run, i, adjacent(d, i, max_x, max_y), start[i].transfers[d]),
    ensures
        ({
            let next = turn(turfs, max_x, max_y, run, answer);
            let loc = adjacent(d, i, max_x, max_y);
            let share = shared_between::<A>(
                (entry_of(turfs, i)->0).mix,
                (entry_of(turfs, loc)->0).mix,
            );
            let felt = felt_between::<A>(i, loc);
            &&& flows_known(turfs, next, i, loc, start[i].transfers[d])
            &&& own_airs(turfs, i, loc) ==> times_asked(next.effects, share) + to_come(next, i, d)
                == times_asked(run.effects, share) + to_come(run, i, d)
            &&& times_asked(next.effects, felt) + how_many(next.agenda, blows(i, loc)) + to_come(
                next,
                i,
                d,
            ) == times_asked(run.effects, felt) + how_many(run.agenda, blows(i, loc)) + to_come(
                run,
                i,
                d,
            )
        }),
{
    let loc = adjacent(d, i, max_x, max_y);
    let x = start[i].transfers[d];
    let from = (entry_of(turfs, i)->0).mix;
    let to = (entry_of(turfs, loc)->0).mix;
    let share = shared_between::<A>(from, to);
    let felt = felt_between::<A>(i, loc);
    let blow = blows::<A>(i, loc);
    let next = turn(turfs, max_x, max_y, run, answer);
    let rest = run.agenda.drop_last();
    let top = run.agenda.len() - 1;
    let task = run.agenda.last();
    assert(run.agenda[top] == task);
    lemma_turn_exact(turfs, max_x, max_y, start, run, answer, i, d);
    lemma_turn_asks(turfs, max_x, max_y, run, answer, share);
    lemma_turn_asks(turfs, max_x, max_y, run, answer, felt);
    if own_airs(turfs, i, loc) && from == to {
        assert(entry_of(turfs, loc) matches Some(mixture) && mixture.mix == from);
    }
    match task {
        Task::Visit { turf } => {
            assert(entry_of(turfs, turf.0) == Some(turf.1));
            if run.info.contains_key(turf.0) {
                let t = run.info[turf.0].transfers;
                let more = errands(turf, t);
                lemma_how_many_add(rest, more, blow);
                visits_follow_the_books(turf, t);
                let none = |task: Task<A>| false;
                lemma_none_fit(more, none);
                assert forall|p: int| 0 <= p < more.len() implies blow(#[trigger] more[p]) == none(
                    more[p],
                ) by {
                    assert(by_the_books(turf, t, more[p]));
                }
                lemma_same_fit(more, blow, none);
                assert forall|p: int| 0 <= p < next.agenda.len() implies match #[trigger] next.agenda[p] {
                    Task::Flow { turf, .. } => entry_of(turfs, turf.0) == Some(turf.1),
                    Task::Blow { from: a, to: b, amount } => a == i && b == loc ==> amount == x,
                    _ => true,
                } by {
                    if p < top {
                        assert(next.agenda[p] == run.agenda[p]);
                    } else {
                        assert(next.agenda[p] == more[p - top]);
                        assert(by_the_books(turf, t, more[p - top]));
                    }
                }
            } else {
                assert(next.agenda == rest);
                assert forall|p: int| 0 <= p < next.agenda.len() implies #[trigger] next.agenda[p]
                    == run.agenda[p] by {}
            }
        },
        Task::Check { turf, sources, amount } => {
            let more = visits::<A>(turfs, max_x, max_y, turf.0, sources, 0);
            lemma_visits_wf::<A>(turfs, max_x, max_y, turf.0, sources, 0);
            lemma_visits_fit_none::<A>(turfs, max_x, max_y, turf.0, sources, 0, blow);
            lemma_how_many_add(rest, more, blow);
            assert forall|p: int| 0 <= p < next.agenda.len() implies (p < top ==> #[trigger] next.agenda[p]
                == run.agenda[p]) && (p >= top ==> next.agenda[p] is Visit) by {
                if p >= top {
                    assert(next.agenda[p] == more[p - top]);
                }
            }
        },
        Task::Flow { turf, dir, amount } => {
            let there = adjacent(dir as int, turf.0, max_x, max_y);
            let one = Task::Blow { from: turf.0, to: there, amount };
            lemma_how_many_push(rest, one, blow);
            assert(dir < 6);
            assert(start.contains_key(turf.0) && amount == start[turf.0].transfers[dir as int]);
            assert(entry_of(turfs, turf.0) == Some(turf.1));
            assert(own_airs(turfs, i, loc) && turf.1.mix == from ==> turf.0 == i);
            assert(turf.0 == i && there == loc ==> dir == d);
            assert(start.contains_key(there) == run.info.contains_key(there));
            if own_airs(turfs, i, loc) && entry_of(turfs, there) is Some && (entry_of(
                turfs,
                there,
            )->0).mix == to {
                assert(there == loc);
            }
            assert forall|p: int| 0 <= p < next.agenda.len() implies (p < top ==> #[trigger] next.agenda[p]
                == run.agenda[p]) && (p >= top ==> next.agenda[p] == one) by {}
        },
        _ => {
            assert(next.agenda == rest);
            assert forall|p: int| 0 <= p < next.agenda.len() implies #[trigger] next.agenda[p]
                == run.agenda[p] by {}
        },
    }
    assert(run.effects.is_prefix_of(next.effects));
    assert forall|k: int| 0 <= k < next.effects.len() implies match #[trigger] next.effects[k] {
        Effect::Consider { turf, other, amount } => turf == i && other == loc ==> amount == x,
        Effect::Share { from: a, to: b, amount } => a == from && b == to && own_airs(
            turfs,
            i,
            loc,
        ) ==> amount == x,
        _ => true,
    } by {
        if k < run.effects.len() {
            assert(next.effects[k] == run.effects[k]);
        }
    }
}

proof fn lemma_run_felt<A: Amount>(
    turfs: Seq<MixWithID>,
    max_x: int,
    max_y: int,
    start: Map<TurfID, Ledger<A>>,
    run: Run<A>,
    answers: Seq<(A, Option<A>)>,
    i: TurfID,
    d: int,
)
    requires
        zero_is_still::<A>(),
        one_sign::<A>(),
        paired(start, max_x, max_y),
        run_wf(run),
        only_spent(start, run.info),
        flows_as_booked(start, run.agenda),
        known_visits(turfs, run.agenda),
        can_flow(turfs, start, i, d),
        start.contains_key(adjacent(d, i, max_x, max_y)),
        entry_of(turfs, adjacent(d, i, max_x, max_y)) is Some,
        forall|e: int|
            0 <= e < 6 && e != d ==> #[trigger] adjacent(e, i, max_x, max_y) != adjacent(
                d,
                i,
                max_x,
                max_y,
            ),
        flows_known(turfs, run, i, adjacent(d, i, max_x, max_y), start[i].transfers[d]),
        to_visit(run.agenda, i) || spent(run.info, i),
        finishes(turfs, max_x, max_y, run, answers),
    ensures
        ({
            let end = run_on(turfs, max_x, max_y, run, answers);
            let loc = adjacent(d, i, max_x, max_y);
            let share = shared_between::<A>(
                (entry_of(turfs, i)->0).mix,
                (entry_of(turfs, loc)->0).mix,
            );
            let felt = felt_between::<A>(i, loc);
            &&& flows_known(turfs, end, i, loc, start[i].transfers[d])
            &&& own_airs(turfs, i, loc) ==> times_asked(end.effects, share) == times_asked(
                run.effects,
                share,
            ) + to_come(run, i, d)
            &&& times_asked(end.effects, felt) == times_asked(run.effects, felt) + how_many(
                run.agenda,
                blows(i, loc),
            ) + to_come(run, i, d)
        }),
    decreases answers.len(),
{
    if answers.len() > 0 {
        let next = turn(turfs, max_x, max_y, run, answers[0]);
        lemma_turn_wf(turfs, max_x, max_y, run, answers[0]);
        lemma_turn_as_booked(turfs, max_x, max_y, start, run, answers[0]);
        lemma_only_spent(start, run.info, next.info);
        lemma_turn_known(turfs, max_x, max_y, run, answers[0]);
        lemma_turn_to_visit(turfs, max_x, max_y, run, answers[0], i);
        lemma_turn_felt(turfs, max_x, max_y, start, run, answers[0], i, d);
        lemma_run_felt(
            turfs,
            max_x,
            max_y,
            start,
            next,
            answers.drop_first(),
            i,
            d,
        );
    } else {
        assert(spent(run.info, i));
        assert(run.info.contains_key(i));
        assert(run.info[i].transfers[d] == A::spec_zero());
    }
}

/// What is booked to flow is moved and felt, once and in full: when turf `i` has been worked
/// off, from which gas is booked to flow, and can, in direction `d`, then exactly one thing
/// that was asked for makes the flow felt between it and its neighbour there, and, if both
/// have an air of their own, exactly one shares gas of its air with that of the neighbour,
/// both with the amount that was booked. Pairs of books are in step, the neighbour is a turf
/// of the zone with books, and no other direction leads to the neighbour.
pub proof fn flows_are_moved_and_felt_once<A: Amount>(
    turfs: Seq<MixWithID>,
    max_x: int,
    max_y: int,
    agenda: Seq<Task<A>>,
    info: Map<TurfID, Ledger<A>>,
    answers: Seq<(A, Option<A>)>,
    i: TurfID,
    d: int,
)
    requires
        zero_is_still::<A>(),
        one_sign::<A>(),
        books_wf(info),
        paired(info, max_x, max_y),
        visits_only(agenda),
        known_visits(turfs, agenda),
        to_visit(agenda, i),
        can_flow(turfs, info, i, d),
        info.contains_key(adjacent(d, i, max_x, max_y)),
        entry_of(turfs, adjacent(d, i, max_x, max_y)) is Some,
        forall|e: int|
            0 <= e < 6 && e != d ==> #[trigger] adjacent(e, i, max_x, max_y) != adjacent(
                d,
                i,
                max_x,
                max_y,
            ),
        finishes(
            turfs,
            max_x,
            max_y,
            (Run { agenda, info, effects: Seq::empty() }),
            answers,
        ),
    ensures
        ({
            let run = Run { agenda, info, effects: Seq::empty() };
            let effects = run_on(turfs, max_x, max_y, run, answers).effects;
            let loc = adjacent(d, i, max_x, max_y);
            let from = (entry_of(turfs, i)->0).mix;
            let to = (entry_of(turfs, loc)->0).mix;
            let x = info[i].transfers[d];
            &&& own_airs(turfs, i, loc) ==> times_asked(effects, shared_between(from, to)) == 1
            &&& times_asked(effects, felt_between(i, loc)) == 1
            &&& forall|k: int|
                0 <= k < effects.len() ==> match #[trigger] effects[k] {
                    Effect::Share { from: a, to: b, amount } => a == from && b == to && own_airs(
                        turfs,
                        i,
                        loc,
                    ) ==> amount == x,
                    Effect::Consider { turf, other, amount } => turf == i && other == loc
                        ==> amount == x,
                    _ => true,
                }
        }),
{
    let run = Run { agenda, info, effects: Seq::<Effect<A>>::empty() };
    let loc = adjacent(d, i, max_x, max_y);
    assert forall|p: int| 0 <= p < agenda.len() implies (#[trigger] agenda[p]) is Visit by {}
    assert(run_wf(run)) by {
        assert forall|p: int| 0 <= p < agenda.len() implies ((
        #[trigger] agenda[p]) matches Task::Flow { dir, .. } ==> dir < 6) by {
            assert(agenda[p] is Visit);
        }
    }
    assert(only_spent(info, info)) by {
        assert forall|k: TurfID| #[trigger] info.contains_key(k) implies info[k].wf() by {}
    }
    lemma_visits_only(agenda, flow_from(i, d));
    lemma_visits_only(agenda, blows(i, loc));
    lemma_run_felt(turfs, max_x, max_y, info, run, answers, i, d);
    let end = run_on(turfs, max_x, max_y, run, answers);
    assert(flows_known(turfs, end, i, loc, info[i].transfers[d]));
}

} // verus!
