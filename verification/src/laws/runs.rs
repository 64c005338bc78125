//! What the work on a turf comes to from beginning to end.
use vstd::prelude::*;
use crate::amount::{below_zero, Amount};
use crate::finalize::{
    agenda_wf, checked, drawn, errands, nulled, source_bits, stepped, visits, Effect, Task,
};
use crate::grid::{adjacent, TurfID};
use crate::info::Ledger;
use crate::laws::finalize::{
    answers_make_headway, by_the_books, left_to_do, lemma_still, live_turfs, only_spent,
    sources_are_inflows, spent, steps_make_headway, steps_only_spend, visited_turfs_stay_spent,
    visits_follow_the_books, zero_is_still,
};
use crate::tables::{books_wf, entry_of, MixWithID};

verus! {

/// The work while it goes on: what is to be done, the books, and all that was
/// asked for so far.
#[verifier::ext_equal]
pub struct Run<A: Amount> {
    pub agenda: Seq<Task<A>>,
    pub info: Map<TurfID, Ledger<A>>,
    pub effects: Seq<Effect<A>>,
}

/// The next step, and the answer if it asks a question: `answer.0` if it asks how
/// much gas a turf holds, `answer.1` if it asks that of a planet.
pub open spec fn turn<A: Amount>(
    turfs: Seq<MixWithID>,
    max_x: int,
    max_y: int,
    run: Run<A>,
    answer: (A, Option<A>),
) -> Run<A> {
    if run.agenda.len() == 0 {
        run
    } else {
        let next = stepped(turfs, max_x, max_y, run.agenda, run.info);
        match next.waiting {
            Some(Task::Check { turf, sources, amount }) => Run {
                agenda: checked(
                    turfs,
                    max_x,
                    max_y,
                    next.agenda,
                    turf.0,
                    sources,
                    amount,
                    answer.0,
                ),
                info: next.info,
                effects: run.effects.push(next.effect),
            },
            Some(Task::Draw { mix, planet, amount }) => Run {
                agenda: next.agenda,
                info: next.info,
                effects: run.effects.push(next.effect).push(
                    drawn(mix, planet, amount, answer.1),
                ),
            },
            _ => Run {
                agenda: next.agenda,
                info: next.info,
                effects: run.effects.push(next.effect),
            },
        }
    }
}

/// The work goes on with the answers `answers`, one for each step.
pub open spec fn run_on<A: Amount>(
    turfs: Seq<MixWithID>,
    max_x: int,
    max_y: int,
    run: Run<A>,
    answers: Seq<(A, Option<A>)>,
) -> Run<A>
    decreases answers.len(),
{
    if answers.len() == 0 {
        run
    } else {
        run_on(
            turfs,
            max_x,
            max_y,
            turn(turfs, max_x, max_y, run, answers[0]),
            answers.drop_first(),
        )
    }
}

/// With the answers `answers` the work comes to its end, and no sooner.
pub open spec fn finishes<A: Amount>(
    turfs: Seq<MixWithID>,
    max_x: int,
    max_y: int,
    run: Run<A>,
    answers: Seq<(A, Option<A>)>,
) -> bool
    decreases answers.len(),
{
    if answers.len() == 0 {
        run.agenda.len() == 0
    } else {
        &&& run.agenda.len() > 0
        &&& finishes(
            turfs,
            max_x,
            max_y,
            turn(turfs, max_x, max_y, run, answers[0]),
            answers.drop_first(),
        )
    }
}

/// The work on one turf at its beginning.
pub open spec fn begun<A: Amount>(
    turf: MixWithID,
    info: Map<TurfID, Ledger<A>>,
    effects: Seq<Effect<A>>,
) -> Run<A> {
    Run { agenda: seq![Task::Visit { turf }], info, effects }
}

/// The books are well formed, and so is the agenda.
pub open spec fn run_wf<A: Amount>(run: Run<A>) -> bool {
    books_wf(run.info) && agenda_wf(run.agenda)
}

pub proof fn lemma_visits_wf<A: Amount>(
    turfs: Seq<MixWithID>,
    max_x: int,
    max_y: int,
    i: TurfID,
    sources: u8,
    dir: int,
)
    requires
        0 <= dir <= 6,
    ensures
        forall|p: int|
            #![trigger visits::<A>(turfs, max_x, max_y, i, sources, dir)[p]]
            0 <= p < visits::<A>(turfs, max_x, max_y, i, sources, dir).len() ==> visits::<A>(
                turfs,
                max_x,
                max_y,
                i,
                sources,
                dir,
            )[p] is Visit,
    decreases 6 - dir,
{
    if dir < 6 {
        lemma_visits_wf::<A>(turfs, max_x, max_y, i, sources, dir + 1);
    }
}

/// A turn keeps books and agenda well formed, and books nothing.
pub proof fn lemma_turn_wf<A: Amount>(
    turfs: Seq<MixWithID>,
    max_x: int,
    max_y: int,
    run: Run<A>,
    answer: (A, Option<A>),
)
    requires
        run_wf(run),
    ensures
        run_wf(turn(turfs, max_x, max_y, run, answer)),
        only_spent(run.info, turn(turfs, max_x, max_y, run, answer).info),
{
    let next = turn(turfs, max_x, max_y, run, answer);
    steps_only_spend(turfs, max_x, max_y, run.agenda, run.info);
    if run.agenda.len() > 0 {
        let rest = run.agenda.drop_last();
        let p = stepped(turfs, max_x, max_y, run.agenda, run.info);
        assert forall|k: int| 0 <= k < rest.len() implies ((#[trigger] rest[k]) matches Task::Flow {
            dir,
            ..
        } ==> dir < 6) by {
            assert(rest[k] == run.agenda[k]);
        }
        match run.agenda.last() {
            Task::Visit { turf } => {
                if run.info.contains_key(turf.0) {
                    let transfers = run.info[turf.0].transfers;
                    visits_follow_the_books(turf, transfers);
                    let more = errands(turf, transfers);
                    assert forall|k: int| 0 <= k < next.agenda.len() implies ((
                    #[trigger] next.agenda[k]) matches Task::Flow { dir, .. } ==> dir < 6) by {
                        if k < rest.len() {
                            assert(next.agenda[k] == rest[k]);
                        } else {
                            assert(next.agenda[k] == more[k - rest.len()]);
                            assert(by_the_books(turf, transfers, more[k - rest.len()]));
                        }
                    }
                }
            },
            Task::Check { turf, sources, amount } => {
                lemma_visits_wf::<A>(turfs, max_x, max_y, turf.0, sources, 0);
                let more = visits::<A>(turfs, max_x, max_y, turf.0, sources, 0);
                assert forall|k: int| 0 <= k < next.agenda.len() implies ((
                #[trigger] next.agenda[k]) matches Task::Flow { dir, .. } ==> dir < 6) by {
                    if k < rest.len() {
                        assert(next.agenda[k] == rest[k]);
                    } else {
                        assert(next.agenda[k] == more[k - rest.len()]);
                    }
                }
            },
            _ => {
                assert forall|k: int| 0 <= k < next.agenda.len() implies ((
                #[trigger] next.agenda[k]) matches Task::Flow { dir, .. } ==> dir < 6) by {
                    if k < rest.len() {
                        assert(next.agenda[k] == rest[k]);
                    }
                }
            },
        }
    }
}

pub proof fn lemma_only_spent<A: Amount>(
    a: Map<TurfID, Ledger<A>>,
    b: Map<TurfID, Ledger<A>>,
    c: Map<TurfID, Ledger<A>>,
)
    requires
        only_spent(a, b),
        only_spent(b, c),
    ensures
        only_spent(a, c),
{
    assert forall|k: TurfID| #[trigger] a.contains_key(k) implies c[k].transfers.len() == 7 && c[k]
        == (Ledger { transfers: c[k].transfers, ..a[k] }) by {
        assert(b.contains_key(k));
    }
    assert forall|k: TurfID, d: int|
        #![trigger c[k].transfers[d]]
        a.contains_key(k) && 0 <= d < 7 implies c[k].transfers[d] == a[k].transfers[d]
        || c[k].transfers[d] == A::spec_zero() by {
        assert(b.contains_key(k));
        assert(b[k].transfers[d] == a[k].transfers[d] || b[k].transfers[d] == A::spec_zero());
    }
}

/// No run books anything.
pub proof fn runs_only_spend<A: Amount>(
    turfs: Seq<MixWithID>,
    max_x: int,
    max_y: int,
    run: Run<A>,
    answers: Seq<(A, Option<A>)>,
)
    requires
        run_wf(run),
    ensures
        run_wf(run_on(turfs, max_x, max_y, run, answers)),
        only_spent(run.info, run_on(turfs, max_x, max_y, run, answers).info),
        forall|i: TurfID| #[trigger]
            spent(run.info, i) ==> spent(run_on(turfs, max_x, max_y, run, answers).info, i),
    decreases answers.len(),
{
    if answers.len() > 0 {
        let next = turn(turfs, max_x, max_y, run, answers[0]);
        let end = run_on(turfs, max_x, max_y, run, answers);
        lemma_turn_wf(turfs, max_x, max_y, run, answers[0]);
        runs_only_spend(turfs, max_x, max_y, next, answers.drop_first());
        lemma_only_spent(run.info, next.info, end.info);
        if run.agenda.len() > 0 {
            visited_turfs_stay_spent(turfs, max_x, max_y, run.agenda, run.info);
        }
        assert forall|i: TurfID| #[trigger] spent(run.info, i) implies spent(end.info, i) by {
            assert(spent(next.info, i));
        }
    } else {
        assert forall|k: TurfID| #[trigger] run.info.contains_key(k) implies run.info[k].wf() by {}
    }
}

/// Whatever is answered, the work comes to its end: for any endless supply of
/// answers there is a number of steps after which it is done.
pub proof fn every_run_finishes<A: Amount>(
    turfs: Seq<MixWithID>,
    max_x: int,
    max_y: int,
    run: Run<A>,
    answers: spec_fn(int) -> (A, Option<A>),
    at: int,
) -> (n: nat)
    requires
        zero_is_still::<A>(),
        run_wf(run),
    ensures
        finishes(turfs, max_x, max_y, run, Seq::new(n, |k: int| answers(at + k))),
    decreases live_turfs(run.info, 0x1_0000_0000), left_to_do(run.agenda, None),
{
    if run.agenda.len() == 0 {
        0
    } else {
        let next = turn(turfs, max_x, max_y, run, answers(at));
        let p = stepped(turfs, max_x, max_y, run.agenda, run.info);
        lemma_turn_wf(turfs, max_x, max_y, run, answers(at));
        steps_make_headway(turfs, max_x, max_y, run.agenda, run.info);
        match p.waiting {
            Some(Task::Check { turf, sources, amount }) => {
                answers_make_headway(
                    turfs,
                    max_x,
                    max_y,
                    p.agenda,
                    turf,
                    sources,
                    amount,
                    0,
                    0,
                );
            },
            Some(Task::Draw { mix, planet, amount }) => {
                assert(left_to_do(p.agenda, None) < left_to_do(p.agenda, p.waiting));
            },
            _ => {},
        }
        let n = every_run_finishes(turfs, max_x, max_y, next, answers, at + 1);
        let all = Seq::new((n + 1) as nat, |k: int| answers(at + k));
        let rest = Seq::new(n, |k: int| answers(at + 1 + k));
        assert(all.drop_first() =~= rest);
        assert(all[0] == answers(at));
        (n + 1) as nat
    }
}

/// A step looks at the task that is to be done first, and at none of the others.
proof fn lemma_turn_on_top<A: Amount>(
    turfs: Seq<MixWithID>,
    max_x: int,
    max_y: int,
    base: Seq<Task<A>>,
    run: Run<A>,
    answer: (A, Option<A>),
)
    requires
        run.agenda.len() > 0,
    ensures
        turn(turfs, max_x, max_y, Run { agenda: base + run.agenda, ..run }, answer) == (Run {
            agenda: base + turn(turfs, max_x, max_y, run, answer).agenda,
            ..turn(turfs, max_x, max_y, run, answer)
        }),
{
    let both = base + run.agenda;
    let rest = run.agenda.drop_last();
    let next = turn(turfs, max_x, max_y, run, answer);
    let more = turn(turfs, max_x, max_y, Run { agenda: both, ..run }, answer);
    assert(both.last() == run.agenda.last());
    assert(both.drop_last() =~= base + rest);
    match run.agenda.last() {
        Task::Visit { turf } => {
            if run.info.contains_key(turf.0) {
                let e = errands(turf, run.info[turf.0].transfers);
                assert((base + rest) + e =~= base + (rest + e));
            }
        },
        Task::Check { turf, sources, amount } => {
            let v = visits::<A>(turfs, max_x, max_y, turf.0, sources, 0);
            assert((base + rest) + v =~= base + (rest + v));
        },
        Task::Flow { turf, dir, amount } => {
            let blow = Task::Blow {
                from: turf.0,
                to: adjacent(dir as int, turf.0, max_x, max_y),
                amount,
            };
            assert((base + rest).push(blow) =~= base + rest.push(blow));
        },
        _ => {},
    }
    assert(more.agenda =~= base + next.agenda);
}

/// Tasks are worked off one by one: what is to be done first is done to its end,
/// as if there were nothing else to do, before anything else is begun.
pub proof fn tasks_run_one_by_one<A: Amount>(
    turfs: Seq<MixWithID>,
    max_x: int,
    max_y: int,
    base: Seq<Task<A>>,
    run: Run<A>,
    answers: Seq<(A, Option<A>)>,
    later: Seq<(A, Option<A>)>,
)
    requires
        finishes(turfs, max_x, max_y, run, answers),
    ensures
        run_on(
            turfs,
            max_x,
            max_y,
            Run { agenda: base + run.agenda, ..run },
            answers + later,
        ) == run_on(
            turfs,
            max_x,
            max_y,
            Run { agenda: base, ..run_on(turfs, max_x, max_y, run, answers) },
            later,
        ),
    decreases answers.len(),
{
    let both = Run { agenda: base + run.agenda, ..run };
    if answers.len() == 0 {
        assert(answers + later =~= later);
        assert(base + run.agenda =~= base);
    } else {
        let next = turn(turfs, max_x, max_y, run, answers[0]);
        lemma_turn_on_top(turfs, max_x, max_y, base, run, answers[0]);
        tasks_run_one_by_one(turfs, max_x, max_y, base, next, answers.drop_first(), later);
        assert((answers + later).drop_first() =~= answers.drop_first() + later);
        assert((answers + later)[0] == answers[0]);
    }
}

/// Once the work on a turf is done, nothing is booked for the turf.
pub proof fn finalized_turfs_are_spent<A: Amount>(
    turfs: Seq<MixWithID>,
    max_x: int,
    max_y: int,
    turf: MixWithID,
    info: Map<TurfID, Ledger<A>>,
    effects: Seq<Effect<A>>,
    answers: Seq<(A, Option<A>)>,
)
    requires
        books_wf(info),
        finishes(turfs, max_x, max_y, begun(turf, info, effects), answers),
    ensures
        spent(run_on(turfs, max_x, max_y, begun(turf, info, effects), answers).info, turf.0),
        books_wf(run_on(turfs, max_x, max_y, begun(turf, info, effects), answers).info),
{
    let run = begun(turf, info, effects);
    assert(answers.len() > 0);
    let next = turn(turfs, max_x, max_y, run, answers[0]);
    lemma_turn_wf(turfs, max_x, max_y, run, answers[0]);
    visited_turfs_stay_spent(turfs, max_x, max_y, run.agenda, info);
    assert(spent(next.info, turf.0));
    runs_only_spend(turfs, max_x, max_y, next, answers.drop_first());
}

/// Working a turf off a second time changes no book and asks for nothing,
/// whatever is answered.
pub proof fn finalizing_twice_does_nothing<A: Amount>(
    turfs: Seq<MixWithID>,
    max_x: int,
    max_y: int,
    turf: MixWithID,
    info: Map<TurfID, Ledger<A>>,
    effects: Seq<Effect<A>>,
    answers: Seq<(A, Option<A>)>,
    answer: (A, Option<A>),
)
    requires
        zero_is_still::<A>(),
        books_wf(info),
        finishes(turfs, max_x, max_y, begun(turf, info, effects), answers),
    ensures
        ({
            let once = run_on(turfs, max_x, max_y, begun(turf, info, effects), answers);
            let again = begun(turf, once.info, once.effects);
            &&& finishes(turfs, max_x, max_y, again, seq![answer])
            &&& run_on(turfs, max_x, max_y, again, seq![answer]) == (Run {
                agenda: Seq::empty(),
                info: once.info,
                effects: once.effects.push(Effect::Nothing),
            })
        }),
{
    let once = run_on(turfs, max_x, max_y, begun(turf, info, effects), answers);
    let again = begun(turf, once.info, once.effects);
    finalized_turfs_are_spent(turfs, max_x, max_y, turf, info, effects, answers);
    let next = turn(turfs, max_x, max_y, again, answer);
    let rest = again.agenda.drop_last();
    assert(rest =~= Seq::empty());
    if once.info.contains_key(turf.0) {
        let books = once.info[turf.0];
        assert(books.wf());
        assert forall|d: int| 0 <= d < 7 implies #[trigger] books.transfers[d] == A::spec_zero() by {
            assert(once.info[turf.0].transfers[d] == A::spec_zero());
        }
        lemma_still(turf, books);
        assert(nulled(books).transfers =~= books.transfers);
        assert(nulled(books) =~= books);
        assert(once.info.insert(turf.0, nulled(books)) =~= once.info);
        assert(rest + errands(turf, books.transfers) =~= Seq::empty());
    }
    assert(next.agenda =~= Seq::empty());
    let answers = seq![answer];
    let none = answers.drop_first();
    assert(answers[0] == answer);
    assert(none =~= Seq::empty());
    assert(finishes(turfs, max_x, max_y, next, none));
    assert(run_on(turfs, max_x, max_y, next, none) == next);
    assert(run_on(turfs, max_x, max_y, again, answers) == next);
}

/// The neighbours of turf `i` in the directions of `sources` from `dir` on that
/// belong to the zone, in ascending direction.
pub open spec fn source_turfs(
    turfs: Seq<MixWithID>,
    max_x: int,
    max_y: int,
    i: TurfID,
    sources: u8,
    dir: int,
) -> Seq<MixWithID>
    decreases 6 - dir,
{
    if dir >= 6 {
        Seq::empty()
    } else {
        let later = source_turfs(turfs, max_x, max_y, i, sources, dir + 1);
        let bit = 1u8 << (dir as u8);
        let loc = adjacent(dir, i, max_x, max_y);
        match entry_of(turfs, loc) {
            Some(mixture) => if sources & bit == bit {
                seq![(loc, mixture)] + later
            } else {
                later
            },
            None => later,
        }
    }
}

/// The turfs of `list` are worked off one after the other, the first with the
/// answers `answers[0]`, and so on.
pub open spec fn each_finalized<A: Amount>(
    turfs: Seq<MixWithID>,
    max_x: int,
    max_y: int,
    list: Seq<MixWithID>,
    info: Map<TurfID, Ledger<A>>,
    effects: Seq<Effect<A>>,
    answers: Seq<Seq<(A, Option<A>)>>,
) -> Run<A>
    decreases list.len(),
{
    if list.len() == 0 {
        Run { agenda: Seq::empty(), info, effects }
    } else {
        let one = run_on(turfs, max_x, max_y, begun(list[0], info, effects), answers[0]);
        each_finalized(
            turfs,
            max_x,
            max_y,
            list.drop_first(),
            one.info,
            one.effects,
            answers.drop_first(),
        )
    }
}

/// The work on each turf of `list` comes to its end with its answers.
pub open spec fn each_finishes<A: Amount>(
    turfs: Seq<MixWithID>,
    max_x: int,
    max_y: int,
    list: Seq<MixWithID>,
    info: Map<TurfID, Ledger<A>>,
    effects: Seq<Effect<A>>,
    answers: Seq<Seq<(A, Option<A>)>>,
) -> bool
    decreases list.len(),
{
    &&& answers.len() == list.len()
    &&& list.len() > 0 ==> {
        let first = begun(list[0], info, effects);
        let one = run_on(turfs, max_x, max_y, first, answers[0]);
        &&& finishes(turfs, max_x, max_y, first, answers[0])
        &&& each_finishes(
            turfs,
            max_x,
            max_y,
            list.drop_first(),
            one.info,
            one.effects,
            answers.drop_first(),
        )
    }
}

/// All answers in one list.
pub open spec fn flat<A>(answers: Seq<Seq<A>>) -> Seq<A>
    decreases answers.len(),
{
    if answers.len() == 0 {
        Seq::empty()
    } else {
        answers[0] + flat(answers.drop_first())
    }
}

proof fn lemma_visits_one_by_one<A: Amount>(
    turfs: Seq<MixWithID>,
    max_x: int,
    max_y: int,
    base: Seq<Task<A>>,
    i: TurfID,
    sources: u8,
    dir: int,
    info: Map<TurfID, Ledger<A>>,
    effects: Seq<Effect<A>>,
    answers: Seq<Seq<(A, Option<A>)>>,
)
    requires
        0 <= dir <= 6,
        books_wf(info),
        each_finishes(
            turfs,
            max_x,
            max_y,
            source_turfs(turfs, max_x, max_y, i, sources, dir),
            info,
            effects,
            answers,
        ),
    ensures
        ({
            let list = source_turfs(turfs, max_x, max_y, i, sources, dir);
            let one_by_one = each_finalized(turfs, max_x, max_y, list, info, effects, answers);
            &&& run_on(
                turfs,
                max_x,
                max_y,
                Run {
                    agenda: base + visits(turfs, max_x, max_y, i, sources, dir),
                    info,
                    effects,
                },
                flat(answers),
            ) == (Run { agenda: base, ..one_by_one })
            &&& forall|p: int|
                0 <= p < list.len() ==> spent(one_by_one.info, (#[trigger] list[p]).0)
            &&& forall|k: TurfID| #[trigger] spent(info, k) ==> spent(one_by_one.info, k)
        }),
    decreases 6 - dir,
{
    let list = source_turfs(turfs, max_x, max_y, i, sources, dir);
    let all = visits::<A>(turfs, max_x, max_y, i, sources, dir);
    let one_by_one = each_finalized(turfs, max_x, max_y, list, info, effects, answers);
    if dir >= 6 {
        assert(base + all =~= base);
    } else {
        let later = visits::<A>(turfs, max_x, max_y, i, sources, dir + 1);
        let rest = source_turfs(turfs, max_x, max_y, i, sources, dir + 1);
        let bit = 1u8 << (dir as u8);
        let loc = adjacent(dir, i, max_x, max_y);
        if entry_of(turfs, loc) is Some && sources & bit == bit {
            let turf = (loc, entry_of(turfs, loc)->0);
            let first = begun(turf, info, effects);
            assert(list[0] == turf);
            assert(list.drop_first() =~= rest);
            assert(base + all =~= (base + later) + first.agenda);
            let one = run_on(turfs, max_x, max_y, first, answers[0]);
            let more = answers.drop_first();
            tasks_run_one_by_one(
                turfs,
                max_x,
                max_y,
                base + later,
                first,
                answers[0],
                flat(more),
            );
            finalized_turfs_are_spent(turfs, max_x, max_y, turf, info, effects, answers[0]);
            runs_only_spend(turfs, max_x, max_y, first, answers[0]);
            lemma_visits_one_by_one(
                turfs,
                max_x,
                max_y,
                base,
                i,
                sources,
                dir + 1,
                one.info,
                one.effects,
                more,
            );
            assert forall|p: int| 0 <= p < list.len() implies spent(
                one_by_one.info,
                (#[trigger] list[p]).0,
            ) by {
                if p > 0 {
                    assert(rest[p - 1] == list[p]);
                } else {
                    assert(spent(one.info, turf.0));
                }
            }
            assert forall|k: TurfID| #[trigger] spent(info, k) implies spent(
                one_by_one.info,
                k,
            ) by {
                assert(spent(first.info, k));
                assert(spent(one.info, k));
            }
        } else {
            lemma_visits_one_by_one(
                turfs,
                max_x,
                max_y,
                base,
                i,
                sources,
                dir + 1,
                info,
                effects,
                answers,
            );
        }
    }
}

/// The neighbours of turf `i` from which gas is to come in, that is, those in the
/// directions from `dir` on that are set in `adjacency` and in which less than
/// nothing is booked to leave, as far as they belong to the zone, in ascending
/// direction.
pub open spec fn inflow_turfs<A: Amount>(
    turfs: Seq<MixWithID>,
    max_x: int,
    max_y: int,
    i: TurfID,
    adjacency: u8,
    transfers: Seq<A>,
    dir: int,
) -> Seq<MixWithID>
    decreases 6 - dir,
{
    if dir >= 6 {
        Seq::empty()
    } else {
        let later = inflow_turfs(turfs, max_x, max_y, i, adjacency, transfers, dir + 1);
        let bit = 1u8 << (dir as u8);
        let loc = adjacent(dir, i, max_x, max_y);
        match entry_of(turfs, loc) {
            Some(mixture) => if adjacency & bit == bit && below_zero(transfers[dir]) {
                seq![(loc, mixture)] + later
            } else {
                later
            },
            None => later,
        }
    }
}

proof fn lemma_inflow_turfs<A: Amount>(
    turfs: Seq<MixWithID>,
    max_x: int,
    max_y: int,
    i: TurfID,
    adjacency: u8,
    transfers: Seq<A>,
    dir: int,
)
    requires
        0 <= dir <= 6,
    ensures
        source_turfs(turfs, max_x, max_y, i, source_bits(transfers, adjacency, 6), dir)
            == inflow_turfs(turfs, max_x, max_y, i, adjacency, transfers, dir),
    decreases 6 - dir,
{
    if dir < 6 {
        sources_are_inflows(transfers, adjacency, 6, dir as u8);
        lemma_inflow_turfs(turfs, max_x, max_y, i, adjacency, transfers, dir + 1);
    }
}

/// The work on turfs, one after the other, comes to its end.
proof fn lemma_each_finishes<A: Amount>(
    turfs: Seq<MixWithID>,
    max_x: int,
    max_y: int,
    list: Seq<MixWithID>,
    info: Map<TurfID, Ledger<A>>,
    effects: Seq<Effect<A>>,
    answers: spec_fn(int) -> (A, Option<A>),
    at: int,
) -> (parts: Seq<Seq<(A, Option<A>)>>)
    requires
        zero_is_still::<A>(),
        books_wf(info),
    ensures
        each_finishes(turfs, max_x, max_y, list, info, effects, parts),
        flat(parts) == Seq::new(flat(parts).len(), |k: int| answers(at + k)),
    decreases list.len(),
{
    if list.len() == 0 {
        let none = Seq::<Seq<(A, Option<A>)>>::empty();
        assert(flat(none) =~= Seq::new(0, |k: int| answers(at + k)));
        none
    } else {
        let first = begun(list[0], info, effects);
        let n = every_run_finishes(turfs, max_x, max_y, first, answers, at);
        let own = Seq::new(n, |k: int| answers(at + k));
        let one = run_on(turfs, max_x, max_y, first, own);
        runs_only_spend(turfs, max_x, max_y, first, own);
        let rest = lemma_each_finishes(
            turfs,
            max_x,
            max_y,
            list.drop_first(),
            one.info,
            one.effects,
            answers,
            at + n,
        );
        let parts = seq![own] + rest;
        assert(parts[0] == own);
        assert(parts.drop_first() =~= rest);
        assert(flat(parts) == own + flat(rest));
        assert forall|k: int| 0 <= k < flat(parts).len() implies flat(parts)[k] == answers(at + k) by {
            if k >= n {
                assert(flat(rest)[k - n] == answers(at + n + (k - n)));
            }
        }
        assert(flat(parts) =~= Seq::new(flat(parts).len(), |k: int| answers(at + k)));
        parts
    }
}

/// The neighbours that a turf waits for are worked off one by one, in ascending
/// direction: they are those from which gas is to come in. Whatever is answered,
/// the work on each of them comes to its end; all of it ends as after working off
/// each of them by itself, and goes on with what was to be done before. Nothing
/// is booked for them any more. If there are none, nothing changes. The result
/// are the answers, sorted by the neighbour that they are for.
pub proof fn neighbours_are_finalized_one_by_one<A: Amount>(
    turfs: Seq<MixWithID>,
    max_x: int,
    max_y: int,
    base: Seq<Task<A>>,
    turf: MixWithID,
    transfers: Seq<A>,
    info: Map<TurfID, Ledger<A>>,
    effects: Seq<Effect<A>>,
    answers: spec_fn(int) -> (A, Option<A>),
) -> (parts: Seq<Seq<(A, Option<A>)>>)
    requires
        zero_is_still::<A>(),
        books_wf(info),
    ensures
        ({
            let list = inflow_turfs(
                turfs,
                max_x,
                max_y,
                turf.0,
                turf.1.adjacency,
                transfers,
                0,
            );
            let sources = source_bits(transfers, turf.1.adjacency, 6);
            let pushed = Run {
                agenda: base + visits(turfs, max_x, max_y, turf.0, sources, 0),
                info,
                effects,
            };
            let one_by_one = each_finalized(turfs, max_x, max_y, list, info, effects, parts);
            &&& each_finishes(turfs, max_x, max_y, list, info, effects, parts)
            &&& flat(parts) == Seq::new(flat(parts).len(), |k: int| answers(k))
            &&& run_on(turfs, max_x, max_y, pushed, flat(parts)) == (Run {
                agenda: base,
                ..one_by_one
            })
            &&& forall|p: int|
                0 <= p < list.len() ==> spent(one_by_one.info, (#[trigger] list[p]).0)
            &&& list.len() == 0 ==> pushed.agenda == base && one_by_one.info == info
                && one_by_one.effects == effects
        }),
{
    let i = turf.0;
    let sources = source_bits(transfers, turf.1.adjacency, 6);
    let list = source_turfs(turfs, max_x, max_y, i, sources, 0);
    lemma_inflow_turfs(turfs, max_x, max_y, i, turf.1.adjacency, transfers, 0);
    let parts = lemma_each_finishes(turfs, max_x, max_y, list, info, effects, answers, 0);
    assert(flat(parts) =~= Seq::new(flat(parts).len(), |k: int| answers(k)));
    lemma_visits_one_by_one(turfs, max_x, max_y, base, i, sources, 0, info, effects, parts);
    lemma_none_pushed::<A>(turfs, max_x, max_y, i, sources, 0);
    if list.len() == 0 {
        assert(base + visits::<A>(turfs, max_x, max_y, i, sources, 0) =~= base);
    }
    parts
}

proof fn lemma_none_pushed<A: Amount>(
    turfs: Seq<MixWithID>,
    max_x: int,
    max_y: int,
    i: TurfID,
    sources: u8,
    dir: int,
)
    requires
        0 <= dir <= 6,
    ensures
        visits::<A>(turfs, max_x, max_y, i, sources, dir).len() == source_turfs(
            turfs,
            max_x,
            max_y,
            i,
            sources,
            dir,
        ).len(),
    decreases 6 - dir,
{
    if dir < 6 {
        lemma_none_pushed::<A>(turfs, max_x, max_y, i, sources, dir + 1);
    }
}

} // verus!
