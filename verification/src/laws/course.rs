//! Where the gas of a zone ends up.
use vstd::prelude::*;
use crate::amount::{above_zero, below_zero, opposed, ordered, Amount};
use crate::balance::{
    flow_in_step, lemma_group, lemma_negate_twice, lemma_opposed, lemma_second, lemma_sum_minus,
    lemma_sum_plus, lemma_sum_zero, lemma_undo, outflow, paired, sum,
};
use crate::finalize::{errands, flows, nulled, source_bits, stepped, visits, Effect, Task};
use crate::grid::{adjacent, opposite, opposite_step_returns, TurfID};
use crate::info::Ledger;
use crate::laws::breadth::opens_to;
use crate::laws::carried::{
    can_flow, known_visits, lemma_turn_exact, lemma_turn_known, lemma_turn_to_visit,
    lemma_visits_known, one_sign, to_come, to_visit,
};
use crate::laws::finalize::{
    answers_make_headway, left_to_do, live_turfs, only_spent, sources_are_inflows, spent,
    steps_make_headway, visited_turfs_stay_spent, zero_is_still,
};
use crate::laws::once::{
    flow_from, flows_as_booked, how_many, leaves, lemma_how_many_add, lemma_how_many_push,
    lemma_turn_as_booked, lemma_visits_fit_none, lemma_visits_only, visits_only,
};
use crate::laws::ordered::{lemma_more, lemma_order};
use crate::laws::runs::{lemma_only_spent, lemma_turn_wf, run_wf, turn, Run};
use crate::tables::{books_wf, distinct, entry_of, holds, place, MixWithID};

verus! {

/// The answer to what the next step asks for, if the air is as `gas` says and the
/// atmospheres of the planets hold what `planets` says.
pub open spec fn asked<A: Amount>(
    turfs: Seq<MixWithID>,
    max_x: int,
    max_y: int,
    run: Run<A>,
    gas: Map<usize, A>,
    planets: Map<u32, A>,
) -> (A, Option<A>) {
    match stepped(turfs, max_x, max_y, run.agenda, run.info).effect {
        Effect::ReadMoles { mix } => (gas[mix], None),
        Effect::ReadPlanet { planet } => (
            A::spec_zero(),
            if planets.contains_key(planet) {
                Some(planets[planet])
            } else {
                None
            },
        ),
        _ => (A::spec_zero(), None),
    }
}

/// The air once what `effect` asks for has been done. No more can be removed from
/// a turf than there is. Of an atmosphere that holds `total`, the part
/// `amount / total` is `amount`; what any other part comes to is left open.
pub open spec fn moved<A: Amount>(
    gas: Map<usize, A>,
    planets: Map<u32, A>,
    effect: Effect<A>,
) -> Map<usize, A> {
    match effect {
        Effect::Share { from, to, amount } => {
            let x = if gas[from].spec_lt(amount) {
                gas[from]
            } else {
                amount
            };
            let less = gas.insert(from, gas[from].spec_minus(x));
            less.insert(to, less[to].spec_plus(x))
        },
        Effect::Add { mix, amount } => gas.insert(mix, gas[mix].spec_plus(amount)),
        Effect::Merge { mix, planet, amount, total } => gas.insert(
            mix,
            if planets.contains_key(planet) && planets[planet] == total {
                gas[mix].spec_plus(amount)
            } else {
                arbitrary()
            },
        ),
        _ => gas,
    }
}

/// The work and the air after `n` more steps, or after the last one.
pub open spec fn aired<A: Amount>(
    turfs: Seq<MixWithID>,
    max_x: int,
    max_y: int,
    run: Run<A>,
    gas: Map<usize, A>,
    planets: Map<u32, A>,
    n: nat,
) -> (Run<A>, Map<usize, A>)
    decreases n,
{
    if n == 0 || run.agenda.len() == 0 {
        (run, gas)
    } else {
        let next = turn(
            turfs,
            max_x,
            max_y,
            run,
            asked(turfs, max_x, max_y, run, gas, planets),
        );
        aired(
            turfs,
            max_x,
            max_y,
            next,
            moved(gas, planets, next.effects.last()),
            planets,
            (n - 1) as nat,
        )
    }
}

/// The task exchanges gas between the air `mix` and a planet.
pub open spec fn exchange_with<A: Amount>(mix: usize) -> spec_fn(Task<A>) -> bool {
    |task: Task<A>|
        match task {
            Task::Vent { mix: m, .. } => m == mix,
            Task::Draw { mix: m, .. } => m == mix,
            _ => false,
        }
}

/// Something is booked to leave turf `i` for the planet, or to come in from there.
pub open spec fn left_for_planet<A: Amount>(info: Map<TurfID, Ledger<A>>, i: TurfID) -> nat {
    if info.contains_key(i) && info[i].transfers[6] != A::spec_zero() {
        1
    } else {
        0
    }
}

/// What a task gives away, be it to another turf or to the planet.
pub open spec fn gift<A: Amount>(task: Task<A>) -> Option<A> {
    match task {
        Task::Flow { amount, .. } => Some(amount),
        Task::Vent { amount, .. } => Some(amount),
        _ => None,
    }
}

/// What is to be moved in a zone: its turfs, the size of the map, the books, the air
/// and what the atmospheres of the planets hold to begin with, and a rank of each turf.
pub struct Course<A: Amount> {
    pub turfs: Seq<MixWithID>,
    pub max_x: int,
    pub max_y: int,
    pub info: Map<TurfID, Ledger<A>>,
    pub gas: Map<usize, A>,
    pub planets: Map<u32, A>,
    pub rank: spec_fn(TurfID) -> int,
}

impl<A: Amount> Course<A> {
    /// The neighbour of turf `i` in direction `d`.
    pub open spec fn next(self, i: TurfID, d: int) -> TurfID {
        adjacent(d, i, self.max_x, self.max_y)
    }

    /// The air of turf `i`.
    pub open spec fn mix(self, i: TurfID) -> usize {
        (entry_of(self.turfs, i)->0).mix
    }

    /// What is booked to leave turf `i` in direction `d`.
    pub open spec fn booked(self, i: TurfID, d: int) -> A {
        self.info[i].transfers[d]
    }

    /// The turf whose air is `mix`.
    pub open spec fn owner(self, mix: usize) -> TurfID {
        choose|i: TurfID| #[trigger] self.info.contains_key(i) && self.mix(i) == mix
    }

    /// What turf `i` is to hold in the end.
    pub open spec fn goal(self, i: TurfID) -> A {
        self.gas[self.mix(i)].spec_minus(sum(self.info[i].transfers))
    }

    /// The zone is by itself: exactly its turfs have books, no two of them share
    /// their air, what is booked to come from a planet comes from one that has gas, and
    /// what is booked to flow can flow, to a turf of the zone.
    pub open spec fn self_contained(self) -> bool {
        &&& distinct(self.turfs)
        &&& forall|k: TurfID| #[trigger] self.info.contains_key(k) == holds(self.turfs, k)
        &&& forall|p: int, q: int|
            0 <= p < q < self.turfs.len() ==> (#[trigger] self.turfs[p]).1.mix != (
            #[trigger] self.turfs[q]).1.mix
        &&& forall|i: TurfID| #[trigger]
            self.info.contains_key(i) && below_zero(self.booked(i, 6)) ==> ((entry_of(
                self.turfs,
                i,
            )->0).planetary_atmos matches Some(planet) && self.planets.contains_key(planet)
                && above_zero(self.planets[planet]))
        &&& forall|i: TurfID, d: int|
            #![trigger self.booked(i, d)]
            self.info.contains_key(i) && 0 <= d < 6 && self.booked(i, d) != A::spec_zero()
                ==> opens_to((entry_of(self.turfs, i)->0).adjacency, d as u8)
                && self.info.contains_key(self.next(i, d))
    }

    /// Gas flows from turfs of lower rank to turfs of higher rank: nowhere in a
    /// circle.
    pub open spec fn no_circles(self) -> bool {
        forall|i: TurfID, d: int|
            #![trigger self.booked(i, d)]
            self.info.contains_key(i) && 0 <= d < 6 && above_zero(self.booked(i, d)) ==> (
            self.rank)(i) < (self.rank)(self.next(i, d))
    }

    /// No turf is to hold less than nothing in the end.
    pub open spec fn affordable(self) -> bool {
        forall|i: TurfID| #[trigger]
            self.info.contains_key(i) ==> A::spec_zero().spec_le(self.goal(i))
    }

    pub open spec fn wf(self) -> bool {
        &&& books_wf(self.info)
        &&& paired(self.info, self.max_x, self.max_y)
        &&& self.self_contained()
        &&& self.no_circles()
        &&& self.affordable()
    }

    /// What is booked between turf `i` and its neighbour in direction `d` is
    /// still to come.
    pub open spec fn open_edge(self, run: Run<A>, i: TurfID, d: int) -> bool {
        if above_zero(self.booked(i, d)) {
            to_come(run, i, d) > 0
        } else {
            to_come(run, self.next(i, d), opposite(d)) > 0
        }
    }

    /// How many exchanges of turf `i` with its planet are still to come.
    pub open spec fn exchanges(self, run: Run<A>, i: TurfID) -> nat {
        how_many(run.agenda, exchange_with(self.mix(i))) + left_for_planet(run.info, i)
    }

    /// What is still to leave turf `i`, in each direction.
    pub open spec fn due(self, run: Run<A>, i: TurfID) -> Seq<A> {
        Seq::new(
            7,
            |d: int|
                if (d < 6 && self.open_edge(run, i, d)) || (d == 6 && self.exchanges(run, i) > 0) {
                    self.booked(i, d)
                } else {
                    A::spec_zero()
                },
        )
    }

    /// In direction `j`, gas is booked to come in at turf `i`, and the turf that it
    /// comes from has not been visited.
    pub open spec fn awaited(self, run: Run<A>, i: TurfID, j: int) -> bool {
        &&& 0 <= j < 6
        &&& below_zero(self.booked(i, j))
        &&& leaves(run.info, self.next(i, j), opposite(j)) > 0
    }

    /// The turf of a task.
    pub open spec fn turf_of(self, task: Task<A>) -> TurfID {
        match task {
            Task::Visit { turf } => turf.0,
            Task::Check { turf, .. } => turf.0,
            Task::Flow { turf, .. } => turf.0,
            Task::Vent { mix, .. } => self.owner(mix),
            Task::Draw { mix, .. } => self.owner(mix),
            Task::Blow { from, .. } => from,
        }
    }

    /// The turf of a task has the air `mix`, has been visited, and `amount` was booked
    /// for it with the planet.
    pub open spec fn exchange_ok(self, run: Run<A>, mix: usize, amount: A) -> bool {
        let i = self.owner(mix);
        &&& self.info.contains_key(i)
        &&& self.mix(i) == mix
        &&& amount == self.booked(i, 6)
        &&& spent(run.info, i)
    }

    /// The task at `p` is one of a zone by itself; a check stands above what it checks,
    /// and knows all turfs that its turf waits for.
    pub open spec fn task_ok(self, run: Run<A>, p: int) -> bool {
        match run.agenda[p] {
            Task::Visit { turf } => entry_of(self.turfs, turf.0) == Some(turf.1),
            Task::Check { turf, sources, amount } => {
                &&& entry_of(self.turfs, turf.0) == Some(turf.1)
                &&& p > 0 && gift(run.agenda[p - 1]) == Some(amount) && self.turf_of(
                    run.agenda[p - 1],
                ) == turf.0
                &&& forall|j: int| #[trigger]
                    self.awaited(run, turf.0, j) ==> opens_to(sources, j as u8)
                &&& forall|j: u8|
                    j < 6 && #[trigger] opens_to(sources, j) ==> below_zero(
                        self.booked(turf.0, j as int),
                    )
            },
            Task::Flow { turf, dir, amount } => {
                &&& entry_of(self.turfs, turf.0) == Some(turf.1)
                &&& dir < 6
                &&& spent(run.info, turf.0)
            },
            Task::Vent { mix, amount } => self.exchange_ok(run, mix, amount) && above_zero(amount),
            Task::Draw { mix, planet, amount } => {
                &&& self.exchange_ok(run, mix, amount) && below_zero(amount)
                &&& (entry_of(self.turfs, self.owner(mix))->0).planetary_atmos == Some(planet)
                &&& p + 1 == run.agenda.len()
            },
            Task::Blow { .. } => true,
        }
    }

    /// Nothing above the gift at `p` is of a turf of higher rank.
    pub open spec fn above_ok(self, agenda: Seq<Task<A>>, p: int, q: int) -> bool {
        let a = self.turf_of(agenda[p]);
        let b = self.turf_of(agenda[q]);
        gift(agenda[p]) is Some ==> match agenda[q] {
            Task::Visit { .. } => (self.rank)(b) < (self.rank)(a),
            Task::Blow { .. } => true,
            _ => a == b || (self.rank)(b) < (self.rank)(a),
        }
    }

    /// A visit to turf `i` stands above `p`.
    pub open spec fn visit_above(self, agenda: Seq<Task<A>>, p: int, i: TurfID) -> bool {
        exists|q: int|
            p < q < agenda.len() && ((#[trigger] agenda[q]) matches Task::Visit { turf } && turf.0
                == i)
    }

    /// The gift at `p` is still to be checked, or there is enough for it, or all
    /// turfs that its turf waits for are visited first.
    pub open spec fn flow_ok(self, run: Run<A>, gas: Map<usize, A>, p: int) -> bool {
        let i = self.turf_of(run.agenda[p]);
        gift(run.agenda[p]) matches Some(amount) ==> {
            ||| p + 1 < run.agenda.len() && run.agenda[p + 1] is Check
            ||| p + 1 == run.agenda.len() && !gas[self.mix(i)].spec_lt(amount)
            ||| forall|j: int| #[trigger]
                self.awaited(run, i, j) ==> self.visit_above(run.agenda, p, self.next(i, j))
        }
    }

    /// What is known of the books of turf `i` in direction `j`.
    pub open spec fn books_ok(self, run: Run<A>, i: TurfID, j: int) -> bool {
        self.awaited(run, i, j) ==> run.info[i].transfers[j] == self.booked(i, j) || spent(
            run.info,
            i,
        )
    }

    /// What holds of the work all the while, whatever the air.
    pub open spec fn run_ok(self, run: Run<A>) -> bool {
        &&& run_wf(run)
        &&& only_spent(self.info, run.info)
        &&& flows_as_booked(self.info, run.agenda)
        &&& known_visits(self.turfs, run.agenda)
        &&& forall|p: int| 0 <= p < run.agenda.len() ==> #[trigger] self.task_ok(run, p)
        &&& forall|p: int, q: int|
            0 <= p < q < run.agenda.len() ==> #[trigger] self.above_ok(run.agenda, p, q)
        &&& forall|i: TurfID, d: int|
            can_flow(self.turfs, self.info, i, d) ==> #[trigger] to_come(run, i, d) <= 1
        &&& forall|i: TurfID|
            self.info.contains_key(i) && self.booked(i, 6) != A::spec_zero()
                ==> #[trigger] self.exchanges(run, i) <= 1
        &&& forall|i: TurfID, j: int|
            self.info.contains_key(i) ==> #[trigger] self.books_ok(run, i, j)
        &&& forall|i: TurfID| #[trigger]
            self.info.contains_key(i) ==> to_visit(run.agenda, i) || spent(run.info, i)
    }

    /// What holds of the work and the air all the while: with what is still to
    /// come, every turf ends up with what it is to hold.
    pub open spec fn on_course(self, run: Run<A>, gas: Map<usize, A>) -> bool {
        &&& self.run_ok(run)
        &&& forall|p: int| 0 <= p < run.agenda.len() ==> #[trigger] self.flow_ok(run, gas, p)
        &&& forall|i: TurfID| #[trigger]
            self.info.contains_key(i) ==> gas[self.mix(i)].spec_minus(sum(self.due(run, i)))
                == self.goal(i)
    }
}

/// Ordered amounts have one sign, and zero has none.
proof fn lemma_signs<A: Amount>()
    requires
        ordered::<A>(),
    ensures
        zero_is_still::<A>(),
        one_sign::<A>(),
        forall|a: A| below_zero(a) ==> #[trigger] above_zero(a.spec_negate()),
{
    let z = A::spec_zero();
    lemma_order(z, z, z);
    assert forall|b: A, a: A| above_zero(b) && above_zero(a) implies !#[trigger] opposed(b, a) by {
        let n = a.spec_negate();
        lemma_opposed(b, a);
        lemma_order(z, a, n);
        lemma_order(a, z, n);
        lemma_order(z, n, z);
        lemma_group(a, n, z);
        lemma_group(z, n, z);
        lemma_group(n, z, z);
    }
    assert forall|a: A| below_zero(a) implies #[trigger] above_zero(a.spec_negate()) by {
        let n = a.spec_negate();
        lemma_order(a, z, n);
        lemma_group(a, n, z);
        lemma_group(z, n, z);
        lemma_group(n, z, z);
    }
}

/// Where gas is to come in, it is booked to leave on the other side.
proof fn lemma_inflow<A: Amount>(c: Course<A>, i: TurfID, j: int)
    requires
        ordered::<A>(),
        c.wf(),
        c.info.contains_key(i),
        0 <= j < 6,
        below_zero(c.booked(i, j)),
    ensures
        ({
            let s = c.next(i, j);
            &&& can_flow(c.turfs, c.info, s, opposite(j))
            &&& c.booked(s, opposite(j)) == c.booked(i, j).spec_negate()
            &&& c.next(s, opposite(j)) == i
            &&& (c.rank)(s) < (c.rank)(i)
            &&& opens_to((entry_of(c.turfs, i)->0).adjacency, j as u8)
            &&& 0 <= opposite(j) < 6
            &&& opposite(opposite(j)) == j
        }),
{
    let s = c.next(i, j);
    let x = c.booked(i, j);
    let z = A::spec_zero();
    lemma_signs::<A>();
    assert(x != z);
    assert(c.info.contains_key(s));
    opposite_step_returns(j, i, c.max_x, c.max_y);
    assert(flow_in_step(c.info, i, j, c.max_x, c.max_y));
    lemma_opposed(outflow(c.info, i, j), outflow(c.info, s, opposite(j)));
    lemma_negate_twice(c.booked(s, opposite(j)));
    assert(above_zero(x.spec_negate()));
    assert(above_zero(c.booked(s, opposite(j))));
    assert(c.booked(s, opposite(j)) != z);
    assert(holds(c.turfs, s));
}

/// Where gas is to leave, it is booked to come in on the other side.
proof fn lemma_outflow<A: Amount>(c: Course<A>, i: TurfID, d: int)
    requires
        ordered::<A>(),
        c.wf(),
        c.info.contains_key(i),
        0 <= d < 6,
        above_zero(c.booked(i, d)),
    ensures
        ({
            let loc = c.next(i, d);
            &&& can_flow(c.turfs, c.info, i, d)
            &&& c.info.contains_key(loc)
            &&& entry_of(c.turfs, loc) is Some
            &&& c.booked(loc, opposite(d)) == c.booked(i, d).spec_negate()
            &&& !above_zero(c.booked(loc, opposite(d)))
            &&& c.next(loc, opposite(d)) == i
            &&& (c.rank)(i) < (c.rank)(loc)
            &&& loc != i
            &&& c.mix(loc) != c.mix(i)
            &&& 0 <= opposite(d) < 6
            &&& opposite(opposite(d)) == d
        }),
{
    let loc = c.next(i, d);
    let x = c.booked(i, d);
    lemma_signs::<A>();
    assert(x != A::spec_zero());
    assert(c.info.contains_key(loc));
    opposite_step_returns(d, i, c.max_x, c.max_y);
    assert(flow_in_step(c.info, i, d, c.max_x, c.max_y));
    lemma_opposed(outflow(c.info, i, d), outflow(c.info, loc, opposite(d)));
    lemma_negate_twice(c.booked(loc, opposite(d)));
    assert(opposed(x, c.booked(loc, opposite(d))));
    assert(holds(c.turfs, loc) && holds(c.turfs, i));
    let p = place(c.turfs, loc);
    let q = place(c.turfs, i);
    assert(c.turfs[p].0 == loc && c.turfs[q].0 == i);
    if p < q {
        assert(c.turfs[p].1.mix != c.turfs[q].1.mix);
    } else {
        assert(c.turfs[q].1.mix != c.turfs[p].1.mix);
    }
}

/// Two turfs of the zone have different air.
proof fn lemma_own_mix<A: Amount>(c: Course<A>, i: TurfID, k: TurfID)
    requires
        c.self_contained(),
        c.info.contains_key(i),
        c.info.contains_key(k),
        i != k,
    ensures
        c.mix(i) != c.mix(k),
{
    assert(holds(c.turfs, k) && holds(c.turfs, i));
    let p = place(c.turfs, k);
    let q = place(c.turfs, i);
    assert(c.turfs[p].0 == k && c.turfs[q].0 == i);
    if p < q {
        assert(c.turfs[p].1.mix != c.turfs[q].1.mix);
    } else {
        assert(c.turfs[q].1.mix != c.turfs[p].1.mix);
    }
}

/// Flows and their checks take turns.
proof fn lemma_flow_pairs<A: Amount>(turf: MixWithID, transfers: Seq<A>, sources: u8, dir: int)
    requires
        0 <= dir <= 6,
    ensures
        ({
            let tasks = flows(turf, transfers, sources, dir);
            &&& tasks.len() % 2 == 0
            &&& forall|p: int|
                0 <= p < tasks.len() ==> if p % 2 == 0 {
                    (#[trigger] tasks[p]) matches Task::Flow { turf: from, dir: d, amount } && from
                        == turf && d < 6 && amount == transfers[d as int] && above_zero(amount)
                } else {
                    tasks[p] matches Task::Check { turf: from, sources: s, amount } && from == turf
                        && s == sources && (tasks[p - 1] matches Task::Flow { amount: x, .. } && x
                        == amount)
                }
        }),
    decreases 6 - dir,
{
    if dir < 6 {
        lemma_flow_pairs(turf, transfers, sources, dir + 1);
        let later = flows(turf, transfers, sources, dir + 1);
        let tasks = flows(turf, transfers, sources, dir);
        assert forall|p: int| 0 <= p < tasks.len() implies if p % 2 == 0 {
            (#[trigger] tasks[p]) matches Task::Flow { turf: from, dir: d, amount } && from == turf
                && d < 6 && amount == transfers[d as int] && above_zero(amount)
        } else {
            tasks[p] matches Task::Check { turf: from, sources: s, amount } && from == turf && s
                == sources && (tasks[p - 1] matches Task::Flow { amount: x, .. } && x == amount)
        } by {
            if p < later.len() {
                assert(tasks[p] == later[p]);
                if p > 0 {
                    assert(tasks[p - 1] == later[p - 1]);
                }
            }
        }
    }
}

/// Every air has one turf.
proof fn lemma_owner<A: Amount>(c: Course<A>, i: TurfID)
    requires
        c.self_contained(),
        c.info.contains_key(i),
    ensures
        c.owner(c.mix(i)) == i,
{
    let k = c.owner(c.mix(i));
    assert(c.info.contains_key(k) && c.mix(k) == c.mix(i));
    if k != i {
        lemma_own_mix(c, i, k);
    }
}

/// What a visit sets off.
proof fn lemma_errand_tasks<A: Amount>(turf: MixWithID, t: Seq<A>)
    ensures
        ({
            let tasks = errands(turf, t);
            forall|k: int|
                0 <= k < tasks.len() ==> match #[trigger] tasks[k] {
                    Task::Flow { turf: from, dir, amount } => {
                        &&& from == turf && dir < 6 && amount == t[dir as int] && above_zero(amount)
                        &&& k + 1 < tasks.len() && tasks[k + 1] is Check
                    },
                    Task::Vent { mix, amount } => {
                        &&& mix == turf.1.mix && amount == t[6] && above_zero(amount)
                        &&& k + 1 < tasks.len() && tasks[k + 1] is Check
                    },
                    Task::Check { turf: from, sources, amount } => {
                        &&& from == turf && sources == source_bits(t, turf.1.adjacency, 6)
                        &&& k > 0 && gift(tasks[k - 1]) == Some(amount)
                    },
                    Task::Draw { mix, planet, amount } => {
                        &&& mix == turf.1.mix && amount == t[6] && below_zero(amount)
                        &&& turf.1.planetary_atmos == Some(planet)
                        &&& k + 1 == tasks.len()
                    },
                    _ => false,
                }
        }),
{
    let sources = source_bits(t, turf.1.adjacency, 6);
    let later = flows(turf, t, sources, 0);
    let tasks = errands(turf, t);
    lemma_flow_pairs(turf, t, sources, 0);
    assert forall|k: int| 0 <= k < tasks.len() implies match #[trigger] tasks[k] {
        Task::Flow { turf: from, dir, amount } => {
            &&& from == turf && dir < 6 && amount == t[dir as int] && above_zero(amount)
            &&& k + 1 < tasks.len() && tasks[k + 1] is Check
        },
        Task::Vent { mix, amount } => {
            &&& mix == turf.1.mix && amount == t[6] && above_zero(amount)
            &&& k + 1 < tasks.len() && tasks[k + 1] is Check
        },
        Task::Check { turf: from, sources, amount } => {
            &&& from == turf && sources == source_bits(t, turf.1.adjacency, 6)
            &&& k > 0 && gift(tasks[k - 1]) == Some(amount)
        },
        Task::Draw { mix, planet, amount } => {
            &&& mix == turf.1.mix && amount == t[6] && below_zero(amount)
            &&& turf.1.planetary_atmos == Some(planet)
            &&& k + 1 == tasks.len()
        },
        _ => false,
    } by {
        if k < later.len() {
            assert(tasks[k] == later[k]);
            if k % 2 == 0 {
                assert(k + 1 < later.len());
                assert(tasks[k + 1] == later[k + 1]);
                assert((k + 1) % 2 == 1);
            } else {
                assert(tasks[k - 1] == later[k - 1]);
                assert((k - 1) % 2 == 0);
            }
        }
    }
}

proof fn lemma_flows_no_exchange<A: Amount>(
    turf: MixWithID,
    t: Seq<A>,
    sources: u8,
    dir: int,
    mix: usize,
)
    requires
        0 <= dir <= 6,
    ensures
        how_many(flows(turf, t, sources, dir), exchange_with(mix)) == 0,
    decreases 6 - dir,
{
    if dir < 6 {
        lemma_flows_no_exchange(turf, t, sources, dir + 1, mix);
        let later = flows(turf, t, sources, dir + 1);
        let amount = t[dir];
        let flow = Task::Flow { turf, dir: dir as u8, amount };
        let check = Task::Check { turf, sources, amount };
        lemma_how_many_push(later, flow, exchange_with(mix));
        lemma_how_many_push(later.push(flow), check, exchange_with(mix));
    }
}

/// A visit sets off the whole exchange with the planet, and does so once: whatever else
/// is booked for the turf, if something is to leave it for the planet, exactly one
/// task gives away that amount; if something is to come in, and the turf belongs to a
/// planet, exactly one task takes that amount; and there is no other exchange.
pub proof fn visits_set_off_the_exchange<A: Amount>(turf: MixWithID, transfers: Seq<A>)
    ensures
        ({
            let x = transfers[6];
            let gives = A::spec_zero().spec_lt(x);
            let takes = !gives && x.spec_lt(A::spec_zero()) && turf.1.planetary_atmos is Some;
            let vent = |task: Task<A>| task == (Task::Vent { mix: turf.1.mix, amount: x });
            let draw = |task: Task<A>|
                task == (Task::Draw {
                    mix: turf.1.mix,
                    planet: turf.1.planetary_atmos->0,
                    amount: x,
                });
            let any = |task: Task<A>| task is Vent || task is Draw;
            let tasks = errands(turf, transfers);
            &&& how_many(tasks, vent) == (if gives {
                1nat
            } else {
                0
            })
            &&& takes ==> how_many(tasks, draw) == 1
            &&& how_many(tasks, any) == (if gives || takes {
                1nat
            } else {
                0
            })
            &&& forall|mix: usize|
                how_many(tasks, #[trigger] exchange_with(mix)) == (if mix == turf.1.mix && (gives
                    || takes) {
                    1nat
                } else {
                    0
                })
        }),
{
    let x = transfers[6];
    let sources = source_bits(transfers, turf.1.adjacency, 6);
    let later = flows(turf, transfers, sources, 0);
    let vent = |task: Task<A>| task == (Task::Vent { mix: turf.1.mix, amount: x });
    let draw = |task: Task<A>|
        task == (Task::Draw {
            mix: turf.1.mix,
            planet: turf.1.planetary_atmos->0,
            amount: x,
        });
    let any = |task: Task<A>| task is Vent || task is Draw;
    lemma_flows_fit_none(turf, transfers, sources, 0, vent);
    lemma_flows_fit_none(turf, transfers, sources, 0, draw);
    lemma_flows_fit_none(turf, transfers, sources, 0, any);
    let v = Task::Vent { mix: turf.1.mix, amount: x };
    let d = Task::Draw { mix: turf.1.mix, planet: turf.1.planetary_atmos->0, amount: x };
    let check = Task::Check { turf, sources, amount: x };
    lemma_how_many_push(later, v, vent);
    lemma_how_many_push(later.push(v), check, vent);
    lemma_how_many_push(later, d, vent);
    lemma_how_many_push(later, d, draw);
    lemma_how_many_push(later, v, any);
    lemma_how_many_push(later.push(v), check, any);
    lemma_how_many_push(later, d, any);
    assert forall|mix: usize| how_many(
        errands(turf, transfers),
        #[trigger] exchange_with(mix),
    ) == (if mix == turf.1.mix && (A::spec_zero().spec_lt(x) || (x.spec_lt(A::spec_zero())
        && turf.1.planetary_atmos is Some)) {
        1nat
    } else {
        0
    }) by {
        lemma_flows_no_exchange(turf, transfers, sources, 0, mix);
        lemma_how_many_push(later, v, exchange_with(mix));
        lemma_how_many_push(later.push(v), check, exchange_with(mix));
        lemma_how_many_push(later, d, exchange_with(mix));
    }
}

proof fn lemma_flows_fit_none<A: Amount>(
    turf: MixWithID,
    t: Seq<A>,
    sources: u8,
    dir: int,
    fits: spec_fn(Task<A>) -> bool,
)
    requires
        0 <= dir <= 6,
        forall|task: Task<A>| #[trigger] fits(task) ==> task is Vent || task is Draw,
    ensures
        how_many(flows(turf, t, sources, dir), fits) == 0,
    decreases 6 - dir,
{
    if dir < 6 {
        lemma_flows_fit_none(turf, t, sources, dir + 1, fits);
        let later = flows(turf, t, sources, dir + 1);
        let amount = t[dir];
        let flow = Task::Flow { turf, dir: dir as u8, amount };
        let check = Task::Check { turf, sources, amount };
        lemma_how_many_push(later, flow, fits);
        lemma_how_many_push(later.push(flow), check, fits);
        assert(!fits(flow) && !fits(check));
    }
}

/// What a turn does.
proof fn lemma_turn_shape<A: Amount>(c: Course<A>, run: Run<A>, answer: (A, Option<A>))
    requires
        ordered::<A>(),
        c.wf(),
        c.run_ok(run),
        run.agenda.len() > 0,
    ensures
        ({
            let next = turn(c.turfs, c.max_x, c.max_y, run, answer);
            let rest = run.agenda.drop_last();
            &&& rest.is_prefix_of(next.agenda)
            &&& only_spent(run.info, next.info)
            &&& only_spent(c.info, next.info)
            &&& forall|i: TurfID, j: int| #[trigger]
                c.awaited(next, i, j) ==> c.awaited(run, i, j)
            &&& match run.agenda.last() {
                Task::Visit { turf } => {
                    &&& c.info.contains_key(turf.0)
                    &&& turf.1.mix == c.mix(turf.0)
                    &&& next.agenda == rest + errands(turf, run.info[turf.0].transfers)
                    &&& next.info == run.info.insert(turf.0, nulled(run.info[turf.0]))
                    &&& spent(next.info, turf.0)
                    &&& next.effects.last() is Nothing
                },
                Task::Check { turf, sources, amount } => {
                    &&& c.info.contains_key(turf.0)
                    &&& next.info == run.info
                    &&& next.agenda == if answer.0.spec_lt(amount) {
                        rest + visits(c.turfs, c.max_x, c.max_y, turf.0, sources, 0)
                    } else {
                        rest
                    }
                    &&& next.effects.last() is ReadMoles
                },
                Task::Flow { turf, dir, amount } => {
                    let loc = c.next(turf.0, dir as int);
                    let back = opposite(dir as int);
                    &&& c.info.contains_key(turf.0)
                    &&& dir < 6
                    &&& above_zero(amount) && amount == c.booked(turf.0, dir as int)
                    &&& turf.1.mix == c.mix(turf.0)
                    &&& next.agenda == rest.push(Task::Blow { from: turf.0, to: loc, amount })
                    &&& next.info == run.info.insert(
                        loc,
                        Ledger {
                            transfers: run.info[loc].transfers.update(back, A::spec_zero()),
                            ..run.info[loc]
                        },
                    )
                    &&& next.effects.last() == (Effect::Share {
                        from: c.mix(turf.0),
                        to: c.mix(loc),
                        amount,
                    })
                },
                Task::Vent { mix, amount } => {
                    &&& next.info == run.info
                    &&& next.agenda == rest
                    &&& next.effects.last() == (Effect::Add { mix, amount: amount.spec_negate() })
                },
                Task::Draw { mix, planet, amount } => {
                    &&& next.info == run.info
                    &&& next.agenda == rest
                    &&& answer.1 is Some && above_zero(answer.1->0) ==> next.effects.last() == (
                    Effect::Merge {
                        mix,
                        planet,
                        amount: amount.spec_negate(),
                        total: answer.1->0,
                    })
                },
                Task::Blow { .. } => {
                    &&& next.info == run.info
                    &&& next.agenda == rest
                    &&& next.effects.last() is Consider
                },
            }
        }),
{
    lemma_signs::<A>();
    let next = turn(c.turfs, c.max_x, c.max_y, run, answer);
    let rest = run.agenda.drop_last();
    let top = run.agenda.len() - 1;
    let z = A::spec_zero();
    lemma_turn_wf(c.turfs, c.max_x, c.max_y, run, answer);
    lemma_only_spent(c.info, run.info, next.info);
    assert(c.task_ok(run, top));
    assert(run.agenda[top] == run.agenda.last());
    match run.agenda.last() {
        Task::Visit { turf } => {
            assert(holds(c.turfs, turf.0));
            assert(c.info.contains_key(turf.0));
            assert(run.info.contains_key(turf.0));
        },
        Task::Check { turf, sources, amount } => {
            assert(holds(c.turfs, turf.0));
        },
        Task::Flow { turf, dir, amount } => {
            assert(holds(c.turfs, turf.0));
            lemma_outflow(c, turf.0, dir as int);
            let loc = c.next(turf.0, dir as int);
            assert(run.info.contains_key(loc));
        },
        _ => {},
    }
    assert forall|i: TurfID, j: int| #[trigger] c.awaited(next, i, j) implies c.awaited(
        run,
        i,
        j,
    ) by {
        let s = c.next(i, j);
        let d = opposite(j);
        assert(run.info.contains_key(s) == next.info.contains_key(s));
        assert(next.info.contains_key(s));
        assert(next.info[s].transfers[d] == run.info[s].transfers[d] || next.info[s].transfers[d]
            == z);
    }
}

/// A flow on the agenda counts.
proof fn lemma_how_many_some<A: Amount>(
    agenda: Seq<Task<A>>,
    fits: spec_fn(Task<A>) -> bool,
)
    ensures
        how_many(agenda, fits) > 0 ==> exists|p: int|
            0 <= p < agenda.len() && fits(#[trigger] agenda[p]),
        forall|p: int| 0 <= p < agenda.len() && fits(#[trigger] agenda[p]) ==> how_many(agenda, fits)
            > 0,
    decreases agenda.len(),
{
    if agenda.len() > 0 {
        let front = agenda.drop_last();
        let top = agenda.len() - 1;
        lemma_how_many_some(front, fits);
        assert(agenda[top] == agenda.last());
        assert forall|p: int| 0 <= p < agenda.len() && fits(#[trigger] agenda[p]) implies how_many(
            agenda,
            fits,
        ) > 0 by {
            if p < top {
                assert(front[p] == agenda[p]);
            }
        }
        if how_many(agenda, fits) > 0 {
            if !fits(agenda.last()) {
                let p = choose|p: int| 0 <= p < front.len() && fits(#[trigger] front[p]);
                assert(agenda[p] == front[p]);
            }
        }
    }
}

/// A turn keeps what is known of the tasks.
proof fn lemma_turn_tasks<A: Amount>(c: Course<A>, run: Run<A>, answer: (A, Option<A>))
    requires
        ordered::<A>(),
        c.wf(),
        c.run_ok(run),
        run.agenda.len() > 0,
    ensures
        ({
            let next = turn(c.turfs, c.max_x, c.max_y, run, answer);
            forall|p: int| 0 <= p < next.agenda.len() ==> #[trigger] c.task_ok(next, p)
        }),
{
    lemma_signs::<A>();
    lemma_turn_shape(c, run, answer);
    let next = turn(c.turfs, c.max_x, c.max_y, run, answer);
    let rest = run.agenda.drop_last();
    let top = run.agenda.len() - 1;
    let z = A::spec_zero();
    assert(c.task_ok(run, top));
    assert(run.agenda[top] == run.agenda.last());
    visited_turfs_stay_spent(c.turfs, c.max_x, c.max_y, run.agenda, run.info);
    assert forall|p: int| 0 <= p < next.agenda.len() implies #[trigger] c.task_ok(next, p) by {
        if p < top {
            assert(c.task_ok(run, p));
            assert(next.agenda[p] == run.agenda[p]);
            if p > 0 {
                assert(next.agenda[p - 1] == run.agenda[p - 1]);
            }
            let k = c.turf_of(run.agenda[p]);
            assert(spent(run.info, k) ==> spent(next.info, k));
        } else {
            match run.agenda.last() {
                Task::Visit { turf } => {
                    let i = turf.0;
                    let t = run.info[i].transfers;
                    let sources = source_bits(t, turf.1.adjacency, 6);
                    let more = errands(turf, t);
                    lemma_errand_tasks(turf, t);
                    lemma_owner(c, i);
                    let k = p - top;
                    assert(next.agenda[p] == more[k]);
                    assert(run.info.contains_key(i));
                    assert(t[6] == c.info[i].transfers[6] || t[6] == z);
                    if more[k] is Check {
                        assert(next.agenda[p - 1] == more[k - 1]);
                        // something is still booked to leave the turf
                        let d = match more[k - 1] {
                            Task::Flow { dir, .. } => dir as int,
                            _ => 6,
                        };
                        assert(above_zero(t[d]));
                        assert(run.info.contains_key(i));
                        assert forall|j: int| #[trigger] c.awaited(next, i, j) implies opens_to(
                            sources,
                            j as u8,
                        ) by {
                            assert(c.awaited(run, i, j));
                            assert(c.books_ok(run, i, j));
                            if spent(run.info, i) {
                                assert(run.info[i].transfers[d] == z);
                            }
                            assert(t[j] == c.booked(i, j));
                            lemma_inflow(c, i, j);
                            sources_are_inflows(t, turf.1.adjacency, 6, j as u8);
                        }
                        assert forall|j: u8|
                            j < 6 && #[trigger] opens_to(sources, j) implies below_zero(
                            c.booked(i, j as int),
                        ) by {
                            sources_are_inflows(t, turf.1.adjacency, 6, j);
                            assert(t[j as int] == c.info[i].transfers[j as int] || t[j as int]
                                == z);
                        }
                    }
                },
                Task::Check { turf, sources, amount } => {
                    let more = visits::<A>(c.turfs, c.max_x, c.max_y, turf.0, sources, 0);
                    lemma_visits_known::<A>(c.turfs, c.max_x, c.max_y, turf.0, sources, 0);
                    assert(next.agenda[p] == more[p - top]);
                },
                _ => {},
            }
        }
    }
}

/// A turn keeps the order of the tasks.
proof fn lemma_turn_above<A: Amount>(c: Course<A>, run: Run<A>, answer: (A, Option<A>))
    requires
        ordered::<A>(),
        c.wf(),
        c.run_ok(run),
        run.agenda.len() > 0,
    ensures
        ({
            let next = turn(c.turfs, c.max_x, c.max_y, run, answer);
            forall|p: int, q: int|
                0 <= p < q < next.agenda.len() ==> #[trigger] c.above_ok(next.agenda, p, q)
        }),
{
    lemma_turn_shape(c, run, answer);
    let next = turn(c.turfs, c.max_x, c.max_y, run, answer);
    let rest = run.agenda.drop_last();
    let top = run.agenda.len() - 1;
    assert(c.task_ok(run, top));
    assert(run.agenda[top] == run.agenda.last());
    assert forall|p: int, q: int| 0 <= p < q < next.agenda.len() implies #[trigger] c.above_ok(
        next.agenda,
        p,
        q,
    ) by {
        if p < top {
            assert(next.agenda[p] == run.agenda[p]);
            assert(c.above_ok(run.agenda, p, top));
        }
        if q < top {
            assert(next.agenda[q] == run.agenda[q]);
            assert(c.above_ok(run.agenda, p, q));
        } else {
            match run.agenda.last() {
                Task::Visit { turf } => {
                    let t = run.info[turf.0].transfers;
                    let more = errands(turf, t);
                    lemma_errand_tasks(turf, t);
                    lemma_owner(c, turf.0);
                    assert(next.agenda[q] == more[q - top]);
                    if p >= top {
                        assert(next.agenda[p] == more[p - top]);
                    }
                },
                Task::Check { turf, sources, amount } => {
                    let more = visits::<A>(c.turfs, c.max_x, c.max_y, turf.0, sources, 0);
                    lemma_visits_known::<A>(c.turfs, c.max_x, c.max_y, turf.0, sources, 0);
                    assert(next.agenda[q] == more[q - top]);
                    let s = more[q - top]->Visit_turf.0;
                    let j = choose|j: u8|
                        0 <= j < 6 && #[trigger] opens_to(sources, j) && s == adjacent(
                            j as int,
                            turf.0,
                            c.max_x,
                            c.max_y,
                        );
                    assert(below_zero(c.booked(turf.0, j as int)));
                    lemma_inflow(c, turf.0, j as int);
                    if p >= top {
                        assert(next.agenda[p] == more[p - top]);
                    }
                },
                _ => {},
            }
        }
    }
}

/// A turn keeps what is known of the books.
proof fn lemma_turn_books<A: Amount>(c: Course<A>, run: Run<A>, answer: (A, Option<A>))
    requires
        ordered::<A>(),
        c.wf(),
        c.run_ok(run),
        run.agenda.len() > 0,
    ensures
        ({
            let next = turn(c.turfs, c.max_x, c.max_y, run, answer);
            forall|i: TurfID, j: int|
                c.info.contains_key(i) ==> #[trigger] c.books_ok(next, i, j)
        }),
{
    lemma_signs::<A>();
    lemma_turn_shape(c, run, answer);
    let next = turn(c.turfs, c.max_x, c.max_y, run, answer);
    let top = run.agenda.len() - 1;
    let z = A::spec_zero();
    assert(c.task_ok(run, top));
    assert(run.agenda[top] == run.agenda.last());
    assert forall|i: TurfID, j: int| c.info.contains_key(i) implies #[trigger] c.books_ok(
        next,
        i,
        j,
    ) by {
        if c.awaited(next, i, j) {
            assert(c.awaited(run, i, j));
            assert(c.books_ok(run, i, j));
            assert(run.info.contains_key(i) && next.info.contains_key(i));
            if spent(run.info, i) {
                assert forall|d: int| 0 <= d < 7 implies #[trigger] next.info[i].transfers[d]
                    == z by {
                    assert(run.info[i].transfers[d] == z);
                    assert(next.info[i].transfers[d] == run.info[i].transfers[d]
                        || next.info[i].transfers[d] == z);
                }
                assert(spent(next.info, i));
            } else if run.agenda.last() is Flow {
                let turf = run.agenda.last()->Flow_turf;
                let dir = run.agenda.last()->Flow_dir as int;
                let loc = c.next(turf.0, dir);
                lemma_outflow(c, turf.0, dir);
                if loc == i && opposite(dir) == j {
                    // the flow comes from the turf that is waited for
                    let fits = flow_from::<A>(turf.0, dir);
                    lemma_how_many_some(run.agenda, fits);
                    assert(fits(run.agenda[top]));
                    assert(to_come(run, turf.0, dir) <= 1);
                    assert(leaves(run.info, turf.0, dir) == 0);
                    assert(c.next(i, j) == turf.0);
                    assert(false);
                }
            }
        }
    }
}

/// A turn keeps all that holds of the work whatever the air.
proof fn lemma_turn_run_ok<A: Amount>(c: Course<A>, run: Run<A>, answer: (A, Option<A>))
    requires
        ordered::<A>(),
        c.wf(),
        c.run_ok(run),
        run.agenda.len() > 0,
    ensures
        c.run_ok(turn(c.turfs, c.max_x, c.max_y, run, answer)),
{
    lemma_signs::<A>();
    let next = turn(c.turfs, c.max_x, c.max_y, run, answer);
    lemma_turn_wf(c.turfs, c.max_x, c.max_y, run, answer);
    lemma_turn_shape(c, run, answer);
    lemma_turn_as_booked(c.turfs, c.max_x, c.max_y, c.info, run, answer);
    lemma_turn_known(c.turfs, c.max_x, c.max_y, run, answer);
    lemma_turn_tasks(c, run, answer);
    lemma_turn_above(c, run, answer);
    lemma_turn_books(c, run, answer);
    assert forall|i: TurfID, d: int| can_flow(c.turfs, c.info, i, d) implies #[trigger] to_come(
        next,
        i,
        d,
    ) <= 1 by {
        assert(to_come(run, i, d) <= 1);
        lemma_turn_exact(c.turfs, c.max_x, c.max_y, c.info, run, answer, i, d);
    }
    assert forall|i: TurfID|
        c.info.contains_key(i) && c.booked(i, 6) != A::spec_zero() implies #[trigger] c.exchanges(
        next,
        i,
    ) <= 1 by {
        assert(c.exchanges(run, i) <= 1);
        lemma_turn_exchanges(c, run, answer, i);
    }
    assert forall|i: TurfID| #[trigger] c.info.contains_key(i) implies to_visit(next.agenda, i)
        || spent(next.info, i) by {
        lemma_turn_to_visit(c.turfs, c.max_x, c.max_y, run, answer, i);
    }
}

/// A turn keeps gifts waiting for what they need.
proof fn lemma_turn_flows<A: Amount>(c: Course<A>, run: Run<A>, gas: Map<usize, A>)
    requires
        ordered::<A>(),
        c.wf(),
        c.on_course(run, gas),
        run.agenda.len() > 0,
    ensures
        ({
            let answer = asked(c.turfs, c.max_x, c.max_y, run, gas, c.planets);
            let next = turn(c.turfs, c.max_x, c.max_y, run, answer);
            let after = moved(gas, c.planets, next.effects.last());
            forall|p: int| 0 <= p < next.agenda.len() ==> #[trigger] c.flow_ok(next, after, p)
        }),
{
    lemma_signs::<A>();
    let answer = asked(c.turfs, c.max_x, c.max_y, run, gas, c.planets);
    lemma_turn_shape(c, run, answer);
    let next = turn(c.turfs, c.max_x, c.max_y, run, answer);
    let after = moved(gas, c.planets, next.effects.last());
    let rest = run.agenda.drop_last();
    let top = run.agenda.len() - 1;
    assert(c.task_ok(run, top));
    assert(run.agenda[top] == run.agenda.last());
    assert forall|p: int| 0 <= p < next.agenda.len() implies #[trigger] c.flow_ok(
        next,
        after,
        p,
    ) by {
        if gift(next.agenda[p]) is Some {
            let i = c.turf_of(next.agenda[p]);
            if p >= top {
                match run.agenda.last() {
                    Task::Visit { turf } => {
                        let t = run.info[turf.0].transfers;
                        let more = errands(turf, t);
                        lemma_errand_tasks(turf, t);
                        let k = p - top;
                        assert(next.agenda[p] == more[k]);
                        assert(next.agenda[p + 1] == more[k + 1]);
                    },
                    Task::Check { turf, sources, amount } => {
                        let more = visits::<A>(c.turfs, c.max_x, c.max_y, turf.0, sources, 0);
                        lemma_visits_known::<A>(c.turfs, c.max_x, c.max_y, turf.0, sources, 0);
                        assert(next.agenda[p] == more[p - top]);
                    },
                    _ => {},
                }
            } else {
                assert(next.agenda[p] == run.agenda[p]);
                assert(c.flow_ok(run, gas, p));
                assert(c.task_ok(run, p));
                assert(c.info.contains_key(i)) by {
                    if run.agenda[p] is Flow {
                        assert(holds(c.turfs, i));
                    }
                }
                if p + 1 == top && run.agenda.last() is Check {
                    let turf = run.agenda.last()->Check_turf;
                    let sources = run.agenda.last()->Check_sources;
                    let amount = run.agenda.last()->Check_amount;
                    assert(run.agenda[top - 1] == run.agenda[p]);
                    assert(turf.0 == i);
                    assert(answer.0 == gas[c.mix(i)]);
                    if answer.0.spec_lt(amount) {
                        let more = visits::<A>(c.turfs, c.max_x, c.max_y, i, sources, 0);
                        lemma_visits_known::<A>(c.turfs, c.max_x, c.max_y, i, sources, 0);
                        assert forall|j: int| #[trigger] c.awaited(next, i, j) implies c.visit_above(
                            next.agenda,
                            p,
                            c.next(i, j),
                        ) by {
                            assert(c.awaited(run, i, j));
                            lemma_inflow(c, i, j);
                            assert(opens_to(sources, j as u8));
                            let s = c.next(i, j);
                            assert(to_visit(more, s));
                            let k = choose|k: int|
                                0 <= k < more.len() && ((#[trigger] more[k]) matches Task::Visit {
                                    turf,
                                } && turf.0 == s);
                            assert(next.agenda[top + k] == more[k]);
                        }
                    }
                } else if p + 1 < top && run.agenda[p + 1] is Check {
                    assert(next.agenda[p + 1] == run.agenda[p + 1]);
                } else {
                    assert forall|j: int| #[trigger] c.awaited(next, i, j) implies c.visit_above(
                        next.agenda,
                        p,
                        c.next(i, j),
                    ) by {
                        assert(c.awaited(run, i, j));
                        let s = c.next(i, j);
                        assert(c.visit_above(run.agenda, p, s));
                        let q = choose|q: int|
                            p < q < run.agenda.len() && ((
                            #[trigger] run.agenda[q]) matches Task::Visit { turf } && turf.0 == s);
                        if q < top {
                            assert(next.agenda[q] == run.agenda[q]);
                        } else {
                            assert(spent(next.info, s));
                            lemma_inflow(c, i, j);
                            assert(next.info.contains_key(s));
                            assert(next.info[s].transfers[opposite(j)] == A::spec_zero());
                        }
                    }
                }
            }
        }
    }
}

/// What one turn does to the exchanges with the planet that are to come: none is lost.
proof fn lemma_turn_exchanges<A: Amount>(
    c: Course<A>,
    run: Run<A>,
    answer: (A, Option<A>),
    i: TurfID,
)
    requires
        ordered::<A>(),
        c.wf(),
        c.run_ok(run),
        run.agenda.len() > 0,
        c.info.contains_key(i),
        c.booked(i, 6) != A::spec_zero(),
    ensures
        ({
            let next = turn(c.turfs, c.max_x, c.max_y, run, answer);
            let carried = if exchange_with(c.mix(i))(run.agenda.last()) {
                1nat
            } else {
                0
            };
            carried + c.exchanges(next, i) == c.exchanges(run, i)
        }),
{
    lemma_signs::<A>();
    lemma_turn_shape(c, run, answer);
    let next = turn(c.turfs, c.max_x, c.max_y, run, answer);
    let rest = run.agenda.drop_last();
    let top = run.agenda.len() - 1;
    let mix = c.mix(i);
    let fits = exchange_with::<A>(mix);
    let z = A::spec_zero();
    assert(c.task_ok(run, top));
    assert(run.agenda[top] == run.agenda.last());
    assert(run.info.contains_key(i) && next.info.contains_key(i));
    match run.agenda.last() {
        Task::Visit { turf } => {
            let t = run.info[turf.0].transfers;
            let more = errands(turf, t);
            lemma_how_many_add(rest, more, fits);
            visits_set_off_the_exchange(turf, t);
            assert(how_many(more, exchange_with(mix)) == how_many(more, fits));
            if turf.0 == i {
                assert(t[6] == c.info[i].transfers[6] || t[6] == z);
                lemma_three_ways(t[6]);
                assert(next.info[i].transfers[6] == z);
            } else {
                lemma_own_mix(c, i, turf.0);
                assert(next.info[i] == run.info[i]);
            }
        },
        Task::Check { turf, sources, amount } => {
            let more = visits::<A>(c.turfs, c.max_x, c.max_y, turf.0, sources, 0);
            lemma_visits_fit_none::<A>(c.turfs, c.max_x, c.max_y, turf.0, sources, 0, fits);
            lemma_how_many_add(rest, more, fits);
        },
        Task::Flow { turf, dir, amount } => {
            let loc = c.next(turf.0, dir as int);
            let blow = Task::Blow { from: turf.0, to: loc, amount };
            lemma_how_many_push(rest, blow, fits);
            lemma_outflow(c, turf.0, dir as int);
            assert(run.info.contains_key(loc));
            assert(next.info[i].transfers[6] == run.info[i].transfers[6]);
        },
        _ => {},
    }
}

/// Amounts not below zero are at most their sum.
proof fn lemma_at_most_sum<A: Amount>(amounts: Seq<A>)
    requires
        ordered::<A>(),
        forall|p: int| 0 <= p < amounts.len() ==> A::spec_zero().spec_le(#[trigger] amounts[p]),
    ensures
        A::spec_zero().spec_le(sum(amounts)),
        forall|p: int| 0 <= p < amounts.len() ==> (#[trigger] amounts[p]).spec_le(sum(amounts)),
    decreases amounts.len(),
{
    let z = A::spec_zero();
    lemma_order(z, z, z);
    if amounts.len() > 0 {
        let front = amounts.drop_last();
        let x = amounts.last();
        let all = sum(amounts);
        assert forall|p: int| 0 <= p < front.len() implies z.spec_le(#[trigger] front[p]) by {
            assert(front[p] == amounts[p]);
        }
        lemma_at_most_sum(front);
        assert(amounts[amounts.len() - 1] == x);
        lemma_more(sum(front), x);
        lemma_more(x, sum(front));
        lemma_group(sum(front), x, z);
        lemma_order(z, x, all);
        assert forall|p: int| 0 <= p < amounts.len() implies (#[trigger] amounts[p]).spec_le(
            all,
        ) by {
            if p < front.len() {
                assert(front[p] == amounts[p]);
                lemma_order(amounts[p], sum(front), all);
            }
        }
    }
}

/// What is not zero is above or below it.
proof fn lemma_three_ways<A: Amount>(a: A)
    requires
        ordered::<A>(),
    ensures
        a == A::spec_zero() || above_zero(a) || below_zero(a),
        above_zero(a) ==> A::spec_zero().spec_le(a) && a != A::spec_zero(),
{
    lemma_order(a, A::spec_zero(), a);
    lemma_order(A::spec_zero(), A::spec_zero(), a);
}

/// Whenever gas is given away, there is enough of it.
proof fn lemma_enough<A: Amount>(c: Course<A>, run: Run<A>, gas: Map<usize, A>)
    requires
        ordered::<A>(),
        c.wf(),
        c.on_course(run, gas),
        run.agenda.len() > 0,
        gift(run.agenda.last()) is Some,
    ensures
        !gas[c.mix(c.turf_of(run.agenda.last()))].spec_lt(gift(run.agenda.last())->0),
{
    lemma_signs::<A>();
    let z = A::spec_zero();
    let top = run.agenda.len() - 1;
    let task = run.agenda[top];
    let x = gift(task)->0;
    let i = c.turf_of(task);
    assert(task == run.agenda.last());
    assert(c.task_ok(run, top));
    assert(c.flow_ok(run, gas, top));
    assert(c.info.contains_key(i));
    assert(run.info.contains_key(i));
    let held = gas[c.mix(i)];
    if held.spec_lt(x) {
        let due = c.due(run, i);
        lemma_order(z, z, z);
        assert forall|d: int| 0 <= d < due.len() implies z.spec_le(#[trigger] due[d]) by {
            lemma_three_ways(c.booked(i, d));
            if below_zero(c.booked(i, d)) && due[d] != z {
                lemma_order(z, c.booked(i, d), z);
                if d < 6 {
                    lemma_inflow(c, i, d);
                    let s = c.next(i, d);
                    let e = opposite(d);
                    if leaves(run.info, s, e) > 0 {
                        assert(c.awaited(run, i, d));
                        assert(c.visit_above(run.agenda, top, s));
                        assert(false);
                    }
                    let fits = flow_from::<A>(s, e);
                    lemma_how_many_some(run.agenda, fits);
                    let r = choose|r: int|
                        0 <= r < run.agenda.len() && fits(#[trigger] run.agenda[r]);
                    if r < top {
                        assert(c.above_ok(run.agenda, r, top));
                    }
                    assert(false);
                } else {
                    // what comes from the planet comes first
                    assert(spent(run.info, i));
                    assert(run.info[i].transfers[6] == z);
                    let fits = exchange_with::<A>(c.mix(i));
                    lemma_how_many_some(run.agenda, fits);
                    let r = choose|r: int|
                        0 <= r < run.agenda.len() && fits(#[trigger] run.agenda[r]);
                    assert(c.task_ok(run, r));
                    lemma_owner(c, i);
                    assert(r == top);
                    assert(false);
                }
            }
        }
        let d = match task {
            Task::Flow { dir, .. } => dir as int,
            _ => 6,
        };
        if task is Flow {
            let fits = flow_from::<A>(i, d);
            lemma_how_many_some(run.agenda, fits);
            assert(fits(run.agenda[top]));
        } else {
            let fits = exchange_with::<A>(c.mix(i));
            lemma_how_many_some(run.agenda, fits);
            assert(fits(run.agenda[top]));
        }
        assert(due[d] == x);
        lemma_at_most_sum(due);
        let all = sum(due);
        assert(held.spec_minus(all) == c.goal(i));
        lemma_order(z, c.goal(i), all);
        lemma_undo(held, all);
        lemma_group(z, all, z);
        lemma_group(all, z, z);
        lemma_order(x, all, held);
        lemma_order(held, x, z);
    }
}

/// What is due of turf `i` stays so while no flow that is booked for it changes.
proof fn lemma_same_due<A: Amount>(c: Course<A>, run: Run<A>, next: Run<A>, i: TurfID)
    requires
        ordered::<A>(),
        c.wf(),
        c.info.contains_key(i),
        forall|d: int|
            0 <= d < 6 && above_zero(c.booked(i, d)) ==> #[trigger] to_come(next, i, d) == to_come(
                run,
                i,
                d,
            ),
        forall|d: int|
            0 <= d < 6 && below_zero(#[trigger] c.booked(i, d)) ==> to_come(
                next,
                c.next(i, d),
                opposite(d),
            ) == to_come(run, c.next(i, d), opposite(d)),
        c.booked(i, 6) != A::spec_zero() ==> c.exchanges(next, i) == c.exchanges(run, i),
    ensures
        c.due(next, i) == c.due(run, i),
{
    let a = c.due(run, i);
    let b = c.due(next, i);
    assert forall|d: int| 0 <= d < 7 implies a[d] == b[d] by {
        if d < 6 {
            lemma_three_ways(c.booked(i, d));
            if above_zero(c.booked(i, d)) {
                assert(to_come(next, i, d) == to_come(run, i, d));
            }
        }
    }
    assert(a =~= b);
}

/// The other flows and exchanges are to come as before.
proof fn lemma_others_to_come<A: Amount>(
    c: Course<A>,
    run: Run<A>,
    answer: (A, Option<A>),
    i: TurfID,
)
    requires
        ordered::<A>(),
        c.wf(),
        c.run_ok(run),
        run.agenda.len() > 0,
        c.info.contains_key(i),
    ensures
        ({
            let next = turn(c.turfs, c.max_x, c.max_y, run, answer);
            let task = run.agenda.last();
            let other = |k: TurfID, d: int|
                !(task is Flow && task->Flow_turf.0 == k && task->Flow_dir == d);
            &&& forall|d: int|
                0 <= d < 6 && above_zero(c.booked(i, d)) && other(i, d) ==> #[trigger] to_come(
                    next,
                    i,
                    d,
                ) == to_come(run, i, d)
            &&& forall|d: int|
                0 <= d < 6 && below_zero(#[trigger] c.booked(i, d)) && other(
                    c.next(i, d),
                    opposite(d),
                ) ==> to_come(next, c.next(i, d), opposite(d)) == to_come(
                    run,
                    c.next(i, d),
                    opposite(d),
                )
            &&& c.booked(i, 6) != A::spec_zero() && !exchange_with(c.mix(i))(task)
                ==> c.exchanges(next, i) == c.exchanges(run, i)
        }),
{
    lemma_signs::<A>();
    let next = turn(c.turfs, c.max_x, c.max_y, run, answer);
    let task = run.agenda.last();
    let other = |k: TurfID, d: int|
        !(task is Flow && task->Flow_turf.0 == k && task->Flow_dir == d);
    assert forall|d: int|
        0 <= d < 6 && above_zero(c.booked(i, d)) && other(i, d) implies #[trigger] to_come(
        next,
        i,
        d,
    ) == to_come(run, i, d) by {
        lemma_outflow(c, i, d);
        lemma_turn_exact(c.turfs, c.max_x, c.max_y, c.info, run, answer, i, d);
        assert(!flow_from(i, d)(task));
    }
    assert forall|d: int|
        0 <= d < 6 && below_zero(#[trigger] c.booked(i, d)) && other(
            c.next(i, d),
            opposite(d),
        ) implies to_come(next, c.next(i, d), opposite(d)) == to_come(
        run,
        c.next(i, d),
        opposite(d),
    ) by {
        lemma_inflow(c, i, d);
        let s = c.next(i, d);
        lemma_turn_exact(c.turfs, c.max_x, c.max_y, c.info, run, answer, s, opposite(d));
        assert(!flow_from(s, opposite(d))(task));
    }
    if c.booked(i, 6) != A::spec_zero() {
        lemma_turn_exchanges(c, run, answer, i);
    }
}

/// A flow between two turfs keeps every turf on its way.
#[verifier::rlimit(40)]
proof fn lemma_flow_gas<A: Amount>(c: Course<A>, run: Run<A>, gas: Map<usize, A>, i: TurfID)
    requires
        ordered::<A>(),
        c.wf(),
        c.on_course(run, gas),
        run.agenda.len() > 0,
        run.agenda.last() is Flow,
        c.info.contains_key(i),
    ensures
        ({
            let answer = asked(c.turfs, c.max_x, c.max_y, run, gas, c.planets);
            let next = turn(c.turfs, c.max_x, c.max_y, run, answer);
            let after = moved(gas, c.planets, next.effects.last());
            after[c.mix(i)].spec_minus(sum(c.due(next, i))) == c.goal(i)
        }),
{
    lemma_signs::<A>();
    let answer = asked(c.turfs, c.max_x, c.max_y, run, gas, c.planets);
    lemma_turn_shape(c, run, answer);
    let next = turn(c.turfs, c.max_x, c.max_y, run, answer);
    let after = moved(gas, c.planets, next.effects.last());
    let top = run.agenda.len() - 1;
    assert(run.agenda[top] == run.agenda.last());
    let task = run.agenda.last();
    let g = task->Flow_turf.0;
    let e = task->Flow_dir as int;
    let x = task->Flow_amount;
    let loc = c.next(g, e);
    let back = opposite(e);
    let before = c.due(run, i);
    let due = c.due(next, i);
    lemma_enough(c, run, gas);
    lemma_outflow(c, g, e);
    lemma_turn_exact(c.turfs, c.max_x, c.max_y, c.info, run, answer, g, e);
    assert(flow_from(g, e)(task));
    assert(to_come(run, g, e) <= 1);
    assert(to_come(run, g, e) == 1 && to_come(next, g, e) == 0);
    assert(after[c.mix(g)] == gas[c.mix(g)].spec_minus(x));
    assert(after[c.mix(loc)] == gas[c.mix(loc)].spec_plus(x));
    lemma_three_ways(x);
    lemma_others_to_come(c, run, answer, i);
    assert(gas[c.mix(i)].spec_minus(sum(before)) == c.goal(i));
    if i == g {
        assert forall|d: int| 0 <= d < 7 && d != e implies before[d] == due[d] by {
            lemma_three_ways(c.booked(i, d));
            if d < 6 {
                if above_zero(c.booked(i, d)) {
                    assert(to_come(next, i, d) == to_come(run, i, d));
                } else if below_zero(c.booked(i, d)) {
                    lemma_inflow(c, i, d);
                    assert(c.next(i, d) != g);
                }
            }
        }
        assert(before[e] == x);
        lemma_group(x, x, x);
        assert(x.spec_minus(x) == A::spec_zero());
        assert(due =~= before.update(e, before[e].spec_minus(x)));
        lemma_sum_minus(before, e, x);
        lemma_both_less(gas[c.mix(i)], sum(before), x);
    } else if i == loc {
        let y = x.spec_negate();
        assert(c.booked(i, back) == y);
        lemma_three_ways(y);
        assert(y != A::spec_zero()) by {
            let z = A::spec_zero();
            lemma_group(x, x, x);
            lemma_group(x, z, z);
        }
        assert(below_zero(y));
        assert forall|d: int| 0 <= d < 7 && d != back implies before[d] == due[d] by {
            lemma_three_ways(c.booked(i, d));
            if d < 6 {
                if above_zero(c.booked(i, d)) {
                    assert(to_come(next, i, d) == to_come(run, i, d));
                } else if below_zero(c.booked(i, d)) {
                    lemma_inflow(c, i, d);
                    assert(opposite(d) != e);
                }
            }
        }
        assert(c.next(i, back) == g && opposite(back) == e);
        assert(before[back] == y);
        assert(due[back] == A::spec_zero());
        lemma_group(y, x, x);
        lemma_group(x, y, x);
        assert(y.spec_plus(x) == A::spec_zero());
        assert(due =~= before.update(back, before[back].spec_plus(x)));
        lemma_sum_plus(before, back, x);
        lemma_both_more(gas[c.mix(i)], sum(before), x);
    } else {
        lemma_own_mix(c, i, g);
        lemma_own_mix(c, i, loc);
        assert forall|d: int|
            0 <= d < 6 && below_zero(#[trigger] c.booked(i, d)) implies to_come(
            next,
            c.next(i, d),
            opposite(d),
        ) == to_come(run, c.next(i, d), opposite(d)) by {
            lemma_inflow(c, i, d);
        }
        lemma_same_due(c, run, next, i);
    }
}

/// An exchange with a planet keeps every turf on its way.
#[verifier::rlimit(40)]
proof fn lemma_exchange_gas<A: Amount>(c: Course<A>, run: Run<A>, gas: Map<usize, A>, i: TurfID)
    requires
        ordered::<A>(),
        c.wf(),
        c.on_course(run, gas),
        run.agenda.len() > 0,
        run.agenda.last() is Vent || run.agenda.last() is Draw,
        c.info.contains_key(i),
    ensures
        ({
            let answer = asked(c.turfs, c.max_x, c.max_y, run, gas, c.planets);
            let next = turn(c.turfs, c.max_x, c.max_y, run, answer);
            let after = moved(gas, c.planets, next.effects.last());
            after[c.mix(i)].spec_minus(sum(c.due(next, i))) == c.goal(i)
        }),
{
    lemma_signs::<A>();
    let answer = asked(c.turfs, c.max_x, c.max_y, run, gas, c.planets);
    lemma_turn_shape(c, run, answer);
    let next = turn(c.turfs, c.max_x, c.max_y, run, answer);
    let after = moved(gas, c.planets, next.effects.last());
    let top = run.agenda.len() - 1;
    let task = run.agenda.last();
    assert(run.agenda[top] == task);
    assert(c.task_ok(run, top));
    let mix = match task {
        Task::Vent { mix, .. } => mix,
        Task::Draw { mix, .. } => mix,
        _ => 0,
    };
    let g = c.owner(mix);
    let x = c.booked(g, 6);
    let before = c.due(run, i);
    let due = c.due(next, i);
    lemma_three_ways(x);
    lemma_order(A::spec_zero(), A::spec_zero(), A::spec_zero());
    assert(x != A::spec_zero());
    lemma_others_to_come(c, run, answer, i);
    assert(after == gas.insert(mix, gas[mix].spec_plus(x.spec_negate())));
    lemma_group(gas[mix], x, x);
    assert(gas[c.mix(i)].spec_minus(sum(before)) == c.goal(i));
    if i == g {
        lemma_turn_exchanges(c, run, answer, i);
        assert(exchange_with(c.mix(i))(task));
        assert(c.exchanges(run, i) <= 1);
        assert(c.exchanges(run, i) == 1 && c.exchanges(next, i) == 0);
        assert forall|d: int| 0 <= d < 6 implies before[d] == due[d] by {
            lemma_three_ways(c.booked(i, d));
            if above_zero(c.booked(i, d)) {
                assert(to_come(next, i, d) == to_come(run, i, d));
            }
        }
        assert(before[6] == x);
        lemma_group(x, x, x);
        assert(x.spec_minus(x) == A::spec_zero());
        assert(due =~= before.update(6, before[6].spec_minus(x)));
        lemma_sum_minus(before, 6, x);
        lemma_both_less(gas[c.mix(i)], sum(before), x);
    } else {
        lemma_own_mix(c, i, g);
        assert(!exchange_with(c.mix(i))(task));
        lemma_same_due(c, run, next, i);
    }
}

/// A turn keeps every turf on its way to what it is to hold.
proof fn lemma_turn_gas<A: Amount>(c: Course<A>, run: Run<A>, gas: Map<usize, A>)
    requires
        ordered::<A>(),
        c.wf(),
        c.on_course(run, gas),
        run.agenda.len() > 0,
    ensures
        ({
            let answer = asked(c.turfs, c.max_x, c.max_y, run, gas, c.planets);
            let next = turn(c.turfs, c.max_x, c.max_y, run, answer);
            let after = moved(gas, c.planets, next.effects.last());
            forall|i: TurfID| #[trigger]
                c.info.contains_key(i) ==> after[c.mix(i)].spec_minus(sum(c.due(next, i)))
                    == c.goal(i)
        }),
{
    let answer = asked(c.turfs, c.max_x, c.max_y, run, gas, c.planets);
    lemma_turn_shape(c, run, answer);
    let next = turn(c.turfs, c.max_x, c.max_y, run, answer);
    let after = moved(gas, c.planets, next.effects.last());
    let task = run.agenda.last();
    assert forall|i: TurfID| #[trigger] c.info.contains_key(i) implies after[c.mix(i)].spec_minus(
        sum(c.due(next, i)),
    ) == c.goal(i) by {
        if task is Flow {
            lemma_flow_gas(c, run, gas, i);
        } else if task is Vent || task is Draw {
            lemma_exchange_gas(c, run, gas, i);
        } else {
            assert(after == gas);
            lemma_others_to_come(c, run, answer, i);
            lemma_same_due(c, run, next, i);
        }
    }
}

/// `(a - x) - (b - x) == a - b`.
proof fn lemma_both_less<A: Amount>(a: A, b: A, x: A)
    requires
        ordered::<A>(),
    ensures
        a.spec_minus(x).spec_minus(b.spec_minus(x)) == a.spec_minus(b),
{
    let d = a.spec_minus(b);
    // a == d + b, so a - x == d + (b - x)
    lemma_undo(a, b);
    lemma_second(d, b, x);
    lemma_undo(d, b.spec_minus(x));
}

/// `(a + x) - (b + x) == a - b`.
proof fn lemma_both_more<A: Amount>(a: A, b: A, x: A)
    requires
        ordered::<A>(),
    ensures
        a.spec_plus(x).spec_minus(b.spec_plus(x)) == a.spec_minus(b),
{
    let d = a.spec_minus(b);
    lemma_undo(a, b);
    lemma_second(d, b, x);
    lemma_undo(d, b.spec_plus(x));
}

/// The work goes on to its end, and stays on its course.
proof fn lemma_runs_its_course<A: Amount>(c: Course<A>, run: Run<A>, gas: Map<usize, A>) -> (n: nat)
    requires
        ordered::<A>(),
        c.wf(),
        c.on_course(run, gas),
    ensures
        ({
            let (end, after) = aired(c.turfs, c.max_x, c.max_y, run, gas, c.planets, n);
            c.on_course(end, after) && end.agenda.len() == 0
        }),
    decreases live_turfs(run.info, 0x1_0000_0000), left_to_do(run.agenda, None),
{
    lemma_signs::<A>();
    if run.agenda.len() == 0 {
        0
    } else {
        let answer = asked(c.turfs, c.max_x, c.max_y, run, gas, c.planets);
        let next = turn(c.turfs, c.max_x, c.max_y, run, answer);
        let after = moved(gas, c.planets, next.effects.last());
        let p = stepped(c.turfs, c.max_x, c.max_y, run.agenda, run.info);
        lemma_turn_run_ok(c, run, answer);
        lemma_turn_flows(c, run, gas);
        lemma_turn_gas(c, run, gas);
        steps_make_headway(c.turfs, c.max_x, c.max_y, run.agenda, run.info);
        match p.waiting {
            Some(Task::Check { turf, sources, amount }) => {
                answers_make_headway(
                    c.turfs,
                    c.max_x,
                    c.max_y,
                    p.agenda,
                    turf,
                    sources,
                    amount,
                    0,
                    0,
                );
            },
            Some(Task::Draw { mix, planet, amount }) => {
                assert(left_to_do(p.agenda, None) < left_to_do(p.agenda, p.waiting));
            },
            _ => {},
        }
        let n = lemma_runs_its_course(c, next, after);
        let all = (n + 1) as nat;
        assert(aired(c.turfs, c.max_x, c.max_y, run, gas, c.planets, all) == aired(
            c.turfs,
            c.max_x,
            c.max_y,
            next,
            after,
            c.planets,
            n,
        ));
        all
    }
}

/// The gas of a zone ends up as booked. In a zone that is by itself, whose pairs
/// of books are in step, in which gas flows nowhere in a circle and in which no
/// turf is to hold less than nothing in the end, all of its turfs are worked off
/// in any order: then every turf ends up with what it held less what was booked to
/// leave it in all, for other turfs and for the planet. No more than there is can be
/// removed from a turf for another one, and whatever is asked is answered as it is.
/// The result is the number of steps.
pub proof fn gas_ends_up_as_booked<A: Amount>(c: Course<A>, agenda: Seq<Task<A>>) -> (n: nat)
    requires
        ordered::<A>(),
        c.wf(),
        visits_only(agenda),
        known_visits(c.turfs, agenda),
        forall|p: int| 0 <= p < c.turfs.len() ==> to_visit(agenda, (#[trigger] c.turfs[p]).0),
    ensures
        ({
            let run = Run { agenda, info: c.info, effects: Seq::empty() };
            let (end, gas) = aired(c.turfs, c.max_x, c.max_y, run, c.gas, c.planets, n);
            &&& end.agenda.len() == 0
            &&& forall|p: int|
                0 <= p < c.turfs.len() ==> gas[(#[trigger] c.turfs[p]).1.mix]
                    == c.gas[c.turfs[p].1.mix].spec_minus(sum(c.info[c.turfs[p].0].transfers))
        }),
{
    lemma_signs::<A>();
    let run = Run { agenda, info: c.info, effects: Seq::<Effect<A>>::empty() };
    let z = A::spec_zero();
    assert forall|p: int| 0 <= p < agenda.len() implies (#[trigger] agenda[p]) is Visit by {}
    assert(run_wf(run)) by {
        assert forall|p: int| 0 <= p < agenda.len() implies ((
        #[trigger] agenda[p]) matches Task::Flow { dir, .. } ==> dir < 6) by {
            assert(agenda[p] is Visit);
        }
    }
    assert(only_spent(c.info, c.info)) by {
        assert forall|k: TurfID| #[trigger] c.info.contains_key(k) implies c.info[k].wf() by {}
    }
    assert forall|i: TurfID, d: int| #[trigger] to_come(run, i, d) == leaves(c.info, i, d) by {
        lemma_visits_only(agenda, flow_from(i, d));
    }
    assert forall|i: TurfID| #[trigger] c.exchanges(run, i) == left_for_planet(c.info, i) by {
        lemma_visits_only(agenda, exchange_with(c.mix(i)));
    }
    assert forall|i: TurfID| #[trigger] c.info.contains_key(i) implies to_visit(agenda, i) by {
        assert(holds(c.turfs, i));
        assert(to_visit(agenda, c.turfs[place(c.turfs, i)].0));
    }
    assert forall|p: int| 0 <= p < agenda.len() implies #[trigger] c.task_ok(run, p) by {
        assert(agenda[p] is Visit);
    }
    assert forall|p: int, q: int| 0 <= p < q < agenda.len() implies #[trigger] c.above_ok(
        agenda,
        p,
        q,
    ) by {
        assert(agenda[p] is Visit);
    }
    assert forall|p: int| 0 <= p < agenda.len() implies #[trigger] c.flow_ok(run, c.gas, p) by {
        assert(agenda[p] is Visit);
    }
    assert forall|i: TurfID| #[trigger] c.info.contains_key(i) implies c.gas[c.mix(i)].spec_minus(
        sum(c.due(run, i)),
    ) == c.goal(i) by {
        let due = c.due(run, i);
        assert(c.info[i].wf());
        assert forall|d: int| 0 <= d < 7 implies due[d] == c.info[i].transfers[d] by {
            if d < 6 {
                lemma_three_ways(c.booked(i, d));
                if above_zero(c.booked(i, d)) {
                    assert(to_come(run, i, d) == 1);
                } else if below_zero(c.booked(i, d)) {
                    lemma_inflow(c, i, d);
                    assert(to_come(run, c.next(i, d), opposite(d)) == 1);
                }
            } else {
                assert(c.exchanges(run, i) == left_for_planet(c.info, i));
            }
        }
        assert(due =~= c.info[i].transfers);
    }
    assert(c.on_course(run, c.gas));
    let n = lemma_runs_its_course(c, run, c.gas);
    let (end, gas) = aired(c.turfs, c.max_x, c.max_y, run, c.gas, c.planets, n);
    assert forall|p: int| 0 <= p < c.turfs.len() implies gas[(#[trigger] c.turfs[p]).1.mix]
        == c.gas[c.turfs[p].1.mix].spec_minus(sum(c.info[c.turfs[p].0].transfers)) by {
        let i = c.turfs[p].0;
        assert(holds(c.turfs, i));
        assert(c.info.contains_key(i));
        let q = place(c.turfs, i);
        assert(c.turfs[q].0 == i);
        if p < q {
            assert(c.turfs[p].0 != c.turfs[q].0);
        } else if q < p {
            assert(c.turfs[q].0 != c.turfs[p].0);
        }
        let due = c.due(end, i);
        assert forall|k: TurfID, d: int| 0 <= d < 6 implies #[trigger] to_come(end, k, d) == 0 by {
            if c.info.contains_key(k) {
                assert(spent(end.info, k));
                assert(end.info.contains_key(k));
                assert(end.info[k].transfers[d] == z);
            } else {
                assert(!end.info.contains_key(k));
            }
        }
        assert(c.exchanges(end, i) == 0) by {
            assert(spent(end.info, i));
            assert(end.info.contains_key(i));
            assert(end.info[i].transfers[6] == z);
        }
        assert forall|d: int| 0 <= d < due.len() implies due[d] == z by {
            if d < 6 {
                assert(to_come(end, i, d) == 0);
                assert(0 <= opposite(d) < 6);
                assert(to_come(end, c.next(i, d), opposite(d)) == 0);
            }
        }
        lemma_sum_zero(due);
        lemma_undo(gas[c.mix(i)], z);
        lemma_group(gas[c.mix(i)].spec_minus(z), z, z);
    }
    n
}

} // verus!
