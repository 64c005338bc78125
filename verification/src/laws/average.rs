//! What the average of a zone is, and that all of its turfs come to it.
use vstd::prelude::*;
use crate::amount::{exact, ordered, Amount};
use crate::balance::{lemma_group, lemma_plus_first, lemma_second, lemma_undo, sum};
use crate::flood::{flooded, Probe};
use crate::grid::TurfID;
use crate::info::Ledger;
use crate::laws::flood::{fill_sorts_its_turfs, gas_of, lemma_flooded, part, read_as};
use crate::laws::level::{above, all_above};
use crate::laws::quick::{all_surplus, roomy};
use crate::laws::sums::{delta_at, lemma_same_delta, total_delta, whole_delta};
use crate::laws::whole::{all_found_zones_are_evened_out, found_zones_are_evened_out, two_way};
use crate::laws::zone::equalizing_conserves;
use crate::quanta::{quanta_are_exact, quotient, wrapped, Quanta};
use crate::tables::{
    distinct, holds, lemma_distinct_entries_len, place, MixWithID, TurfMixture,
};
use crate::zone::{average, opened, zone_books};

verus! {

/// What each of `turfs` holds.
pub open spec fn amounts_of<A: Amount>(
    world: Map<TurfID, Probe<A>>,
    turfs: Seq<MixWithID>,
) -> Seq<A> {
    turfs.map_values(|turf: MixWithID| world[turf.0]->Turf_0.moles)
}

/// The total of `amounts`, added up one by one.
pub open spec fn totalled<A: Amount>(amounts: Seq<A>) -> A::Total
    decreases amounts.len(),
{
    if amounts.len() == 0 {
        A::spec_total_zero()
    } else {
        A::spec_total_plus(totalled(amounts.drop_last()), amounts.last())
    }
}

/// `a` added up `n` times.
pub open spec fn times<A: Amount>(a: A, n: nat) -> A
    decreases n,
{
    if n == 0 {
        A::spec_zero()
    } else {
        times(a, (n - 1) as nat).spec_plus(a)
    }
}

/// `a` is what each of as many as there are of `amounts` gets of all of them, and nothing
/// is left over.
pub open spec fn shared_evenly<A: Amount>(amounts: Seq<A>, a: A) -> bool {
    times(a, amounts.len()) == sum(amounts)
}

proof fn lemma_gas<A: Amount>(
    world: Map<TurfID, Probe<A>>,
    border: Seq<(TurfID, TurfMixture, A)>,
)
    requires
        forall|p: int|
            0 <= p < border.len() ==> {
                let (k, mixture, moles) = #[trigger] border[p];
                read_as(world, k, mixture, moles)
            },
    ensures
        gas_of(border) == totalled(amounts_of(world, part(border, false))),
    decreases border.len(),
{
    if border.len() > 0 {
        let front = border.drop_last();
        assert forall|p: int| 0 <= p < front.len() implies {
            let (k, mixture, moles) = #[trigger] front[p];
            read_as(world, k, mixture, moles)
        } by {
            assert(front[p] == border[p]);
        }
        lemma_gas(world, front);
        let last = border.last();
        assert(border[border.len() - 1] == last);
        assert(read_as(world, last.0, last.1, last.2));
        if last.1.planetary_atmos is None {
            let before = amounts_of(world, part(front, false));
            let after = amounts_of(world, part(border, false));
            assert(after =~= before.push(last.2));
            assert(after.drop_last() =~= before);
        }
    } else {
        assert(amounts_of(world, part(border, false)) =~= Seq::empty());
    }
}

/// The total of a zone is the total of what its turfs hold, and its average is the mean
/// of that total over all of its turfs less its planet turfs, however many these are.
pub proof fn the_average_is_over_all_turfs<A: Amount>(
    i: TurfID,
    m: TurfMixture,
    moles: A,
    world: Map<TurfID, Probe<A>>,
    max_x: int,
    max_y: int,
    found: Set<TurfID>,
)
    requires
        read_as(world, i, m, moles),
    ensures
        ({
            let zone = flooded(i, m, moles, world, max_x, max_y, found);
            let total = totalled(amounts_of(world, zone.turfs));
            &&& zone.total_moles == total
            &&& average::<A>(zone.turfs, zone.planet_turfs, zone.total_moles) == A::spec_mean(
                total,
                (zone.turfs.len() - zone.planet_turfs.len()) as usize,
            )
        }),
{
    let zone = flooded(i, m, moles, world, max_x, max_y, found);
    let border = zone.border;
    fill_sorts_its_turfs(i, m, moles, world, max_x, max_y, found);
    lemma_flooded(i, m, moles, world, max_x, max_y, found);
    assert forall|p: int| 0 <= p < border.len() implies {
        let (k, mixture, amount) = #[trigger] border[p];
        read_as(world, k, mixture, amount)
    } by {
        if p == 0 {
            assert(border[0] == (i, m, moles));
        }
    }
    lemma_gas(world, border);
}

/// The average is the mean of the gas over as many turfs as there are more than planet turfs,
/// whatever the zone is, and however many these are.
pub proof fn the_average_is_a_mean<A: Amount>(
    turfs: Seq<MixWithID>,
    planet_turfs: Seq<MixWithID>,
    total: A::Total,
    n: usize,
)
    requires
        turfs.len() == planet_turfs.len() + n,
    ensures
        average::<A>(turfs, planet_turfs, total) == A::spec_mean(total, n),
{
}

/// How far the turfs of `turfs` are above their due adds up to what is above it in all.
proof fn lemma_whole_delta<A: Amount>(
    world: Map<TurfID, Probe<A>>,
    turfs: Seq<MixWithID>,
    a: A,
)
    requires
        exact::<A>(),
        distinct(turfs),
    ensures
        whole_delta(opened(world, turfs, a)).spec_plus(times(a, turfs.len())) == sum(
            amounts_of(world, turfs),
        ),
    decreases turfs.len(),
{
    let z = A::spec_zero();
    let info = opened(world, turfs, a);
    lemma_group(z, z, z);
    if turfs.len() == 0 {
        lemma_no_delta(info, 0x1_0000_0000);
        assert(amounts_of(world, turfs) =~= Seq::empty());
    } else {
        let front = turfs.drop_last();
        let last = turfs.last();
        assert forall|p: int, q: int| 0 <= p < q < front.len() implies (#[trigger] front[p]).0 != (
        #[trigger] front[q]).0 by {
            assert(front[p] == turfs[p] && front[q] == turfs[q]);
        }
        lemma_whole_delta(world, front, a);
        let before = opened(world, front, a);
        let x = world[last.0]->Turf_0.moles;
        let amounts = amounts_of(world, turfs);
        assert(amounts.drop_last() =~= amounts_of(world, front));
        assert(amounts.last() == x);
        assert(!holds(front, last.0)) by {
            if holds(front, last.0) {
                let p = place(front, last.0);
                assert(turfs[p].0 == turfs[turfs.len() - 1].0);
            }
        }
        assert(turfs[turfs.len() - 1].0 == last.0);
        assert forall|k: TurfID| #[trigger] holds(turfs, k) == (holds(front, k) || k
            == last.0) by {
            if holds(front, k) {
                assert(turfs[place(front, k)].0 == k);
            }
            if holds(turfs, k) && k != last.0 {
                assert(front[place(turfs, k)].0 == k);
            }
        }
        assert forall|k: TurfID| k != last.0 implies #[trigger] delta_at(before, k) == delta_at(
            info,
            k,
        ) by {
            assert(before.contains_key(k) == info.contains_key(k));
        }
        assert(delta_at(before, last.0) == z);
        assert(delta_at(info, last.0) == x.spec_minus(a));
        lemma_group(x.spec_minus(a), z, z);
        lemma_group(z, x.spec_minus(a), z);
        lemma_one_more(before, info, 0x1_0000_0000, last.0, x.spec_minus(a));
        // (w + (x - a)) + (t + a) == (w + t) + x
        let w = whole_delta(before);
        let t = times(a, front.len());
        lemma_second(w.spec_plus(x.spec_minus(a)), t, a);
        lemma_plus_first(w, t, x.spec_minus(a));
        let s = w.spec_plus(t);
        lemma_group(s, x.spec_minus(a), a);
        lemma_undo(x, a);
    }
}

proof fn lemma_no_delta<A: Amount>(info: Map<TurfID, Ledger<A>>, n: nat)
    requires
        exact::<A>(),
        n <= 0x1_0000_0000,
        forall|k: TurfID| !info.contains_key(k),
    ensures
        total_delta(info, n) == A::spec_zero(),
    decreases n,
{
    let z = A::spec_zero();
    lemma_group(z, z, z);
    if n > 0 {
        lemma_no_delta(info, (n - 1) as nat);
    }
}

/// The total goes with the surplus of one turf.
proof fn lemma_one_more<A: Amount>(
    a: Map<TurfID, Ledger<A>>,
    b: Map<TurfID, Ledger<A>>,
    n: nat,
    i: TurfID,
    x: A,
)
    requires
        exact::<A>(),
        i < n <= 0x1_0000_0000,
        delta_at(b, i) == delta_at(a, i).spec_plus(x),
        forall|k: TurfID| k != i ==> #[trigger] delta_at(a, k) == delta_at(b, k),
    ensures
        total_delta(b, n) == total_delta(a, n).spec_plus(x),
    decreases n,
{
    let last = (n - 1) as u32;
    let before = total_delta(a, (n - 1) as nat);
    if i == last {
        lemma_same_delta(a, b, (n - 1) as nat);
        lemma_second(before, delta_at(a, i), x);
    } else {
        lemma_one_more(a, b, (n - 1) as nat, i, x);
        assert(delta_at(a, last) == delta_at(b, last));
        lemma_plus_first(before, delta_at(a, last), x);
    }
}

/// Above and below the average there is as much gas. If the mean of what the turfs of a
/// zone hold, over as many as they are, leaves nothing over, then the average that the
/// zone is levelled to is that mean, and its turfs, in all, are neither above nor below
/// it.
pub proof fn the_average_is_fair<A: Amount>(
    i: TurfID,
    m: TurfMixture,
    moles: A,
    world: Map<TurfID, Probe<A>>,
    max_x: int,
    max_y: int,
    found: Set<TurfID>,
)
    requires
        exact::<A>(),
        read_as(world, i, m, moles),
        ({
            let zone = flooded(i, m, moles, world, max_x, max_y, found);
            let amounts = amounts_of(world, zone.turfs);
            &&& zone.planet_turfs.len() == 0
            &&& shared_evenly(
                amounts,
                A::spec_mean(totalled(amounts), amounts.len() as usize),
            )
        }),
    ensures
        ({
            let zone = flooded(i, m, moles, world, max_x, max_y, found);
            let amounts = amounts_of(world, zone.turfs);
            let level = average::<A>(zone.turfs, zone.planet_turfs, zone.total_moles);
            &&& shared_evenly(amounts, level)
            &&& whole_delta(opened(world, zone.turfs, level)) == A::spec_zero()
        }),
{
    let zone = flooded(i, m, moles, world, max_x, max_y, found);
    let amounts = amounts_of(world, zone.turfs);
    let level = average::<A>(zone.turfs, zone.planet_turfs, zone.total_moles);
    the_average_is_over_all_turfs(i, m, moles, world, max_x, max_y, found);
    fill_sorts_its_turfs(i, m, moles, world, max_x, max_y, found);
    assert(amounts.len() == zone.turfs.len());
    lemma_whole_delta(world, zone.turfs, level);
    let w = whole_delta(opened(world, zone.turfs, level));
    let t = times(level, zone.turfs.len());
    lemma_undo(w, t);
    lemma_group(t, t, t);
}

/// Every turf of a zone comes to the zone's gas divided by the number of its turfs:
/// what it holds less all that is booked to leave it is that mean. Gas can flow back
/// wherever it can flow, no turf belongs to a planet, and the division leaves
/// nothing over.
pub proof fn every_turf_comes_to_the_mean<A: Amount>(
    i: TurfID,
    m: TurfMixture,
    moles: A,
    world: Map<TurfID, Probe<A>>,
    max_x: int,
    max_y: int,
    found: Set<TurfID>,
    planets: Map<u32, A>,
    limit: int,
)
    requires
        ordered::<A>(),
        read_as(world, i, m, moles),
        m.simulated,
        !found.contains(i),
        two_way(world, max_x, max_y),
        ({
            let zone = flooded(i, m, moles, world, max_x, max_y, found);
            let amounts = amounts_of(world, zone.turfs);
            &&& zone.planet_turfs.len() == 0
            &&& shared_evenly(
                amounts,
                A::spec_mean(totalled(amounts), amounts.len() as usize),
            )
        }),
    ensures
        ({
            let zone = flooded(i, m, moles, world, max_x, max_y, found);
            let amounts = amounts_of(world, zone.turfs);
            let books = zone_books(
                zone.turfs,
                zone.planet_turfs,
                average::<A>(zone.turfs, zone.planet_turfs, zone.total_moles),
                world,
                planets,
                max_x,
                max_y,
                limit,
            ).0;
            forall|p: int|
                0 <= p < zone.turfs.len() ==> world[(
                #[trigger] zone.turfs[p]).0]->Turf_0.moles.spec_minus(
                    sum(books[zone.turfs[p].0].transfers),
                ) == A::spec_mean(totalled(amounts), amounts.len() as usize)
        }),
{
    let zone = flooded(i, m, moles, world, max_x, max_y, found);
    let amounts = amounts_of(world, zone.turfs);
    let level = average::<A>(zone.turfs, zone.planet_turfs, zone.total_moles);
    the_average_is_over_all_turfs(i, m, moles, world, max_x, max_y, found);
    the_average_is_fair(i, m, moles, world, max_x, max_y, found);
    assert(amounts.len() == zone.turfs.len());
    all_found_zones_are_evened_out(
        i,
        m,
        moles,
        world,
        max_x,
        max_y,
        found,
        level,
        planets,
        limit,
    );
    equalizing_conserves(
        zone.turfs,
        zone.planet_turfs,
        level,
        world,
        planets,
        max_x,
        max_y,
        limit,
    );
    lemma_group(level, level, level);
    assert forall|p: int| 0 <= p < zone.turfs.len() implies holds(
        zone.turfs,
        (#[trigger] zone.turfs[p]).0,
    ) by {}
}

/// The sum of whole quanta as an integer.
pub open spec fn int_sum(amounts: Seq<Quanta>) -> int
    decreases amounts.len(),
{
    if amounts.len() == 0 {
        0
    } else {
        int_sum(amounts.drop_last()) + amounts.last().n
    }
}

/// None of `amounts` is below zero, and all of them together can be represented.
pub open spec fn in_range(amounts: Seq<Quanta>) -> bool {
    &&& forall|p: int| 0 <= p < amounts.len() ==> (#[trigger] amounts[p]).n >= 0
    &&& int_sum(amounts) <= i64::MAX
}

proof fn lemma_totalled(amounts: Seq<Quanta>)
    requires
        in_range(amounts),
    ensures
        totalled(amounts).n == int_sum(amounts),
        int_sum(amounts) >= 0,
        forall|p: int| 0 <= p < amounts.len() ==> (#[trigger] amounts[p]).n <= int_sum(amounts),
    decreases amounts.len(),
{
    if amounts.len() > 0 {
        let front = amounts.drop_last();
        assert(amounts[amounts.len() - 1] == amounts.last());
        assert forall|p: int| 0 <= p < front.len() implies (#[trigger] front[p]).n >= 0 by {
            assert(front[p] == amounts[p]);
        }
        lemma_int_sum(front);
        lemma_totalled(front);
        assert forall|p: int| 0 <= p < amounts.len() implies (#[trigger] amounts[p]).n <= int_sum(
            amounts,
        ) by {
            if p < front.len() {
                assert(front[p] == amounts[p]);
            }
        }
        let s = int_sum(amounts);
        assert(wrapped(s) == s);
    }
}

proof fn lemma_int_sum(amounts: Seq<Quanta>)
    requires
        forall|p: int| 0 <= p < amounts.len() ==> (#[trigger] amounts[p]).n >= 0,
    ensures
        int_sum(amounts) >= 0,
    decreases amounts.len(),
{
    if amounts.len() > 0 {
        let front = amounts.drop_last();
        assert(amounts[amounts.len() - 1] == amounts.last());
        assert forall|p: int| 0 <= p < front.len() implies (#[trigger] front[p]).n >= 0 by {
            assert(front[p] == amounts[p]);
        }
        lemma_int_sum(front);
    }
}

/// How far turfs are above `a` in all, and how much surplus there is at most.
proof fn lemma_quanta_above(
    world: Map<TurfID, Probe<Quanta>>,
    turfs: Seq<MixWithID>,
    a: Quanta,
    n: int,
)
    requires
        0 <= n <= turfs.len(),
        in_range(amounts_of(world, turfs)),
        0 <= a.n,
    ensures
        ({
            let info = opened(world, turfs, a);
            let amounts = amounts_of(world, turfs);
            &&& all_above(turfs, info, n) == int_sum(amounts.take(n)) - n * a.n
            &&& all_surplus(turfs, info, n) <= int_sum(amounts.take(n))
        }),
    decreases n,
{
    let info = opened(world, turfs, a);
    let amounts = amounts_of(world, turfs);
    if n > 0 {
        lemma_quanta_above(world, turfs, a, n - 1);
        let turf = turfs[n - 1];
        assert(holds(turfs, turf.0));
        assert(amounts.take(n).drop_last() =~= amounts.take(n - 1));
        assert(amounts.take(n).last() == amounts[n - 1]);
        lemma_totalled(amounts);
        let x = amounts[n - 1].n;
        assert(0 <= x);
        assert(wrapped(x - a.n) == x - a.n);
        assert(above(info, turf.0) == x - a.n);
        assert(n * a.n == (n - 1) * a.n + a.n) by (nonlinear_arith);
    } else {
        assert(amounts.take(0) =~= Seq::empty());
    }
}

proof fn lemma_quanta_mean(total: Quanta, n: usize, each: int)
    requires
        n > 0,
        0 <= total.n,
        total.n == each * n,
    ensures
        Quanta::spec_mean(total, n).n == each,
        0 <= each <= total.n,
{
    let s = total.n as int;
    let m = n as int;
    assert(0 <= each) by (nonlinear_arith)
        requires
            0 <= s,
            s == each * m,
            m > 0,
    ;
    assert(each <= s) by (nonlinear_arith)
        requires
            0 <= each,
            s == each * m,
            m > 0,
    ;
    vstd::arithmetic::div_mod::lemma_fundamental_div_mod_converse(s, m, each, 0);
    assert(quotient(s, m) == each);
}

proof fn lemma_roomy(
    world: Map<TurfID, Probe<Quanta>>,
    turfs: Seq<MixWithID>,
    level: Quanta,
    each: int,
)
    requires
        in_range(amounts_of(world, turfs)),
        level.n == each,
        0 <= each,
        int_sum(amounts_of(world, turfs)) == each * turfs.len(),
    ensures
        all_above(turfs, opened(world, turfs, level), turfs.len() as int) == 0,
        roomy(turfs, opened(world, turfs, level)),
{
    let amounts = amounts_of(world, turfs);
    let n = turfs.len() as int;
    let s = int_sum(amounts);
    let info = opened(world, turfs, level);
    lemma_totalled(amounts);
    lemma_quanta_above(world, turfs, level, n);
    assert(amounts.take(n) =~= amounts);
    assert(n * level.n == each * n) by (nonlinear_arith)
        requires
            level.n == each,
    ;
    assert forall|k: TurfID| #[trigger] info.contains_key(k) implies above(info, k) > i64::MIN by {
        let p = place(turfs, k);
        assert(turfs[p].0 == k);
        assert(amounts[p] == world[k]->Turf_0.moles);
        let x = amounts[p].n;
        assert(0 <= x <= s);
        assert(wrapped(x - level.n) == x - level.n);
    }
}

/// A turf is left with the average and what it is above it in the end.
proof fn lemma_left_over<A: Amount>(
    turfs: Seq<MixWithID>,
    planet_turfs: Seq<MixWithID>,
    level: A,
    world: Map<TurfID, Probe<A>>,
    planets: Map<u32, A>,
    max_x: int,
    max_y: int,
    limit: int,
    books: Map<TurfID, Ledger<A>>,
    k: TurfID,
)
    requires
        exact::<A>(),
        holds(turfs, k),
        books == zone_books(
            turfs,
            planet_turfs,
            level,
            world,
            planets,
            max_x,
            max_y,
            limit,
        ).0,
    ensures
        world[k]->Turf_0.moles.spec_minus(sum(books[k].transfers)) == level.spec_plus(
            books[k].mole_delta,
        ),
{
    equalizing_conserves(turfs, planet_turfs, level, world, planets, max_x, max_y, limit);
}

proof fn lemma_plus_nothing(level: Quanta, rest: Quanta)
    requires
        rest.n == 0,
    ensures
        level.spec_plus(rest).n == level.n,
{
    assert(wrapped(level.n + 0) == level.n);
}

/// Every turf of a zone of whole quanta comes to the zone's gas divided by the number of
/// its turfs, if the division leaves nothing over: what it holds less all that is booked
/// to leave it is that quotient. Gas can flow back wherever it can flow, no turf
/// belongs to a planet, none holds less than nothing, and all gas together can be
/// represented.
pub proof fn every_turf_comes_to_the_quotient(
    i: TurfID,
    m: TurfMixture,
    moles: Quanta,
    world: Map<TurfID, Probe<Quanta>>,
    max_x: int,
    max_y: int,
    found: Set<TurfID>,
    planets: Map<u32, Quanta>,
    limit: int,
    each: int,
)
    requires
        read_as(world, i, m, moles),
        m.simulated,
        !found.contains(i),
        two_way(world, max_x, max_y),
        ({
            let zone = flooded(i, m, moles, world, max_x, max_y, found);
            let amounts = amounts_of(world, zone.turfs);
            &&& zone.planet_turfs.len() == 0
            &&& in_range(amounts)
            &&& int_sum(amounts) == each * zone.turfs.len()
            &&& zone.turfs.len() <= usize::MAX
        }),
    ensures
        ({
            let zone = flooded(i, m, moles, world, max_x, max_y, found);
            let books = zone_books(
                zone.turfs,
                zone.planet_turfs,
                average::<Quanta>(zone.turfs, zone.planet_turfs, zone.total_moles),
                world,
                planets,
                max_x,
                max_y,
                limit,
            ).0;
            forall|p: int|
                0 <= p < zone.turfs.len() ==> world[(
                #[trigger] zone.turfs[p]).0]->Turf_0.moles.spec_minus(
                    sum(books[zone.turfs[p].0].transfers),
                ).n == each
        }),
{
    let zone = flooded(i, m, moles, world, max_x, max_y, found);
    let turfs = zone.turfs;
    let n = turfs.len() as int;
    let amounts = amounts_of(world, turfs);
    let level = average::<Quanta>(turfs, zone.planet_turfs, zone.total_moles);
    fill_sorts_its_turfs(i, m, moles, world, max_x, max_y, found);
    the_average_is_over_all_turfs(i, m, moles, world, max_x, max_y, found);
    lemma_totalled(amounts);
    lemma_distinct_entries_len(turfs);
    if n > 0 {
        assert(exact::<Quanta>()) by {
            quanta_are_exact();
        }
        lemma_quanta_mean(totalled(amounts), n as usize, each);
        assert(level.n == each);
        lemma_roomy(world, turfs, level, each);
        found_zones_are_evened_out(
            i,
            m,
            moles,
            world,
            max_x,
            max_y,
            found,
            level,
            planets,
            limit,
        );
        let books = zone_books(
            turfs,
            zone.planet_turfs,
            level,
            world,
            planets,
            max_x,
            max_y,
            limit,
        ).0;
        assert forall|p: int| 0 <= p < turfs.len() implies world[(
        #[trigger] turfs[p]).0]->Turf_0.moles.spec_minus(sum(books[turfs[p].0].transfers)).n
            == each by {
            let k = turfs[p].0;
            assert(holds(turfs, k));
            assert(above(books, k) == 0);
            lemma_left_over(
                turfs,
                zone.planet_turfs,
                level,
                world,
                planets,
                max_x,
                max_y,
                limit,
                books,
                k,
            );
            lemma_plus_nothing(level, books[k].mole_delta);
        }
    }
}

} // verus!
