//! What equalizing a zone keeps.
use vstd::prelude::*;
use crate::amount::{exact, signed, signs_agree, Amount};
use crate::balance::{
    flow_in_step, holdings, in_step, lemma_group, lemma_second, lemma_sum_zero, lemma_undo, outflow,
    sixth_kept, stays_in_step, sum,
};
use crate::flood::Probe;
use crate::grid::{opposite, TurfID};
use crate::info::Ledger;
use crate::laws::fast::{quick_round_conserves, same_holdings};
use crate::laws::grid::apart;
use crate::laws::planet::{
    blanks_added, blanks_stay_in_step, outside, planet_step_conserves,
    planets_outside_take_nothing,
};
use crate::laws::settle::settling_conserves;
use crate::laws::tree::settling_stays_in_step;
use crate::planet::planet_sum;
use crate::settle::Side;
use crate::tables::{books_wf, holds, MixWithID};
use crate::zone::{
    all_fast_processed, balanced, deficit_turfs, matched_up, needs_quick_round, opened,
    other_turfs, surplus_turfs, zone_books,
};

verus! {

/// Matching the turfs of a zone with each other changes no turf's holdings, if
/// amounts are exact, and leaves books in step that were in step, if they are
/// signed.
pub proof fn balancing_conserves<A: Amount>(
    turfs: Seq<MixWithID>,
    max_x: int,
    max_y: int,
    info: Map<TurfID, Ledger<A>>,
)
    requires
        books_wf(info),
    ensures
        books_wf(balanced(turfs, max_x, max_y, info)),
        balanced(turfs, max_x, max_y, info).dom() == info.dom(),
        sixth_kept(info, balanced(turfs, max_x, max_y, info)),
        exact::<A>() ==> same_holdings(info, balanced(turfs, max_x, max_y, info)),
        signed::<A>() ==> stays_in_step(
            info,
            balanced(turfs, max_x, max_y, info),
            max_x,
            max_y,
        ),
{
    if needs_quick_round(turfs, info) {
        quick_round_conserves(turfs, turfs, max_x, max_y, info);
        let quick = all_fast_processed(turfs, turfs, max_x, max_y, info);
        lemma_matched_up(
            surplus_turfs(turfs, quick),
            deficit_turfs(turfs, quick),
            turfs,
            max_x,
            max_y,
            quick,
        );
        let end = balanced(turfs, max_x, max_y, info);
        assert forall|k: TurfID| #[trigger] info.contains_key(k) implies (exact::<A>() ==> holdings(
            end[k],
        ) == holdings(info[k])) && end[k].transfers[6] == info[k].transfers[6] by {
            assert(quick.contains_key(k));
        }
    } else {
        lemma_matched_up(
            surplus_turfs(turfs, info),
            other_turfs(turfs, info),
            turfs,
            max_x,
            max_y,
            info,
        );
    }
}

proof fn lemma_matched_up<A: Amount>(
    givers: Seq<MixWithID>,
    takers: Seq<MixWithID>,
    turfs: Seq<MixWithID>,
    max_x: int,
    max_y: int,
    info: Map<TurfID, Ledger<A>>,
)
    requires
        books_wf(info),
    ensures
        books_wf(matched_up(givers, takers, turfs, max_x, max_y, info)),
        matched_up(givers, takers, turfs, max_x, max_y, info).dom() == info.dom(),
        sixth_kept(info, matched_up(givers, takers, turfs, max_x, max_y, info)),
        exact::<A>() ==> same_holdings(info, matched_up(givers, takers, turfs, max_x, max_y, info)),
        signed::<A>() ==> stays_in_step(
            info,
            matched_up(givers, takers, turfs, max_x, max_y, info),
            max_x,
            max_y,
        ),
{
    settling_stays_in_step(Side::Giver, givers, turfs, max_x, max_y, info);
    settling_stays_in_step(Side::Taker, takers, turfs, max_x, max_y, info);
    if exact::<A>() {
        settling_conserves(Side::Giver, givers, turfs, max_x, max_y, info);
        settling_conserves(Side::Taker, takers, turfs, max_x, max_y, info);
    }
}

pub proof fn lemma_opened<A: Amount>(
    world: Map<TurfID, Probe<A>>,
    turfs: Seq<MixWithID>,
    average: A,
    max_x: int,
    max_y: int,
)
    ensures
        books_wf(opened(world, turfs, average)),
        signed::<A>() ==> in_step(opened(world, turfs, average), max_x, max_y),
        forall|k: TurfID| #[trigger]
            holds(turfs, k) && exact::<A>() ==> holdings(opened(world, turfs, average)[k])
                == world[k]->Turf_0.moles.spec_minus(average),
{
    let info = opened(world, turfs, average);
    let z = A::spec_zero();
    if exact::<A>() {
        lemma_sum_zero(Ledger::<A>::blank().transfers);
        assert forall|k: TurfID| #[trigger] holds(turfs, k) implies holdings(info[k])
            == world[k]->Turf_0.moles.spec_minus(average) by {
            lemma_group(world[k]->Turf_0.moles.spec_minus(average), z, z);
        }
    }
    if signed::<A>() {
        assert(signs_agree(z, z, z));
        assert forall|i: TurfID, dir: int| 0 <= dir < 6 implies #[trigger] flow_in_step(
            info,
            i,
            dir,
            max_x,
            max_y,
        ) by {
            assert(outflow(info, i, dir) == z);
            assert(0 <= opposite(dir) < 7);
        }
    }
}

/// Equalizing a zone creates and destroys nothing. Of every turf of the zone,
/// what it held less the average is what the books still show as its surplus
/// and what is booked to leave it; so, once all that is booked has moved, it
/// holds the average and the surplus that is left. This holds of exact amounts.
/// And what is booked to leave a turf for another is what is booked to come in
/// there, of all signed amounts.
pub proof fn equalizing_conserves<A: Amount>(
    turfs: Seq<MixWithID>,
    planet_turfs: Seq<MixWithID>,
    average: A,
    world: Map<TurfID, Probe<A>>,
    planets: Map<u32, A>,
    max_x: int,
    max_y: int,
    limit: int,
)
    ensures
        ({
            let books = zone_books(
                turfs,
                planet_turfs,
                average,
                world,
                planets,
                max_x,
                max_y,
                limit,
            ).0;
            &&& forall|k: TurfID| #[trigger]
                holds(turfs, k) ==> {
                    let moles = world[k]->Turf_0.moles;
                    &&& books.contains_key(k)
                    &&& exact::<A>() ==> holdings(books[k]) == moles.spec_minus(average)
                    &&& exact::<A>() ==> moles.spec_minus(sum(books[k].transfers))
                        == average.spec_plus(books[k].mole_delta)
                }
            &&& signed::<A>() && (apart(max_x, max_y) || outside(planet_turfs, turfs)) ==> in_step(
                books,
                max_x,
                max_y,
            )
        }),
{
    let info = opened(world, turfs, average);
    let level = balanced(turfs, max_x, max_y, info);
    lemma_opened(world, turfs, average, max_x, max_y);
    balancing_conserves(turfs, max_x, max_y, info);
    let books = zone_books(
        turfs,
        planet_turfs,
        average,
        world,
        planets,
        max_x,
        max_y,
        limit,
    ).0;
    assert forall|k: TurfID| #[trigger] level.contains_key(k) implies holds(turfs, k) by {
        assert(info.contains_key(k));
    }
    if planet_turfs.len() > 0 && planet_sum(planet_turfs, planets) is Some {
        let target = planet_sum(planet_turfs, planets)->0.spec_minus(average);
        planet_step_conserves(planet_turfs, turfs, max_x, max_y, limit, level, target);
        if outside(planet_turfs, turfs) {
            planets_outside_take_nothing(
                planet_turfs,
                turfs,
                max_x,
                max_y,
                limit,
                level,
                target,
            );
            if signed::<A>() {
                blanks_stay_in_step(level, planet_turfs, max_x, max_y);
            }
            assert(books == blanks_added(level, planet_turfs));
        }
    }
    assert forall|k: TurfID| #[trigger] holds(turfs, k) implies ({
        let moles = world[k]->Turf_0.moles;
        &&& books.contains_key(k)
        &&& exact::<A>() ==> holdings(books[k]) == moles.spec_minus(average)
        &&& exact::<A>() ==> moles.spec_minus(sum(books[k].transfers)) == average.spec_plus(
            books[k].mole_delta,
        )
    }) by {
        assert(info.contains_key(k));
        assert(level.dom().contains(k));
        if exact::<A>() {
            let moles = world[k]->Turf_0.moles;
            let d = books[k].mole_delta;
            let s = sum(books[k].transfers);
            assert(d.spec_plus(s) == moles.spec_minus(average));
            // moles == average + (d + s)
            lemma_undo(moles, average);
            lemma_group(moles.spec_minus(average), average, average);
            lemma_second(average, d, s);
            lemma_undo(average.spec_plus(d), s);
        }
    }
}

} // verus!
