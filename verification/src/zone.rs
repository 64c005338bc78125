//! Equalizing one zone on paper: what is to move between which turfs.
use vstd::prelude::*;
use std::collections::HashMap;
use crate::amount::{above_zero, is_above_zero, Amount};
use crate::fast::{fast_processed, lemma_fast_keeps_turfs, monstermos_fast_process};
use crate::flood::{Probe, ZoneWork};
use crate::grid::TurfID;
use crate::info::{Ledger, MonstermosInfo};
use crate::planet::{all_drained, planet_paths, planet_sum, process_planet_turfs};
use crate::settle::{give_to_takers, settled, take_from_givers, Side};
use crate::tables::{books_wf, holds, place, InfoMap, MixWithID, Zone};

verus! {

/// `a + b` in the arithmetic of `usize`.
pub open spec fn wrapping_sum(a: int, b: int) -> usize {
    (if a + b > usize::MAX {
        a + b - usize::MAX - 1
    } else {
        a + b
    }) as usize
}

/// The arithmetic of `usize` is that of the integers modulo `usize::MAX + 1`.
proof fn lemma_wrapping_sum(a: int, b: int)
    requires
        0 <= a <= usize::MAX,
        0 <= b <= usize::MAX,
    ensures
        wrapping_sum(a, b) == (a + b) % (usize::MAX + 1),
{
    let n = usize::MAX + 1;
    if a + b > usize::MAX {
        vstd::arithmetic::div_mod::lemma_mod_add_multiples_vanish(a + b - n, n);
        vstd::arithmetic::div_mod::lemma_small_mod((a + b - n) as nat, n as nat);
    } else {
        vstd::arithmetic::div_mod::lemma_small_mod((a + b) as nat, n as nat);
    }
}

/// What each turf of a zone should hold.
pub open spec fn average<A: Amount>(
    turfs: Seq<MixWithID>,
    planet_turfs: Seq<MixWithID>,
    total: A::Total,
) -> A {
    A::spec_mean(total, (turfs.len() - planet_turfs.len()) as usize)
}

/// The turf was read.
pub open spec fn was_read<A: Amount>(world: Map<TurfID, Probe<A>>, i: TurfID) -> bool {
    world.contains_key(i) && world[i] is Turf
}

/// All turfs of `turfs` were read.
pub open spec fn all_read<A: Amount>(world: Map<TurfID, Probe<A>>, turfs: Seq<MixWithID>) -> bool {
    forall|p: int| 0 <= p < turfs.len() ==> was_read(world, (#[trigger] turfs[p]).0)
}

/// The books of a zone at the start: how far each turf is above `average`.
pub open spec fn opened<A: Amount>(
    world: Map<TurfID, Probe<A>>,
    turfs: Seq<MixWithID>,
    average: A,
) -> Map<TurfID, Ledger<A>> {
    Map::new(
        |i: TurfID| holds(turfs, i),
        |i: TurfID|
            Ledger {
                mole_delta: world[i]->Turf_0.moles.spec_minus(average),
                ..Ledger::blank()
            },
    )
}

/// The turfs outside planets that are above the average.
pub open spec fn surplus_turfs<A: Amount>(
    turfs: Seq<MixWithID>,
    info: Map<TurfID, Ledger<A>>,
) -> Seq<MixWithID> {
    turfs.filter(
        |turf: MixWithID|
            turf.1.planetary_atmos is None && above_zero(info[turf.0].mole_delta),
    )
}

/// The turfs outside planets that are not above the average.
pub open spec fn other_turfs<A: Amount>(
    turfs: Seq<MixWithID>,
    info: Map<TurfID, Ledger<A>>,
) -> Seq<MixWithID> {
    turfs.filter(
        |turf: MixWithID|
            turf.1.planetary_atmos is None && !above_zero(info[turf.0].mole_delta),
    )
}

/// The turfs outside planets that are at or below the average.
pub open spec fn deficit_turfs<A: Amount>(
    turfs: Seq<MixWithID>,
    info: Map<TurfID, Ledger<A>>,
) -> Seq<MixWithID> {
    turfs.filter(
        |turf: MixWithID|
            turf.1.planetary_atmos is None && info[turf.0].mole_delta.spec_le(A::spec_zero()),
    )
}

/// The books once all turfs of `list` have had their turn in the quick round.
pub open spec fn all_fast_processed<A: Amount>(
    list: Seq<MixWithID>,
    turfs: Seq<MixWithID>,
    max_x: int,
    max_y: int,
    info: Map<TurfID, Ledger<A>>,
) -> Map<TurfID, Ledger<A>>
    decreases list.len(),
{
    if list.len() == 0 {
        info
    } else {
        fast_processed(
            list.last().0,
            list.last().1,
            turfs,
            max_x,
            max_y,
            all_fast_processed(list.drop_last(), turfs, max_x, max_y, info),
        )
    }
}

/// The books once those that have too much, or those that have too little,
/// have been matched, whichever are fewer.
pub open spec fn matched_up<A: Amount>(
    givers: Seq<MixWithID>,
    takers: Seq<MixWithID>,
    turfs: Seq<MixWithID>,
    max_x: int,
    max_y: int,
    info: Map<TurfID, Ledger<A>>,
) -> Map<TurfID, Ledger<A>> {
    if givers.len() < takers.len() {
        settled(Side::Giver, givers, turfs, max_x, max_y, info)
    } else {
        settled(Side::Taker, takers, turfs, max_x, max_y, info)
    }
}

/// Both lists are too long to match their turfs one by one right away.
pub open spec fn needs_quick_round<A: Amount>(
    turfs: Seq<MixWithID>,
    info: Map<TurfID, Ledger<A>>,
) -> bool {
    let log_n = A::spec_log2_floor(turfs.len() as usize);
    surplus_turfs(turfs, info).len() > log_n && other_turfs(turfs, info).len() > log_n
}

/// The books of a zone once its turfs have been matched with each other.
pub open spec fn balanced<A: Amount>(
    turfs: Seq<MixWithID>,
    max_x: int,
    max_y: int,
    info: Map<TurfID, Ledger<A>>,
) -> Map<TurfID, Ledger<A>> {
    if needs_quick_round(turfs, info) {
        let quick = all_fast_processed(turfs, turfs, max_x, max_y, info);
        matched_up(
            surplus_turfs(turfs, quick),
            deficit_turfs(turfs, quick),
            turfs,
            max_x,
            max_y,
            quick,
        )
    } else {
        matched_up(
            surplus_turfs(turfs, info),
            other_turfs(turfs, info),
            turfs,
            max_x,
            max_y,
            info,
        )
    }
}

/// The books of a zone once its surplus, too, has been sent to the planet, if
/// the zone is open to one, and the pairs of turfs between which firelocks are
/// to be considered.
pub open spec fn zone_books<A: Amount>(
    turfs: Seq<MixWithID>,
    planet_turfs: Seq<MixWithID>,
    average: A,
    world: Map<TurfID, Probe<A>>,
    planets: Map<u32, A>,
    max_x: int,
    max_y: int,
    limit: int,
) -> (Map<TurfID, Ledger<A>>, Seq<(TurfID, TurfID)>) {
    let level = balanced(turfs, max_x, max_y, opened(world, turfs, average));
    if planet_turfs.len() == 0 || planet_sum(planet_turfs, planets) is None {
        (level, Seq::empty())
    } else {
        let paths = planet_paths(planet_turfs, turfs, max_x, max_y, limit, level);
        let target = planet_sum(planet_turfs, planets)->0.spec_minus(average);
        (
            all_drained(paths.info, paths.order, turfs, max_x, max_y, target),
            paths.firelocks,
        )
    }
}

/// What is to be done in a zone.
pub struct ZoneBooks<A: Amount> {
    /// What is to move between which turfs.
    pub info: InfoMap<A>,
    /// The pairs of turfs between which firelocks are to be considered.
    pub firelocks: Vec<(TurfID, TurfID)>,
    /// How many turfs the zone has.
    pub turfs_processed: usize,
}

/// Opens the books of a zone.
fn open_books<A: Amount>(
    turfs: &Zone,
    world: &HashMap<u32, Probe<A>>,
    average_moles: A,
) -> (info: InfoMap<A>)
    requires
        all_read(world@, turfs@),
    ensures
        info@ == opened(world@, turfs@, average_moles),
{
    broadcast use vstd::std_specs::hash::group_hash_axioms;

    let mut info: InfoMap<A> = InfoMap::new();
    let mut k: usize = 0;
    let len: usize = turfs.len();
    assert(info@ =~= opened(world@, turfs@.take(0), average_moles));
    while k < len
        invariant
            k <= len,
            len == turfs@.len(),
            all_read(world@, turfs@),
            info@ == opened(world@, turfs@.take(k as int), average_moles),
        decreases len - k,
    {
        if let Some((i, _)) = turfs.get_index(k) {
            assert(was_read(world@, turfs@[k as int].0));
            if let Some(Probe::Turf(reading)) = world.get(&i) {
                let mut books: MonstermosInfo<A> = MonstermosInfo::default();
                books.mole_delta = reading.moles.minus(average_moles);
                info.insert(i, books);
            }
            proof {
                let upto = turfs@.take(k + 1);
                assert(turfs@.take(k as int) =~= upto.drop_last());
                assert forall|t: TurfID| #[trigger] holds(upto, t) == (holds(
                    turfs@.take(k as int),
                    t,
                ) || t == i) by {
                    assert(upto[k as int].0 == i);
                    if holds(turfs@.take(k as int), t) {
                        let p = place(turfs@.take(k as int), t);
                        assert(upto[p].0 == t);
                    }
                    if holds(upto, t) && t != i {
                        let p = place(upto, t);
                        assert(turfs@.take(k as int)[p].0 == t);
                    }
                }
                assert(info@ =~= opened(world@, upto, average_moles));
            }
        }
        k = k + 1;
    }
    assert(turfs@.take(k as int) =~= turfs@);
    info
}

/// How [`sort_out`] tells turfs apart.
#[derive(Clone, Copy, Debug, PartialEq, Eq, Structural)]
enum Pick {
    AboveZero,
    NotAboveZero,
    AtMostZero,
}

spec fn picked<A: Amount>(pick: Pick, mole_delta: A) -> bool {
    match pick {
        Pick::AboveZero => above_zero(mole_delta),
        Pick::NotAboveZero => !above_zero(mole_delta),
        Pick::AtMostZero => mole_delta.spec_le(A::spec_zero()),
    }
}

fn is_picked<A: Amount>(pick: Pick, mole_delta: A) -> (r: bool)
    ensures
        r == picked(pick, mole_delta),
{
    match pick {
        Pick::AboveZero => is_above_zero(mole_delta),
        Pick::NotAboveZero => !is_above_zero(mole_delta),
        Pick::AtMostZero => mole_delta.le(A::zero()),
    }
}

/// The turfs outside planets whose books fit `pick`.
fn sort_out<A: Amount>(turfs: &Zone, info: &InfoMap<A>, pick: Pick) -> (list: Vec<MixWithID>)
    requires
        forall|p: int| 0 <= p < turfs@.len() ==> info@.contains_key((#[trigger] turfs@[p]).0),
    ensures
        list@ == turfs@.filter(
            |turf: MixWithID|
                turf.1.planetary_atmos is None && picked(pick, info@[turf.0].mole_delta),
        ),
{
    let ghost fits = |turf: MixWithID|
        turf.1.planetary_atmos is None && picked(pick, info@[turf.0].mole_delta);
    let mut list: Vec<MixWithID> = Vec::new();
    let mut k: usize = 0;
    let len: usize = turfs.len();
    reveal(Seq::filter);
    assert(turfs@.take(0).filter(fits) =~= Seq::<MixWithID>::empty());
    while k < len
        invariant
            k <= len,
            len == turfs@.len(),
            forall|p: int| 0 <= p < turfs@.len() ==> info@.contains_key((#[trigger] turfs@[p]).0),
            fits == (|turf: MixWithID|
                turf.1.planetary_atmos is None && picked(pick, info@[turf.0].mole_delta)),
            list@ == turfs@.take(k as int).filter(fits),
        decreases len - k,
    {
        reveal(Seq::filter);
        if let Some(turf) = turfs.get_index(k) {
            proof {
                let upto = turfs@.take(k + 1);
                assert(upto.drop_last() =~= turfs@.take(k as int));
                assert(upto.last() == turf);
                assert(info@.contains_key(turfs@[k as int].0));
            }
            if turf.1.planetary_atmos.is_none() {
                if let Some(books) = info.get(turf.0) {
                    if is_picked(pick, books.mole_delta) {
                        list.push(turf);
                    }
                }
            }
        }
        k = k + 1;
    }
    assert(turfs@.take(k as int) =~= turfs@);
    list
}

/// Gives each turf of the zone its turn in the quick round.
fn quick_round<A: Amount>(turfs: &Zone, max_x: i32, max_y: i32, info: &mut InfoMap<A>)
    ensures
        final(info)@ == all_fast_processed(
            turfs@,
            turfs@,
            max_x as int,
            max_y as int,
            old(info)@,
        ),
        final(info)@.dom() == old(info)@.dom(),
{
    let mut k: usize = 0;
    let len: usize = turfs.len();
    assert(turfs@.take(0) =~= Seq::<MixWithID>::empty());
    while k < len
        invariant
            k <= len,
            len == turfs@.len(),
            info@ == all_fast_processed(
                turfs@.take(k as int),
                turfs@,
                max_x as int,
                max_y as int,
                old(info)@,
            ),
            info@.dom() == old(info)@.dom(),
        decreases len - k,
    {
        if let Some((i, m)) = turfs.get_index(k) {
            proof {
                let upto = turfs@.take(k + 1);
                assert(upto.drop_last() =~= turfs@.take(k as int));
                assert(upto.last() == (i, m));
                lemma_fast_keeps_turfs(i, m, turfs@, max_x as int, max_y as int, info@);
            }
            monstermos_fast_process(i, &m, turfs, max_x, max_y, info);
        }
        k = k + 1;
    }
    assert(turfs@.take(k as int) =~= turfs@);
}

/// Matches the turfs of a zone with each other.
fn balance<A: Amount>(turfs: &Zone, max_x: i32, max_y: i32, info: &mut InfoMap<A>)
    requires
        forall|p: int| 0 <= p < turfs@.len() ==> old(info)@.contains_key((#[trigger] turfs@[p]).0),
    ensures
        final(info)@ == balanced(turfs@, max_x as int, max_y as int, old(info)@),
{
    let mut giver_turfs = sort_out(turfs, info, Pick::AboveZero);
    let mut taker_turfs = sort_out(turfs, info, Pick::NotAboveZero);
    assert(giver_turfs@ == surplus_turfs(turfs@, info@)) by {
        let info0 = info@;
        assert((|turf: MixWithID|
            turf.1.planetary_atmos is None && picked(Pick::AboveZero, info0[turf.0].mole_delta))
            =~= (|turf: MixWithID|
            turf.1.planetary_atmos is None && above_zero(info0[turf.0].mole_delta)));
    }
    assert(taker_turfs@ == other_turfs(turfs@, info@)) by {
        let info0 = info@;
        assert((|turf: MixWithID|
            turf.1.planetary_atmos is None && picked(Pick::NotAboveZero, info0[turf.0].mole_delta))
            =~= (|turf: MixWithID|
            turf.1.planetary_atmos is None && !above_zero(info0[turf.0].mole_delta)));
    }
    let log_n: usize = A::log2_floor(turfs.len());
    if giver_turfs.len() > log_n && taker_turfs.len() > log_n {
        quick_round(turfs, max_x, max_y, info);
        assert(forall|p: int|
            0 <= p < turfs@.len() ==> info@.contains_key((#[trigger] turfs@[p]).0));
        giver_turfs = sort_out(turfs, info, Pick::AboveZero);
        taker_turfs = sort_out(turfs, info, Pick::AtMostZero);
        assert(giver_turfs@ == surplus_turfs(turfs@, info@)) by {
            let info1 = info@;
            assert((|turf: MixWithID|
                turf.1.planetary_atmos is None && picked(
                    Pick::AboveZero,
                    info1[turf.0].mole_delta,
                )) =~= (|turf: MixWithID|
                turf.1.planetary_atmos is None && above_zero(info1[turf.0].mole_delta)));
        }
        assert(taker_turfs@ == deficit_turfs(turfs@, info@)) by {
            let info1 = info@;
            assert((|turf: MixWithID|
                turf.1.planetary_atmos is None && picked(
                    Pick::AtMostZero,
                    info1[turf.0].mole_delta,
                )) =~= (|turf: MixWithID|
                turf.1.planetary_atmos is None && info1[turf.0].mole_delta.spec_le(
                    A::spec_zero(),
                )));
        }
    }
    if giver_turfs.len() < taker_turfs.len() {
        give_to_takers(&giver_turfs, turfs, max_x, max_y, info);
    } else {
        take_from_givers(&taker_turfs, turfs, max_x, max_y, info);
    }
}

/// Works out what is to move between the turfs of a zone, and to its planet.
/// `world` holds what was read of the turfs, `planets` what the atmospheres of
/// the planets hold. The gas is divided by as many turfs as the zone has more
/// than planet turfs, so there must not be more planet turfs than turfs.
pub fn equalize_zone<A: Amount>(
    zone: &ZoneWork<A>,
    world: &HashMap<u32, Probe<A>>,
    planets: &HashMap<u32, A>,
    max_x: i32,
    max_y: i32,
    equalize_hard_turf_limit: usize,
) -> (books: ZoneBooks<A>)
    requires
        all_read(world@, zone.turfs@),
        zone.planet_turfs@.len() <= zone.turfs@.len(),
    ensures
        books.turfs_processed == wrapping_sum(
            zone.turfs@.len() as int,
            zone.planet_turfs@.len() as int,
        ),
        books.turfs_processed == (zone.turfs@.len() + zone.planet_turfs@.len()) as int % (usize::MAX
            + 1),
        (books.info@, books.firelocks@) == zone_books(
            zone.turfs@,
            zone.planet_turfs@,
            average::<A>(zone.turfs@, zone.planet_turfs@, zone.total_moles),
            world@,
            planets@,
            max_x as int,
            max_y as int,
            equalize_hard_turf_limit as int,
        ),
        (books.info@, books.firelocks@) == zone_books(
            zone.turfs@,
            zone.planet_turfs@,
            A::spec_mean(
                zone.total_moles,
                (zone.turfs@.len() - zone.planet_turfs@.len()) as usize,
            ),
            world@,
            planets@,
            max_x as int,
            max_y as int,
            equalize_hard_turf_limit as int,
        ),
        books_wf(books.info@),
{
    let turf_count: usize = zone.turfs.len();
    let planet_count: usize = zone.planet_turfs.len();
    let average_moles: A = A::mean(zone.total_moles, turf_count - planet_count);
    let mut info = open_books(&zone.turfs, world, average_moles);
    assert forall|p: int| 0 <= p < zone.turfs@.len() implies info@.contains_key(
        (#[trigger] zone.turfs@[p]).0,
    ) by {
        assert(holds(zone.turfs@, zone.turfs@[p].0));
    }
    balance(&zone.turfs, max_x, max_y, &mut info);
    let turfs_processed: usize = turf_count.wrapping_add(planet_count);
    proof {
        lemma_wrapping_sum(turf_count as int, planet_count as int);
    }
    let firelocks: Vec<(TurfID, TurfID)> = if planet_count == 0 {
        Vec::new()
    } else {
        process_planet_turfs(
            &zone.planet_turfs,
            &zone.turfs,
            average_moles,
            planets,
            max_x,
            max_y,
            equalize_hard_turf_limit,
            &mut info,
        )
    };
    proof {
        use_type_invariant(&info);
        info.lemma_wf();
    }
    ZoneBooks { info, firelocks, turfs_processed }
}

/// How many turfs all zones of `zones` have, in the arithmetic of `usize`.
pub open spec fn all_processed<A: Amount>(zones: Seq<ZoneBooks<A>>) -> usize
    decreases zones.len(),
{
    if zones.len() == 0 {
        0
    } else {
        wrapping_sum(
            all_processed(zones.drop_last()) as int,
            zones.last().turfs_processed as int,
        )
    }
}

/// Counts the turfs of all zones.
pub fn count_processed<A: Amount>(zones: &Vec<ZoneBooks<A>>) -> (turfs_processed: usize)
    ensures
        turfs_processed == all_processed(zones@),
{
    let mut turfs_processed: usize = 0;
    let mut k: usize = 0;
    assert(zones@.take(0) =~= Seq::<ZoneBooks<A>>::empty());
    while k < zones.len()
        invariant
            k <= zones@.len(),
            turfs_processed == all_processed(zones@.take(k as int)),
        decreases zones.len() - k,
    {
        assert(zones@.take(k + 1).drop_last() =~= zones@.take(k as int));
        turfs_processed = turfs_processed.wrapping_add(zones[k].turfs_processed);
        k = k + 1;
    }
    assert(zones@.take(k as int) =~= zones@);
    turfs_processed
}

} // verus!
