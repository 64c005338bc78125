//! Finding the turfs that share their air with a given turf.
use vstd::prelude::*;
use std::collections::{HashMap, VecDeque};
use crate::amount::Amount;
use crate::grid::{adjacent_tile_ids, neighbours, TurfID};
use crate::tables::{lemma_distinct_len, put, MixWithID, TurfMixture, TurfSet, Zone};

verus! {

/// What was read of a turf and of its air.
pub struct TurfReading<A: Amount> {
    pub mixture: TurfMixture,
    /// Whether the air of the turf can never change, as in space.
    pub immutable: bool,
    /// How much gas the turf holds.
    pub moles: A,
    /// How much gas each of its neighbours holds.
    pub adjacent_moles: Vec<A>,
}

/// What came of the attempt to read a turf. A turf that does not exist has none.
pub enum Probe<A: Amount> {
    /// Someone else was at work on the turf.
    Locked,
    Turf(TurfReading<A>),
}

/// Turfs that share their air.
pub struct ZoneWork<A: Amount> {
    /// The turfs of the zone itself.
    pub turfs: Zone,
    /// The turfs of a planet at its border.
    pub planet_turfs: Zone,
    /// The gas in the turfs of the zone.
    pub total_moles: A::Total,
}

impl<A: Amount> ZoneWork<A> {
    /// This zone is what the fill `flood` found.
    pub open spec fn found_by(self, flood: Flood<A>) -> bool {
        &&& self.turfs@ == flood.turfs
        &&& self.planet_turfs@ == flood.planet_turfs
        &&& self.total_moles == flood.total_moles
    }
}

/// What a flood fill ended with.
pub struct FloodFill<A: Amount> {
    /// The zone, unless it is to be left alone.
    pub zone: Option<ZoneWork<A>>,
    /// Whether the zone is open to space and is to lose its air.
    pub depressurize: bool,
}

/// A flood fill in progress.
#[verifier::ext_equal]
pub struct Flood<A: Amount> {
    /// Turfs that need no further look.
    pub found: Set<TurfID>,
    /// The turfs that the fill goes through, in order, with their gas.
    pub border: Seq<(TurfID, TurfMixture, A)>,
    pub turfs: Seq<MixWithID>,
    pub planet_turfs: Seq<MixWithID>,
    pub total_moles: A::Total,
    /// The zone is to be left alone.
    pub ignore_zone: bool,
    /// The zone is open to space.
    pub depressurize: bool,
}

/// The fill comes upon turf `loc`.
pub open spec fn upon<A: Amount>(
    world: Map<TurfID, Probe<A>>,
    flood: Flood<A>,
    loc: TurfID,
) -> Flood<A> {
    let found = flood.found.insert(loc);
    if flood.found.contains(loc) {
        flood
    } else if !world.contains_key(loc) {
        Flood { found, ..flood }
    } else {
        match world[loc] {
            Probe::Locked => Flood { found, ignore_zone: true, ..flood },
            Probe::Turf(reading) => Flood {
                found,
                border: if reading.mixture.simulated {
                    flood.border.push((loc, reading.mixture, reading.moles))
                } else {
                    flood.border
                },
                depressurize: flood.depressurize || (reading.immutable && !flood.ignore_zone),
                ignore_zone: flood.ignore_zone || reading.immutable,
                ..flood
            },
        }
    }
}

/// The fill comes upon each turf that `steps` lead to.
pub open spec fn upon_all<A: Amount>(
    world: Map<TurfID, Probe<A>>,
    flood: Flood<A>,
    steps: Seq<(u8, TurfID)>,
) -> Flood<A>
    decreases steps.len(),
{
    if steps.len() == 0 {
        flood
    } else {
        upon_all(world, upon(world, flood, steps[0].1), steps.drop_first())
    }
}

/// The fill goes through one turf of its border. A turf of a planet ends it there.
pub open spec fn through<A: Amount>(
    world: Map<TurfID, Probe<A>>,
    max_x: int,
    max_y: int,
    flood: Flood<A>,
    turf: (TurfID, TurfMixture, A),
) -> Flood<A> {
    let (i, mixture, moles) = turf;
    if mixture.planetary_atmos is Some {
        Flood { planet_turfs: put(flood.planet_turfs, i, mixture), ..flood }
    } else {
        let next = upon_all(
            world,
            Flood { total_moles: A::spec_total_plus(flood.total_moles, moles), ..flood },
            neighbours(mixture.adjacency, i, max_x, max_y, 0, 7),
        );
        Flood { turfs: put(next.turfs, i, mixture), ..next }
    }
}

/// The fill goes on from the turf at `at` in its border.
pub open spec fn filled<A: Amount>(
    world: Map<TurfID, Probe<A>>,
    max_x: int,
    max_y: int,
    flood: Flood<A>,
    at: int,
) -> Flood<A>
    decreases 0x1_0000_0000 - at,
{
    if at >= flood.border.len() || at >= 0x1_0000_0000 {
        flood
    } else {
        filled(
            world,
            max_x,
            max_y,
            through(world, max_x, max_y, flood, flood.border[at]),
            at + 1,
        )
    }
}

/// The fill that begins at turf `i`.
pub open spec fn flood_from<A: Amount>(
    i: TurfID,
    m: TurfMixture,
    moles: A,
    found: Set<TurfID>,
) -> Flood<A> {
    Flood {
        found: found.insert(i),
        border: seq![(i, m, moles)],
        turfs: Seq::empty(),
        planet_turfs: Seq::empty(),
        total_moles: A::spec_total_zero(),
        ignore_zone: false,
        depressurize: false,
    }
}

/// The whole fill that begins at turf `i`.
pub open spec fn flooded<A: Amount>(
    i: TurfID,
    m: TurfMixture,
    moles: A,
    world: Map<TurfID, Probe<A>>,
    max_x: int,
    max_y: int,
    found: Set<TurfID>,
) -> Flood<A> {
    filled(world, max_x, max_y, flood_from(i, m, moles, found), 0)
}

impl<A: Amount> FloodFill<A> {
    /// This is what the fill `flood` ended with.
    pub open spec fn outcome_of(self, flood: Flood<A>) -> bool {
        &&& self.depressurize == flood.depressurize
        &&& self.zone is None <==> flood.ignore_zone
        &&& self.zone matches Some(zone) ==> zone.found_by(flood)
    }
}

/// No turf is on the border twice, and all of them have been found.
pub open spec fn border_ok<A: Amount>(flood: Flood<A>) -> bool {
    &&& forall|p: int, q: int|
        0 <= p < q < flood.border.len() ==> (#[trigger] flood.border[p]).0 != (
        #[trigger] flood.border[q]).0
    &&& forall|p: int|
        0 <= p < flood.border.len() ==> flood.found.contains((#[trigger] flood.border[p]).0)
}

/// A border without repetitions is no longer than there are turfs.
pub proof fn lemma_border_len<A: Amount>(flood: Flood<A>)
    requires
        border_ok(flood),
    ensures
        flood.border.len() <= 0x1_0000_0000,
{
    let ids = flood.border.map_values(|turf: (TurfID, TurfMixture, A)| turf.0);
    assert forall|p: int, q: int| 0 <= p < ids.len() && 0 <= q < ids.len() && p != q implies ids[p]
        != ids[q] by {
        if p < q {
            assert(flood.border[p].0 != flood.border[q].0);
        } else {
            assert(flood.border[q].0 != flood.border[p].0);
        }
    }
    lemma_distinct_len(ids);
}

/// Comes upon the turfs around turf `i`.
fn spread<A: Amount>(
    world: &HashMap<u32, Probe<A>>,
    max_x: i32,
    max_y: i32,
    i: TurfID,
    adjacency: u8,
    found: &mut TurfSet,
    border: &mut VecDeque<(TurfID, TurfMixture, A)>,
    ignore_zone: &mut bool,
    depressurize: &mut bool,
    Ghost(flood): Ghost<Flood<A>>,
    Ghost(at): Ghost<int>,
) -> (after: Ghost<Flood<A>>)
    requires
        border_ok(flood),
        0 <= at <= flood.border.len(),
        old(found)@ == flood.found,
        old(border)@ == flood.border.skip(at),
        *old(ignore_zone) == flood.ignore_zone,
        *old(depressurize) == flood.depressurize,
    ensures
        after@ == upon_all(
            world@,
            flood,
            neighbours(adjacency, i, max_x as int, max_y as int, 0, 7),
        ),
        border_ok(after@),
        flood.border.len() <= after@.border.len(),
        final(found)@ == after@.found,
        final(border)@ == after@.border.skip(at),
        *final(ignore_zone) == after@.ignore_zone,
        *final(depressurize) == after@.depressurize,
{
    broadcast use vstd::std_specs::hash::group_hash_axioms;

    let mut steps = adjacent_tile_ids(adjacency, i, max_x, max_y);
    let ghost mut now = flood;
    let ghost end = upon_all(world@, flood, steps.remaining());
    loop
        invariant
            end == upon_all(world@, now, steps.remaining()),
            border_ok(now),
            0 <= at <= flood.border.len() <= now.border.len(),
            found@ == now.found,
            border@ == now.border.skip(at),
            *ignore_zone == now.ignore_zone,
            *depressurize == now.depressurize,
        ensures
            end == now,
            border_ok(now),
            flood.border.len() <= now.border.len(),
            found@ == now.found,
            border@ == now.border.skip(at),
            *ignore_zone == now.ignore_zone,
            *depressurize == now.depressurize,
        decreases steps.remaining().len(),
    {
        match steps.next() {
            None => {
                break;
            },
            Some((_, loc)) => {
                if found.insert(loc) {
                    match world.get(&loc) {
                        None => {},
                        Some(Probe::Locked) => {
                            *ignore_zone = true;
                        },
                        Some(Probe::Turf(reading)) => {
                            if reading.mixture.enabled() {
                                border.push_back((loc, reading.mixture, reading.moles));
                            }
                            if reading.immutable {
                                if !*ignore_zone {
                                    *depressurize = true;
                                }
                                *ignore_zone = true;
                            }
                        },
                    }
                }
                proof {
                    let next = upon(world@, now, loc);
                    assert(next.border.skip(at) =~= border@);
                    assert(found@ =~= next.found);
                    now = next;
                }
            },
        }
    }
    Ghost(now)
}

/// Finds the zone that turf `i` with mixture `m` and `moles` of gas belongs
/// to. `found_turfs` holds the turfs that earlier fills came upon, and gets
/// those of this one. A zone that holds a turf someone else is at work on, or
/// that is open to space, is left alone.
pub fn flood_fill_equalize_turfs<A: Amount>(
    i: TurfID,
    m: TurfMixture,
    moles: A,
    world: &HashMap<u32, Probe<A>>,
    max_x: i32,
    max_y: i32,
    found_turfs: &mut TurfSet,
) -> (outcome: FloodFill<A>)
    ensures
        final(found_turfs)@ == flooded(
            i,
            m,
            moles,
            world@,
            max_x as int,
            max_y as int,
            old(found_turfs)@,
        ).found,
        outcome.outcome_of(
            flooded(i, m, moles, world@, max_x as int, max_y as int, old(found_turfs)@),
        ),
{
    let ghost end = flooded(i, m, moles, world@, max_x as int, max_y as int, found_turfs@);
    let mut turfs = Zone::new();
    let mut planet_turfs = Zone::new();
    let mut border: VecDeque<(TurfID, TurfMixture, A)> = VecDeque::new();
    let mut total_moles: A::Total = A::total_zero();
    border.push_back((i, m, moles));
    found_turfs.insert(i);
    let mut ignore_zone: bool = false;
    let mut depressurize: bool = false;
    let ghost mut now = flood_from(i, m, moles, old(found_turfs)@);
    let ghost mut at: int = 0;
    assert(border@ =~= now.border.skip(0));
    loop
        invariant
            end == filled(world@, max_x as int, max_y as int, now, at),
            border_ok(now),
            0 <= at <= now.border.len(),
            found_turfs@ == now.found,
            border@ == now.border.skip(at),
            turfs@ == now.turfs,
            planet_turfs@ == now.planet_turfs,
            total_moles == now.total_moles,
            ignore_zone == now.ignore_zone,
            depressurize == now.depressurize,
        ensures
            end == now,
            found_turfs@ == now.found,
            turfs@ == now.turfs,
            planet_turfs@ == now.planet_turfs,
            total_moles == now.total_moles,
            ignore_zone == now.ignore_zone,
            depressurize == now.depressurize,
        decreases 0x1_0000_0000 - at,
    {
        proof {
            lemma_border_len(now);
        }
        match border.pop_front() {
            None => {
                break;
            },
            Some((cur_idx, cur_turf, cur_moles)) => {
                proof {
                    assert(now.border[at] == (cur_idx, cur_turf, cur_moles));
                    assert(border@ =~= now.border.skip(at + 1));
                    assert(end == filled(
                        world@,
                        max_x as int,
                        max_y as int,
                        through(world@, max_x as int, max_y as int, now, now.border[at]),
                        at + 1,
                    ));
                }
                if cur_turf.planetary_atmos.is_some() {
                    planet_turfs.insert(cur_idx, cur_turf);
                    proof {
                        now = Flood {
                            planet_turfs: put(now.planet_turfs, cur_idx, cur_turf),
                            ..now
                        };
                        at = at + 1;
                    }
                } else {
                    total_moles = A::total_plus(total_moles, cur_moles);
                    let ghost counted = Flood { total_moles, ..now };
                    let Ghost(after): Ghost<Flood<A>> = spread(
                        world,
                        max_x,
                        max_y,
                        cur_idx,
                        cur_turf.adjacency,
                        found_turfs,
                        &mut border,
                        &mut ignore_zone,
                        &mut depressurize,
                        Ghost(counted),
                        Ghost(at + 1),
                    );
                    proof {
                        lemma_upon_all_keeps(
                            world@,
                            counted,
                            neighbours(cur_turf.adjacency, cur_idx, max_x as int, max_y as int, 0, 7),
                        );
                    }
                    turfs.insert(cur_idx, cur_turf);
                    proof {
                        now = Flood { turfs: put(after.turfs, cur_idx, cur_turf), ..after };
                        at = at + 1;
                    }
                }
            },
        }
    }
    if ignore_zone {
        FloodFill { zone: None, depressurize }
    } else {
        FloodFill { zone: Some(ZoneWork { turfs, planet_turfs, total_moles }), depressurize }
    }
}

/// Coming upon turfs adds none to the zone yet.
pub proof fn lemma_upon_all_keeps<A: Amount>(
    world: Map<TurfID, Probe<A>>,
    flood: Flood<A>,
    steps: Seq<(u8, TurfID)>,
)
    ensures
        upon_all(world, flood, steps).turfs == flood.turfs,
        upon_all(world, flood, steps).planet_turfs == flood.planet_turfs,
        upon_all(world, flood, steps).total_moles == flood.total_moles,
    decreases steps.len(),
{
    if steps.len() > 0 {
        lemma_upon_all_keeps(world, upon(world, flood, steps[0].1), steps.drop_first());
    }
}

} // verus!
