//! Zones to which turfs of a planet belong: what they hold above the planet goes
//! there. To a planet that only borders on a zone, nothing goes.
use vstd::prelude::*;
use std::collections::HashMap;
use crate::amount::Amount;
use crate::grid::{
    adjacent, adjacent_tile_id, adjacent_tile_ids_no_orig, neighbours, opposite, opposite_dir,
    TurfID,
};
use crate::info::{Ledger, MonstermosInfo};
use crate::settle::rewritten;
use crate::tables::{entry_of, InfoMap, MixWithID, TurfOrder, Zone};

verus! {

/// What the atmosphere of the planet of the first turf holds, as far as it is known.
pub open spec fn planet_sum<A: Amount>(
    planet_turfs: Seq<MixWithID>,
    planets: Map<u32, A>,
) -> Option<A> {
    match planet_turfs[0].1.planetary_atmos {
        Some(planet) => if planets.contains_key(planet) {
            Some(planets[planet])
        } else {
            None
        },
        None => None,
    }
}

/// The books once all turfs of `planet_turfs` have been marked as the ends of paths.
pub open spec fn ends_marked<A: Amount>(
    info: Map<TurfID, Ledger<A>>,
    planet_turfs: Seq<MixWithID>,
) -> Map<TurfID, Ledger<A>>
    decreases planet_turfs.len(),
{
    if planet_turfs.len() == 0 {
        info
    } else {
        let before = ends_marked(info, planet_turfs.drop_last());
        let i = planet_turfs.last().0;
        let books = if before.contains_key(i) {
            before[i]
        } else {
            Ledger::blank()
        };
        before.insert(i, Ledger { curr_transfer_dir: 6, ..books })
    }
}

/// Paths to the planet while they are being found: the books, the turfs
/// reached in their order, and the pairs of turfs between which firelocks are
/// to be considered.
#[verifier::ext_equal]
pub struct Paths<A> {
    pub info: Map<TurfID, Ledger<A>>,
    pub order: Seq<TurfID>,
    pub firelocks: Seq<(TurfID, TurfID)>,
}

/// A step from turf `i`, the `nth` one to be looked at, to a neighbour.
pub open spec fn path_step<A: Amount>(
    turfs: Seq<MixWithID>,
    limit: int,
    paths: Paths<A>,
    i: TurfID,
    nth: int,
    step: (u8, TurfID),
) -> Paths<A> {
    let loc = step.1;
    if !paths.info.contains_key(loc) {
        paths
    } else {
        let firelocks = if nth < limit {
            paths.firelocks.push((i, loc))
        } else {
            paths.firelocks
        };
        match entry_of(turfs, loc) {
            Some(mixture) => if !mixture.simulated || paths.order.contains(loc) {
                Paths { firelocks, ..paths }
            } else if mixture.planetary_atmos is Some {
                Paths { firelocks, order: paths.order.push(loc), ..paths }
            } else {
                Paths {
                    firelocks,
                    order: paths.order.push(loc),
                    info: paths.info.insert(
                        loc,
                        Ledger {
                            curr_transfer_dir: opposite(step.0 as int),
                            ..paths.info[loc]
                        },
                    ),
                }
            },
            None => Paths { firelocks, ..paths },
        }
    }
}

/// All steps of `steps`, one after the other.
pub open spec fn path_steps<A: Amount>(
    turfs: Seq<MixWithID>,
    limit: int,
    paths: Paths<A>,
    i: TurfID,
    nth: int,
    steps: Seq<(u8, TurfID)>,
) -> Paths<A>
    decreases steps.len(),
{
    if steps.len() == 0 {
        paths
    } else {
        path_steps(
            turfs,
            limit,
            path_step(turfs, limit, paths, i, nth, steps[0]),
            i,
            nth,
            steps.drop_first(),
        )
    }
}

/// Breadth first from the turf at `at` in the order. A turf outside the zone
/// leads nowhere, and its books are wiped.
pub open spec fn paths_found<A: Amount>(
    turfs: Seq<MixWithID>,
    max_x: int,
    max_y: int,
    limit: int,
    paths: Paths<A>,
    at: int,
) -> Paths<A>
    decreases 0x1_0000_0000 - at,
{
    if at >= paths.order.len() || at >= 0x1_0000_0000 {
        paths
    } else {
        let i = paths.order[at];
        let next = match entry_of(turfs, i) {
            None => Paths { info: rewritten(paths.info, i, Ledger::blank()), ..paths },
            Some(m) => path_steps(
                turfs,
                limit,
                paths,
                i,
                at + 1,
                neighbours(m.adjacency, i, max_x, max_y, 0, 6),
            ),
        };
        paths_found(turfs, max_x, max_y, limit, next, at + 1)
    }
}

/// Turf `i` sends all that it holds above `target` along its path.
pub open spec fn drained<A: Amount>(
    info: Map<TurfID, Ledger<A>>,
    i: TurfID,
    turfs: Seq<MixWithID>,
    max_x: int,
    max_y: int,
    target: A,
) -> Map<TurfID, Ledger<A>> {
    let own = info[i];
    let dir = own.curr_transfer_dir;
    let airflow = own.mole_delta.spec_minus(target);
    let loc = adjacent(dir, i, max_x, max_y);
    let sent = Ledger { mole_delta: target, ..own.sends(dir, airflow) };
    if entry_of(turfs, i) is None || !info.contains_key(i) {
        info
    } else if dir == 6 {
        info.insert(i, sent)
    } else if info.contains_key(loc) {
        let got = info[loc].receives(opposite(dir), airflow);
        info.insert(
            loc,
            Ledger { mole_delta: got.mole_delta.spec_plus(airflow), ..got },
        ).insert(i, sent)
    } else {
        info
    }
}

/// All turfs of `order` are drained, the last one first.
pub open spec fn all_drained<A: Amount>(
    info: Map<TurfID, Ledger<A>>,
    order: Seq<TurfID>,
    turfs: Seq<MixWithID>,
    max_x: int,
    max_y: int,
    target: A,
) -> Map<TurfID, Ledger<A>>
    decreases order.len(),
{
    if order.len() == 0 {
        info
    } else {
        all_drained(
            drained(info, order.last(), turfs, max_x, max_y, target),
            order.drop_last(),
            turfs,
            max_x,
            max_y,
            target,
        )
    }
}

/// The paths from all turfs that can be reached to the turfs of `planet_turfs`.
pub open spec fn planet_paths<A: Amount>(
    planet_turfs: Seq<MixWithID>,
    turfs: Seq<MixWithID>,
    max_x: int,
    max_y: int,
    limit: int,
    info: Map<TurfID, Ledger<A>>,
) -> Paths<A> {
    let start = Paths {
        info: ends_marked(info, planet_turfs),
        order: planet_turfs.map_values(|turf: MixWithID| turf.0),
        firelocks: Seq::empty(),
    };
    paths_found(turfs, max_x, max_y, limit, start, 0)
}

/// Takes the steps from turf `i`, the `nth` one to be looked at.
fn take_steps<A: Amount>(
    turfs: &Zone,
    max_x: i32,
    max_y: i32,
    limit: usize,
    turf: (TurfID, u8),
    nth: usize,
    info: &mut InfoMap<A>,
    order: &mut TurfOrder,
    firelocks: &mut Vec<(TurfID, TurfID)>,
)
    ensures
        (Paths { info: final(info)@, order: final(order)@, firelocks: final(firelocks)@ })
            == path_steps(
            turfs@,
            limit as int,
            Paths { info: old(info)@, order: old(order)@, firelocks: old(firelocks)@ },
            turf.0,
            nth as int,
            neighbours(turf.1, turf.0, max_x as int, max_y as int, 0, 6),
        ),
        old(order)@.len() <= final(order)@.len(),
{
    let i: TurfID = turf.0;
    let mut steps = adjacent_tile_ids_no_orig(turf.1, i, max_x, max_y);
    let ghost end = path_steps(
        turfs@,
        limit as int,
        Paths { info: info@, order: order@, firelocks: firelocks@ },
        i,
        nth as int,
        steps.remaining(),
    );
    loop
        invariant
            end == path_steps(
                turfs@,
                limit as int,
                Paths { info: info@, order: order@, firelocks: firelocks@ },
                i,
                nth as int,
                steps.remaining(),
            ),
            old(order)@.len() <= order@.len(),
        ensures
            end == (Paths { info: info@, order: order@, firelocks: firelocks@ }),
            old(order)@.len() <= order@.len(),
        decreases steps.remaining().len(),
    {
        let ghost before = Paths { info: info@, order: order@, firelocks: firelocks@ };
        match steps.next() {
            None => {
                break;
            },
            Some((j, loc)) => {
                if let Some(mut books) = info.get(loc) {
                    if nth < limit {
                        firelocks.push((i, loc));
                    }
                    if let Some(mixture) = turfs.get(loc) {
                        if mixture.enabled() {
                            if order.insert(loc) && mixture.planetary_atmos.is_none() {
                                books.curr_transfer_dir = opposite_dir(j as usize);
                                info.insert(loc, books);
                            }
                        }
                    }
                }
                assert((Paths { info: info@, order: order@, firelocks: firelocks@ }) == path_step(
                    turfs@,
                    limit as int,
                    before,
                    i,
                    nth as int,
                    (j, loc),
                ));
            },
        }
    }
}

/// Drains all turfs of `order`, the last one first.
fn drain_all<A: Amount>(
    order: &TurfOrder,
    turfs: &Zone,
    max_x: i32,
    max_y: i32,
    target: A,
    info: &mut InfoMap<A>,
)
    ensures
        final(info)@ == all_drained(
            old(info)@,
            order@,
            turfs@,
            max_x as int,
            max_y as int,
            target,
        ),
{
    let mut left: usize = order.len();
    assert(order@.take(left as int) =~= order@);
    while left > 0
        invariant
            left <= order@.len(),
            all_drained(
                info@,
                order@.take(left as int),
                turfs@,
                max_x as int,
                max_y as int,
                target,
            ) == all_drained(old(info)@, order@, turfs@, max_x as int, max_y as int, target),
        decreases left,
    {
        let ghost before = info@;
        left = left - 1;
        proof {
            let upto = order@.take(left + 1);
            assert(upto.last() == order@[left as int]);
            assert(upto.drop_last() =~= order@.take(left as int));
        }
        if let Some(i) = order.get_index(left) {
            if turfs.get(i).is_some() {
                if let Some(mut own) = info.get(i) {
                    let airflow: A = own.mole_delta.minus(target);
                    let dir: usize = own.curr_transfer_dir;
                    if dir == 6 {
                        own.adjust_eq_movement(None, dir, airflow);
                        own.mole_delta = target;
                    } else {
                        let loc: TurfID = adjacent_tile_id(dir as u8, i, max_x, max_y);
                        if let Some(mut adj) = info.get(loc) {
                            own.adjust_eq_movement(Some(&mut adj), dir, airflow);
                            adj.mole_delta = adj.mole_delta.plus(airflow);
                            own.mole_delta = target;
                            info.insert(loc, adj);
                        }
                    }
                    info.insert(i, own);
                }
            }
            assert(info@ =~= drained(before, i, turfs@, max_x as int, max_y as int, target));
        }
    }
}

/// Finds for every turf of the zone the path to the nearest turf of the planet
/// that belongs to the zone, and books along its path what the turf holds above
/// the planet. Planet turfs outside the zone get blank books and lead nowhere.
/// Returned are the pairs of turfs between which firelocks are to be
/// considered, in order.
pub fn process_planet_turfs<A: Amount>(
    planet_turfs: &Zone,
    turfs: &Zone,
    average_moles: A,
    planets: &HashMap<u32, A>,
    max_x: i32,
    max_y: i32,
    equalize_hard_turf_limit: usize,
    info: &mut InfoMap<A>,
) -> (firelocks: Vec<(TurfID, TurfID)>)
    requires
        planet_turfs@.len() > 0,
    ensures
        match planet_sum(planet_turfs@, planets@) {
            None => final(info)@ == old(info)@ && firelocks@.len() == 0,
            Some(sum) => {
                let paths = planet_paths(
                    planet_turfs@,
                    turfs@,
                    max_x as int,
                    max_y as int,
                    equalize_hard_turf_limit as int,
                    old(info)@,
                );
                &&& firelocks@ == paths.firelocks
                &&& final(info)@ == all_drained(
                    paths.info,
                    paths.order,
                    turfs@,
                    max_x as int,
                    max_y as int,
                    sum.spec_minus(average_moles),
                )
            },
        },
{
    broadcast use vstd::std_specs::hash::group_hash_axioms;

    let mut firelocks: Vec<(TurfID, TurfID)> = Vec::new();
    let planet: u32 = match planet_turfs.get_index(0) {
        Some((_, sample)) => match sample.planetary_atmos {
            Some(planet) => planet,
            None => {
                return firelocks;
            },
        },
        None => {
            return firelocks;
        },
    };
    let sum: A = match planets.get(&planet) {
        Some(sum) => *sum,
        None => {
            return firelocks;
        },
    };
    let target: A = sum.minus(average_moles);
    let mut order = TurfOrder::new();
    let mut k: usize = 0;
    let ghost ids = planet_turfs@.map_values(|turf: MixWithID| turf.0);
    proof {
        use_type_invariant(planet_turfs);
        planet_turfs.lemma_distinct();
        assert(planet_turfs@.take(0) =~= Seq::<MixWithID>::empty());
        assert(ids.take(0) =~= Seq::<TurfID>::empty());
    }
    let len: usize = planet_turfs.len();
    while k < len
        invariant
            k <= len,
            len == planet_turfs@.len(),
            ids == planet_turfs@.map_values(|turf: MixWithID| turf.0),
            order@ == ids.take(k as int),
            info@ == ends_marked(old(info)@, planet_turfs@.take(k as int)),
            forall|p: int, q: int| 0 <= p < q < ids.len() ==> ids[p] != ids[q],
        decreases len - k,
    {
        if let Some((i, _)) = planet_turfs.get_index(k) {
            assert(ids[k as int] == i);
            assert(!ids.take(k as int).contains(i));
            order.insert(i);
            let mut books: MonstermosInfo<A> = match info.get(i) {
                Some(books) => books,
                None => MonstermosInfo::default(),
            };
            books.curr_transfer_dir = 6;
            info.insert(i, books);
            proof {
                assert(ids.take(k + 1) =~= ids.take(k as int).push(i));
                assert(planet_turfs@.take(k + 1).drop_last() =~= planet_turfs@.take(k as int));
                assert(planet_turfs@.take(k + 1).last() == planet_turfs@[k as int]);
            }
        }
        k = k + 1;
    }
    proof {
        assert(planet_turfs@.take(k as int) =~= planet_turfs@);
        assert(ids.take(k as int) =~= ids);
    }
    let ghost end = planet_paths(
        planet_turfs@,
        turfs@,
        max_x as int,
        max_y as int,
        equalize_hard_turf_limit as int,
        old(info)@,
    );
    let mut at: usize = 0;
    loop
        invariant
            at <= order@.len(),
            end == paths_found(
                turfs@,
                max_x as int,
                max_y as int,
                equalize_hard_turf_limit as int,
                Paths { info: info@, order: order@, firelocks: firelocks@ },
                at as int,
            ),
        ensures
            end == (Paths { info: info@, order: order@, firelocks: firelocks@ }),
        decreases 0x1_0000_0000 - at,
    {
        proof {
            use_type_invariant(&order);
            order.lemma_distinct();
        }
        let reached: usize = order.len();
        match order.get_index(at) {
            None => {
                break;
            },
            Some(i) => {
                assert(at < reached);
                at = at + 1;
                match turfs.get(i) {
                    None => {
                        info.modify(i, MonstermosInfo::default());
                    },
                    Some(m) => {
                        take_steps(
                            turfs,
                            max_x,
                            max_y,
                            equalize_hard_turf_limit,
                            (i, m.adjacency),
                            at,
                            info,
                            &mut order,
                            &mut firelocks,
                        );
                    },
                }
            },
        }
    }
    drain_all(&order, turfs, max_x, max_y, target, info);
    firelocks
}

} // verus!
