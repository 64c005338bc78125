//! A zone that is open to space loses its air.
//!
//! First the turfs of the zone are gone through to find those that are space;
//! then, from space inwards, every turf is told which way its air goes; last,
//! from the far end of the zone to space, the air is let out. In between the
//! game is told, and may change the map.
use vstd::prelude::*;
use std::collections::HashMap;
use crate::amount::Amount;
use crate::flood::TurfReading;
use crate::grid::{
    adjacent, adjacent_tile_id, adjacent_tile_ids, neighbours, opposite, opposite_dir, TurfID,
};
use crate::info::ReducedInfo;
use crate::tables::{lemma_distinct_pairs_len, reduced_of, ReducedMap, SpreadOrder, TurfOrder};

verus! {

/// Something that the game is to be told while space is being looked for.
#[derive(Clone, Copy, Debug, PartialEq, Eq, Structural)]
pub enum SpaceCall {
    /// The turf is its own target for pressure.
    OwnTarget(TurfID),
    /// The first turf is to consider firelocks towards the second.
    Firelocks(TurfID, TurfID),
}

/// The search for space while it goes on.
#[verifier::ext_equal]
pub struct SpaceHunt {
    /// The turfs that the search goes through, in order.
    pub turfs: Seq<TurfID>,
    /// Those of them that are space.
    pub space: Seq<TurfID>,
    /// What the game is to be told, in order.
    pub calls: Seq<SpaceCall>,
    /// A turf of a planet has been met. A planet goes before space.
    pub planet: bool,
    /// The search was broken off, because a turf of a planet had been met.
    pub given_up: bool,
}

/// The search comes upon each turf that `steps` lead to from turf `i`.
pub open spec fn hunt_on<A: Amount>(
    world: Map<TurfID, TurfReading<A>>,
    hunt: SpaceHunt,
    i: TurfID,
    steps: Seq<(u8, TurfID)>,
) -> SpaceHunt
    decreases steps.len(),
{
    if steps.len() == 0 {
        hunt
    } else {
        let loc = steps[0].1;
        let next = if world.contains_key(loc) && !hunt.turfs.contains(loc) {
            SpaceHunt {
                turfs: hunt.turfs.push(loc),
                calls: hunt.calls.push(SpaceCall::Firelocks(i, loc)),
                ..hunt
            }
        } else {
            hunt
        };
        hunt_on(world, next, i, steps.drop_first())
    }
}

/// The search goes through turf `i`, the `nth` one. Past `limit` turfs it goes
/// no further.
pub open spec fn hunt_through<A: Amount>(
    world: Map<TurfID, TurfReading<A>>,
    max_x: int,
    max_y: int,
    limit: int,
    hunt: SpaceHunt,
    i: TurfID,
    nth: int,
) -> SpaceHunt {
    if !world.contains_key(i) {
        hunt
    } else if world[i].mixture.planetary_atmos is Some {
        SpaceHunt { planet: true, ..hunt }
    } else if world[i].immutable {
        if hunt.space.contains(i) {
            SpaceHunt { given_up: hunt.planet, ..hunt }
        } else {
            SpaceHunt {
                space: hunt.space.push(i),
                calls: hunt.calls.push(SpaceCall::OwnTarget(i)),
                given_up: hunt.planet,
                ..hunt
            }
        }
    } else if nth > limit {
        hunt
    } else {
        let next = hunt_on(
            world,
            hunt,
            i,
            neighbours(world[i].mixture.adjacency, i, max_x, max_y, 0, 7),
        );
        SpaceHunt { given_up: hunt.planet, ..next }
    }
}

/// The search goes on from the turf at `at`.
pub open spec fn hunted<A: Amount>(
    world: Map<TurfID, TurfReading<A>>,
    max_x: int,
    max_y: int,
    limit: int,
    hunt: SpaceHunt,
    at: int,
) -> SpaceHunt
    decreases 0x1_0000_0000 - at,
{
    if at >= hunt.turfs.len() || at >= 0x1_0000_0000 || hunt.given_up {
        hunt
    } else {
        hunted(
            world,
            max_x,
            max_y,
            limit,
            hunt_through(world, max_x, max_y, limit, hunt, hunt.turfs[at], at + 1),
            at + 1,
        )
    }
}

/// The search that begins at `turf_idx`.
pub open spec fn hunt_from(turf_idx: TurfID) -> SpaceHunt {
    SpaceHunt {
        turfs: seq![turf_idx],
        space: Seq::empty(),
        calls: Seq::empty(),
        planet: false,
        given_up: false,
    }
}

/// What the search for space ended with.
pub struct SpaceSearch {
    /// The turfs that are space, in the order in which they were found.
    pub space_turfs: TurfOrder,
    /// What the game is to be told, in order.
    pub calls: Vec<SpaceCall>,
    /// A turf of a planet was met, and a planet goes before space: nothing more
    /// is to be done.
    pub given_up: bool,
}

/// Comes upon the turfs around turf `i`.
fn hunt_around<A: Amount>(
    world: &HashMap<u32, TurfReading<A>>,
    max_x: i32,
    max_y: i32,
    i: TurfID,
    adjacency: u8,
    turfs: &mut TurfOrder,
    calls: &mut Vec<SpaceCall>,
    Ghost(hunt): Ghost<SpaceHunt>,
)
    requires
        old(turfs)@ == hunt.turfs,
        old(calls)@ == hunt.calls,
    ensures
        hunt_on(world@, hunt, i, neighbours(adjacency, i, max_x as int, max_y as int, 0, 7)) == (
        SpaceHunt { turfs: final(turfs)@, calls: final(calls)@, ..hunt }),
        hunt.turfs.len() <= final(turfs)@.len(),
{
    broadcast use vstd::std_specs::hash::group_hash_axioms;

    let mut steps = adjacent_tile_ids(adjacency, i, max_x, max_y);
    let ghost end = hunt_on(world@, hunt, i, steps.remaining());
    loop
        invariant
            end == hunt_on(
                world@,
                SpaceHunt { turfs: turfs@, calls: calls@, ..hunt },
                i,
                steps.remaining(),
            ),
            hunt.turfs.len() <= turfs@.len(),
        ensures
            end == (SpaceHunt { turfs: turfs@, calls: calls@, ..hunt }),
            hunt.turfs.len() <= turfs@.len(),
        decreases steps.remaining().len(),
    {
        match steps.next() {
            None => {
                break;
            },
            Some((_, loc)) => {
                if world.get(&loc).is_some() {
                    if turfs.insert(loc) {
                        calls.push(SpaceCall::Firelocks(i, loc));
                    }
                }
            },
        }
    }
}

/// Looks for space from turf `turf_idx` on. `world` holds what was read of
/// the turfs. A planet goes before space: if a turf of a planet is met on the
/// way, be it the last one, nothing more is to be done.
pub fn find_space<A: Amount>(
    turf_idx: TurfID,
    world: &HashMap<u32, TurfReading<A>>,
    max_x: i32,
    max_y: i32,
    equalize_hard_turf_limit: usize,
) -> (search: SpaceSearch)
    ensures
        ({
            let end = hunted(
                world@,
                max_x as int,
                max_y as int,
                equalize_hard_turf_limit as int,
                hunt_from(turf_idx),
                0,
            );
            &&& search.space_turfs@ == end.space
            &&& search.calls@ == end.calls
            &&& search.given_up == end.planet
        }),
{
    broadcast use vstd::std_specs::hash::group_hash_axioms;

    let mut turfs = TurfOrder::new();
    let mut space_turfs = TurfOrder::new();
    let mut calls: Vec<SpaceCall> = Vec::new();
    turfs.insert(turf_idx);
    let mut planet: bool = false;
    let mut given_up: bool = false;
    let mut at: usize = 0;
    let ghost limit = equalize_hard_turf_limit as int;
    let ghost end = hunted(world@, max_x as int, max_y as int, limit, hunt_from(turf_idx), 0);
    assert(turfs@ =~= seq![turf_idx]);
    loop
        invariant
            limit == equalize_hard_turf_limit,
            at <= turfs@.len(),
            end == hunted(
                world@,
                max_x as int,
                max_y as int,
                limit,
                SpaceHunt { turfs: turfs@, space: space_turfs@, calls: calls@, planet, given_up },
                at as int,
            ),
        ensures
            end == (SpaceHunt {
                turfs: turfs@,
                space: space_turfs@,
                calls: calls@,
                planet,
                given_up,
            }),
        decreases 0x1_0000_0000 - at,
    {
        proof {
            use_type_invariant(&turfs);
            turfs.lemma_distinct();
        }
        if given_up {
            break;
        }
        let reached: usize = turfs.len();
        let ghost before = SpaceHunt {
            turfs: turfs@,
            space: space_turfs@,
            calls: calls@,
            planet,
            given_up,
        };
        match turfs.get_index(at) {
            None => {
                break;
            },
            Some(i) => {
                assert(at < reached);
                at = at + 1;
                if let Some(reading) = world.get(&i) {
                    if reading.mixture.planetary_atmos.is_some() {
                        planet = true;
                    } else if reading.immutable {
                        if space_turfs.insert(i) {
                            calls.push(SpaceCall::OwnTarget(i));
                        }
                        given_up = planet;
                    } else if at <= equalize_hard_turf_limit {
                        hunt_around(
                            world,
                            max_x,
                            max_y,
                            i,
                            reading.mixture.adjacency,
                            &mut turfs,
                            &mut calls,
                            Ghost(before),
                        );
                        given_up = planet;
                    }
                }
                assert((SpaceHunt {
                    turfs: turfs@,
                    space: space_turfs@,
                    calls: calls@,
                    planet,
                    given_up,
                }) == hunt_through(
                    world@,
                    max_x as int,
                    max_y as int,
                    limit,
                    before,
                    i,
                    at as int,
                ));
            },
        }
    }
    SpaceSearch { space_turfs, calls, given_up: planet }
}

/// The way inwards from space while it is being found.
#[verifier::ext_equal]
pub struct Spread<A: Amount> {
    /// The turfs reached, in order, each with its adjacency.
    pub order: Seq<(TurfID, u8)>,
    /// Which way the air of each turf goes.
    pub info: Map<TurfID, ReducedInfo<A>>,
    /// Pairs of turfs of which the second gets the target of the first.
    pub targets: Seq<(TurfID, TurfID)>,
}

/// A step from turf `i` to a neighbour.
pub open spec fn spread_step<A: Amount>(
    world: Map<TurfID, TurfReading<A>>,
    spread: Spread<A>,
    i: TurfID,
    step: (u8, TurfID),
) -> Spread<A> {
    let loc = step.1;
    if !world.contains_key(loc) {
        spread
    } else {
        let turf = (loc, world[loc].mixture.adjacency);
        if world[loc].immutable || spread.order.contains(turf) {
            Spread { info: spread.info.insert(loc, reduced_of(spread.info, loc)), ..spread }
        } else {
            Spread {
                order: spread.order.push(turf),
                info: spread.info.insert(
                    loc,
                    ReducedInfo {
                        curr_transfer_amount: A::spec_zero(),
                        curr_transfer_dir: opposite(step.0 as int) as usize,
                    },
                ),
                targets: spread.targets.push((i, loc)),
            }
        }
    }
}

/// All steps of `steps`, one after the other.
pub open spec fn spread_steps<A: Amount>(
    world: Map<TurfID, TurfReading<A>>,
    spread: Spread<A>,
    i: TurfID,
    steps: Seq<(u8, TurfID)>,
) -> Spread<A>
    decreases steps.len(),
{
    if steps.len() == 0 {
        spread
    } else {
        spread_steps(world, spread_step(world, spread, i, steps[0]), i, steps.drop_first())
    }
}

/// On from the turf at `at` in the order. Past `limit` turfs it goes no further.
pub open spec fn spread_on<A: Amount>(
    world: Map<TurfID, TurfReading<A>>,
    max_x: int,
    max_y: int,
    limit: int,
    spread: Spread<A>,
    at: int,
) -> Spread<A>
    decreases 0x100_0000_0000 - at,
{
    if at >= spread.order.len() || at >= 0x100_0000_0000 {
        spread
    } else if at + 1 > limit {
        spread_on(world, max_x, max_y, limit, spread, at + 1)
    } else {
        let (i, adjacency) = spread.order[at];
        let next = spread_steps(world, spread, i, neighbours(adjacency, i, max_x, max_y, 0, 7));
        spread_on(world, max_x, max_y, limit, next, at + 1)
    }
}

/// The turfs of `space` that still exist, each with its adjacency.
pub open spec fn space_left<A: Amount>(
    world: Map<TurfID, TurfReading<A>>,
    space: Seq<TurfID>,
) -> Seq<(TurfID, u8)>
    decreases space.len(),
{
    if space.len() == 0 {
        Seq::empty()
    } else {
        let before = space_left(world, space.drop_last());
        let i = space.last();
        if world.contains_key(i) {
            before.push((i, world[i].mixture.adjacency))
        } else {
            before
        }
    }
}

/// The way inwards from all turfs of `space`.
pub open spec fn spread_from<A: Amount>(
    world: Map<TurfID, TurfReading<A>>,
    max_x: int,
    max_y: int,
    limit: int,
    space: Seq<TurfID>,
) -> Spread<A> {
    spread_on(
        world,
        max_x,
        max_y,
        limit,
        Spread { order: space_left(world, space), info: Map::empty(), targets: Seq::empty() },
        0,
    )
}

/// Which way the air of a zone goes.
pub struct AirPaths<A: Amount> {
    /// The turfs reached from space, in order, each with its adjacency.
    pub order: SpreadOrder,
    /// Which way the air of each turf goes.
    pub info: ReducedMap<A>,
    /// Pairs of turfs of which the second gets the target of the first, in order.
    pub targets: Vec<(TurfID, TurfID)>,
}

/// Takes the steps from turf `i`.
fn spread_around<A: Amount>(
    world: &HashMap<u32, TurfReading<A>>,
    max_x: i32,
    max_y: i32,
    turf: (TurfID, u8),
    order: &mut SpreadOrder,
    info: &mut ReducedMap<A>,
    targets: &mut Vec<(TurfID, TurfID)>,
)
    requires
        old(order)@.no_duplicates(),
    ensures
        (Spread { order: final(order)@, info: final(info)@, targets: final(targets)@ })
            == spread_steps(
            world@,
            Spread { order: old(order)@, info: old(info)@, targets: old(targets)@ },
            turf.0,
            neighbours(turf.1, turf.0, max_x as int, max_y as int, 0, 7),
        ),
        final(order)@.no_duplicates(),
        old(order)@.len() <= final(order)@.len(),
{
    broadcast use vstd::std_specs::hash::group_hash_axioms;

    let i: TurfID = turf.0;
    let mut steps = adjacent_tile_ids(turf.1, i, max_x, max_y);
    let ghost end = spread_steps(
        world@,
        Spread { order: order@, info: info@, targets: targets@ },
        i,
        steps.remaining(),
    );
    loop
        invariant
            end == spread_steps(
                world@,
                Spread { order: order@, info: info@, targets: targets@ },
                i,
                steps.remaining(),
            ),
            order@.no_duplicates(),
            old(order)@.len() <= order@.len(),
        ensures
            end == (Spread { order: order@, info: info@, targets: targets@ }),
            order@.no_duplicates(),
            old(order)@.len() <= order@.len(),
        decreases steps.remaining().len(),
    {
        let ghost before = Spread { order: order@, info: info@, targets: targets@ };
        match steps.next() {
            None => {
                break;
            },
            Some((j, loc)) => {
                if let Some(reading) = world.get(&loc) {
                    let mut books: ReducedInfo<A> = info.get_or_default(loc);
                    if !reading.immutable && order.insert((loc, reading.mixture.adjacency)) {
                        books.curr_transfer_dir = opposite_dir(j as usize);
                        books.curr_transfer_amount = A::zero();
                        targets.push((i, loc));
                        info.insert(loc, books);
                    }
                }
                proof {
                    let after = Spread { order: order@, info: info@, targets: targets@ };
                    assert(after.info =~= spread_step(world@, before, i, (j, loc)).info);
                    assert(after == spread_step(world@, before, i, (j, loc)));
                }
            },
        }
    }
}

/// Finds, from space inwards, which way the air of each turf goes. `world`
/// holds what was read of the turfs.
pub fn spread_from_space<A: Amount>(
    space_turfs: &TurfOrder,
    world: &HashMap<u32, TurfReading<A>>,
    max_x: i32,
    max_y: i32,
    equalize_hard_turf_limit: usize,
) -> (paths: AirPaths<A>)
    ensures
        (Spread { order: paths.order@, info: paths.info@, targets: paths.targets@ })
            == spread_from(
            world@,
            max_x as int,
            max_y as int,
            equalize_hard_turf_limit as int,
            space_turfs@,
        ),
{
    broadcast use vstd::std_specs::hash::group_hash_axioms;

    let mut order = SpreadOrder::new();
    let mut info: ReducedMap<A> = ReducedMap::new();
    let mut targets: Vec<(TurfID, TurfID)> = Vec::new();
    let mut k: usize = 0;
    let len: usize = space_turfs.len();
    proof {
        use_type_invariant(space_turfs);
        space_turfs.lemma_distinct();
        assert(space_turfs@.take(0) =~= Seq::<TurfID>::empty());
    }
    while k < len
        invariant
            k <= len,
            len == space_turfs@.len(),
            space_turfs@.no_duplicates(),
            order@ == space_left(world@, space_turfs@.take(k as int)),
            order@.no_duplicates(),
            forall|p: int|
                0 <= p < order@.len() ==> space_turfs@.take(k as int).contains(
                    (#[trigger] order@[p]).0,
                ),
        decreases len - k,
    {
        let ghost before = order@;
        if let Some(i) = space_turfs.get_index(k) {
            proof {
                let upto = space_turfs@.take(k + 1);
                assert(upto.drop_last() =~= space_turfs@.take(k as int));
                assert(upto.last() == i);
                assert(!space_turfs@.take(k as int).contains(i));
                assert(upto.contains(i)) by {
                    assert(upto[k as int] == i);
                }
                assert forall|t: TurfID| space_turfs@.take(k as int).contains(t) implies upto.contains(
                    t,
                ) by {
                    let p = choose|p: int|
                        0 <= p < space_turfs@.take(k as int).len() && space_turfs@.take(
                            k as int,
                        )[p] == t;
                    assert(upto[p] == t);
                }
            }
            if let Some(reading) = world.get(&i) {
                order.insert((i, reading.mixture.adjacency));
            }
            assert(forall|p: int|
                0 <= p < before.len() ==> (#[trigger] before[p]).0 != i);
            assert(!before.contains((i, world@[i].mixture.adjacency)));
        }
        k = k + 1;
    }
    assert(space_turfs@.take(k as int) =~= space_turfs@);
    let ghost limit = equalize_hard_turf_limit as int;
    let ghost end = spread_from(world@, max_x as int, max_y as int, limit, space_turfs@);
    let mut at: usize = 0;
    loop
        invariant
            limit == equalize_hard_turf_limit,
            at <= order@.len(),
            order@.no_duplicates(),
            end == spread_on(
                world@,
                max_x as int,
                max_y as int,
                limit,
                Spread { order: order@, info: info@, targets: targets@ },
                at as int,
            ),
        ensures
            end == (Spread { order: order@, info: info@, targets: targets@ }),
        decreases 0x100_0000_0000 - at,
    {
        proof {
            lemma_distinct_pairs_len(order@);
        }
        let reached: usize = order.len();
        match order.get_index(at) {
            None => {
                break;
            },
            Some(turf) => {
                assert(at < reached);
                at = at + 1;
                if at <= equalize_hard_turf_limit {
                    spread_around(
                        world,
                        max_x,
                        max_y,
                        turf,
                        &mut order,
                        &mut info,
                        &mut targets,
                    );
                }
            },
        }
    }
    AirPaths { order, info, targets }
}

/// Whether the list of turfs under high pressure names turf `i`. Entries that
/// could not be read are `None`.
pub fn is_listed(list: &Vec<Option<TurfID>>, i: TurfID) -> (listed: bool)
    ensures
        listed == list@.contains(Some(i)),
{
    let mut k: usize = 0;
    while k < list.len()
        invariant
            k <= list.len(),
            forall|p: int| 0 <= p < k ==> list@[p] != Some(i),
        decreases list.len() - k,
    {
        if let Some(turf) = list[k] {
            if turf == i {
                assert(list@[k as int] == Some(i));
                return true;
            }
        }
        k = k + 1;
    }
    false
}

/// A turf that is to let its air out.
pub struct VentStep {
    pub turf: TurfID,
    /// The turf that the air goes to.
    pub target: TurfID,
}

/// What the game is to be told of a turf that lets its air out.
pub struct Vented<A: Amount> {
    pub turf: TurfID,
    /// Whether the turf is to be listed as under high pressure.
    pub list: bool,
    /// The turf that the air goes to.
    pub target: TurfID,
    /// How much gas was there.
    pub sum: A,
    /// The pressure difference of the turf itself.
    pub pressure_difference: A,
    /// The direction of the flow, one bit for each direction.
    pub pressure_direction: u8,
    /// The pressure difference of the turf that the air goes to, if it is the
    /// end of the way.
    pub target_difference: Option<A>,
}

/// The books of turf `i` once the `sum` ahead of it is added.
pub open spec fn laden<A: Amount>(
    info: Map<TurfID, ReducedInfo<A>>,
    i: TurfID,
    sum: A,
) -> ReducedInfo<A> {
    let own = reduced_of(info, i);
    ReducedInfo { curr_transfer_amount: own.curr_transfer_amount.spec_plus(sum), ..own }
}

/// The books once turf `i` has let its air out, with `sum` in the turf ahead.
pub open spec fn let_out<A: Amount>(
    info: Map<TurfID, ReducedInfo<A>>,
    i: TurfID,
    sum: A,
    max_x: int,
    max_y: int,
) -> Map<TurfID, ReducedInfo<A>> {
    let own = laden(info, i, sum);
    let loc = adjacent(own.curr_transfer_dir as int, i, max_x, max_y);
    let between = info.insert(i, own);
    between.insert(loc, laden(between, loc, own.curr_transfer_amount))
}

/// The books after the turn of turf `i`: an end of a way has nothing to let out.
pub open spec fn turn_of<A: Amount>(
    info: Map<TurfID, ReducedInfo<A>>,
    i: TurfID,
    sum: A,
    max_x: int,
    max_y: int,
) -> Map<TurfID, ReducedInfo<A>> {
    if reduced_of(info, i).curr_transfer_dir == 6 {
        info.insert(i, reduced_of(info, i))
    } else {
        let_out(info, i, sum, max_x, max_y)
    }
}

/// The books once the turfs of `order` below `from` and down to `to` have had
/// their turn, the last one first. `sums` is what was in the turf ahead of each.
pub open spec fn all_let_out<A: Amount>(
    info: Map<TurfID, ReducedInfo<A>>,
    order: Seq<(TurfID, u8)>,
    sums: Seq<A>,
    from: int,
    to: int,
    max_x: int,
    max_y: int,
) -> Map<TurfID, ReducedInfo<A>>
    decreases from - to,
{
    if to >= from {
        info
    } else {
        turn_of(
            all_let_out(info, order, sums, from, to + 1, max_x, max_y),
            order[to].0,
            sums[to],
            max_x,
            max_y,
        )
    }
}

/// The turfs of `order` below `from` and down to `to` that have air to let out, in
/// the order in which they do so, the last one first.
pub open spec fn vents<A: Amount>(
    info: Map<TurfID, ReducedInfo<A>>,
    order: Seq<(TurfID, u8)>,
    from: int,
    to: int,
) -> Seq<TurfID>
    decreases from - to,
{
    if to >= from {
        Seq::empty()
    } else {
        let before = vents(info, order, from, to + 1);
        let i = order[to].0;
        if reduced_of(info, i).curr_transfer_dir == 6 {
            before
        } else {
            before.push(i)
        }
    }
}

/// The list of turfs under high pressure once each of `turfs`, in turn, has been
/// added to it, unless it is named there already.
pub open spec fn all_listed(
    list: Seq<Option<TurfID>>,
    turfs: Seq<TurfID>,
) -> Seq<Option<TurfID>>
    decreases turfs.len(),
{
    if turfs.len() == 0 {
        list
    } else {
        let before = all_listed(list, turfs.drop_last());
        if before.contains(Some(turfs.last())) {
            before
        } else {
            before.push(Some(turfs.last()))
        }
    }
}

/// The air of every turf goes the same way.
pub open spec fn same_ways<A: Amount>(
    a: Map<TurfID, ReducedInfo<A>>,
    b: Map<TurfID, ReducedInfo<A>>,
) -> bool {
    forall|i: TurfID|
        (#[trigger] reduced_of(a, i)).curr_transfer_dir == reduced_of(b, i).curr_transfer_dir
}

/// Letting the air out, from the turf farthest from space to space.
pub struct Venting<A: Amount> {
    order: SpreadOrder,
    info: ReducedMap<A>,
    left: usize,
}

impl<A: Amount> Venting<A> {
    #[verifier::type_invariant]
    pub closed spec fn wf(self) -> bool {
        self.left <= self.order@.len()
    }

    /// The turfs reached from space, in order.
    pub closed spec fn order(self) -> Seq<(TurfID, u8)> {
        self.order@
    }

    /// Which way the air of each turf goes, and how much of it has come in.
    pub closed spec fn info(self) -> Map<TurfID, ReducedInfo<A>> {
        self.info@
    }

    /// How many turfs, from the first one on, have not had their turn.
    pub closed spec fn left(self) -> int {
        self.left as int
    }

    /// Begins with the turfs of `order`, whose air goes as `info` says.
    pub fn new(order: SpreadOrder, info: ReducedMap<A>) -> (work: Self)
        ensures
            work.order() == order@,
            work.info() == info@,
            work.left() == order@.len(),
    {
        let left: usize = order.len();
        Venting { order, info, left }
    }

    /// Goes on to the next turf that has air to let out. Ends of ways have their
    /// turn on the way.
    pub fn next_vent(&mut self, max_x: i32, max_y: i32) -> (step: Option<VentStep>)
        ensures
            final(self).order() == old(self).order(),
            0 <= final(self).left() <= old(self).left() <= old(self).order().len(),
            same_ways(final(self).info(), old(self).info()),
            vents(old(self).info(), old(self).order(), old(self).left(), final(self).left())
                == Seq::<TurfID>::empty(),
            forall|sums: Seq<A>| #[trigger]
                all_let_out(
                    old(self).info(),
                    old(self).order(),
                    sums,
                    old(self).left(),
                    final(self).left(),
                    max_x as int,
                    max_y as int,
                ) == final(self).info(),
            forall|p: int|
                final(self).left() <= p < old(self).left() ==> reduced_of(
                    old(self).info(),
                    (#[trigger] old(self).order()[p]).0,
                ).curr_transfer_dir == 6,
            match step {
                Some(vent) => {
                    let i = old(self).order()[final(self).left() - 1].0;
                    let dir = reduced_of(old(self).info(), i).curr_transfer_dir;
                    &&& final(self).left() > 0
                    &&& final(self).ready()
                    &&& dir < 6
                    &&& vent.turf == i
                    &&& vent.target == adjacent(dir as int, i, max_x as int, max_y as int)
                },
                None => final(self).left() == 0,
            },
    {
        proof {
            use_type_invariant(&*self);
        }
        let ghost start = self.info@;
        let ghost all = self.order@;
        let ghost from = self.left as int;
        while self.left > 0
            invariant
                self.order@ == all,
                self.left <= from <= all.len(),
                vents(start, all, from, self.left as int) == Seq::<TurfID>::empty(),
                forall|sums: Seq<A>| #[trigger]
                    all_let_out(
                        start,
                        all,
                        sums,
                        from,
                        self.left as int,
                        max_x as int,
                        max_y as int,
                    ) == self.info@,
                forall|i: TurfID| #[trigger] reduced_of(self.info@, i) == reduced_of(start, i),
                forall|p: int|
                    self.left <= p < from ==> reduced_of(
                        start,
                        (#[trigger] all[p]).0,
                    ).curr_transfer_dir == 6,
                all == old(self).order(),
                start == old(self).info(),
                from == old(self).left(),
            decreases self.left,
        {
            let at: usize = self.left - 1;
            if let Some((i, _)) = self.order.get_index(at) {
                let own: ReducedInfo<A> = self.info.get(i);
                if own.curr_transfer_dir != 6 {
                    assert(reduced_of(start, i) == own);
                    let target: TurfID = adjacent_tile_id(
                        own.curr_transfer_dir as u8,
                        i,
                        max_x,
                        max_y,
                    );
                    return Some(VentStep { turf: i, target });
                }
                let ghost before = self.info@;
                let mut info: ReducedMap<A> = ReducedMap::new();
                std::mem::swap(&mut info, &mut self.info);
                let _end = info.get_or_default(i);
                self.info = info;
                proof {
                    assert(self.info@ == before.insert(i, reduced_of(before, i)));
                    assert forall|sums: Seq<A>| #[trigger]
                        all_let_out(
                            start,
                            all,
                            sums,
                            from,
                            at as int,
                            max_x as int,
                            max_y as int,
                        ) == self.info@ by {
                        assert(all_let_out(
                            start,
                            all,
                            sums,
                            from,
                            at + 1,
                            max_x as int,
                            max_y as int,
                        ) == before);
                    }
                    assert forall|k: TurfID| #[trigger] reduced_of(self.info@, k) == reduced_of(
                        start,
                        k,
                    ) by {
                        assert(reduced_of(before, k) == reduced_of(start, k));
                    }
                    assert(reduced_of(before, i) == reduced_of(start, i));
                }
            }
            self.left = at;
        }
        None
    }

    /// The next turf has air to let out.
    pub open spec fn ready(self) -> bool {
        &&& 0 < self.left() <= self.order().len()
        &&& reduced_of(self.info(), self.order()[self.left() - 1].0).curr_transfer_dir < 6
    }

    /// The turf that [`Venting::next_vent`] went on to lets its air out: the gas
    /// in the turf ahead of it is added to what comes from behind, and all of
    /// it is handed on to the turf ahead. `listed` is the list of turfs under
    /// high pressure, and `moles` what the turf ahead holds, if there is one.
    pub fn vent(
        &mut self,
        listed: &Vec<Option<TurfID>>,
        moles: Option<A>,
        max_x: i32,
        max_y: i32,
    ) -> (vented: Vented<A>)
        requires
            old(self).ready(),
        ensures
            final(self).order() == old(self).order(),
            final(self).left() == old(self).left() - 1,
            same_ways(final(self).info(), old(self).info()),
            vents(old(self).info(), old(self).order(), old(self).left(), final(self).left())
                == seq![vented.turf],
            all_listed(listed@, seq![vented.turf]) == if vented.list {
                listed@.push(Some(vented.turf))
            } else {
                listed@
            },
            ({
                let i = old(self).order()[old(self).left() - 1].0;
                let sum = match moles {
                    Some(sum) => sum,
                    None => A::spec_zero(),
                };
                let own = laden(old(self).info(), i, sum);
                let loc = adjacent(own.curr_transfer_dir as int, i, max_x as int, max_y as int);
                let between = old(self).info().insert(i, own);
                let ahead = laden(between, loc, own.curr_transfer_amount);
                &&& final(self).info() == let_out(
                    old(self).info(),
                    i,
                    sum,
                    max_x as int,
                    max_y as int,
                )
                &&& forall|sums: Seq<A>|
                    sums[old(self).left() - 1] == sum ==> #[trigger] all_let_out(
                        old(self).info(),
                        old(self).order(),
                        sums,
                        old(self).left(),
                        final(self).left(),
                        max_x as int,
                        max_y as int,
                    ) == final(self).info()
                &&& vented.turf == i
                &&& vented.list == !listed@.contains(Some(i))
                &&& vented.target == loc
                &&& vented.sum == sum
                &&& vented.pressure_difference == own.curr_transfer_amount
                &&& vented.pressure_direction == 1u8 << (own.curr_transfer_dir as u8)
                &&& vented.target_difference == if ahead.curr_transfer_dir == 6 {
                    Some(ahead.curr_transfer_amount)
                } else {
                    None
                }
            }),
    {
        proof {
            use_type_invariant(&*self);
        }
        let at: usize = self.left - 1;
        let i: TurfID = match self.order.get_index(at) {
            Some((i, _)) => i,
            None => 0,
        };
        let mut info: ReducedMap<A> = ReducedMap::new();
        std::mem::swap(&mut info, &mut self.info);
        let mut own: ReducedInfo<A> = info.get(i);
        let sum: A = match moles {
            Some(sum) => sum,
            None => A::zero(),
        };
        let target: TurfID = adjacent_tile_id(own.curr_transfer_dir as u8, i, max_x, max_y);
        own.curr_transfer_amount = own.curr_transfer_amount.plus(sum);
        info.insert(i, own);
        let mut ahead: ReducedInfo<A> = info.get(target);
        ahead.curr_transfer_amount = ahead.curr_transfer_amount.plus(own.curr_transfer_amount);
        info.insert(target, ahead);
        self.info = info;
        self.left = at;
        assert forall|sums: Seq<A>| sums[at as int] == sum implies #[trigger] all_let_out(
            old(self).info(),
            old(self).order(),
            sums,
            at + 1,
            at as int,
            max_x as int,
            max_y as int,
        ) == self.info() by {
            assert(all_let_out(
                old(self).info(),
                old(self).order(),
                sums,
                at + 1,
                at + 1,
                max_x as int,
                max_y as int,
            ) == old(self).info());
        }
        proof {
            assert(vents(old(self).info(), old(self).order(), at + 1, at + 1) =~= Seq::empty());
            assert(seq![i].drop_last() =~= Seq::empty());
            assert(all_listed(listed@, seq![i].drop_last()) == listed@);
        }
        Vented {
            turf: i,
            list: !is_listed(listed, i),
            target,
            sum,
            pressure_difference: own.curr_transfer_amount,
            pressure_direction: 1u8 << (own.curr_transfer_dir as u8),
            target_difference: if ahead.curr_transfer_dir == 6 {
                Some(ahead.curr_transfer_amount)
            } else {
                None
            },
        }
    }
}

} // verus!
