//! Which zones are found, and which of them are worked on.
use vstd::prelude::*;
use crate::amount::Amount;
use crate::flood::{flooded, Flood, FloodFill, Probe, TurfReading, ZoneWork};
use crate::grid::TurfID;
use crate::laws::flood::{
    blocks, fill_respects_blocks, in_zone, joins, lemma_flooded, lemma_part, on_border, part,
};
use crate::seeds::{
    all_found_by, ascending, in_order, seeded, unsettled, Seeding,
};
use crate::tables::holds;

verus! {

/// Gas has to move around turf `i`: it was read, takes part in the simulation, has
/// neighbours, does not hold less than ten moles, and at least one neighbour
/// differs from it by no less than `min_delta`.
pub open spec fn gas_moves_at<A: Amount>(
    world: Map<TurfID, Probe<A>>,
    min_delta: A,
    i: TurfID,
) -> bool {
    world.contains_key(i) && (world[i] matches Probe::Turf(reading) && !(
    !reading.mixture.simulated || reading.mixture.adjacency == 0 || reading.moles.spec_lt(
        A::spec_from_count(10),
    ) || forall|k: int|
        0 <= k < reading.adjacent_moles@.len() ==> (
        #[trigger] reading.adjacent_moles@[k]).spec_minus(reading.moles).spec_magnitude().spec_lt(
            min_delta,
        )))
}

/// Gas has to move around a turf exactly if it takes part, has neighbours, holds
/// enough, and is not level with all of its neighbours.
pub proof fn settled_turfs_are_level<A: Amount>(
    world: Map<TurfID, Probe<A>>,
    min_delta: A,
    i: TurfID,
    reading: TurfReading<A>,
)
    requires
        world.contains_key(i),
        world[i] == Probe::Turf(reading),
    ensures
        unsettled(reading, min_delta) == gas_moves_at(world, min_delta, i),
{
}

/// A fill begins at turf `seed`, when the turfs of `known` have been found.
pub struct Start {
    pub seed: TurfID,
    pub known: Set<TurfID>,
}

/// What the fill that begins so comes to.
pub open spec fn fill_of<A: Amount>(
    world: Map<TurfID, Probe<A>>,
    max_x: int,
    max_y: int,
    start: Start,
) -> Flood<A> {
    let reading = world[start.seed]->Turf_0;
    flooded(
        start.seed,
        reading.mixture,
        reading.moles,
        world,
        max_x,
        max_y,
        start.known,
    )
}

/// What has been found after the fills of `starts`.
pub open spec fn known_after<A: Amount>(
    world: Map<TurfID, Probe<A>>,
    max_x: int,
    max_y: int,
    starts: Seq<Start>,
) -> Set<TurfID> {
    if starts.len() == 0 {
        Set::empty()
    } else {
        fill_of(world, max_x, max_y, starts.last()).found
    }
}

/// Where fills begin: at each turf of `ids`, in turn, around which gas has to move and
/// that no fill before has found.
pub open spec fn starts<A: Amount>(
    world: Map<TurfID, Probe<A>>,
    max_x: int,
    max_y: int,
    min_delta: A,
    ids: Seq<TurfID>,
) -> Seq<Start>
    decreases ids.len(),
{
    if ids.len() == 0 {
        Seq::empty()
    } else {
        let before = starts(world, max_x, max_y, min_delta, ids.drop_last());
        let known = known_after(world, max_x, max_y, before);
        if gas_moves_at(world, min_delta, ids.last()) && !known.contains(ids.last()) {
            before.push(Start { seed: ids.last(), known })
        } else {
            before
        }
    }
}

/// The fill came upon a turf that someone else was at work on, or that is space.
pub open spec fn hindered<A: Amount>(
    world: Map<TurfID, Probe<A>>,
    max_x: int,
    max_y: int,
    start: Start,
) -> bool {
    exists|k: TurfID| #[trigger]
        fill_of(world, max_x, max_y, start).found.contains(k) && !start.known.contains(k) && k
            != start.seed && world.contains_key(k) && (world[k] matches Probe::Turf(reading)
            ==> reading.immutable)
}

proof fn lemma_filter_push<A>(s: Seq<A>, x: A, fits: spec_fn(A) -> bool)
    ensures
        s.push(x).filter(fits) == if fits(x) {
            s.filter(fits).push(x)
        } else {
            s.filter(fits)
        },
{
    reveal(Seq::filter);
    assert(s.push(x).drop_last() =~= s);
}

/// The zones to work on are what the fills that were not hindered found, all of
/// them and in their order, whatever became of other fills; zones lose their air
/// whose fills found them open to space; and what has been found is what the fills
/// found.
pub proof fn zones_are_the_unhindered_fills<A: Amount>(
    world: Map<TurfID, Probe<A>>,
    max_x: int,
    max_y: int,
    min_delta: A,
    ids: Seq<TurfID>,
)
    ensures
        ({
            let seeding = seeded(world, max_x, max_y, min_delta, ids);
            let all = starts(world, max_x, max_y, min_delta, ids);
            let fill = |s: Start| fill_of(world, max_x, max_y, s);
            &&& seeding.zones == all.filter(
                |s: Start| !hindered(world, max_x, max_y, s),
            ).map_values(fill)
            &&& seeding.vents == all.filter(
                |s: Start| fill_of(world, max_x, max_y, s).depressurize,
            ).map_values(|s: Start| s.seed)
            &&& seeding.found == known_after(world, max_x, max_y, all)
        }),
    decreases ids.len(),
{
    let seeding = seeded(world, max_x, max_y, min_delta, ids);
    let all = starts(world, max_x, max_y, min_delta, ids);
    let fill = |s: Start| fill_of(world, max_x, max_y, s);
    let free = |s: Start| !hindered(world, max_x, max_y, s);
    let airless = |s: Start| fill_of(world, max_x, max_y, s).depressurize;
    reveal(Seq::filter);
    if ids.len() == 0 {
        assert(all.filter(free).map_values(fill) =~= Seq::empty());
        assert(all.filter(airless).map_values(|s: Start| s.seed) =~= Seq::empty());
    } else {
        let front = ids.drop_last();
        let i = ids.last();
        zones_are_the_unhindered_fills(world, max_x, max_y, min_delta, front);
        let before = starts(world, max_x, max_y, min_delta, front);
        let seeds = seeded(world, max_x, max_y, min_delta, front);
        let known = known_after(world, max_x, max_y, before);
        if gas_moves_at(world, min_delta, i) && !known.contains(i) {
            let start = Start { seed: i, known };
            let reading = world[i]->Turf_0;
            settled_turfs_are_level(world, min_delta, i, reading);
            fill_respects_blocks(
                i,
                reading.mixture,
                reading.moles,
                world,
                max_x,
                max_y,
                known,
            );
            let flood = fill_of(world, max_x, max_y, start);
            assert(flood.ignore_zone == hindered(world, max_x, max_y, start)) by {
                if flood.ignore_zone {
                    let k = choose|k: TurfID| #[trigger]
                        flood.found.contains(k) && !known.contains(k) && k != i && blocks(world, k);
                    assert(flood.found.contains(k));
                }
                if hindered(world, max_x, max_y, start) {
                    let k = choose|k: TurfID| #[trigger]
                        flood.found.contains(k) && !known.contains(k) && k != i
                            && world.contains_key(k) && (world[k] matches Probe::Turf(reading)
                            ==> reading.immutable);
                    assert(flood.found.contains(k) && blocks(world, k));
                }
            }
            assert(all == before.push(start));
            lemma_filter_push(before, start, free);
            lemma_filter_push(before, start, airless);
            assert(seeding.zones =~= all.filter(free).map_values(fill));
            assert(seeding.vents =~= all.filter(airless).map_values(|s: Start| s.seed));
            assert(all.last() == start);
        } else {
            if world.contains_key(i) && world[i] is Turf {
                settled_turfs_are_level(world, min_delta, i, world[i]->Turf_0);
            }
            assert(seeding == seeds);
        }
    }
}

/// The zone of the fill from `start` is one of the plan, unless the fill was hindered.
pub open spec fn cared_for<A: Amount>(
    world: Map<TurfID, Probe<A>>,
    max_x: int,
    max_y: int,
    seeding: Seeding<A>,
    start: Start,
) -> bool {
    hindered(world, max_x, max_y, start) <==> !seeding.zones.contains(
        fill_of(world, max_x, max_y, start),
    )
}

proof fn lemma_seed_reached<A: Amount>(
    world: Map<TurfID, Probe<A>>,
    max_x: int,
    max_y: int,
    min_delta: A,
    ids: Seq<TurfID>,
    i: TurfID,
)
    ensures
        ids.contains(i) && gas_moves_at(world, min_delta, i) ==> known_after(
            world,
            max_x,
            max_y,
            starts(world, max_x, max_y, min_delta, ids),
        ).contains(i),
        gas_moves_at(world, min_delta, i) && known_after(
            world,
            max_x,
            max_y,
            starts(world, max_x, max_y, min_delta, ids),
        ).contains(i) ==> exists|q: int|
            0 <= q < starts(world, max_x, max_y, min_delta, ids).len() && in_zone(
                #[trigger] fill_of(
                    world,
                    max_x,
                    max_y,
                    starts(world, max_x, max_y, min_delta, ids)[q],
                ),
                i,
            ),
    decreases ids.len(),
{
    if ids.len() > 0 {
        let front = ids.drop_last();
        let last = ids.last();
        lemma_seed_reached(world, max_x, max_y, min_delta, front, i);
        let before = starts(world, max_x, max_y, min_delta, front);
        let all = starts(world, max_x, max_y, min_delta, ids);
        let known = known_after(world, max_x, max_y, before);
        let after = known_after(world, max_x, max_y, all);
        if ids.contains(i) && i != last {
            let p = choose|p: int| 0 <= p < ids.len() && ids[p] == i;
            assert(front[p] == i);
            assert(front.contains(i));
        }
        if all != before {
            let start = Start { seed: last, known };
            let reading = world[last]->Turf_0;
            let flood = fill_of(world, max_x, max_y, start);
            lemma_flooded(
                last,
                reading.mixture,
                reading.moles,
                world,
                max_x,
                max_y,
                known,
            );
            assert(all[all.len() - 1] == start);
            assert(after == flood.found);
            assert(known.contains(i) ==> flood.found.contains(i));
            if gas_moves_at(world, min_delta, i) && after.contains(i) {
                if known.contains(i) {
                    let q = choose|q: int|
                        0 <= q < before.len() && in_zone(
                            #[trigger] fill_of(world, max_x, max_y, before[q]),
                            i,
                        );
                    assert(all[q] == before[q]);
                    assert(in_zone(fill_of(world, max_x, max_y, all[q]), i));
                } else {
                    let border = flood.border;
                    assert(border.take(border.len() as int) =~= border);
                    lemma_part(border, false);
                    lemma_part(border, true);
                    assert(on_border(border, i)) by {
                        if i == last {
                            assert(border[0].0 == i);
                        } else {
                            assert(joins(world, i));
                        }
                    }
                    let r = choose|r: int| 0 <= r < border.len() && (#[trigger] border[r]).0 == i;
                    assert(holds(part(border, border[r].1.planetary_atmos is Some), border[r].0));
                    assert(in_zone(flood, i));
                    assert(in_zone(fill_of(world, max_x, max_y, all[all.len() - 1]), i));
                }
            }
        }
    }
}

/// No seed is forgotten: every turf of `ids` around which gas has to move lies in what
/// some fill filled, and that is one of the zones if and only if the fill came upon
/// no turf that someone else was at work on and none that is space.
pub proof fn every_seed_has_its_zone<A: Amount>(
    world: Map<TurfID, Probe<A>>,
    max_x: int,
    max_y: int,
    min_delta: A,
    ids: Seq<TurfID>,
    i: TurfID,
) -> (q: int)
    requires
        ids.contains(i),
        gas_moves_at(world, min_delta, i),
    ensures
        ({
            let all = starts(world, max_x, max_y, min_delta, ids);
            let seeding = seeded(world, max_x, max_y, min_delta, ids);
            &&& 0 <= q < all.len()
            &&& in_zone(fill_of(world, max_x, max_y, all[q]), i)
            &&& cared_for(world, max_x, max_y, seeding, all[q])
        }),
{
    lemma_seed_reached(world, max_x, max_y, min_delta, ids, i);
    let all = starts(world, max_x, max_y, min_delta, ids);
    let q = choose|q: int|
        0 <= q < all.len() && in_zone(#[trigger] fill_of(world, max_x, max_y, all[q]), i);
    every_fill_is_cared_for(world, max_x, max_y, min_delta, ids, q);
    q
}

/// A fill leads to a zone to work on if and only if it was not hindered, however many
/// other fills there are and whatever became of them; and each zone comes from such a
/// fill.
pub proof fn every_fill_is_cared_for<A: Amount>(
    world: Map<TurfID, Probe<A>>,
    max_x: int,
    max_y: int,
    min_delta: A,
    ids: Seq<TurfID>,
    q: int,
)
    requires
        0 <= q < starts(world, max_x, max_y, min_delta, ids).len(),
    ensures
        ({
            let all = starts(world, max_x, max_y, min_delta, ids);
            let seeding = seeded(world, max_x, max_y, min_delta, ids);
            &&& cared_for(world, max_x, max_y, seeding, all[q])
            &&& seeding.vents.contains(all[q].seed) <==> fill_of(
                world,
                max_x,
                max_y,
                all[q],
            ).depressurize
        }),
{
    let all = starts(world, max_x, max_y, min_delta, ids);
    let seeding = seeded(world, max_x, max_y, min_delta, ids);
    let fill = |s: Start| fill_of(world, max_x, max_y, s);
    let free = |s: Start| !hindered(world, max_x, max_y, s);
    let airless = |s: Start| fill_of(world, max_x, max_y, s).depressurize;
    let seed = |s: Start| s.seed;
    zones_are_the_unhindered_fills(world, max_x, max_y, min_delta, ids);
    let kept = all.filter(free);
    let lost = all.filter(airless);
    let start = all[q];
    if free(start) {
        all.lemma_filter_contains(free, q);
        let k = choose|k: int| 0 <= k < kept.len() && kept[k] == start;
        assert(seeding.zones[k] == fill(start));
    } else if seeding.zones.contains(fill(start)) {
        let k = choose|k: int|
            0 <= k < seeding.zones.len() && seeding.zones[k] == fill(start);
        let other = kept[k];
        assert(kept.contains(other));
        all.lemma_filter_contains_rev(free, other);
        let r = choose|r: int| 0 <= r < all.len() && all[r] == other;
        assert(fill(other) == fill(start));
        assert(free(other)) by {
            lemma_filter_fits(all, free, k);
        }
        lemma_fills_differ(world, max_x, max_y, min_delta, ids, r, q);
        assert(false);
    }
    if airless(start) {
        all.lemma_filter_contains(airless, q);
        let k = choose|k: int| 0 <= k < lost.len() && lost[k] == start;
        assert(seeding.vents[k] == start.seed);
    } else if seeding.vents.contains(start.seed) {
        let k = choose|k: int|
            0 <= k < seeding.vents.len() && seeding.vents[k] == start.seed;
        let other = lost[k];
        assert(lost.contains(other));
        all.lemma_filter_contains_rev(airless, other);
        let r = choose|r: int| 0 <= r < all.len() && all[r] == other;
        lemma_filter_fits(all, airless, k);
        lemma_fills_differ(world, max_x, max_y, min_delta, ids, r, q);
        assert(false);
    }
}

proof fn lemma_filter_fits<A>(s: Seq<A>, fits: spec_fn(A) -> bool, k: int)
    requires
        0 <= k < s.filter(fits).len(),
    ensures
        fits(s.filter(fits)[k]),
    decreases s.len(),
{
    reveal(Seq::filter);
    if s.len() > 0 {
        let front = s.drop_last();
        if k < front.filter(fits).len() {
            lemma_filter_fits(front, fits, k);
        }
    }
}

/// Fills that begin at different turfs find different turfs.
proof fn lemma_fills_differ<A: Amount>(
    world: Map<TurfID, Probe<A>>,
    max_x: int,
    max_y: int,
    min_delta: A,
    ids: Seq<TurfID>,
    p: int,
    q: int,
)
    requires
        ({
            let all = starts(world, max_x, max_y, min_delta, ids);
            0 <= p < all.len() && 0 <= q < all.len() && (all[p].seed == all[q].seed || fill_of(
                world,
                max_x,
                max_y,
                all[p],
            ) == fill_of(world, max_x, max_y, all[q]))
        }),
    ensures
        p == q,
{
    let all = starts(world, max_x, max_y, min_delta, ids);
    lemma_known_grows(world, max_x, max_y, min_delta, ids);
    if p < q {
        assert(fill_of(world, max_x, max_y, all[p]).found.contains(all[p].seed));
        lemma_first_border(world, max_x, max_y, all[p]);
        lemma_first_border(world, max_x, max_y, all[q]);
    } else if q < p {
        assert(fill_of(world, max_x, max_y, all[q]).found.contains(all[q].seed));
        lemma_first_border(world, max_x, max_y, all[p]);
        lemma_first_border(world, max_x, max_y, all[q]);
    }
}

proof fn lemma_first_border<A: Amount>(
    world: Map<TurfID, Probe<A>>,
    max_x: int,
    max_y: int,
    start: Start,
)
    ensures
        fill_of(world, max_x, max_y, start).border[0].0 == start.seed,
        fill_of(world, max_x, max_y, start).found.contains(start.seed),
{
    let reading = world[start.seed]->Turf_0;
    lemma_flooded(
        start.seed,
        reading.mixture,
        reading.moles,
        world,
        max_x,
        max_y,
        start.known,
    );
}

/// What a fill has found is known to all later ones, and no fill begins at a turf that
/// is known.
proof fn lemma_known_grows<A: Amount>(
    world: Map<TurfID, Probe<A>>,
    max_x: int,
    max_y: int,
    min_delta: A,
    ids: Seq<TurfID>,
)
    ensures
        ({
            let all = starts(world, max_x, max_y, min_delta, ids);
            &&& forall|p: int, k: TurfID|
                0 <= p < all.len() && #[trigger] fill_of(
                    world,
                    max_x,
                    max_y,
                    all[p],
                ).found.contains(k) ==> known_after(world, max_x, max_y, all).contains(k)
            &&& forall|p: int, q: int, k: TurfID|
                0 <= p < q < all.len() && #[trigger] fill_of(
                    world,
                    max_x,
                    max_y,
                    all[p],
                ).found.contains(k) ==> (#[trigger] all[q]).known.contains(k)
            &&& forall|p: int|
                0 <= p < all.len() ==> !(#[trigger] all[p]).known.contains(all[p].seed)
                    && fill_of(world, max_x, max_y, all[p]).found.contains(all[p].seed)
            &&& forall|p: int, q: int|
                0 <= p < q < all.len() ==> (#[trigger] all[p]).seed != (#[trigger] all[q]).seed
        }),
    decreases ids.len(),
{
    if ids.len() > 0 {
        let front = ids.drop_last();
        lemma_known_grows(world, max_x, max_y, min_delta, front);
        let before = starts(world, max_x, max_y, min_delta, front);
        let all = starts(world, max_x, max_y, min_delta, ids);
        let known = known_after(world, max_x, max_y, before);
        if all != before {
            let start = Start { seed: ids.last(), known };
            let n = before.len() as int;
            let reading = world[start.seed]->Turf_0;
            lemma_first_border(world, max_x, max_y, start);
            lemma_flooded(
                start.seed,
                reading.mixture,
                reading.moles,
                world,
                max_x,
                max_y,
                known,
            );
            assert(all[n] == start);
            assert forall|p: int| 0 <= p < n implies (#[trigger] all[p]) == before[p] by {}
            assert forall|p: int, k: TurfID|
                0 <= p < all.len() && #[trigger] fill_of(
                    world,
                    max_x,
                    max_y,
                    all[p],
                ).found.contains(k) implies known_after(world, max_x, max_y, all).contains(k) by {
                if p < n {
                    assert(fill_of(world, max_x, max_y, before[p]).found.contains(k));
                    assert(known.contains(k));
                }
            }
            assert forall|p: int, q: int, k: TurfID|
                0 <= p < q < all.len() && #[trigger] fill_of(
                    world,
                    max_x,
                    max_y,
                    all[p],
                ).found.contains(k) implies (#[trigger] all[q]).known.contains(k) by {
                assert(all[p] == before[p]);
                assert(fill_of(world, max_x, max_y, before[p]).found.contains(k));
                if q < n {
                    assert(all[q] == before[q]);
                }
            }
            assert forall|p: int, q: int| 0 <= p < q < all.len() implies (
            #[trigger] all[p]).seed != (#[trigger] all[q]).seed by {
                assert(all[p] == before[p]);
                if q < n {
                    assert(all[q] == before[q]);
                } else {
                    assert(fill_of(world, max_x, max_y, before[p]).found.contains(before[p].seed));
                    assert(known.contains(before[p].seed));
                }
            }
        }
    }
}

/// All turfs of a set come in order, each once.
pub proof fn sets_have_an_order(set: Set<TurfID>)
    requires
        set.finite(),
    ensures
        forall|p: int, q: int|
            0 <= p < q < in_order(set).len() ==> in_order(set)[p] < in_order(set)[q],
        forall|i: TurfID| #[trigger] in_order(set).contains(i) == set.contains(i),
{
    let ids = lemma_order_below(set, 0x1_0000_0000);
    assert(ids.to_set() =~= set);
    assert(ascending(ids) && ids.to_set() == set);
    let order = in_order(set);
    assert(ascending(order) && order.to_set() == set);
    assert forall|i: TurfID| #[trigger] order.contains(i) == set.contains(i) by {
        assert(order.to_set().contains(i) == order.contains(i));
    }
}

proof fn lemma_order_below(set: Set<TurfID>, n: nat) -> (ids: Seq<TurfID>)
    requires
        n <= 0x1_0000_0000,
    ensures
        ascending(ids),
        forall|i: TurfID| #[trigger] ids.contains(i) == (set.contains(i) && i < n),
    decreases n,
{
    if n == 0 {
        Seq::empty()
    } else {
        let front = lemma_order_below(set, (n - 1) as nat);
        let last = (n - 1) as u32;
        if set.contains(last) {
            let ids = front.push(last);
            assert forall|p: int, q: int| 0 <= p < q < ids.len() implies ids[p] < ids[q] by {
                if q == front.len() {
                    assert(front.contains(front[p]));
                }
            }
            assert forall|i: TurfID| #[trigger] ids.contains(i) == (set.contains(i) && i < n) by {
                if front.contains(i) {
                    let p = choose|p: int| 0 <= p < front.len() && front[p] == i;
                    assert(ids[p] == i);
                }
                assert(ids[front.len() as int] == last);
                if ids.contains(i) && i != last {
                    let p = choose|p: int| 0 <= p < ids.len() && ids[p] == i;
                    assert(front[p] == i);
                }
            }
            ids
        } else {
            front
        }
    }
}

/// A plan hands on what the fills found: as many zones as fills, each with the turfs,
/// the planet turfs and the gas of its fill.
pub proof fn plans_hold_what_was_found<A: Amount>(
    zones: Seq<ZoneWork<A>>,
    floods: Seq<Flood<A>>,
    k: int,
)
    requires
        all_found_by(zones, floods),
        0 <= k < floods.len(),
    ensures
        zones.len() == floods.len(),
        zones[k].turfs@ == floods[k].turfs,
        zones[k].planet_turfs@ == floods[k].planet_turfs,
        zones[k].total_moles == floods[k].total_moles,
{
    assert(zones[k].found_by(floods[k]));
}

/// A fill hands on what it found: a zone, with its turfs, its planet turfs and its gas, unless the
/// zone is to be left alone, and whether the zone is open to space.
pub proof fn fills_hand_on_what_they_found<A: Amount>(outcome: FloodFill<A>, flood: Flood<A>)
    requires
        outcome.outcome_of(flood),
    ensures
        outcome.depressurize == flood.depressurize,
        flood.ignore_zone ==> outcome.zone is None,
        !flood.ignore_zone ==> {
            &&& outcome.zone is Some
            &&& (outcome.zone->0).turfs@ == flood.turfs
            &&& (outcome.zone->0).planet_turfs@ == flood.planet_turfs
            &&& (outcome.zone->0).total_moles == flood.total_moles
        },
{
}

} // verus!
