//! What the zones have to do with each other.
use vstd::prelude::*;
use crate::amount::Amount;
use crate::flood::{flooded, Flood, Probe};
use crate::grid::TurfID;
use crate::laws::flood::{fill_respects_blocks, fill_sorts_its_turfs, in_zone};
use crate::laws::planet::outside;
use crate::seeds::{seeded, seeded_by, unsettled, Seeding};
use crate::tables::distinct;
use crate::zone::all_read;

verus! {

/// No turf is in the zone twice, no planet turf is in the zone itself, and all
/// turfs were read.
pub open spec fn sound<A: Amount>(world: Map<TurfID, Probe<A>>, zone: Flood<A>) -> bool {
    &&& distinct(zone.turfs) && distinct(zone.planet_turfs)
    &&& outside(zone.planet_turfs, zone.turfs)
    &&& all_read(world, zone.turfs) && all_read(world, zone.planet_turfs)
}

/// Gas has to move around turf `i`.
pub open spec fn is_seed<A: Amount>(
    world: Map<TurfID, Probe<A>>,
    min_delta: A,
    i: TurfID,
) -> bool {
    world.contains_key(i) && (world[i] matches Probe::Turf(reading) && unsettled(
        reading,
        min_delta,
    ))
}

/// Zones are sound and share no turf, turfs that lose their air are in none of
/// them, and all of these turfs have been found.
pub open spec fn zones_apart<A: Amount>(
    world: Map<TurfID, Probe<A>>,
    seeding: Seeding<A>,
) -> bool {
    &&& forall|p: int| 0 <= p < seeding.zones.len() ==> sound(world, #[trigger] seeding.zones[p])
    &&& forall|p: int, i: TurfID|
        0 <= p < seeding.zones.len() && #[trigger] in_zone(seeding.zones[p], i)
            ==> seeding.found.contains(i)
    &&& forall|p: int, q: int, i: TurfID|
        0 <= p < q < seeding.zones.len() && #[trigger] in_zone(seeding.zones[p], i)
            ==> !#[trigger] in_zone(seeding.zones[q], i)
    &&& forall|p: int|
        0 <= p < seeding.vents.len() ==> seeding.found.contains(#[trigger] seeding.vents[p])
    &&& forall|p: int, q: int|
        0 <= p < seeding.zones.len() && 0 <= q < seeding.vents.len() ==> !#[trigger] in_zone(
            seeding.zones[p],
            seeding.vents[q],
        )
    &&& seeding.vents.no_duplicates()
}

proof fn lemma_seeded_by<A: Amount>(
    world: Map<TurfID, Probe<A>>,
    max_x: int,
    max_y: int,
    min_delta: A,
    seeding: Seeding<A>,
    i: TurfID,
)
    requires
        zones_apart(world, seeding),
    ensures
        ({
            let next = seeded_by(world, max_x, max_y, min_delta, seeding, i);
            &&& zones_apart(world, next)
            &&& forall|k: TurfID| #[trigger]
                seeding.found.contains(k) ==> next.found.contains(k)
            &&& is_seed(world, min_delta, i) ==> next.found.contains(i)
        }),
{
    let next = seeded_by(world, max_x, max_y, min_delta, seeding, i);
    if !seeding.found.contains(i) && is_seed(world, min_delta, i) {
        let reading = world[i]->Turf_0;
        let zone = flooded(
            i,
            reading.mixture,
            reading.moles,
            world,
            max_x,
            max_y,
            seeding.found,
        );
        fill_sorts_its_turfs(
            i,
            reading.mixture,
            reading.moles,
            world,
            max_x,
            max_y,
            seeding.found,
        );
        assert(in_zone(zone, i));
        assert(sound(world, zone));
        let n = seeding.zones.len() as int;
        let l = seeding.vents.len() as int;
        assert forall|p: int| 0 <= p < next.zones.len() implies sound(
            world,
            #[trigger] next.zones[p],
        ) by {
            if p < n {
                assert(next.zones[p] == seeding.zones[p]);
            } else {
                assert(next.zones[p] == zone);
            }
        }
        assert forall|p: int, k: TurfID|
            0 <= p < next.zones.len() && #[trigger] in_zone(
                next.zones[p],
                k,
            ) implies next.found.contains(k) && (p < n ==> seeding.found.contains(k)) && (p >= n
            ==> !seeding.found.contains(k)) by {
            if p < n {
                assert(next.zones[p] == seeding.zones[p]);
                assert(in_zone(seeding.zones[p], k));
                assert(seeding.found.contains(k));
            } else {
                assert(in_zone(zone, k));
            }
        }
        assert forall|p: int, q: int, k: TurfID|
            0 <= p < q < next.zones.len() && #[trigger] in_zone(
                next.zones[p],
                k,
            ) implies !#[trigger] in_zone(next.zones[q], k) by {
            if q < n {
                assert(next.zones[p] == seeding.zones[p] && next.zones[q] == seeding.zones[q]);
                assert(in_zone(seeding.zones[p], k));
                assert(!in_zone(seeding.zones[q], k));
            }
        }
        assert forall|p: int| 0 <= p < next.vents.len() implies next.found.contains(
            #[trigger] next.vents[p],
        ) && (p < l ==> seeding.found.contains(next.vents[p])) && (p >= l ==> next.vents[p]
            == i) by {
            if p < l {
                assert(next.vents[p] == seeding.vents[p]);
            }
        }
        assert forall|p: int, q: int|
            0 <= p < next.zones.len() && 0 <= q < next.vents.len() implies !#[trigger] in_zone(
            next.zones[p],
            next.vents[q],
        ) by {
            assert(next.found.contains(next.vents[q]));
            if p < n && q < l {
                assert(next.zones[p] == seeding.zones[p] && next.vents[q] == seeding.vents[q]);
                assert(!in_zone(seeding.zones[p], seeding.vents[q]));
            } else if p >= n && q >= l {
                // a fill that vents its zone does not also keep it
                assert(zone.depressurize && !zone.ignore_zone);
                fill_respects_blocks(
                    i,
                    reading.mixture,
                    reading.moles,
                    world,
                    max_x,
                    max_y,
                    seeding.found,
                );
            }
        }
        assert forall|p: int, q: int|
            0 <= p < next.vents.len() && 0 <= q < next.vents.len() && p
                != q implies next.vents[p] != next.vents[q] by {
            assert(next.found.contains(next.vents[p]) && next.found.contains(next.vents[q]));
            if p < l && q < l {
                assert(seeding.vents[p] != seeding.vents[q]);
            }
        }
    }
}

/// The zones share no turf with each other, and none with the turfs that lose
/// their air; and every turf of `ids` around which gas has to move has been
/// found by a fill.
pub proof fn zones_share_no_turf<A: Amount>(
    world: Map<TurfID, Probe<A>>,
    max_x: int,
    max_y: int,
    min_delta: A,
    ids: Seq<TurfID>,
)
    ensures
        zones_apart(world, seeded(world, max_x, max_y, min_delta, ids)),
        forall|p: int|
            0 <= p < ids.len() && is_seed(world, min_delta, #[trigger] ids[p]) ==> seeded(
                world,
                max_x,
                max_y,
                min_delta,
                ids,
            ).found.contains(ids[p]),
    decreases ids.len(),
{
    if ids.len() > 0 {
        let front = ids.drop_last();
        zones_share_no_turf(world, max_x, max_y, min_delta, front);
        let before = seeded(world, max_x, max_y, min_delta, front);
        lemma_seeded_by(world, max_x, max_y, min_delta, before, ids.last());
        let after = seeded(world, max_x, max_y, min_delta, ids);
        assert forall|p: int|
            0 <= p < ids.len() && is_seed(
                world,
                min_delta,
                #[trigger] ids[p],
            ) implies after.found.contains(ids[p]) by {
            if p < front.len() {
                assert(front[p] == ids[p]);
                assert(before.found.contains(ids[p]));
            }
        }
    }
}

} // verus!
