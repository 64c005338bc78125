//! Finding the zones in which gas has to move.
use vstd::prelude::*;
use vstd::std_specs::cmp::OrdSpec;
use vstd::std_specs::iter::IteratorSpec;
use std::collections::{BTreeSet, HashMap};
use crate::amount::Amount;
use crate::flood::{flood_fill_equalize_turfs, flooded, Flood, Probe, TurfReading, ZoneWork};
use crate::grid::TurfID;
use crate::laws::seeds::{sound, zones_share_no_turf};
use crate::tables::TurfSet;
use crate::zone::all_read;

verus! {

/// `ids` ascend.
pub open spec fn ascending(ids: Seq<TurfID>) -> bool {
    forall|p: int, q: int| 0 <= p < q < ids.len() ==> ids[p] < ids[q]
}

/// The turfs of `set` in ascending order.
pub open spec fn in_order(set: Set<TurfID>) -> Seq<TurfID> {
    choose|ids: Seq<TurfID>| ascending(ids) && #[trigger] ids.to_set() == set
}

/// The turfs of a set have but one ascending order.
pub proof fn lemma_one_order(a: Seq<TurfID>, b: Seq<TurfID>)
    requires
        ascending(a),
        ascending(b),
        a.to_set() == b.to_set(),
    ensures
        a == b,
    decreases a.len(),
{
    if a.len() == 0 {
        if b.len() > 0 {
            assert(b.to_set().contains(b[0]));
        }
        assert(a =~= b);
    } else {
        assert(a.to_set().contains(a.last()));
        assert(b.contains(a.last()));
        assert(b.to_set().contains(b.last()));
        assert(a.contains(b.last()));
        let p = choose|p: int| 0 <= p < b.len() && b[p] == a.last();
        let q = choose|q: int| 0 <= q < a.len() && a[q] == b.last();
        assert(a.last() == b.last());
        let x = a.drop_last();
        let y = b.drop_last();
        assert forall|i: TurfID| x.to_set().contains(i) == y.to_set().contains(i) by {
            if x.contains(i) {
                let k = choose|k: int| 0 <= k < x.len() && x[k] == i;
                assert(a[k] == i && i < a.last());
                assert(a.to_set().contains(i));
                assert(b.contains(i));
                let l = choose|l: int| 0 <= l < b.len() && b[l] == i;
                assert(y[l] == i);
            }
            if y.contains(i) {
                let k = choose|k: int| 0 <= k < y.len() && y[k] == i;
                assert(b[k] == i && i < b.last());
                assert(b.to_set().contains(i));
                assert(a.contains(i));
                let l = choose|l: int| 0 <= l < a.len() && a[l] == i;
                assert(x[l] == i);
            }
        }
        assert(x.to_set() =~= y.to_set());
        lemma_one_order(x, y);
        assert(a =~= x.push(a.last()));
        assert(b =~= y.push(b.last()));
    }
}

/// Gas has to move around the turf of `reading`: it takes part in the
/// simulation, has neighbours, holds at least ten moles, and not all of its
/// neighbours are within `min_delta` of it.
pub open spec fn unsettled<A: Amount>(reading: TurfReading<A>, min_delta: A) -> bool {
    &&& reading.mixture.simulated
    &&& reading.mixture.adjacency != 0
    &&& !reading.moles.spec_lt(A::spec_from_count(10))
    &&& exists|k: int|
        0 <= k < reading.adjacent_moles@.len() && !(
        #[trigger] reading.adjacent_moles@[k]).spec_minus(reading.moles).spec_magnitude().spec_lt(
            min_delta,
        )
}

/// Zones while they are being found.
#[verifier::ext_equal]
pub struct Seeding<A: Amount> {
    pub found: Set<TurfID>,
    /// The fills that ended with a zone to work on.
    pub zones: Seq<Flood<A>>,
    /// The turfs whose zones are open to space.
    pub vents: Seq<TurfID>,
}

/// Turf `i` seeds a zone if it is in none yet and gas has to move around it.
pub open spec fn seeded_by<A: Amount>(
    world: Map<TurfID, Probe<A>>,
    max_x: int,
    max_y: int,
    min_delta: A,
    seeding: Seeding<A>,
    i: TurfID,
) -> Seeding<A> {
    if seeding.found.contains(i) || !world.contains_key(i) {
        seeding
    } else {
        match world[i] {
            Probe::Locked => seeding,
            Probe::Turf(reading) => if !unsettled(reading, min_delta) {
                seeding
            } else {
                let flood = flooded(
                    i,
                    reading.mixture,
                    reading.moles,
                    world,
                    max_x,
                    max_y,
                    seeding.found,
                );
                Seeding {
                    found: flood.found,
                    zones: if flood.ignore_zone {
                        seeding.zones
                    } else {
                        seeding.zones.push(flood)
                    },
                    vents: if flood.depressurize {
                        seeding.vents.push(i)
                    } else {
                        seeding.vents
                    },
                }
            },
        }
    }
}

/// The turfs of `ids` seed zones one after the other.
pub open spec fn seeded<A: Amount>(
    world: Map<TurfID, Probe<A>>,
    max_x: int,
    max_y: int,
    min_delta: A,
    ids: Seq<TurfID>,
) -> Seeding<A>
    decreases ids.len(),
{
    if ids.len() == 0 {
        Seeding { found: Set::empty(), zones: Seq::empty(), vents: Seq::empty() }
    } else {
        seeded_by(
            world,
            max_x,
            max_y,
            min_delta,
            seeded(world, max_x, max_y, min_delta, ids.drop_last()),
            ids.last(),
        )
    }
}

/// What has to be done about the air.
pub struct ZonePlan<A: Amount> {
    /// The zones in which gas has to move.
    pub zones: Vec<ZoneWork<A>>,
    /// The turfs whose zones are open to space and lose their air.
    pub vents: Vec<TurfID>,
}

/// The zones of `zones` are those that the fills of `floods` found.
pub open spec fn all_found_by<A: Amount>(zones: Seq<ZoneWork<A>>, floods: Seq<Flood<A>>) -> bool {
    &&& zones.len() == floods.len()
    &&& forall|k: int| 0 <= k < zones.len() ==> (#[trigger] zones[k]).found_by(floods[k])
}

proof fn lemma_increasing<K: Ord>(s: Seq<K>, p: int, q: int)
    requires
        vstd::laws_cmp::obeys_cmp::<K>(),
        vstd::std_specs::btree::increasing_seq(s),
        0 <= p < q < s.len(),
    ensures
        s[p].cmp_spec(&s[q]) is Less,
{
    broadcast use vstd::std_specs::btree::group_btree_axioms;

}

/// The turfs of a set in ascending order.
fn turfs_in_order(set: &BTreeSet<u32>) -> (ids: Vec<TurfID>)
    ensures
        ids@ == in_order(set@),
{
    broadcast use vstd::std_specs::btree::group_btree_axioms;
    broadcast use vstd::laws_cmp::group_laws_cmp;

    assert(vstd::laws_cmp::obeys_cmp::<u32>());
    let mut ids: Vec<TurfID> = Vec::new();
    for i in iter: set.iter()
        invariant
            ids@.len() == iter.index(),
            forall|p: int| 0 <= p < ids@.len() ==> ids@[p] == *iter.seq()[p],
    {
        ids.push(*i);
    }
    proof {
        let all = vstd::std_specs::btree::spec_btree_keys_iter(set).remaining();
        assert(ids@ =~= all.unref());
        assert forall|p: int, q: int| 0 <= p < q < ids@.len() implies ids@[p] < ids@[q] by {
            lemma_increasing(all, p, q);
        }
        assert(ids@.to_set() == set@);
        lemma_one_order(ids@, in_order(set@));
    }
    ids
}

/// Whether gas has to move around the turf of `reading`.
pub fn is_unsettled<A: Amount>(reading: &TurfReading<A>, min_delta: A) -> (r: bool)
    ensures
        r == unsettled(*reading, min_delta),
{
    if !reading.mixture.enabled() || reading.mixture.adjacency == 0 || reading.moles.lt(
        A::from_count(10),
    ) {
        return false;
    }
    let mut k: usize = 0;
    while k < reading.adjacent_moles.len()
        invariant
            k <= reading.adjacent_moles@.len(),
            reading.mixture.simulated,
            reading.mixture.adjacency != 0,
            !reading.moles.spec_lt(A::spec_from_count(10)),
            forall|p: int|
                0 <= p < k ==> (#[trigger] reading.adjacent_moles@[p]).spec_minus(
                    reading.moles,
                ).spec_magnitude().spec_lt(min_delta),
        decreases reading.adjacent_moles.len() - k,
    {
        if !reading.adjacent_moles[k].minus(reading.moles).magnitude().lt(min_delta) {
            return true;
        }
        k = k + 1;
    }
    false
}

/// Finds the zones around the turfs of `high_pressure_turfs`. Gas moves where
/// a turf differs from a neighbour by at least `min_delta`.
pub fn find_zones<A: Amount>(
    max_x: i32,
    max_y: i32,
    high_pressure_turfs: &BTreeSet<u32>,
    world: &HashMap<u32, Probe<A>>,
    min_delta: A,
) -> (plan: ZonePlan<A>)
    ensures
        ({
            let seeding = seeded(
                world@,
                max_x as int,
                max_y as int,
                min_delta,
                in_order(high_pressure_turfs@),
            );
            &&& all_found_by(plan.zones@, seeding.zones)
            &&& plan.vents@ == seeding.vents
        }),
        forall|k: int|
            0 <= k < plan.zones@.len() ==> all_read(world@, (#[trigger] plan.zones@[k]).turfs@),
{
    broadcast use vstd::std_specs::hash::group_hash_axioms;

    let ids = turfs_in_order(high_pressure_turfs);
    let mut found_turfs = TurfSet::new();
    let mut zones: Vec<ZoneWork<A>> = Vec::new();
    let mut vents: Vec<TurfID> = Vec::new();
    let mut k: usize = 0;
    assert(ids@.take(0) =~= Seq::<TurfID>::empty());
    let ghost mut now = seeded(world@, max_x as int, max_y as int, min_delta, ids@.take(0));
    while k < ids.len()
        invariant
            k <= ids.len(),
            now == seeded(world@, max_x as int, max_y as int, min_delta, ids@.take(k as int)),
            found_turfs@ == now.found,
            all_found_by(zones@, now.zones),
            vents@ == now.vents,
        decreases ids.len() - k,
    {
        let i: TurfID = ids[k];
        let ghost next = seeded_by(world@, max_x as int, max_y as int, min_delta, now, i);
        proof {
            assert(ids@.take(k + 1).drop_last() =~= ids@.take(k as int));
            assert(ids@.take(k + 1).last() == i);
        }
        if !found_turfs.contains(i) {
            if let Some(Probe::Turf(reading)) = world.get(&i) {
                if is_unsettled(reading, min_delta) {
                    let outcome = flood_fill_equalize_turfs(
                        i,
                        reading.mixture,
                        reading.moles,
                        world,
                        max_x,
                        max_y,
                        &mut found_turfs,
                    );
                    if outcome.depressurize {
                        vents.push(i);
                    }
                    if let Some(zone) = outcome.zone {
                        zones.push(zone);
                    }
                }
            }
        }
        proof {
            now = next;
        }
        k = k + 1;
    }
    assert(ids@.take(k as int) =~= ids@);
    proof {
        zones_share_no_turf(world@, max_x as int, max_y as int, min_delta, ids@);
        assert forall|p: int| 0 <= p < zones@.len() implies all_read(
            world@,
            (#[trigger] zones@[p]).turfs@,
        ) by {
            assert(zones@[p].found_by(now.zones[p]));
            assert(sound(world@, now.zones[p]));
        }
    }
    ZonePlan { zones, vents }
}

} // verus!
