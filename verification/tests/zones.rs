use katmos::amount::Amount;
use katmos::finalize::{Effect, Finalizer};
use katmos::flood::{flood_fill_equalize_turfs, Probe, TurfReading};
use katmos::quanta::Quanta;
use katmos::seeds::{find_zones, is_unsettled};
use katmos::tables::{InfoMap, TurfMixture, TurfSet, Zone};
use katmos::zone::{count_processed, equalize_zone, ZoneBooks};
use std::collections::{BTreeSet, HashMap};

const NORTH: u8 = 1;
const SOUTH: u8 = 2;
const EAST: u8 = 4;
const WEST: u8 = 8;

/// What `f32` makes of amounts of gas.
#[derive(Clone, Copy, Debug, PartialEq)]
struct Moles(f32);

impl Amount for Moles {
    type Total = f64;

    fn zero() -> Self {
        Moles(0.0)
    }
    fn from_count(n: u32) -> Self {
        Moles(n as f32)
    }
    fn plus(self, other: Self) -> Self {
        Moles(self.0 + other.0)
    }
    fn minus(self, other: Self) -> Self {
        Moles(self.0 - other.0)
    }
    fn negate(self) -> Self {
        Moles(-self.0)
    }
    fn magnitude(self) -> Self {
        Moles(self.0.abs())
    }
    fn share(self, n: u32) -> Self {
        Moles(self.0 / n as f32)
    }
    fn lt(self, other: Self) -> bool {
        self.0 < other.0
    }
    fn le(self, other: Self) -> bool {
        self.0 <= other.0
    }
    fn same(self, other: Self) -> bool {
        self.0 == other.0
    }
    fn total_zero() -> f64 {
        0.0
    }
    fn total_plus(total: f64, amount: Self) -> f64 {
        total + amount.0 as f64
    }
    fn mean(total: f64, n: usize) -> Self {
        Moles((total / n as f64) as f32)
    }
    fn log2_floor(n: usize) -> usize {
        (n as f32).log2().floor() as usize
    }
}

fn turf(mix: usize, adjacency: u8) -> TurfMixture {
    TurfMixture { mix, adjacency, simulated: true, planetary_atmos: None }
}

fn reading<A: Amount>(mixture: TurfMixture, moles: A, adjacent_moles: Vec<A>) -> TurfReading<A> {
    TurfReading { mixture, immutable: false, moles, adjacent_moles }
}

fn quanta(n: i64) -> Quanta {
    Quanta { n }
}

/// A row of turfs from index 10 on, with the given amounts.
fn row<A: Amount>(amounts: &[A]) -> HashMap<u32, Probe<A>> {
    let mut world = HashMap::new();
    for (k, moles) in amounts.iter().enumerate() {
        let mut adjacency = 0;
        let mut around = Vec::new();
        if k > 0 {
            adjacency |= WEST;
            around.push(amounts[k - 1]);
        }
        if k + 1 < amounts.len() {
            adjacency |= EAST;
            around.push(amounts[k + 1]);
        }
        world.insert(10 + k as u32, Probe::Turf(reading(turf(k, adjacency), *moles, around)));
    }
    world
}

fn change<A: Amount>(
    world: &mut HashMap<u32, Probe<A>>,
    i: u32,
    f: impl Fn(&mut TurfReading<A>),
) {
    match world.get_mut(&i) {
        Some(Probe::Turf(reading)) => f(reading),
        _ => panic!("no such turf"),
    }
}

fn ids(zone: &Zone) -> Vec<u32> {
    (0..zone.len()).map(|k| zone.get_index(k).unwrap().0).collect()
}

fn transfers(info: &InfoMap<Quanta>, i: u32) -> [i64; 7] {
    info.get(i).unwrap().transfer_dirs.map(|a| a.n)
}

fn set(ids: &[u32]) -> BTreeSet<u32> {
    ids.iter().copied().collect()
}

#[test]
fn a_fill_finds_the_whole_row() {
    let world = row(&[quanta(30), quanta(5), quanta(1)]);
    let mut found = TurfSet::new();
    let outcome =
        flood_fill_equalize_turfs(11, turf(1, EAST | WEST), quanta(5), &world, 100, 100, &mut found);
    assert!(!outcome.depressurize);
    let zone = outcome.zone.unwrap();
    assert_eq!(ids(&zone.turfs), vec![11, 12, 10]);
    assert_eq!(zone.planet_turfs.len(), 0);
    assert_eq!(zone.total_moles, quanta(36));
    for i in 10..13 {
        assert!(found.contains(i));
    }
}

#[test]
fn a_fill_ends_at_a_planet() {
    let mut world = row(&[quanta(30), quanta(5), quanta(7), quanta(100)]);
    change(&mut world, 12, |reading| reading.mixture.planetary_atmos = Some(4));
    let mut found = TurfSet::new();
    let outcome =
        flood_fill_equalize_turfs(10, turf(0, EAST), quanta(30), &world, 100, 100, &mut found);
    let zone = outcome.zone.unwrap();
    assert_eq!(ids(&zone.turfs), vec![10, 11]);
    assert_eq!(ids(&zone.planet_turfs), vec![12]);
    assert_eq!(zone.total_moles, quanta(35));
    assert!(found.contains(12));
    assert!(!found.contains(13));
}

#[test]
fn a_locked_turf_spoils_the_zone() {
    let mut world = row(&[quanta(30), quanta(5), quanta(7)]);
    world.insert(12, Probe::Locked);
    let mut found = TurfSet::new();
    let outcome =
        flood_fill_equalize_turfs(10, turf(0, EAST), quanta(30), &world, 100, 100, &mut found);
    assert!(outcome.zone.is_none());
    assert!(!outcome.depressurize);
    assert!(found.contains(12));
}

#[test]
fn space_opens_the_zone() {
    let mut world = row(&[quanta(30), quanta(5), quanta(0)]);
    change(&mut world, 12, |reading| reading.immutable = true);
    let mut found = TurfSet::new();
    let outcome =
        flood_fill_equalize_turfs(10, turf(0, EAST), quanta(30), &world, 100, 100, &mut found);
    assert!(outcome.zone.is_none());
    assert!(outcome.depressurize);
}

#[test]
fn space_after_a_locked_turf_is_left_alone() {
    let mut world = row(&[quanta(0), quanta(30), quanta(5)]);
    change(&mut world, 10, |reading| reading.immutable = true);
    world.insert(12, Probe::Locked);
    let mut found = TurfSet::new();
    let outcome =
        flood_fill_equalize_turfs(11, turf(1, EAST | WEST), quanta(30), &world, 100, 100, &mut found);
    assert!(outcome.zone.is_none());
    assert!(!outcome.depressurize);
}

#[test]
fn walls_bound_the_zone() {
    let mut world = row(&[quanta(30), quanta(5), quanta(7)]);
    change(&mut world, 11, |reading| reading.mixture.simulated = false);
    let mut found = TurfSet::new();
    let outcome =
        flood_fill_equalize_turfs(10, turf(0, EAST), quanta(30), &world, 100, 100, &mut found);
    let zone = outcome.zone.unwrap();
    assert_eq!(ids(&zone.turfs), vec![10]);
    assert!(found.contains(11));
    assert!(!found.contains(12));
}

#[test]
fn turfs_found_before_are_not_found_again() {
    let world = row(&[quanta(30), quanta(5), quanta(7)]);
    let mut found = TurfSet::new();
    found.insert(11);
    let outcome =
        flood_fill_equalize_turfs(10, turf(0, EAST), quanta(30), &world, 100, 100, &mut found);
    assert_eq!(ids(&outcome.zone.unwrap().turfs), vec![10]);
}

#[test]
fn gas_has_to_move_where_neighbours_differ() {
    let base = || reading(turf(0, EAST), quanta(30), vec![quanta(29), quanta(25)]);
    assert!(is_unsettled(&base(), quanta(5)));
    assert!(!is_unsettled(&base(), quanta(6)));
    let mut thin = base();
    thin.moles = quanta(9);
    assert!(!is_unsettled(&thin, quanta(5)));
    thin.moles = quanta(10);
    assert!(is_unsettled(&thin, quanta(5)));
    let mut still = base();
    still.mixture.simulated = false;
    assert!(!is_unsettled(&still, quanta(5)));
    let mut shut = base();
    shut.mixture.adjacency = 0;
    assert!(!is_unsettled(&shut, quanta(5)));
    let mut lonely = base();
    lonely.adjacent_moles = vec![];
    assert!(!is_unsettled(&lonely, quanta(5)));
}

#[test]
fn zones_are_found_in_order_and_once() {
    let mut world = row(&[quanta(30), quanta(0), quanta(12)]);
    world.insert(
        50,
        Probe::Turf(reading(turf(7, EAST), quanta(40), vec![quanta(10)])),
    );
    world.insert(
        51,
        Probe::Turf(reading(turf(8, WEST), quanta(10), vec![quanta(40)])),
    );
    let plan = find_zones(100, 100, &set(&[51, 12, 10, 99]), &world, quanta(1));
    assert_eq!(plan.vents, vec![]);
    assert_eq!(plan.zones.len(), 2);
    assert_eq!(ids(&plan.zones[0].turfs), vec![10, 11, 12]);
    assert_eq!(ids(&plan.zones[1].turfs), vec![51, 50]);
    assert_eq!(plan.zones[1].total_moles, quanta(50));
}

#[test]
fn zones_open_to_space_are_vented() {
    let mut world = row(&[quanta(30), quanta(5), quanta(0)]);
    change(&mut world, 12, |reading| reading.immutable = true);
    let plan = find_zones(100, 100, &set(&[10, 11]), &world, quanta(1));
    assert_eq!(plan.vents, vec![10]);
    assert_eq!(plan.zones.len(), 0);
}

#[test]
fn locked_seeds_are_passed_over() {
    let mut world = row(&[quanta(30), quanta(5)]);
    world.insert(10, Probe::Locked);
    let plan = find_zones(100, 100, &set(&[10]), &world, quanta(1));
    assert_eq!(plan.zones.len(), 0);
    assert_eq!(plan.vents, vec![]);
}

#[test]
fn a_small_zone_is_levelled() {
    let world = row(&[quanta(30), quanta(0), quanta(0)]);
    let plan = find_zones(100, 100, &set(&[10]), &world, quanta(1));
    let books = equalize_zone(&plan.zones[0], &world, &HashMap::new(), 100, 100, 2000);
    assert_eq!(books.turfs_processed, 3);
    assert_eq!(books.firelocks, vec![]);
    assert_eq!(transfers(&books.info, 10), [0, 0, 20, 0, 0, 0, 0]);
    assert_eq!(transfers(&books.info, 11), [0, 0, 10, -20, 0, 0, 0]);
    assert_eq!(transfers(&books.info, 12), [0, 0, 0, -10, 0, 0, 0]);
}

#[test]
fn a_larger_zone_has_a_quick_round() {
    let amounts: Vec<Quanta> =
        [90, 70, 50, 30, 100, 10, 10, 20, 10, 10].iter().map(|n| quanta(*n)).collect();
    let world = row(&amounts);
    let plan = find_zones(100, 100, &set(&[10]), &world, quanta(1));
    let books = equalize_zone(&plan.zones[0], &world, &HashMap::new(), 100, 100, 2000);
    for (k, moles) in amounts.iter().enumerate() {
        let info = books.info.get(10 + k as u32).unwrap();
        let sum: i64 = info.transfer_dirs.iter().map(|a| a.n).sum();
        assert!(k >= 4 || info.fast_done);
        assert_eq!(info.mole_delta.n, 0);
        assert_eq!(moles.n - sum, 40);
        if k + 1 < amounts.len() {
            let next = books.info.get(11 + k as u32).unwrap();
            assert_eq!(info.transfer_dirs[2].n, -next.transfer_dirs[3].n);
        }
    }
}

#[test]
fn a_remainder_stays_on_one_side() {
    let amounts: Vec<Quanta> = [31, 0, 0, 12, 0, 6].iter().map(|n| quanta(*n)).collect();
    let world = row(&amounts);
    let plan = find_zones(100, 100, &set(&[10]), &world, quanta(1));
    let books = equalize_zone(&plan.zones[0], &world, &HashMap::new(), 100, 100, 2000);
    let mut left = 0;
    for (k, moles) in amounts.iter().enumerate() {
        let info = books.info.get(10 + k as u32).unwrap();
        let sum: i64 = info.transfer_dirs.iter().map(|a| a.n).sum();
        assert!(info.mole_delta.n >= 0);
        assert_eq!(moles.n - sum, 8 + info.mole_delta.n);
        left += info.mole_delta.n;
    }
    assert_eq!(left, 1);
}

#[test]
fn planet_turfs_count_but_are_not_levelled() {
    let mut world = row(&[quanta(30), quanta(10), quanta(500)]);
    change(&mut world, 12, |reading| reading.mixture.planetary_atmos = Some(4));
    let plan = find_zones(100, 100, &set(&[10]), &world, quanta(1));
    let mut planets = HashMap::new();
    planets.insert(4, quanta(500));
    let books = equalize_zone(&plan.zones[0], &world, &planets, 100, 100, 2000);
    assert_eq!(books.turfs_processed, 3);
    // two turfs less one planet turf share forty
    assert_eq!(books.info.get(10).unwrap().mole_delta.n, -10);
    assert_eq!(books.info.get(11).unwrap().mole_delta.n, -30);
    assert_eq!(transfers(&books.info, 12), [0; 7]);
    assert_eq!(books.firelocks, vec![]);
}

#[test]
fn turfs_are_counted_over_all_zones() {
    let world = row(&[quanta(30), quanta(0), quanta(0)]);
    let plan = find_zones(100, 100, &set(&[10]), &world, quanta(1));
    let zone = &plan.zones[0];
    let all: Vec<ZoneBooks<Quanta>> = (0..2)
        .map(|_| equalize_zone(zone, &world, &HashMap::new(), 100, 100, 2000))
        .collect();
    assert_eq!(count_processed(&all), 6);
    assert_eq!(count_processed::<Quanta>(&vec![]), 0);
}

#[test]
fn floating_point_moles_are_levelled() {
    let world = row(&[Moles(100.0), Moles(0.0), Moles(50.0), Moles(50.0)]);
    let plan = find_zones(100, 100, &set(&[10]), &world, Moles(0.1));
    assert_eq!(plan.zones[0].total_moles, 200.0);
    let books = equalize_zone(&plan.zones[0], &world, &HashMap::new(), 100, 100, 2000);
    let east = books.info.get(10).unwrap().transfer_dirs[2];
    let west = books.info.get(11).unwrap().transfer_dirs[3];
    assert_eq!(east, Moles(50.0));
    assert_eq!(west, Moles(-50.0));
    assert_eq!(books.info.get(12).unwrap().transfer_dirs, [Moles(0.0); 7]);
}

#[test]
fn rounded_flows_are_booked_alike_on_both_sides() {
    let world = row(&[Moles(0.7), Moles(0.1), Moles(33.3), Moles(1e-3), Moles(7.77)]);
    let plan = find_zones(100, 100, &set(&[12]), &world, Moles(0.1));
    let books = equalize_zone(&plan.zones[0], &world, &HashMap::new(), 100, 100, 2000);
    let mut moved = 0;
    for i in 10..14 {
        let east = books.info.get(i).unwrap().transfer_dirs[2];
        let west = books.info.get(i + 1).unwrap().transfer_dirs[3];
        assert_eq!(east, west.negate());
        if !east.same(Moles::zero()) {
            moved += 1;
        }
    }
    assert!(moved > 0);
}

#[test]
fn a_zone_ends_up_at_the_average() {
    let amounts: Vec<Quanta> =
        [90, 70, 50, 30, 100, 10, 10, 20, 10, 10].iter().map(|n| quanta(*n)).collect();
    let world = row(&amounts);
    let plan = find_zones(100, 100, &set(&[10]), &world, quanta(1));
    let zone = &plan.zones[0].turfs;
    let mut books = equalize_zone(&plan.zones[0], &world, &HashMap::new(), 100, 100, 2000);
    let mut air: Vec<i64> = amounts.iter().map(|a| a.n).collect();
    // the last turf first: every other one has to wait for gas
    for i in ids(zone).into_iter().rev() {
        let mut work: Finalizer<Quanta> = Finalizer::finalize_eq((i, zone.get(i).unwrap()));
        loop {
            match work.step(zone, 100, 100, &mut books.info) {
                Effect::Finished => break,
                Effect::ReadMoles { mix } => work.tell_moles(quanta(air[mix]), zone, 100, 100),
                Effect::Share { from, to, amount } => {
                    assert!(amount.n <= air[from]);
                    air[from] -= amount.n;
                    air[to] += amount.n;
                }
                Effect::Nothing | Effect::Consider { .. } => {}
                _ => panic!("no planet is near"),
            }
        }
    }
    assert_eq!(air, vec![40; 10]);
}

#[test]
fn gas_is_booked_to_flow_only_where_it_can() {
    // a ring of four turfs, open all around but between turfs 10 and 11
    let mut world = HashMap::new();
    for (i, mix, adjacency, moles) in
        [(10, 0, NORTH, 80), (11, 1, NORTH, 0), (110, 2, SOUTH | EAST, 0), (111, 3, SOUTH | WEST, 0)]
    {
        world.insert(i, Probe::Turf(reading(turf(mix, adjacency), quanta(moles), vec![quanta(0)])));
    }
    let plan = find_zones(100, 100, &set(&[10]), &world, quanta(1));
    let books = equalize_zone(&plan.zones[0], &world, &HashMap::new(), 100, 100, 2000);
    assert_eq!(transfers(&books.info, 10), [60, 0, 0, 0, 0, 0, 0]);
    assert_eq!(transfers(&books.info, 110), [0, -60, 40, 0, 0, 0, 0]);
    assert_eq!(transfers(&books.info, 111), [0, 20, 0, -40, 0, 0, 0]);
    assert_eq!(transfers(&books.info, 11), [-20, 0, 0, 0, 0, 0, 0]);
}
