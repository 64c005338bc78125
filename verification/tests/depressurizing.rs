use katmos::depressurize::{find_space, is_listed, spread_from_space, SpaceCall, Venting};
use katmos::flood::TurfReading;
use katmos::quanta::Quanta;
use katmos::tables::{TurfMixture, TurfOrder};
use std::collections::HashMap;

const EAST: u8 = 4;
const WEST: u8 = 8;

fn reading(adjacency: u8, immutable: bool, planetary_atmos: Option<u32>) -> TurfReading<Quanta> {
    TurfReading {
        mixture: TurfMixture { mix: 0, adjacency, simulated: true, planetary_atmos },
        immutable,
        moles: Quanta { n: 0 },
        adjacent_moles: Vec::new(),
    }
}

/// Two rooms, and space to the east of them.
fn station() -> HashMap<u32, TurfReading<Quanta>> {
    let mut world = HashMap::new();
    world.insert(1, reading(EAST, false, None));
    world.insert(2, reading(EAST | WEST, false, None));
    world.insert(3, reading(WEST, true, None));
    world
}

fn ids(order: &TurfOrder) -> Vec<u32> {
    (0..order.len()).map(|k| order.get_index(k).unwrap()).collect()
}

#[test]
fn space_is_found_through_the_rooms() {
    let search = find_space(1, &station(), 100, 100, 2000);
    assert!(!search.given_up);
    assert_eq!(ids(&search.space_turfs), vec![3]);
    assert_eq!(
        search.calls,
        vec![
            SpaceCall::Firelocks(1, 2),
            SpaceCall::Firelocks(2, 3),
            SpaceCall::OwnTarget(3)
        ]
    );
}

#[test]
fn the_search_ends_at_the_limit() {
    let search = find_space(1, &station(), 100, 100, 1);
    assert_eq!(ids(&search.space_turfs), Vec::<u32>::new());
    assert_eq!(search.calls, vec![SpaceCall::Firelocks(1, 2)]);
    assert!(!search.given_up);
}

#[test]
fn a_planet_goes_before_space() {
    let mut world = station();
    world.insert(2, reading(EAST | WEST, false, Some(5)));
    world.insert(1, reading(EAST | WEST, false, None));
    world.insert(0, reading(EAST, false, None));
    let search = find_space(1, &world, 100, 100, 2000);
    assert!(search.given_up);
    assert_eq!(
        search.calls,
        vec![SpaceCall::Firelocks(1, 2), SpaceCall::Firelocks(1, 0)]
    );
}

#[test]
fn a_planet_goes_before_space_even_if_it_comes_last() {
    let mut world = HashMap::new();
    world.insert(2, reading(EAST | WEST, false, None));
    world.insert(3, reading(WEST, true, None));
    world.insert(1, reading(EAST, false, Some(5)));
    let search = find_space(2, &world, 255, 255, 10);
    assert_eq!(ids(&search.space_turfs), vec![3]);
    assert!(search.given_up);
    let alone = find_space(1, &world, 255, 255, 10);
    assert_eq!(alone.space_turfs.len(), 0);
    assert!(alone.given_up);
}

#[test]
fn a_turf_that_is_not_there_leads_nowhere() {
    let search = find_space(77, &station(), 100, 100, 2000);
    assert_eq!(search.space_turfs.len(), 0);
    assert_eq!(search.calls, vec![]);
    assert!(!search.given_up);
}

#[test]
fn air_is_let_out_towards_space() {
    let world = station();
    let search = find_space(1, &world, 100, 100, 2000);
    let paths = spread_from_space(&search.space_turfs, &world, 100, 100, 2000);
    assert_eq!(paths.order.len(), 3);
    assert_eq!(paths.order.get_index(0), Some((3, WEST)));
    assert_eq!(paths.order.get_index(1), Some((2, EAST | WEST)));
    assert_eq!(paths.order.get_index(2), Some((1, EAST)));
    assert_eq!(paths.targets, vec![(3, 2), (2, 1)]);

    let mut venting = Venting::new(paths.order, paths.info);
    let step = venting.next_vent(100, 100).unwrap();
    assert_eq!((step.turf, step.target), (1, 2));
    let listed = vec![Some(2), None];
    let first = venting.vent(&listed, Some(Quanta { n: 50 }), 100, 100);
    assert_eq!(first.turf, 1);
    assert!(first.list);
    assert_eq!(first.target, 2);
    assert_eq!(first.sum.n, 50);
    assert_eq!(first.pressure_difference.n, 50);
    assert_eq!(first.pressure_direction, 4);
    assert!(first.target_difference.is_none());

    let step = venting.next_vent(100, 100).unwrap();
    assert_eq!((step.turf, step.target), (2, 3));
    let second = venting.vent(&listed, Some(Quanta { n: 1 }), 100, 100);
    assert_eq!(second.turf, 2);
    assert!(!second.list);
    assert_eq!(second.target, 3);
    assert_eq!(second.sum.n, 1);
    assert_eq!(second.pressure_difference.n, 51);
    assert_eq!(second.pressure_direction, 4);
    assert_eq!(second.target_difference, Some(Quanta { n: 51 }));

    assert!(venting.next_vent(100, 100).is_none());
    assert!(venting.next_vent(100, 100).is_none());
}

#[test]
fn nothing_ahead_adds_nothing() {
    let world = station();
    let search = find_space(1, &world, 100, 100, 2000);
    let paths = spread_from_space(&search.space_turfs, &world, 100, 100, 2000);
    let mut venting = Venting::new(paths.order, paths.info);
    venting.next_vent(100, 100);
    let vented = venting.vent(&vec![], None, 100, 100);
    assert_eq!(vented.sum.n, 0);
    assert_eq!(vented.pressure_difference.n, 0);
    assert!(vented.target_difference.is_none());
}

#[test]
fn pressure_adds_up_where_ways_meet() {
    // space at 3, and beyond turf 2 one turf to the west and one to the north
    let mut world = station();
    world.insert(2, reading(1 | EAST | WEST, false, None));
    world.insert(102, reading(2, false, None));
    let search = find_space(1, &world, 100, 100, 2000);
    let paths = spread_from_space(&search.space_turfs, &world, 100, 100, 2000);
    assert_eq!(paths.order.len(), 4);
    let mut venting = Venting::new(paths.order, paths.info);
    let mut pressures = Vec::new();
    let mut counted = 0;
    while let Some(step) = venting.next_vent(100, 100) {
        counted += 10;
        let vented = venting.vent(&vec![], Some(Quanta { n: counted }), 100, 100);
        pressures.push((step.turf, vented.pressure_difference.n));
    }
    assert_eq!(pressures, vec![(1, 10), (102, 20), (2, 60)]);
}

#[test]
fn the_way_inwards_ends_at_the_limit() {
    let world = station();
    let search = find_space(1, &world, 100, 100, 2000);
    let paths = spread_from_space(&search.space_turfs, &world, 100, 100, 1);
    assert_eq!(paths.order.len(), 2);
    assert_eq!(paths.targets, vec![(3, 2)]);
    let paths = spread_from_space(&search.space_turfs, &world, 100, 100, 0);
    assert_eq!(paths.order.len(), 1);
}

#[test]
fn space_that_is_gone_is_left_out() {
    let mut world = station();
    let search = find_space(1, &world, 100, 100, 2000);
    world.remove(&3);
    let paths = spread_from_space(&search.space_turfs, &world, 100, 100, 2000);
    assert_eq!(paths.order.len(), 0);
}

#[test]
fn lists_may_have_gaps() {
    let list = vec![Some(4), None, Some(9)];
    assert!(is_listed(&list, 9));
    assert!(!is_listed(&list, 5));
    assert!(!is_listed(&vec![], 5));
}

#[test]
fn air_goes_to_the_nearest_space() {
    // three rooms between two turfs of space
    let mut world = HashMap::new();
    world.insert(1, reading(EAST, true, None));
    for i in 2..5 {
        world.insert(i, reading(EAST | WEST, false, None));
    }
    world.insert(5, reading(WEST, true, None));
    let search = find_space(3, &world, 100, 100, 2000);
    assert_eq!(ids(&search.space_turfs), vec![5, 1]);
    let paths = spread_from_space(&search.space_turfs, &world, 100, 100, 2000);
    assert_eq!(paths.targets, vec![(5, 4), (1, 2), (4, 3)]);
    let mut targets: HashMap<u32, u32> = HashMap::new();
    for i in ids(&search.space_turfs) {
        targets.insert(i, i);
    }
    for (i, loc) in paths.targets {
        targets.insert(loc, targets[&i]);
    }
    assert_eq!((targets[&2], targets[&3], targets[&4]), (1, 5, 5));
}

#[test]
fn every_turf_vents_once_and_is_listed_once() {
    let world = station();
    let mut list = vec![Some(2), None];
    for _ in 0..2 {
        let search = find_space(1, &world, 100, 100, 2000);
        let paths = spread_from_space(&search.space_turfs, &world, 100, 100, 2000);
        let mut venting: Venting<Quanta> = Venting::new(paths.order, paths.info);
        let mut vented = Vec::new();
        while venting.next_vent(100, 100).is_some() {
            let one = venting.vent(&list, None, 100, 100);
            if one.list {
                list.push(Some(one.turf));
            }
            vented.push(one.turf);
        }
        assert_eq!(vented, vec![1, 2]);
        assert_eq!(list, vec![Some(2), None, Some(1)]);
    }
}

#[test]
fn firelocks_are_considered_once_for_every_turf_found() {
    // a ring of four turfs: the last one is found from one side only
    let mut world = HashMap::new();
    for (i, adjacency) in [(10, 1 | EAST), (11, 1 | WEST), (110, 2 | EAST), (111, 2 | WEST)] {
        world.insert(i, reading(adjacency, false, None));
    }
    let search = find_space(10, &world, 100, 100, 2000);
    assert_eq!(
        search.calls,
        vec![
            SpaceCall::Firelocks(10, 110),
            SpaceCall::Firelocks(10, 11),
            SpaceCall::Firelocks(110, 111)
        ]
    );
    assert_eq!(search.space_turfs.len(), 0);
}
