use katmos::info::MonstermosInfo;
use katmos::planet::process_planet_turfs;
use katmos::quanta::Quanta;
use katmos::tables::{InfoMap, TurfMixture, Zone};
use std::collections::HashMap;

fn turf(adjacency: u8, planetary_atmos: Option<u32>) -> TurfMixture {
    TurfMixture { mix: 0, adjacency, simulated: true, planetary_atmos }
}

fn books(delta: i64) -> MonstermosInfo<Quanta> {
    let mut books: MonstermosInfo<Quanta> = MonstermosInfo::default();
    books.mole_delta = Quanta { n: delta };
    books
}

fn planets() -> HashMap<u32, Quanta> {
    let mut planets = HashMap::new();
    planets.insert(9, Quanta { n: 100 });
    planets
}

fn transfers(info: &InfoMap<Quanta>, i: u32) -> [i64; 7] {
    info.get(i).unwrap().transfer_dirs.map(|a| a.n)
}

#[test]
fn a_surplus_goes_to_the_planet() {
    let mut zone = Zone::new();
    zone.insert(1, turf(4, Some(9)));
    zone.insert(2, turf(8, None));
    let mut planet_turfs = Zone::new();
    planet_turfs.insert(1, turf(4, Some(9)));
    let mut info = InfoMap::new();
    info.insert(1, books(5));
    info.insert(2, books(7));
    let firelocks = process_planet_turfs(
        &planet_turfs,
        &zone,
        Quanta { n: 90 },
        &planets(),
        100,
        100,
        2,
        &mut info,
    );
    assert_eq!(firelocks, vec![(1, 2)]);
    assert_eq!(transfers(&info, 2), [0, 0, 0, -3, 0, 0, 0]);
    assert_eq!(transfers(&info, 1), [0, 0, 3, 0, 0, 0, -8]);
    assert_eq!(info.get(1).unwrap().mole_delta.n, 10);
    assert_eq!(info.get(2).unwrap().mole_delta.n, 10);
}

#[test]
fn firelocks_are_considered_below_the_limit() {
    let mut zone = Zone::new();
    zone.insert(1, turf(4, Some(9)));
    zone.insert(2, turf(8, None));
    let mut planet_turfs = Zone::new();
    planet_turfs.insert(1, turf(4, Some(9)));
    let mut info = InfoMap::new();
    info.insert(1, books(0));
    info.insert(2, books(0));
    let firelocks = process_planet_turfs(
        &planet_turfs,
        &zone,
        Quanta { n: 90 },
        &planets(),
        100,
        100,
        100,
        &mut info,
    );
    assert_eq!(firelocks, vec![(1, 2), (2, 1)]);
}

#[test]
fn planet_turfs_outside_the_zone_get_blank_books() {
    let mut zone = Zone::new();
    zone.insert(2, turf(8, None));
    let mut planet_turfs = Zone::new();
    planet_turfs.insert(1, turf(4, Some(9)));
    let mut info = InfoMap::new();
    info.insert(2, books(7));
    let firelocks = process_planet_turfs(
        &planet_turfs,
        &zone,
        Quanta { n: 90 },
        &planets(),
        100,
        100,
        100,
        &mut info,
    );
    assert_eq!(firelocks, vec![]);
    assert_eq!(transfers(&info, 1), [0; 7]);
    assert_eq!(info.get(1).unwrap().mole_delta.n, 0);
    assert_eq!(transfers(&info, 2), [0; 7]);
    assert_eq!(info.get(2).unwrap().mole_delta.n, 7);
}

#[test]
fn an_unknown_planet_takes_nothing() {
    let mut zone = Zone::new();
    zone.insert(1, turf(4, Some(3)));
    let mut info = InfoMap::new();
    info.insert(1, books(7));
    for planet in [Some(3), None] {
        let mut planet_turfs = Zone::new();
        planet_turfs.insert(1, turf(4, planet));
        let firelocks = process_planet_turfs(
            &planet_turfs,
            &zone,
            Quanta { n: 90 },
            &planets(),
            100,
            100,
            100,
            &mut info,
        );
        assert_eq!(firelocks, vec![]);
        assert_eq!(info.get(1).unwrap().mole_delta.n, 7);
        assert_eq!(transfers(&info, 1), [0; 7]);
    }
}

#[test]
fn every_turf_sends_its_surplus_to_the_nearest_turf_of_the_planet() {
    let mut zone = Zone::new();
    zone.insert(1, turf(4, Some(9)));
    zone.insert(2, turf(4 | 8, None));
    zone.insert(3, turf(4 | 8, None));
    zone.insert(4, turf(4 | 8, None));
    zone.insert(5, turf(8, Some(9)));
    let mut planet_turfs = Zone::new();
    planet_turfs.insert(1, turf(4, Some(9)));
    planet_turfs.insert(5, turf(8, Some(9)));
    let mut info = InfoMap::new();
    for (i, delta) in [(1, 10), (2, 13), (3, 12), (4, 14), (5, 10)] {
        info.insert(i, books(delta));
    }
    process_planet_turfs(
        &planet_turfs,
        &zone,
        Quanta { n: 90 },
        &planets(),
        100,
        100,
        0,
        &mut info,
    );
    assert_eq!(transfers(&info, 3), [0, 0, 0, 2, 0, 0, 0]);
    assert_eq!(transfers(&info, 2), [0, 0, -2, 5, 0, 0, 0]);
    assert_eq!(transfers(&info, 1), [0, 0, -5, 0, 0, 0, 5]);
    assert_eq!(transfers(&info, 4), [0, 0, 4, 0, 0, 0, 0]);
    assert_eq!(transfers(&info, 5), [0, 0, 0, -4, 0, 0, 4]);
    for i in 1..6 {
        assert_eq!(info.get(i).unwrap().mole_delta.n, 10);
    }
}
