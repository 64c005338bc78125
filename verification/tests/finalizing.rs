use katmos::finalize::{finalize_eq_neighbors, Effect, Finalizer, Task};
use katmos::info::MonstermosInfo;
use katmos::quanta::Quanta;
use katmos::tables::{InfoMap, TurfMixture, Zone};
use std::collections::HashMap;

const NORTH: u8 = 1;
const SOUTH: u8 = 2;
const EAST: u8 = 4;
const WEST: u8 = 8;

fn turf(mix: usize, adjacency: u8) -> TurfMixture {
    TurfMixture { mix, adjacency, simulated: true, planetary_atmos: None }
}

fn books(transfers: [i64; 7]) -> MonstermosInfo<Quanta> {
    let mut books: MonstermosInfo<Quanta> = MonstermosInfo::default();
    books.transfer_dirs = transfers.map(|n| Quanta { n });
    books
}

fn row() -> (Zone, InfoMap<Quanta>) {
    let mut zone = Zone::new();
    zone.insert(10, turf(0, EAST));
    zone.insert(11, turf(1, EAST | WEST));
    zone.insert(12, turf(2, WEST));
    let mut info = InfoMap::new();
    info.insert(10, books([0, 0, 20, 0, 0, 0, 0]));
    info.insert(11, books([0, 0, 10, -20, 0, 0, 0]));
    info.insert(12, books([0, 0, 0, -10, 0, 0, 0]));
    (zone, info)
}

/// Does what the work on turf `i` asks for, and writes it down.
fn run(
    i: u32,
    zone: &Zone,
    info: &mut InfoMap<Quanta>,
    air: &mut HashMap<usize, i64>,
    planets: &HashMap<u32, i64>,
) -> Vec<String> {
    let mut log = Vec::new();
    let mut work: Finalizer<Quanta> = Finalizer::finalize_eq((i, zone.get(i).unwrap()));
    let mut effect = work.step(zone, 100, 100, info);
    loop {
        match effect {
            Effect::Finished => return log,
            Effect::Nothing => {}
            Effect::ReadMoles { mix } => {
                work.tell_moles(Quanta { n: air[&mix] }, zone, 100, 100);
            }
            Effect::ReadPlanet { planet } => {
                effect = work.tell_planet(planets.get(&planet).map(|n| Quanta { n: *n }));
                continue;
            }
            Effect::Add { mix, amount } => {
                log.push(format!("add {} {}", mix, amount.n));
                *air.get_mut(&mix).unwrap() += amount.n;
            }
            Effect::Merge { mix, planet, amount, total } => {
                log.push(format!("merge {} {} {} {}", mix, planet, amount.n, total.n));
                *air.get_mut(&mix).unwrap() += amount.n;
            }
            Effect::Share { from, to, amount } => {
                log.push(format!("share {} {} {}", from, to, amount.n));
                *air.get_mut(&from).unwrap() -= amount.n;
                *air.get_mut(&to).unwrap() += amount.n;
            }
            Effect::Consider { turf, other, amount } => {
                log.push(format!("consider {} {} {}", turf, other, amount.n));
            }
        }
        effect = work.step(zone, 100, 100, info);
    }
}

fn air(amounts: [i64; 3]) -> HashMap<usize, i64> {
    amounts.iter().copied().enumerate().collect()
}

#[test]
fn gas_flows_from_turf_to_turf() {
    let (zone, mut info) = row();
    let mut air = air([30, 0, 0]);
    let planets = HashMap::new();
    assert_eq!(
        run(10, &zone, &mut info, &mut air, &planets),
        vec!["share 0 1 20", "consider 10 11 20"]
    );
    assert_eq!(
        run(11, &zone, &mut info, &mut air, &planets),
        vec!["share 1 2 10", "consider 11 12 10"]
    );
    assert_eq!(run(12, &zone, &mut info, &mut air, &planets), Vec::<String>::new());
    assert_eq!(air[&0], 10);
    assert_eq!(air[&1], 10);
    assert_eq!(air[&2], 10);
}

#[test]
fn a_turf_waits_for_what_it_passes_on() {
    let (zone, mut info) = row();
    let mut air = air([30, 0, 0]);
    assert_eq!(
        run(11, &zone, &mut info, &mut air, &HashMap::new()),
        vec!["share 0 1 20", "consider 10 11 20", "share 1 2 10", "consider 11 12 10"]
    );
    for i in 10..13 {
        assert_eq!(info.get(i).unwrap().transfer_dirs, [Quanta { n: 0 }; 7]);
    }
}

#[test]
fn enough_gas_need_not_wait() {
    let (zone, mut info) = row();
    let mut air = air([30, 10, 0]);
    assert_eq!(
        run(11, &zone, &mut info, &mut air, &HashMap::new()),
        vec!["share 1 2 10", "consider 11 12 10"]
    );
    assert_eq!(info.get(10).unwrap().transfer_dirs[2], Quanta { n: 20 });
}

#[test]
fn turfs_that_wait_for_each_other_come_to_an_end() {
    let mut zone = Zone::new();
    zone.insert(10, turf(0, EAST));
    zone.insert(11, turf(1, WEST));
    let mut info = InfoMap::new();
    info.insert(10, books([0, 0, -5, 0, 0, 0, 3]));
    info.insert(11, books([0, 0, 0, -5, 0, 0, 3]));
    let mut air = air([0, 0, 0]);
    assert_eq!(
        run(10, &zone, &mut info, &mut air, &HashMap::new()),
        vec!["add 1 -3", "add 0 -3"]
    );
}

#[test]
fn a_shared_air_is_not_moved() {
    let mut zone = Zone::new();
    zone.insert(10, turf(0, EAST));
    zone.insert(11, turf(0, WEST));
    let mut info = InfoMap::new();
    info.insert(10, books([0, 0, 5, 0, 0, 0, 0]));
    info.insert(11, books([0, 0, 0, -5, 0, 0, 0]));
    let mut air = air([9, 0, 0]);
    assert_eq!(
        run(10, &zone, &mut info, &mut air, &HashMap::new()),
        vec!["consider 10 11 5"]
    );
    assert_eq!(info.get(11).unwrap().transfer_dirs[3], Quanta { n: 0 });
}

#[test]
fn a_planet_takes_and_gives() {
    let mut zone = Zone::new();
    zone.insert(10, TurfMixture { planetary_atmos: Some(3), ..turf(0, 0) });
    zone.insert(11, turf(1, 0));
    let mut planets = HashMap::new();
    planets.insert(3, 50);
    let mut air = air([9, 9, 0]);

    let mut info = InfoMap::new();
    info.insert(10, books([0, 0, 0, 0, 0, 0, 4]));
    assert_eq!(run(10, &zone, &mut info, &mut air, &planets), vec!["add 0 -4"]);

    let mut info = InfoMap::new();
    info.insert(10, books([0, 0, 0, 0, 0, 0, -4]));
    info.insert(11, books([0, 0, 0, 0, 0, 0, -4]));
    assert_eq!(run(10, &zone, &mut info, &mut air, &planets), vec!["merge 0 3 4 50"]);
    assert_eq!(run(11, &zone, &mut info, &mut air, &planets), Vec::<String>::new());

    for empty in [Some(0), None] {
        let mut planets = HashMap::new();
        if let Some(n) = empty {
            planets.insert(3, n);
        }
        let mut info = InfoMap::new();
        info.insert(10, books([0, 0, 0, 0, 0, 0, -4]));
        assert_eq!(run(10, &zone, &mut info, &mut air, &planets), Vec::<String>::new());
    }
}

#[test]
fn a_turf_without_books_does_nothing() {
    let (zone, _) = row();
    let mut info = InfoMap::new();
    let mut air = air([30, 0, 0]);
    assert_eq!(
        run(11, &zone, &mut info, &mut air, &HashMap::new()),
        Vec::<String>::new()
    );
}

#[test]
fn a_turf_is_worked_off_once() {
    let (zone, mut info) = row();
    let mut air = air([30, 0, 0]);
    let planets = HashMap::new();
    assert_eq!(run(11, &zone, &mut info, &mut air, &planets).len(), 4);
    assert_eq!(run(11, &zone, &mut info, &mut air, &planets), Vec::<String>::new());
    assert_eq!(run(10, &zone, &mut info, &mut air, &planets), Vec::<String>::new());
    assert_eq!((air[&0], air[&1], air[&2]), (10, 10, 10));
}

#[test]
fn neighbours_come_in_ascending_direction() {
    let mut zone = Zone::new();
    zone.insert(111, turf(1, 1));
    zone.insert(211, turf(0, 2));
    zone.insert(112, turf(2, WEST));
    zone.insert(111, turf(1, 1 | EAST));
    let mut info = InfoMap::new();
    info.insert(111, books([-3, 0, -4, 0, 0, 0, 7]));
    info.insert(211, books([0, 3, 0, 0, 0, 0, 0]));
    info.insert(112, books([0, 0, 0, 4, 0, 0, 0]));
    let mut air = air([5, 0, 5]);
    assert_eq!(
        run(111, &zone, &mut info, &mut air, &HashMap::new()),
        vec![
            "share 0 1 3",
            "consider 211 111 3",
            "share 2 1 4",
            "consider 112 111 4",
            "add 1 -7"
        ]
    );
}

#[test]
fn visits_go_to_the_neighbours_of_the_zone_that_gas_comes_from() {
    let (zone, _) = row();
    let mut agenda: Vec<Task<Quanta>> = Vec::new();
    finalize_eq_neighbors(&mut agenda, &zone, 100, 100, 11, NORTH | EAST | WEST);
    let turfs: Vec<u32> = agenda
        .iter()
        .map(|task| match task {
            Task::Visit { turf } => turf.0,
            _ => panic!("not a visit"),
        })
        .collect();
    // what comes first stands last, and there is no turf to the north
    assert_eq!(turfs, vec![10, 12]);
    finalize_eq_neighbors(&mut agenda, &zone, 100, 100, 11, 0);
    assert_eq!(agenda.len(), 2);
}

#[test]
fn everything_booked_moves_once_in_any_order() {
    // from turf 10 by two ways to turf 111
    let mut zone = Zone::new();
    zone.insert(10, turf(0, NORTH | EAST));
    zone.insert(11, turf(1, NORTH | WEST));
    zone.insert(110, turf(2, SOUTH | EAST));
    zone.insert(111, turf(3, SOUTH | WEST));
    for order in [[10, 11, 110, 111], [111, 110, 11, 10], [11, 111, 10, 110], [110, 10, 111, 11]] {
        let mut info = InfoMap::new();
        info.insert(10, books([7, 0, 5, 0, 0, 0, 0]));
        info.insert(11, books([2, 0, 0, -5, 0, 0, 0]));
        info.insert(110, books([0, -7, 3, 0, 0, 0, 0]));
        info.insert(111, books([0, -2, 0, -3, 0, 0, 0]));
        let mut air: HashMap<usize, i64> = HashMap::new();
        for (mix, moles) in [(0, 15), (1, 0), (2, 1), (3, 2)] {
            air.insert(mix, moles);
        }
        let mut log = Vec::new();
        for i in order {
            log.extend(run(i, &zone, &mut info, &mut air, &HashMap::new()));
        }
        let mut shares: Vec<String> = log.into_iter().filter(|l| l.starts_with("share")).collect();
        shares.sort();
        assert_eq!(shares, vec!["share 0 1 5", "share 0 2 7", "share 1 3 2", "share 2 3 3"]);
        assert_eq!((air[&0], air[&1], air[&2], air[&3]), (3, 3, 5, 7));
    }
}
