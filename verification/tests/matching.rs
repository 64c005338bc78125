use katmos::fast::monstermos_fast_process;
use katmos::info::MonstermosInfo;
use katmos::quanta::Quanta;
use katmos::settle::{give_to_takers, take_from_givers};
use katmos::tables::{InfoMap, TurfMixture, Zone};

const EAST: u8 = 4;
const WEST: u8 = 8;

fn turf(adjacency: u8) -> TurfMixture {
    TurfMixture { mix: 0, adjacency, simulated: true, planetary_atmos: None }
}

/// A row of turfs from index 10 on, with the given surplus each.
fn row(deltas: &[i64]) -> (Zone, InfoMap<Quanta>) {
    let mut zone = Zone::new();
    let mut info = InfoMap::new();
    for (k, delta) in deltas.iter().enumerate() {
        let mut adjacency = 0;
        if k > 0 {
            adjacency |= WEST;
        }
        if k + 1 < deltas.len() {
            adjacency |= EAST;
        }
        zone.insert(10 + k as u32, turf(adjacency));
        let mut books: MonstermosInfo<Quanta> = MonstermosInfo::default();
        books.mole_delta = Quanta { n: *delta };
        info.insert(10 + k as u32, books);
    }
    (zone, info)
}

fn transfers(info: &InfoMap<Quanta>, i: u32) -> [i64; 7] {
    info.get(i).unwrap().transfer_dirs.map(|a| a.n)
}

fn delta(info: &InfoMap<Quanta>, i: u32) -> i64 {
    info.get(i).unwrap().mole_delta.n
}

fn holdings(info: &InfoMap<Quanta>, i: u32) -> i64 {
    delta(info, i) + transfers(info, i).iter().sum::<i64>()
}

#[test]
fn a_giver_fills_its_takers() {
    let (zone, mut info) = row(&[20, -10, -10]);
    let givers = vec![(10, zone.get(10).unwrap())];
    give_to_takers(&givers, &zone, 100, 100, &mut info);
    assert_eq!(transfers(&info, 10), [0, 0, 20, 0, 0, 0, 0]);
    assert_eq!(transfers(&info, 11), [0, 0, 10, -20, 0, 0, 0]);
    assert_eq!(transfers(&info, 12), [0, 0, 0, -10, 0, 0, 0]);
    for i in 10..13 {
        assert_eq!(delta(&info, i), 0);
        assert_eq!(info.get(i).unwrap().curr_transfer_amount.n, if i == 10 { -20 } else { 0 });
    }
    assert_eq!(holdings(&info, 10), 20);
    assert_eq!(holdings(&info, 11), -10);
    assert_eq!(holdings(&info, 12), -10);
}

#[test]
fn a_giver_gives_no_more_than_it_has() {
    let (zone, mut info) = row(&[7, -10, -10]);
    let givers = vec![(10, zone.get(10).unwrap())];
    give_to_takers(&givers, &zone, 100, 100, &mut info);
    assert_eq!(delta(&info, 10), 0);
    assert_eq!(delta(&info, 11), -3);
    assert_eq!(delta(&info, 12), -10);
    assert_eq!(transfers(&info, 10), [0, 0, 7, 0, 0, 0, 0]);
    assert_eq!(transfers(&info, 11), [0, 0, 0, -7, 0, 0, 0]);
    assert_eq!(transfers(&info, 12), [0; 7]);
}

#[test]
fn a_giver_passes_through_givers() {
    let (zone, mut info) = row(&[5, 3, -4]);
    let givers = vec![(10, zone.get(10).unwrap())];
    give_to_takers(&givers, &zone, 100, 100, &mut info);
    assert_eq!(delta(&info, 10), 1);
    assert_eq!(delta(&info, 11), 3);
    assert_eq!(delta(&info, 12), 0);
    assert_eq!(transfers(&info, 10), [0, 0, 4, 0, 0, 0, 0]);
    assert_eq!(transfers(&info, 11), [0, 0, 4, -4, 0, 0, 0]);
}

#[test]
fn a_taker_takes_what_it_needs() {
    let (zone, mut info) = row(&[-10, 4, 20]);
    let takers = vec![(10, zone.get(10).unwrap())];
    take_from_givers(&takers, &zone, 100, 100, &mut info);
    assert_eq!(delta(&info, 10), 0);
    assert_eq!(delta(&info, 11), 0);
    assert_eq!(delta(&info, 12), 14);
    assert_eq!(transfers(&info, 12), [0, 0, 0, 6, 0, 0, 0]);
    assert_eq!(transfers(&info, 11), [0, 0, -6, 10, 0, 0, 0]);
    assert_eq!(transfers(&info, 10), [0, 0, -10, 0, 0, 0, 0]);
    assert_eq!(holdings(&info, 10), -10);
    assert_eq!(holdings(&info, 11), 4);
    assert_eq!(holdings(&info, 12), 20);
}

#[test]
fn turfs_that_take_no_part_are_walls() {
    let (mut zone, mut info) = row(&[20, -10, -10]);
    let wall = TurfMixture { simulated: false, ..zone.get(11).unwrap() };
    zone.insert(11, wall);
    let givers = vec![(10, zone.get(10).unwrap())];
    give_to_takers(&givers, &zone, 100, 100, &mut info);
    assert_eq!(delta(&info, 10), 20);
    assert_eq!(delta(&info, 11), -10);
    assert_eq!(transfers(&info, 10), [0; 7]);
}

#[test]
fn turfs_without_books_are_passed_over() {
    let (zone, mut info) = row(&[20, -10]);
    let stray = vec![(99, turf(EAST)), (10, zone.get(10).unwrap())];
    give_to_takers(&stray, &zone, 100, 100, &mut info);
    assert!(info.get(99).is_none());
    assert_eq!(delta(&info, 10), 10);
}

#[test]
fn the_quick_round_shares_a_surplus() {
    let (zone, mut info) = row(&[0, 9, -2]);
    monstermos_fast_process(11, &zone.get(11).unwrap(), &zone, 100, 100, &mut info);
    assert_eq!(transfers(&info, 11), [0, 0, 4, 4, 0, 0, 0]);
    assert_eq!(transfers(&info, 10), [0, 0, -4, 0, 0, 0, 0]);
    assert_eq!(transfers(&info, 12), [0, 0, 0, -4, 0, 0, 0]);
    assert_eq!(delta(&info, 11), 1);
    assert_eq!(delta(&info, 10), 4);
    assert_eq!(delta(&info, 12), 2);
    assert!(info.get(11).unwrap().fast_done);
    assert!(!info.get(10).unwrap().fast_done);
    assert_eq!(holdings(&info, 10), 0);
    assert_eq!(holdings(&info, 11), 9);
    assert_eq!(holdings(&info, 12), -2);
}

#[test]
fn the_quick_round_goes_to_no_turf_twice() {
    let (zone, mut info) = row(&[0, 9, -2]);
    monstermos_fast_process(10, &zone.get(10).unwrap(), &zone, 100, 100, &mut info);
    monstermos_fast_process(12, &zone.get(12).unwrap(), &zone, 100, 100, &mut info);
    monstermos_fast_process(11, &zone.get(11).unwrap(), &zone, 100, 100, &mut info);
    assert_eq!(transfers(&info, 11), [0; 7]);
    assert_eq!(delta(&info, 11), 9);
    assert!(info.get(11).unwrap().fast_done);
}

#[test]
fn a_deficit_is_not_shared() {
    let (zone, mut info) = row(&[0, -9, -2]);
    monstermos_fast_process(11, &zone.get(11).unwrap(), &zone, 100, 100, &mut info);
    assert_eq!(delta(&info, 11), -9);
    assert_eq!(transfers(&info, 11), [0; 7]);
    assert!(info.get(11).unwrap().fast_done);
    monstermos_fast_process(55, &turf(EAST), &zone, 100, 100, &mut info);
    assert!(info.get(55).is_none());
}

#[test]
fn taking_mirrors_giving() {
    let deltas = [13, -4, 2, -20, 9];
    let negative: Vec<i64> = deltas.iter().map(|n| -n).collect();
    let (zone, mut taken) = row(&deltas);
    let (_, mut given) = row(&negative);
    let list = vec![(13, zone.get(13).unwrap()), (11, zone.get(11).unwrap())];
    take_from_givers(&list, &zone, 100, 100, &mut taken);
    give_to_takers(&list, &zone, 100, 100, &mut given);
    for i in 10..15 {
        assert_eq!(delta(&taken, i), -delta(&given, i));
        assert_eq!(transfers(&taken, i), transfers(&given, i).map(|n| -n));
    }
    assert_eq!((10..15).map(|i| delta(&taken, i)).sum::<i64>(), 0);
}

#[test]
fn either_method_levels() {
    let deltas = [13, -4, 2, -20, 9];
    let (zone, mut given) = row(&deltas);
    let (_, mut taken) = row(&deltas);
    let list = |ids: &[u32]| -> Vec<(u32, TurfMixture)> {
        ids.iter().map(|i| (*i, zone.get(*i).unwrap())).collect()
    };
    give_to_takers(&list(&[10, 12, 14]), &zone, 100, 100, &mut given);
    take_from_givers(&list(&[11, 13]), &zone, 100, 100, &mut taken);
    for i in 10..15 {
        assert_eq!(delta(&given, i), 0);
        assert_eq!(delta(&taken, i), 0);
        assert_eq!(transfers(&given, i)[6], 0);
    }
}

#[test]
fn nearer_turfs_are_matched_first() {
    let (zone, mut info) = row(&[-4, 9, -3, -5]);
    let givers = vec![(11, zone.get(11).unwrap())];
    give_to_takers(&givers, &zone, 100, 100, &mut info);
    assert_eq!((10..14).map(|i| delta(&info, i)).collect::<Vec<i64>>(), vec![0, 0, 0, -3]);

    let (zone, mut info) = row(&[-4, 5, -3, -5]);
    give_to_takers(&givers, &zone, 100, 100, &mut info);
    assert_eq!((10..14).map(|i| delta(&info, i)).collect::<Vec<i64>>(), vec![-2, 0, 0, -5]);

    let (zone, mut info) = row(&[4, -5, 3, 5]);
    take_from_givers(&givers, &zone, 100, 100, &mut info);
    assert_eq!((10..14).map(|i| delta(&info, i)).collect::<Vec<i64>>(), vec![2, 0, 0, 5]);
}
