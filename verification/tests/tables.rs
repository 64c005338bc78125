use katmos::info::{MonstermosInfo, ReducedInfo};
use katmos::quanta::Quanta;
use katmos::tables::{
    InfoMap, ReducedMap, SpreadOrder, TurfMixture, TurfOrder, TurfSet, Zone,
};

fn turf(mix: usize) -> TurfMixture {
    TurfMixture { mix, adjacency: 3, simulated: true, planetary_atmos: None }
}

#[test]
fn a_zone_keeps_the_order_of_its_turfs() {
    let mut zone = Zone::new();
    assert_eq!(zone.insert(7, turf(1)), None);
    assert_eq!(zone.insert(3, turf(2)), None);
    assert_eq!(zone.insert(7, turf(3)), Some(turf(1)));
    assert_eq!(zone.len(), 2);
    assert_eq!(zone.get(7), Some(turf(3)));
    assert_eq!(zone.get(4), None);
    assert_eq!(zone.get_index(0), Some((7, turf(3))));
    assert_eq!(zone.get_index(1), Some((3, turf(2))));
    assert_eq!(zone.get_index(2), None);
}

#[test]
fn draining_a_zone_empties_it() {
    let mut zone = Zone::new();
    zone.insert(9, turf(1));
    zone.insert(2, turf(2));
    assert_eq!(zone.drain(), vec![(9, turf(1)), (2, turf(2))]);
    assert_eq!(zone.len(), 0);
    assert_eq!(zone.get(9), None);
}

#[test]
fn an_order_holds_each_turf_once() {
    let mut order = TurfOrder::new();
    assert!(order.insert(5));
    assert!(order.insert(1));
    assert!(!order.insert(5));
    assert_eq!(order.len(), 2);
    assert_eq!(order.get_index(0), Some(5));
    assert_eq!(order.get_index(1), Some(1));
    assert_eq!(order.get_index(2), None);
}

#[test]
fn a_spread_order_holds_each_pair_once() {
    let mut order = SpreadOrder::new();
    assert!(order.insert((5, 1)));
    assert!(order.insert((5, 2)));
    assert!(!order.insert((5, 1)));
    assert_eq!(order.len(), 2);
    assert_eq!(order.get_index(1), Some((5, 2)));
    assert_eq!(order.get_index(2), None);
}

#[test]
fn a_set_tells_what_is_new() {
    let mut set = TurfSet::new();
    assert!(!set.contains(8));
    assert!(set.insert(8));
    assert!(!set.insert(8));
    assert!(set.contains(8));
}

#[test]
fn books_are_replaced_only_where_they_are() {
    let mut info: InfoMap<Quanta> = InfoMap::new();
    let mut books: MonstermosInfo<Quanta> = MonstermosInfo::default();
    books.mole_delta = Quanta { n: 4 };
    info.modify(2, books);
    assert!(info.get(2).is_none());
    info.insert(2, MonstermosInfo::default());
    assert_eq!(info.get(2).unwrap().mole_delta, Quanta { n: 0 });
    assert_eq!(info.get(2).unwrap().curr_transfer_dir, 6);
    assert!(!info.get(2).unwrap().fast_done);
    info.modify(2, books);
    assert_eq!(info.get(2).unwrap().mole_delta, Quanta { n: 4 });
}

#[test]
fn reduced_books_begin_blank() {
    let mut info: ReducedMap<Quanta> = ReducedMap::new();
    let blank = info.get_or_default(3);
    assert_eq!(blank.curr_transfer_dir, 6);
    assert_eq!(blank.curr_transfer_amount, Quanta { n: 0 });
    info.insert(3, ReducedInfo { curr_transfer_amount: Quanta { n: 2 }, curr_transfer_dir: 1 });
    assert_eq!(info.get_or_default(3).curr_transfer_dir, 1);
    assert_eq!(info.get_or_default(3).curr_transfer_amount, Quanta { n: 2 });
    assert_eq!(info.get(3).curr_transfer_dir, 1);
    assert_eq!(info.get(4).curr_transfer_dir, 6);
}

#[test]
fn enabled_turfs_are_simulated() {
    assert!(turf(1).enabled());
    assert!(!TurfMixture { simulated: false, ..turf(1) }.enabled());
}
