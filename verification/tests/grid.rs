use katmos::grid::{opposite_dir, AdjacentTileIDsNoorig, OPP_DIR_INDEX};
use katmos::{adjacent_tile_id, adjacent_tile_ids, adjacent_tile_ids_no_orig};

fn collect(mut tiles: AdjacentTileIDsNoorig) -> Vec<(u8, u32)> {
    let mut all = Vec::new();
    while let Some(pair) = tiles.next() {
        all.push(pair);
    }
    all
}

#[test]
fn steps_in_all_directions() {
    assert_eq!(adjacent_tile_id(0, 100, 10, 8), 110);
    assert_eq!(adjacent_tile_id(1, 100, 10, 8), 90);
    assert_eq!(adjacent_tile_id(2, 100, 10, 8), 101);
    assert_eq!(adjacent_tile_id(3, 100, 10, 8), 99);
    assert_eq!(adjacent_tile_id(4, 100, 10, 8), 180);
    assert_eq!(adjacent_tile_id(5, 100, 10, 8), 20);
    assert_eq!(adjacent_tile_id(6, 100, 10, 8), 100);
    assert_eq!(adjacent_tile_id(200, 100, 10, 8), 100);
}

#[test]
fn indices_wrap_around() {
    assert_eq!(adjacent_tile_id(3, 0, 10, 8), u32::MAX);
    assert_eq!(adjacent_tile_id(2, u32::MAX, 10, 8), 0);
    assert_eq!(adjacent_tile_id(1, 3, 10, 8), u32::MAX - 6);
}

#[test]
fn opposite_steps_lead_back() {
    for dir in 0..6u8 {
        let back = opposite_dir(dir as usize);
        assert_eq!(opposite_dir(back), dir as usize);
        let there = adjacent_tile_id(dir, 1234, 17, 9);
        assert_ne!(there, 1234);
        assert_eq!(adjacent_tile_id(back as u8, there, 17, 9), 1234);
    }
    assert_eq!(OPP_DIR_INDEX, [1, 0, 3, 2, 5, 4, 6]);
}

#[test]
fn neighbours_come_in_order_without_the_turf() {
    assert_eq!(
        collect(adjacent_tile_ids_no_orig(0b1110_1101, 100, 10, 8)),
        vec![(0, 110), (2, 101), (3, 99), (5, 20)]
    );
    assert_eq!(collect(adjacent_tile_ids_no_orig(0b1100_0000, 100, 10, 8)), vec![]);
}

#[test]
fn an_exhausted_list_stays_exhausted() {
    let mut tiles = adjacent_tile_ids_no_orig(0b0000_0010, 100, 10, 8);
    assert_eq!(tiles.next(), Some((1, 90)));
    assert_eq!(tiles.count, 2);
    assert_eq!(tiles.next(), None);
    assert_eq!(tiles.count, 6);
    assert_eq!(tiles.next(), None);
    assert_eq!(tiles.count, 6);
    tiles.count = 200;
    assert_eq!(tiles.next(), None);
    assert_eq!(tiles.count, 200);
}

#[test]
fn the_other_list_names_the_turf() {
    let mut tiles = adjacent_tile_ids(0b1100_1000, 100, 10, 8);
    assert_eq!(tiles.next(), Some((3, 99)));
    assert_eq!(tiles.next(), Some((6, 100)));
    assert_eq!(tiles.next(), None);
}

#[test]
fn size_hint_counts_bits() {
    let tiles = adjacent_tile_ids_no_orig(0b1110_1101, 100, 10, 8);
    assert_eq!(tiles.size_hint(), (0, Some(6)));
    assert_eq!(adjacent_tile_ids_no_orig(0, 1, 1, 1).size_hint(), (0, Some(0)));
}
