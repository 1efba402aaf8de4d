use space_qud::item::Item;
use space_qud::level::{Level, Tile};
use space_qud::loot::{gather_tiles, merge, scatter_loot_tiles};

#[test]
fn merge_adds_to_existing_stacks() {
    let mut out = vec![(Item::Wood, 2), (Item::GoldCoin, 5)];
    merge(&mut out, Item::GoldCoin, 7);
    assert_eq!(out, vec![(Item::Wood, 2), (Item::GoldCoin, 12)]);
    merge(&mut out, Item::Crystal, 1);
    assert_eq!(out, vec![(Item::Wood, 2), (Item::GoldCoin, 12), (Item::Crystal, 1)]);
}

#[test]
fn merge_into_empty() {
    let mut out = Vec::new();
    merge(&mut out, Item::Steel, 3);
    merge(&mut out, Item::Steel, 4);
    assert_eq!(out, vec![(Item::Steel, 7)]);
}

#[test]
fn loot_scatters_on_distinct_walkable_tiles() {
    let level = Level::new(5, 5, Tile::Grass);
    let three = scatter_loot_tiles(2, 2, &level, 3);
    assert_eq!(three.len(), 3);
    for &(x, y) in &three {
        assert!((1..=3).contains(&x) && (1..=3).contains(&y));
    }
    assert!(three[0] != three[1] && three[1] != three[2] && three[0] != three[2]);
    assert_eq!(scatter_loot_tiles(2, 2, &level, 20).len(), 9);
    assert_eq!(scatter_loot_tiles(0, 0, &level, 9).len(), 4);
}

#[test]
fn loot_skips_walls() {
    let mut level = Level::new(3, 3, Tile::Wall);
    level.set(0, 0, Tile::Grass);
    level.set(1, 1, Tile::Grass);
    let mut tiles = scatter_loot_tiles(1, 1, &level, 5);
    tiles.sort();
    assert_eq!(tiles, vec![(0, 0), (1, 1)]);
    assert!(scatter_loot_tiles(1, 1, &level, 0).is_empty());
}

#[test]
fn loot_takes_the_first_free_tiles_in_order() {
    let mut level = Level::new(3, 3, Tile::Grass);
    level.set(2, 2, Tile::Wall);
    let order = vec![(2, 2), (0, 1), (0, 1), (5, 5), (1, 1), (2, 0)];
    assert_eq!(gather_tiles(&order, &level, 2), vec![(0, 1), (1, 1)]);
    assert_eq!(gather_tiles(&order, &level, 9), vec![(0, 1), (1, 1), (2, 0)]);
    assert!(gather_tiles(&order, &level, 0).is_empty());
}
