use space_qud::level::{carve_blob, clear_around, fill_rect, place_corridor, place_room, place_room_with_door, place_stairs,
    place_wide_corridor, Level, LocationType, Side, Tile};

fn count(level: &Level, t: Tile) -> usize {
    let mut n = 0;
    for y in 0..level.height as i32 {
        for x in 0..level.width as i32 {
            if level.get(x, y) == Some(t) {
                n += 1;
            }
        }
    }
    n
}

#[test]
fn new_get_set_walkable() {
    let mut level = Level::new(4, 3, Tile::Grass);
    assert_eq!(level.get(3, 2), Some(Tile::Grass));
    assert_eq!(level.get(4, 0), None);
    assert_eq!(level.get(-1, 0), None);
    level.set(1, 1, Tile::Wall);
    level.set(9, 9, Tile::Wall);
    assert_eq!(level.get(1, 1), Some(Tile::Wall));
    assert!(!level.walkable(1, 1));
    assert!(level.walkable(0, 0));
    assert!(!level.walkable(-1, 0));
    assert_eq!(count(&level, Tile::Wall), 1);
}

#[test]
fn fill_rect_clips_to_the_level() {
    let mut level = Level::new(5, 5, Tile::Vacuum);
    fill_rect(&mut level, 3, 3, 4, 4, Tile::StationFloor);
    assert_eq!(count(&level, Tile::StationFloor), 4);
    fill_rect(&mut level, 0, 0, 0, 3, Tile::StationWall);
    assert_eq!(count(&level, Tile::StationWall), 0);
}

#[test]
fn room_has_walls_and_a_floor() {
    let mut level = Level::new(6, 6, Tile::Vacuum);
    place_room(&mut level, 1, 1, 4, 4, Tile::StationWall);
    assert_eq!(count(&level, Tile::StationWall), 12);
    assert_eq!(count(&level, Tile::DeckPlate), 4);
    assert_eq!(level.get(2, 2), Some(Tile::DeckPlate));
    assert_eq!(level.get(0, 0), Some(Tile::Vacuum));
}

#[test]
fn room_door_lands_on_the_chosen_side() {
    let mut level = Level::new(8, 8, Tile::Vacuum);
    place_room_with_door(&mut level, 1, 1, 5, 4, Side::South, 2, Tile::StationWall);
    assert_eq!(level.get(3, 4), Some(Tile::DeckPlate));
    let mut level = Level::new(8, 8, Tile::Vacuum);
    place_room_with_door(&mut level, 1, 1, 5, 4, Side::East, 1, Tile::StationWall);
    assert_eq!(level.get(5, 2), Some(Tile::DeckPlate));
}

#[test]
fn corridor_is_l_shaped() {
    let mut level = Level::new(6, 6, Tile::Wall);
    place_corridor(&mut level, 1, 1, 4, 3);
    for x in 1..=4 {
        assert_eq!(level.get(x, 1), Some(Tile::DeckPlate));
    }
    for y in 1..=3 {
        assert_eq!(level.get(4, y), Some(Tile::DeckPlate));
    }
    assert_eq!(count(&level, Tile::DeckPlate), 6);
}

#[test]
fn stairs_pair_up_and_down() {
    let mut levels = vec![Level::new(3, 3, Tile::StationFloor), Level::new(3, 3, Tile::StationFloor)];
    place_stairs(&mut levels, 0, 1, 1, 1);
    assert_eq!(levels[0].get(1, 1), Some(Tile::StairsUp));
    assert_eq!(levels[1].get(1, 1), Some(Tile::StairsDown));
    place_stairs(&mut levels, 1, 0, 2, 2);
    assert_eq!(levels[1].get(2, 2), Some(Tile::StairsDown));
    assert_eq!(levels[0].get(2, 2), Some(Tile::StairsUp));
}

#[test]
fn blob_covers_at_least_the_disc() {
    let mut level = Level::new(11, 11, Tile::CaveWall);
    carve_blob(&mut level, 5, 5, 3, Tile::CaveFloor);
    for dy in -3i32..=3 {
        for dx in -3i32..=3 {
            if dx * dx + dy * dy <= 9 {
                assert_eq!(level.get(5 + dx, 5 + dy), Some(Tile::CaveFloor));
            }
        }
    }
    assert_eq!(level.get(0, 0), Some(Tile::CaveWall));
}

#[test]
fn clear_around_only_touches_blocked_tiles() {
    let mut level = Level::new(5, 5, Tile::StationWall);
    level.set(2, 1, Tile::Grass);
    clear_around(&mut level, 2, 2, 1);
    assert_eq!(level.get(2, 1), Some(Tile::Grass));
    assert_eq!(level.get(1, 1), Some(Tile::DeckPlate));
    assert_eq!(level.get(3, 3), Some(Tile::DeckPlate));
    assert_eq!(level.get(0, 0), Some(Tile::StationWall));
    assert_eq!(count(&level, Tile::DeckPlate), 8);
}

#[test]
fn wide_corridor_is_three_across() {
    let mut level = Level::new(10, 10, Tile::Wall);
    place_wide_corridor(&mut level, 1, 2, 6, 7);
    for offset in -1..=1 {
        assert_eq!(level.get(3, 2 + offset), Some(Tile::DeckPlate));
        assert_eq!(level.get(6 + offset, 5), Some(Tile::DeckPlate));
    }
    assert_eq!(level.get(3, 5), Some(Tile::Wall));
}

#[test]
fn duplicate_copies_every_tile() {
    let mut level = Level::new(3, 2, Tile::Sand);
    level.set(2, 1, Tile::Water);
    let copy = level.duplicate();
    assert_eq!(copy.get(2, 1), Some(Tile::Water));
    assert_eq!(copy.get(0, 0), Some(Tile::Sand));
    assert_eq!((copy.width, copy.height), (3, 2));
}

#[test]
fn location_types_compare() {
    assert_eq!(LocationType::PlanetSurface { breathable: true }, LocationType::PlanetSurface { breathable: true });
    assert_ne!(LocationType::SpaceStation, LocationType::Ruins);
}
