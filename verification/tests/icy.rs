use space_qud::galaxy::Location;
use space_qud::level::{Level, LocationType, Tile};
use space_qud::locations::icy_planet::build_village_tiles;
use space_qud::locations::icy_planet::{carve_corridor, carve_path, carve_room, snowy};

#[test]
fn snow_kinds() {
    assert!(snowy(Tile::BrightGround));
    assert!(snowy(Tile::Ground));
    assert!(snowy(Tile::SmallRocks));
    assert!(!snowy(Tile::WoodFloor));
}

#[test]
fn paths_go_round_buildings() {
    let mut level = Level::new(6, 6, Tile::BrightGround);
    level.set(1, 3, Tile::WoodWall);
    carve_path(&mut level, (1, 1), (4, 4));
    assert_eq!(level.get(1, 2), Some(Tile::Ground));
    assert_eq!(level.get(1, 3), Some(Tile::WoodWall));
    assert_eq!(level.get(2, 4), Some(Tile::Ground));
    assert_eq!(level.get(4, 4), Some(Tile::Ground));
    assert_eq!(level.get(4, 1), Some(Tile::BrightGround));
}

#[test]
fn rooms_include_both_corners() {
    let mut level = Level::new(5, 5, Tile::IceWall);
    carve_room(&mut level, 1, 1, 3, 2, Tile::WoodFloor);
    assert_eq!(level.get(1, 1), Some(Tile::WoodFloor));
    assert_eq!(level.get(3, 2), Some(Tile::WoodFloor));
    assert_eq!(level.get(3, 3), Some(Tile::IceWall));
    carve_room(&mut level, 4, 4, 2, 2, Tile::WoodFloor);
    assert_eq!(level.get(4, 4), Some(Tile::IceWall));
}

#[test]
fn cellar_corridors_are_two_wide() {
    let mut level = Level::new(8, 8, Tile::CaveWall);
    carve_corridor(&mut level, (1, 1), (5, 4));
    assert_eq!(level.get(1, 1), Some(Tile::CaveFloor));
    assert_eq!(level.get(1, 2), Some(Tile::CaveFloor));
    assert_eq!(level.get(6, 3), Some(Tile::CaveFloor));
    assert_eq!(level.get(5, 5), Some(Tile::CaveFloor));
    assert_eq!(level.get(6, 5), Some(Tile::CaveWall));
    assert_eq!(level.get(0, 0), Some(Tile::CaveWall));
}

#[test]
fn village_ground_and_cellar() {
    let mut loc = Location::new("Rime", 300, 300, 1, LocationType::PlanetSurface { breathable: false }, Tile::BrightGround);
    loc.levels[0].set(10, 10, Tile::Water);
    let plan = build_village_tiles(&mut loc, &[], (150, 150), &vec![(5, 6)], (3, 4));
    let (ox, oy) = plan.origin;
    assert!(ox >= 4 && oy >= 4);
    assert_eq!(plan.plaza, (ox + 21, oy + 16));
    assert_eq!(plan.hatch, (ox + 13, oy + 16));
    assert_eq!(plan.stairs, (ox + 3, oy + 4));
    assert_eq!(plan.cellar_z, 1);
    assert_eq!(loc.depth, 2);
    assert_eq!(loc.levels.len(), 2);
    let surface = &loc.levels[0];
    assert_eq!(surface.get(ox + 37, oy + 12), Some(Tile::Fence));
    assert_eq!(surface.get(ox + 40, oy + 14), Some(Tile::Ground));
    assert_eq!(surface.get(plan.plaza.0 + 3, plan.plaza.1 + 2), Some(Tile::Ground));
    assert_eq!(surface.get(ox + 5, oy + 7), Some(Tile::Ground));
    let cellar = &loc.levels[1];
    assert_eq!(cellar.get(plan.stairs.0, plan.stairs.1), Some(Tile::WoodTile));
    assert_eq!(cellar.get(plan.hatch.0, plan.hatch.1), Some(Tile::WoodTile));
    assert_eq!(cellar.get(plan.hatch.0 + 10, plan.hatch.1 + 2), Some(Tile::CaveFloor));
    assert_eq!(cellar.get(0, 0), Some(Tile::CaveWall));
}
