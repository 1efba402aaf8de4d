use space_qud::active_zone::ActiveZone;
use space_qud::galaxy::Location;
use space_qud::level::{LocationType, Tile};

#[test]
fn locations_stack_levels() {
    let mut loc = Location::new("Ship", 4, 3, 2, LocationType::ShipInterior, Tile::DeckPlate);
    assert_eq!(loc.levels.len(), 2);
    assert_eq!(loc.level(1).get(3, 2), Some(Tile::DeckPlate));
    loc.level_mut(1).set(0, 0, Tile::StationWall);
    assert_eq!(loc.level(1).get(0, 0), Some(Tile::StationWall));
    assert_eq!(loc.level(0).get(0, 0), Some(Tile::DeckPlate));
}

#[test]
fn ship_only_zone_copies_the_ship() {
    let mut ship = Location::new("Ship", 4, 3, 2, LocationType::ShipInterior, Tile::DeckPlate);
    ship.level_mut(0).set(2, 1, Tile::Door);
    let mut zone = ActiveZone::ship_only(&ship);
    assert_eq!((zone.width, zone.height, zone.depth), (4, 3, 2));
    assert_eq!(zone.ship_origin, (0, 0));
    assert!(zone.dest_origin.is_none() && zone.dest_dims.is_none());
    assert_eq!(zone.level(0).get(2, 1), Some(Tile::Door));
    zone.level_mut(0).set(2, 1, Tile::DeckPlate);
    assert_eq!(ship.level(0).get(2, 1), Some(Tile::Door));
}

#[test]
fn docking_lays_the_destination_south_of_the_airlock() {
    let ship = Location::new("Ship", 3, 2, 1, LocationType::ShipInterior, Tile::StationFloor);
    let dest = Location::new("Moon", 4, 4, 2, LocationType::PlanetSurface { breathable: false }, Tile::Grass);
    let zone = ActiveZone::docked(&ship, &dest, &vec![(9, 9), (1, 0)], 1, (2, 1)).unwrap();
    assert_eq!((zone.width, zone.height, zone.depth), (5, 6, 2));
    assert_eq!(zone.ship_origin, (0, 0));
    assert_eq!(zone.dest_origin, Some((1, 2)));
    assert_eq!(zone.dest_dims, Some((4, 4, 2)));
    assert_eq!(zone.level(0).get(0, 0), Some(Tile::StationFloor));
    assert_eq!(zone.level(0).get(2, 1), Some(Tile::StationFloor));
    assert_eq!(zone.level(0).get(0, 3), Some(Tile::Vacuum));
    assert_eq!(zone.level(0).get(1, 2), Some(Tile::Grass));
    assert_eq!(zone.level(1).get(0, 0), Some(Tile::Vacuum));
    assert_eq!(zone.level(1).get(4, 5), Some(Tile::Grass));
}

#[test]
fn docking_shifts_a_destination_that_reaches_past_the_ship() {
    let ship = Location::new("Ship", 3, 2, 1, LocationType::ShipInterior, Tile::StationFloor);
    let dest = Location::new("Rock", 4, 4, 1, LocationType::AsteroidField, Tile::Grass);
    let zone = ActiveZone::docked_at_spot(&ship, &dest, (3, 3), (0, 0));
    assert_eq!((zone.width, zone.height, zone.depth), (6, 4, 1));
    assert_eq!(zone.ship_origin, (3, 2));
    assert_eq!(zone.dest_origin, Some((0, 0)));
    assert_eq!(zone.level(0).get(3, 2), Some(Tile::Grass));
    assert_eq!(zone.level(0).get(5, 3), Some(Tile::StationFloor));
    assert_eq!(zone.level(0).get(5, 0), Some(Tile::Vacuum));
}

#[test]
fn docking_needs_a_landing_spot() {
    let ship = Location::new("Ship", 3, 2, 1, LocationType::ShipInterior, Tile::StationFloor);
    let dest = Location::new("Moon", 4, 4, 1, LocationType::PlanetSurface { breathable: false }, Tile::Grass);
    assert!(ActiveZone::docked(&ship, &dest, &vec![(1, 0)], 1, (2, 1)).is_none());
    assert!(ActiveZone::docked(&ship, &dest, &vec![], 0, (2, 1)).is_none());
    assert!(ActiveZone::docked(&ship, &dest, &vec![(1, 0)], 0, (2, 1)).is_some());
}
