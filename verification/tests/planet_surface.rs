use rand::SeedableRng;
use space_qud::galaxy::Location;
use space_qud::level::{Level, LocationType, Tile};
use space_qud::locations::natural_planet;
use space_qud::locations::planet_gen::generate_cave_sublevel;
use space_qud::locations::planet_gen::{largest_walkable_component, nearest_ground, place_ship_dock};

fn walls(w: usize, h: usize) -> Level {
    Level::new(w, h, Tile::Wall)
}

#[test]
fn largest_component_picks_the_bigger_region() {
    let mut level = walls(6, 3);
    level.set(0, 0, Tile::Grass);
    level.set(0, 1, Tile::Grass);
    for (x, y) in [(3, 0), (4, 0), (4, 1), (5, 1)] {
        level.set(x, y, Tile::Grass);
    }
    let mut best = largest_walkable_component(&level);
    assert_eq!(best[0], (3, 0));
    best.sort();
    assert_eq!(best, vec![(3, 0), (4, 0), (4, 1), (5, 1)]);
}

#[test]
fn largest_component_first_among_equals() {
    let mut level = walls(5, 1);
    level.set(0, 0, Tile::Grass);
    level.set(1, 0, Tile::Grass);
    level.set(3, 0, Tile::Grass);
    level.set(4, 0, Tile::Grass);
    assert_eq!(largest_walkable_component(&level), vec![(0, 0), (1, 0)]);
}

#[test]
fn largest_component_breadth_first_order() {
    let level = Level::new(2, 2, Tile::Grass);
    assert_eq!(largest_walkable_component(&level), vec![(0, 0), (1, 0), (0, 1), (1, 1)]);
}

#[test]
fn largest_component_of_solid_rock_is_empty() {
    assert!(largest_walkable_component(&walls(4, 4)).is_empty());
}

#[test]
fn nearest_ground_prefers_the_centre_and_the_first() {
    let level = Level::new(6, 6, Tile::Grass);
    assert_eq!(nearest_ground(&level, &vec![(0, 0), (3, 2), (2, 3), (5, 5)]), Some(1));
    assert_eq!(nearest_ground(&level, &vec![(-1, 0), (9, 9)]), None);
}

#[test]
fn dock_lands_at_the_centre_of_open_ground() {
    let mut level = Level::new(5, 5, Tile::Grass);
    place_ship_dock(&mut level, Tile::Sand);
    assert_eq!(level.get(2, 2), Some(Tile::ShipDock));
    assert_eq!(level.get(1, 1), Some(Tile::Grass));
    assert_eq!(level.get(3, 3), Some(Tile::Grass));
}

#[test]
fn dock_lands_in_largest_region_and_clears_around() {
    let mut level = walls(6, 6);
    level.set(0, 0, Tile::Grass);
    for y in 1..4 {
        level.set(4, y, Tile::Grass);
    }
    place_ship_dock(&mut level, Tile::Sand);
    assert_eq!(level.get(4, 3), Some(Tile::ShipDock));
    assert_eq!(level.get(4, 2), Some(Tile::Grass));
    assert_eq!(level.get(3, 2), Some(Tile::Sand));
    assert_eq!(level.get(5, 4), Some(Tile::Sand));
    assert_eq!(level.get(3, 4), Some(Tile::Sand));
    assert_eq!(level.get(2, 3), Some(Tile::Wall));
    assert_eq!(level.get(4, 1), Some(Tile::Grass));
    assert_eq!(level.get(0, 0), Some(Tile::Grass));
}

#[test]
fn dock_on_solid_rock_changes_nothing() {
    let mut level = walls(4, 4);
    place_ship_dock(&mut level, Tile::Sand);
    assert_eq!(level.tiles, walls(4, 4).tiles);
}

fn seeded_block(size: usize, lo: usize, hi: usize) -> Vec<Vec<bool>> {
    let mut g = vec![vec![false; size]; size];
    for y in lo..hi {
        for x in lo..hi {
            g[y][x] = true;
        }
    }
    g
}

#[test]
fn cave_sublevel_places_entrances_and_chests() {
    let mut loc = Location::new("Test", 30, 30, 2, LocationType::PlanetSurface { breathable: true }, Tile::Grass);
    let plan = generate_cave_sublevel(&mut loc, seeded_block(30, 2, 28));
    assert_eq!(plan.entrances.len(), 3);
    let mut sorted = plan.entrances.clone();
    sorted.sort();
    assert_eq!(sorted, plan.entrances);
    for &(x, y) in &plan.entrances {
        assert!(x > 5 && y > 5 && x < 25 && y < 25);
        assert_eq!(loc.levels[1].get(x, y), Some(Tile::CaveFloor));
    }
    assert_eq!(plan.chests.len(), 6);
    for c in &plan.chests {
        assert!(!plan.entrances.contains(c));
        assert_eq!(loc.levels[1].get(c.0, c.1), Some(Tile::CaveFloor));
    }
    assert_eq!(loc.levels[1].get(0, 0), Some(Tile::CaveWall));
    assert_eq!(loc.levels[0].get(10, 10), Some(Tile::Grass));
}

#[test]
fn cave_sublevel_of_solid_rock_places_nothing() {
    let mut loc = Location::new("Test", 12, 12, 2, LocationType::PlanetSurface { breathable: true }, Tile::Grass);
    let plan = generate_cave_sublevel(&mut loc, vec![vec![false; 12]; 12]);
    assert!(plan.entrances.is_empty() && plan.chests.is_empty());
    for y in 0..12 {
        for x in 0..12 {
            assert_eq!(loc.levels[1].get(x, y), Some(Tile::CaveWall));
        }
    }
}

#[test]
fn natural_dock_lands_nearest_the_centre() {
    let mut level = walls(6, 6);
    level.set(0, 0, Tile::Sand);
    for y in 1..4 {
        level.set(4, y, Tile::Sand);
    }
    assert_eq!(natural_planet::place_ship_dock(&mut level), (4, 3));
    assert_eq!(level.get(4, 3), Some(Tile::ShipDock));
    assert_eq!(level.get(3, 2), Some(Tile::Grass));
    assert_eq!(level.get(5, 4), Some(Tile::Grass));
    assert_eq!(level.get(4, 2), Some(Tile::Sand));
    assert_eq!(level.get(2, 2), Some(Tile::Wall));
}

#[test]
fn natural_dock_on_solid_rock_clears_the_centre() {
    let mut level = walls(5, 5);
    assert_eq!(natural_planet::place_ship_dock(&mut level), (2, 2));
    assert_eq!(level.get(2, 2), Some(Tile::ShipDock));
    assert_eq!(level.get(1, 1), Some(Tile::Grass));
    assert_eq!(level.get(3, 3), Some(Tile::Grass));
    assert_eq!(level.get(0, 0), Some(Tile::Wall));
}

#[test]
fn natural_cave_mouths_need_solid_ground() {
    assert!(natural_planet::is_solid_ground(Tile::CaveWall));
    assert!(natural_planet::is_solid_ground(Tile::Sand));
    assert!(!natural_planet::is_solid_ground(Tile::ShallowWater));
    let mut wet = Location::new("Marsh", 30, 30, 2, LocationType::PlanetSurface { breathable: true }, Tile::ShallowWater);
    let plan = natural_planet::generate_cave_sublevel(&mut wet, seeded_block(30, 2, 28));
    assert!(plan.entrances.is_empty() && plan.chests.is_empty());
    let mut wet_planet = Location::new("Marsh", 30, 30, 2, LocationType::PlanetSurface { breathable: true }, Tile::ShallowWater);
    assert_eq!(generate_cave_sublevel(&mut wet_planet, seeded_block(30, 2, 28)).entrances.len(), 3);
    let mut dry = Location::new("Dunes", 30, 30, 2, LocationType::PlanetSurface { breathable: true }, Tile::Sand);
    assert_eq!(natural_planet::generate_cave_sublevel(&mut dry, seeded_block(30, 2, 28)).entrances.len(), 3);
}

#[test]
fn weighted_picks_follow_the_weights() {
    let mut rng = rand::rngs::SmallRng::seed_from_u64(5);
    for _ in 0..20 {
        assert_eq!(natural_planet::pick_weighted(&[1, 2, 3], &[0, 5, 0], &mut rng), 2);
        assert_eq!(natural_planet::pick_weighted(&[7], &[1, 5], &mut rng), 7);
    }
}

#[test]
fn weighted_pick_follows_the_roll() {
    assert_eq!(natural_planet::picked_at(&[1, 2, 3], &[2, 3, 5], 0), 1);
    assert_eq!(natural_planet::picked_at(&[1, 2, 3], &[2, 3, 5], 2), 2);
    assert_eq!(natural_planet::picked_at(&[1, 2, 3], &[2, 3, 5], 4), 2);
    assert_eq!(natural_planet::picked_at(&[1, 2, 3], &[2, 3, 5], 5), 3);
    assert_eq!(natural_planet::picked_at(&[1, 2], &[2, 3, 5], 7), 2);
}
