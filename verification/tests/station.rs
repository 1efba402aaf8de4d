use space_qud::level::{Level, LocationType, Tile};
use space_qud::locations::station_gen::{
    add_internal_walls, add_spine_wall_with, carve_corridor, generate, place_room_doors_with, place_windows, place_windows_with, set_windows, stamp_conduit, stamp_corridor_tile, BspNode, Rect,
    StationParams,
};
use rand::SeedableRng;
use rand::rngs::SmallRng;

#[test]
fn station_params_builders() {
    let p = StationParams::new("Vega Relay").with_decks(4).with_rooms(10).with_seed(0x1111_2222);
    assert_eq!(p.name, "Vega Relay");
    assert_eq!(p.decks, 4);
    assert_eq!(p.rooms_per_deck, 10);
    assert_eq!(p.seed, Some(0x1111_2222));
    let q = StationParams::new("Nova Outpost");
    assert_eq!((q.decks, q.rooms_per_deck, q.seed), (2, 7, None));
}

#[test]
fn rect_center_and_inner() {
    let r = Rect { x: 10, y: 4, w: 7, h: 2 };
    assert_eq!(r.center(), (13, 5));
    assert_eq!(r.inner(), Rect { x: 11, y: 5, w: 5, h: 0 });
}

fn all_rooms_inside(n: &BspNode) {
    let rooms = n.rooms();
    for (i, a) in rooms.iter().enumerate() {
        assert!(a.x > n.cell.x && a.x + a.w < n.cell.x + n.cell.w);
        assert!(a.y > n.cell.y && a.y + a.h < n.cell.y + n.cell.h);
        assert!(a.w >= 3 && a.h >= 3);
        for b in &rooms[i + 1..] {
            let apart = a.x + a.w <= b.x || b.x + b.w <= a.x || a.y + a.h <= b.y || b.y + b.h <= a.y;
            assert!(apart);
        }
    }
}

#[test]
fn bsp_rooms_are_inside_and_apart() {
    for seed in 0..20u64 {
        let mut rng = SmallRng::seed_from_u64(seed);
        let root = Rect { x: 17, y: 17, w: 62, h: 62 };
        let bsp = BspNode::leaf(root).split(&mut rng, 8, 4);
        assert!(!bsp.rooms().is_empty());
        all_rooms_inside(&bsp);
        let mut corridors = Vec::new();
        bsp.collect_corridors(&mut corridors);
        assert_eq!(corridors.len() + 1, bsp.rooms().len());
    }
}

#[test]
fn corridor_tile_plates_and_walls_off_vacuum() {
    let mut level = Level::new(5, 5, Tile::Vacuum);
    level.set(2, 1, Tile::StationFloor);
    stamp_corridor_tile(&mut level, 2, 2, true);
    assert_eq!(level.get(2, 2), Some(Tile::DeckPlate));
    assert_eq!(level.get(2, 1), Some(Tile::StationFloor));
    assert_eq!(level.get(2, 3), Some(Tile::StationWall));
    assert_eq!(level.get(1, 2), Some(Tile::Vacuum));
}

#[test]
fn l_corridor_has_flanks() {
    let mut level = Level::new(8, 8, Tile::Vacuum);
    carve_corridor(&mut level, 1, 1, 5, 4);
    for x in 1..5 {
        assert_eq!(level.get(x, 1), Some(Tile::DeckPlate));
        assert_eq!(level.get(x, 2), Some(Tile::StationWall));
        assert_eq!(level.get(x, 0), Some(Tile::StationWall));
    }
    for y in 1..=4 {
        assert_eq!(level.get(5, y), Some(Tile::DeckPlate));
        assert_eq!(level.get(6, y), Some(Tile::StationWall));
    }
    assert_eq!(level.get(7, 7), Some(Tile::Vacuum));
}

#[test]
fn conduit_follows_the_horizontal_leg() {
    let mut level = Level::new(8, 3, Tile::DeckPlate);
    level.set(3, 1, Tile::StationFloor);
    stamp_conduit(&mut level, 6, 1, 1, 0);
    for x in 2..=6 {
        if x != 3 {
            assert_eq!(level.get(x, 1), Some(Tile::Conduit));
        }
    }
    assert_eq!(level.get(3, 1), Some(Tile::StationFloor));
    assert_eq!(level.get(1, 1), Some(Tile::DeckPlate));
    assert_eq!(level.get(6, 0), Some(Tile::DeckPlate));
}

#[test]
fn windows_face_vacuum_and_floor() {
    let mut level = Level::new(6, 3, Tile::Vacuum);
    for x in 0..6 {
        level.set(x, 1, Tile::StationWall);
        level.set(x, 2, Tile::StationFloor);
    }
    let mut rng = SmallRng::seed_from_u64(7);
    place_windows(&mut level, 6, &mut rng);
    for x in 0..6 {
        let t = level.get(x, 1).unwrap();
        assert!(t == Tile::StationWall || t == Tile::Window);
        assert_eq!(level.get(x, 2), Some(Tile::StationFloor));
    }
}

#[test]
fn generated_station_shape() {
    let plan = generate(&StationParams::new("Iron Ring Station").with_decks(3).with_seed(0x9876_FEDC));
    let loc = &plan.location;
    assert_eq!(loc.name, "Iron Ring Station");
    assert_eq!((loc.width, loc.height, loc.depth), (96, 96, 3));
    assert_eq!(loc.location_type, LocationType::SpaceStation);
    assert_eq!(loc.levels.len(), 3);
    assert_eq!(plan.stairs.len(), 3);
    // The first deck has a ship dock.
    let mut docks = 0;
    for y in 0..96 {
        for x in 0..96 {
            if loc.levels[0].get(x, y) == Some(Tile::ShipDock) {
                docks += 1;
            }
        }
    }
    assert_eq!(docks, 1);
    for &(x, y, z) in &plan.doors {
        assert!(z < 3);
        assert_eq!(loc.levels[z].get(x, y), Some(Tile::StationFloor));
    }
    // The same seed gives the same station.
    let again = generate(&StationParams::new("Iron Ring Station").with_decks(3).with_seed(0x9876_FEDC));
    assert_eq!(again.stairs, plan.stairs);
    assert_eq!(again.doors, plan.doors);
}

#[test]
fn listed_tiles_become_windows() {
    let mut level = Level::new(4, 4, Tile::StationWall);
    set_windows(&mut level, &vec![(1, 2), (3, 0), (9, 9)]);
    assert_eq!(level.get(1, 2), Some(Tile::Window));
    assert_eq!(level.get(3, 0), Some(Tile::Window));
    assert_eq!(level.get(0, 0), Some(Tile::StationWall));
}

#[test]
fn big_rooms_always_get_a_spine_wall() {
    for seed in 0..10 {
        let mut level = Level::new(20, 20, Tile::StationFloor);
        let mut rng = SmallRng::seed_from_u64(seed);
        add_internal_walls(&mut level, &Rect { x: 2, y: 2, w: 12, h: 12 }, &mut rng);
        let walls = (0..20).flat_map(|y| (0..20).map(move |x| (x, y))).filter(|&(x, y)| level.get(x, y) == Some(Tile::StationWall)).count();
        assert!(walls > 0);
    }
}

#[test]
fn generated_decks_hold_rooms_inside_the_hull() {
    let plan = generate(&StationParams::new("Nova Outpost").with_seed(0xABCD_1234));
    let loc = &plan.location;
    for z in 0..2 {
        let level = &loc.levels[z];
        let mut floors = 0;
        let mut walls = 0;
        for y in 0..96 {
            for x in 0..96 {
                let t = level.get(x, y).unwrap();
                let in_root = (17..79).contains(&x) && (17..79).contains(&y);
                if !in_root {
                    assert!(t == Tile::Vacuum || t == Tile::StationWall || t == Tile::Window, "({x}, {y}) on deck {z}: {t:?}");
                }
                if t == Tile::StationFloor {
                    floors += 1;
                }
                if t == Tile::StationWall {
                    walls += 1;
                }
            }
        }
        assert!(floors > 0 && walls > 0);
        let (sx, sy) = plan.stairs[z];
        assert!((17..79).contains(&sx) && (17..79).contains(&sy));
    }
}

#[test]
fn windows_go_where_their_draws_are_true() {
    let mut level = Level::new(4, 3, Tile::Vacuum);
    for x in 0..4 {
        level.set(x, 1, Tile::StationWall);
        level.set(x, 2, Tile::StationFloor);
    }
    place_windows_with(&mut level, 4, &vec![true, false, true]);
    assert_eq!(level.get(0, 1), Some(Tile::Window));
    assert_eq!(level.get(1, 1), Some(Tile::StationWall));
    assert_eq!(level.get(2, 1), Some(Tile::Window));
    assert_eq!(level.get(3, 1), Some(Tile::StationWall));
    assert_eq!(level.get(0, 2), Some(Tile::StationFloor));
}

#[test]
fn doors_open_where_their_draws_are_true() {
    let mut level = Level::new(5, 5, Tile::Vacuum);
    for x in 0..5 {
        level.set(x, 0, Tile::DeckPlate);
    }
    for y in 1..4 {
        for x in 1..4 {
            level.set(x, y, Tile::StationWall);
        }
    }
    let room = Rect { x: 1, y: 1, w: 3, h: 3 };
    let doors = place_room_doors_with(&mut level, &room, &vec![false, true, true]);
    assert_eq!(doors, vec![(2, 1), (3, 1)]);
    assert_eq!(level.get(1, 1), Some(Tile::StationWall));
    assert_eq!(level.get(2, 1), Some(Tile::StationFloor));
    assert_eq!(level.get(3, 1), Some(Tile::StationFloor));
}

#[test]
fn spine_wall_follows_its_draws() {
    let inner = Rect { x: 1, y: 1, w: 10, h: 6 };
    let mut level = Level::new(12, 8, Tile::StationFloor);
    add_spine_wall_with(&mut level, &inner, true, 3);
    // Row 1 + 6 / 2 = 4, columns 2..11, gap at columns 4..7.
    assert_eq!(level.get(2, 4), Some(Tile::StationWall));
    assert_eq!(level.get(3, 4), Some(Tile::StationWall));
    assert_eq!(level.get(4, 4), Some(Tile::StationFloor));
    assert_eq!(level.get(6, 4), Some(Tile::StationFloor));
    assert_eq!(level.get(7, 4), Some(Tile::StationWall));
    assert_eq!(level.get(10, 4), Some(Tile::StationWall));
    assert_eq!(level.get(1, 4), Some(Tile::StationFloor));
    let mut tall_only = Level::new(12, 8, Tile::StationFloor);
    add_spine_wall_with(&mut tall_only, &inner, false, 2);
    assert_eq!(tall_only.get(6, 3), Some(Tile::StationFloor));
}

#[test]
fn partition_follows_its_draws() {
    let cell = Rect { x: 0, y: 0, w: 20, h: 10 };
    // No early stop, a vertical cut, at column 8; the left leaf's insets 2 and 1; the right
    // leaf's draws are missing and count as the smallest insets.
    let n = BspNode::split_with(cell, 5, 1, &vec![0, 1, 8, 2, 1]);
    assert_eq!(n.rooms(), vec![Rect { x: 2, y: 1, w: 4, h: 8 }, Rect { x: 9, y: 1, w: 10, h: 8 }]);
    // A non-zero first draw stops a medium cell early, as a leaf with insets of one.
    let leaf = BspNode::split_with(cell, 5, 1, &vec![3, 1, 1]);
    assert_eq!(leaf.rooms(), vec![Rect { x: 1, y: 1, w: 18, h: 8 }]);
}
