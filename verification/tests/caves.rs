use space_qud::galaxy::Location;
use space_qud::level::{Level, LocationType, Tile};
use space_qud::item::Item;
use space_qud::locations::cave_gen::{
    bfs_dist, cache_contents, name_seed, pick_spread, plan_edges, populate, roughen, roughen_with, snap_reachable, surface_entrances,
    lairs_picked, weighted, weighted_at, CaveCreature, CaveSpawn, CaveTheme, Carved, SAFE_RADIUS,
};
use rand::SeedableRng;
use rand::rngs::SmallRng;

#[test]
fn name_seed_is_fnv1a() {
    assert_eq!(name_seed(""), 0xcbf2_9ce4_8422_2325);
    assert_eq!(name_seed("a"), 0xaf63_dc4c_8601_ec8c);
    assert_ne!(name_seed("Keth Caverns"), name_seed("Boreas Prime"));
}

#[test]
fn carved_mask_respects_the_margin() {
    let mut c = Carved::new(10);
    assert!(!c.get(5, 5));
    c.set(5, 5);
    c.set(1, 1);
    c.set(8, 5);
    assert!(c.get(5, 5));
    assert!(!c.get(1, 1));
    assert!(!c.get(8, 5));
    assert!(!c.get(-1, 5));
    c.set(4, 4);
    c.set(6, 6);
    assert_eq!(c.floor_neighbors8(5, 5), 2);
    assert_eq!(c.floor_neighbors8(4, 5), 2);
}

#[test]
fn bfs_distances_are_orthogonal_steps() {
    // A 5 by 5 grid with a wall column at x = 2 except at y = 4.
    let passable = |x: i32, y: i32| x != 2 || y == 4;
    let dist = bfs_dist(5, passable, &[(0, 0)]);
    assert_eq!(dist[0], 0);
    assert_eq!(dist[1], 1);
    assert_eq!(dist[2], -1);
    assert_eq!(dist[4 * 5 + 1], 5);
    assert_eq!(dist[4 * 5 + 2], 6);
    assert_eq!(dist[0 * 5 + 4], 12);
    assert_eq!(dist[4 * 5 + 4], 8);
}

#[test]
fn bfs_from_a_blocked_start_reaches_nothing() {
    let dist = bfs_dist(3, |x: i32, _y: i32| x > 0, &[(0, 1)]);
    assert!(dist.iter().all(|&d| d == -1));
}

#[test]
fn snap_finds_the_nearest_reached_walkable_cell() {
    let mut level = Level::new(9, 9, Tile::CaveWall);
    level.set(6, 4, Tile::CaveFloor);
    level.set(2, 4, Tile::CaveFloor);
    level.set(4, 7, Tile::CaveFloor);
    let mut dist = vec![-1; 81];
    dist[4 * 9 + 6] = 3;
    dist[4 * 9 + 2] = 5;
    dist[7 * 9 + 4] = 1;
    assert_eq!(snap_reachable(&level, &dist, 4, 4), Some((2, 4)));
    dist[4 * 9 + 2] = -1;
    assert_eq!(snap_reachable(&level, &dist, 4, 4), Some((6, 4)));
    assert_eq!(snap_reachable(&level, &dist, 0, 0), None);
}

#[test]
fn weighted_picks_from_the_table() {
    let mut rng = SmallRng::seed_from_u64(3);
    for _ in 0..50 {
        let v = weighted(&mut rng, &[(3, 2usize), (4, 3), (2, 4)]);
        assert!((2..=4).contains(&v));
        assert_eq!(weighted(&mut rng, &[(0, 'a'), (5, 'b')]), 'b');
    }
}

#[test]
fn themes_by_depth() {
    let mut rng = SmallRng::seed_from_u64(11);
    for _ in 0..50 {
        let t = CaveTheme::pick(&mut rng, 1, None);
        assert!(matches!(t, CaveTheme::Rocky | CaveTheme::Fungal | CaveTheme::Flooded));
        let d = CaveTheme::pick(&mut rng, 5, Some(t));
        assert!(d != CaveTheme::Flooded);
    }
    assert_eq!(CaveTheme::Flooded.deep_pool(), Some(Tile::DeepWater));
    assert_eq!(CaveTheme::Molten.deep_pool(), Some(Tile::Lava));
    assert_eq!(CaveTheme::Rocky.deep_pool(), None);
}

#[test]
fn spread_picks_far_apart() {
    let mut rng = SmallRng::seed_from_u64(5);
    let picks = pick_spread(&mut rng, vec![(0, 0), (1, 0), (10, 0), (0, 10)], 3);
    assert_eq!(picks.len(), 3);
    for p in &picks {
        assert!([(0, 0), (1, 0), (10, 0), (0, 10)].contains(p));
    }
    let mut sorted = picks.clone();
    sorted.sort();
    sorted.dedup();
    assert_eq!(sorted.len(), 3);
    let few = pick_spread(&mut rng, vec![(3, 3)], 4);
    assert_eq!(few, vec![(3, 3)]);
}

#[test]
fn cavern_edges_span_every_cavern() {
    let caverns = [(10, 10), (50, 12), (30, 40), (80, 80), (12, 60)];
    let mut rng = SmallRng::seed_from_u64(9);
    let edges = plan_edges(&mut rng, &caverns);
    assert!(edges.len() >= 4);
    let mut seen = vec![false; 5];
    seen[0] = true;
    for &(a, b) in &edges[..4] {
        assert!(seen[a]);
        assert!(!seen[b]);
        seen[b] = true;
    }
    assert!(seen.iter().all(|&s| s));
    // The first link is the shortest from the first cavern.
    assert_eq!(edges[0], (0, 2));
}

#[test]
fn roughen_only_adds_floor_inside_the_margin() {
    let mut c = Carved::new(12);
    for y in 4..8 {
        for x in 4..8 {
            c.set(x, y);
        }
    }
    let before = c.floor.clone();
    let mut rng = SmallRng::seed_from_u64(1);
    roughen(&mut c, &mut rng);
    for i in 0..before.len() {
        assert!(!before[i] || c.floor[i]);
    }
    for y in 0..12 {
        for x in 0..12 {
            if c.get(x, y) {
                assert!((3..9).contains(&x) && (3..9).contains(&y));
            }
        }
    }
}

#[test]
fn entrances_sit_on_dry_ground_over_floor() {
    let mut loc = Location::new("Test", 40, 40, 1, LocationType::PlanetSurface { breathable: true }, Tile::Grass);
    loc.levels[0].set(20, 20, Tile::Water);
    let mut c = Carved::new(40);
    for y in 10..30 {
        for x in 10..30 {
            c.set(x, y);
        }
    }
    let mut rng = SmallRng::seed_from_u64(2);
    let e = surface_entrances(&mut rng, &loc, &c);
    assert!((2..=4).contains(&e.len()));
    for &(x, y) in &e {
        assert!(c.get(x, y));
        assert_ne!((x, y), (20, 20));
    }
}

#[test]
fn populate_keeps_creatures_clear_and_chests_far() {
    let level = Level::new(40, 40, Tile::CaveFloor);
    let dist = bfs_dist(40, |x, y| level.walkable(x, y), &[(0, 0)]);
    let caverns = [(30, 30), (35, 5), (5, 35), (20, 20)];
    let mut rng = SmallRng::seed_from_u64(11);
    let spawns = populate(&level, CaveTheme::Molten, &dist, &caverns, 3, &mut rng);
    // 1495 lair cells give the minimum of six, plus two per level of depth.
    assert_eq!(spawns.len(), 12 + 2);
    let mut seen = std::collections::HashSet::new();
    for &(x, y, s) in &spawns[..12] {
        assert_eq!(s, CaveSpawn::Creature(CaveCreature::LavaCrab));
        assert!(x + y >= SAFE_RADIUS);
        assert!(seen.insert((x, y)));
    }
    assert_eq!(spawns[12], (30, 30, CaveSpawn::SupplyCache { deep: true }));
    assert_eq!(spawns[13], (35, 5, CaveSpawn::LootChest));
}

#[test]
fn populate_shallow_level_gets_plain_chests() {
    let level = Level::new(20, 20, Tile::CaveFloor);
    let dist = bfs_dist(20, |x, y| level.walkable(x, y), &[(0, 0)]);
    let caverns = [(3, 3), (15, 15), (18, 2)];
    let mut rng = SmallRng::seed_from_u64(3);
    let spawns = populate(&level, CaveTheme::Rocky, &dist, &caverns, 1, &mut rng);
    let creatures: Vec<_> = spawns.iter().filter(|s| matches!(s.2, CaveSpawn::Creature(_))).collect();
    assert_eq!(creatures.len(), 8);
    for c in &creatures {
        assert!(matches!(c.2, CaveSpawn::Creature(CaveCreature::AlienRunner | CaveCreature::CrabAlien | CaveCreature::RatSoldier)));
    }
    // (3, 3) is only six steps in; the other two are hoards, farthest first.
    assert_eq!(&spawns[8..], &[(15, 15, CaveSpawn::LootChest), (18, 2, CaveSpawn::LootChest)]);
}

#[test]
fn cave_creature_tables_and_caches() {
    assert_eq!(CaveTheme::Molten.creatures(), vec![(1, CaveCreature::LavaCrab)]);
    assert_eq!(CaveTheme::Crystal.creatures().len(), 2);
    assert_eq!(cache_contents(true), vec![(Item::ChainMail, 1), (Item::HealthPotion, 3), (Item::Crystal, 4), (Item::GoldCoin, 25)]);
    assert_eq!(cache_contents(false), vec![(Item::PipeRevolver, 1), (Item::HealthPotion, 2), (Item::GoldCoin, 14)]);
}

#[test]
fn roughening_takes_a_draw_at_each_wall_with_four_floor_neighbours() {
    // A 4 by 4 floor block with two notches, (5, 4) and (6, 6): each notch has five floor
    // neighbours, every other wall at most three.
    let block = || {
        let mut c = Carved::new(12);
        for y in 4..8 {
            for x in 4..8 {
                if (x, y) != (5, 4) && (x, y) != (6, 6) {
                    c.set(x, y);
                }
            }
        }
        c
    };
    let start = block().floor;
    // Draws go to (5, 4), (6, 6), then the second pass: (5, 4) again, (6, 6) again.
    let mut none = block();
    roughen_with(&mut none, &vec![false; 4]);
    assert_eq!(none.floor, start);
    let mut second = block();
    roughen_with(&mut second, &vec![false, true]);
    assert!(second.get(6, 6) && !second.get(5, 4));
    let mut first = block();
    roughen_with(&mut first, &vec![true]);
    assert!(first.get(5, 4) && !first.get(6, 6));
    let mut late = block();
    roughen_with(&mut late, &vec![false, false, true]);
    assert!(late.get(5, 4) && !late.get(6, 6));
    let mut both = block();
    roughen_with(&mut both, &vec![true, true]);
    assert!(both.get(5, 4) && both.get(6, 6));
    assert!(!both.get(3, 3));
}

#[test]
fn rolls_land_on_their_entries() {
    let table = [(4u32, 'a'), (0u32, 'b'), (6u32, 'c')];
    assert_eq!(weighted_at(&table, 0), 'a');
    assert_eq!(weighted_at(&table, 3), 'a');
    assert_eq!(weighted_at(&table, 4), 'c');
    assert_eq!(weighted_at(&table, 9), 'c');
}

#[test]
fn themes_reroll_a_repeat() {
    // Depth 1: rolls 0..4 are rocky, 4..7 fungal, 7..10 flooded.
    assert_eq!(CaveTheme::pick_at(1, None, 0, 9), CaveTheme::Rocky);
    assert_eq!(CaveTheme::pick_at(1, Some(CaveTheme::Rocky), 0, 9), CaveTheme::Flooded);
    assert_eq!(CaveTheme::pick_at(1, Some(CaveTheme::Fungal), 0, 9), CaveTheme::Rocky);
    // Deeper: 0 rocky, 1..3 fungal, 3..7 crystal, 7..10 molten.
    assert_eq!(CaveTheme::pick_at(5, Some(CaveTheme::Crystal), 3, 3), CaveTheme::Crystal);
    assert_eq!(CaveTheme::pick_at(5, None, 7, 0), CaveTheme::Molten);
}

#[test]
fn lair_draws_take_out_their_lairs() {
    let lairs = vec![(1, 1), (2, 2), (3, 3), (4, 4)];
    // The first draw takes (2, 2) and moves (4, 4) into its place.
    assert_eq!(lairs_picked(&lairs, &vec![1, 0]), vec![(2, 2), (1, 1)]);
    assert_eq!(lairs_picked(&lairs, &vec![1, 1]), vec![(2, 2), (4, 4)]);
    assert_eq!(lairs_picked(&lairs, &vec![]), vec![]);
}
