use space_qud::components::{Entity, GameState, Position, Tile, TileType};
use space_qud::faction::Faction;
use space_qud::game::{enemy_of_kind, Game};
use space_qud::map::TileMap;

fn level(w: usize, h: usize, fill: TileType) -> Vec<Vec<Tile>> {
    vec![vec![Tile::new(fill); w]; h]
}

/// Two 5 by 5 levels: walls around a floor interior, stairs down at (3, 3) on the first and
/// stairs up at (1, 1) on the second.
fn two_level_map() -> TileMap {
    let mut z0 = level(5, 5, TileType::Wall);
    let mut z1 = level(5, 5, TileType::Wall);
    for y in 1..4 {
        for x in 1..4 {
            z0[y][x] = Tile::new(TileType::Floor);
            z1[y][x] = Tile::new(TileType::Floor);
        }
    }
    z0[3][3] = Tile::new(TileType::StairsDown);
    z1[1][1] = Tile::new(TileType::StairsUp);
    z0[2][3] = Tile::new(TileType::Water);
    TileMap { tiles: vec![z0, z1], width: 5, height: 5, depth: 2 }
}

#[test]
fn new_tiles_are_hidden() {
    let t = Tile::new(TileType::Grass);
    assert_eq!(t.tile_type, TileType::Grass);
    assert!(!t.revealed && !t.visible);
}

#[test]
fn new_state_and_entities() {
    let s = GameState::new();
    assert_eq!(s.depth, 1);
    assert_eq!(s.player.pos, Position { x: 1, y: 1 });
    assert_eq!(s.player.name, "Player");
    assert!(s.entities.is_empty());
    let e = Entity::new(Position { x: 2, y: 3 }, 'g', "Goblin", "goblin", Faction::Hostile, true);
    assert_eq!((e.hp, e.max_hp), (10, 10));
    assert_eq!(e.sprite_name, "goblin");
}

#[test]
fn map_lookups_stay_on_the_grid() {
    let mut map = two_level_map();
    assert_eq!(map.get_tile(3, 3, 0).map(|t| t.tile_type), Some(TileType::StairsDown));
    assert!(map.get_tile(5, 0, 0).is_none());
    assert!(map.get_tile(0, 0, 2).is_none());
    assert!(map.get_tile(-1, 0, 0).is_none());
    if let Some(t) = map.get_tile_mut(1, 1, 0) {
        t.revealed = true;
    }
    assert!(map.get_tile(1, 1, 0).unwrap().revealed);
}

#[test]
fn start_positions_are_interior_floor() {
    let map = two_level_map();
    for _ in 0..20 {
        let p = map.find_start_position(0);
        assert!(p == Position { x: 1, y: 1 } || map.get_tile(p.x, p.y, 0).unwrap().tile_type == TileType::Floor);
        let q = map.find_exit_position(1);
        let t = map.get_tile(q.x, q.y, 1).unwrap().tile_type;
        assert!(q == Position { x: 1, y: 1 } || t == TileType::Floor || t == TileType::StairsUp);
    }
}

#[test]
fn base_world_layers() {
    let tiles = TileMap::create_base_world(3, 12, &[2, 3, 11]);
    assert_eq!(tiles[1][0].tile_type, TileType::Wall);
    assert_eq!(tiles[2][0].tile_type, TileType::Grass);
    assert_eq!(tiles[3][0].tile_type, TileType::Sand);
    assert_eq!(tiles[6][0].tile_type, TileType::Sand);
    assert_eq!(tiles[7][0].tile_type, TileType::Floor);
    assert_eq!(tiles[11][2].tile_type, TileType::Grass);
    assert_eq!(tiles[10][2].tile_type, TileType::Wall);
}

#[test]
fn smoothing_keeps_dense_cells() {
    let full = vec![vec![true; 4]; 4];
    let next = TileMap::smooth_cave(&full, 4, 4);
    assert!(next[1][1] && next[2][2]);
    assert!(!next[0][0] && !next[3][3]);
    let sparse = vec![vec![false; 4]; 4];
    assert!(!TileMap::smooth_cave(&sparse, 4, 4)[1][1]);
}

#[test]
fn game_moves_blocked_by_walls_and_water() {
    let mut game = Game::with_map(two_level_map());
    assert_eq!(game.state.entities.len(), 5);
    game.state.player.pos = Position { x: 1, y: 1 };
    game.player_move(-1, 0);
    assert_eq!(game.state.player.pos, Position { x: 1, y: 1 });
    game.player_move(1, 1);
    assert_eq!(game.state.player.pos, Position { x: 2, y: 2 });
    game.player_move(1, 0);
    assert_eq!(game.state.player.pos, Position { x: 2, y: 2 });
    // The tiles around the player are now visible.
    assert!(game.current_level_tiles()[2][2].visible);
}

#[test]
fn stairs_change_level() {
    let mut game = Game::with_map(two_level_map());
    game.state.player.pos = Position { x: 1, y: 2 };
    game.descend();
    assert_eq!(game.current_z, 0);
    game.state.player.pos = Position { x: 3, y: 3 };
    game.descend();
    assert_eq!(game.current_z, 1);
    assert_eq!(game.state.depth, 2);
    game.state.player.pos = Position { x: 1, y: 1 };
    game.ascend();
    assert_eq!(game.current_z, 0);
    assert_eq!(game.state.depth, 1);
}

#[test]
fn connect_levels_links_each_level_below() {
    let mut tiles = vec![level(6, 6, TileType::Floor), level(6, 6, TileType::Floor), level(6, 6, TileType::Wall)];
    TileMap::connect_levels(&mut tiles, 6, 6, 3);
    for z in 0..2 {
        let linked = (1..5).any(|y| (1..5).any(|x| tiles[z][y][x].tile_type == TileType::StairsDown
            && tiles[z + 1][y][x].tile_type == TileType::StairsUp));
        assert!(linked, "level {z} not linked");
    }
}

#[test]
fn lakes_flood_only_grass_and_sand() {
    let mut tiles = level(12, 6, TileType::Grass);
    tiles[1][6] = Tile::new(TileType::Wall);
    TileMap::dig_lake(&mut tiles, 12, &[1; 12], (5, 3, 2));
    for x in 5..8 {
        for y in 1..3 {
            let want = if (x, y) == (6, 1) { TileType::Wall } else { TileType::Water };
            assert_eq!(tiles[y][x].tile_type, want);
        }
    }
    assert_eq!(tiles[1][8].tile_type, TileType::Grass);
    assert_eq!(tiles[3][5].tile_type, TileType::Grass);
}

#[test]
fn trees_need_grass_on_both_sides() {
    let mut tiles = level(8, 3, TileType::Grass);
    tiles[1][5] = Tile::new(TileType::Sand);
    TileMap::plant_trees(&mut tiles, 8, &[1; 8], &vec![true, true, true, true]);
    let row: Vec<TileType> = tiles[1].iter().map(|t| t.tile_type).collect();
    assert_eq!(row, vec![TileType::Grass, TileType::Grass, TileType::Wall, TileType::Grass, TileType::Grass,
        TileType::Sand, TileType::Grass, TileType::Grass]);
}

#[test]
fn caves_grow_from_dense_seeds() {
    let mut tiles = level(12, 14, TileType::Floor);
    let draws = vec![vec![true; 12]; 14];
    TileMap::carve_caves_with(&mut tiles, 12, 14, &draws);
    assert_eq!(tiles[6][5].tile_type, TileType::Wall);
    assert_eq!(tiles[6][1].tile_type, TileType::Floor);
    assert_eq!(tiles[2][5].tile_type, TileType::Floor);
    let mut untouched = level(12, 14, TileType::Floor);
    TileMap::carve_caves_with(&mut untouched, 12, 14, &vec![vec![false; 12]; 14]);
    assert!(untouched.iter().all(|r| r.iter().all(|t| t.tile_type == TileType::Floor)));
}

#[test]
fn start_is_the_first_draw_on_floor() {
    let map = two_level_map();
    assert_eq!(map.first_floor(0, &vec![(0, 0), (3, 2), (1, 2)]), Position { x: 1, y: 2 });
    assert_eq!(map.first_floor(0, &vec![(3, 3), (0, 4)]), Position { x: 1, y: 1 });
    assert_eq!(map.first_floor(0, &vec![]), Position { x: 1, y: 1 });
    assert_eq!(map.first_floor(0, &vec![(9, 9), (2, 3)]), Position { x: 2, y: 3 });
}

#[test]
fn exit_is_the_first_draw_on_up_stairs() {
    let map = two_level_map();
    assert_eq!(map.first_exit(1, &vec![(2, 2), (1, 1)], &vec![(3, 3)]), Position { x: 1, y: 1 });
    assert_eq!(map.first_exit(0, &vec![(2, 2), (1, 1)], &vec![(3, 3), (2, 1)]), Position { x: 2, y: 1 });
    assert_eq!(map.first_exit(0, &vec![], &vec![]), Position { x: 1, y: 1 });
}

#[test]
fn enemy_kinds_by_draw() {
    let at = Position { x: 2, y: 3 };
    let g = enemy_of_kind(0, at);
    assert_eq!((g.name.as_str(), g.char, g.pos), ("Goblin", 'g', at));
    assert_eq!(enemy_of_kind(1, at).name, "Slime");
    assert_eq!(enemy_of_kind(2, at).name, "Dragon");
    assert_eq!(enemy_of_kind(2, at).faction, Faction::Hostile);
    assert_eq!(enemy_of_kind(2, at).hp, 10);
}

fn floors(n: usize) -> Vec<Vec<Vec<Tile>>> {
    let mut z = level(5, 5, TileType::Wall);
    for y in 1..4 {
        for x in 1..4 {
            z[y][x] = Tile::new(TileType::Floor);
        }
    }
    vec![z; n]
}

#[test]
fn stairs_go_where_the_tries_say() {
    let mut tiles = floors(2);
    TileMap::connect_levels_with(&mut tiles, 5, 5, 2, &vec![vec![(0, 0), (2, 3), (1, 1)]], &vec![(1, vec![(2, 3), (3, 1)])]);
    assert_eq!(tiles[0][3][2].tile_type, TileType::StairsDown);
    assert_eq!(tiles[1][3][2].tile_type, TileType::StairsUp);
    assert_eq!(tiles[0][1][1].tile_type, TileType::Floor);
    // The extra up-staircase skips (2, 3), no longer floor, and lands on (3, 1).
    assert_eq!(tiles[1][1][3].tile_type, TileType::StairsUp);
}

#[test]
fn without_a_hit_each_row_gets_a_pair() {
    let mut tiles = floors(2);
    TileMap::connect_levels_with(&mut tiles, 5, 5, 2, &vec![vec![]], &vec![]);
    for y in 1..4 {
        assert_eq!(tiles[0][y][1].tile_type, TileType::StairsDown);
        assert_eq!(tiles[1][y][1].tile_type, TileType::StairsUp);
        assert_eq!(tiles[0][y][2].tile_type, TileType::Floor);
    }
}
