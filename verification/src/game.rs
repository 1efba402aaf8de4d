//! The classic-mode game loop state: the player walking a stacked tile map.
use vstd::prelude::*;
use crate::components::{Entity, GameState, Position, Tile, TileType};
use crate::faction::Faction;
use crate::map::{TileMap, grid3_dims};
use crate::rng::{thread_range_i32, thread_rng};

verus! {

pub struct Game {
    pub state: GameState,
    pub map: TileMap,
    pub current_z: usize,
}

/// A start position on level `z`: what `find_start_position` gives for some thousand interior
/// draws (the first on floor, else `(1, 1)`).
pub open spec fn start_spot(map: TileMap, z: int, p: Position) -> bool {
    exists|draws: Seq<(usize, usize)>| draws.len() == 1000 && #[trigger] map.interior_draws(draws) && p == map.start_from(z, draws)
}

/// An arrival position after climbing to level `z`: what `find_exit_position` gives for some
/// two thousand interior draws.
pub open spec fn exit_spot(map: TileMap, z: int, p: Position) -> bool {
    exists|draws: Seq<(usize, usize)>, more: Seq<(usize, usize)>| draws.len() == 1000 && more.len() == 1000
        && #[trigger] map.interior_draws(draws) && #[trigger] map.interior_draws(more) && p == map.exit_from(z, draws, more)
}

/// The enemy of kind `kind` (0 goblin, 1 slime, any other dragon) at `pos`.
pub open spec fn enemy_is(kind: i32, pos: Position, e: Entity) -> bool {
    &&& (if kind == 0 {
        e.name@ == "Goblin"@ && e.sprite_name@ == "goblin"@ && e.char == 'g'
    } else if kind == 1 {
        e.name@ == "Slime"@ && e.sprite_name@ == "slime"@ && e.char == 's'
    } else {
        e.name@ == "Dragon"@ && e.sprite_name@ == "dragon"@ && e.char == 'D'
    })
    &&& e.faction == Faction::Hostile
    &&& e.blocks
    &&& e.hp == 10 && e.max_hp == 10
    &&& e.pos == pos
}

/// The enemy a kind draw of `kind` makes at `pos`.
pub fn enemy_of_kind(kind: i32, pos: Position) -> (e: Entity)
    ensures
        enemy_is(kind, pos, e),
{
    if kind == 0 {
        Entity::new(Position { x: pos.x, y: pos.y }, 'g', "Goblin", "goblin", Faction::Hostile, true)
    } else if kind == 1 {
        Entity::new(Position { x: pos.x, y: pos.y }, 's', "Slime", "slime", Faction::Hostile, true)
    } else {
        Entity::new(Position { x: pos.x, y: pos.y }, 'D', "Dragon", "dragon", Faction::Hostile, true)
    }
}

/// The enemy some kind draw in `0..3` makes, standing on a start position of level `z`.
pub open spec fn spawned_enemy(map: TileMap, z: int, e: Entity) -> bool {
    &&& exists|kind: i32| 0 <= kind < 3 && #[trigger] enemy_is(kind, e.pos, e)
    &&& start_spot(map, z, e.pos)
}

/// Within the 13 by 13 square the player lights up around `pos`.
pub open spec fn in_sight_box(pos: Position, x: int, y: int) -> bool {
    -6 <= x - pos.x <= 6 && -6 <= y - pos.y <= 6
}

/// Level `z` of `new_tiles` is level `z` of `old_tiles` with exactly the sight box visible and
/// the sight box added to what was revealed; the other levels are unchanged.
pub open spec fn sight_applied(old_tiles: Seq<Vec<Vec<Tile>>>, new_tiles: Seq<Vec<Vec<Tile>>>, width: int, height: int, depth: int, z: int, pos: Position) -> bool {
    &&& forall|z2: int| 0 <= z2 < depth && z2 != z ==> #[trigger] new_tiles[z2] == old_tiles[z2]
    &&& forall|x: int, y: int| 0 <= x < width && 0 <= y < height ==> #[trigger] new_tiles[z]@[y]@[x] == (Tile {
        tile_type: old_tiles[z]@[y]@[x].tile_type,
        revealed: old_tiles[z]@[y]@[x].revealed || in_sight_box(pos, x, y),
        visible: in_sight_box(pos, x, y),
    })
}

/// A position that the sight box around it keeps within `i32`.
pub open spec fn pos_fits(p: Position) -> bool {
    -0x4000_0000 <= p.x <= 0x4000_0000 && -0x4000_0000 <= p.y <= 0x4000_0000
}

impl Game {
    pub open spec fn wf(&self) -> bool {
        &&& self.map.wf()
        &&& 3 <= self.map.width <= 0x4000_0000
        &&& 3 <= self.map.height <= 0x4000_0000
        &&& self.current_z < self.map.depth
        &&& pos_fits(self.state.player.pos)
    }

    /// Start a game on `map`: the player on a start position of the surface, fresh enemies around.
    pub fn with_map(map: TileMap) -> (game: Self)
        requires
            map.wf(),
            3 <= map.width <= 0x4000_0000,
            3 <= map.height <= 0x4000_0000,
            map.depth >= 1,
        ensures
            game.wf(),
            game.map == map,
            game.current_z == 0,
            game.state.depth == 1,
            start_spot(map, 0, game.state.player.pos),
            game.state.player.name@ == "Player"@,
            game.state.player.faction == Faction::Player,
            game.state.entities@.len() == 5,
            forall|i: int| 0 <= i < 5 ==> spawned_enemy(map, 0, #[trigger] game.state.entities@[i]),
    {
        let current_z: usize = 0;
        let start_pos = map.find_start_position(current_z);
        let mut game = Game { state: GameState::new(), map, current_z };
        game.state.player.pos = start_pos;
        game.spawn_enemies();
        game
    }

    /// Replace the enemies by five fresh ones of random kinds at start positions of the
    /// current level.
    fn spawn_enemies(&mut self)
        requires
            old(self).wf(),
        ensures
            final(self).map == old(self).map,
            final(self).current_z == old(self).current_z,
            final(self).state.depth == old(self).state.depth,
            final(self).state.player == old(self).state.player,
            final(self).state.entities@.len() == 5,
            forall|i: int| 0 <= i < 5 ==> spawned_enemy(old(self).map, old(self).current_z as int, #[trigger] final(self).state.entities@[i]),
    {
        let mut rng = thread_rng();
        let mut enemies: Vec<Entity> = Vec::new();
        let mut i: usize = 0;
        while i < 5
            invariant
                self.wf(),
                i <= 5,
                enemies@.len() == i,
                forall|j: int| 0 <= j < i ==> spawned_enemy(self.map, self.current_z as int, #[trigger] enemies@[j]),
            decreases 5 - i,
        {
            let pos = self.map.find_start_position(self.current_z);
            let enemy_type = thread_range_i32(&mut rng, 0, 3);
            let e = enemy_of_kind(enemy_type, pos);
            enemies.push(e);
            i = i + 1;
        }
        self.state.entities = enemies;
    }

    /// Light up the 13 by 13 square around the player on the current level, and only it.
    fn update_fov(&mut self)
        requires
            old(self).wf(),
        ensures
            final(self).wf(),
            final(self).state == old(self).state,
            final(self).current_z == old(self).current_z,
            final(self).map.width == old(self).map.width,
            final(self).map.height == old(self).map.height,
            final(self).map.depth == old(self).map.depth,
            final(self).map.tiles@.len() == old(self).map.tiles@.len(),
            sight_applied(
                old(self).map.tiles@,
                final(self).map.tiles@,
                old(self).map.width as int,
                old(self).map.height as int,
                old(self).map.depth as int,
                old(self).current_z as int,
                old(self).state.player.pos,
            ),
    {
        let player_pos = self.state.player.pos;
        let z = self.current_z;
        let ghost orig = self.map.tiles@;
        let ghost st = self.state;
        let ghost w = self.map.width as int;
        let ghost h = self.map.height as int;
        let ghost d = self.map.depth as int;
        let mut y: usize = 0;
        while y < self.map.height
            invariant
                self.wf(),
                self.state.player.pos == player_pos,
                self.state == st,
                self.current_z == z,
                w == self.map.width,
                h == self.map.height,
                d == self.map.depth,
                grid3_dims(orig, w, h, d),
                forall|z2: int| 0 <= z2 < d && z2 != z ==> #[trigger] self.map.tiles@[z2] == orig[z2],
                forall|cx: int, cy: int| 0 <= cx < w && 0 <= cy < h ==> #[trigger] self.map.tiles@[z as int]@[cy]@[cx] == (Tile {
                    tile_type: orig[z as int]@[cy]@[cx].tile_type,
                    revealed: orig[z as int]@[cy]@[cx].revealed,
                    visible: if cy < y { false } else { orig[z as int]@[cy]@[cx].visible },
                }),
            decreases h - y,
        {
            let mut x: usize = 0;
            while x < self.map.width
                invariant
                    self.wf(),
                    self.state.player.pos == player_pos,
                    self.state == st,
                    self.current_z == z,
                    y < h,
                    w == self.map.width,
                    h == self.map.height,
                    d == self.map.depth,
                    grid3_dims(orig, w, h, d),
                    forall|z2: int| 0 <= z2 < d && z2 != z ==> #[trigger] self.map.tiles@[z2] == orig[z2],
                    forall|cx: int, cy: int| 0 <= cx < w && 0 <= cy < h ==> #[trigger] self.map.tiles@[z as int]@[cy]@[cx] == (Tile {
                        tile_type: orig[z as int]@[cy]@[cx].tile_type,
                        revealed: orig[z as int]@[cy]@[cx].revealed,
                        visible: if cy < y || (cy == y && cx < x) { false } else { orig[z as int]@[cy]@[cx].visible },
                    }),
                decreases w - x,
            {
                self.map.tiles[z][y][x].visible = false;
                x = x + 1;
            }
            y = y + 1;
        }
        let mut dy: i32 = -6;
        while dy <= 6
            invariant
                self.wf(),
                self.state.player.pos == player_pos,
                self.state == st,
                self.current_z == z,
                -6 <= dy <= 7,
                w == self.map.width,
                h == self.map.height,
                d == self.map.depth,
                grid3_dims(orig, w, h, d),
                forall|z2: int| 0 <= z2 < d && z2 != z ==> #[trigger] self.map.tiles@[z2] == orig[z2],
                forall|cx: int, cy: int| 0 <= cx < w && 0 <= cy < h ==> #[trigger] self.map.tiles@[z as int]@[cy]@[cx] == (Tile {
                    tile_type: orig[z as int]@[cy]@[cx].tile_type,
                    revealed: orig[z as int]@[cy]@[cx].revealed || (in_sight_box(player_pos, cx, cy) && cy - player_pos.y < dy),
                    visible: in_sight_box(player_pos, cx, cy) && cy - player_pos.y < dy,
                }),
            decreases 7 - dy,
        {
            let mut dx: i32 = -6;
            while dx <= 6
                invariant
                    self.wf(),
                    self.state.player.pos == player_pos,
                    self.state == st,
                    self.current_z == z,
                    -6 <= dy <= 6,
                    -6 <= dx <= 7,
                    w == self.map.width,
                    h == self.map.height,
                    d == self.map.depth,
                    grid3_dims(orig, w, h, d),
                    forall|z2: int| 0 <= z2 < d && z2 != z ==> #[trigger] self.map.tiles@[z2] == orig[z2],
                    forall|cx: int, cy: int| 0 <= cx < w && 0 <= cy < h ==> #[trigger] self.map.tiles@[z as int]@[cy]@[cx] == (Tile {
                        tile_type: orig[z as int]@[cy]@[cx].tile_type,
                        revealed: orig[z as int]@[cy]@[cx].revealed || (in_sight_box(player_pos, cx, cy) && (cy - player_pos.y
                            < dy || (cy - player_pos.y == dy && cx - player_pos.x < dx))),
                        visible: in_sight_box(player_pos, cx, cy) && (cy - player_pos.y < dy || (cy - player_pos.y == dy && cx
                            - player_pos.x < dx)),
                    }),
                decreases 7 - dx,
            {
                let x = player_pos.x + dx;
                let y = player_pos.y + dy;
                if x >= 0 && y >= 0 {
                    let x = x as usize;
                    let y = y as usize;
                    if x < self.map.width && y < self.map.height {
                        self.map.tiles[z][y][x].visible = true;
                        self.map.tiles[z][y][x].revealed = true;
                    }
                }
                dx = dx + 1;
            }
            dy = dy + 1;
        }
    }

    pub fn current_level_tiles(&self) -> (t: &Vec<Vec<Tile>>)
        requires
            self.current_z < self.map.tiles@.len(),
        ensures
            *t == self.map.tiles@[self.current_z as int],
    {
        &self.map.tiles[self.current_z]
    }
}

} // verus!

verus! {

impl Game {
    /// The tile the player stands on, if it is on the map.
    pub open spec fn tile_under_player(&self) -> Option<Tile> {
        let p = self.state.player.pos;
        if self.map.in_range(p.x as int, p.y as int, self.current_z as int) {
            Some(self.map.tile(p.x as int, p.y as int, self.current_z as int))
        } else {
            None
        }
    }

    /// The player stands on a down-staircase above the deepest level.
    pub open spec fn can_descend(&self) -> bool {
        &&& self.tile_under_player() matches Some(t) && t.tile_type == TileType::StairsDown
        &&& self.current_z < self.map.depth - 1
    }

    /// The player stands on an up-staircase below the surface.
    pub open spec fn can_ascend(&self) -> bool {
        &&& self.tile_under_player() matches Some(t) && t.tile_type == TileType::StairsUp
        &&& self.current_z > 0
    }

    /// The player may step onto `(x, y)`: it is on the current level and neither wall nor water.
    pub open spec fn passable(&self, x: int, y: int) -> bool {
        &&& self.map.in_range(x, y, self.current_z as int)
        &&& self.map.tile(x, y, self.current_z as int).tile_type != TileType::Wall
        &&& self.map.tile(x, y, self.current_z as int).tile_type != TileType::Water
    }

    /// Step by `(dx, dy)` unless the target is off the map, a wall or water; then refresh sight.
    pub fn player_move(&mut self, dx: i32, dy: i32)
        requires
            old(self).wf(),
            crate::level::i32_range(old(self).state.player.pos.x + dx),
            crate::level::i32_range(old(self).state.player.pos.y + dy),
        ensures
            final(self).wf(),
            final(self).current_z == old(self).current_z,
            final(self).state.depth == old(self).state.depth,
            final(self).state.entities == old(self).state.entities,
            final(self).state.player.pos == if old(self).passable(
                old(self).state.player.pos.x + dx,
                old(self).state.player.pos.y + dy,
            ) {
                Position { x: (old(self).state.player.pos.x + dx) as i32, y: (old(self).state.player.pos.y + dy) as i32 }
            } else {
                old(self).state.player.pos
            },
            final(self).map.width == old(self).map.width,
            final(self).map.height == old(self).map.height,
            final(self).map.depth == old(self).map.depth,
            sight_applied(
                old(self).map.tiles@,
                final(self).map.tiles@,
                old(self).map.width as int,
                old(self).map.height as int,
                old(self).map.depth as int,
                old(self).current_z as int,
                final(self).state.player.pos,
            ),
    {
        let new_x = self.state.player.pos.x + dx;
        let new_y = self.state.player.pos.y + dy;
        let target = match self.map.get_tile(new_x, new_y, self.current_z) {
            Some(t) => Some(*t),
            None => None,
        };
        if let Some(tile) = target {
            if tile.tile_type != TileType::Wall && tile.tile_type != TileType::Water {
                self.state.player.pos.x = new_x;
                self.state.player.pos.y = new_y;
            }
        }
        self.update_fov();
    }

    /// Take the down-staircase under the player: one level deeper, a fresh start position and
    /// fresh enemies; otherwise nothing happens.
    pub fn descend(&mut self)
        requires
            old(self).wf(),
            old(self).can_descend() ==> old(self).state.depth < u32::MAX,
        ensures
            final(self).wf(),
            !old(self).can_descend() ==> *final(self) == *old(self),
            old(self).can_descend() ==> {
                &&& final(self).current_z == old(self).current_z + 1
                &&& final(self).state.depth == old(self).state.depth + 1
                &&& start_spot(old(self).map, final(self).current_z as int, final(self).state.player.pos)
                &&& final(self).state.entities@.len() == 5
                &&& forall|i: int| 0 <= i < 5 ==> spawned_enemy(old(self).map, final(self).current_z as int, #[trigger] final(self).state.entities@[i])
                &&& final(self).map.width == old(self).map.width
                &&& final(self).map.height == old(self).map.height
                &&& final(self).map.depth == old(self).map.depth
                &&& sight_applied(
                    old(self).map.tiles@,
                    final(self).map.tiles@,
                    old(self).map.width as int,
                    old(self).map.height as int,
                    old(self).map.depth as int,
                    final(self).current_z as int,
                    final(self).state.player.pos,
                )
            },
    {
        let here = match self.map.get_tile(self.state.player.pos.x, self.state.player.pos.y, self.current_z) {
            Some(t) => Some(*t),
            None => None,
        };
        if let Some(tile) = here {
            if tile.tile_type == TileType::StairsDown && self.current_z < self.map.depth - 1 {
                self.current_z = self.current_z + 1;
                self.state.depth = self.state.depth + 1;
                let start_pos = self.map.find_start_position(self.current_z);
                self.state.player.pos = start_pos;
                self.spawn_enemies();
                self.update_fov();
            }
        }
    }

    /// Take the up-staircase under the player: one level up, arriving on an up-stair there
    /// when one is found; otherwise nothing happens.
    pub fn ascend(&mut self)
        requires
            old(self).wf(),
            old(self).can_ascend() ==> old(self).state.depth >= 1,
        ensures
            final(self).wf(),
            !old(self).can_ascend() ==> *final(self) == *old(self),
            old(self).can_ascend() ==> {
                &&& final(self).current_z == old(self).current_z - 1
                &&& final(self).state.depth == old(self).state.depth - 1
                &&& exit_spot(old(self).map, final(self).current_z as int, final(self).state.player.pos)
                &&& final(self).state.entities@.len() == 5
                &&& forall|i: int| 0 <= i < 5 ==> spawned_enemy(old(self).map, final(self).current_z as int, #[trigger] final(self).state.entities@[i])
                &&& final(self).map.width == old(self).map.width
                &&& final(self).map.height == old(self).map.height
                &&& final(self).map.depth == old(self).map.depth
                &&& sight_applied(
                    old(self).map.tiles@,
                    final(self).map.tiles@,
                    old(self).map.width as int,
                    old(self).map.height as int,
                    old(self).map.depth as int,
                    final(self).current_z as int,
                    final(self).state.player.pos,
                )
            },
    {
        let here = match self.map.get_tile(self.state.player.pos.x, self.state.player.pos.y, self.current_z) {
            Some(t) => Some(*t),
            None => None,
        };
        if let Some(tile) = here {
            if tile.tile_type == TileType::StairsUp && self.current_z > 0 {
                self.current_z = self.current_z - 1;
                self.state.depth = self.state.depth - 1;
                let start_pos = self.map.find_exit_position(self.current_z);
                self.state.player.pos = start_pos;
                self.spawn_enemies();
                self.update_fov();
            }
        }
    }
}

} // verus!
