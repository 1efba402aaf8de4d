//! The simple tile world of the classic mode: typed tiles, entities and the game state.
use vstd::prelude::*;
use crate::faction::Faction;

verus! {

broadcast use vstd::string::to_string_from_display_ensures_for_str;

#[derive(Clone, Copy, Debug, PartialEq, Eq, Structural)]
pub enum TileType {
    Floor,
    Wall,
    StairsDown,
    StairsUp,
    Water,
    Grass,
    Sand,
}

#[derive(Clone, Copy, Debug, PartialEq, Eq, Structural)]
pub struct Tile {
    pub tile_type: TileType,
    pub revealed: bool,
    pub visible: bool,
}

impl Tile {
    pub open spec fn spec_new(tile_type: TileType) -> Tile {
        Tile { tile_type, revealed: false, visible: false }
    }

    /// A tile that has never been seen.
    #[verifier::when_used_as_spec(spec_new)]
    pub fn new(tile_type: TileType) -> (t: Self)
        ensures
            t == (Tile { tile_type, revealed: false, visible: false }),
    {
        Tile { tile_type, revealed: false, visible: false }
    }
}

#[derive(Clone, Copy, Debug, PartialEq, Eq, Structural)]
pub struct Position {
    pub x: i32,
    pub y: i32,
}

#[derive(Clone, Debug)]
pub struct Entity {
    pub pos: Position,
    pub char: char,
    pub name: String,
    pub blocks: bool,
    pub hp: i32,
    pub max_hp: i32,
    pub sprite_name: String,
    pub faction: Faction,
}

impl Entity {
    /// A creature at full health (10 of 10).
    pub fn new(pos: Position, char: char, name: &str, sprite_name: &str, faction: Faction, blocks: bool) -> (e: Self)
        ensures
            e.pos == pos,
            e.char == char,
            e.name@ == name@,
            e.sprite_name@ == sprite_name@,
            e.faction == faction,
            e.blocks == blocks,
            e.hp == 10,
            e.max_hp == 10,
    {
        Entity {
            pos,
            char,
            name: name.to_string(),
            sprite_name: sprite_name.to_string(),
            faction,
            blocks,
            hp: 10,
            max_hp: 10,
        }
    }
}

#[derive(Clone, Debug)]
pub struct GameState {
    pub depth: u32,
    pub player: Entity,
    pub entities: Vec<Entity>,
}

impl GameState {
    /// Depth 1, the player at (1, 1), nobody else around.
    pub fn new() -> (g: Self)
        ensures
            g.depth == 1,
            g.player.pos == (Position { x: 1, y: 1 }),
            g.player.char == '@',
            g.player.name@ == "Player"@,
            g.player.sprite_name@ == "player"@,
            g.player.faction == Faction::Player,
            g.player.blocks,
            g.player.hp == 10,
            g.player.max_hp == 10,
            g.entities@.len() == 0,
    {
        GameState {
            depth: 1,
            player: Entity::new(Position { x: 1, y: 1 }, '@', "Player", "player", Faction::Player, true),
            entities: Vec::new(),
        }
    }
}

} // verus!
