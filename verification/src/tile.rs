use vstd::prelude::*;

verus! {

/// Terrain of one map cell.
#[derive(Clone, Copy, PartialEq, Eq, Structural, Debug, Hash)]
pub enum Tile {
    Vacuum,
    Air,
    Blank,
    DeckPlate,
    StationFloor,
    StationWall,
    Window,
    Conduit,
    ShipDock,
    Door,
    StairsUp,
    StairsDown,
    Wall,
    WoodFloor,
    WoodWall,
    WoodTile,
    Fence,
    Road,
    Grass,
    TallGrass,
    Bush,
    Ground,
    BrightGround,
    BrightCobbleWall,
    Sand,
    Ash,
    SmallRocks,
    Regolith,
    CaveFloor,
    CaveWall,
    IceFloor,
    IceWall,
    AlienSoil,
    AlienGrass,
    AsteroidFloor,
    AsteroidRock,
    CrystalFormation,
    CrystalGrowth,
    Water,
    ShallowWater,
    DeepWater,
    AlienFluid,
    BioluminescentPool,
    CrimsonPool,
    AcidPool,
    AmberPool,
    Lava,
}

impl Tile {
    /// Whether a creature can stand on the tile.
    pub open spec fn spec_walkable(self) -> bool {
        match self {
            Tile::Vacuum | Tile::Air | Tile::DeckPlate | Tile::StationFloor | Tile::Conduit
            | Tile::ShipDock | Tile::Door | Tile::StairsUp | Tile::StairsDown
            | Tile::WoodFloor | Tile::WoodTile | Tile::Road | Tile::Grass | Tile::TallGrass
            | Tile::Bush | Tile::Ground | Tile::BrightGround | Tile::Sand | Tile::Ash
            | Tile::SmallRocks | Tile::Regolith | Tile::CaveFloor | Tile::IceFloor
            | Tile::AlienSoil | Tile::AlienGrass | Tile::AsteroidFloor | Tile::ShallowWater
            | Tile::BioluminescentPool | Tile::CrimsonPool | Tile::AmberPool => true,
            _ => false,
        }
    }

    /// Whether the tile stops line of sight.
    pub open spec fn spec_opaque(self) -> bool {
        match self {
            Tile::Blank | Tile::StationWall | Tile::Wall | Tile::WoodWall
            | Tile::BrightCobbleWall | Tile::CaveWall | Tile::IceWall | Tile::AsteroidRock => true,
            _ => false,
        }
    }

    /// Whether the tile is a body of liquid.
    pub open spec fn spec_is_liquid(self) -> bool {
        match self {
            Tile::Water | Tile::ShallowWater | Tile::DeepWater | Tile::AlienFluid
            | Tile::BioluminescentPool | Tile::CrimsonPool | Tile::AcidPool | Tile::AmberPool
            | Tile::Lava => true,
            _ => false,
        }
    }

    #[verifier::when_used_as_spec(spec_walkable)]
    pub fn walkable(self) -> (b: bool)
        ensures
            b == self.spec_walkable(),
    {
        match self {
            Tile::Vacuum | Tile::Air | Tile::DeckPlate | Tile::StationFloor | Tile::Conduit
            | Tile::ShipDock | Tile::Door | Tile::StairsUp | Tile::StairsDown
            | Tile::WoodFloor | Tile::WoodTile | Tile::Road | Tile::Grass | Tile::TallGrass
            | Tile::Bush | Tile::Ground | Tile::BrightGround | Tile::Sand | Tile::Ash
            | Tile::SmallRocks | Tile::Regolith | Tile::CaveFloor | Tile::IceFloor
            | Tile::AlienSoil | Tile::AlienGrass | Tile::AsteroidFloor | Tile::ShallowWater
            | Tile::BioluminescentPool | Tile::CrimsonPool | Tile::AmberPool => true,
            _ => false,
        }
    }

    #[verifier::when_used_as_spec(spec_opaque)]
    pub fn opaque(self) -> (b: bool)
        ensures
            b == self.spec_opaque(),
    {
        match self {
            Tile::Blank | Tile::StationWall | Tile::Wall | Tile::WoodWall
            | Tile::BrightCobbleWall | Tile::CaveWall | Tile::IceWall | Tile::AsteroidRock => true,
            _ => false,
        }
    }

    #[verifier::when_used_as_spec(spec_is_liquid)]
    pub fn is_liquid(self) -> (b: bool)
        ensures
            b == self.spec_is_liquid(),
    {
        match self {
            Tile::Water | Tile::ShallowWater | Tile::DeepWater | Tile::AlienFluid
            | Tile::BioluminescentPool | Tile::CrimsonPool | Tile::AcidPool | Tile::AmberPool
            | Tile::Lava => true,
            _ => false,
        }
    }
}

} // verus!
