//! Tile types of the world grid. Every tile of the grid has one of these
//! types, fixed at world creation, and at most one entity standing on it.

use vstd::prelude::*;

verus! {

/// The tile types correspond to textures in a sprite map; many exist only
/// for visual variety.
#[derive(Debug, Clone, Copy, Hash, PartialEq, Eq, Structural)]
pub enum TileType {
    Grass,
    GrassTreeA,
    GrassTreeB,
    GrassRock,
    Snow,
    SnowTree,
    SnowRock,
    Water,
    Sand,
    SandPalm,
    SandRock,
    SandTreeDead,
    Tundra,
    TundraTreeDead,
    TundraTree,
    WaterRock,
    Dirt,
    DirtTreeDead,
    DirtRock,
    WoodHorizontal,
    WoodVertical,
    Mud,
    MudDried,
    Lava,
    Sludge,
    SludgeDried,
    Rock,
    Brick,
}

impl TileType {
    /// Whether agents on foot may stand on a tile of this type.
    pub open spec fn spec_walkable(self) -> bool {
        match self {
            TileType::Grass
            | TileType::Snow
            | TileType::Sand
            | TileType::Tundra
            | TileType::Dirt
            | TileType::WoodHorizontal
            | TileType::WoodVertical
            | TileType::Mud
            | TileType::MudDried
            | TileType::SludgeDried
            | TileType::Rock
            | TileType::Brick => true,
            _ => false,
        }
    }

    /// True for tiles agents can walk on, provided no entity stands on top.
    pub fn walkable(self) -> (r: bool)
        ensures
            r == self.spec_walkable(),
    {
        match self {
            TileType::Grass
            | TileType::Snow
            | TileType::Sand
            | TileType::Tundra
            | TileType::Dirt
            | TileType::WoodHorizontal
            | TileType::WoodVertical
            | TileType::Mud
            | TileType::MudDried
            | TileType::SludgeDried
            | TileType::Rock
            | TileType::Brick => true,
            _ => false,
        }
    }

    /// The index of this tile's texture in the sprite map.
    pub fn texture(self) -> (r: i32)
        ensures
            0 <= r < 28,
    {
        match self {
            TileType::Grass => 0,
            TileType::GrassTreeA => 1,
            TileType::GrassTreeB => 2,
            TileType::GrassRock => 3,
            TileType::Snow => 4,
            TileType::SnowTree => 5,
            TileType::SnowRock => 6,
            TileType::Water => 7,
            TileType::Sand => 8,
            TileType::SandPalm => 9,
            TileType::SandRock => 10,
            TileType::SandTreeDead => 11,
            TileType::Tundra => 12,
            TileType::TundraTreeDead => 13,
            TileType::TundraTree => 14,
            TileType::WaterRock => 15,
            TileType::Dirt => 16,
            TileType::DirtTreeDead => 17,
            TileType::DirtRock => 18,
            TileType::WoodHorizontal => 19,
            TileType::WoodVertical => 20,
            TileType::Mud => 21,
            TileType::MudDried => 22,
            TileType::Lava => 23,
            TileType::Sludge => 24,
            TileType::SludgeDried => 25,
            TileType::Rock => 26,
            TileType::Brick => 27,
        }
    }
}

} // verus!
