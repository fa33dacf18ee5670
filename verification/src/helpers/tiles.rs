//! Tiles: what the terrain is, and who lights and sees it.

use vstd::prelude::*;
use std::collections::HashMap;
use crate::helpers::map::SeenLevel;
use crate::systems::illumination::IlluminationLevel;

verus! {

/// A terrain variant. The first three are roles that a theme turns into one
/// of the concrete variants; only concrete variants are drawn or placed.
#[derive(Copy, Clone, Debug, PartialEq, Eq, Structural, Hash)]
pub enum TileType {
    ThemeFloor,
    ThemeWall,
    ThemeExit,
    FloorSandStone0,
    WallShoals2,
    GatewaysLairEnter,
    FloorDirt0,
    WallTreesMangrove1,
    GatewaysDepthsEnter,
}

impl TileType {
    /// The variant is a role, not yet a concrete terrain.
    pub open spec fn is_role(self) -> bool {
        self is ThemeFloor || self is ThemeWall || self is ThemeExit
    }

    /// The variant is one of the concrete floors.
    pub open spec fn is_floor(self) -> bool {
        self is FloorSandStone0 || self is FloorDirt0
    }

    /// Where the variant's picture sits in the tile sheet.
    pub open spec fn texture_index(self) -> int {
        match self {
            TileType::FloorSandStone0 => 51,
            TileType::WallShoals2 => 233,
            TileType::GatewaysLairEnter => 144,
            TileType::FloorDirt0 => 35,
            TileType::WallTreesMangrove1 => 176,
            TileType::GatewaysDepthsEnter => 137,
            _ => 0,
        }
    }

    /// Whether the variant is a role, not yet a concrete terrain.
    pub fn is_theme_role(&self) -> (role: bool)
        ensures
            role == self.is_role(),
    {
        match self {
            TileType::ThemeFloor | TileType::ThemeWall | TileType::ThemeExit => true,
            _ => false,
        }
    }

    /// Where the variant's picture sits in the tile sheet. Roles have no
    /// picture.
    pub fn to_texture_index(&self) -> (index: u8)
        requires
            !self.is_role(),
        ensures
            index == self.texture_index(),
    {
        match self {
            TileType::FloorSandStone0 => 51,
            TileType::WallShoals2 => 233,
            TileType::GatewaysLairEnter => 144,
            TileType::FloorDirt0 => 35,
            TileType::WallTreesMangrove1 => 176,
            _ => 137,
        }
    }
}

/// Marks a tile that blocks sight.
#[derive(Copy, Clone, Debug, PartialEq, Eq, Structural)]
pub struct TileIsOpaque;

/// What it costs to move onto a tile.
#[derive(Copy, Clone, Debug, PartialEq, Eq, Structural)]
pub struct TerrainCost(pub u8);

/// One cell of the map.
#[derive(Clone, Debug, PartialEq, Eq)]
pub struct Tile {
    pub tile_type: TileType,
    /// The tile blocks sight and cannot be entered.
    pub is_opaque: bool,
    /// The cost of moving onto the tile, zero if it cannot be entered.
    pub terrain_cost: u8,
    /// The level that each light source reaching the tile gives it.
    pub illuminated_by: HashMap<u64, IlluminationLevel>,
    /// The level that the light sources give together.
    pub illumination_level: IlluminationLevel,
    /// How well each observer that has the tile in view sees it.
    pub seen_by: HashMap<u64, SeenLevel>,
    /// The best that the tile has been seen at so far.
    pub seen_level: SeenLevel,
}

impl Tile {
    /// A tile that no light reaches and nobody has seen.
    pub open spec fn is_fresh(self) -> bool {
        &&& self.illuminated_by@ == Map::<u64, IlluminationLevel>::empty()
        &&& self.illumination_level == IlluminationLevel::Unlit
        &&& self.seen_by@ == Map::<u64, SeenLevel>::empty()
        &&& self.seen_level == SeenLevel::Unseen
    }

    /// The two tiles are of the same terrain.
    pub open spec fn same_terrain(self, other: Tile) -> bool {
        &&& self.tile_type == other.tile_type
        &&& self.is_opaque == other.is_opaque
        &&& self.terrain_cost == other.terrain_cost
    }

    /// The two tiles are lit by the same sources and at the same level.
    pub open spec fn same_light(self, other: Tile) -> bool {
        &&& self.illuminated_by@ == other.illuminated_by@
        &&& self.illumination_level == other.illumination_level
    }

    /// The two tiles are seen by the same observers and at the same level.
    pub open spec fn same_sight(self, other: Tile) -> bool {
        &&& self.seen_by@ == other.seen_by@
        &&& self.seen_level == other.seen_level
    }

    /// The tile is as `Tile::new(tile_type)` makes it: floors are open and
    /// cost 5 to enter, walls and gateways block sight and movement, and
    /// nothing has lit or seen the tile.
    pub open spec fn is_new(self, tile_type: TileType) -> bool {
        &&& self.tile_type == tile_type
        &&& self.is_opaque == !tile_type.is_floor()
        &&& self.terrain_cost == (if tile_type.is_floor() {
            5u8
        } else {
            0u8
        })
        &&& self.is_fresh()
    }

    /// A fresh tile of the given concrete terrain.
    pub fn new(tile_type: TileType) -> (tile: Tile)
        requires
            !tile_type.is_role(),
        ensures
            tile.is_new(tile_type),
    {
        match tile_type {
            TileType::FloorSandStone0 | TileType::FloorDirt0 => Tile {
                tile_type,
                is_opaque: false,
                terrain_cost: 5,
                illuminated_by: HashMap::new(),
                illumination_level: IlluminationLevel::Unlit,
                seen_by: HashMap::new(),
                seen_level: SeenLevel::Unseen,
            },
            _ => Tile {
                tile_type,
                is_opaque: true,
                terrain_cost: 0,
                illuminated_by: HashMap::new(),
                illumination_level: IlluminationLevel::Unlit,
                seen_by: HashMap::new(),
                seen_level: SeenLevel::Unseen,
            },
        }
    }

    /// The markers that the tile's entity carries: one for an opaque tile,
    /// and the cost of a tile that has one.
    pub fn insert_components(&self) -> (components: (Option<TileIsOpaque>, Option<TerrainCost>))
        ensures
            components.0 is Some <==> self.is_opaque,
            components.1 == (if self.terrain_cost > 0 {
                Some(TerrainCost(self.terrain_cost))
            } else {
                None
            }),
    {
        let opaque = if self.is_opaque {
            Some(TileIsOpaque)
        } else {
            None
        };
        let cost = if self.terrain_cost > 0 {
            Some(TerrainCost(self.terrain_cost))
        } else {
            None
        };
        (opaque, cost)
    }
}

} // verus!
