//! Themes turn terrain roles into concrete terrain.

use vstd::prelude::*;
use crate::helpers::tiles::TileType;

verus! {

/// The look of a level.
#[derive(Copy, Clone, Debug, PartialEq, Eq, Structural)]
pub enum MapTheme {
    ForestTheme,
    DungeonTheme,
}

impl MapTheme {
    /// The concrete terrain that plays `role` in this theme.
    pub open spec fn rendered(self, role: TileType) -> TileType {
        match self {
            MapTheme::DungeonTheme => match role {
                TileType::ThemeFloor => TileType::FloorSandStone0,
                TileType::ThemeWall => TileType::WallShoals2,
                _ => TileType::GatewaysLairEnter,
            },
            MapTheme::ForestTheme => match role {
                TileType::ThemeFloor => TileType::FloorDirt0,
                TileType::ThemeWall => TileType::WallTreesMangrove1,
                _ => TileType::GatewaysDepthsEnter,
            },
        }
    }

    /// The floor of this theme.
    pub open spec fn floor(self) -> TileType {
        self.rendered(TileType::ThemeFloor)
    }

    /// The wall of this theme.
    pub open spec fn wall(self) -> TileType {
        self.rendered(TileType::ThemeWall)
    }

    /// The concrete terrain that plays `tile_type` in this theme. Only the
    /// three roles can be rendered.
    pub fn tile_to_render(&self, tile_type: TileType) -> (rendered: TileType)
        requires
            tile_type.is_role(),
        ensures
            rendered == self.rendered(tile_type),
            !rendered.is_role(),
            rendered.is_floor() <==> tile_type is ThemeFloor,
    {
        match self {
            MapTheme::DungeonTheme => match tile_type {
                TileType::ThemeFloor => TileType::FloorSandStone0,
                TileType::ThemeWall => TileType::WallShoals2,
                _ => TileType::GatewaysLairEnter,
            },
            MapTheme::ForestTheme => match tile_type {
                TileType::ThemeFloor => TileType::FloorDirt0,
                TileType::ThemeWall => TileType::WallTreesMangrove1,
                _ => TileType::GatewaysDepthsEnter,
            },
        }
    }

    /// The theme that a roll of `0..2` picks: 0 the dungeon, 1 the forest.
    pub fn from_roll(roll: i32) -> (theme: MapTheme)
        ensures
            theme == (if roll == 0 {
                MapTheme::DungeonTheme
            } else {
                MapTheme::ForestTheme
            }),
    {
        if roll == 0 {
            MapTheme::DungeonTheme
        } else {
            MapTheme::ForestTheme
        }
    }
}

} // verus!
