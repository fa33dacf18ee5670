use adventure_encounters::helpers::geometry::Point;
use adventure_encounters::helpers::map::{MapPoint, SeenLevel, TileMap, TilePos};
use adventure_encounters::helpers::map_builder::themes::MapTheme;
use adventure_encounters::helpers::tiles::{TerrainCost, Tile, TileIsOpaque, TileType};
use adventure_encounters::systems::illumination::IlluminationLevel;

#[test]
fn themes_render_the_three_roles() {
    let d = MapTheme::DungeonTheme;
    let f = MapTheme::ForestTheme;
    assert_eq!(d.tile_to_render(TileType::ThemeFloor), TileType::FloorSandStone0);
    assert_eq!(d.tile_to_render(TileType::ThemeWall), TileType::WallShoals2);
    assert_eq!(d.tile_to_render(TileType::ThemeExit), TileType::GatewaysLairEnter);
    assert_eq!(f.tile_to_render(TileType::ThemeFloor), TileType::FloorDirt0);
    assert_eq!(f.tile_to_render(TileType::ThemeWall), TileType::WallTreesMangrove1);
    assert_eq!(f.tile_to_render(TileType::ThemeExit), TileType::GatewaysDepthsEnter);
    assert_eq!(MapTheme::from_roll(0), MapTheme::DungeonTheme);
    assert_eq!(MapTheme::from_roll(1), MapTheme::ForestTheme);
}

#[test]
fn concrete_tiles_have_a_picture() {
    assert_eq!(TileType::FloorSandStone0.to_texture_index(), 51);
    assert_eq!(TileType::WallShoals2.to_texture_index(), 233);
    assert_eq!(TileType::GatewaysLairEnter.to_texture_index(), 144);
    assert_eq!(TileType::FloorDirt0.to_texture_index(), 35);
    assert_eq!(TileType::WallTreesMangrove1.to_texture_index(), 176);
    assert_eq!(TileType::GatewaysDepthsEnter.to_texture_index(), 137);
}

#[test]
fn new_tiles_are_open_floors_or_closed_walls() {
    for kind in [TileType::FloorSandStone0, TileType::FloorDirt0] {
        let t = Tile::new(kind);
        assert_eq!((t.tile_type, t.is_opaque, t.terrain_cost), (kind, false, 5));
        assert!(t.illuminated_by.is_empty() && t.seen_by.is_empty());
        assert_eq!(t.illumination_level, IlluminationLevel::Unlit);
        assert_eq!(t.seen_level, SeenLevel::Unseen);
        assert_eq!(t.insert_components(), (None, Some(TerrainCost(5))));
    }
    for kind in [
        TileType::WallShoals2,
        TileType::WallTreesMangrove1,
        TileType::GatewaysLairEnter,
        TileType::GatewaysDepthsEnter,
    ] {
        let t = Tile::new(kind);
        assert_eq!((t.tile_type, t.is_opaque, t.terrain_cost), (kind, true, 0));
        assert_eq!(t.insert_components(), (Some(TileIsOpaque), None));
    }
}

#[test]
fn levels_are_ordered() {
    assert!(IlluminationLevel::Unlit < IlluminationLevel::Dim);
    assert!(IlluminationLevel::Dim < IlluminationLevel::Normal);
    assert!(SeenLevel::Unseen < SeenLevel::Darkness);
    assert!(SeenLevel::Darkness < SeenLevel::Shadowy);
    assert!(SeenLevel::Shadowy < SeenLevel::Bright);
}

#[test]
fn a_new_map_is_all_floor() {
    let map = TileMap::new(7, 3, MapTheme::ForestTheme);
    assert_eq!(map.dimensions(), Point::new(7, 3));
    assert_eq!(map.tiles.len(), 21);
    assert!(map.tiles.iter().all(|t| *t == Tile::new(TileType::FloorDirt0)));
    let empty = TileMap::new(0, 9, MapTheme::ForestTheme);
    assert!(empty.tiles.is_empty());
}

#[test]
fn tiles_are_kept_row_by_row() {
    let map = TileMap::new(7, 3, MapTheme::DungeonTheme);
    assert_eq!(map.map_idx(0, 0), 0);
    assert_eq!(map.map_idx(6, 0), 6);
    assert_eq!(map.map_idx(0, 1), 7);
    assert_eq!(map.map_idx(4, 2), 18);
    assert_eq!(map.point2d_to_index(Point::new(4, 2)), 18);
    assert_eq!(map.index_to_point2d(18), Point::new(4, 2));
    assert_eq!(map.index_to_point2d(20), Point::new(6, 2));
    assert_eq!(map.try_idx(Point::new(4, 2)), Some(18));
    assert_eq!(map.try_idx(Point::new(7, 2)), None);
    assert_eq!(map.try_idx(Point::new(4, 3)), None);
    assert_eq!(map.try_idx(Point::new(-1, 0)), None);
    assert_eq!(map.try_idx(Point::new(0, -1)), None);
}

#[test]
fn bounds_exclude_the_far_edges() {
    let map = TileMap::new(7, 3, MapTheme::DungeonTheme);
    assert!(map.in_bounds(Point::new(0, 0)));
    assert!(map.in_bounds(Point::new(6, 2)));
    assert!(!map.in_bounds(Point::new(7, 0)));
    assert!(!map.in_bounds(Point::new(0, 3)));
    assert!(!map.in_bounds(Point::new(-1, 1)));
    assert!(!map.in_bounds(Point::new(1, -1)));
}

#[test]
fn only_open_tiles_on_the_map_can_be_entered() {
    let mut map = TileMap::new(3, 3, MapTheme::DungeonTheme);
    map.tiles[4] = Tile::new(TileType::WallShoals2);
    assert!(map.is_opaque(4));
    assert!(!map.is_opaque(3));
    assert!(!map.can_enter_tile(Point::new(1, 1)));
    assert!(map.can_enter_tile(Point::new(0, 1)));
    assert!(!map.can_enter_tile(Point::new(3, 1)));
    assert!(!map.can_enter_tile(Point::new(-1, -1)));
}

#[test]
fn exits_are_listed_west_east_north_south() {
    let mut map = TileMap::new(3, 3, MapTheme::DungeonTheme);
    assert_eq!(map.get_available_exits(4), vec![3, 5, 1, 7]);
    assert_eq!(map.get_available_exits(0), vec![1, 3]);
    assert_eq!(map.get_available_exits(8), vec![7, 5]);
    map.tiles[5] = Tile::new(TileType::WallShoals2);
    map.tiles[1] = Tile::new(TileType::WallShoals2);
    assert_eq!(map.get_available_exits(4), vec![3, 7]);
    // a wall has exits like any other tile
    assert_eq!(map.get_available_exits(5), vec![4, 2, 8]);
}

#[test]
fn the_drawn_layer_counts_rows_from_the_bottom() {
    let map = TileMap::new(7, 3, MapTheme::DungeonTheme);
    assert_eq!(map.to_bevy_ecs_tilemap(0, 0), TilePos { x: 0, y: 2 });
    assert_eq!(map.to_bevy_ecs_tilemap(6, 2), TilePos { x: 6, y: 0 });
    assert_eq!(map.to_bevy_ecs_tilemap(3, 1), TilePos { x: 3, y: 1 });
}

#[test]
fn a_map_point_holds_its_point() {
    assert_eq!(MapPoint::new(Point::new(2, 9)).0, Point::new(2, 9));
}

#[test]
fn cost_grids_close_what_blocks() {
    let mut map = TileMap::new(3, 1, MapTheme::DungeonTheme);
    map.tiles[1] = Tile::new(TileType::WallShoals2);
    map.tiles[2].terrain_cost = 9;
    let steps = map.step_costs();
    assert_eq!((steps.width, steps.height), (3, 1));
    assert_eq!(steps.entry, vec![1, 0, 1]);
    let terrain = map.terrain_costs();
    assert_eq!(terrain.entry, vec![5, 0, 9]);
}

#[test]
fn the_three_roles_are_no_terrain() {
    for role in [TileType::ThemeFloor, TileType::ThemeWall, TileType::ThemeExit] {
        assert!(role.is_theme_role());
    }
    assert!(!TileType::FloorDirt0.is_theme_role());
    assert!(!TileType::GatewaysLairEnter.is_theme_role());
}

#[test]
fn a_map_is_whole_with_a_tile_for_every_position() {
    let mut map = TileMap::new(4, 3, MapTheme::DungeonTheme);
    assert!(map.is_well_formed());
    map.tiles.pop();
    assert!(!map.is_well_formed());
    map.dimensions = Point::new(11, 1);
    assert!(map.is_well_formed());
    map.dimensions = Point::new(-11, -1);
    assert!(!map.is_well_formed());
}
