use adventure_encounters::helpers::distance_field::{DistanceField, UNREACHABLE};
use adventure_encounters::helpers::geometry::Point;
use adventure_encounters::helpers::map::TileMap;
use adventure_encounters::helpers::map_builder::themes::MapTheme;
use adventure_encounters::helpers::paths::{Arrival, CostGrid};
use adventure_encounters::helpers::tiles::{Tile, TileType};

fn grid(width: i32, rows: &[&[u8]]) -> CostGrid {
    let mut entry = Vec::new();
    for row in rows {
        assert_eq!(row.len() as i32, width);
        entry.extend_from_slice(row);
    }
    CostGrid { width, height: rows.len() as i32, entry }
}

fn costs(found: &[Option<Arrival>]) -> Vec<Option<u32>> {
    found.iter().map(|a| a.map(|a| a.cost)).collect()
}

#[test]
fn the_cheapest_way_may_be_the_longer_one() {
    // going round over the 1s costs 4, straight over the 9 costs 10
    let g = grid(3, &[&[1, 9, 1], &[1, 1, 1]]);
    let found = g.arrivals(&vec![Point::new(0, 0)], 100);
    assert_eq!(
        costs(&found),
        vec![Some(0), Some(9), Some(4), Some(1), Some(2), Some(3)]
    );
    assert_eq!(found[0], Some(Arrival { cost: 0, via: None }));
    assert_eq!(found[2].unwrap().via, Some(Point::new(2, 1)));
    assert_eq!(found[1].unwrap().via, Some(Point::new(0, 0)));
}

#[test]
fn closed_tiles_and_the_cap_stop_the_search() {
    let g = grid(5, &[&[1, 1, 0, 1, 1]]);
    let found = g.arrivals(&vec![Point::new(0, 0)], 100);
    assert_eq!(costs(&found), vec![Some(0), Some(1), None, None, None]);
    let g = grid(5, &[&[2, 2, 2, 2, 2]]);
    let found = g.arrivals(&vec![Point::new(0, 0)], 5);
    assert_eq!(costs(&found), vec![Some(0), Some(2), Some(4), None, None]);
    let found = g.arrivals(&vec![Point::new(0, 0)], 0);
    assert_eq!(costs(&found), vec![Some(0), None, None, None, None]);
}

#[test]
fn several_sources_share_the_grid() {
    let g = grid(7, &[&[1, 1, 1, 1, 1, 1, 1]]);
    let sources = vec![Point::new(0, 0), Point::new(6, 0), Point::new(9, 9), Point::new(0, 0)];
    let found = g.arrivals(&sources, 100);
    assert_eq!(
        costs(&found),
        vec![Some(0), Some(1), Some(2), Some(3), Some(2), Some(1), Some(0)]
    );
    // a source may be a closed tile
    let g = grid(3, &[&[1, 0, 1]]);
    let found = g.arrivals(&vec![Point::new(1, 0)], 100);
    assert_eq!(costs(&found), vec![Some(1), Some(0), Some(1)]);
    // without sources nothing is reached
    let found = g.arrivals(&Vec::new(), 100);
    assert_eq!(costs(&found), vec![None, None, None]);
}

#[test]
fn grid_positions_are_row_major() {
    let g = grid(3, &[&[1, 1, 1], &[1, 1, 1]]);
    assert!(g.contains(Point::new(2, 1)));
    assert!(!g.contains(Point::new(3, 1)));
    assert!(!g.contains(Point::new(0, 2)));
    assert!(!g.contains(Point::new(-1, 0)));
    assert_eq!(g.slot(Point::new(0, 0)), 0);
    assert_eq!(g.slot(Point::new(2, 1)), 5);
}

#[test]
fn distances_count_steps_round_the_walls() {
    // . . .
    // # # .
    // . . .
    let mut map = TileMap::new(3, 3, MapTheme::DungeonTheme);
    map.tiles[3] = Tile::new(TileType::WallShoals2);
    map.tiles[4] = Tile::new(TileType::WallShoals2);
    let field = DistanceField::new(&vec![Point::new(0, 0)], &map, 1024);
    assert_eq!(
        field.map,
        vec![0, 1, 2, UNREACHABLE, UNREACHABLE, 3, 6, 5, 4]
    );
}

#[test]
fn distances_stop_short_of_the_depth() {
    let map = TileMap::new(6, 1, MapTheme::DungeonTheme);
    let field = DistanceField::new(&vec![Point::new(0, 0)], &map, 3);
    assert_eq!(field.map, vec![0, 1, 2, UNREACHABLE, UNREACHABLE, UNREACHABLE]);
    let field = DistanceField::new(&vec![Point::new(0, 0)], &map, 0);
    assert_eq!(field.map, vec![UNREACHABLE; 6]);
    let field = DistanceField::new(&vec![Point::new(0, 0)], &map, 1);
    assert_eq!(field.map, vec![0, UNREACHABLE, UNREACHABLE, UNREACHABLE, UNREACHABLE, UNREACHABLE]);
}

#[test]
fn a_start_off_the_map_reaches_nothing() {
    let map = TileMap::new(2, 2, MapTheme::DungeonTheme);
    let field = DistanceField::new(&vec![Point::new(2, 0)], &map, 1024);
    assert_eq!(field.map, vec![UNREACHABLE; 4]);
}

#[test]
fn distances_are_asked_for_by_point() {
    let mut map = TileMap::new(3, 2, MapTheme::DungeonTheme);
    map.tiles[1] = Tile::new(TileType::WallShoals2);
    let field = DistanceField::new(&vec![Point::new(0, 0)], &map, 1024);
    assert_eq!((field.size_x, field.size_y), (3, 2));
    assert_eq!(field.at(Point::new(0, 0)), 0);
    assert_eq!(field.at(Point::new(1, 0)), UNREACHABLE);
    assert_eq!(field.at(Point::new(2, 0)), 4);
    assert_eq!(field.at(Point::new(2, 1)), 3);
    assert_eq!(field.at(Point::new(3, 0)), UNREACHABLE);
    assert_eq!(field.at(Point::new(0, 2)), UNREACHABLE);
    assert_eq!(field.at(Point::new(-1, 0)), UNREACHABLE);
    assert_eq!(field.at(Point::new(0, -1)), UNREACHABLE);
}
