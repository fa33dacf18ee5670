use adventure_encounters::helpers::geometry::Point;
use adventure_encounters::helpers::map::TileMap;
use adventure_encounters::helpers::map_builder::themes::MapTheme;
use adventure_encounters::helpers::range_finder::RangeFinder;
use adventure_encounters::helpers::tiles::{Tile, TileType};

fn open_field(width: u32, height: u32) -> TileMap {
    TileMap::new(width, height, MapTheme::DungeonTheme)
}

#[test]
fn range_of_fifteen_reaches_three_steps() {
    let anchor = Point::new(5, 5);
    let grid = RangeFinder::compute_grid(anchor, 15, open_field(11, 11));
    for y in 0..11 {
        for x in 0..11 {
            let p = Point::new(x, y);
            let steps = (x - 5).abs() + (y - 5).abs();
            match grid.get(p) {
                Some(node) => {
                    assert!(steps <= 3);
                    assert_eq!(node.point, p);
                    assert_eq!(node.g, 5 * steps as u32);
                    assert_eq!(node.cost, 5);
                    assert_eq!(node.via.is_none(), steps == 0);
                }
                None => assert!(steps > 3),
            }
        }
    }
    let reached = RangeFinder::get_grid(&grid);
    assert_eq!(reached.len(), 24);
    assert!(!reached.contains(&anchor));
}

#[test]
fn path_to_a_tile_at_cost_fifteen_has_four_points() {
    let anchor = Point::new(5, 5);
    let grid = RangeFinder::compute_grid(anchor, 15, open_field(11, 11));
    let target = Point::new(7, 4);
    assert_eq!(grid.get(target).unwrap().g, 15);
    let path = RangeFinder::get_path_to(&grid, target);
    assert_eq!(path.len(), 4);
    assert_eq!(path[0], target);
    assert_eq!(path[3], anchor);
    for pair in path.windows(2) {
        let d = (pair[0].x - pair[1].x).abs() + (pair[0].y - pair[1].y).abs();
        assert_eq!(d, 1);
    }
}

#[test]
fn walls_are_never_entered() {
    let mut map = open_field(5, 1);
    map.tiles[2] = Tile::new(TileType::WallShoals2);
    let grid = RangeFinder::compute_grid(Point::new(0, 0), 100, map);
    assert!(grid.contains_key(Point::new(1, 0)));
    assert!(!grid.contains_key(Point::new(2, 0)));
    assert!(!grid.contains_key(Point::new(3, 0)));
    assert!(RangeFinder::get_path_to(&grid, Point::new(3, 0)).is_empty());
}

#[test]
fn anchor_off_the_map_reaches_nothing() {
    let grid = RangeFinder::compute_grid(Point::new(-1, 7), 100, open_field(4, 4));
    assert!(RangeFinder::get_grid(&grid).is_empty());
    assert!(RangeFinder::get_path_to(&grid, Point::new(-1, 7)).is_empty());
    assert!(RangeFinder::get_path_to(&grid, Point::new(0, 0)).is_empty());
}
