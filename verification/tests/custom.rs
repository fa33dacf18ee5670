use adventure_encounters::helpers::geometry::Point;
use adventure_encounters::helpers::map_builder::custom::{CustomFileBuilder, CustomMap};
use adventure_encounters::helpers::map_builder::themes::MapTheme;
use adventure_encounters::helpers::map_builder::GenerationError;
use adventure_encounters::helpers::tiles::{Tile, TileType};

fn template(width: i32, height: i32, tiles: &str) -> CustomMap {
    CustomMap {
        width,
        height,
        theme: MapTheme::ForestTheme,
        player_start: (1, 0),
        amulet_start: (0, 1),
        tiles: tiles.to_string(),
    }
}

#[test]
fn white_space_is_passed_over() {
    assert_eq!(CustomFileBuilder::flatten(" a b\n\tc\r\n"), vec!['a', 'b', 'c']);
    assert_eq!(CustomFileBuilder::flatten("\u{a0}x\u{3000}"), vec!['x']);
    assert!(CustomFileBuilder::flatten(" \n ").is_empty());
    assert!(CustomFileBuilder::flatten("").is_empty());
}

#[test]
fn markers_place_entities_row_by_row() {
    let mb = CustomFileBuilder::create_map_builder(template(4, 3, "...C\n C..x \n .CC.\n")).unwrap();
    assert_eq!(mb.map.dimensions, Point::new(4, 3));
    assert!(mb.map.tiles.iter().all(|t| *t == Tile::new(TileType::FloorDirt0)));
    assert_eq!(
        mb.entity_spawns,
        vec![
            (Point::new(3, 0), 'C'),
            (Point::new(0, 1), 'C'),
            (Point::new(1, 2), 'C'),
            (Point::new(2, 2), 'C')
        ]
    );
    assert_eq!(mb.player_start, Point::new(1, 0));
    assert_eq!(mb.amulet_start, Point::new(0, 1));
    assert_eq!(mb.theme, MapTheme::ForestTheme);
    assert!(mb.rooms.is_empty() && mb.monster_spawns.is_empty());
    assert!(mb.map.can_enter_tile(mb.player_start) && mb.map.can_enter_tile(mb.amulet_start));
}

#[test]
fn a_template_must_fit_its_size() {
    let bad = |t: CustomMap| {
        assert_eq!(CustomFileBuilder::create_map_builder(t).err(), Some(GenerationError::BadTemplate))
    };
    bad(template(2, 2, "..."));
    bad(template(2, 2, "....."));
    bad(template(0, 2, ""));
    bad(template(2, -2, "...."));
    bad(template(65536, 65536, "...."));
    let mut off = template(2, 2, "....");
    off.player_start = (2, 0);
    bad(off);
    let mut off = template(2, 2, "....");
    off.amulet_start = (0, -1);
    bad(off);
    assert!(CustomFileBuilder::create_map_builder(template(2, 2, ". .\n. .")).is_ok());
}
