use adventure_encounters::helpers::geometry::Point;
use adventure_encounters::helpers::map_builder::automata::{
    CellularAutomataArchitect, FLOOR_ROLL, ITERATIONS,
};
use adventure_encounters::helpers::map_builder::themes::MapTheme;
use adventure_encounters::helpers::map_builder::{GenerationError, MapBuilder};
use adventure_encounters::helpers::tiles::TileType;
use bracket_random::prelude::RandomNumberGenerator;

/// A dungeon laid out by rows of `#` and `.`.
fn layout(rows: &[&str]) -> MapBuilder {
    let mut mb =
        MapBuilder::blank(rows[0].len() as u32, rows.len() as u32, MapTheme::DungeonTheme).unwrap();
    for (y, row) in rows.iter().enumerate() {
        for (x, c) in row.chars().enumerate() {
            if c == '#' {
                mb.place(Point::new(x as i32, y as i32), TileType::ThemeWall);
            }
        }
    }
    mb
}

fn rows(mb: &MapBuilder) -> Vec<String> {
    let w = mb.map.dimensions.x as usize;
    mb.map
        .tiles
        .chunks(w)
        .map(|row| row.iter().map(|t| if t.is_opaque { '#' } else { '.' }).collect())
        .collect()
}

#[test]
fn rolls_from_55_on_seed_a_floor() {
    assert_eq!(FLOOR_ROLL, 55);
    assert_eq!(CellularAutomataArchitect::noise_role(0), TileType::ThemeWall);
    assert_eq!(CellularAutomataArchitect::noise_role(54), TileType::ThemeWall);
    assert_eq!(CellularAutomataArchitect::noise_role(55), TileType::ThemeFloor);
    assert_eq!(CellularAutomataArchitect::noise_role(99), TileType::ThemeFloor);
}

#[test]
fn neighbors_are_counted_on_the_map_only() {
    let mb = layout(&["##.", "#..", "..#"]);
    let a = CellularAutomataArchitect {};
    assert_eq!(a.count_neighbors(1, 1, &mb), 4);
    assert_eq!(a.count_neighbors(0, 0, &mb), 2);
    assert_eq!(a.count_neighbors(2, 2, &mb), 0);
    assert_eq!(a.count_neighbors(2, 0, &mb), 1);
    let full = layout(&["###", "###", "###"]);
    assert_eq!(a.count_neighbors(1, 1, &full), 8);
    assert_eq!(a.count_neighbors(0, 1, &full), 5);
}

#[test]
fn the_rule_walls_up_crowded_and_lonely_tiles() {
    let mut mb = layout(&[
        "#####", //
        "#...#", //
        "#...#", //
        "#...#", //
        ".....",
    ]);
    CellularAutomataArchitect {}.iteration(&mut mb);
    // the upper corners of the room see 5 walls, the tiles along its sides
    // 2 or 3, the two in the middle none; the border is left alone
    assert_eq!(rows(&mb), vec!["#####", "##.##", "#.#.#", "#.#.#", "....."]);
}

#[test]
fn all_tiles_change_at_once() {
    let mut mb = layout(&[
        "....", //
        ".#..", //
        "....", //
        "....",
    ]);
    CellularAutomataArchitect {}.iteration(&mut mb);
    // (1,1) has no wall around it and stays a wall; its three neighbours
    // off the border see one wall each and are floors
    assert_eq!(rows(&mb), vec!["....", ".#..", "....", "...."]);
    let mut mb = layout(&[
        "....", //
        "....", //
        "....", //
        "....",
    ]);
    CellularAutomataArchitect {}.iteration(&mut mb);
    assert_eq!(rows(&mb), vec!["....", ".##.", ".##.", "...."]);
    CellularAutomataArchitect {}.iteration(&mut mb);
    assert_eq!(rows(&mb), vec!["....", "....", "....", "...."]);
}

#[test]
fn the_start_is_the_floor_nearest_the_middle() {
    let a = CellularAutomataArchitect {};
    let mb = layout(&[".....", ".....", ".....", ".....", "....."]);
    assert_eq!(a.find_start(&mb), Some(Point::new(2, 2)));
    // the four tiles next to the middle tie: the first in reading order
    let mb = layout(&[".....", ".....", "..#..", ".....", "....."]);
    assert_eq!(a.find_start(&mb), Some(Point::new(2, 1)));
    let mb = layout(&["#####", "#####", "#####", "#####", "####."]);
    assert_eq!(a.find_start(&mb), Some(Point::new(4, 4)));
    let mb = layout(&["##", "##"]);
    assert_eq!(a.find_start(&mb), None);
}

#[test]
fn the_same_seed_grows_the_same_map() {
    let grow = |seed: u64| {
        let mut rng = RandomNumberGenerator::seeded(seed);
        CellularAutomataArchitect {}.new(50, 40, MapTheme::ForestTheme, &mut rng).unwrap()
    };
    let (a, b) = (grow(7), grow(7));
    assert_eq!(a.map.tiles, b.map.tiles);
    assert_eq!(a.player_start, b.player_start);
    assert_eq!(a.amulet_start, b.amulet_start);
    assert_eq!(a.monster_spawns, b.monster_spawns);
    assert_ne!(a.map.tiles, grow(8).map.tiles);
}

#[test]
fn growing_is_iterating() {
    assert_eq!(ITERATIONS, 10);
    let a = &mut CellularAutomataArchitect {};
    let mut rng = RandomNumberGenerator::seeded(21);
    let mut grown = MapBuilder::blank(20, 15, MapTheme::DungeonTheme).unwrap();
    a.random_noise_map(&mut rng, &mut grown);
    let mut stepped = layout(&rows(&grown).iter().map(|r| r.as_str()).collect::<Vec<_>>());
    assert!(grown.count_floor() > 60 && grown.count_floor() < 240);
    a.grow(&mut grown, 3);
    for _ in 0..3 {
        a.iteration(&mut stepped);
    }
    assert_eq!(rows(&grown), rows(&stepped));
}

#[test]
fn the_automata_start_on_the_nearest_floor() {
    let mut rng = RandomNumberGenerator::seeded(9);
    let mb = CellularAutomataArchitect {}.new(50, 40, MapTheme::ForestTheme, &mut rng).unwrap();
    let a = CellularAutomataArchitect {};
    assert_eq!(a.find_start(&mb), Some(mb.player_start));
    assert!(mb.map.can_enter_tile(mb.player_start));
    assert!(mb.map.can_enter_tile(mb.amulet_start));
    for m in &mb.monster_spawns {
        assert!(mb.map.can_enter_tile(*m));
        let (dx, dy) = (m.x - mb.player_start.x, m.y - mb.player_start.y);
        assert!(dx * dx + dy * dy > 100);
    }
}

#[test]
fn without_a_floor_there_is_no_map() {
    let mut none = 0;
    for seed in 0..40 {
        let mut rng = RandomNumberGenerator::seeded(seed);
        let made = CellularAutomataArchitect {}.new(1, 1, MapTheme::ForestTheme, &mut rng);
        match made {
            Ok(mb) => assert_eq!(mb.player_start, Point::new(0, 0)),
            Err(e) => {
                assert_eq!(e, GenerationError::NoFloor);
                none += 1;
            }
        }
    }
    assert!(none > 0 && none < 40);
}
