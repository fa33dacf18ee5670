use adventure_encounters::helpers::geometry::{Point, Rect};
use adventure_encounters::helpers::map_builder::rooms::{RoomsArchitect, MIN_SIZE, NUM_ROOMS};
use adventure_encounters::helpers::map_builder::themes::MapTheme;
use adventure_encounters::helpers::map_builder::{GenerationError, MapBuilder};
use adventure_encounters::helpers::tiles::TileType;
use bracket_random::prelude::RandomNumberGenerator;

fn solid(width: u32, height: u32) -> MapBuilder {
    let mut mb = MapBuilder::blank(width, height, MapTheme::DungeonTheme).unwrap();
    mb.fill(TileType::ThemeWall);
    mb
}

fn rows(mb: &MapBuilder) -> Vec<String> {
    let w = mb.map.dimensions.x as usize;
    mb.map
        .tiles
        .chunks(w)
        .map(|row| row.iter().map(|t| if t.is_opaque { '#' } else { '.' }).collect())
        .collect()
}

/// The tiles that can be walked to from `start`.
fn reach(mb: &MapBuilder, start: Point) -> Vec<bool> {
    let (w, h) = (mb.map.dimensions.x, mb.map.dimensions.y);
    let mut seen = vec![false; (w * h) as usize];
    let mut stack = vec![start];
    seen[(start.y * w + start.x) as usize] = true;
    while let Some(p) = stack.pop() {
        for (dx, dy) in [(1, 0), (-1, 0), (0, 1), (0, -1)] {
            let q = Point::new(p.x + dx, p.y + dy);
            if mb.map.can_enter_tile(q) && !seen[(q.y * w + q.x) as usize] {
                seen[(q.y * w + q.x) as usize] = true;
                stack.push(q);
            }
        }
    }
    seen
}

#[test]
fn a_room_is_carved_off_the_first_row_and_column() {
    let mut mb = solid(6, 5);
    RoomsArchitect::carve(&mut mb, &Rect { x1: 1, x2: 4, y1: 2, y2: 4 });
    assert_eq!(rows(&mb), vec!["######", "######", "#...##", "#...##", "######"]);
    let mut mb = solid(4, 3);
    RoomsArchitect::carve(&mut mb, &Rect { x1: -2, x2: 9, y1: 0, y2: 2 });
    assert_eq!(rows(&mb), vec!["####", "#...", "####"]);
}

#[test]
fn a_room_is_placed_only_clear_of_the_others() {
    let mut mb = solid(12, 6);
    assert!(RoomsArchitect::try_room(&mut mb, Rect { x1: 1, x2: 4, y1: 1, y2: 3 }));
    // touching the border of a placed room counts as overlap
    assert!(!RoomsArchitect::try_room(&mut mb, Rect { x1: 4, x2: 6, y1: 3, y2: 5 }));
    assert!(RoomsArchitect::try_room(&mut mb, Rect { x1: 5, x2: 7, y1: 3, y2: 5 }));
    assert_eq!(
        mb.rooms,
        vec![Rect { x1: 1, x2: 4, y1: 1, y2: 3 }, Rect { x1: 5, x2: 7, y1: 3, y2: 5 }]
    );
    assert_eq!(
        rows(&mb),
        vec![
            "############",
            "#...########",
            "#...########",
            "#####..#####",
            "#####..#####",
            "############"
        ]
    );
}

#[test]
fn tunnels_run_between_their_ends_whichever_comes_first() {
    let mut a = RoomsArchitect {};
    let mut mb = solid(6, 4);
    a.apply_horizontal_tunnel(&mut mb, 4, 1, 2);
    assert_eq!(rows(&mb), vec!["######", "######", "#....#", "######"]);
    a.apply_vertical_tunnel(&mut mb, 0, 9, 5);
    assert_eq!(rows(&mb), vec!["#####.", "#####.", "#....." , "#####."]);
    let mut mb = solid(3, 3);
    a.apply_vertical_tunnel(&mut mb, 2, 2, 1);
    a.apply_horizontal_tunnel(&mut mb, -5, 0, 0);
    a.apply_horizontal_tunnel(&mut mb, 0, 2, 7);
    assert_eq!(rows(&mb), vec![".##", "###", "#.#"]);
}

#[test]
fn a_corridor_bends_on_the_side_asked_for() {
    let mut a = RoomsArchitect {};
    let (prev, next) = (Point::new(1, 1), Point::new(4, 3));
    let mut mb = solid(6, 5);
    a.connect(&mut mb, prev, next, true);
    assert_eq!(rows(&mb), vec!["######", "#....#", "####.#", "####.#", "######"]);
    let mut mb = solid(6, 5);
    a.connect(&mut mb, prev, next, false);
    assert_eq!(rows(&mb), vec!["######", "#.####", "#.####", "#....#", "######"]);
}

#[test]
fn rooms_are_sorted_by_the_column_of_their_middle() {
    let at = |x1: i32, x2: i32| Rect { x1, x2, y1: 1, y2: 3 };
    let rooms = vec![at(10, 14), at(1, 3), at(30, 31), at(0, 5), at(11, 13)];
    let sorted = RoomsArchitect::sort_by_center(&rooms);
    // middles: 12, 2, 30, 2, 12: equal ones keep their order
    assert_eq!(sorted, vec![at(1, 3), at(0, 5), at(10, 14), at(11, 13), at(30, 31)]);
    assert!(RoomsArchitect::sort_by_center(&Vec::new()).is_empty());
}

#[test]
fn every_room_can_be_walked_to_from_every_other() {
    for seed in [1, 2, 3] {
        let mut rng = RandomNumberGenerator::seeded(seed);
        let mb = RoomsArchitect {}.new(80, 50, MapTheme::DungeonTheme, &mut rng).unwrap();
        assert_eq!(mb.rooms.len(), NUM_ROOMS);
        let seen = reach(&mb, mb.rooms[0].center());
        for room in &mb.rooms {
            let c = room.center();
            assert!(seen[(c.y * 80 + c.x) as usize]);
        }
    }
}

#[test]
fn rooms_keep_clear_of_each_other_and_hold_the_starts() {
    let mut rng = RandomNumberGenerator::seeded(17);
    let mb = RoomsArchitect {}.new(80, 50, MapTheme::ForestTheme, &mut rng).unwrap();
    assert_eq!(mb.map.tiles.len(), 4000);
    for (i, a) in mb.rooms.iter().enumerate() {
        assert!(0 < a.x1 && a.x1 < a.x2 && a.x2 < 80 && 0 < a.y1 && a.y1 < a.y2 && a.y2 < 50);
        assert!((2..10).contains(&(a.x2 - a.x1)) && (2..10).contains(&(a.y2 - a.y1)));
        for b in &mb.rooms[..i] {
            assert!(!a.intersect(b));
        }
        for y in a.y1..a.y2 {
            for x in a.x1..a.x2 {
                assert!(mb.map.can_enter_tile(Point::new(x, y)));
            }
        }
    }
    assert_eq!(mb.player_start, mb.rooms[0].center());
    let others: Vec<Point> = mb.rooms[1..].iter().map(|r| r.center()).collect();
    assert_eq!(mb.monster_spawns, others);
    assert!(mb.map.can_enter_tile(mb.amulet_start));
    assert!(reach(&mb, mb.player_start)[(mb.amulet_start.y * 80 + mb.amulet_start.x) as usize]);
}

#[test]
fn rooms_need_a_map_of_twelve_by_twelve() {
    assert_eq!(MIN_SIZE, 12);
    let mut rng = RandomNumberGenerator::seeded(1);
    let made = RoomsArchitect {}.new(11, 40, MapTheme::DungeonTheme, &mut rng);
    assert_eq!(made.err(), Some(GenerationError::MapTooSmall));
    let made = RoomsArchitect {}.new(40, 11, MapTheme::DungeonTheme, &mut rng);
    assert_eq!(made.err(), Some(GenerationError::MapTooSmall));
    let made = RoomsArchitect {}.new(0, 11, MapTheme::DungeonTheme, &mut rng);
    assert_eq!(made.err(), Some(GenerationError::BadSize));
}

#[test]
fn the_rooms_architect_gives_up_on_a_crowded_map() {
    let mut rng = RandomNumberGenerator::seeded(1);
    let made = RoomsArchitect {}.new(13, 13, MapTheme::DungeonTheme, &mut rng);
    assert_eq!(made.err(), Some(GenerationError::OutOfAttempts));
    let made = RoomsArchitect {}.build(80, 50, MapTheme::DungeonTheme, &mut rng, 19);
    assert_eq!(made.err(), Some(GenerationError::OutOfAttempts));
}
