use adventure_encounters::helpers::geometry::Point;
use adventure_encounters::helpers::map_builder::themes::MapTheme;
use adventure_encounters::helpers::map_builder::{
    Architect, GenerationError, MapBuilder, MAX_DEPTH, NUM_MONSTERS,
};
use adventure_encounters::helpers::tiles::{Tile, TileType};
use bracket_random::prelude::RandomNumberGenerator;

fn walls(mb: &mut MapBuilder, at: &[(i32, i32)]) {
    for &(x, y) in at {
        mb.place(Point::new(x, y), TileType::ThemeWall);
    }
}

/// Steps from `start` to every tile, by plain breadth-first search.
fn steps_from(mb: &MapBuilder, start: Point) -> Vec<Option<u32>> {
    let (w, h) = (mb.map.dimensions.x, mb.map.dimensions.y);
    let mut seen = vec![None; (w * h) as usize];
    seen[(start.y * w + start.x) as usize] = Some(0);
    let mut queue = std::collections::VecDeque::new();
    queue.push_back(start);
    while let Some(p) = queue.pop_front() {
        let d = seen[(p.y * w + p.x) as usize].unwrap();
        for (dx, dy) in [(1, 0), (-1, 0), (0, 1), (0, -1)] {
            let q = Point::new(p.x + dx, p.y + dy);
            if q.x < 0 || q.y < 0 || q.x >= w || q.y >= h {
                continue;
            }
            let i = (q.y * w + q.x) as usize;
            if mb.map.tiles[i].is_opaque || seen[i].is_some() {
                continue;
            }
            seen[i] = Some(d + 1);
            queue.push_back(q);
        }
    }
    seen
}

#[test]
fn a_blank_builder_is_all_floor() {
    let mb = MapBuilder::blank(4, 3, MapTheme::ForestTheme).unwrap();
    assert_eq!(mb.map.dimensions, Point::new(4, 3));
    assert!(mb.map.tiles.iter().all(|t| *t == Tile::new(TileType::FloorDirt0)));
    assert!(mb.rooms.is_empty() && mb.monster_spawns.is_empty() && mb.entity_spawns.is_empty());
    assert_eq!((mb.player_start, mb.amulet_start), (Point::zero(), Point::zero()));
    assert_eq!(mb.theme, MapTheme::ForestTheme);
    assert_eq!(mb.count_floor(), 12);
    assert_eq!(MapBuilder::blank(0, 3, MapTheme::ForestTheme).err(), Some(GenerationError::BadSize));
    assert_eq!(MapBuilder::blank(3, 0, MapTheme::ForestTheme).err(), Some(GenerationError::BadSize));
    assert_eq!(
        MapBuilder::blank(65536, 32768, MapTheme::ForestTheme).err(),
        Some(GenerationError::BadSize)
    );
}

#[test]
fn filling_renews_every_tile() {
    let mut mb = MapBuilder::blank(4, 3, MapTheme::DungeonTheme).unwrap();
    mb.map.tiles[5].illuminated_by.insert(1, adventure_encounters::systems::illumination::IlluminationLevel::Dim);
    mb.fill(TileType::ThemeWall);
    assert!(mb.map.tiles.iter().all(|t| *t == Tile::new(TileType::WallShoals2)));
    assert_eq!(mb.count_floor(), 0);
    mb.place(Point::new(1, 1), TileType::ThemeFloor);
    assert_eq!(mb.count_floor(), 1);
    assert_eq!(mb.map.tiles[5], Tile::new(TileType::FloorSandStone0));
    mb.fill(TileType::ThemeExit);
    assert!(mb.map.tiles.iter().all(|t| *t == Tile::new(TileType::GatewaysLairEnter)));
}

#[test]
fn the_most_distant_tile_is_the_first_of_the_farthest() {
    // S . .
    // # # .
    // . . .
    let mut mb = MapBuilder::blank(3, 3, MapTheme::DungeonTheme).unwrap();
    walls(&mut mb, &[(0, 1), (1, 1)]);
    mb.player_start = Point::new(0, 0);
    assert_eq!(mb.find_most_distant(), Some(Point::new(0, 2)));

    // on an open map the two far corners of a row tie: the first is taken
    let mut mb = MapBuilder::blank(5, 1, MapTheme::DungeonTheme).unwrap();
    mb.player_start = Point::new(2, 0);
    assert_eq!(mb.find_most_distant(), Some(Point::new(0, 0)));

    // walled in, the player's own tile is the farthest
    let mut mb = MapBuilder::blank(3, 1, MapTheme::DungeonTheme).unwrap();
    walls(&mut mb, &[(0, 0), (2, 0)]);
    mb.player_start = Point::new(1, 0);
    assert_eq!(mb.find_most_distant(), Some(Point::new(1, 0)));

    mb.player_start = Point::new(3, 0);
    assert_eq!(mb.find_most_distant(), None);
}

#[test]
fn the_most_distant_tile_has_the_greatest_distance() {
    let mut rng = RandomNumberGenerator::seeded(5);
    let mb = MapBuilder::new(Architect::CellularAutomata, MapTheme::ForestTheme, 40, 30, &mut rng)
        .unwrap();
    let steps = steps_from(&mb, mb.player_start);
    let greatest = steps.iter().flatten().filter(|d| **d < MAX_DEPTH).max().unwrap();
    let goal = mb.amulet_start;
    assert_eq!(steps[(goal.y * 40 + goal.x) as usize], Some(*greatest));
    let first = steps.iter().position(|d| *d == Some(*greatest)).unwrap();
    assert_eq!(first, (goal.y * 40 + goal.x) as usize);
}

#[test]
fn monsters_start_on_floors_more_than_ten_tiles_away() {
    let mut mb = MapBuilder::blank(30, 30, MapTheme::DungeonTheme).unwrap();
    walls(&mut mb, &[(29, 29), (28, 29)]);
    let start = Point::new(0, 0);
    let candidates = mb.spawn_candidates(&start);
    assert_eq!(candidates[0], Point::new(11, 0));
    assert!(candidates.contains(&Point::new(6, 9)));
    assert!(!candidates.contains(&Point::new(6, 8)));
    assert!(!candidates.contains(&Point::new(10, 0)));
    assert!(!candidates.contains(&Point::new(29, 29)));
    assert!(candidates.contains(&Point::new(27, 29)));
    assert!(candidates.windows(2).all(|w| (w[0].y, w[0].x) < (w[1].y, w[1].x)));

    let mut rng = RandomNumberGenerator::seeded(3);
    let spawns = mb.spawn_monsters(&start, &mut rng);
    assert_eq!(spawns.len(), NUM_MONSTERS);
    for (i, s) in spawns.iter().enumerate() {
        assert!(candidates.contains(s));
        assert!(!spawns[..i].contains(s));
    }
    let other = mb.spawn_monsters(&start, &mut RandomNumberGenerator::seeded(4));
    assert_ne!(spawns, other);
}

#[test]
fn with_few_floors_every_one_gets_a_monster() {
    let mut mb = MapBuilder::blank(14, 1, MapTheme::DungeonTheme).unwrap();
    let mut rng = RandomNumberGenerator::seeded(3);
    let mut spawns = mb.spawn_monsters(&Point::new(0, 0), &mut rng);
    spawns.sort_by_key(|p| p.x);
    assert_eq!(spawns, vec![Point::new(11, 0), Point::new(12, 0), Point::new(13, 0)]);
    mb.fill(TileType::ThemeWall);
    assert!(mb.spawn_monsters(&Point::new(0, 0), &mut rng).is_empty());
}

#[test]
fn rolls_pick_the_architect() {
    assert_eq!(Architect::from_roll(0), Architect::DrunkardsWalk);
    assert_eq!(Architect::from_roll(1), Architect::RoomsAndCorridors);
    assert_eq!(Architect::from_roll(2), Architect::CellularAutomata);
}

#[test]
fn every_generated_map_has_its_starts_on_open_tiles() {
    for seed in 0..12 {
        let mut rng = RandomNumberGenerator::seeded(seed);
        let mb = match MapBuilder::new_random(60, 40, &mut rng) {
            Ok(mb) => mb,
            Err(e) => {
                assert!(e == GenerationError::NoFloor || e == GenerationError::OutOfAttempts);
                continue;
            }
        };
        assert_eq!(mb.map.tiles.len(), 60 * 40);
        assert_eq!(mb.map.dimensions, Point::new(60, 40));
        assert!(mb.map.can_enter_tile(mb.player_start));
        assert!(mb.map.can_enter_tile(mb.amulet_start));
        assert!(mb.monster_spawns.iter().all(|m| mb.map.can_enter_tile(*m)));
        let floor = Tile::new(mb.theme.tile_to_render(TileType::ThemeFloor));
        let wall = Tile::new(mb.theme.tile_to_render(TileType::ThemeWall));
        assert!(mb.map.tiles.iter().all(|t| *t == floor || *t == wall));
    }
}

#[test]
fn a_map_without_tiles_is_refused() {
    let mut rng = RandomNumberGenerator::seeded(0);
    for architect in [
        Architect::DrunkardsWalk,
        Architect::RoomsAndCorridors,
        Architect::CellularAutomata,
    ] {
        let made = MapBuilder::new(architect, MapTheme::DungeonTheme, 0, 0, &mut rng);
        assert_eq!(made.err(), Some(GenerationError::BadSize));
    }
    assert_eq!(MapBuilder::new_random(5, 0, &mut rng).err(), Some(GenerationError::BadSize));
}
