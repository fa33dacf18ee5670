use adventure_encounters::helpers::geometry::Point;
use adventure_encounters::helpers::map_builder::drunkard::DrunkardsWalkArchitect;
use adventure_encounters::helpers::map_builder::themes::MapTheme;
use adventure_encounters::helpers::map_builder::{GenerationError, MapBuilder};
use adventure_encounters::helpers::tiles::TileType;
use bracket_random::prelude::RandomNumberGenerator;

fn floors(mb: &MapBuilder) -> usize {
    mb.map.tiles.iter().filter(|t| t.tile_type == TileType::FloorDirt0).count()
}

#[test]
fn a_walker_steps_as_rolled() {
    let at = Point::new(3, 3);
    assert_eq!(DrunkardsWalkArchitect::stagger(at, 0), Point::new(2, 3));
    assert_eq!(DrunkardsWalkArchitect::stagger(at, 1), Point::new(4, 3));
    assert_eq!(DrunkardsWalkArchitect::stagger(at, 2), Point::new(3, 2));
    assert_eq!(DrunkardsWalkArchitect::stagger(at, 3), Point::new(3, 4));
}

#[test]
fn one_walk_ends_and_digs_at_most_401_tiles() {
    let mut rng = RandomNumberGenerator::seeded(11);
    let mut mb = MapBuilder::blank(200, 200, MapTheme::ForestTheme).unwrap();
    mb.fill(TileType::ThemeWall);
    let start = Point::new(100, 100);
    DrunkardsWalkArchitect {}.drunkard(&start, &mut rng, &mut mb);
    let dug = floors(&mb);
    assert!(dug >= 1 && dug <= 401);
    assert_eq!(mb.map.tiles[100 * 200 + 100].tile_type, TileType::FloorDirt0);
}

#[test]
fn caves_without_a_way_to_the_center_are_walled_up() {
    let mut mb = MapBuilder::blank(9, 1, MapTheme::ForestTheme).unwrap();
    mb.fill(TileType::ThemeWall);
    for x in [3, 4, 5, 7, 8] {
        mb.place(Point::new(x, 0), TileType::ThemeFloor);
    }
    DrunkardsWalkArchitect::prune(&mut mb, Point::new(4, 0));
    let kinds: Vec<bool> = mb.map.tiles.iter().map(|t| t.is_opaque).collect();
    assert_eq!(kinds, vec![true, true, true, false, false, false, true, true, true]);
}

#[test]
fn the_drunkard_digs_a_third_of_the_map() {
    let mut rng = RandomNumberGenerator::seeded(42);
    let mb = DrunkardsWalkArchitect {}.new(40, 30, MapTheme::ForestTheme, &mut rng).unwrap();
    assert_eq!(mb.map.tiles.len(), 1200);
    assert_eq!(mb.player_start, Point::new(20, 15));
    assert!(floors(&mb) >= 400);
    assert!(mb.map.can_enter_tile(mb.player_start));
    assert!(mb.map.can_enter_tile(mb.amulet_start));
    assert!(mb.monster_spawns.len() <= 50);
    for m in &mb.monster_spawns {
        assert!(mb.map.can_enter_tile(*m));
        let (dx, dy) = (m.x - 20, m.y - 15);
        assert!(dx * dx + dy * dy > 100);
    }
}

#[test]
fn the_drunkard_gives_up_without_walkers() {
    let mut rng = RandomNumberGenerator::seeded(1);
    let made = DrunkardsWalkArchitect {}.build(60, 60, MapTheme::ForestTheme, &mut rng, 0);
    assert_eq!(made.err(), Some(GenerationError::OutOfAttempts));
}

#[test]
fn the_drunkard_refuses_a_map_without_tiles() {
    let mut rng = RandomNumberGenerator::seeded(1);
    let made = DrunkardsWalkArchitect {}.new(0, 10, MapTheme::ForestTheme, &mut rng);
    assert_eq!(made.err(), Some(GenerationError::BadSize));
    let made = DrunkardsWalkArchitect {}.new(70000, 70000, MapTheme::ForestTheme, &mut rng);
    assert_eq!(made.err(), Some(GenerationError::BadSize));
}

#[test]
fn floors_at_1024_steps_and_more_are_walled_up_too() {
    // distances are measured up to 1023 steps: what lies farther has none,
    // and so lies beyond every limit
    let mut mb = MapBuilder::blank(2100, 1, MapTheme::ForestTheme).unwrap();
    DrunkardsWalkArchitect::prune(&mut mb, Point::new(1050, 0));
    let open = |x: usize| !mb.map.tiles[x].is_opaque;
    assert!(open(1050));
    assert!(open(27) && !open(26) && !open(0));
    assert!(open(2073) && !open(2074) && !open(2099));
    assert_eq!(floors(&mb), 2047);
}

#[test]
fn every_cave_has_a_way_to_the_middle() {
    let mut rng = RandomNumberGenerator::seeded(77);
    let mb = DrunkardsWalkArchitect {}.new(40, 30, MapTheme::ForestTheme, &mut rng).unwrap();
    let mut seen = vec![false; 1200];
    let mut stack = vec![mb.player_start];
    seen[(mb.player_start.y * 40 + mb.player_start.x) as usize] = true;
    while let Some(p) = stack.pop() {
        for (dx, dy) in [(1, 0), (-1, 0), (0, 1), (0, -1)] {
            let q = Point::new(p.x + dx, p.y + dy);
            if mb.map.can_enter_tile(q) && !seen[(q.y * 40 + q.x) as usize] {
                seen[(q.y * 40 + q.x) as usize] = true;
                stack.push(q);
            }
        }
    }
    for (i, tile) in mb.map.tiles.iter().enumerate() {
        assert_eq!(seen[i], !tile.is_opaque);
    }
}
