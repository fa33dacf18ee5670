use adventure_encounters::helpers::geometry::Point;
use adventure_encounters::helpers::map::{MapPoint, SeenLevel, TileMap};
use adventure_encounters::helpers::map_builder::themes::MapTheme;
use adventure_encounters::helpers::map_builder::MapBuilder;
use adventure_encounters::helpers::tiles::TileType;
use adventure_encounters::systems::field_of_view::{field_of_view_system, FieldOfView, Observer};
use adventure_encounters::systems::illumination::{
    illumination_system, IlluminationLevel, LightSource, ProvidesIllumination,
};
use bracket_pathfinding::prelude::{field_of_view_set, Algorithm2D, BaseMap, SmallVec};

/// The map as the line-of-sight algorithm looks at it.
struct View<'a>(&'a TileMap);

impl Algorithm2D for View<'_> {
    fn dimensions(&self) -> bracket_pathfinding::prelude::Point {
        bracket_pathfinding::prelude::Point::new(self.0.dimensions.x, self.0.dimensions.y)
    }
}

impl BaseMap for View<'_> {
    fn is_opaque(&self, idx: usize) -> bool {
        self.0.is_opaque(idx)
    }

    fn get_available_exits(&self, idx: usize) -> SmallVec<[(usize, f32); 10]> {
        self.0.get_available_exits(idx).into_iter().map(|i| (i, 1.0)).collect()
    }
}

fn in_sight(map: &TileMap, from: Point, range: i32) -> Vec<Point> {
    let center = bracket_pathfinding::prelude::Point::new(from.x, from.y);
    field_of_view_set(center, range, &View(map))
        .into_iter()
        .map(|p| Point::new(p.x, p.y))
        .collect()
}

#[test]
fn on_open_ground_sight_goes_both_ways() {
    let map = TileMap::new(15, 15, MapTheme::DungeonTheme);
    let a = Point::new(7, 7);
    let seen = in_sight(&map, a, 4);
    assert!(seen.contains(&a));
    assert!(seen.contains(&Point::new(10, 7)));
    for b in seen {
        assert!(in_sight(&map, b, 4).contains(&a));
    }
}

#[test]
fn a_wall_blocks_light_and_sight() {
    // the wall at x = 5 cuts the corridor in two
    let mut mb = MapBuilder::blank(11, 1, MapTheme::DungeonTheme).unwrap();
    mb.place(Point::new(5, 0), TileType::ThemeWall);
    let torch = Point::new(3, 0);
    let light = ProvidesIllumination::new(10, 20, None);
    let mut lights = vec![LightSource {
        entity: 1,
        map_point: MapPoint::new(torch),
        in_sight: in_sight(&mb.map, torch, light.range()),
        provides_illumination: light,
    }];
    illumination_system(&mut lights, &mut mb);
    let lit: Vec<IlluminationLevel> = mb.map.tiles.iter().map(|t| t.illumination_level).collect();
    let (n, d, u) = (IlluminationLevel::Normal, IlluminationLevel::Dim, IlluminationLevel::Unlit);
    assert_eq!(lit, vec![d, n, n, n, n, n, u, u, u, u, u]);

    let eye = Point::new(8, 0);
    let sight = FieldOfView::new(30, None, None);
    let mut eyes = vec![Observer {
        entity: 2,
        map_point: MapPoint::new(eye),
        in_sight: in_sight(&mb.map, eye, sight.range()),
        field_of_view: sight,
    }];
    field_of_view_system(&mut eyes, &mut mb);
    let seen: Vec<SeenLevel> = mb.map.tiles.iter().map(|t| t.seen_level).collect();
    let (b, k, x) = (SeenLevel::Bright, SeenLevel::Darkness, SeenLevel::Unseen);
    // the wall itself is seen, and lit from the other side
    assert_eq!(seen, vec![x, x, x, x, x, b, k, k, k, k, k]);
}
