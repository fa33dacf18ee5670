use adventure_encounters::helpers::geometry::Point;
use adventure_encounters::helpers::map::{MapPoint, SeenLevel};
use adventure_encounters::helpers::map_builder::themes::MapTheme;
use adventure_encounters::helpers::map_builder::MapBuilder;
use adventure_encounters::systems::field_of_view::{
    field_of_view_system, raise_level, FieldOfView, Observer,
};
use adventure_encounters::systems::illumination::{
    combine_levels, illumination_system, IlluminationLevel, LightSource, ProvidesIllumination,
};
use std::collections::HashMap;

fn level(width: u32, height: u32) -> MapBuilder {
    MapBuilder::blank(width, height, MapTheme::DungeonTheme).unwrap()
}

fn square(center: Point, radius: i32) -> Vec<Point> {
    let mut points = Vec::new();
    for y in center.y - radius..=center.y + radius {
        for x in center.x - radius..=center.x + radius {
            points.push(Point::new(x, y));
        }
    }
    points
}

fn torch(entity: u64, at: Point, bright: u16, shadowy: u16, radius: i32) -> LightSource {
    LightSource {
        entity,
        map_point: MapPoint::new(at),
        provides_illumination: ProvidesIllumination::new(bright, shadowy, None),
        in_sight: square(at, radius),
    }
}

#[test]
fn two_dim_sources_make_normal_light() {
    let mut by = HashMap::new();
    assert_eq!(combine_levels(&by), IlluminationLevel::Unlit);
    by.insert(1, IlluminationLevel::Dim);
    assert_eq!(combine_levels(&by), IlluminationLevel::Dim);
    by.insert(2, IlluminationLevel::Dim);
    assert_eq!(combine_levels(&by), IlluminationLevel::Normal);
    by.remove(&1);
    assert_eq!(combine_levels(&by), IlluminationLevel::Dim);
    by.insert(3, IlluminationLevel::Unlit);
    assert_eq!(combine_levels(&by), IlluminationLevel::Dim);
    by.insert(4, IlluminationLevel::Normal);
    assert_eq!(combine_levels(&by), IlluminationLevel::Normal);
}

#[test]
fn light_falls_off_with_distance() {
    let light = ProvidesIllumination::new(10, 10, None);
    let origin = Point::new(5, 5);
    assert_eq!(light.range(), 4);
    assert_eq!(light.light_level(origin, Point::new(5, 5)), IlluminationLevel::Normal);
    assert_eq!(light.light_level(origin, Point::new(7, 5)), IlluminationLevel::Normal);
    assert_eq!(light.light_level(origin, Point::new(8, 5)), IlluminationLevel::Dim);
    assert_eq!(light.light_level(origin, Point::new(9, 5)), IlluminationLevel::Dim);
    assert_eq!(light.light_level(origin, Point::new(10, 5)), IlluminationLevel::Unlit);
    // (2, 2) is sqrt(8) tiles away: 14.1 feet
    assert_eq!(light.light_level(origin, Point::new(7, 7)), IlluminationLevel::Dim);
    // (3, 4) is exactly 5 tiles away: 25 feet
    let far = ProvidesIllumination::new(25, 0, None);
    assert_eq!(far.light_level(origin, Point::new(8, 9)), IlluminationLevel::Normal);
    let near = ProvidesIllumination::new(24, 0, None);
    assert_eq!(near.light_level(origin, Point::new(8, 9)), IlluminationLevel::Unlit);
}

#[test]
fn overlapping_dim_sources_light_a_tile_normally() {
    let mut mb = level(12, 3);
    let mut sources = vec![
        torch(1, Point::new(2, 1), 5, 15, 4),
        torch(2, Point::new(8, 1), 5, 15, 4),
    ];
    illumination_system(&mut sources, &mut mb);
    let tile = |x: i32| &mb.map.tiles[(12 + x) as usize];
    assert_eq!(tile(2).illumination_level, IlluminationLevel::Normal);
    assert_eq!(tile(0).illumination_level, IlluminationLevel::Dim);
    // three tiles from both: dim from each, normal together
    assert_eq!(tile(5).illuminated_by.get(&1), Some(&IlluminationLevel::Dim));
    assert_eq!(tile(5).illuminated_by.get(&2), Some(&IlluminationLevel::Dim));
    assert_eq!(tile(5).illumination_level, IlluminationLevel::Normal);
    assert_eq!(tile(11).illuminated_by.get(&2), Some(&IlluminationLevel::Dim));
    assert_eq!(tile(11).illuminated_by.get(&1), None);
    assert_eq!(tile(11).illumination_level, IlluminationLevel::Dim);
    assert!(!sources[0].provides_illumination.is_dirty);
    assert_eq!(sources[0].provides_illumination.illuminated_tiles, sources[0].in_sight);
}

#[test]
fn a_source_that_moves_takes_its_light_along() {
    let mut mb = level(12, 1);
    let mut sources = vec![torch(7, Point::new(1, 0), 5, 0, 1)];
    illumination_system(&mut sources, &mut mb);
    assert_eq!(mb.map.tiles[1].illumination_level, IlluminationLevel::Normal);
    assert_eq!(mb.map.tiles[0].illuminated_by.get(&7), Some(&IlluminationLevel::Normal));

    sources[0].map_point = MapPoint::new(Point::new(9, 0));
    sources[0].in_sight = square(Point::new(9, 0), 1);
    sources[0].provides_illumination.is_dirty = true;
    illumination_system(&mut sources, &mut mb);
    assert!(mb.map.tiles[0].illuminated_by.is_empty());
    assert_eq!(mb.map.tiles[1].illumination_level, IlluminationLevel::Unlit);
    assert_eq!(mb.map.tiles[9].illumination_level, IlluminationLevel::Normal);

    // a clean source is passed over, whatever it has in sight
    sources[0].in_sight = square(Point::new(4, 0), 1);
    illumination_system(&mut sources, &mut mb);
    assert_eq!(mb.map.tiles[4].illumination_level, IlluminationLevel::Unlit);
    assert_eq!(mb.map.tiles[9].illumination_level, IlluminationLevel::Normal);
}

#[test]
fn seen_level_follows_light_and_dark_vision() {
    let origin = Point::new(0, 0);
    let near = Point::new(2, 0);
    let far = Point::new(5, 0);
    let plain = FieldOfView::new(60, None, None);
    let owl = FieldOfView::new(60, None, Some(10));
    assert_eq!(plain.range(), 12);
    assert_eq!(plain.seen_level(IlluminationLevel::Unlit, origin, near), SeenLevel::Darkness);
    assert_eq!(plain.seen_level(IlluminationLevel::Dim, origin, near), SeenLevel::Shadowy);
    assert_eq!(plain.seen_level(IlluminationLevel::Normal, origin, far), SeenLevel::Bright);
    assert_eq!(owl.seen_level(IlluminationLevel::Unlit, origin, near), SeenLevel::Shadowy);
    assert_eq!(owl.seen_level(IlluminationLevel::Unlit, origin, far), SeenLevel::Darkness);
    assert_eq!(owl.seen_level(IlluminationLevel::Dim, origin, near), SeenLevel::Bright);
    assert_eq!(owl.seen_level(IlluminationLevel::Dim, origin, far), SeenLevel::Shadowy);
    assert_eq!(owl.seen_level(IlluminationLevel::Normal, origin, far), SeenLevel::Bright);
}

#[test]
fn raising_follows_the_table() {
    let by = |levels: &[SeenLevel]| {
        let mut m = HashMap::new();
        for (i, l) in levels.iter().enumerate() {
            m.insert(i as u64, *l);
        }
        m
    };
    let (bright, shadowy, darkness, unseen) =
        (SeenLevel::Bright, SeenLevel::Shadowy, SeenLevel::Darkness, SeenLevel::Unseen);
    assert_eq!(raise_level(bright, &by(&[])), bright);
    assert_eq!(raise_level(bright, &by(&[darkness])), bright);
    assert_eq!(raise_level(shadowy, &by(&[darkness])), shadowy);
    assert_eq!(raise_level(shadowy, &by(&[darkness, bright])), bright);
    assert_eq!(raise_level(darkness, &by(&[])), darkness);
    assert_eq!(raise_level(darkness, &by(&[shadowy])), shadowy);
    assert_eq!(raise_level(darkness, &by(&[shadowy, bright])), bright);
    assert_eq!(raise_level(unseen, &by(&[])), unseen);
    assert_eq!(raise_level(unseen, &by(&[unseen])), unseen);
    assert_eq!(raise_level(unseen, &by(&[darkness])), darkness);
    assert_eq!(raise_level(unseen, &by(&[darkness, shadowy])), shadowy);
    assert_eq!(raise_level(unseen, &by(&[bright, darkness])), bright);
}

#[test]
fn a_tile_seen_brightly_stays_bright() {
    let mut mb = level(10, 1);
    let mut lights = vec![torch(1, Point::new(1, 0), 5, 0, 1)];
    illumination_system(&mut lights, &mut mb);

    let mut watchers = vec![Observer {
        entity: 9,
        map_point: MapPoint::new(Point::new(1, 0)),
        field_of_view: FieldOfView::new(10, None, None),
        in_sight: square(Point::new(1, 0), 2),
    }];
    field_of_view_system(&mut watchers, &mut mb);
    assert_eq!(mb.map.tiles[1].seen_level, SeenLevel::Bright);
    assert_eq!(mb.map.tiles[3].seen_level, SeenLevel::Darkness);
    assert_eq!(mb.map.tiles[6].seen_level, SeenLevel::Unseen);
    assert_eq!(mb.map.tiles[1].seen_by.get(&9), Some(&SeenLevel::Bright));

    // the light goes, the watcher walks off: what was bright stays bright
    lights[0].in_sight = Vec::new();
    lights[0].provides_illumination.is_dirty = true;
    illumination_system(&mut lights, &mut mb);
    assert_eq!(mb.map.tiles[1].illumination_level, IlluminationLevel::Unlit);
    watchers[0].map_point = MapPoint::new(Point::new(7, 0));
    watchers[0].in_sight = square(Point::new(7, 0), 2);
    watchers[0].field_of_view.is_dirty = true;
    field_of_view_system(&mut watchers, &mut mb);
    assert_eq!(mb.map.tiles[1].seen_level, SeenLevel::Bright);
    assert!(mb.map.tiles[1].seen_by.is_empty());
    assert_eq!(mb.map.tiles[3].seen_level, SeenLevel::Darkness);
    assert_eq!(mb.map.tiles[6].seen_level, SeenLevel::Darkness);
    assert_eq!(watchers[0].field_of_view.visible_tiles, watchers[0].in_sight);
    assert!(!watchers[0].field_of_view.is_dirty);

    // seen again in the dark, it is still bright
    watchers[0].map_point = MapPoint::new(Point::new(1, 0));
    watchers[0].in_sight = square(Point::new(1, 0), 2);
    watchers[0].field_of_view.is_dirty = true;
    field_of_view_system(&mut watchers, &mut mb);
    assert_eq!(mb.map.tiles[1].seen_by.get(&9), Some(&SeenLevel::Darkness));
    assert_eq!(mb.map.tiles[1].seen_level, SeenLevel::Bright);
}

#[test]
fn fresh_components_are_dirty() {
    let light = ProvidesIllumination::new(30, 60, Some(5));
    assert!(light.is_dirty && light.illuminated_tiles.is_empty());
    assert_eq!((light.bright_interval, light.shadowy_interval, light.duration), (30, 60, Some(5)));
    let mut used = light.clone();
    used.is_dirty = false;
    used.illuminated_tiles.push(Point::new(1, 1));
    let again = used.clone_dirty();
    assert_eq!(again, light);

    let fov = FieldOfView::new(60, Some(1), Some(2));
    assert!(fov.is_dirty && fov.visible_tiles.is_empty());
    assert_eq!((fov.normal_vision, fov.dim_vision, fov.dark_vision), (60, Some(1), Some(2)));
    let mut seen = fov.clone();
    seen.is_dirty = false;
    seen.visible_tiles.push(Point::new(1, 1));
    assert_eq!(seen.clone_dirty(), fov);
}
