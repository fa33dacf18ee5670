//! Light sources and the light level of the tiles they reach.

use vstd::prelude::*;
use vstd::std_specs::iter::IteratorSpec;
use std::collections::HashMap;
use crate::helpers::distance::{feet_to_tiles, is_within_feet, within_feet};
use crate::helpers::geometry::Point;
use crate::helpers::map::{MapPoint, TileMap};
use crate::helpers::map_builder::MapBuilder;
use crate::helpers::tiles::Tile;

verus! {

broadcast use vstd::std_specs::hash::group_hash_axioms;

/// How well a tile is lit.
#[derive(Copy, Clone, Debug, PartialEq, Eq, Structural, PartialOrd, Ord, Hash)]
pub enum IlluminationLevel {
    Unlit,
    Dim,
    Normal,
}

impl IlluminationLevel {
    /// The place of the level in the order `Unlit < Dim < Normal`.
    pub open spec fn rank(self) -> int {
        match self {
            IlluminationLevel::Unlit => 0,
            IlluminationLevel::Dim => 1,
            IlluminationLevel::Normal => 2,
        }
    }
}

/// What makes an entity a light source.
#[derive(Clone, Debug, PartialEq)]
pub struct ProvidesIllumination {
    /// The tiles that the source lit when it was last looked at. The order
    /// and repetitions mean nothing.
    pub illuminated_tiles: Vec<Point>,
    /// How far the bright light reaches, in feet.
    pub bright_interval: u16,
    /// How much farther the dim light reaches, in feet.
    pub shadowy_interval: u16,
    /// The minutes that the source will last, if it burns down at all.
    pub duration: Option<u32>,
    /// The source has moved or changed since it was last looked at.
    pub is_dirty: bool,
}

impl ProvidesIllumination {
    /// A source that has not been looked at yet.
    pub fn new(bright_interval: u16, shadowy_interval: u16, duration: Option<u32>) -> (light:
        ProvidesIllumination)
        ensures
            light.illuminated_tiles@ == Seq::<Point>::empty(),
            light.bright_interval == bright_interval,
            light.shadowy_interval == shadowy_interval,
            light.duration == duration,
            light.is_dirty,
    {
        ProvidesIllumination {
            illuminated_tiles: Vec::new(),
            bright_interval,
            shadowy_interval,
            duration,
            is_dirty: true,
        }
    }

    /// The same source as if it had not been looked at yet.
    pub fn clone_dirty(&self) -> (light: ProvidesIllumination)
        ensures
            light.illuminated_tiles@ == Seq::<Point>::empty(),
            light.bright_interval == self.bright_interval,
            light.shadowy_interval == self.shadowy_interval,
            light.duration == self.duration,
            light.is_dirty,
    {
        ProvidesIllumination {
            illuminated_tiles: Vec::new(),
            bright_interval: self.bright_interval,
            shadowy_interval: self.shadowy_interval,
            duration: self.duration,
            is_dirty: true,
        }
    }

    /// How far the light reaches, in whole tiles.
    pub fn range(&self) -> (tiles: i32)
        ensures
            tiles == (self.bright_interval + self.shadowy_interval) / 5,
    {
        feet_to_tiles(self.bright_interval as u32 + self.shadowy_interval as u32)
    }

    /// The level that the source at `origin` gives the tile at `p`: normal
    /// within the bright interval, dim within the shadowy interval beyond
    /// it, nothing farther out.
    pub open spec fn level_at(self, origin: Point, p: Point) -> IlluminationLevel {
        if within_feet(origin, p, self.bright_interval as int) {
            IlluminationLevel::Normal
        } else if within_feet(origin, p, self.bright_interval + self.shadowy_interval) {
            IlluminationLevel::Dim
        } else {
            IlluminationLevel::Unlit
        }
    }

    /// The level that the source at `origin` gives the tile at `p`.
    pub fn light_level(&self, origin: Point, p: Point) -> (level: IlluminationLevel)
        ensures
            level == self.level_at(origin, p),
    {
        if is_within_feet(origin, p, self.bright_interval as u32) {
            IlluminationLevel::Normal
        } else if is_within_feet(
            origin,
            p,
            self.bright_interval as u32 + self.shadowy_interval as u32,
        ) {
            IlluminationLevel::Dim
        } else {
            IlluminationLevel::Unlit
        }
    }
}

/// A light source as one pass over the map takes it: the entity, where it
/// stands, its light, and the tiles that lie in its line of sight within
/// [`ProvidesIllumination::range`]. The line of sight is read only for a
/// source that is dirty.
pub struct LightSource {
    pub entity: u64,
    pub map_point: MapPoint,
    pub provides_illumination: ProvidesIllumination,
    pub in_sight: Vec<Point>,
}

impl LightSource {
    /// What a pass over this source makes of the levels `by` that the
    /// sources of the tile at `p` give it. A source that is not dirty
    /// changes nothing. A dirty one gives its level to a tile in sight, and
    /// takes its level back from a tile that it lit before and no longer
    /// has in sight.
    pub open spec fn lights(self, by: Map<u64, IlluminationLevel>, p: Point) -> Map<
        u64,
        IlluminationLevel,
    > {
        if !self.provides_illumination.is_dirty {
            by
        } else if self.in_sight@.contains(p) {
            by.insert(self.entity, self.provides_illumination.level_at(self.map_point.0, p))
        } else if self.provides_illumination.illuminated_tiles@.contains(p) {
            by.remove(self.entity)
        } else {
            by
        }
    }

    /// A pass over this source looks at the tile at `p` again.
    pub open spec fn touches(self, p: Point) -> bool {
        self.provides_illumination.is_dirty && (self.in_sight@.contains(p)
            || self.provides_illumination.illuminated_tiles@.contains(p))
    }

    /// The tiles that a pass over this source looks at again: for a dirty
    /// source those that it lit and those that it has in sight.
    pub open spec fn looked_at(self) -> Seq<Point> {
        if self.provides_illumination.is_dirty {
            self.provides_illumination.illuminated_tiles@ + self.in_sight@
        } else {
            Seq::empty()
        }
    }

    /// `self` is what a pass makes of the source `before`: a dirty source
    /// now lights what it had in sight and is clean, any other is as it was.
    pub open spec fn passed(self, before: LightSource) -> bool {
        &&& self.entity == before.entity
        &&& self.map_point == before.map_point
        &&& self.in_sight@ == before.in_sight@
        &&& self.provides_illumination.bright_interval
            == before.provides_illumination.bright_interval
        &&& self.provides_illumination.shadowy_interval
            == before.provides_illumination.shadowy_interval
        &&& self.provides_illumination.duration == before.provides_illumination.duration
        &&& !self.provides_illumination.is_dirty
        &&& self.provides_illumination.illuminated_tiles@ == (if before.provides_illumination.is_dirty {
            before.in_sight@
        } else {
            before.provides_illumination.illuminated_tiles@
        })
    }
}

/// What a pass over `sources`, one after the other, makes of the levels
/// `by` that the sources of the tile at `p` give it.
pub open spec fn lit_after(sources: Seq<LightSource>, by: Map<u64, IlluminationLevel>, p: Point) -> Map<
    u64,
    IlluminationLevel,
>
    decreases sources.len(),
{
    if sources.len() == 0 {
        by
    } else {
        sources.last().lights(lit_after(sources.drop_last(), by, p), p)
    }
}

/// A pass over `sources` looks at the tile at `p` again.
pub open spec fn touched_by(sources: Seq<LightSource>, p: Point) -> bool {
    exists|k: int| 0 <= k < sources.len() && (#[trigger] sources[k]).touches(p)
}

/// What a pass over `sources` makes of a tile at `p`: the terrain and what
/// is seen of it stay, the sources' levels are brought up to date, and the
/// level that they give together is worked out again if a source looked at
/// the tile.
pub open spec fn relit(before: Tile, after: Tile, sources: Seq<LightSource>, p: Point) -> bool {
    &&& after.same_terrain(before)
    &&& after.same_sight(before)
    &&& after.illuminated_by@ == lit_after(sources, before.illuminated_by@, p)
    &&& after.illumination_level == (if touched_by(sources, p) {
        combined_level(after.illuminated_by@)
    } else {
        before.illumination_level
    })
}

/// The level of the tile is what its sources give together.
pub open spec fn light_in_order(tile: Tile) -> bool {
    tile.illumination_level == combined_level(tile.illuminated_by@)
}

/// A pass leaves alone what the sources of a tile give it, if none of the
/// sources passed over looks at the tile.
pub proof fn lemma_untouched_stays(sources: Seq<LightSource>, by: Map<u64, IlluminationLevel>, p: Point)
    requires
        !touched_by(sources, p),
    ensures
        lit_after(sources, by, p) == by,
    decreases sources.len(),
{
    if sources.len() > 0 {
        let rest = sources.drop_last();
        assert(!sources[sources.len() - 1].touches(p));
        assert forall|k: int| 0 <= k < rest.len() implies !(#[trigger] rest[k]).touches(p) by {
            assert(rest[k] == sources[k]);
        }
        lemma_untouched_stays(rest, by, p);
    }
}

/// A copy of the points.
pub fn copy_points(points: &Vec<Point>) -> (copy: Vec<Point>)
    ensures
        copy@ == points@,
{
    let mut copy: Vec<Point> = Vec::new();
    let mut i: usize = 0;
    while i < points.len()
        invariant
            i <= points.len(),
            copy@ == points@.subrange(0, i as int),
        decreases points.len() - i,
    {
        copy.push(points[i]);
        assert(copy@ =~= points@.subrange(0, i as int + 1));
        i = i + 1;
    }
    assert(points@.subrange(0, points.len() as int) =~= points@);
    copy
}

/// The tile at `p` is as in `start` but for the levels that its sources
/// give it, which are `by`.
pub open spec fn lit_like(now: TileMap, start: TileMap, p: Point, by: Map<u64, IlluminationLevel>) -> bool {
    &&& now.tile_at(p).same_terrain(start.tile_at(p))
    &&& now.tile_at(p).same_sight(start.tile_at(p))
    &&& now.tile_at(p).illumination_level == start.tile_at(p).illumination_level
    &&& now.tile_at(p).illuminated_by@ == by
}

/// Records at the tile `at` what `entity` gives it: a level, or nothing any
/// more.
fn record_light(map: &mut TileMap, at: Point, entity: u64, level: Option<IlluminationLevel>)
    requires
        old(map).wf(),
        old(map).spec_in_bounds(at),
    ensures
        final(map).wf(),
        final(map).dimensions == old(map).dimensions,
        forall|p: Point|
            old(map).spec_in_bounds(p) && p != at ==> #[trigger] final(map).tile_at(p) == old(
                map,
            ).tile_at(p),
        lit_like(
            *final(map),
            *old(map),
            at,
            match level {
                Some(l) => old(map).tile_at(at).illuminated_by@.insert(entity, l),
                None => old(map).tile_at(at).illuminated_by@.remove(entity),
            },
        ),
{
    let idx: usize = map.map_idx(at.x, at.y);
    proof {
        map.lemma_index(at);
    }
    match level {
        Some(l) => {
            map.tiles[idx].illuminated_by.insert(entity, l);
        },
        None => {
            map.tiles[idx].illuminated_by.remove(&entity);
        },
    }
    proof {
        assert forall|p: Point| old(map).spec_in_bounds(p) && p != at implies #[trigger] map.tile_at(
            p,
        ) == old(map).tile_at(p) by {
            old(map).lemma_index(p);
            assert(old(map).index_of(p) != old(map).index_of(at));
            assert(map.index_of(p) == old(map).index_of(p));
        }
    }
}

/// What working out the level again makes of a tile: where the tile was
/// looked at, the level is what its sources give together.
pub open spec fn settled_light(before: Tile, after: Tile, looked_at: bool) -> bool {
    &&& after.same_terrain(before)
    &&& after.same_sight(before)
    &&& after.illuminated_by@ == before.illuminated_by@
    &&& after.illumination_level == (if looked_at {
        combined_level(before.illuminated_by@)
    } else {
        before.illumination_level
    })
}

/// One pass over one light source: a dirty source gives its level to every
/// tile in sight, takes it back from the tiles that it lit and no longer has
/// in sight, and is clean afterwards. The tiles looked at are added to
/// `changed`. Points off the map are passed over.
pub fn shine(map: &mut TileMap, source: &mut LightSource, changed: &mut Vec<Point>)
    requires
        old(map).wf(),
    ensures
        final(map).wf(),
        final(map).dimensions == old(map).dimensions,
        forall|p: Point|
            old(map).spec_in_bounds(p) ==> #[trigger] lit_like(
                *final(map),
                *old(map),
                p,
                old(source).lights(old(map).tile_at(p).illuminated_by@, p),
            ),
        final(source).passed(*old(source)),
        final(changed)@ == old(changed)@ + old(source).looked_at(),
{
    if !source.provides_illumination.is_dirty {
        assert(changed@ + Seq::<Point>::empty() =~= changed@);
        return ;
    }
    let entity: u64 = source.entity;
    let origin: Point = source.map_point.0;
    let ghost start = *map;
    let ghost noted = changed@;
    let ghost lit = source.provides_illumination.illuminated_tiles@;
    let ghost sight = source.in_sight@;
    let mut j: usize = 0;
    assert(changed@ =~= noted + lit.subrange(0, 0));
    while j < source.provides_illumination.illuminated_tiles.len()
        invariant
            map.wf(),
            start.wf(),
            map.dimensions == start.dimensions,
            *source == *old(source),
            lit == source.provides_illumination.illuminated_tiles@,
            j <= lit.len(),
            changed@ == noted + lit.subrange(0, j as int),
            forall|p: Point|
                #![trigger start.tile_at(p)]
                start.spec_in_bounds(p) ==> lit_like(
                    *map,
                    start,
                    p,
                    if lit.subrange(0, j as int).contains(p) {
                        start.tile_at(p).illuminated_by@.remove(entity)
                    } else {
                        start.tile_at(p).illuminated_by@
                    },
                ),
        decreases lit.len() - j,
    {
        let x: Point = source.provides_illumination.illuminated_tiles[j];
        let ghost prev = *map;
        let ghost done = lit.subrange(0, j as int);
        let ghost done_next = lit.subrange(0, j as int + 1);
        if map.in_bounds(x) {
            record_light(map, x, entity, None);
        }
        changed.push(x);
        proof {
            assert(done_next =~= done.push(x));
            assert(changed@ =~= noted + done_next);
            assert forall|p: Point| done_next.contains(p) <==> done.contains(p) || p == x by {
                if done.contains(p) {
                    let k = choose|k: int| 0 <= k < done.len() && done[k] == p;
                    assert(done_next[k] == p);
                }
                assert(done_next[j as int] == x);
            }
            assert forall|p: Point| #![trigger start.tile_at(p)] start.spec_in_bounds(p) implies lit_like(
                *map,
                start,
                p,
                if done_next.contains(p) {
                    start.tile_at(p).illuminated_by@.remove(entity)
                } else {
                    start.tile_at(p).illuminated_by@
                },
            ) by {
                let first = start.tile_at(p).illuminated_by@;
                assert(lit_like(
                    prev,
                    start,
                    p,
                    if done.contains(p) {
                        first.remove(entity)
                    } else {
                        first
                    },
                ));
                if p == x {
                    assert(first.remove(entity).remove(entity) =~= first.remove(entity));
                } else if start.spec_in_bounds(x) {
                    assert(map.tile_at(p) == prev.tile_at(p));
                }
            }
        }
        j = j + 1;
    }
    j = 0;
    let ghost between = changed@;
    proof {
        assert(lit.subrange(0, lit.len() as int) =~= lit);
        assert(changed@ =~= between + sight.subrange(0, 0));
        assert(!sight.subrange(0, 0).contains(origin)) by {
            assert(sight.subrange(0, 0).len() == 0);
        }
        assert forall|p: Point| !(#[trigger] sight.subrange(0, 0).contains(p)) by {
            assert(sight.subrange(0, 0).len() == 0);
        }
    }
    while j < source.in_sight.len()
        invariant
            map.wf(),
            start.wf(),
            map.dimensions == start.dimensions,
            *source == *old(source),
            lit == source.provides_illumination.illuminated_tiles@,
            sight == source.in_sight@,
            origin == source.map_point.0,
            entity == source.entity,
            j <= sight.len(),
            changed@ == between + sight.subrange(0, j as int),
            forall|p: Point|
                #![trigger start.tile_at(p)]
                start.spec_in_bounds(p) ==> lit_like(
                    *map,
                    start,
                    p,
                    if sight.subrange(0, j as int).contains(p) {
                        start.tile_at(p).illuminated_by@.insert(
                            entity,
                            source.provides_illumination.level_at(origin, p),
                        )
                    } else if lit.contains(p) {
                        start.tile_at(p).illuminated_by@.remove(entity)
                    } else {
                        start.tile_at(p).illuminated_by@
                    },
                ),
        decreases sight.len() - j,
    {
        let x: Point = source.in_sight[j];
        let ghost prev = *map;
        let ghost done = sight.subrange(0, j as int);
        let ghost done_next = sight.subrange(0, j as int + 1);
        if map.in_bounds(x) {
            let level = source.provides_illumination.light_level(origin, x);
            record_light(map, x, entity, Some(level));
        }
        changed.push(x);
        proof {
            assert(done_next =~= done.push(x));
            assert(changed@ =~= between + done_next);
            assert forall|p: Point| done_next.contains(p) <==> done.contains(p) || p == x by {
                if done.contains(p) {
                    let k = choose|k: int| 0 <= k < done.len() && done[k] == p;
                    assert(done_next[k] == p);
                }
                assert(done_next[j as int] == x);
            }
            assert forall|p: Point| #![trigger start.tile_at(p)] start.spec_in_bounds(p) implies lit_like(
                *map,
                start,
                p,
                if done_next.contains(p) {
                    start.tile_at(p).illuminated_by@.insert(
                        entity,
                        source.provides_illumination.level_at(origin, p),
                    )
                } else if lit.contains(p) {
                    start.tile_at(p).illuminated_by@.remove(entity)
                } else {
                    start.tile_at(p).illuminated_by@
                },
            ) by {
                let first = start.tile_at(p).illuminated_by@;
                let level = source.provides_illumination.level_at(origin, p);
                assert(lit_like(
                    prev,
                    start,
                    p,
                    if done.contains(p) {
                        first.insert(entity, level)
                    } else if lit.contains(p) {
                        first.remove(entity)
                    } else {
                        first
                    },
                ));
                if p == x {
                    assert(first.insert(entity, level).insert(entity, level) =~= first.insert(
                        entity,
                        level,
                    ));
                    assert(first.remove(entity).insert(entity, level) =~= first.insert(
                        entity,
                        level,
                    ));
                } else if start.spec_in_bounds(x) {
                    assert(map.tile_at(p) == prev.tile_at(p));
                }
            }
        }
        j = j + 1;
    }
    let copy = copy_points(&source.in_sight);
    source.provides_illumination.illuminated_tiles = copy;
    source.provides_illumination.is_dirty = false;
    proof {
        assert(sight.subrange(0, sight.len() as int) =~= sight);
        assert(changed@ =~= noted + (lit + sight));
    }
}

/// Works out again the level of every tile in `changed` from what its
/// sources give it. Points off the map are passed over.
pub fn settle_light(map: &mut TileMap, changed: &Vec<Point>)
    requires
        old(map).wf(),
    ensures
        final(map).wf(),
        final(map).dimensions == old(map).dimensions,
        forall|p: Point|
            old(map).spec_in_bounds(p) ==> #[trigger] settled_light(
                old(map).tile_at(p),
                final(map).tile_at(p),
                changed@.contains(p),
            ),
{
    let ghost start = *map;
    let mut j: usize = 0;
    proof {
        assert forall|p: Point| !(#[trigger] changed@.subrange(0, 0).contains(p)) by {
            assert(changed@.subrange(0, 0).len() == 0);
        }
    }
    while j < changed.len()
        invariant
            map.wf(),
            start.wf(),
            map.dimensions == start.dimensions,
            j <= changed.len(),
            forall|p: Point|
                start.spec_in_bounds(p) ==> #[trigger] settled_light(
                    start.tile_at(p),
                    map.tile_at(p),
                    changed@.subrange(0, j as int).contains(p),
                ),
        decreases changed.len() - j,
    {
        let x: Point = changed[j];
        let ghost prev = *map;
        let ghost done = changed@.subrange(0, j as int);
        let ghost done_next = changed@.subrange(0, j as int + 1);
        if map.in_bounds(x) {
            let idx: usize = map.map_idx(x.x, x.y);
            let level = combine_levels(&map.tiles[idx].illuminated_by);
            map.tiles[idx].illumination_level = level;
            proof {
                assert forall|p: Point| start.spec_in_bounds(p) && p != x implies #[trigger] map.tile_at(
                    p,
                ) == prev.tile_at(p) by {
                    prev.lemma_index(p);
                    prev.lemma_index(x);
                    assert(map.index_of(p) == prev.index_of(p));
                }
            }
        }
        proof {
            assert(done_next =~= done.push(x));
            assert forall|p: Point| done_next.contains(p) <==> done.contains(p) || p == x by {
                if done.contains(p) {
                    let k = choose|k: int| 0 <= k < done.len() && done[k] == p;
                    assert(done_next[k] == p);
                }
                assert(done_next[j as int] == x);
            }
            assert forall|p: Point| start.spec_in_bounds(p) implies #[trigger] settled_light(
                start.tile_at(p),
                map.tile_at(p),
                done_next.contains(p),
            ) by {
                assert(settled_light(start.tile_at(p), prev.tile_at(p), done.contains(p)));
                if p != x && start.spec_in_bounds(x) {
                    assert(map.tile_at(p) == prev.tile_at(p));
                }
            }
        }
        j = j + 1;
    }
    proof {
        assert(changed@.subrange(0, changed.len() as int) =~= changed@);
    }
}

/// One tick of light: a pass over all `light_sources` in their order, and
/// then the level worked out again for every tile that one of them looked
/// at. This comes before the tick of sight, which reads the levels.
pub fn illumination_system(light_sources: &mut Vec<LightSource>, mb: &mut MapBuilder)
    requires
        old(mb).map.wf(),
    ensures
        final(mb).map.wf(),
        final(mb).map.dimensions == old(mb).map.dimensions,
        forall|p: Point|
            old(mb).map.spec_in_bounds(p) ==> #[trigger] relit(
                old(mb).map.tile_at(p),
                final(mb).map.tile_at(p),
                old(light_sources)@,
                p,
            ),
        forall|p: Point|
            old(mb).map.spec_in_bounds(p) && light_in_order(old(mb).map.tile_at(p))
                ==> light_in_order(#[trigger] final(mb).map.tile_at(p)),
        final(light_sources).len() == old(light_sources).len(),
        forall|k: int|
            0 <= k < old(light_sources).len() ==> (#[trigger] final(light_sources)[k]).passed(
                old(light_sources)[k],
            ),
        final(mb).rooms == old(mb).rooms,
        final(mb).monster_spawns == old(mb).monster_spawns,
        final(mb).entity_spawns == old(mb).entity_spawns,
        final(mb).player_start == old(mb).player_start,
        final(mb).amulet_start == old(mb).amulet_start,
        final(mb).theme == old(mb).theme,
{
    let ghost start = mb.map;
    let ghost before = light_sources@;
    let mut changed: Vec<Point> = Vec::new();
    let mut k: usize = 0;
    while k < light_sources.len()
        invariant
            mb.map.wf(),
            start.wf(),
            mb.map.dimensions == start.dimensions,
            light_sources.len() == before.len(),
            k <= before.len(),
            forall|i: int| 0 <= i < k ==> (#[trigger] light_sources[i]).passed(before[i]),
            forall|i: int| k <= i < before.len() ==> #[trigger] light_sources[i] == before[i],
            forall|p: Point|
                start.spec_in_bounds(p) ==> #[trigger] lit_like(
                    mb.map,
                    start,
                    p,
                    lit_after(before.subrange(0, k as int), start.tile_at(p).illuminated_by@, p),
                ),
            forall|p: Point| changed@.contains(p) <==> touched_by(before.subrange(0, k as int), p),
            mb.rooms == old(mb).rooms,
            mb.monster_spawns == old(mb).monster_spawns,
            mb.entity_spawns == old(mb).entity_spawns,
            mb.player_start == old(mb).player_start,
            mb.amulet_start == old(mb).amulet_start,
            mb.theme == old(mb).theme,
        decreases before.len() - k,
    {
        let ghost prev = mb.map;
        let ghost noted = changed@;
        let ghost others = light_sources@;
        shine(&mut mb.map, &mut light_sources[k], &mut changed);
        proof {
            let source = before[k as int];
            let done = before.subrange(0, k as int);
            let done_next = before.subrange(0, k as int + 1);
            assert(done_next.drop_last() =~= done);
            assert(done_next.last() == source);
            assert forall|p: Point| start.spec_in_bounds(p) implies #[trigger] lit_like(
                mb.map,
                start,
                p,
                lit_after(done_next, start.tile_at(p).illuminated_by@, p),
            ) by {
                assert(lit_like(
                    prev,
                    start,
                    p,
                    lit_after(done, start.tile_at(p).illuminated_by@, p),
                ));
                assert(lit_like(
                    mb.map,
                    prev,
                    p,
                    source.lights(prev.tile_at(p).illuminated_by@, p),
                ));
            }
            assert forall|p: Point| changed@.contains(p) <==> touched_by(done_next, p) by {
                lemma_looked_at(source, p);
                if touched_by(done_next, p) {
                    let i = choose|i: int|
                        0 <= i < done_next.len() && (#[trigger] done_next[i]).touches(p);
                    if i < k {
                        assert(done[i].touches(p));
                    }
                }
                if touched_by(done, p) {
                    let i = choose|i: int| 0 <= i < done.len() && (#[trigger] done[i]).touches(p);
                    assert(done_next[i].touches(p));
                }
                if source.touches(p) {
                    assert(done_next[k as int].touches(p));
                }
                lemma_contains_concat(noted, source.looked_at(), p);
            }
        }
        k = k + 1;
    }
    let ghost passed = mb.map;
    settle_light(&mut mb.map, &changed);
    proof {
        assert(before.subrange(0, before.len() as int) =~= before);
        assert forall|p: Point| start.spec_in_bounds(p) implies #[trigger] relit(
            start.tile_at(p),
            mb.map.tile_at(p),
            before,
            p,
        ) by {
            assert(lit_like(passed, start, p, lit_after(before, start.tile_at(p).illuminated_by@, p)));
            assert(settled_light(passed.tile_at(p), mb.map.tile_at(p), changed@.contains(p)));
        }
        assert forall|p: Point|
            start.spec_in_bounds(p) && light_in_order(start.tile_at(p)) implies light_in_order(
            #[trigger] mb.map.tile_at(p),
        ) by {
            assert(relit(start.tile_at(p), mb.map.tile_at(p), before, p));
            if !touched_by(before, p) {
                lemma_untouched_stays(before, start.tile_at(p).illuminated_by@, p);
            }
        }
    }
}

/// A pass over a source looks again at just the tiles that the source
/// touches.
pub proof fn lemma_looked_at(source: LightSource, p: Point)
    ensures
        source.looked_at().contains(p) <==> source.touches(p),
{
    if source.provides_illumination.is_dirty {
        lemma_contains_concat(source.provides_illumination.illuminated_tiles@, source.in_sight@, p);
    } else {
        assert(source.looked_at().len() == 0);
    }
}

/// A point is in two lists put together if it is in one of them.
pub proof fn lemma_contains_concat(a: Seq<Point>, b: Seq<Point>, p: Point)
    ensures
        (a + b).contains(p) <==> a.contains(p) || b.contains(p),
{
    let both = a + b;
    if both.contains(p) {
        let k = choose|k: int| 0 <= k < both.len() && both[k] == p;
        if k < a.len() {
            assert(a[k] == p);
        } else {
            assert(b[k - a.len()] == p);
        }
    }
    if a.contains(p) {
        let k = choose|k: int| 0 <= k < a.len() && a[k] == p;
        assert(both[k] == p);
    }
    if b.contains(p) {
        let k = choose|k: int| 0 <= k < b.len() && b[k] == p;
        assert(both[a.len() + k] == p);
    }
}

/// Some source gives the level.
pub open spec fn gives(by: Map<u64, IlluminationLevel>, level: IlluminationLevel) -> bool {
    exists|k: u64| by.contains_key(k) && #[trigger] by[k] == level
}

/// Two different sources give the level.
pub open spec fn gives_twice(by: Map<u64, IlluminationLevel>, level: IlluminationLevel) -> bool {
    exists|k1: u64, k2: u64|
        k1 != k2 && by.contains_key(k1) && by.contains_key(k2) && #[trigger] by[k1] == level
            && #[trigger] by[k2] == level
}

/// The level that the sources of a tile give together: normal where one of
/// them gives normal light or two give dim light, dim where one gives dim
/// light, else none.
pub open spec fn combined_level(by: Map<u64, IlluminationLevel>) -> IlluminationLevel {
    if gives(by, IlluminationLevel::Normal) || gives_twice(by, IlluminationLevel::Dim) {
        IlluminationLevel::Normal
    } else if gives(by, IlluminationLevel::Dim) {
        IlluminationLevel::Dim
    } else {
        IlluminationLevel::Unlit
    }
}

/// A tile is lit at least as well as each of its sources lights it.
pub proof fn law_combined_level_covers_each_source(by: Map<u64, IlluminationLevel>, source: u64)
    requires
        by.contains_key(source),
    ensures
        combined_level(by).rank() >= by[source].rank(),
{
    if by[source] == IlluminationLevel::Normal {
        assert(gives(by, IlluminationLevel::Normal));
    } else if by[source] == IlluminationLevel::Dim {
        assert(gives(by, IlluminationLevel::Dim));
    }
}

/// Two dim sources on one tile light it normally.
pub proof fn law_two_dim_sources_give_normal(
    by: Map<u64, IlluminationLevel>,
    first: u64,
    second: u64,
)
    requires
        first != second,
        by.contains_key(first),
        by.contains_key(second),
        by[first] == IlluminationLevel::Dim,
        by[second] == IlluminationLevel::Dim,
    ensures
        combined_level(by) == IlluminationLevel::Normal,
{
    assert(gives_twice(by, IlluminationLevel::Dim));
}

/// The level that the sources of a tile give together.
pub fn combine_levels(by: &HashMap<u64, IlluminationLevel>) -> (level: IlluminationLevel)
    ensures
        level == combined_level(by@),
{
    let mut normal: bool = false;
    let mut dims: u8 = 0;
    let ghost all = by.iter().remaining();
    let ghost mut seen: int = 0;
    let ghost mut first_normal: int = 0;
    let ghost mut first_dim: int = 0;
    let ghost mut second_dim: int = 0;
    for entry in it: by.iter()
        invariant
            it.seq() == all,
            seen == it.index(),
            dims <= 2,
            normal ==> 0 <= first_normal < seen && *all[first_normal].1
                == IlluminationLevel::Normal,
            !normal ==> forall|j: int|
                0 <= j < seen ==> *(#[trigger] all[j]).1 != IlluminationLevel::Normal,
            dims >= 1 ==> 0 <= first_dim < seen && *all[first_dim].1 == IlluminationLevel::Dim,
            dims == 2 ==> 0 <= second_dim < seen && second_dim != first_dim && *all[second_dim].1
                == IlluminationLevel::Dim,
            dims == 0 ==> forall|j: int|
                0 <= j < seen ==> *(#[trigger] all[j]).1 != IlluminationLevel::Dim,
            dims == 1 ==> forall|j: int|
                0 <= j < seen && j != first_dim ==> *(#[trigger] all[j]).1
                    != IlluminationLevel::Dim,
    {
        let level: IlluminationLevel = *entry.1;
        match level {
            IlluminationLevel::Normal => {
                proof {
                    if !normal {
                        first_normal = seen;
                    }
                }
                normal = true;
            },
            IlluminationLevel::Dim => {
                proof {
                    if dims == 0 {
                        first_dim = seen;
                    } else if dims == 1 {
                        second_dim = seen;
                    }
                }
                if dims < 2 {
                    dims = dims + 1;
                }
            },
            _ => {},
        }
        proof {
            seen = seen + 1;
        }
    }
    proof {
        assert(seen == all.len());
        assert(all.no_duplicates());
        assert forall|k: u64| by@.contains_key(k) implies exists|j: int|
            0 <= j < all.len() && *(#[trigger] all[j]).0 == k && *all[j].1 == by@[k] by {
            assert(all.contains((&k, &by@[k])));
            let j = choose|j: int| 0 <= j < all.len() && all[j] == (&k, &by@[k]);
            assert(*all[j].0 == k);
        }
        if normal {
            let k = *all[first_normal].0;
            assert(by@.contains_key(k) && by@[k] == IlluminationLevel::Normal);
        } else {
            assert forall|k: u64| by@.contains_key(k) implies #[trigger] by@[k]
                != IlluminationLevel::Normal by {
                let j = choose|j: int|
                    0 <= j < all.len() && *(#[trigger] all[j]).0 == k && *all[j].1 == by@[k];
            }
        }
        if dims >= 1 {
            let k = *all[first_dim].0;
            assert(by@.contains_key(k) && by@[k] == IlluminationLevel::Dim);
        } else {
            assert forall|k: u64| by@.contains_key(k) implies #[trigger] by@[k]
                != IlluminationLevel::Dim by {
                let j = choose|j: int|
                    0 <= j < all.len() && *(#[trigger] all[j]).0 == k && *all[j].1 == by@[k];
            }
        }
        if dims == 2 {
            let k1 = *all[first_dim].0;
            let k2 = *all[second_dim].0;
            assert(by@.contains_key(k1) && by@[k1] == IlluminationLevel::Dim);
            assert(by@.contains_key(k2) && by@[k2] == IlluminationLevel::Dim);
            assert(k1 == k2 ==> all[first_dim] == all[second_dim]);
        } else if dims == 1 {
            assert forall|k1: u64, k2: u64|
                k1 != k2 && by@.contains_key(k1) && by@.contains_key(k2) && #[trigger] by@[k1]
                    == IlluminationLevel::Dim implies #[trigger] by@[k2]
                != IlluminationLevel::Dim by {
                let j1 = choose|j: int|
                    0 <= j < all.len() && *(#[trigger] all[j]).0 == k1 && *all[j].1 == by@[k1];
                let j2 = choose|j: int|
                    0 <= j < all.len() && *(#[trigger] all[j]).0 == k2 && *all[j].1 == by@[k2];
                assert(j1 != j2);
            }
        }
    }
    if normal || dims > 1 {
        IlluminationLevel::Normal
    } else if dims > 0 {
        IlluminationLevel::Dim
    } else {
        IlluminationLevel::Unlit
    }
}

} // verus!
