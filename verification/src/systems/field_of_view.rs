//! Observers and how well the tiles in their view are seen.

use vstd::prelude::*;
use vstd::std_specs::iter::IteratorSpec;
use std::collections::HashMap;
use crate::helpers::distance::{feet_to_tiles, is_within_feet, within_feet};
use crate::helpers::geometry::Point;
use crate::helpers::map::{MapPoint, SeenLevel, TileMap};
use crate::helpers::map_builder::MapBuilder;
use crate::helpers::tiles::Tile;
use crate::systems::illumination::{copy_points, lemma_contains_concat, IlluminationLevel};

verus! {

broadcast use vstd::std_specs::hash::group_hash_axioms;

/// What makes an entity an observer.
#[derive(Clone, Debug, PartialEq)]
pub struct FieldOfView {
    /// The tiles that the observer had in view when it was last looked at.
    /// The order and repetitions mean nothing.
    pub visible_tiles: Vec<Point>,
    /// How far the observer sees without any light, in feet.
    pub dark_vision: Option<u16>,
    /// How far the observer sees in dim light, in feet.
    pub dim_vision: Option<u16>,
    /// How far the observer sees, in feet.
    pub normal_vision: u16,
    /// The observer has moved or changed since it was last looked at.
    pub is_dirty: bool,
}

impl FieldOfView {
    /// An observer that has not been looked at yet.
    pub fn new(normal_vision: u16, dim_vision: Option<u16>, dark_vision: Option<u16>) -> (fov:
        FieldOfView)
        ensures
            fov.visible_tiles@ == Seq::<Point>::empty(),
            fov.dark_vision == dark_vision,
            fov.dim_vision == dim_vision,
            fov.normal_vision == normal_vision,
            fov.is_dirty,
    {
        FieldOfView {
            visible_tiles: Vec::new(),
            dark_vision,
            dim_vision,
            normal_vision,
            is_dirty: true,
        }
    }

    /// The same observer as if it had not been looked at yet.
    pub fn clone_dirty(&self) -> (fov: FieldOfView)
        ensures
            fov.visible_tiles@ == Seq::<Point>::empty(),
            fov.dark_vision == self.dark_vision,
            fov.dim_vision == self.dim_vision,
            fov.normal_vision == self.normal_vision,
            fov.is_dirty,
    {
        FieldOfView {
            visible_tiles: Vec::new(),
            dark_vision: self.dark_vision,
            dim_vision: self.dim_vision,
            normal_vision: self.normal_vision,
            is_dirty: true,
        }
    }

    /// How far the observer sees, in whole tiles.
    pub fn range(&self) -> (tiles: i32)
        ensures
            tiles == self.normal_vision / 5,
    {
        feet_to_tiles(self.normal_vision as u32)
    }

    /// The tile at `p` lies within the observer's dark vision.
    pub open spec fn in_dark_vision(self, origin: Point, p: Point) -> bool {
        self.dark_vision matches Some(feet) && within_feet(origin, p, feet as int)
    }

    /// How well the observer at `origin` sees the tile at `p` that is lit at
    /// the level `light`. Dark vision lifts what is seen by one step; normal
    /// light is bright to everyone.
    pub open spec fn seen_at(self, light: IlluminationLevel, origin: Point, p: Point) -> SeenLevel {
        match light {
            IlluminationLevel::Unlit => if self.in_dark_vision(origin, p) {
                SeenLevel::Shadowy
            } else {
                SeenLevel::Darkness
            },
            IlluminationLevel::Dim => if self.in_dark_vision(origin, p) {
                SeenLevel::Bright
            } else {
                SeenLevel::Shadowy
            },
            IlluminationLevel::Normal => SeenLevel::Bright,
        }
    }

    /// How well the observer at `origin` sees the tile at `p` that is lit at
    /// the level `light`.
    pub fn seen_level(&self, light: IlluminationLevel, origin: Point, p: Point) -> (level: SeenLevel)
        ensures
            level == self.seen_at(light, origin, p),
    {
        let near: bool = match self.dark_vision {
            Some(feet) => is_within_feet(origin, p, feet as u32),
            None => false,
        };
        match light {
            IlluminationLevel::Unlit => if near {
                SeenLevel::Shadowy
            } else {
                SeenLevel::Darkness
            },
            IlluminationLevel::Dim => if near {
                SeenLevel::Bright
            } else {
                SeenLevel::Shadowy
            },
            IlluminationLevel::Normal => SeenLevel::Bright,
        }
    }
}

/// An observer as one pass over the map takes it: the entity, where it
/// stands, its sight, and the tiles that lie in its line of sight within
/// [`FieldOfView::range`]. The line of sight is read only for an observer
/// that is dirty.
pub struct Observer {
    pub entity: u64,
    pub map_point: MapPoint,
    pub field_of_view: FieldOfView,
    pub in_sight: Vec<Point>,
}

impl Observer {
    /// What a pass over this observer makes of the levels `by` at which the
    /// observers of the tile at `p` see it, when the tile is lit at the
    /// level `light`. An observer that is not dirty changes nothing. A dirty
    /// one enters how it sees a tile in sight, and leaves the observers of a
    /// tile that it had in view and no longer has in sight.
    pub open spec fn sees(self, light: IlluminationLevel, by: Map<u64, SeenLevel>, p: Point) -> Map<
        u64,
        SeenLevel,
    > {
        if !self.field_of_view.is_dirty {
            by
        } else if self.in_sight@.contains(p) {
            by.insert(self.entity, self.field_of_view.seen_at(light, self.map_point.0, p))
        } else if self.field_of_view.visible_tiles@.contains(p) {
            by.remove(self.entity)
        } else {
            by
        }
    }

    /// A pass over this observer looks at the tile at `p` again.
    pub open spec fn touches(self, p: Point) -> bool {
        self.field_of_view.is_dirty && (self.in_sight@.contains(p)
            || self.field_of_view.visible_tiles@.contains(p))
    }

    /// The tiles that a pass over this observer looks at again: for a dirty
    /// observer those that it had in view and those that it has in sight.
    pub open spec fn looked_at(self) -> Seq<Point> {
        if self.field_of_view.is_dirty {
            self.field_of_view.visible_tiles@ + self.in_sight@
        } else {
            Seq::empty()
        }
    }

    /// `self` is what a pass makes of the observer `before`: a dirty
    /// observer now has in view what it had in sight and is clean, any other
    /// is as it was.
    pub open spec fn passed(self, before: Observer) -> bool {
        &&& self.entity == before.entity
        &&& self.map_point == before.map_point
        &&& self.in_sight@ == before.in_sight@
        &&& self.field_of_view.dark_vision == before.field_of_view.dark_vision
        &&& self.field_of_view.dim_vision == before.field_of_view.dim_vision
        &&& self.field_of_view.normal_vision == before.field_of_view.normal_vision
        &&& !self.field_of_view.is_dirty
        &&& self.field_of_view.visible_tiles@ == (if before.field_of_view.is_dirty {
            before.in_sight@
        } else {
            before.field_of_view.visible_tiles@
        })
    }
}

/// What a pass over `observers`, one after the other, makes of the levels
/// `by` at which the observers of the tile at `p` see it, when the tile is
/// lit at the level `light`.
pub open spec fn seen_after(
    observers: Seq<Observer>,
    light: IlluminationLevel,
    by: Map<u64, SeenLevel>,
    p: Point,
) -> Map<u64, SeenLevel>
    decreases observers.len(),
{
    if observers.len() == 0 {
        by
    } else {
        observers.last().sees(light, seen_after(observers.drop_last(), light, by, p), p)
    }
}

/// A pass over `observers` looks at the tile at `p` again.
pub open spec fn watched_by(observers: Seq<Observer>, p: Point) -> bool {
    exists|k: int| 0 <= k < observers.len() && (#[trigger] observers[k]).touches(p)
}

/// Some observer sees the tile at the level.
pub open spec fn seen_as(by: Map<u64, SeenLevel>, level: SeenLevel) -> bool {
    exists|k: u64| by.contains_key(k) && #[trigger] by[k] == level
}

/// The level that a tile seen at `level` so far is seen at when observers
/// see it brightly, in shadow or in darkness. The level only ever rises: it
/// goes up to the best that an observer sees, and stays where no observer
/// sees as much.
pub open spec fn promoted(level: SeenLevel, bright: bool, shadowy: bool, dark: bool) -> SeenLevel {
    match level {
        SeenLevel::Bright => SeenLevel::Bright,
        SeenLevel::Shadowy => if bright {
            SeenLevel::Bright
        } else {
            SeenLevel::Shadowy
        },
        SeenLevel::Darkness => if bright {
            SeenLevel::Bright
        } else if shadowy {
            SeenLevel::Shadowy
        } else {
            SeenLevel::Darkness
        },
        SeenLevel::Unseen => if bright {
            SeenLevel::Bright
        } else if shadowy {
            SeenLevel::Shadowy
        } else if dark {
            SeenLevel::Darkness
        } else {
            SeenLevel::Unseen
        },
    }
}

/// The level that a tile seen at `level` so far is seen at, given how its
/// observers see it now.
pub open spec fn raised_level(level: SeenLevel, by: Map<u64, SeenLevel>) -> SeenLevel {
    promoted(
        level,
        seen_as(by, SeenLevel::Bright),
        seen_as(by, SeenLevel::Shadowy),
        seen_as(by, SeenLevel::Darkness),
    )
}

/// A tile that has been seen brightly stays so, whoever sees it or no longer
/// sees it.
pub proof fn law_bright_stays_bright(by: Map<u64, SeenLevel>)
    ensures
        raised_level(SeenLevel::Bright, by) == SeenLevel::Bright,
{
}

/// What has been seen of a tile never gets less.
pub proof fn law_seen_level_never_falls(level: SeenLevel, by: Map<u64, SeenLevel>)
    ensures
        raised_level(level, by).rank() >= level.rank(),
{
}

/// Once raised, the level of a tile is at least as good as each of its
/// observers sees it.
pub proof fn law_raised_level_covers_each_observer(
    level: SeenLevel,
    by: Map<u64, SeenLevel>,
    observer: u64,
)
    requires
        by.contains_key(observer),
    ensures
        raised_level(level, by).rank() >= by[observer].rank(),
{
    if by[observer] == SeenLevel::Bright {
        assert(seen_as(by, SeenLevel::Bright));
    } else if by[observer] == SeenLevel::Shadowy {
        assert(seen_as(by, SeenLevel::Shadowy));
    } else if by[observer] == SeenLevel::Darkness {
        assert(seen_as(by, SeenLevel::Darkness));
    }
}

/// Working out the level twice from the same observers changes nothing the
/// second time.
pub proof fn law_raising_twice_is_raising_once(level: SeenLevel, by: Map<u64, SeenLevel>)
    ensures
        raised_level(raised_level(level, by), by) == raised_level(level, by),
{
}

/// The level that a tile seen at `level` so far is seen at, given how its
/// observers see it now.
pub fn raise_level(level: SeenLevel, by: &HashMap<u64, SeenLevel>) -> (raised: SeenLevel)
    ensures
        raised == raised_level(level, by@),
{
    let mut bright: bool = false;
    let mut shadowy: bool = false;
    let mut dark: bool = false;
    let ghost all = by.iter().remaining();
    let ghost mut seen: int = 0;
    let ghost mut first_bright: int = 0;
    let ghost mut first_shadowy: int = 0;
    let ghost mut first_dark: int = 0;
    for entry in it: by.iter()
        invariant
            it.seq() == all,
            seen == it.index(),
            bright ==> 0 <= first_bright < seen && *all[first_bright].1 == SeenLevel::Bright,
            !bright ==> forall|j: int|
                0 <= j < seen ==> *(#[trigger] all[j]).1 != SeenLevel::Bright,
            shadowy ==> 0 <= first_shadowy < seen && *all[first_shadowy].1 == SeenLevel::Shadowy,
            !shadowy ==> forall|j: int|
                0 <= j < seen ==> *(#[trigger] all[j]).1 != SeenLevel::Shadowy,
            dark ==> 0 <= first_dark < seen && *all[first_dark].1 == SeenLevel::Darkness,
            !dark ==> forall|j: int|
                0 <= j < seen ==> *(#[trigger] all[j]).1 != SeenLevel::Darkness,
    {
        let seen_level: SeenLevel = *entry.1;
        match seen_level {
            SeenLevel::Bright => {
                proof {
                    if !bright {
                        first_bright = seen;
                    }
                }
                bright = true;
            },
            SeenLevel::Shadowy => {
                proof {
                    if !shadowy {
                        first_shadowy = seen;
                    }
                }
                shadowy = true;
            },
            SeenLevel::Darkness => {
                proof {
                    if !dark {
                        first_dark = seen;
                    }
                }
                dark = true;
            },
            SeenLevel::Unseen => {},
        }
        proof {
            seen = seen + 1;
        }
    }
    proof {
        assert(seen == all.len());
        assert forall|k: u64| by@.contains_key(k) implies exists|j: int|
            0 <= j < all.len() && *(#[trigger] all[j]).0 == k && *all[j].1 == by@[k] by {
            assert(all.contains((&k, &by@[k])));
            let j = choose|j: int| 0 <= j < all.len() && all[j] == (&k, &by@[k]);
            assert(*all[j].0 == k);
        }
        if bright {
            let k = *all[first_bright].0;
            assert(by@.contains_key(k) && by@[k] == SeenLevel::Bright);
        } else {
            assert forall|k: u64| by@.contains_key(k) implies #[trigger] by@[k]
                != SeenLevel::Bright by {
                let j = choose|j: int|
                    0 <= j < all.len() && *(#[trigger] all[j]).0 == k && *all[j].1 == by@[k];
            }
        }
        if shadowy {
            let k = *all[first_shadowy].0;
            assert(by@.contains_key(k) && by@[k] == SeenLevel::Shadowy);
        } else {
            assert forall|k: u64| by@.contains_key(k) implies #[trigger] by@[k]
                != SeenLevel::Shadowy by {
                let j = choose|j: int|
                    0 <= j < all.len() && *(#[trigger] all[j]).0 == k && *all[j].1 == by@[k];
            }
        }
        if dark {
            let k = *all[first_dark].0;
            assert(by@.contains_key(k) && by@[k] == SeenLevel::Darkness);
        } else {
            assert forall|k: u64| by@.contains_key(k) implies #[trigger] by@[k]
                != SeenLevel::Darkness by {
                let j = choose|j: int|
                    0 <= j < all.len() && *(#[trigger] all[j]).0 == k && *all[j].1 == by@[k];
            }
        }
    }
    match level {
        SeenLevel::Bright => SeenLevel::Bright,
        SeenLevel::Shadowy => if bright {
            SeenLevel::Bright
        } else {
            SeenLevel::Shadowy
        },
        SeenLevel::Darkness => if bright {
            SeenLevel::Bright
        } else if shadowy {
            SeenLevel::Shadowy
        } else {
            SeenLevel::Darkness
        },
        SeenLevel::Unseen => if bright {
            SeenLevel::Bright
        } else if shadowy {
            SeenLevel::Shadowy
        } else if dark {
            SeenLevel::Darkness
        } else {
            SeenLevel::Unseen
        },
    }
}

/// What a pass over `observers` makes of a tile at `p`: the terrain and the
/// light stay, the observers' levels are brought up to date, and the level
/// of the tile is raised to what they see if an observer looked at the tile.
pub open spec fn resighted(before: Tile, after: Tile, observers: Seq<Observer>, p: Point) -> bool {
    &&& after.same_terrain(before)
    &&& after.same_light(before)
    &&& after.seen_by@ == seen_after(observers, before.illumination_level, before.seen_by@, p)
    &&& after.seen_level == (if watched_by(observers, p) {
        raised_level(before.seen_level, after.seen_by@)
    } else {
        before.seen_level
    })
}

/// The tile at `p` is as in `start` but for the levels at which its
/// observers see it, which are `by`.
pub open spec fn seen_like(now: TileMap, start: TileMap, p: Point, by: Map<u64, SeenLevel>) -> bool {
    &&& now.tile_at(p).same_terrain(start.tile_at(p))
    &&& now.tile_at(p).same_light(start.tile_at(p))
    &&& now.tile_at(p).seen_level == start.tile_at(p).seen_level
    &&& now.tile_at(p).seen_by@ == by
}

/// What raising the level makes of a tile: where the tile was looked at, the
/// level is raised to what its observers see.
pub open spec fn settled_sight(before: Tile, after: Tile, looked_at: bool) -> bool {
    &&& after.same_terrain(before)
    &&& after.same_light(before)
    &&& after.seen_by@ == before.seen_by@
    &&& after.seen_level == (if looked_at {
        raised_level(before.seen_level, before.seen_by@)
    } else {
        before.seen_level
    })
}

/// Records at the tile `at` how `entity` sees it: at a level, or not any
/// more.
fn record_sight(map: &mut TileMap, at: Point, entity: u64, level: Option<SeenLevel>)
    requires
        old(map).wf(),
        old(map).spec_in_bounds(at),
    ensures
        final(map).wf(),
        final(map).dimensions == old(map).dimensions,
        forall|p: Point|
            old(map).spec_in_bounds(p) && p != at ==> #[trigger] final(map).tile_at(p) == old(
                map,
            ).tile_at(p),
        seen_like(
            *final(map),
            *old(map),
            at,
            match level {
                Some(l) => old(map).tile_at(at).seen_by@.insert(entity, l),
                None => old(map).tile_at(at).seen_by@.remove(entity),
            },
        ),
{
    let idx: usize = map.map_idx(at.x, at.y);
    proof {
        map.lemma_index(at);
    }
    match level {
        Some(l) => {
            map.tiles[idx].seen_by.insert(entity, l);
        },
        None => {
            map.tiles[idx].seen_by.remove(&entity);
        },
    }
    proof {
        assert forall|p: Point| old(map).spec_in_bounds(p) && p != at implies #[trigger] map.tile_at(
            p,
        ) == old(map).tile_at(p) by {
            old(map).lemma_index(p);
            assert(old(map).index_of(p) != old(map).index_of(at));
            assert(map.index_of(p) == old(map).index_of(p));
        }
    }
}

/// One pass over one observer: a dirty observer enters how it sees every
/// tile in sight, leaves the observers of the tiles that it had in view and
/// no longer has in sight, and is clean afterwards. The tiles looked at are
/// added to `changed`. Points off the map are passed over.
pub fn look(map: &mut TileMap, observer: &mut Observer, changed: &mut Vec<Point>)
    requires
        old(map).wf(),
    ensures
        final(map).wf(),
        final(map).dimensions == old(map).dimensions,
        forall|p: Point|
            old(map).spec_in_bounds(p) ==> #[trigger] seen_like(
                *final(map),
                *old(map),
                p,
                old(observer).sees(
                    old(map).tile_at(p).illumination_level,
                    old(map).tile_at(p).seen_by@,
                    p,
                ),
            ),
        final(observer).passed(*old(observer)),
        final(changed)@ == old(changed)@ + old(observer).looked_at(),
{
    if !observer.field_of_view.is_dirty {
        assert(changed@ + Seq::<Point>::empty() =~= changed@);
        return ;
    }
    let entity: u64 = observer.entity;
    let origin: Point = observer.map_point.0;
    let ghost start = *map;
    let ghost noted = changed@;
    let ghost viewed = observer.field_of_view.visible_tiles@;
    let ghost sight = observer.in_sight@;
    let mut j: usize = 0;
    assert(changed@ =~= noted + viewed.subrange(0, 0));
    while j < observer.field_of_view.visible_tiles.len()
        invariant
            map.wf(),
            start.wf(),
            map.dimensions == start.dimensions,
            *observer == *old(observer),
            viewed == observer.field_of_view.visible_tiles@,
            j <= viewed.len(),
            changed@ == noted + viewed.subrange(0, j as int),
            forall|p: Point|
                #![trigger start.tile_at(p)]
                start.spec_in_bounds(p) ==> seen_like(
                    *map,
                    start,
                    p,
                    if viewed.subrange(0, j as int).contains(p) {
                        start.tile_at(p).seen_by@.remove(entity)
                    } else {
                        start.tile_at(p).seen_by@
                    },
                ),
        decreases viewed.len() - j,
    {
        let x: Point = observer.field_of_view.visible_tiles[j];
        let ghost prev = *map;
        let ghost done = viewed.subrange(0, j as int);
        let ghost done_next = viewed.subrange(0, j as int + 1);
        if map.in_bounds(x) {
            record_sight(map, x, entity, None);
        }
        changed.push(x);
        proof {
            assert(done_next =~= done.push(x));
            assert(changed@ =~= noted + done_next);
            assert forall|p: Point| done_next.contains(p) <==> done.contains(p) || p == x by {
                if done.contains(p) {
                    let k = choose|k: int| 0 <= k < done.len() && done[k] == p;
                    assert(done_next[k] == p);
                }
                assert(done_next[j as int] == x);
            }
            assert forall|p: Point|
                #![trigger start.tile_at(p)]
                start.spec_in_bounds(p) implies seen_like(
                *map,
                start,
                p,
                if done_next.contains(p) {
                    start.tile_at(p).seen_by@.remove(entity)
                } else {
                    start.tile_at(p).seen_by@
                },
            ) by {
                let first = start.tile_at(p).seen_by@;
                assert(seen_like(
                    prev,
                    start,
                    p,
                    if done.contains(p) {
                        first.remove(entity)
                    } else {
                        first
                    },
                ));
                if p == x {
                    assert(first.remove(entity).remove(entity) =~= first.remove(entity));
                } else if start.spec_in_bounds(x) {
                    assert(map.tile_at(p) == prev.tile_at(p));
                }
            }
        }
        j = j + 1;
    }
    j = 0;
    let ghost between = changed@;
    proof {
        assert(viewed.subrange(0, viewed.len() as int) =~= viewed);
        assert(changed@ =~= between + sight.subrange(0, 0));
        assert forall|p: Point| !(#[trigger] sight.subrange(0, 0).contains(p)) by {
            assert(sight.subrange(0, 0).len() == 0);
        }
    }
    while j < observer.in_sight.len()
        invariant
            map.wf(),
            start.wf(),
            map.dimensions == start.dimensions,
            *observer == *old(observer),
            viewed == observer.field_of_view.visible_tiles@,
            sight == observer.in_sight@,
            origin == observer.map_point.0,
            entity == observer.entity,
            j <= sight.len(),
            changed@ == between + sight.subrange(0, j as int),
            forall|p: Point|
                #![trigger start.tile_at(p)]
                start.spec_in_bounds(p) ==> seen_like(
                    *map,
                    start,
                    p,
                    if sight.subrange(0, j as int).contains(p) {
                        start.tile_at(p).seen_by@.insert(
                            entity,
                            observer.field_of_view.seen_at(
                                start.tile_at(p).illumination_level,
                                origin,
                                p,
                            ),
                        )
                    } else if viewed.contains(p) {
                        start.tile_at(p).seen_by@.remove(entity)
                    } else {
                        start.tile_at(p).seen_by@
                    },
                ),
        decreases sight.len() - j,
    {
        let x: Point = observer.in_sight[j];
        let ghost prev = *map;
        let ghost done = sight.subrange(0, j as int);
        let ghost done_next = sight.subrange(0, j as int + 1);
        if map.in_bounds(x) {
            let idx: usize = map.map_idx(x.x, x.y);
            let light: IlluminationLevel = map.tiles[idx].illumination_level;
            let level = observer.field_of_view.seen_level(light, origin, x);
            proof {
                assert(seen_like(
                    prev,
                    start,
                    x,
                    if done.contains(x) {
                        start.tile_at(x).seen_by@.insert(
                            entity,
                            observer.field_of_view.seen_at(
                                start.tile_at(x).illumination_level,
                                origin,
                                x,
                            ),
                        )
                    } else if viewed.contains(x) {
                        start.tile_at(x).seen_by@.remove(entity)
                    } else {
                        start.tile_at(x).seen_by@
                    },
                ));
            }
            record_sight(map, x, entity, Some(level));
        }
        changed.push(x);
        proof {
            assert(done_next =~= done.push(x));
            assert(changed@ =~= between + done_next);
            assert forall|p: Point| done_next.contains(p) <==> done.contains(p) || p == x by {
                if done.contains(p) {
                    let k = choose|k: int| 0 <= k < done.len() && done[k] == p;
                    assert(done_next[k] == p);
                }
                assert(done_next[j as int] == x);
            }
            assert forall|p: Point|
                #![trigger start.tile_at(p)]
                start.spec_in_bounds(p) implies seen_like(
                *map,
                start,
                p,
                if done_next.contains(p) {
                    start.tile_at(p).seen_by@.insert(
                        entity,
                        observer.field_of_view.seen_at(
                            start.tile_at(p).illumination_level,
                            origin,
                            p,
                        ),
                    )
                } else if viewed.contains(p) {
                    start.tile_at(p).seen_by@.remove(entity)
                } else {
                    start.tile_at(p).seen_by@
                },
            ) by {
                let first = start.tile_at(p).seen_by@;
                let level = observer.field_of_view.seen_at(
                    start.tile_at(p).illumination_level,
                    origin,
                    p,
                );
                assert(seen_like(
                    prev,
                    start,
                    p,
                    if done.contains(p) {
                        first.insert(entity, level)
                    } else if viewed.contains(p) {
                        first.remove(entity)
                    } else {
                        first
                    },
                ));
                if p == x {
                    assert(first.insert(entity, level).insert(entity, level) =~= first.insert(
                        entity,
                        level,
                    ));
                    assert(first.remove(entity).insert(entity, level) =~= first.insert(
                        entity,
                        level,
                    ));
                } else if start.spec_in_bounds(x) {
                    assert(map.tile_at(p) == prev.tile_at(p));
                }
            }
        }
        j = j + 1;
    }
    let copy = copy_points(&observer.in_sight);
    observer.field_of_view.visible_tiles = copy;
    observer.field_of_view.is_dirty = false;
    proof {
        assert(sight.subrange(0, sight.len() as int) =~= sight);
        assert(changed@ =~= noted + (viewed + sight));
    }
}

/// Raises the level of every tile in `changed` to what its observers see.
/// Points off the map are passed over.
pub fn settle_sight(map: &mut TileMap, changed: &Vec<Point>)
    requires
        old(map).wf(),
    ensures
        final(map).wf(),
        final(map).dimensions == old(map).dimensions,
        forall|p: Point|
            old(map).spec_in_bounds(p) ==> #[trigger] settled_sight(
                old(map).tile_at(p),
                final(map).tile_at(p),
                changed@.contains(p),
            ),
{
    let ghost start = *map;
    let mut j: usize = 0;
    proof {
        assert forall|p: Point| !(#[trigger] changed@.subrange(0, 0).contains(p)) by {
            assert(changed@.subrange(0, 0).len() == 0);
        }
    }
    while j < changed.len()
        invariant
            map.wf(),
            start.wf(),
            map.dimensions == start.dimensions,
            j <= changed.len(),
            forall|p: Point|
                start.spec_in_bounds(p) ==> #[trigger] settled_sight(
                    start.tile_at(p),
                    map.tile_at(p),
                    changed@.subrange(0, j as int).contains(p),
                ),
        decreases changed.len() - j,
    {
        let x: Point = changed[j];
        let ghost prev = *map;
        let ghost done = changed@.subrange(0, j as int);
        let ghost done_next = changed@.subrange(0, j as int + 1);
        if map.in_bounds(x) {
            let idx: usize = map.map_idx(x.x, x.y);
            let level = raise_level(map.tiles[idx].seen_level, &map.tiles[idx].seen_by);
            map.tiles[idx].seen_level = level;
            proof {
                assert forall|p: Point| start.spec_in_bounds(p) && p != x implies #[trigger] map.tile_at(
                    p,
                ) == prev.tile_at(p) by {
                    prev.lemma_index(p);
                    prev.lemma_index(x);
                    assert(map.index_of(p) == prev.index_of(p));
                }
            }
        }
        proof {
            assert(done_next =~= done.push(x));
            assert forall|p: Point| done_next.contains(p) <==> done.contains(p) || p == x by {
                if done.contains(p) {
                    let k = choose|k: int| 0 <= k < done.len() && done[k] == p;
                    assert(done_next[k] == p);
                }
                assert(done_next[j as int] == x);
            }
            assert forall|p: Point| start.spec_in_bounds(p) implies #[trigger] settled_sight(
                start.tile_at(p),
                map.tile_at(p),
                done_next.contains(p),
            ) by {
                assert(settled_sight(start.tile_at(p), prev.tile_at(p), done.contains(p)));
                if p != x && start.spec_in_bounds(x) {
                    assert(map.tile_at(p) == prev.tile_at(p));
                }
                if p == x {
                    law_raising_twice_is_raising_once(
                        start.tile_at(p).seen_level,
                        start.tile_at(p).seen_by@,
                    );
                }
            }
        }
        j = j + 1;
    }
    proof {
        assert(changed@.subrange(0, changed.len() as int) =~= changed@);
    }
}

/// A pass over an observer looks again at just the tiles that the observer
/// touches.
pub proof fn lemma_looked_at(observer: Observer, p: Point)
    ensures
        observer.looked_at().contains(p) <==> observer.touches(p),
{
    if observer.field_of_view.is_dirty {
        lemma_contains_concat(observer.field_of_view.visible_tiles@, observer.in_sight@, p);
    } else {
        assert(observer.looked_at().len() == 0);
    }
}

/// One tick of sight: a pass over all `fovs` in their order, and then the
/// level raised for every tile that one of them looked at. The levels of
/// light are read as the tick of light has left them.
pub fn field_of_view_system(fovs: &mut Vec<Observer>, mb: &mut MapBuilder)
    requires
        old(mb).map.wf(),
    ensures
        final(mb).map.wf(),
        final(mb).map.dimensions == old(mb).map.dimensions,
        forall|p: Point|
            old(mb).map.spec_in_bounds(p) ==> #[trigger] resighted(
                old(mb).map.tile_at(p),
                final(mb).map.tile_at(p),
                old(fovs)@,
                p,
            ),
        forall|p: Point|
            old(mb).map.spec_in_bounds(p) ==> (#[trigger] final(mb).map.tile_at(p)).seen_level.rank()
                >= old(mb).map.tile_at(p).seen_level.rank(),
        final(fovs).len() == old(fovs).len(),
        forall|k: int| 0 <= k < old(fovs).len() ==> (#[trigger] final(fovs)[k]).passed(old(fovs)[k]),
        final(mb).rooms == old(mb).rooms,
        final(mb).monster_spawns == old(mb).monster_spawns,
        final(mb).entity_spawns == old(mb).entity_spawns,
        final(mb).player_start == old(mb).player_start,
        final(mb).amulet_start == old(mb).amulet_start,
        final(mb).theme == old(mb).theme,
{
    let ghost start = mb.map;
    let ghost before = fovs@;
    let mut changed: Vec<Point> = Vec::new();
    let mut k: usize = 0;
    while k < fovs.len()
        invariant
            mb.map.wf(),
            start.wf(),
            mb.map.dimensions == start.dimensions,
            fovs.len() == before.len(),
            k <= before.len(),
            forall|i: int| 0 <= i < k ==> (#[trigger] fovs[i]).passed(before[i]),
            forall|i: int| k <= i < before.len() ==> #[trigger] fovs[i] == before[i],
            forall|p: Point|
                start.spec_in_bounds(p) ==> #[trigger] seen_like(
                    mb.map,
                    start,
                    p,
                    seen_after(
                        before.subrange(0, k as int),
                        start.tile_at(p).illumination_level,
                        start.tile_at(p).seen_by@,
                        p,
                    ),
                ),
            forall|p: Point| changed@.contains(p) <==> watched_by(before.subrange(0, k as int), p),
            mb.rooms == old(mb).rooms,
            mb.monster_spawns == old(mb).monster_spawns,
            mb.entity_spawns == old(mb).entity_spawns,
            mb.player_start == old(mb).player_start,
            mb.amulet_start == old(mb).amulet_start,
            mb.theme == old(mb).theme,
        decreases before.len() - k,
    {
        let ghost prev = mb.map;
        let ghost noted = changed@;
        look(&mut mb.map, &mut fovs[k], &mut changed);
        proof {
            let observer = before[k as int];
            let done = before.subrange(0, k as int);
            let done_next = before.subrange(0, k as int + 1);
            assert(done_next.drop_last() =~= done);
            assert(done_next.last() == observer);
            assert forall|p: Point| start.spec_in_bounds(p) implies #[trigger] seen_like(
                mb.map,
                start,
                p,
                seen_after(
                    done_next,
                    start.tile_at(p).illumination_level,
                    start.tile_at(p).seen_by@,
                    p,
                ),
            ) by {
                assert(seen_like(
                    prev,
                    start,
                    p,
                    seen_after(
                        done,
                        start.tile_at(p).illumination_level,
                        start.tile_at(p).seen_by@,
                        p,
                    ),
                ));
                assert(seen_like(
                    mb.map,
                    prev,
                    p,
                    observer.sees(prev.tile_at(p).illumination_level, prev.tile_at(p).seen_by@, p),
                ));
            }
            assert forall|p: Point| changed@.contains(p) <==> watched_by(done_next, p) by {
                lemma_looked_at(observer, p);
                if watched_by(done_next, p) {
                    let i = choose|i: int|
                        0 <= i < done_next.len() && (#[trigger] done_next[i]).touches(p);
                    if i < k {
                        assert(done[i].touches(p));
                    }
                }
                if watched_by(done, p) {
                    let i = choose|i: int| 0 <= i < done.len() && (#[trigger] done[i]).touches(p);
                    assert(done_next[i].touches(p));
                }
                if observer.touches(p) {
                    assert(done_next[k as int].touches(p));
                }
                lemma_contains_concat(noted, observer.looked_at(), p);
            }
        }
        k = k + 1;
    }
    let ghost passed = mb.map;
    settle_sight(&mut mb.map, &changed);
    proof {
        assert(before.subrange(0, before.len() as int) =~= before);
        assert forall|p: Point| start.spec_in_bounds(p) implies #[trigger] resighted(
            start.tile_at(p),
            mb.map.tile_at(p),
            before,
            p,
        ) by {
            assert(seen_like(
                passed,
                start,
                p,
                seen_after(
                    before,
                    start.tile_at(p).illumination_level,
                    start.tile_at(p).seen_by@,
                    p,
                ),
            ));
            assert(settled_sight(passed.tile_at(p), mb.map.tile_at(p), changed@.contains(p)));
        }
        assert forall|p: Point| start.spec_in_bounds(p) implies (#[trigger] mb.map.tile_at(
            p,
        )).seen_level.rank() >= start.tile_at(p).seen_level.rank() by {
            assert(resighted(start.tile_at(p), mb.map.tile_at(p), before, p));
            law_seen_level_never_falls(start.tile_at(p).seen_level, mb.map.tile_at(p).seen_by@);
        }
    }
}

} // verus!
