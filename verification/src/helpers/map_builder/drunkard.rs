//! The drunkard's walk: caves dug by walkers that stagger about at random.

use vstd::prelude::*;
use bracket_random::prelude::RandomNumberGenerator;
use crate::helpers::distance_field::{DistanceField, UNREACHABLE};
use crate::helpers::geometry::{adjacent, Point};
use crate::helpers::map::TileMap;
use crate::helpers::map_builder::themes::MapTheme;
use crate::helpers::map_builder::{GenerationError, MapBuilder, MAX_DEPTH};
use crate::helpers::random::roll_range;
use crate::helpers::tiles::TileType;

verus! {

/// A walker gives up after this many steps.
pub const STAGGER_DISTANCE: usize = 400;

/// Tiles farther than this from the center are walled up again. The
/// distances are measured up to [`MAX_DEPTH`] only, so this walls up just
/// the tiles that have no distance at all.
pub const PRUNE_DISTANCE: u32 = 2000;

/// The architect gives up after this many walkers.
pub const MAX_WALKS: u32 = 10000;

/// Digs caves until a third of the map is floor.
pub struct DrunkardsWalkArchitect {}

impl DrunkardsWalkArchitect {
    /// The middle of a map of the given size.
    pub open spec fn center(width: u32, height: u32) -> Point {
        Point { x: (width / 2) as i32, y: (height / 2) as i32 }
    }

    /// Digs a map of the given size. See [`Self::build`]; the architect
    /// gives up after [`MAX_WALKS`] walkers.
    pub fn new(
        &mut self,
        width: u32,
        height: u32,
        theme: MapTheme,
        rng: &mut RandomNumberGenerator,
    ) -> (made: Result<MapBuilder, GenerationError>)
        ensures
            made matches Ok(mb) ==> {
                &&& mb.generated(width, height, theme)
                &&& mb.monsters_spread()
                &&& mb.player_start == Self::center(width, height)
                &&& mb.map.floor_count(theme) >= (width * height) / 3
                &&& mb.map.all_linked(mb.player_start)
            },
            made matches Err(e) ==> e == GenerationError::BadSize || e
                == GenerationError::OutOfAttempts,
            made == Err::<MapBuilder, GenerationError>(GenerationError::BadSize)
                <==> !MapBuilder::size_ok(width, height),
            MapBuilder::size_ok(width, height) && width * height < 6 ==> made is Ok,
    {
        self.build(width, height, theme, rng, MAX_WALKS)
    }

    /// Digs a map of the given size: one walker sets off from the middle,
    /// then walkers set off from tiles drawn at random until a third of the
    /// map is floor. After each of these, the caves that have no way to the
    /// middle are walled up again. The player starts in the middle, the
    /// amulet lies as far from there as can be, and the monsters are spread
    /// over the floor more than ten tiles away. The architect gives up with
    /// `OutOfAttempts` when `max_walks` walkers from random tiles have not
    /// dug enough.
    pub fn build(
        &mut self,
        width: u32,
        height: u32,
        theme: MapTheme,
        rng: &mut RandomNumberGenerator,
        max_walks: u32,
    ) -> (made: Result<MapBuilder, GenerationError>)
        ensures
            made matches Ok(mb) ==> {
                &&& mb.generated(width, height, theme)
                &&& mb.monsters_spread()
                &&& mb.player_start == Self::center(width, height)
                &&& mb.map.floor_count(theme) >= (width * height) / 3
                &&& mb.map.all_linked(mb.player_start)
            },
            made matches Err(e) ==> e == GenerationError::BadSize || e
                == GenerationError::OutOfAttempts,
            made == Err::<MapBuilder, GenerationError>(GenerationError::BadSize)
                <==> !MapBuilder::size_ok(width, height),
            MapBuilder::size_ok(width, height) && width * height < 6 ==> made is Ok,
    {
        let mut mb = match MapBuilder::blank(width, height, theme) {
            Ok(mb) => mb,
            Err(e) => {
                return Err(e);
            },
        };
        mb.fill(TileType::ThemeWall);
        let center = Point { x: (width / 2) as i32, y: (height / 2) as i32 };
        let desired_floor: usize = ((width * height) / 3) as usize;
        let ghost solid = mb.map;
        self.drunkard(&center, rng, &mut mb);
        proof {
            lemma_one_floor(mb.map, theme, center);
            let path = choose|path: Seq<Point>| #[trigger]
                Self::walked(solid, mb.map, theme, center, path);
            Self::lemma_walked_is_linked(solid, mb.map, theme, center, path);
            assert forall|p: Point| #[trigger] mb.map.enterable(p) implies mb.map.linked(
                center,
                p,
            ) by {
                assert(mb.map.tile_at(p) == mb.map.tiles[mb.map.index_of(p)]);
                solid.lemma_index(p);
                if path.contains(p) {
                    let j = choose|j: int| 0 <= j < path.len() && path[j] == p;
                    assert(mb.map.linked(center, path[j]));
                }
            }
        }
        let mut walks: u32 = 0;
        loop
            invariant_except_break
                walks <= max_walks,
            invariant
                MapBuilder::size_ok(width, height),
                center == Self::center(width, height),
                desired_floor == (width * height) / 3,
                mb.map.wf(),
                mb.map.dimensions.x == width,
                mb.map.dimensions.y == height,
                mb.theme == theme,
                mb.map.built_of(theme),
                mb.map.tile_at(center).is_new(theme.floor()),
                mb.map.floor_count(theme) >= 1,
                mb.map.all_linked(center),
                mb.rooms@ == Seq::<crate::helpers::geometry::Rect>::empty(),
                mb.entity_spawns@ == Seq::<(Point, char)>::empty(),
            ensures
                mb.map.floor_count(theme) >= desired_floor,
            decreases max_walks - walks,
        {
            if mb.count_floor() >= desired_floor {
                break ;
            }
            if walks >= max_walks {
                return Err(GenerationError::OutOfAttempts);
            }
            walks = walks + 1;
            let x: i32 = roll_range(rng, 0, width as i32);
            let y: i32 = roll_range(rng, 0, height as i32);
            let ghost dug = mb.map;
            self.drunkard(&Point { x, y }, rng, &mut mb);
            let ghost walked = mb.map;
            Self::prune(&mut mb, center);
            proof {
                walked.lemma_index(center);
                let alone = seq![center];
                assert(walked.steps().leads(seq![center], alone, center)) by {
                    assert(alone[0] == center);
                }
                assert(walked.steps().walk_cost(alone) == 0);
                assert(mb.map.tile_at(center) == walked.tile_at(center));
                lemma_one_floor(mb.map, theme, center);
            }
        }
        let spawns = mb.spawn_monsters(&center, rng);
        mb.monster_spawns = spawns;
        mb.player_start = center;
        let goal = mb.find_most_distant();
        match goal {
            Some(g) => {
                mb.amulet_start = g;
            },
            None => {},
        }
        proof {
            mb.lemma_starts_enterable();
        }
        Ok(mb)
    }

    /// Where a walker at `position` stands after the step that `roll` picks:
    /// 0 is west, 1 east, 2 north, anything else south.
    pub open spec fn staggered(position: Point, roll: i32) -> Point {
        if roll == 0 {
            Point { x: (position.x - 1) as i32, y: position.y }
        } else if roll == 1 {
            Point { x: (position.x + 1) as i32, y: position.y }
        } else if roll == 2 {
            Point { x: position.x, y: (position.y - 1) as i32 }
        } else {
            Point { x: position.x, y: (position.y + 1) as i32 }
        }
    }

    /// Where a walker at `position` stands after the step that `roll` picks.
    pub fn stagger(position: Point, roll: i32) -> (next: Point)
        requires
            i32::MIN < position.x < i32::MAX,
            i32::MIN < position.y < i32::MAX,
        ensures
            next == Self::staggered(position, roll),
    {
        match roll {
            0 => Point { x: position.x - 1, y: position.y },
            1 => Point { x: position.x + 1, y: position.y },
            2 => Point { x: position.x, y: position.y - 1 },
            _ => Point { x: position.x, y: position.y + 1 },
        }
    }

    /// The tile at `p` lies at the edge of the map.
    pub open spec fn at_edge(map: TileMap, p: Point) -> bool {
        p.x == 0 || p.y == 0 || p.x == map.dimensions.x - 1 || p.y == map.dimensions.y - 1
    }

    /// `path` is the way of a walker from `start` over the map `before`,
    /// and `after` is what the walker leaves: the path begins at `start`,
    /// goes from tile to adjacent tile, stays on the map and is at most
    /// [`STAGGER_DISTANCE`] steps long, and if it is shorter it ends at the
    /// edge, where the walker left the map; the tiles on it are new floors,
    /// and every other tile is as it was.
    pub open spec fn walked(
        before: TileMap,
        after: TileMap,
        theme: MapTheme,
        start: Point,
        path: Seq<Point>,
    ) -> bool {
        &&& 1 <= path.len() <= STAGGER_DISTANCE + 1
        &&& path.len() <= STAGGER_DISTANCE ==> Self::at_edge(before, path.last())
        &&& path[0] == start
        &&& forall|j: int| 0 <= j < path.len() ==> before.spec_in_bounds(#[trigger] path[j])
        &&& forall|j: int| 1 <= j < path.len() ==> adjacent(path[j - 1], #[trigger] path[j])
        &&& forall|p: Point|
            #![trigger after.tile_at(p)]
            before.spec_in_bounds(p) ==> (if path.contains(p) {
                after.tile_at(p).is_new(theme.floor())
            } else {
                after.tile_at(p) == before.tile_at(p)
            })
    }

    /// Sends one walker off from `start`. It turns the tile it stands on
    /// into floor and takes a step in a direction drawn at random, until it
    /// leaves the map or has taken more than [`STAGGER_DISTANCE`] steps.
    pub fn drunkard(&mut self, start: &Point, rng: &mut RandomNumberGenerator, mb: &mut MapBuilder)
        requires
            old(mb).map.wf(),
            old(mb).map.spec_in_bounds(*start),
        ensures
            MapBuilder::rebuilt(*final(mb), *old(mb)),
            exists|path: Seq<Point>| #[trigger]
                Self::walked(old(mb).map, final(mb).map, old(mb).theme, *start, path),
            final(mb).map.tile_at(*start).is_new(old(mb).theme.floor()),
            forall|i: int|
                0 <= i < final(mb).map.tiles.len() ==> #[trigger] final(mb).map.tiles[i] == old(
                    mb,
                ).map.tiles[i] || final(mb).map.tiles[i].is_new(old(mb).theme.floor()),
    {
        let mut drunkard_pos: Point = *start;
        let mut distance_staggered: usize = 0;
        let ghost first = mb.map;
        let ghost theme = mb.theme;
        let ghost mut path: Seq<Point> = Seq::empty();
        loop
            invariant_except_break
                first.spec_in_bounds(drunkard_pos),
                distance_staggered <= STAGGER_DISTANCE,
                path.len() == distance_staggered,
                path.len() == 0 ==> drunkard_pos == *start,
                path.len() > 0 ==> path[0] == *start && adjacent(path.last(), drunkard_pos),
            invariant
                first == old(mb).map,
                theme == old(mb).theme,
                first.wf(),
                first.spec_in_bounds(*start),
                MapBuilder::rebuilt(*mb, *old(mb)),
                forall|j: int| 0 <= j < path.len() ==> first.spec_in_bounds(#[trigger] path[j]),
                forall|j: int| 1 <= j < path.len() ==> adjacent(path[j - 1], #[trigger] path[j]),
                forall|p: Point|
                    #![trigger mb.map.tile_at(p)]
                    first.spec_in_bounds(p) ==> (if path.contains(p) {
                        mb.map.tile_at(p).is_new(theme.floor())
                    } else {
                        mb.map.tile_at(p) == first.tile_at(p)
                    }),
            ensures
                Self::walked(first, mb.map, theme, *start, path),
            decreases STAGGER_DISTANCE + 1 - distance_staggered,
        {
            let ghost before = mb.map;
            let ghost so_far = path;
            mb.place(drunkard_pos, TileType::ThemeFloor);
            proof {
                path = so_far.push(drunkard_pos);
                assert forall|p: Point| path.contains(p) <==> so_far.contains(p) || p
                    == drunkard_pos by {
                    if so_far.contains(p) {
                        let k = choose|k: int| 0 <= k < so_far.len() && so_far[k] == p;
                        assert(path[k] == p);
                    }
                    assert(path[path.len() - 1] == drunkard_pos);
                }
                assert forall|p: Point|
                    #![trigger mb.map.tile_at(p)]
                    first.spec_in_bounds(p) implies (if path.contains(p) {
                    mb.map.tile_at(p).is_new(theme.floor())
                } else {
                    mb.map.tile_at(p) == first.tile_at(p)
                }) by {
                    if p != drunkard_pos {
                        assert(mb.map.tile_at(p) == before.tile_at(p));
                    }
                }
                assert forall|j: int| 1 <= j < path.len() implies adjacent(
                    path[j - 1],
                    #[trigger] path[j],
                ) by {
                    if j < so_far.len() {
                        assert(path[j] == so_far[j]);
                        assert(path[j - 1] == so_far[j - 1]);
                    }
                }
                assert(path[0] == *start);
            }
            let roll: i32 = roll_range(rng, 0, 4);
            drunkard_pos = Self::stagger(drunkard_pos, roll);
            if !mb.map.in_bounds(drunkard_pos) {
                break ;
            }
            distance_staggered = distance_staggered + 1;
            if distance_staggered > STAGGER_DISTANCE {
                break ;
            }
        }
        proof {
            assert(path.contains(*start)) by {
                assert(path[0] == *start);
            }
            assert(mb.map.tile_at(*start) == mb.map.tiles[mb.map.index_of(*start)]);
            assert forall|i: int| 0 <= i < mb.map.tiles.len() implies #[trigger] mb.map.tiles[i]
                == first.tiles[i] || mb.map.tiles[i].is_new(theme.floor()) by {
                first.lemma_point_at_index(i);
                let p = Point {
                    x: (i % (first.dimensions.x as int)) as i32,
                    y: (i / (first.dimensions.x as int)) as i32,
                };
                assert(mb.map.tile_at(p) == mb.map.tiles[i]);
                assert(first.tile_at(p) == first.tiles[i]);
            }
        }
    }

    /// Once the tiles out of reach of `center` are walled up, every tile that
    /// can still be entered can be walked to from `center`.
    pub proof fn lemma_pruned_is_linked(before: TileMap, after: TileMap, theme: MapTheme, center: Point)
        requires
            before.wf(),
            after.wf(),
            after.dimensions == before.dimensions,
            forall|p: Point|
                #![trigger after.tile_at(p)]
                before.spec_in_bounds(p) ==> (if before.steps().beyond(
                    seq![center],
                    p,
                    MAX_DEPTH - 1,
                ) {
                    after.tile_at(p).is_new(theme.wall())
                } else {
                    after.tile_at(p) == before.tile_at(p)
                }),
        ensures
            after.all_linked(center),
    {
        let old_steps = before.steps();
        let new_steps = after.steps();
        assert forall|p: Point| #[trigger] after.enterable(p) implies after.linked(center, p) by {
            assert(after.tile_at(p) == after.tiles[after.index_of(p)]);
            assert(!old_steps.beyond(seq![center], p, MAX_DEPTH - 1));
            let w = choose|w: Seq<Point>| #[trigger]
                old_steps.leads(seq![center], w, p) && !(old_steps.walk_cost(w) > MAX_DEPTH - 1);
            assert(seq![center].contains(w[0]));
            let k0 = choose|k: int| 0 <= k < seq![center].len() && seq![center][k] == w[0];
            assert(w[0] == center);
            assert forall|k: int| 1 <= k < w.len() implies adjacent(w[k - 1], #[trigger] w[k])
                && new_steps.is_open(w[k]) by {
                let head = w.subrange(0, k + 1);
                old_steps.lemma_walk_prefix(w, k);
                assert(head[0] == w[0]);
                assert(head.last() == w[k]);
                assert(old_steps.leads(seq![center], head, w[k]));
                assert(!old_steps.beyond(seq![center], w[k], MAX_DEPTH - 1));
                assert(old_steps.is_open(w[k]));
                before.lemma_open_is_enterable(w[k]);
                after.lemma_open_is_enterable(w[k]);
                assert(after.tile_at(w[k]) == before.tile_at(w[k]));
            }
            assert(new_steps.is_walk(w));
        }
    }

    /// The tiles on the way of a walker can be walked to from its start.
    pub proof fn lemma_walked_is_linked(
        before: TileMap,
        after: TileMap,
        theme: MapTheme,
        start: Point,
        path: Seq<Point>,
    )
        requires
            before.wf(),
            after.wf(),
            after.dimensions == before.dimensions,
            Self::walked(before, after, theme, start, path),
        ensures
            forall|j: int| 0 <= j < path.len() ==> after.linked(start, #[trigger] path[j]),
    {
        let steps = after.steps();
        assert forall|j: int| 0 <= j < path.len() implies after.linked(start, #[trigger] path[j]) by {
            let head = path.subrange(0, j + 1);
            assert(head[0] == path[0]);
            assert forall|k: int| 1 <= k < head.len() implies adjacent(
                head[k - 1],
                #[trigger] head[k],
            ) && steps.is_open(head[k]) by {
                assert(head[k] == path[k]);
                assert(head[k - 1] == path[k - 1]);
                assert(path.contains(path[k]));
                assert(after.tile_at(path[k]).is_new(theme.floor()));
                after.lemma_open_is_enterable(path[k]);
            }
            assert(steps.is_walk(head));
            assert(head.last() == path[j]);
        }
    }

    /// Walls up every tile that lies farther than [`PRUNE_DISTANCE`] from
    /// `center`. As the distances are measured up to [`MAX_DEPTH`] only,
    /// these are the tiles that cannot be reached from `center` in fewer
    /// steps than that, and so the tiles of caves that have no way to it.
    pub fn prune(mb: &mut MapBuilder, center: Point)
        requires
            old(mb).map.wf(),
        ensures
            final(mb).map.wf(),
            final(mb).map.dimensions == old(mb).map.dimensions,
            forall|p: Point|
                old(mb).map.spec_in_bounds(p) ==> #[trigger] final(mb).map.tile_at(p) == old(
                    mb,
                ).map.tile_at(p) || (final(mb).map.tile_at(p).is_new(old(mb).theme.wall()) && old(
                    mb,
                ).map.steps().beyond(seq![center], p, MAX_DEPTH - 1)),
            forall|p: Point|
                old(mb).map.spec_in_bounds(p) && old(mb).map.steps().beyond(
                    seq![center],
                    p,
                    MAX_DEPTH - 1,
                ) ==> (#[trigger] final(mb).map.tile_at(p)).is_new(old(mb).theme.wall()),
            forall|i: int|
                0 <= i < final(mb).map.tiles.len() ==> #[trigger] final(mb).map.tiles[i] == old(
                    mb,
                ).map.tiles[i] || final(mb).map.tiles[i].is_new(old(mb).theme.wall()),
            final(mb).map.all_linked(center),
            final(mb).rooms == old(mb).rooms,
            final(mb).monster_spawns == old(mb).monster_spawns,
            final(mb).entity_spawns == old(mb).entity_spawns,
            final(mb).player_start == old(mb).player_start,
            final(mb).amulet_start == old(mb).amulet_start,
            final(mb).theme == old(mb).theme,
    {
        let mut starts: Vec<Point> = Vec::new();
        starts.push(center);
        assert(starts@ =~= seq![center]);
        let field = DistanceField::new(&starts, &mb.map, MAX_DEPTH);
        let ghost start = mb.map;
        let mut y: i32 = 0;
        while y < mb.map.dimensions.y
            invariant
                mb.map.wf(),
                start.wf(),
                start == old(mb).map,
                mb.map.dimensions == start.dimensions,
                0 <= y <= start.dimensions.y,
                field.measures(start, seq![center], MAX_DEPTH as int),
                forall|p: Point|
                    #![trigger mb.map.tile_at(p)]
                    start.spec_in_bounds(p) ==> (if p.y < y && start.steps().beyond(
                        seq![center],
                        p,
                        MAX_DEPTH - 1,
                    ) {
                        mb.map.tile_at(p).is_new(mb.theme.wall())
                    } else {
                        mb.map.tile_at(p) == start.tile_at(p)
                    }),
                mb.rooms == old(mb).rooms,
                mb.monster_spawns == old(mb).monster_spawns,
                mb.entity_spawns == old(mb).entity_spawns,
                mb.player_start == old(mb).player_start,
                mb.amulet_start == old(mb).amulet_start,
                mb.theme == old(mb).theme,
            decreases start.dimensions.y - y,
        {
            let mut x: i32 = 0;
            while x < mb.map.dimensions.x
                invariant
                    mb.map.wf(),
                    start.wf(),
                    start == old(mb).map,
                    mb.map.dimensions == start.dimensions,
                    0 <= y < start.dimensions.y,
                    0 <= x <= start.dimensions.x,
                    field.measures(start, seq![center], MAX_DEPTH as int),
                    forall|p: Point|
                        #![trigger mb.map.tile_at(p)]
                        start.spec_in_bounds(p) ==> (if (p.y < y || (p.y == y && p.x < x))
                            && start.steps().beyond(seq![center], p, MAX_DEPTH - 1) {
                            mb.map.tile_at(p).is_new(mb.theme.wall())
                        } else {
                            mb.map.tile_at(p) == start.tile_at(p)
                        }),
                    mb.rooms == old(mb).rooms,
                    mb.monster_spawns == old(mb).monster_spawns,
                    mb.entity_spawns == old(mb).entity_spawns,
                    mb.player_start == old(mb).player_start,
                    mb.amulet_start == old(mb).amulet_start,
                    mb.theme == old(mb).theme,
                decreases start.dimensions.x - x,
            {
                let here = Point { x, y };
                let ghost prev = mb.map;
                let idx: usize = mb.map.map_idx(x, y);
                proof {
                    assert(field.measured_at(start, seq![center], MAX_DEPTH as int, here));
                }
                if field.map[idx] > PRUNE_DISTANCE {
                    mb.place(here, TileType::ThemeWall);
                }
                proof {
                    start.lemma_index(here);
                    assert forall|p: Point|
                        #![trigger mb.map.tile_at(p)]
                        start.spec_in_bounds(p) implies (if (p.y < y || (p.y == y && p.x < x + 1))
                        && start.steps().beyond(seq![center], p, MAX_DEPTH - 1) {
                        mb.map.tile_at(p).is_new(mb.theme.wall())
                    } else {
                        mb.map.tile_at(p) == start.tile_at(p)
                    }) by {
                        if p != here {
                            start.lemma_index(p);
                            assert(mb.map.index_of(p) == prev.index_of(p));
                            assert(mb.map.tile_at(p) == prev.tile_at(p));
                        } else {
                            if field.map[idx as int] != UNREACHABLE {
                                let d = field.map[idx as int] as int;
                                let steps = start.steps();
                                let w = choose|w: Seq<Point>| #[trigger]
                                    steps.leads(seq![center], w, here) && steps.walk_cost(w) == d;
                                assert(steps.leads(seq![center], w, here));
                            }
                        }
                    }
                }
                x = x + 1;
            }
            y = y + 1;
        }
        proof {
            Self::lemma_pruned_is_linked(start, mb.map, mb.theme, center);
            assert forall|i: int| 0 <= i < mb.map.tiles.len() implies #[trigger] mb.map.tiles[i]
                == start.tiles[i] || mb.map.tiles[i].is_new(mb.theme.wall()) by {
                let p = Point {
                    x: (i % (start.dimensions.x as int)) as i32,
                    y: (i / (start.dimensions.x as int)) as i32,
                };
                start.lemma_point_at_index(i);
                assert(mb.map.tile_at(p) == mb.map.tiles[i]);
            }
        }
    }
}

/// A map with a floor at `p` has at least one floor.
pub proof fn lemma_one_floor(map: TileMap, theme: MapTheme, p: Point)
    requires
        map.wf(),
        map.floor_at(theme, p),
    ensures
        map.floor_count(theme) >= 1,
{
    map.lemma_index(p);
    let i = map.index_of(p);
    lemma_count_grows(map, theme.floor(), i, i);
    assert(map.count_of(theme.floor(), i + 1) == map.count_of(theme.floor(), i) + 1);
    lemma_count_grows(map, theme.floor(), i + 1, map.tiles.len() as int);
}

/// Counting farther never counts fewer, and never fewer than nothing.
pub proof fn lemma_count_grows(map: TileMap, tile_type: TileType, from: int, to: int)
    requires
        0 <= from <= to,
    ensures
        0 <= map.count_of(tile_type, from) <= map.count_of(tile_type, to),
    decreases to,
{
    if from < to {
        lemma_count_grows(map, tile_type, from, to - 1);
    } else if from > 0 {
        lemma_count_grows(map, tile_type, from - 1, from - 1);
    }
}

} // verus!
