//! Cellular automata: caves grown from random noise.

use vstd::prelude::*;
use bracket_random::prelude::RandomNumberGenerator;
use crate::helpers::geometry::{distance_squared, reads_before, Point};
use crate::helpers::map::{Terrain, TileMap};
use crate::helpers::map_builder::themes::MapTheme;
use crate::helpers::map_builder::{GenerationError, MapBuilder};
use crate::helpers::random::roll_range;
use crate::helpers::tiles::{Tile, TileType};

verus! {

/// How often the rule is applied to the noise.
pub const ITERATIONS: u32 = 10;

/// Of the rolls from 0 to 99, those from here on seed a floor.
pub const FLOOR_ROLL: i32 = 55;

impl Terrain {
    /// One if the tile at `q` is a wall of the theme, zero if it is not or
    /// lies off the map.
    pub open spec fn wall_at(self, theme: MapTheme, q: Point) -> int {
        if self.in_bounds(q) && self.at(q) == theme.wall() {
            1
        } else {
            0
        }
    }

    /// How many of the eight tiles around `p` are walls of the theme.
    pub open spec fn wall_neighbors(self, theme: MapTheme, p: Point) -> int {
        self.wall_at(theme, Point { x: (p.x - 1) as i32, y: (p.y - 1) as i32 }) + self.wall_at(
            theme,
            Point { x: p.x, y: (p.y - 1) as i32 },
        ) + self.wall_at(theme, Point { x: (p.x + 1) as i32, y: (p.y - 1) as i32 }) + self.wall_at(
            theme,
            Point { x: (p.x - 1) as i32, y: p.y },
        ) + self.wall_at(theme, Point { x: (p.x + 1) as i32, y: p.y }) + self.wall_at(
            theme,
            Point { x: (p.x - 1) as i32, y: (p.y + 1) as i32 },
        ) + self.wall_at(theme, Point { x: p.x, y: (p.y + 1) as i32 }) + self.wall_at(
            theme,
            Point { x: (p.x + 1) as i32, y: (p.y + 1) as i32 },
        )
    }

    /// The tile at `p` does not lie on the border of the map.
    pub open spec fn interior(self, p: Point) -> bool {
        1 <= p.x < self.width - 1 && 1 <= p.y < self.height - 1
    }

    /// What the rule makes of the tile at `p`: a wall where more than four
    /// of the tiles around it are walls or none is, else a floor. The tiles
    /// on the border stay what they are.
    pub open spec fn next_at(self, theme: MapTheme, p: Point) -> TileType {
        if self.interior(p) {
            let n = self.wall_neighbors(theme, p);
            if n > 4 || n == 0 {
                theme.wall()
            } else {
                theme.floor()
            }
        } else {
            self.at(p)
        }
    }

    /// What the rule makes of the terrain when it is applied to all tiles
    /// at once.
    pub open spec fn step(self, theme: MapTheme) -> Terrain {
        Terrain {
            width: self.width,
            height: self.height,
            kinds: Seq::new(self.kinds.len(), |i: int| self.next_at(theme, self.point_at(i))),
        }
    }

    /// What the rule makes of the terrain when it is applied `rounds` times.
    pub open spec fn evolved(self, theme: MapTheme, rounds: nat) -> Terrain
        decreases rounds,
    {
        if rounds == 0 {
            self
        } else {
            self.evolved(theme, (rounds - 1) as nat).step(theme)
        }
    }

    /// Every tile is a floor or a wall of the theme.
    pub open spec fn is_noise(self, theme: MapTheme) -> bool {
        forall|i: int|
            0 <= i < self.kinds.len() ==> #[trigger] self.kinds[i] == theme.floor() || self.kinds[i]
                == theme.wall()
    }
}

/// Grows caves from random noise.
pub struct CellularAutomataArchitect {}

impl CellularAutomataArchitect {
    /// The middle of the map.
    pub open spec fn center(map: TileMap) -> Point {
        Point { x: (map.dimensions.x / 2) as i32, y: (map.dimensions.y / 2) as i32 }
    }

    /// `start` is the floor nearest to the middle of the map, and of several
    /// the first reading row by row.
    pub open spec fn nearest_floor(mb: MapBuilder, start: Point) -> bool {
        &&& mb.map.floor_at(mb.theme, start)
        &&& forall|q: Point| #[trigger]
            mb.map.floor_at(mb.theme, q) ==> distance_squared(Self::center(mb.map), q)
                > distance_squared(Self::center(mb.map), start) || (distance_squared(
                Self::center(mb.map),
                q,
            ) == distance_squared(Self::center(mb.map), start) && !reads_before(q, start))
    }

    /// Grows a map of the given size: every tile is seeded with a floor or a
    /// wall at random, and the rule is applied [`ITERATIONS`] times. The
    /// player starts on the floor nearest to the middle, the amulet lies as
    /// far from there as can be, and the monsters are spread over the floor
    /// more than ten tiles away. With no floor left there is no map.
    pub fn new(
        &mut self,
        width: u32,
        height: u32,
        theme: MapTheme,
        rng: &mut RandomNumberGenerator,
    ) -> (made: Result<MapBuilder, GenerationError>)
        ensures
            made matches Ok(mb) ==> {
                &&& mb.generated(width, height, theme)
                &&& mb.monsters_spread()
                &&& Self::nearest_floor(mb, mb.player_start)
                &&& exists|noise: Terrain| #[trigger]
                    noise.is_noise(theme) && noise.kinds.len() == mb.map.tiles.len()
                        && mb.map.land() == noise.evolved(theme, ITERATIONS as nat)
            },
            made matches Err(e) ==> e == GenerationError::BadSize || e == GenerationError::NoFloor,
            made == Err::<MapBuilder, GenerationError>(GenerationError::BadSize)
                <==> !MapBuilder::size_ok(width, height),
    {
        let mut mb = match MapBuilder::blank(width, height, theme) {
            Ok(mb) => mb,
            Err(e) => {
                return Err(e);
            },
        };
        self.random_noise_map(rng, &mut mb);
        let ghost noise = mb.map.land();
        self.grow(&mut mb, ITERATIONS);
        let start = match self.find_start(&mb) {
            Some(start) => start,
            None => {
                return Err(GenerationError::NoFloor);
            },
        };
        let spawns = mb.spawn_monsters(&start, rng);
        mb.monster_spawns = spawns;
        mb.player_start = start;
        let goal = mb.find_most_distant();
        match goal {
            Some(g) => {
                mb.amulet_start = g;
            },
            None => {},
        }
        proof {
            mb.lemma_starts_enterable();
            assert(noise.is_noise(theme)) by {
                assert forall|i: int| 0 <= i < noise.kinds.len() implies #[trigger] noise.kinds[i]
                    == theme.floor() || noise.kinds[i] == theme.wall() by {}
            }
            assert(noise.is_noise(theme) && noise.kinds.len() == mb.map.tiles.len() && mb.map.land()
                == noise.evolved(theme, ITERATIONS as nat));
        }
        Ok(mb)
    }

    /// Applies the rule `rounds` times.
    pub fn grow(&mut self, mb: &mut MapBuilder, rounds: u32)
        requires
            old(mb).map.wf(),
        ensures
            final(mb).map.wf(),
            final(mb).map.dimensions == old(mb).map.dimensions,
            final(mb).map.tiles.len() == old(mb).map.tiles.len(),
            final(mb).map.land() == old(mb).map.land().evolved(old(mb).theme, rounds as nat),
            old(mb).map.built_of(old(mb).theme) ==> final(mb).map.built_of(old(mb).theme),
            final(mb).rooms == old(mb).rooms,
            final(mb).monster_spawns == old(mb).monster_spawns,
            final(mb).entity_spawns == old(mb).entity_spawns,
            final(mb).player_start == old(mb).player_start,
            final(mb).amulet_start == old(mb).amulet_start,
            final(mb).theme == old(mb).theme,
    {
        let mut round: u32 = 0;
        while round < rounds
            invariant
                round <= rounds,
                mb.map.wf(),
                mb.map.dimensions == old(mb).map.dimensions,
                mb.map.tiles.len() == old(mb).map.tiles.len(),
                mb.map.land() == old(mb).map.land().evolved(old(mb).theme, round as nat),
                old(mb).map.built_of(old(mb).theme) ==> mb.map.built_of(old(mb).theme),
                mb.rooms == old(mb).rooms,
                mb.monster_spawns == old(mb).monster_spawns,
                mb.entity_spawns == old(mb).entity_spawns,
                mb.player_start == old(mb).player_start,
                mb.amulet_start == old(mb).amulet_start,
                mb.theme == old(mb).theme,
            decreases rounds - round,
        {
            self.iteration(mb);
            round = round + 1;
        }
    }

    /// The floor nearest to the middle of the map, if the map has a floor.
    pub fn find_start(&self, mb: &MapBuilder) -> (start: Option<Point>)
        requires
            mb.map.wf(),
        ensures
            start matches Some(s) ==> Self::nearest_floor(*mb, s),
            start is None ==> forall|q: Point| !mb.map.floor_at(mb.theme, q),
    {
        let center = Point { x: mb.map.dimensions.x / 2, y: mb.map.dimensions.y / 2 };
        let floor = mb.theme.tile_to_render(TileType::ThemeFloor);
        let mut best: Option<(Point, u128)> = None;
        let mut y: i32 = 0;
        while y < mb.map.dimensions.y
            invariant
                mb.map.wf(),
                0 <= y <= mb.map.dimensions.y,
                floor == mb.theme.floor(),
                center == Self::center(mb.map),
                Self::nearest_so_far(*mb, best, Point { x: 0, y }),
            decreases mb.map.dimensions.y - y,
        {
            let mut x: i32 = 0;
            while x < mb.map.dimensions.x
                invariant
                    mb.map.wf(),
                    0 <= y < mb.map.dimensions.y,
                    0 <= x <= mb.map.dimensions.x,
                    floor == mb.theme.floor(),
                    center == Self::center(mb.map),
                    Self::nearest_so_far(*mb, best, Point { x, y }),
                decreases mb.map.dimensions.x - x,
            {
                let here = Point { x, y };
                let ghost before = best;
                let idx: usize = mb.map.map_idx(x, y);
                if mb.map.tiles[idx].tile_type == floor {
                    let d: u128 = center.distance_squared(here);
                    let nearer: bool = match best {
                        None => true,
                        Some((_, least)) => d < least,
                    };
                    if nearer {
                        best = Some((here, d));
                    }
                }
                proof {
                    let next = Point { x: (x + 1) as i32, y };
                    assert forall|q: Point| #[trigger]
                        mb.map.floor_at(mb.theme, q) && reads_before(q, next) implies (
                    best matches Some((s, least)) && (distance_squared(center, q) > least || (
                    distance_squared(center, q) == least && !reads_before(q, s)))) by {
                        if q != here {
                            assert(reads_before(q, here));
                        }
                    }
                }
                x = x + 1;
            }
            y = y + 1;
        }
        proof {
            assert forall|q: Point| #[trigger] mb.map.floor_at(mb.theme, q) implies reads_before(
                q,
                Point { x: 0, y: mb.map.dimensions.y },
            ) by {}
        }
        match best {
            Some((s, _)) => Some(s),
            None => None,
        }
    }

    /// While the map is read row by row and `next` is the tile to read
    /// next, `best` is the first of the nearest floors read so far.
    pub open spec fn nearest_so_far(mb: MapBuilder, best: Option<(Point, u128)>, next: Point) -> bool {
        &&& best matches Some((s, least)) ==> {
            &&& mb.map.floor_at(mb.theme, s)
            &&& reads_before(s, next)
            &&& least == distance_squared(Self::center(mb.map), s)
        }
        &&& forall|q: Point| #[trigger]
            mb.map.floor_at(mb.theme, q) && reads_before(q, next) ==> (best matches Some(
                (s, least),
            ) && (distance_squared(Self::center(mb.map), q) > least || (distance_squared(
                Self::center(mb.map),
                q,
            ) == least && !reads_before(q, s))))
    }

    /// What a roll from 0 to 99 seeds: a floor from [`FLOOR_ROLL`] on, which
    /// is 45 times in a hundred, else a wall.
    pub fn noise_role(roll: i32) -> (role: TileType)
        ensures
            role == (if roll >= FLOOR_ROLL {
                TileType::ThemeFloor
            } else {
                TileType::ThemeWall
            }),
    {
        if roll >= FLOOR_ROLL {
            TileType::ThemeFloor
        } else {
            TileType::ThemeWall
        }
    }

    /// Seeds every tile with a floor or a wall, each by a roll of its own.
    pub fn random_noise_map(&mut self, rng: &mut RandomNumberGenerator, mb: &mut MapBuilder)
        ensures
            final(mb).map.dimensions == old(mb).map.dimensions,
            final(mb).map.tiles.len() == old(mb).map.tiles.len(),
            final(mb).map.built_of(old(mb).theme),
            final(mb).rooms == old(mb).rooms,
            final(mb).monster_spawns == old(mb).monster_spawns,
            final(mb).entity_spawns == old(mb).entity_spawns,
            final(mb).player_start == old(mb).player_start,
            final(mb).amulet_start == old(mb).amulet_start,
            final(mb).theme == old(mb).theme,
    {
        let n: usize = mb.map.tiles.len();
        let mut i: usize = 0;
        while i < n
            invariant
                i <= n,
                n == mb.map.tiles.len(),
                mb.map.dimensions == old(mb).map.dimensions,
                mb.map.tiles.len() == old(mb).map.tiles.len(),
                forall|k: int|
                    0 <= k < i ==> (#[trigger] mb.map.tiles[k]).is_new(mb.theme.floor())
                        || mb.map.tiles[k].is_new(mb.theme.wall()),
                mb.rooms == old(mb).rooms,
                mb.monster_spawns == old(mb).monster_spawns,
                mb.entity_spawns == old(mb).entity_spawns,
                mb.player_start == old(mb).player_start,
                mb.amulet_start == old(mb).amulet_start,
                mb.theme == old(mb).theme,
            decreases n - i,
        {
            let roll: i32 = roll_range(rng, 0, 100);
            let rendered = mb.theme.tile_to_render(Self::noise_role(roll));
            mb.map.tiles[i] = Tile::new(rendered);
            i = i + 1;
        }
    }

    /// Whether the tile at `q` is a wall.
    fn is_wall(mb: &MapBuilder, q: Point) -> (count: usize)
        requires
            mb.map.wf(),
        ensures
            count == mb.map.land().wall_at(mb.theme, q),
    {
        if mb.map.in_bounds(q) {
            let idx: usize = mb.map.map_idx(q.x, q.y);
            if mb.map.tiles[idx].tile_type == mb.theme.tile_to_render(TileType::ThemeWall) {
                1
            } else {
                0
            }
        } else {
            0
        }
    }

    /// How many of the eight tiles around `(x, y)` are walls. Tiles off the
    /// map do not count.
    pub fn count_neighbors(&self, x: i32, y: i32, mb: &MapBuilder) -> (neighbors: usize)
        requires
            mb.map.wf(),
            mb.map.spec_in_bounds(Point { x, y }),
        ensures
            neighbors == mb.map.land().wall_neighbors(mb.theme, Point { x, y }),
            neighbors <= 8,
    {
        Self::is_wall(mb, Point { x: x - 1, y: y - 1 }) + Self::is_wall(mb, Point { x, y: y - 1 })
            + Self::is_wall(mb, Point { x: x + 1, y: y - 1 }) + Self::is_wall(
            mb,
            Point { x: x - 1, y },
        ) + Self::is_wall(mb, Point { x: x + 1, y }) + Self::is_wall(
            mb,
            Point { x: x - 1, y: y + 1 },
        ) + Self::is_wall(mb, Point { x, y: y + 1 }) + Self::is_wall(
            mb,
            Point { x: x + 1, y: y + 1 },
        )
    }

    /// What one application of the rule makes of a map: a tile off the
    /// border is a new tile of what the rule makes of it, a tile on the
    /// border is left as it is.
    pub open spec fn grown(before: TileMap, after: TileMap, theme: MapTheme) -> bool {
        &&& after.dimensions == before.dimensions
        &&& after.tiles.len() == before.tiles.len()
        &&& forall|p: Point|
            #![trigger after.tile_at(p)]
            before.spec_in_bounds(p) ==> (if before.land().interior(p) {
                after.tile_at(p).is_new(before.land().next_at(theme, p))
            } else {
                after.tile_at(p) == before.tile_at(p)
            })
        &&& after.land() == before.land().step(theme)
    }

    /// Applies the rule once to all tiles at the same time.
    pub fn iteration(&mut self, mb: &mut MapBuilder)
        requires
            old(mb).map.wf(),
        ensures
            final(mb).map.wf(),
            Self::grown(old(mb).map, final(mb).map, old(mb).theme),
            old(mb).map.built_of(old(mb).theme) ==> final(mb).map.built_of(old(mb).theme),
            final(mb).rooms == old(mb).rooms,
            final(mb).monster_spawns == old(mb).monster_spawns,
            final(mb).entity_spawns == old(mb).entity_spawns,
            final(mb).player_start == old(mb).player_start,
            final(mb).amulet_start == old(mb).amulet_start,
            final(mb).theme == old(mb).theme,
    {
        let floor = mb.theme.tile_to_render(TileType::ThemeFloor);
        let wall = mb.theme.tile_to_render(TileType::ThemeWall);
        let ghost start = mb.map;
        let ghost land = mb.map.land();
        let ghost theme = mb.theme;
        // what the rule makes of every tile, row by row
        let mut next: Vec<TileType> = Vec::new();
        let mut y: i32 = 0;
        while y < mb.map.dimensions.y
            invariant
                *mb == *old(mb),
                start == mb.map,
                start.wf(),
                land == start.land(),
                theme == mb.theme,
                floor == theme.floor(),
                wall == theme.wall(),
                0 <= y <= start.dimensions.y,
                next.len() == y * start.dimensions.x,
                forall|p: Point|
                    #![trigger land.next_at(theme, p)]
                    start.spec_in_bounds(p) && p.y < y ==> next[start.index_of(p)] == land.next_at(
                        theme,
                        p,
                    ),
            decreases start.dimensions.y - y,
        {
            let mut x: i32 = 0;
            while x < mb.map.dimensions.x
                invariant
                    *mb == *old(mb),
                    start == mb.map,
                    start.wf(),
                    land == start.land(),
                    theme == mb.theme,
                    floor == theme.floor(),
                    wall == theme.wall(),
                    0 <= y < start.dimensions.y,
                    0 <= x <= start.dimensions.x,
                    next.len() == y * start.dimensions.x + x,
                    forall|p: Point|
                        #![trigger land.next_at(theme, p)]
                        start.spec_in_bounds(p) && (p.y < y || (p.y == y && p.x < x))
                            ==> next[start.index_of(p)] == land.next_at(theme, p),
                decreases start.dimensions.x - x,
            {
                let here = Point { x, y };
                let idx: usize = mb.map.map_idx(x, y);
                let kind = if 1 <= x && x < mb.map.dimensions.x - 1 && 1 <= y && y
                    < mb.map.dimensions.y - 1 {
                    let neighbors: usize = self.count_neighbors(x, y, mb);
                    if neighbors > 4 || neighbors == 0 {
                        wall
                    } else {
                        floor
                    }
                } else {
                    mb.map.tiles[idx].tile_type
                };
                let ghost before = next@;
                next.push(kind);
                proof {
                    let w = start.dimensions.x as int;
                    assert forall|p: Point|
                        #![trigger land.next_at(theme, p)]
                        start.spec_in_bounds(p) && (p.y < y || (p.y == y && p.x < x
                            + 1)) implies next[start.index_of(p)] == land.next_at(theme, p) by {
                        lemma_row_major(w, p.x as int, p.y as int, x as int, y as int);
                        if p != here {
                            assert(next[start.index_of(p)] == before[start.index_of(p)]);
                        }
                    }
                }
                x = x + 1;
            }
            proof {
                assert(y * start.dimensions.x + start.dimensions.x == (y + 1) * start.dimensions.x)
                    by (nonlinear_arith);
            }
            y = y + 1;
        }
        proof {
            assert(start.dimensions.y * start.dimensions.x == start.dimensions.x
                * start.dimensions.y) by (nonlinear_arith);
        }
        // the tiles off the border are made anew
        y = 1;
        while y < mb.map.dimensions.y - 1
            invariant
                start.wf(),
                mb.map.wf(),
                mb.map.dimensions == start.dimensions,
                land == start.land(),
                theme == mb.theme,
                1 <= y,
                y <= start.dimensions.y - 1 || start.dimensions.y < 2,
                next.len() == start.tiles.len(),
                forall|p: Point|
                    #![trigger land.next_at(theme, p)]
                    start.spec_in_bounds(p) ==> next[start.index_of(p)] == land.next_at(theme, p),
                forall|p: Point|
                    #![trigger mb.map.tile_at(p)]
                    start.spec_in_bounds(p) ==> (if land.interior(p) && p.y < y {
                        mb.map.tile_at(p).is_new(land.next_at(theme, p))
                    } else {
                        mb.map.tile_at(p) == start.tile_at(p)
                    }),
                mb.rooms == old(mb).rooms,
                mb.monster_spawns == old(mb).monster_spawns,
                mb.entity_spawns == old(mb).entity_spawns,
                mb.player_start == old(mb).player_start,
                mb.amulet_start == old(mb).amulet_start,
                mb.theme == old(mb).theme,
            decreases start.dimensions.y - y,
        {
            let mut x: i32 = 1;
            while x < mb.map.dimensions.x - 1
                invariant
                    start.wf(),
                    mb.map.wf(),
                    mb.map.dimensions == start.dimensions,
                    land == start.land(),
                    theme == mb.theme,
                    1 <= y < start.dimensions.y - 1,
                    1 <= x,
                    x <= start.dimensions.x - 1 || start.dimensions.x < 2,
                    next.len() == start.tiles.len(),
                    forall|p: Point|
                        #![trigger land.next_at(theme, p)]
                        start.spec_in_bounds(p) ==> next[start.index_of(p)] == land.next_at(
                            theme,
                            p,
                        ),
                    forall|p: Point|
                        #![trigger mb.map.tile_at(p)]
                        start.spec_in_bounds(p) ==> (if land.interior(p) && (p.y < y || (p.y == y
                            && p.x < x)) {
                            mb.map.tile_at(p).is_new(land.next_at(theme, p))
                        } else {
                            mb.map.tile_at(p) == start.tile_at(p)
                        }),
                    mb.rooms == old(mb).rooms,
                    mb.monster_spawns == old(mb).monster_spawns,
                    mb.entity_spawns == old(mb).entity_spawns,
                    mb.player_start == old(mb).player_start,
                    mb.amulet_start == old(mb).amulet_start,
                    mb.theme == old(mb).theme,
                decreases start.dimensions.x - x,
            {
                let here = Point { x, y };
                let ghost prev = mb.map;
                proof {
                    assert(land.interior(here));
                    assert(next[start.index_of(here)] == land.next_at(theme, here));
                }
                let idx: usize = mb.map.map_idx(x, y);
                mb.map.tiles[idx] = Tile::new(next[idx]);
                proof {
                    start.lemma_index(here);
                    assert forall|p: Point|
                        #![trigger mb.map.tile_at(p)]
                        start.spec_in_bounds(p) implies (if land.interior(p) && (p.y < y || (p.y
                        == y && p.x < x + 1)) {
                        mb.map.tile_at(p).is_new(land.next_at(theme, p))
                    } else {
                        mb.map.tile_at(p) == start.tile_at(p)
                    }) by {
                        if p != here {
                            start.lemma_index(p);
                            assert(mb.map.index_of(p) == prev.index_of(p));
                            assert(mb.map.tile_at(p) == prev.tile_at(p));
                        }
                    }
                }
                x = x + 1;
            }
            y = y + 1;
        }
        proof {
            let after = mb.map;
            assert forall|p: Point|
                #![trigger after.tile_at(p)]
                start.spec_in_bounds(p) implies (if land.interior(p) {
                after.tile_at(p).is_new(land.next_at(theme, p))
            } else {
                after.tile_at(p) == start.tile_at(p)
            }) by {}
            assert forall|i: int| 0 <= i < after.tiles.len() implies #[trigger] after.land().kinds[i]
                == land.step(theme).kinds[i] by {
                start.lemma_point_at_index(i);
                let p = land.point_at(i);
                assert(after.tile_at(p) == after.tiles[i]);
                assert(start.tile_at(p) == start.tiles[i]);
            }
            assert(after.land().kinds =~= land.step(theme).kinds);
            if start.built_of(theme) {
                assert forall|i: int| 0 <= i < after.tiles.len() implies (#[trigger] after.tiles[i]).is_new(
                    theme.floor(),
                ) || after.tiles[i].is_new(theme.wall()) by {
                    start.lemma_point_at_index(i);
                    let p = land.point_at(i);
                    assert(after.tile_at(p) == after.tiles[i]);
                    assert(start.tile_at(p) == start.tiles[i]);
                }
            }
        }
    }
}

/// In a grid of rows of `w` tiles, the tiles before `(x, y)` come before
/// it row by row, and no two tiles have the same place.
pub proof fn lemma_row_major(w: int, px: int, py: int, x: int, y: int)
    requires
        0 <= px < w,
        0 <= x < w,
        0 <= py,
        0 <= y,
    ensures
        (py < y || (py == y && px < x)) ==> 0 <= py * w + px < y * w + x,
        (py == y && px == x) ==> py * w + px == y * w + x,
{
    assert((py < y || (py == y && px < x)) ==> 0 <= py * w + px < y * w + x) by (nonlinear_arith)
        requires
            0 <= px < w,
            0 <= x < w,
            0 <= py,
            0 <= y,
    ;
}

} // verus!
