//! Map generation: what an architect hands over, and the rules that the
//! architects share.

pub mod automata;
pub mod custom;
pub mod drunkard;
pub mod rooms;
pub mod themes;

use vstd::prelude::*;
use bracket_random::prelude::RandomNumberGenerator;
use crate::helpers::distance_field::{DistanceField, UNREACHABLE};
use crate::helpers::geometry::{distance_squared, reads_before, Point, Rect};
use crate::helpers::map::TileMap;
use crate::helpers::map_builder::automata::CellularAutomataArchitect;
use crate::helpers::map_builder::drunkard::DrunkardsWalkArchitect;
use crate::helpers::map_builder::rooms::RoomsArchitect;
use crate::helpers::map_builder::themes::MapTheme;
use crate::helpers::random::{roll_index, roll_range};
use crate::helpers::tiles::{Tile, TileType};

verus! {

/// How many monsters a level gets at most.
pub const NUM_MONSTERS: usize = 50;

/// Distances from the player's start are measured up to this many steps.
pub const MAX_DEPTH: u32 = 1024;

/// Why a map could not be generated.
#[derive(Copy, Clone, Debug, PartialEq, Eq, Structural)]
pub enum GenerationError {
    /// The map has no tiles, or more than can be numbered.
    BadSize,
    /// The map is too small for the architect's rooms.
    MapTooSmall,
    /// The architect left no floor to start on.
    NoFloor,
    /// The architect used up its attempts.
    OutOfAttempts,
    /// The template does not fit its own size.
    BadTemplate,
}

/// The ways there are to generate a map.
#[derive(Copy, Clone, Debug, PartialEq, Eq, Structural)]
pub enum Architect {
    DrunkardsWalk,
    RoomsAndCorridors,
    CellularAutomata,
}

impl Architect {
    /// The architect that a roll of `0..3` picks: 0 the drunkard's walk, 1
    /// rooms and corridors, 2 the cellular automata.
    pub fn from_roll(roll: i32) -> (architect: Architect)
        ensures
            architect == (if roll == 0 {
                Architect::DrunkardsWalk
            } else if roll == 1 {
                Architect::RoomsAndCorridors
            } else {
                Architect::CellularAutomata
            }),
    {
        match roll {
            0 => Architect::DrunkardsWalk,
            1 => Architect::RoomsAndCorridors,
            _ => Architect::CellularAutomata,
        }
    }
}

/// A generated level: the map and where everything starts.
pub struct MapBuilder {
    pub map: TileMap,
    pub rooms: Vec<Rect>,
    pub monster_spawns: Vec<Point>,
    /// Entities that a template places, each with its marker.
    pub entity_spawns: Vec<(Point, char)>,
    pub player_start: Point,
    pub amulet_start: Point,
    pub theme: MapTheme,
}

impl MapBuilder {
    /// A monster may start at `p` when the player starts at `start`: `p` is
    /// a floor more than ten tiles away.
    pub open spec fn spawnable(self, start: Point, p: Point) -> bool {
        self.map.floor_at(self.theme, p) && distance_squared(start, p) > 100
    }

    /// Every starting point lies on the map on a tile that can be entered.
    pub open spec fn starts_enterable(self) -> bool {
        &&& self.map.enterable(self.player_start)
        &&& self.map.enterable(self.amulet_start)
        &&& forall|i: int|
            0 <= i < self.monster_spawns.len() ==> self.map.enterable(
                #[trigger] self.monster_spawns[i],
            )
    }

    /// What the given architect hands over, beyond what every architect
    /// does.
    pub open spec fn built_by(self, architect: Architect) -> bool {
        match architect {
            Architect::DrunkardsWalk => {
                &&& self.monsters_spread()
                &&& self.player_start == DrunkardsWalkArchitect::center(
                    self.map.dimensions.x as u32,
                    self.map.dimensions.y as u32,
                )
                &&& self.map.floor_count(self.theme) >= (self.map.dimensions.x
                    * self.map.dimensions.y) / 3
                &&& self.map.all_linked(self.player_start)
            },
            Architect::RoomsAndCorridors => RoomsArchitect::furnished(self),
            Architect::CellularAutomata => {
                &&& self.monsters_spread()
                &&& CellularAutomataArchitect::nearest_floor(self, self.player_start)
            },
        }
    }

    /// Has the given architect generate a map of the given size and theme.
    pub fn new(
        architect: Architect,
        theme: MapTheme,
        width: u32,
        height: u32,
        rng: &mut RandomNumberGenerator,
    ) -> (made: Result<MapBuilder, GenerationError>)
        ensures
            made matches Ok(mb) ==> mb.generated(width, height, theme) && mb.built_by(architect),
            made == Err::<MapBuilder, GenerationError>(GenerationError::BadSize)
                <==> !Self::size_ok(width, height),
            made == Err::<MapBuilder, GenerationError>(GenerationError::MapTooSmall) <==> (
            architect == Architect::RoomsAndCorridors && Self::size_ok(width, height) && (width
                < rooms::MIN_SIZE || height < rooms::MIN_SIZE)),
            made == Err::<MapBuilder, GenerationError>(GenerationError::NoFloor) ==> architect
                == Architect::CellularAutomata,
            made == Err::<MapBuilder, GenerationError>(GenerationError::OutOfAttempts) ==> architect
                != Architect::CellularAutomata,
            made != Err::<MapBuilder, GenerationError>(GenerationError::BadTemplate),
    {
        match architect {
            Architect::DrunkardsWalk => {
                let mut drunkard = DrunkardsWalkArchitect {  };
                drunkard.new(width, height, theme, rng)
            },
            Architect::RoomsAndCorridors => {
                let mut rooms = RoomsArchitect {  };
                rooms.new(width, height, theme, rng)
            },
            Architect::CellularAutomata => {
                let mut automata = CellularAutomataArchitect {  };
                automata.new(width, height, theme, rng)
            },
        }
    }

    /// Generates a map of the given size with an architect and a theme
    /// drawn at random.
    pub fn new_random(width: u32, height: u32, rng: &mut RandomNumberGenerator) -> (made: Result<
        MapBuilder,
        GenerationError,
    >)
        ensures
            made matches Ok(mb) ==> mb.generated(width, height, mb.theme) && exists|
                architect: Architect,
            | #[trigger] mb.built_by(architect),
            made == Err::<MapBuilder, GenerationError>(GenerationError::BadSize)
                <==> !Self::size_ok(width, height),
            made == Err::<MapBuilder, GenerationError>(GenerationError::MapTooSmall)
                ==> Self::size_ok(width, height) && (width < rooms::MIN_SIZE || height
                < rooms::MIN_SIZE),
            made != Err::<MapBuilder, GenerationError>(GenerationError::BadTemplate),
    {
        let architect = Architect::from_roll(roll_range(rng, 0, 3));
        let theme = MapTheme::from_roll(roll_range(rng, 0, 2));
        Self::new(architect, theme, width, height, rng)
    }

    /// A map of this size can be built: it has tiles, and few enough to be
    /// numbered.
    pub open spec fn size_ok(width: u32, height: u32) -> bool {
        0 < width && 0 < height && width * height < i32::MAX
    }

    /// What every architect hands over: a map of the asked size, built of
    /// new floors and walls of the theme, with the player, the amulet and
    /// every monster on a tile of the map that can be entered, and the
    /// amulet as far from the player as a tile can be.
    pub open spec fn generated(self, width: u32, height: u32, theme: MapTheme) -> bool {
        &&& self.map.wf()
        &&& self.map.dimensions.x == width
        &&& self.map.dimensions.y == height
        &&& Self::size_ok(width, height)
        &&& self.theme == theme
        &&& self.map.built_of(theme)
        &&& self.starts_enterable()
        &&& self.map.farthest_from(self.player_start, self.amulet_start, MAX_DEPTH as int)
    }

    /// The monsters start on different tiles that are floors more than ten
    /// tiles from the player, and where there are fewer than
    /// [`NUM_MONSTERS`] of them, on every such tile.
    pub open spec fn monsters_spread(self) -> bool {
        &&& self.monster_spawns.len() <= NUM_MONSTERS
        &&& self.monster_spawns@.no_duplicates()
        &&& forall|i: int|
            0 <= i < self.monster_spawns.len() ==> self.spawnable(
                self.player_start,
                #[trigger] self.monster_spawns[i],
            )
        &&& self.monster_spawns.len() < NUM_MONSTERS ==> forall|p: Point|
            self.spawnable(self.player_start, p) ==> self.monster_spawns@.contains(p)
    }

    /// On a map built of floors and walls, a floor can be entered.
    pub proof fn lemma_floor_is_enterable(self, p: Point)
        requires
            self.map.wf(),
            self.map.built_of(self.theme),
            self.map.floor_at(self.theme, p),
        ensures
            self.map.enterable(p),
    {
        self.map.lemma_index(p);
        assert(self.map.tiles[self.map.index_of(p)].is_new(self.theme.floor())
            || self.map.tiles[self.map.index_of(p)].is_new(self.theme.wall()));
    }

    /// On a map built of floors and walls, with the player on a floor, the
    /// amulet at the farthest tile and the monsters on floors, every
    /// starting point can be entered.
    pub proof fn lemma_starts_enterable(self)
        requires
            self.map.wf(),
            self.map.built_of(self.theme),
            self.map.floor_at(self.theme, self.player_start),
            self.map.spec_in_bounds(self.amulet_start),
            self.map.farthest_from(self.player_start, self.amulet_start, MAX_DEPTH as int),
            forall|i: int|
                0 <= i < self.monster_spawns.len() ==> self.map.floor_at(
                    self.theme,
                    #[trigger] self.monster_spawns[i],
                ),
        ensures
            self.starts_enterable(),
    {
        assert forall|p: Point| self.map.floor_at(self.theme, p) implies self.map.enterable(p) by {
            self.map.lemma_index(p);
            assert(self.map.tiles[self.map.index_of(p)].is_new(self.theme.floor())
                || self.map.tiles[self.map.index_of(p)].is_new(self.theme.wall()));
        }
        let d = choose|d: int|
            0 <= d < MAX_DEPTH && #[trigger] self.map.steps().cheapest(
                seq![self.player_start],
                self.amulet_start,
                d,
            );
        self.map.lemma_reached_is_enterable(self.player_start, self.amulet_start, d);
        assert forall|i: int| 0 <= i < self.monster_spawns.len() implies self.map.enterable(
            #[trigger] self.monster_spawns[i],
        ) by {
            assert(self.map.floor_at(self.theme, self.monster_spawns[i]));
        }
    }

    /// A builder for a map of the given size, every tile a new floor of the
    /// theme, with nothing placed yet.
    pub fn blank(width: u32, height: u32, theme: MapTheme) -> (made: Result<
        MapBuilder,
        GenerationError,
    >)
        ensures
            made is Ok <==> Self::size_ok(width, height),
            made matches Err(e) ==> e == GenerationError::BadSize,
            made matches Ok(mb) ==> {
                &&& mb.map.wf()
                &&& mb.map.dimensions.x == width
                &&& mb.map.dimensions.y == height
                &&& forall|i: int|
                    0 <= i < mb.map.tiles.len() ==> (#[trigger] mb.map.tiles[i]).is_new(
                        theme.floor(),
                    )
                &&& mb.rooms@ == Seq::<Rect>::empty()
                &&& mb.monster_spawns@ == Seq::<Point>::empty()
                &&& mb.entity_spawns@ == Seq::<(Point, char)>::empty()
                &&& mb.player_start == (Point { x: 0, y: 0 })
                &&& mb.amulet_start == (Point { x: 0, y: 0 })
                &&& mb.theme == theme
            },
    {
        assert(width * height <= 0xffff_ffff * 0xffff_ffff) by (nonlinear_arith)
            requires
                width <= 0xffff_ffff,
                height <= 0xffff_ffff,
        ;
        if width == 0 || height == 0 || (width as u64) * (height as u64) >= 0x7fff_ffff {
            return Err(GenerationError::BadSize);
        }
        assert(width <= width * height && height <= width * height) by (nonlinear_arith)
            requires
                0 < width,
                0 < height,
        ;
        Ok(
            MapBuilder {
                map: TileMap::new(width, height, theme),
                rooms: Vec::new(),
                monster_spawns: Vec::new(),
                entity_spawns: Vec::new(),
                player_start: Point::zero(),
                amulet_start: Point::zero(),
                theme,
            },
        )
    }

    /// How many tiles are floors of the builder's theme.
    pub fn count_floor(&self) -> (count: usize)
        ensures
            count == self.map.floor_count(self.theme),
    {
        let floor = self.theme.tile_to_render(TileType::ThemeFloor);
        let mut count: usize = 0;
        let mut i: usize = 0;
        while i < self.map.tiles.len()
            invariant
                i <= self.map.tiles.len(),
                floor == self.theme.floor(),
                count == self.map.count_of(floor, i as int),
                count <= i,
            decreases self.map.tiles.len() - i,
        {
            if self.map.tiles[i].tile_type == floor {
                count = count + 1;
            }
            i = i + 1;
        }
        count
    }

    /// Makes every tile a new tile of the terrain that plays `tile` in the
    /// builder's theme.
    pub fn fill(&mut self, tile: TileType)
        requires
            tile.is_role(),
        ensures
            final(self).map.dimensions == old(self).map.dimensions,
            final(self).map.tiles.len() == old(self).map.tiles.len(),
            forall|i: int|
                0 <= i < final(self).map.tiles.len() ==> (#[trigger] final(self).map.tiles[i]).is_new(
                    old(self).theme.rendered(tile),
                ),
            final(self).rooms == old(self).rooms,
            final(self).monster_spawns == old(self).monster_spawns,
            final(self).entity_spawns == old(self).entity_spawns,
            final(self).player_start == old(self).player_start,
            final(self).amulet_start == old(self).amulet_start,
            final(self).theme == old(self).theme,
    {
        let rendered = self.theme.tile_to_render(tile);
        let n: usize = self.map.tiles.len();
        let mut i: usize = 0;
        while i < n
            invariant
                i <= n,
                n == self.map.tiles.len(),
                !rendered.is_role(),
                self.map.dimensions == old(self).map.dimensions,
                self.map.tiles.len() == old(self).map.tiles.len(),
                forall|k: int| 0 <= k < i ==> (#[trigger] self.map.tiles[k]).is_new(rendered),
                self.rooms == old(self).rooms,
                self.monster_spawns == old(self).monster_spawns,
                self.entity_spawns == old(self).entity_spawns,
                self.player_start == old(self).player_start,
                self.amulet_start == old(self).amulet_start,
                self.theme == old(self).theme,
            decreases n - i,
        {
            self.map.tiles[i] = Tile::new(rendered);
            i = i + 1;
        }
    }

    /// Makes the tile at `point` a new tile of the terrain that plays `tile`
    /// in the builder's theme.
    pub fn place(&mut self, point: Point, tile: TileType)
        requires
            old(self).map.wf(),
            old(self).map.spec_in_bounds(point),
            tile.is_role(),
        ensures
            final(self).map.dimensions == old(self).map.dimensions,
            final(self).map.tiles.len() == old(self).map.tiles.len(),
            final(self).map.tile_at(point).is_new(old(self).theme.rendered(tile)),
            forall|i: int|
                0 <= i < final(self).map.tiles.len() && i != old(self).map.index_of(point)
                    ==> #[trigger] final(self).map.tiles[i] == old(self).map.tiles[i],
            forall|p: Point|
                old(self).map.spec_in_bounds(p) && p != point ==> #[trigger] final(self).map.tile_at(
                    p,
                ) == old(self).map.tile_at(p),
            Self::rebuilt(*final(self), *old(self)),
    {
        let idx: usize = self.map.map_idx(point.x, point.y);
        let rendered = self.theme.tile_to_render(tile);
        self.map.tiles[idx] = Tile::new(rendered);
        proof {
            old(self).map.lemma_index(point);
            assert forall|p: Point|
                old(self).map.spec_in_bounds(p) && p != point implies #[trigger] self.map.tile_at(
                p,
            ) == old(self).map.tile_at(p) by {
                old(self).map.lemma_index(p);
                assert(self.map.index_of(p) == old(self).map.index_of(p));
            }
        }
    }

    /// `now` is the builder `before` but for the tiles of its map: the map
    /// has its size, and everything else is as it was.
    pub open spec fn rebuilt(now: MapBuilder, before: MapBuilder) -> bool {
        &&& now.map.wf()
        &&& now.map.dimensions == before.map.dimensions
        &&& now.rooms == before.rooms
        &&& now.monster_spawns == before.monster_spawns
        &&& now.entity_spawns == before.entity_spawns
        &&& now.player_start == before.player_start
        &&& now.amulet_start == before.amulet_start
        &&& now.theme == before.theme
    }

    /// The tile that lies farthest from the player's start, counting steps
    /// between adjacent tiles that can be entered, among the tiles at fewer
    /// than [`MAX_DEPTH`] steps; of several, the first reading row by row.
    /// There is none when the player starts off the map.
    pub fn find_most_distant(&self) -> (goal: Option<Point>)
        requires
            self.map.wf(),
        ensures
            goal is Some <==> self.map.spec_in_bounds(self.player_start),
            goal matches Some(g) ==> self.map.spec_in_bounds(g) && self.map.farthest_from(
                self.player_start,
                g,
                MAX_DEPTH as int,
            ),
    {
        if !self.map.in_bounds(self.player_start) {
            return None;
        }
        let mut starts: Vec<Point> = Vec::new();
        starts.push(self.player_start);
        assert(starts@ =~= seq![self.player_start]);
        let field = DistanceField::new(&starts, &self.map, MAX_DEPTH);
        let mut best: Option<(Point, u32)> = None;
        let mut y: i32 = 0;
        while y < self.map.dimensions.y
            invariant
                self.map.wf(),
                0 <= y <= self.map.dimensions.y,
                field.map.len() == self.map.tiles.len(),
                Self::leads_so_far(self.map, field, best, Point { x: 0, y }),
            decreases self.map.dimensions.y - y,
        {
            let mut x: i32 = 0;
            while x < self.map.dimensions.x
                invariant
                    self.map.wf(),
                    0 <= y < self.map.dimensions.y,
                    0 <= x <= self.map.dimensions.x,
                    field.map.len() == self.map.tiles.len(),
                    Self::leads_so_far(self.map, field, best, Point { x, y }),
                decreases self.map.dimensions.x - x,
            {
                let here = Point { x, y };
                let ghost before = best;
                let d: u32 = field.map[self.map.map_idx(x, y)];
                let further: bool = match best {
                    None => true,
                    Some((_, most)) => d > most,
                };
                if d != UNREACHABLE && further {
                    best = Some((here, d));
                }
                proof {
                    let next = Point { x: (x + 1) as i32, y };
                    self.map.lemma_index(here);
                    assert forall|p: Point|
                        self.map.spec_in_bounds(p) && reads_before(p, next)
                            && #[trigger] field.map[self.map.index_of(p)]
                            != UNREACHABLE implies (best matches Some((g, most)) && (
                        field.map[self.map.index_of(p)] < most || (field.map[self.map.index_of(p)]
                            == most && !reads_before(p, g)))) by {
                        if p != here {
                            assert(reads_before(p, here));
                            if let Some((g, most)) = before {
                                assert(reads_before(g, here) || g == here || !reads_before(p, g)
                                    || field.map[self.map.index_of(p)] < most);
                            }
                        }
                    }
                }
                x = x + 1;
            }
            y = y + 1;
        }
        proof {
            let start = self.player_start;
            let steps = self.map.steps();
            let limit = MAX_DEPTH as int;
            assert(field.measured_at(self.map, starts@, limit, start));
            let alone = seq![start];
            assert(steps.leads(starts@, alone, start)) by {
                assert(alone[0] == start);
                assert(starts@[0] == start);
            }
            assert(steps.walk_cost(alone) == 0);
            assert(field.map[self.map.index_of(start)] != UNREACHABLE);
            assert(reads_before(start, Point { x: 0, y: self.map.dimensions.y }));
            let (g, most) = best->0;
            assert(field.measured_at(self.map, starts@, limit, g));
            assert forall|p: Point, c: int|
                self.map.spec_in_bounds(p) && 0 <= c < limit && #[trigger] steps.cheapest(
                    seq![start],
                    p,
                    c,
                ) implies c < most || (c == most && !reads_before(p, g)) by {
                assert(field.measured_at(self.map, starts@, limit, p));
                let seen = field.map[self.map.index_of(p)];
                let w = choose|w: Seq<Point>| #[trigger]
                    steps.leads(seq![start], w, p) && steps.walk_cost(w) == c;
                assert(steps.leads(starts@, w, p));
                steps.lemma_cheapest_unique(starts@, p, c, seen as int);
                assert(reads_before(p, Point { x: 0, y: self.map.dimensions.y }));
            }
            assert(steps.cheapest(seq![start], g, most as int));
        }
        match best {
            Some((g, _)) => Some(g),
            None => None,
        }
    }

    /// All tiles where a monster may start when the player starts at `start`,
    /// read row by row.
    pub fn spawn_candidates(&self, start: &Point) -> (candidates: Vec<Point>)
        requires
            self.map.wf(),
        ensures
            forall|p: Point| candidates@.contains(p) <==> self.spawnable(*start, p),
            forall|i: int, j: int|
                0 <= i < j < candidates.len() ==> reads_before(candidates[i], candidates[j]),
            candidates.len() <= self.map.tiles.len(),
    {
        let floor = self.theme.tile_to_render(TileType::ThemeFloor);
        let mut candidates: Vec<Point> = Vec::new();
        let mut y: i32 = 0;
        while y < self.map.dimensions.y
            invariant
                self.map.wf(),
                0 <= y <= self.map.dimensions.y,
                floor == self.theme.floor(),
                forall|p: Point|
                    candidates@.contains(p) <==> self.spawnable(*start, p) && reads_before(
                        p,
                        Point { x: 0, y },
                    ),
                forall|i: int, j: int|
                    0 <= i < j < candidates.len() ==> reads_before(candidates[i], candidates[j]),
                candidates.len() <= y * self.map.dimensions.x,
            decreases self.map.dimensions.y - y,
        {
            let mut x: i32 = 0;
            while x < self.map.dimensions.x
                invariant
                    self.map.wf(),
                    0 <= y < self.map.dimensions.y,
                    0 <= x <= self.map.dimensions.x,
                    floor == self.theme.floor(),
                    forall|p: Point|
                        candidates@.contains(p) <==> self.spawnable(*start, p) && reads_before(
                            p,
                            Point { x, y },
                        ),
                    forall|i: int, j: int|
                        0 <= i < j < candidates.len() ==> reads_before(
                            candidates[i],
                            candidates[j],
                        ),
                    candidates.len() <= y * self.map.dimensions.x + x,
                decreases self.map.dimensions.x - x,
            {
                let here = Point { x, y };
                let ghost before = candidates@;
                let idx: usize = self.map.map_idx(x, y);
                let far: bool = start.distance_squared(here) > 100;
                if self.map.tiles[idx].tile_type == floor && far {
                    candidates.push(here);
                }
                proof {
                    let next = Point { x: (x + 1) as i32, y };
                    assert forall|p: Point| candidates@.contains(p) <==> self.spawnable(*start, p)
                        && reads_before(p, next) by {
                        if candidates@.contains(p) {
                            let k = choose|k: int| 0 <= k < candidates.len() && candidates[k] == p;
                            if k < before.len() {
                                assert(before[k] == p);
                                assert(before.contains(p));
                            }
                        }
                        if before.contains(p) {
                            let k = choose|k: int| 0 <= k < before.len() && before[k] == p;
                            assert(candidates[k] == p);
                        }
                        if p == here && self.spawnable(*start, p) {
                            assert(candidates[candidates.len() - 1] == here);
                        }
                        if self.spawnable(*start, p) && reads_before(p, next) && p != here {
                            assert(reads_before(p, here));
                        }
                    }
                    assert forall|i: int, j: int|
                        0 <= i < j < candidates.len() implies reads_before(
                        candidates[i],
                        candidates[j],
                    ) by {
                        assert(before[i] == candidates[i]);
                        if j == before.len() {
                            assert(before.contains(candidates[i]));
                        } else {
                            assert(before[j] == candidates[j]);
                        }
                    }
                }
                x = x + 1;
            }
            proof {
                assert((y + 1) * self.map.dimensions.x == y * self.map.dimensions.x
                    + self.map.dimensions.x) by (nonlinear_arith);
            }
            y = y + 1;
        }
        proof {
            assert(self.map.dimensions.y * self.map.dimensions.x == self.map.dimensions.x
                * self.map.dimensions.y) by (nonlinear_arith);
        }
        candidates
    }

    /// Draws up to [`NUM_MONSTERS`] different tiles where a monster may start
    /// when the player starts at `start`. Where the map has fewer such tiles,
    /// all of them are taken.
    pub fn spawn_monsters(&self, start: &Point, rng: &mut RandomNumberGenerator) -> (spawns: Vec<
        Point,
    >)
        requires
            self.map.wf(),
            self.map.tiles.len() < i32::MAX,
        ensures
            spawns.len() <= NUM_MONSTERS,
            spawns@.no_duplicates(),
            forall|i: int| 0 <= i < spawns.len() ==> self.spawnable(*start, #[trigger] spawns[i]),
            spawns.len() < NUM_MONSTERS ==> forall|p: Point|
                self.spawnable(*start, p) ==> spawns@.contains(p),
    {
        let mut spawnable_tiles: Vec<Point> = self.spawn_candidates(start);
        let mut spawns: Vec<Point> = Vec::new();
        proof {
            assert forall|i: int, j: int|
                0 <= i < spawnable_tiles.len() && 0 <= j < spawnable_tiles.len() && i
                    != j implies spawnable_tiles[i] != spawnable_tiles[j] by {
                if i < j {
                    assert(reads_before(spawnable_tiles[i], spawnable_tiles[j]));
                } else {
                    assert(reads_before(spawnable_tiles[j], spawnable_tiles[i]));
                }
            }
        }
        while spawns.len() < NUM_MONSTERS
            invariant
                spawns.len() <= NUM_MONSTERS,
                spawnable_tiles.len() < i32::MAX,
                spawnable_tiles@.no_duplicates(),
                spawns@.no_duplicates(),
                forall|p: Point| !(spawns@.contains(p) && spawnable_tiles@.contains(p)),
                forall|p: Point|
                    self.spawnable(*start, p) <==> spawns@.contains(p) || spawnable_tiles@.contains(
                        p,
                    ),
            ensures
                spawns.len() <= NUM_MONSTERS,
                spawns@.no_duplicates(),
                forall|p: Point| spawns@.contains(p) ==> self.spawnable(*start, p),
                spawns.len() < NUM_MONSTERS ==> forall|p: Point|
                    self.spawnable(*start, p) ==> spawns@.contains(p),
            decreases NUM_MONSTERS - spawns.len(),
        {
            let pick = roll_index(rng, &spawnable_tiles);
            match pick {
                None => {
                    break ;
                },
                Some(target_index) => {
                    let ghost left = spawnable_tiles@;
                    let ghost taken = spawns@;
                    let target = spawnable_tiles[target_index];
                    spawns.push(target);
                    spawnable_tiles.remove(target_index);
                    proof {
                        let t = target_index as int;
                        assert(left.contains(target));
                        assert forall|p: Point| spawnable_tiles@.contains(p) <==> left.contains(p)
                            && p != target by {
                            if spawnable_tiles@.contains(p) {
                                let k = choose|k: int|
                                    0 <= k < spawnable_tiles.len() && spawnable_tiles[k] == p;
                                if k < t {
                                    assert(left[k] == p);
                                } else {
                                    assert(left[k + 1] == p);
                                }
                            }
                            if left.contains(p) && p != target {
                                let k = choose|k: int| 0 <= k < left.len() && left[k] == p;
                                if k < t {
                                    assert(spawnable_tiles[k] == p);
                                } else {
                                    assert(spawnable_tiles[k - 1] == p);
                                }
                            }
                        }
                        assert forall|p: Point| spawns@.contains(p) <==> taken.contains(p) || p
                            == target by {
                            if spawns@.contains(p) {
                                let k = choose|k: int| 0 <= k < spawns.len() && spawns[k] == p;
                                if k < taken.len() {
                                    assert(taken[k] == p);
                                }
                            }
                            if taken.contains(p) {
                                let k = choose|k: int| 0 <= k < taken.len() && taken[k] == p;
                                assert(spawns[k] == p);
                            }
                            if p == target {
                                assert(spawns[spawns.len() - 1] == p);
                            }
                        }
                        assert forall|p: Point|
                            !(spawns@.contains(p) && spawnable_tiles@.contains(p)) by {
                            assert(!(taken.contains(p) && left.contains(p)));
                        }
                        assert forall|i: int, j: int|
                            0 <= i < spawnable_tiles.len() && 0 <= j < spawnable_tiles.len() && i
                                != j implies spawnable_tiles[i] != spawnable_tiles[j] by {
                            let a = if i < t { i } else { i + 1 };
                            let b = if j < t { j } else { j + 1 };
                            assert(spawnable_tiles[i] == left[a]);
                            assert(spawnable_tiles[j] == left[b]);
                        }
                        assert forall|i: int, j: int|
                            0 <= i < spawns.len() && 0 <= j < spawns.len() && i
                                != j implies spawns[i] != spawns[j] by {
                            if i < taken.len() {
                                assert(spawns[i] == taken[i]);
                                assert(taken.contains(spawns[i]));
                            }
                            if j < taken.len() {
                                assert(spawns[j] == taken[j]);
                                assert(taken.contains(spawns[j]));
                            }
                        }
                    }
                },
            }
        }
        spawns
    }

    /// While the field is read row by row and `next` is the tile to read
    /// next, `best` is the first of the farthest tiles read so far.
    pub open spec fn leads_so_far(
        map: TileMap,
        field: DistanceField,
        best: Option<(Point, u32)>,
        next: Point,
    ) -> bool {
        &&& best matches Some((g, most)) ==> {
            &&& map.spec_in_bounds(g)
            &&& reads_before(g, next)
            &&& field.map[map.index_of(g)] == most
            &&& most != UNREACHABLE
        }
        &&& forall|p: Point|
            map.spec_in_bounds(p) && reads_before(p, next) && #[trigger] field.map[map.index_of(p)]
                != UNREACHABLE ==> (best matches Some((g, most)) && (field.map[map.index_of(p)]
                < most || (field.map[map.index_of(p)] == most && !reads_before(p, g))))
    }
}

} // verus!
