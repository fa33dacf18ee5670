//! The tile grid.

use vstd::prelude::*;
use crate::helpers::geometry::{reads_before, Point};
use crate::helpers::map_builder::themes::MapTheme;
use crate::helpers::paths::{CostGrid, Costs};
use crate::helpers::tiles::{Tile, TileType};

verus! {

/// How well a tile has been seen. `Unseen` is a tile still under the fog.
#[derive(Copy, Clone, Debug, PartialEq, Eq, Structural, PartialOrd, Ord, Hash)]
pub enum SeenLevel {
    Unseen,
    Darkness,
    Shadowy,
    Bright,
}

impl SeenLevel {
    /// The place of the level in the order
    /// `Unseen < Darkness < Shadowy < Bright`.
    pub open spec fn rank(self) -> int {
        match self {
            SeenLevel::Unseen => 0,
            SeenLevel::Darkness => 1,
            SeenLevel::Shadowy => 2,
            SeenLevel::Bright => 3,
        }
    }
}

/// Where an entity stands on the map.
#[derive(Copy, Clone, Debug, PartialEq, Eq, Structural)]
pub struct MapPoint(pub Point);

impl MapPoint {
    pub fn new(value: Point) -> (at: MapPoint)
        ensures
            at.0 == value,
    {
        MapPoint(value)
    }
}

/// A position in a tile layer whose rows count upwards from the bottom.
#[derive(Copy, Clone, Debug, PartialEq, Eq, Structural)]
pub struct TilePos {
    pub x: u32,
    pub y: u32,
}

/// The terrain of a map and nothing else: which tile is of which kind.
pub struct Terrain {
    pub width: int,
    pub height: int,
    /// One kind per tile, row by row.
    pub kinds: Seq<TileType>,
}

impl Terrain {
    pub open spec fn in_bounds(self, p: Point) -> bool {
        0 <= p.x < self.width && 0 <= p.y < self.height
    }

    /// The kind of the tile at `p`.
    pub open spec fn at(self, p: Point) -> TileType {
        self.kinds[p.y * self.width + p.x]
    }

    /// The point whose tile is the `i`-th.
    pub open spec fn point_at(self, i: int) -> Point {
        Point { x: (i % self.width) as i32, y: (i / self.width) as i32 }
    }
}

/// A grid of tiles, kept row by row from the top.
#[derive(Clone, Debug)]
pub struct TileMap {
    /// Width and height of the grid.
    pub dimensions: Point,
    pub tiles: Vec<Tile>,
}

impl TileMap {
    /// The grid holds one tile for every position.
    pub open spec fn wf(self) -> bool {
        &&& 0 <= self.dimensions.x
        &&& 0 <= self.dimensions.y
        &&& self.tiles.len() == self.dimensions.x * self.dimensions.y
    }

    pub open spec fn spec_in_bounds(&self, point: Point) -> bool {
        0 <= point.x < self.dimensions.x && 0 <= point.y < self.dimensions.y
    }

    /// Where the tile at `point` is kept.
    pub open spec fn index_of(self, point: Point) -> int {
        point.y * self.dimensions.x + point.x
    }

    /// The tile at `point`.
    pub open spec fn tile_at(self, point: Point) -> Tile {
        self.tiles[self.index_of(point)]
    }

    /// The point is on the map and its tile does not block.
    pub open spec fn enterable(self, point: Point) -> bool {
        self.spec_in_bounds(point) && !self.tile_at(point).is_opaque
    }

    /// The tile at `point` is a floor of the theme.
    pub open spec fn floor_at(self, theme: MapTheme, point: Point) -> bool {
        self.spec_in_bounds(point) && self.tile_at(point).tile_type == theme.floor()
    }

    /// Every tile is a new floor or a new wall of the theme.
    pub open spec fn built_of(self, theme: MapTheme) -> bool {
        forall|i: int|
            0 <= i < self.tiles.len() ==> (#[trigger] self.tiles[i]).is_new(theme.floor())
                || self.tiles[i].is_new(theme.wall())
    }

    /// `goal` is the first, reading row by row, of the tiles that lie
    /// farthest from `start` among those at fewer than `limit` steps.
    pub open spec fn farthest_from(self, start: Point, goal: Point, limit: int) -> bool {
        exists|d: int|
            0 <= d < limit && #[trigger] self.steps().cheapest(seq![start], goal, d) && forall|
                p: Point,
                c: int,
            |
                self.spec_in_bounds(p) && 0 <= c < limit && #[trigger] self.steps().cheapest(
                    seq![start],
                    p,
                    c,
                ) ==> c < d || (c == d && !reads_before(p, goal))
    }

    /// From `a` one can walk to `b`, stepping from tile to adjacent tile
    /// and only onto tiles that can be entered.
    pub open spec fn linked(self, a: Point, b: Point) -> bool {
        self.steps().linked(a, b)
    }

    /// Every tile that can be entered can be walked to from `from`.
    pub open spec fn all_linked(self, from: Point) -> bool {
        forall|p: Point| #[trigger] self.enterable(p) ==> self.linked(from, p)
    }

    /// The tiles that walks may step onto are those that can be entered.
    pub proof fn lemma_open_is_enterable(self, p: Point)
        requires
            self.wf(),
        ensures
            self.steps().is_open(p) <==> self.enterable(p),
    {
        if self.spec_in_bounds(p) {
            self.lemma_index(p);
        }
    }

    /// How many of the first `upto` tiles are of the terrain `tile_type`.
    pub open spec fn count_of(self, tile_type: TileType, upto: int) -> int
        decreases upto,
    {
        if upto <= 0 {
            0
        } else {
            self.count_of(tile_type, upto - 1) + (if self.tiles[upto - 1].tile_type == tile_type {
                1int
            } else {
                0int
            })
        }
    }

    /// How many tiles are floors of the theme.
    pub open spec fn floor_count(self, theme: MapTheme) -> int {
        self.count_of(theme.floor(), self.tiles.len() as int)
    }

    /// A tile that is reached by steps over tiles that can be entered is the
    /// starting tile or can be entered itself.
    pub proof fn lemma_reached_is_enterable(self, start: Point, p: Point, d: int)
        requires
            self.wf(),
            self.steps().reachable_at(seq![start], p, d),
        ensures
            p == start || self.enterable(p),
    {
        let steps = self.steps();
        let w = choose|w: Seq<Point>| #[trigger]
            steps.leads(seq![start], w, p) && steps.walk_cost(w) == d;
        if w.len() == 1 {
            assert(seq![start].contains(w[0]));
            let k = choose|k: int| 0 <= k < seq![start].len() && seq![start][k] == w[0];
            assert(p == start);
        } else {
            assert(steps.is_open(w[w.len() - 1]));
            self.lemma_index(p);
        }
    }

    /// Points on the map have a tile, and different points have different
    /// ones.
    pub proof fn lemma_index(self, point: Point)
        requires
            self.wf(),
            self.spec_in_bounds(point),
        ensures
            0 <= self.index_of(point) < self.tiles.len(),
            forall|q: Point|
                self.spec_in_bounds(q) && q != point ==> #[trigger] self.index_of(q)
                    != self.index_of(point),
    {
        let w = self.dimensions.x as int;
        let h = self.dimensions.y as int;
        assert(point.y * w + point.x < w * h) by (nonlinear_arith)
            requires
                0 <= point.x < w,
                0 <= point.y < h,
        ;
        assert(0 <= point.y * w) by (nonlinear_arith)
            requires
                0 <= point.y,
                0 <= w,
        ;
        assert forall|q: Point| self.spec_in_bounds(q) && q != point implies #[trigger] self.index_of(
            q,
        ) != self.index_of(point) by {
            assert(q.y * w + q.x != point.y * w + point.x) by (nonlinear_arith)
                requires
                    0 <= point.x < w,
                    0 <= q.x < w,
                    q.x != point.x || q.y != point.y,
            ;
        }
    }

    /// The column and the row of a point can be read off the position of its
    /// tile.
    pub proof fn lemma_point_of_index(self, point: Point)
        requires
            self.wf(),
            self.spec_in_bounds(point),
        ensures
            self.index_of(point) % (self.dimensions.x as int) == point.x,
            self.index_of(point) / (self.dimensions.x as int) == point.y,
    {
        let w = self.dimensions.x as int;
        assert(self.index_of(point) == point.y * w + point.x);
        vstd::arithmetic::div_mod::lemma_fundamental_div_mod_converse(
            self.index_of(point),
            w,
            point.y as int,
            point.x as int,
        );
    }

    /// Every tile is the tile of a point on the map.
    pub proof fn lemma_point_at_index(self, i: int)
        requires
            self.wf(),
            0 <= i < self.tiles.len(),
        ensures
            0 <= i % (self.dimensions.x as int) < self.dimensions.x,
            0 <= i / (self.dimensions.x as int) < self.dimensions.y,
            self.spec_in_bounds(
                Point {
                    x: (i % (self.dimensions.x as int)) as i32,
                    y: (i / (self.dimensions.x as int)) as i32,
                },
            ),
            self.index_of(
                Point {
                    x: (i % (self.dimensions.x as int)) as i32,
                    y: (i / (self.dimensions.x as int)) as i32,
                },
            ) == i,
    {
        let w = self.dimensions.x as int;
        let h = self.dimensions.y as int;
        assert(w > 0) by (nonlinear_arith)
            requires
                i < w * h,
                0 <= i,
                0 <= h,
                0 <= w,
        ;
        vstd::arithmetic::div_mod::lemma_fundamental_div_mod(i, w);
        vstd::arithmetic::div_mod::lemma_div_pos_is_pos(i, w);
        let q = i / w;
        let r = i % w;
        assert(q < h) by (nonlinear_arith)
            requires
                i == w * q + r,
                0 <= r,
                i < w * h,
                0 < w,
        ;
        assert(q * w == w * q) by (nonlinear_arith);
    }

    /// A map of the given size, every tile a fresh floor of the theme.
    pub fn new(width: u32, height: u32, theme: MapTheme) -> (map: TileMap)
        requires
            width <= i32::MAX,
            height <= i32::MAX,
            width * height <= u32::MAX,
        ensures
            map.wf(),
            map.dimensions.x == width,
            map.dimensions.y == height,
            forall|i: int| 0 <= i < map.tiles.len() ==> (#[trigger] map.tiles[i]).is_new(theme.floor()),
    {
        let num_tiles: u32 = width * height;
        let floor = theme.tile_to_render(TileType::ThemeFloor);
        let mut tiles: Vec<Tile> = Vec::new();
        let mut i: u32 = 0;
        while i < num_tiles
            invariant
                i <= num_tiles,
                tiles.len() == i,
                floor == theme.floor(),
                forall|k: int| 0 <= k < tiles.len() ==> (#[trigger] tiles[k]).is_new(theme.floor()),
            decreases num_tiles - i,
        {
            tiles.push(Tile::new(floor));
            i = i + 1;
        }
        TileMap { dimensions: Point { x: width as i32, y: height as i32 }, tiles }
    }

    /// Whether the grid holds one tile for every position.
    pub fn is_well_formed(&self) -> (whole: bool)
        ensures
            whole == self.wf(),
    {
        if self.dimensions.x < 0 || self.dimensions.y < 0 {
            return false;
        }
        assert(self.dimensions.x * self.dimensions.y <= 0x7fff_ffff * 0x7fff_ffff)
            by (nonlinear_arith)
            requires
                0 <= self.dimensions.x <= 0x7fff_ffff,
                0 <= self.dimensions.y <= 0x7fff_ffff,
        ;
        self.tiles.len() as u128 == (self.dimensions.x as u128) * (self.dimensions.y as u128)
    }

    /// The width and height of the grid.
    pub fn dimensions(&self) -> (size: Point)
        ensures
            size == self.dimensions,
    {
        self.dimensions
    }

    /// Whether `point` lies on the map.
    #[verifier::when_used_as_spec(spec_in_bounds)]
    pub fn in_bounds(&self, point: Point) -> (inside: bool)
        ensures
            inside == self.spec_in_bounds(point),
    {
        point.x >= 0 && point.x < self.dimensions.x && point.y >= 0 && point.y < self.dimensions.y
    }

    /// The position of the tile at `(x, y)` in `tiles`.
    pub fn map_idx(&self, x: i32, y: i32) -> (idx: usize)
        requires
            self.wf(),
            self.spec_in_bounds(Point { x, y }),
        ensures
            idx == self.index_of(Point { x, y }),
            idx < self.tiles.len(),
    {
        proof {
            self.lemma_index(Point { x, y });
            assert(0 <= y * self.dimensions.x) by (nonlinear_arith)
                requires
                    0 <= y,
                    0 <= self.dimensions.x,
            ;
        }
        (y as usize) * (self.dimensions.x as usize) + (x as usize)
    }

    /// The position of the tile at `point`, if the point lies on the map.
    pub fn try_idx(&self, point: Point) -> (idx: Option<usize>)
        requires
            self.wf(),
        ensures
            idx is Some <==> self.spec_in_bounds(point),
            idx matches Some(i) ==> i == self.index_of(point) && i < self.tiles.len(),
    {
        if !self.in_bounds(point) {
            None
        } else {
            Some(self.map_idx(point.x, point.y))
        }
    }

    /// The position of the tile at `point`.
    pub fn point2d_to_index(&self, point: Point) -> (idx: usize)
        requires
            self.wf(),
            self.spec_in_bounds(point),
        ensures
            idx == self.index_of(point),
            idx < self.tiles.len(),
    {
        self.map_idx(point.x, point.y)
    }

    /// The point whose tile is kept at `idx`.
    pub fn index_to_point2d(&self, idx: usize) -> (point: Point)
        requires
            self.wf(),
            idx < self.tiles.len(),
        ensures
            self.spec_in_bounds(point),
            self.index_of(point) == idx,
            point.x == idx % (self.dimensions.x as usize),
            point.y == idx / (self.dimensions.x as usize),
    {
        let w: usize = self.dimensions.x as usize;
        proof {
            self.lemma_point_at_index(idx as int);
        }
        Point { x: (idx % w) as i32, y: (idx / w) as i32 }
    }

    /// The same tile, in a layer whose rows count upwards from the bottom.
    pub fn to_bevy_ecs_tilemap(&self, x: i32, y: i32) -> (pos: TilePos)
        requires
            self.spec_in_bounds(Point { x, y }),
        ensures
            pos.x == x,
            pos.y == self.dimensions.y - y - 1,
    {
        TilePos { x: x as u32, y: (self.dimensions.y - y - 1) as u32 }
    }

    /// Whether the tile at `idx` blocks sight.
    pub fn is_opaque(&self, idx: usize) -> (opaque: bool)
        requires
            idx < self.tiles.len(),
        ensures
            opaque == self.tiles[idx as int].is_opaque,
    {
        self.tiles[idx].is_opaque
    }

    /// Whether `point` lies on the map and its tile can be entered.
    pub fn can_enter_tile(&self, point: Point) -> (open: bool)
        requires
            self.wf(),
        ensures
            open == self.enterable(point),
    {
        self.in_bounds(point) && !self.tiles[self.map_idx(point.x, point.y)].is_opaque
    }

    /// The tile one step from `loc` in the direction `delta`, if it can be
    /// entered.
    fn valid_exit(&self, loc: Point, delta: Point) -> (exit: Option<usize>)
        requires
            self.wf(),
            self.spec_in_bounds(loc),
            -1 <= delta.x <= 1,
            -1 <= delta.y <= 1,
        ensures
            exit == (if self.enterable(Point { x: (loc.x + delta.x) as i32, y: (loc.y + delta.y) as i32 }) {
                Some(
                    self.index_of(
                        Point { x: (loc.x + delta.x) as i32, y: (loc.y + delta.y) as i32 },
                    ) as usize,
                )
            } else {
                None
            }),
    {
        let destination = Point { x: loc.x + delta.x, y: loc.y + delta.y };
        if self.can_enter_tile(destination) {
            Some(self.point2d_to_index(destination))
        } else {
            None
        }
    }

    /// The tiles that can be entered by one step from the tile at `idx`:
    /// west, east, north, south, in this order.
    pub fn get_available_exits(&self, idx: usize) -> (exits: Vec<usize>)
        requires
            self.wf(),
            idx < self.tiles.len(),
        ensures
            exits@ == self.exits_from(
                Point {
                    x: (idx % (self.dimensions.x as usize)) as i32,
                    y: (idx / (self.dimensions.x as usize)) as i32,
                },
            ),
    {
        let mut exits: Vec<usize> = Vec::new();
        let location = self.index_to_point2d(idx);
        if let Some(i) = self.valid_exit(location, Point { x: -1, y: 0 }) {
            exits.push(i);
        }
        if let Some(i) = self.valid_exit(location, Point { x: 1, y: 0 }) {
            exits.push(i);
        }
        if let Some(i) = self.valid_exit(location, Point { x: 0, y: -1 }) {
            exits.push(i);
        }
        if let Some(i) = self.valid_exit(location, Point { x: 0, y: 1 }) {
            exits.push(i);
        }
        assert(exits@ =~= self.exits_from(location));
        exits
    }

    /// The position of `to` if it can be entered, as a sequence of none or
    /// one.
    pub open spec fn exit_to(self, to: Point) -> Seq<usize> {
        if self.enterable(to) {
            seq![self.index_of(to) as usize]
        } else {
            Seq::empty()
        }
    }

    /// The positions of the enterable neighbours of `from`: west, east,
    /// north, south.
    pub open spec fn exits_from(self, from: Point) -> Seq<usize> {
        self.exit_to(Point { x: (from.x - 1) as i32, y: from.y }) + self.exit_to(
            Point { x: (from.x + 1) as i32, y: from.y },
        ) + self.exit_to(Point { x: from.x, y: (from.y - 1) as i32 }) + self.exit_to(
            Point { x: from.x, y: (from.y + 1) as i32 },
        )
    }

    /// The terrain of the map.
    pub open spec fn land(self) -> Terrain {
        Terrain {
            width: self.dimensions.x as int,
            height: self.dimensions.y as int,
            kinds: Seq::new(self.tiles.len() as nat, |i: int| self.tiles[i].tile_type),
        }
    }

    /// The entry costs for walks that count steps: every tile that can be
    /// entered costs one, every other tile is closed.
    pub open spec fn steps(self) -> Costs {
        Costs {
            width: self.dimensions.x as int,
            height: self.dimensions.y as int,
            entry: Seq::new(
                self.tiles.len() as nat,
                |i: int|
                    if self.tiles[i].is_opaque {
                        0u8
                    } else {
                        1u8
                    },
            ),
        }
    }

    /// The entry costs for walks that pay for the terrain: a tile costs its
    /// terrain cost, and a tile that blocks is closed.
    pub open spec fn terrain(self) -> Costs {
        Costs {
            width: self.dimensions.x as int,
            height: self.dimensions.y as int,
            entry: Seq::new(
                self.tiles.len() as nat,
                |i: int|
                    if self.tiles[i].is_opaque {
                        0u8
                    } else {
                        self.tiles[i].terrain_cost
                    },
            ),
        }
    }

    /// The entry costs for walks that count steps.
    pub fn step_costs(&self) -> (grid: CostGrid)
        requires
            self.wf(),
        ensures
            grid@ == self.steps(),
            grid@.wf(),
    {
        let mut entry: Vec<u8> = Vec::new();
        let mut i: usize = 0;
        while i < self.tiles.len()
            invariant
                i <= self.tiles.len(),
                entry.len() == i,
                forall|k: int|
                    0 <= k < i ==> #[trigger] entry[k] == (if self.tiles[k].is_opaque {
                        0u8
                    } else {
                        1u8
                    }),
            decreases self.tiles.len() - i,
        {
            entry.push(if self.tiles[i].is_opaque { 0 } else { 1 });
            i = i + 1;
        }
        assert(entry@ =~= self.steps().entry);
        CostGrid { width: self.dimensions.x, height: self.dimensions.y, entry }
    }

    /// The entry costs for walks that pay for the terrain.
    pub fn terrain_costs(&self) -> (grid: CostGrid)
        requires
            self.wf(),
        ensures
            grid@ == self.terrain(),
            grid@.wf(),
    {
        let mut entry: Vec<u8> = Vec::new();
        let mut i: usize = 0;
        while i < self.tiles.len()
            invariant
                i <= self.tiles.len(),
                entry.len() == i,
                forall|k: int|
                    0 <= k < i ==> #[trigger] entry[k] == (if self.tiles[k].is_opaque {
                        0u8
                    } else {
                        self.tiles[k].terrain_cost
                    }),
            decreases self.tiles.len() - i,
        {
            entry.push(if self.tiles[i].is_opaque { 0 } else { self.tiles[i].terrain_cost });
            i = i + 1;
        }
        assert(entry@ =~= self.terrain().entry);
        CostGrid { width: self.dimensions.x, height: self.dimensions.y, entry }
    }
}

} // verus!
