//! Which tiles can be reached from an anchor within a budget of terrain
//! cost, and by which way.

use vstd::prelude::*;
use crate::helpers::geometry::{adjacent, reads_before, Point};
use crate::helpers::map::TileMap;
use crate::helpers::paths::Arrival;

verus! {

/// A tile that the search has reached.
#[derive(Copy, Clone, Debug, PartialEq, Eq, Structural, Hash)]
pub struct GridPoint {
    pub point: Point,
    /// What it costs to move onto the tile.
    pub cost: u32,
    /// What the cheapest way from the anchor to the tile costs in all.
    pub g: u32,
    /// The tile before this one on that way; the anchor has none.
    pub via: Option<Point>,
}

impl GridPoint {
    /// A tile reached at no cost and from nowhere.
    pub fn new(point: Point, cost: u32) -> (node: GridPoint)
        ensures
            node == (GridPoint { point, cost, g: 0, via: None }),
    {
        GridPoint { point, cost, g: 0, via: None }
    }
}

/// The tiles reached by one search, by their position.
pub struct RangeGrid {
    width: i32,
    height: i32,
    nodes: Vec<Option<GridPoint>>,
}

impl RangeGrid {
    spec fn on_grid(self, p: Point) -> bool {
        0 <= p.x < self.width && 0 <= p.y < self.height
    }

    spec fn index_of(self, p: Point) -> int {
        p.y * self.width + p.x
    }

    /// Every tile is kept under its own position, and the way back from a
    /// tile leads over tiles that are kept too and that get cheaper step by
    /// step.
    #[verifier::type_invariant]
    spec fn inv(self) -> bool {
        &&& 0 <= self.width
        &&& 0 <= self.height
        &&& self.nodes.len() == self.width * self.height
        &&& forall|p: Point|
            self.on_grid(p) ==> (#[trigger] self.nodes[self.index_of(p)] matches Some(n) ==> {
                &&& n.point == p
                &&& n.via matches Some(q) ==> {
                    &&& self.on_grid(q)
                    &&& self.nodes[self.index_of(q)] matches Some(m) && m.g < n.g
                }
            })
    }

    /// The reached tiles as a mapping from their position.
    pub closed spec fn view(self) -> Map<Point, GridPoint> {
        Map::new(
            |p: Point| self.on_grid(p) && self.nodes[self.index_of(p)] is Some,
            |p: Point| self.nodes[self.index_of(p)]->0,
        )
    }

    /// The tile reached at `point`, if the search has reached it.
    pub fn get(&self, point: Point) -> (node: Option<GridPoint>)
        ensures
            node == (if self@.contains_key(point) {
                Some(self@[point])
            } else {
                None
            }),
    {
        proof {
            use_type_invariant(self);
        }
        if 0 <= point.x && point.x < self.width && 0 <= point.y && point.y < self.height {
            proof {
                assert(0 <= point.y * self.width + point.x < self.width * self.height)
                    by (nonlinear_arith)
                    requires
                        0 <= point.x < self.width,
                        0 <= point.y < self.height,
                ;
                assert(0 <= point.y * self.width) by (nonlinear_arith)
                    requires
                        0 <= point.y,
                        0 <= self.width,
                ;
            }
            let i: usize = (point.y as usize) * (self.width as usize) + (point.x as usize);
            self.nodes[i]
        } else {
            None
        }
    }

    /// Whether the search has reached `point`.
    pub fn contains_key(&self, point: Point) -> (reached: bool)
        ensures
            reached == self@.contains_key(point),
    {
        self.get(point).is_some()
    }
}

/// The search for what lies within range.
pub struct RangeFinder {}

impl RangeFinder {
    /// What the grid of a search from `anchor` with the budget `range` holds
    /// for `point`: nothing where every way costs more than `range`, else the
    /// tile with its own cost, the least total cost, and the tile before it
    /// on a cheapest way.
    pub open spec fn found_at(
        grid: Map<Point, GridPoint>,
        anchor: Point,
        range: int,
        map: TileMap,
        point: Point,
    ) -> bool {
        if grid.contains_key(point) {
            let n = grid[point];
            &&& n.point == point
            &&& n.cost == map.terrain().entry_cost(point)
            &&& n.g <= range
            &&& map.terrain().cheapest(seq![anchor], point, n.g as int)
            &&& match n.via {
                None => n.g == 0 && point == anchor,
                Some(q) => {
                    &&& adjacent(q, point)
                    &&& map.terrain().is_open(point)
                    &&& grid.contains_key(q)
                    &&& grid[q].g + n.cost == n.g
                },
            }
        } else {
            map.terrain().beyond(seq![anchor], point, range)
        }
    }

    /// On a map where every tile that can be entered costs the same, the
    /// least cost of a way to a tile is that cost for each step of the
    /// shortest way: the tiles at `n` steps from the anchor are reached at
    /// `n` times the cost.
    pub proof fn law_even_ground_counts_steps(
        map: TileMap,
        each: int,
        anchor: Point,
        point: Point,
        g: int,
    )
        requires
            map.wf(),
            each > 0,
            forall|i: int|
                0 <= i < map.tiles.len() && !(#[trigger] map.tiles[i]).is_opaque
                    ==> map.tiles[i].terrain_cost == each,
            map.terrain().cheapest(seq![anchor], point, g),
        ensures
            exists|steps: int| #[trigger]
                map.steps().cheapest(seq![anchor], point, steps) && g == each * steps,
    {
        let t = map.terrain();
        let s = map.steps();
        assert forall|p: Point| #[trigger] t.is_open(p) implies t.entry_cost(p) == each by {
            map.lemma_index(p);
        }
        assert forall|p: Point| #[trigger] s.is_open(p) implies s.entry_cost(p) == 1 by {
            map.lemma_index(p);
        }
        assert forall|p: Point| t.is_open(p) <==> s.is_open(p) by {
            if t.in_bounds(p) {
                map.lemma_index(p);
            }
        }
        assert forall|w: Seq<Point>| t.is_walk(w) <==> s.is_walk(w) by {
            if t.is_walk(w) {
                assert forall|k: int| 1 <= k < w.len() implies adjacent(w[k - 1], #[trigger] w[k])
                    && s.is_open(w[k]) by {
                    assert(t.is_open(w[k]));
                }
            }
            if s.is_walk(w) {
                assert forall|k: int| 1 <= k < w.len() implies adjacent(w[k - 1], #[trigger] w[k])
                    && t.is_open(w[k]) by {
                    assert(s.is_open(w[k]));
                }
            }
        }
        let best = choose|w: Seq<Point>| #[trigger]
            t.leads(seq![anchor], w, point) && t.walk_cost(w) == g;
        t.law_even_cost_counts_steps(each, best);
        s.law_even_cost_counts_steps(1, best);
        let steps = best.len() - 1;
        assert(s.leads(seq![anchor], best, point));
        assert forall|w: Seq<Point>| #[trigger] s.leads(seq![anchor], w, point) implies s.walk_cost(
            w,
        ) >= steps by {
            assert(t.leads(seq![anchor], w, point));
            t.law_even_cost_counts_steps(each, w);
            s.law_even_cost_counts_steps(1, w);
            assert(w.len() - 1 >= steps) by (nonlinear_arith)
                requires
                    each * (w.len() - 1) >= each * steps,
                    each > 0,
            ;
        }
        assert(s.cheapest(seq![anchor], point, steps));
    }

    /// Searches `map` from `anchor` for the tiles that can be reached at a
    /// total cost of at most `range`. A step onto a tile costs the tile's
    /// terrain cost; tiles that block, and tiles that cost nothing, are never
    /// stepped onto. An anchor off the map reaches nothing.
    pub fn compute_grid(anchor: Point, range: u32, map: TileMap) -> (grid: RangeGrid)
        requires
            map.wf(),
        ensures
            forall|p: Point| grid@.contains_key(p) ==> map.spec_in_bounds(p),
            forall|p: Point|
                map.spec_in_bounds(p) ==> #[trigger] Self::found_at(
                    grid@,
                    anchor,
                    range as int,
                    map,
                    p,
                ),
    {
        let costs = map.terrain_costs();
        let mut sources: Vec<Point> = Vec::new();
        sources.push(anchor);
        assert(sources@ =~= seq![anchor]);
        let found: Vec<Option<Arrival>> = costs.arrivals(&sources, range);
        let n: usize = found.len();
        let mut nodes: Vec<Option<GridPoint>> = Vec::new();
        let mut i: usize = 0;
        while i < n
            invariant
                map.wf(),
                i <= n,
                n == found.len(),
                n == map.tiles.len(),
                costs@ == map.terrain(),
                nodes.len() == i,
                forall|k: int|
                    0 <= k < i ==> #[trigger] nodes[k] == (match found[k] {
                        Some(a) => Some(
                            GridPoint {
                                point: Point {
                                    x: (k % (map.dimensions.x as int)) as i32,
                                    y: (k / (map.dimensions.x as int)) as i32,
                                },
                                cost: costs.entry[k] as u32,
                                g: a.cost,
                                via: a.via,
                            },
                        ),
                        None => None,
                    }),
            decreases n - i,
        {
            let node = match found[i] {
                Some(a) => {
                    let point = map.index_to_point2d(i);
                    Some(GridPoint { point, cost: costs.entry[i] as u32, g: a.cost, via: a.via })
                },
                None => None,
            };
            nodes.push(node);
            i = i + 1;
        }
        proof {
            let t = map.terrain();
            assert forall|p: Point|
                0 <= p.x < map.dimensions.x && 0 <= p.y < map.dimensions.y implies (
            #[trigger] nodes[p.y * map.dimensions.x + p.x] matches Some(node) ==> {
                &&& node.point == p
                &&& node.via matches Some(q) ==> {
                    &&& 0 <= q.x < map.dimensions.x && 0 <= q.y < map.dimensions.y
                    &&& nodes[q.y * map.dimensions.x + q.x] matches Some(m) && m.g < node.g
                }
            }) by {
                map.lemma_index(p);
                map.lemma_point_of_index(p);
                assert(t.in_bounds(p));
                assert(t.answer_at(sources@, range as int, found@, p));
                assert(t.index_of(p) == p.y * map.dimensions.x + p.x);
                if let Some(a) = found[t.index_of(p)] {
                    if let Some(q) = a.via {
                        map.lemma_index(q);
                    }
                }
            }
        }
        let grid = RangeGrid { width: map.dimensions.x, height: map.dimensions.y, nodes };
        proof {
            let t = map.terrain();
            assert forall|p: Point| map.spec_in_bounds(p) implies #[trigger] Self::found_at(
                grid@,
                anchor,
                range as int,
                map,
                p,
            ) by {
                map.lemma_index(p);
                map.lemma_point_of_index(p);
                assert(t.in_bounds(p));
                assert(t.answer_at(sources@, range as int, found@, p));
                assert(t.index_of(p) == grid.index_of(p));
                if let Some(a) = found[t.index_of(p)] {
                    if let Some(q) = a.via {
                        map.lemma_index(q);
                        assert(t.index_of(q) == grid.index_of(q));
                    } else {
                        assert(seq![anchor].contains(p));
                        let k = choose|k: int| 0 <= k < seq![anchor].len() && seq![anchor][k] == p;
                        assert(p == anchor);
                    }
                }
            }
        }
        grid
    }

    /// All tiles that the search has reached by at least one step, so
    /// without the anchor, read row by row.
    pub fn get_grid(grid: &RangeGrid) -> (reached: Vec<Point>)
        ensures
            forall|p: Point|
                reached@.contains(p) <==> grid@.contains_key(p) && grid@[p].via is Some,
            forall|i: int, j: int|
                0 <= i < j < reached.len() ==> reads_before(reached[i], reached[j]),
    {
        proof {
            use_type_invariant(grid);
        }
        let mut reached: Vec<Point> = Vec::new();
        let mut y: i32 = 0;
        while y < grid.height
            invariant
                0 <= y <= grid.height,
                grid.inv(),
                forall|p: Point|
                    reached@.contains(p) <==> grid@.contains_key(p) && grid@[p].via is Some && p.y
                        < y,
                forall|i: int, j: int|
                    0 <= i < j < reached.len() ==> reads_before(reached[i], reached[j]),
            decreases grid.height - y,
        {
            let mut x: i32 = 0;
            while x < grid.width
                invariant
                    0 <= y < grid.height,
                    0 <= x <= grid.width,
                    grid.inv(),
                    forall|p: Point|
                        reached@.contains(p) <==> grid@.contains_key(p) && grid@[p].via is Some && (
                        p.y < y || (p.y == y && p.x < x)),
                    forall|i: int, j: int|
                        0 <= i < j < reached.len() ==> reads_before(reached[i], reached[j]),
                decreases grid.width - x,
            {
                let here = Point { x, y };
                let ghost before = reached@;
                match grid.get(here) {
                    Some(node) => {
                        if node.via.is_some() {
                            reached.push(here);
                            proof {
                                assert(reached@[reached.len() - 1] == here);
                                assert forall|p: Point| reached@.contains(p) <==> grid@.contains_key(
                                    p,
                                ) && grid@[p].via is Some && (p.y < y || (p.y == y && p.x < x
                                    + 1)) by {
                                    if reached@.contains(p) {
                                        let k = choose|k: int|
                                            0 <= k < reached.len() && reached[k] == p;
                                        if k < before.len() {
                                            assert(before[k] == p);
                                            assert(before.contains(p));
                                        }
                                    }
                                    if before.contains(p) {
                                        let k = choose|k: int|
                                            0 <= k < before.len() && before[k] == p;
                                        assert(reached[k] == p);
                                    }
                                }
                                assert forall|i: int, j: int|
                                    0 <= i < j < reached.len() implies reads_before(
                                    reached[i],
                                    reached[j],
                                ) by {
                                    if j == reached.len() - 1 {
                                        assert(before[i] == reached[i]);
                                        assert(before.contains(reached[i]));
                                    } else {
                                        assert(before[i] == reached[i]);
                                        assert(before[j] == reached[j]);
                                    }
                                }
                            }
                        }
                    },
                    None => {},
                }
                x = x + 1;
            }
            y = y + 1;
        }
        proof {
            assert forall|p: Point| reached@.contains(p) <==> grid@.contains_key(p) && grid@[p].via
                is Some by {
                if grid@.contains_key(p) {
                    assert(grid.on_grid(p));
                }
            }
        }
        reached
    }

    /// `path` is the way from `point` back to the anchor: it starts at
    /// `point`, every tile is followed by the one it was reached from, and it
    /// ends at the tile that was reached from nowhere.
    pub open spec fn way_back(grid: Map<Point, GridPoint>, point: Point, path: Seq<Point>) -> bool {
        &&& path.len() >= 1
        &&& path[0] == point
        &&& forall|k: int| 0 <= k < path.len() ==> grid.contains_key(#[trigger] path[k])
        &&& forall|k: int|
            0 <= k < path.len() - 1 ==> grid[#[trigger] path[k]].via == Some(path[k + 1])
        &&& grid[path.last()].via is None
    }

    /// The way from `point` back to the anchor, both included, or nothing if
    /// the search has not reached `point`.
    pub fn get_path_to(grid: &RangeGrid, point: Point) -> (path: Vec<Point>)
        ensures
            grid@.contains_key(point) ==> Self::way_back(grid@, point, path@),
            !grid@.contains_key(point) ==> path.len() == 0,
    {
        let mut path: Vec<Point> = Vec::new();
        let first = grid.get(point);
        if first.is_none() {
            return path;
        }
        let mut node: GridPoint = first.unwrap();
        path.push(point);
        proof {
            use_type_invariant(grid);
            assert(grid.on_grid(point));
        }
        loop
            invariant_except_break
                grid.inv(),
                path.len() >= 1,
                path[0] == point,
                forall|k: int| 0 <= k < path.len() ==> grid@.contains_key(#[trigger] path[k]),
                forall|k: int|
                    0 <= k < path.len() - 1 ==> grid@[#[trigger] path[k]].via == Some(path[k + 1]),
                node == grid@[path@.last()],
            ensures
                Self::way_back(grid@, point, path@),
            decreases node.g,
        {
            let ghost before = path@;
            match node.via {
                None => {
                    break ;
                },
                Some(via) => {
                    proof {
                        assert(grid.on_grid(before.last()));
                        assert(grid.nodes[grid.index_of(before.last())] is Some);
                    }
                    match grid.get(via) {
                        None => {
                            break ;
                        },
                        Some(next) => {
                            path.push(via);
                            node = next;
                            proof {
                                assert forall|k: int| 0 <= k < path.len() implies grid@.contains_key(
                                    #[trigger] path[k],
                                ) by {
                                    if k < before.len() {
                                        assert(path[k] == before[k]);
                                    }
                                }
                                assert forall|k: int| 0 <= k < path.len() - 1 implies grid@[#[trigger] path[k]].via
                                    == Some(path[k + 1]) by {
                                    if k < before.len() - 1 {
                                        assert(path[k] == before[k]);
                                        assert(path[k + 1] == before[k + 1]);
                                    }
                                }
                            }
                        },
                    }
                },
            }
        }
        path
    }
}

} // verus!
