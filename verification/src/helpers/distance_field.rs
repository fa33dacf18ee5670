//! How many steps every tile lies from a set of starting tiles.

use vstd::prelude::*;
use crate::helpers::geometry::Point;
use crate::helpers::map::TileMap;
use crate::helpers::paths::Arrival;

verus! {

/// The distance recorded for a tile that no walk reaches within the limit.
pub const UNREACHABLE: u32 = 0xFFFF_FFFF;

/// For every tile of a map, the least number of steps in which it can be
/// reached from one of the starting tiles, moving between adjacent tiles
/// that can be entered.
pub struct DistanceField {
    /// One distance per tile, row by row; [`UNREACHABLE`] where there is none.
    pub map: Vec<u32>,
    /// The width of the map that was measured.
    pub size_x: i32,
    /// The height of the map that was measured.
    pub size_y: i32,
}

impl DistanceField {
    /// What the field holds for `point`: the least number of steps from
    /// `starts` if that is less than `max_depth`, else [`UNREACHABLE`].
    pub open spec fn measured_at(
        self,
        map: TileMap,
        starts: Seq<Point>,
        max_depth: int,
        point: Point,
    ) -> bool {
        let d = self.map[map.index_of(point)];
        if d == UNREACHABLE {
            map.steps().beyond(starts, point, max_depth - 1)
        } else {
            d < max_depth && map.steps().cheapest(starts, point, d as int)
        }
    }

    /// The field holds the distances on `map` from `starts`, as far as they
    /// are less than `max_depth`.
    pub open spec fn measures(self, map: TileMap, starts: Seq<Point>, max_depth: int) -> bool {
        &&& self.map.len() == map.tiles.len()
        &&& self.size_x == map.dimensions.x
        &&& self.size_y == map.dimensions.y
        &&& forall|point: Point|
            map.spec_in_bounds(point) ==> #[trigger] self.measured_at(map, starts, max_depth, point)
    }

    /// The distance recorded for `point`; [`UNREACHABLE`] for a point off the
    /// map that was measured.
    pub fn at(&self, point: Point) -> (distance: u32)
        ensures
            distance == (if 0 <= point.x < self.size_x && 0 <= point.y < self.size_y && point.y
                * self.size_x + point.x < self.map.len() {
                self.map[point.y * self.size_x + point.x]
            } else {
                UNREACHABLE
            }),
    {
        if 0 <= point.x && point.x < self.size_x && 0 <= point.y && point.y < self.size_y {
            assert(0 <= point.y * self.size_x + point.x <= 0x7fff_ffff * 0x7fff_ffff + 0x7fff_ffff)
                by (nonlinear_arith)
                requires
                    0 <= point.x <= 0x7fff_ffff,
                    0 <= point.y <= 0x7fff_ffff,
                    0 <= self.size_x <= 0x7fff_ffff,
            ;
            let idx: u64 = (point.y as u64) * (self.size_x as u64) + (point.x as u64);
            if idx < self.map.len() as u64 {
                return self.map[idx as usize];
            }
        }
        UNREACHABLE
    }

    /// Measures the distances on `map` from `starts`. A starting tile lies at
    /// distance 0 whether or not it can be entered; starting points off the
    /// map are ignored. Distances of `max_depth` and more are not recorded.
    pub fn new(starts: &Vec<Point>, map: &TileMap, max_depth: u32) -> (field: DistanceField)
        requires
            map.wf(),
        ensures
            field.measures(*map, starts@, max_depth as int),
    {
        let n: usize = map.tiles.len();
        let mut distances: Vec<u32> = Vec::new();
        if max_depth == 0 {
            let mut i: usize = 0;
            while i < n
                invariant
                    i <= n,
                    distances.len() == i,
                    forall|k: int| 0 <= k < i ==> distances[k] == UNREACHABLE,
                decreases n - i,
            {
                distances.push(UNREACHABLE);
                i = i + 1;
            }
            let field = DistanceField {
                map: distances,
                size_x: map.dimensions.x,
                size_y: map.dimensions.y,
            };
            proof {
                assert forall|point: Point| map.spec_in_bounds(point) implies #[trigger] field.measured_at(
                    *map,
                    starts@,
                    0,
                    point,
                ) by {
                    map.lemma_index(point);
                    assert forall|w: Seq<Point>| #[trigger]
                        map.steps().leads(starts@, w, point) implies map.steps().walk_cost(w)
                        > -1 by {
                        map.steps().lemma_walk_cost_nonnegative(w);
                    }
                }
            }
            return field;
        }
        let grid = map.step_costs();
        let found: Vec<Option<Arrival>> = grid.arrivals(starts, max_depth - 1);
        let mut i: usize = 0;
        while i < n
            invariant
                i <= n,
                n == found.len(),
                distances.len() == i,
                forall|k: int|
                    0 <= k < i ==> #[trigger] distances[k] == (match found[k] {
                        Some(a) => a.cost,
                        None => UNREACHABLE,
                    }),
            decreases n - i,
        {
            distances.push(
                match found[i] {
                    Some(a) => a.cost,
                    None => UNREACHABLE,
                },
            );
            i = i + 1;
        }
        let field = DistanceField {
            map: distances,
            size_x: map.dimensions.x,
            size_y: map.dimensions.y,
        };
        proof {
            assert forall|point: Point| map.spec_in_bounds(point) implies #[trigger] field.measured_at(
                *map,
                starts@,
                max_depth as int,
                point,
            ) by {
                map.lemma_index(point);
                assert(grid@.in_bounds(point));
                assert(grid@.answer_at(starts@, max_depth - 1, found@, point));
                assert(grid@.index_of(point) == map.index_of(point));
            }
        }
        field
    }
}

} // verus!
