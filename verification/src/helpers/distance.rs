//! Distances in feet between tiles.

use vstd::prelude::*;
use crate::helpers::geometry::{distance_squared, Point};

verus! {

/// The units that a distance may be given in.
#[derive(Copy, Clone, Debug, PartialEq, Eq, Structural)]
pub enum Unit {
    Feet,
    Miles,
    Tiles,
}

/// The length of a tile's side.
pub const TILE_SIZE_IN_FEET: u16 = 5;

/// The straight line between the two tiles is no longer than `feet`.
pub open spec fn within_feet(a: Point, b: Point, feet: int) -> bool {
    TILE_SIZE_IN_FEET * TILE_SIZE_IN_FEET * distance_squared(a, b) <= feet * feet
}

/// Whether the straight line between the two tiles is no longer than `feet`.
/// The lengths are compared by their squares, so nothing is rounded.
pub fn is_within_feet(a: Point, b: Point, feet: u32) -> (near: bool)
    ensures
        near == within_feet(a, b, feet as int),
{
    let d: u128 = a.distance_squared(b);
    assert(feet * feet <= 0xffff_ffff * 0xffff_ffff) by (nonlinear_arith)
        requires
            0 <= feet <= 0xffff_ffff,
    ;
    let limit: u128 = (feet as u128) * (feet as u128);
    // more than the largest limit there is: the comparison is decided
    if d > 0xffff_ffff_ffff_ffff {
        assert(25 * distance_squared(a, b) > feet * feet);
        false
    } else {
        25 * d <= limit
    }
}

/// How many whole tiles fit into `feet`.
pub fn feet_to_tiles(feet: u32) -> (tiles: i32)
    ensures
        tiles == feet / 5,
{
    (feet / 5) as i32
}

} // verus!
