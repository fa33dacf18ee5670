//! The procedural world of a tile-based exploration game.
//!
//! [`helpers`] holds the map and what is built and asked of it: the tiles
//! and the grid, the architects that generate a level, the distance field
//! that places the amulet and walls up lost caves, and the range finder
//! that tells what lies within a budget of movement.
//!
//! [`systems`] holds the two passes that run every tick over the entities
//! that give light and that see. Light is brought up to date first, sight
//! after it, so that an observer sees a light in the tick in which it moves.
//! What lies in an entity's line of sight is worked out by the caller and
//! handed to the pass.

pub mod helpers;
pub mod systems;
