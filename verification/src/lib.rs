//! A fixed-capacity 2D spatial hash grid for broad-phase proximity queries.
//!
//! Entities are inserted with a position and an extent; the grid records,
//! per uniform cell of side `2^shift`, which entities occupy it, and answers
//! region queries without scanning the whole population. The backing storage
//! is a fixed-size table addressed by a reduced 64-bit key with no collision
//! resolution: distinct keys that reduce to the same slot share it, an
//! accepted capacity-mitigated approximation.

pub mod cells;
pub mod grid;
pub mod laws;
pub mod table;

pub use cells::PositionVector;
pub use grid::SpatialHashGrid;
pub use table::Table;
