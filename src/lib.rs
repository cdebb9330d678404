use vstd::prelude::*;

pub mod canon;
pub mod generation;
pub mod geometry;
pub mod grid;
pub mod model;
pub mod placements;

pub use canon::canonicalize;
pub use generation::Generation;
pub use geometry::{
    cell_at, crop, move_top_left, nudge_top_left, pad_all_sides, rotate90, rotations,
};
pub use grid::Grid;
pub use placements::{children, potential_cube_placements};

verus! {

} // verus!
