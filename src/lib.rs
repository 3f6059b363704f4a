use vstd::prelude::*;

pub mod graph;
pub mod load;
pub mod sim;
pub mod spiral;

pub use graph::{HiveMap, Node, live_neighbors};
pub use load::{HiveLine, LoadError, direction_slot, load_lines, surviving_lines};
pub use sim::{Ants, DestructionEvent, MOVES, PlacementError, place_ants, simulate, step};
pub use spiral::{Coord, generate_hive_name, generate_spiral_coords};

verus! {

} // verus!
