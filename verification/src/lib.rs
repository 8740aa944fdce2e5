pub mod grid;
pub mod counting;
pub mod gen;
pub mod paths;
pub mod search;
pub mod text;
pub mod tree;

pub use crate::gen::generate_maze;
pub use crate::grid::{Maze, MazeError, Point};
pub use crate::search::{path_find, Algorithm, Path};

use vstd::prelude::*;

verus! {

/// A cell of the maze grid: either solid wall or open (carved) floor.
#[derive(Clone, Copy, Debug, PartialEq, Eq, Structural)]
pub enum CellState {
    Wall,
    Open,
}

} // verus!
