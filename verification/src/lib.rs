pub mod grid;
pub mod maze;
pub mod neighbour;
mod randsrc;
pub mod solve;

pub use grid::Matrix;
pub use maze::Maze;
pub use neighbour::Neighbours;
pub use grid::Path;
pub use grid::Point;
