//! Maze walking on a rasterised image.
//!
//! A raster of four-channel pixels is classified into passable and blocked
//! cells, the cells are linked into a grid graph of cardinal neighbours, the
//! openings on the border of the grid are collected, and a depth-first walk
//! with backtracking finds a route between two of them.

pub mod border;
pub mod decimal;
pub mod dimensions;
pub mod error;
pub mod maze;
pub mod node;
pub mod path;
pub mod pixel;
pub mod point;
pub mod raster;
pub mod render;
pub mod solver;

pub use border::PointList;
pub use dimensions::Dimensions;
pub use error::MazeError;
pub use maze::Maze;
pub use node::{Connectors, MazeNode};
pub use path::Path;
pub use pixel::{Pixel, PixelList};
pub use point::{Direction, Point};
pub use raster::Pnger;
pub use render::parse_rendering;
pub use solver::visited;
