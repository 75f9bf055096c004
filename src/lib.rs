pub mod algorithm;
pub mod args;
pub mod best_first;
pub mod bfs;
pub mod dfs;
pub mod error;
pub mod graph;
pub mod laws;
pub mod node;
pub mod palette;
pub mod render;
pub mod search;
pub mod solver;

pub use algorithm::{Algorithm, Path};
pub use args::Args;
pub use error::Error;
pub use graph::Graph;
pub use node::{Node, NodeType, Rgb};
pub use palette::Palette;
pub use render::marked_pixels;
pub use solver::{Solution, run};
