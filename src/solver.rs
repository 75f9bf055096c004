use vstd::prelude::*;

use crate::algorithm::{Algorithm, Path, path_ok};
use crate::error::Error;
use crate::graph::{Graph, has_kind};
use crate::node::{NodeType, Rgb};
use crate::palette::Palette;
use crate::render::{marked, marked_pixels};

verus! {

/// A solved maze: its graph, the route found from the start, and the pixels
/// to recolour.
#[derive(Debug)]
pub struct Solution {
    pub graph: Graph,
    pub path: Path,
    pub marked: Vec<(u32, u32)>,
}

/// Builds the graph of the maze in `pixels`, searches it from the start with
/// `algorithm`, and lists the pixels to draw the route with.
pub fn run(
    width: u32,
    height: u32,
    pixels: &Vec<Rgb>,
    palette: &Palette,
    algorithm: Algorithm,
    wider: bool,
) -> (res: Result<Solution, Error>)
    requires
        pixels@.len() == width as int * height as int,
    ensures
        res is Ok <==> has_kind(width, height, pixels@, *palette, NodeType::End) && has_kind(
            width,
            height,
            pixels@,
            *palette,
            NodeType::Start,
        ),
        match res {
            Ok(s) => {
                &&& s.graph.built_from(width, height, pixels@, *palette)
                &&& path_ok(algorithm, &s.graph, s.graph.start, s.path)
                &&& match s.path {
                    Path::Found(p) => forall|c: (u32, u32)|
                        #[trigger] s.marked@.contains(c) <==> marked(&s.graph, p@, wider, c),
                    Path::NotFound => s.marked@.len() == 0,
                }
            },
            Err(e) => if !has_kind(width, height, pixels@, *palette, NodeType::End) {
                e == Error::MissingGoal
            } else {
                e == Error::MissingStart
            },
        },
{
    let graph = match Graph::from_pixels(width, height, pixels, palette) {
        Ok(g) => g,
        Err(e) => {
            return Err(e);
        },
    };
    let path = match algorithm.execute(&graph, graph.start) {
        Ok(p) => p,
        Err(e) => {
            return Err(e);
        },
    };
    let marked = marked_pixels(&graph, &path, wider);
    Ok(Solution { graph, path, marked })
}

} // verus!
