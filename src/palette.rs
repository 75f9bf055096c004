use vstd::prelude::*;

use crate::node::{NodeType, Rgb};

verus! {

/// The colours that give pixels their meaning.
#[derive(Clone, Copy, Debug, PartialEq, Eq, Structural)]
pub struct Palette {
    pub start: Rgb,
    pub goal: Rgb,
    pub wall: Rgb,
    pub road: Rgb,
    /// The colour a found path is drawn in.
    pub path: Rgb,
}

/// What a pixel of colour `c` stands for: walls first, then the start and
/// the goal; every other colour is road.
pub open spec fn classify(c: Rgb, p: Palette) -> NodeType {
    if c == p.wall {
        NodeType::Wall
    } else if c == p.start {
        NodeType::Start
    } else if c == p.goal {
        NodeType::End
    } else {
        NodeType::Road
    }
}

impl Palette {
    pub fn new(start: Rgb, goal: Rgb, wall: Rgb, road: Rgb, path: Rgb) -> (p: Palette)
        ensures
            p == (Palette { start, goal, wall, road, path }),
    {
        Palette { start, goal, wall, road, path }
    }

    /// Classifies a pixel colour.
    pub fn classify(&self, c: Rgb) -> (t: NodeType)
        ensures
            t == classify(c, *self),
    {
        if c.same(&self.wall) {
            NodeType::Wall
        } else if c.same(&self.start) {
            NodeType::Start
        } else if c.same(&self.goal) {
            NodeType::End
        } else {
            NodeType::Road
        }
    }
}

impl Default for Palette {
    /// Green start, red goal, black walls, white road, orange path.
    fn default() -> (p: Palette)
        ensures
            p == (Palette {
                start: Rgb { r: 0, g: 255, b: 0 },
                goal: Rgb { r: 255, g: 0, b: 0 },
                wall: Rgb { r: 0, g: 0, b: 0 },
                road: Rgb { r: 255, g: 255, b: 255 },
                path: Rgb { r: 255, g: 91, b: 0 },
            }),
    {
        Palette {
            start: Rgb { r: 0, g: 255, b: 0 },
            goal: Rgb { r: 255, g: 0, b: 0 },
            wall: Rgb { r: 0, g: 0, b: 0 },
            road: Rgb { r: 255, g: 255, b: 255 },
            path: Rgb { r: 255, g: 91, b: 0 },
        }
    }
}

} // verus!
