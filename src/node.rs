use vstd::prelude::*;

verus! {

/// A pixel colour as three 8-bit channels.
#[derive(Clone, Copy, Debug, PartialEq, Eq, Structural)]
pub struct Rgb {
    pub r: u8,
    pub g: u8,
    pub b: u8,
}

impl Rgb {
    pub fn new(r: u8, g: u8, b: u8) -> (c: Rgb)
        ensures
            c == (Rgb { r, g, b }),
    {
        Rgb { r, g, b }
    }

    pub fn same(&self, other: &Rgb) -> (res: bool)
        ensures
            res <==> *self == *other,
    {
        self.r == other.r && self.g == other.g && self.b == other.b
    }
}

/// What a pixel stands for in the maze.
#[derive(Clone, Copy, Debug, PartialEq, Eq, Structural)]
pub enum NodeType {
    Wall,
    Road,
    Start,
    End,
}

/// Manhattan distance between two grid coordinates.
pub open spec fn manhattan(a: (u32, u32), b: (u32, u32)) -> nat {
    (if a.0 >= b.0 { a.0 - b.0 } else { b.0 - a.0 }) as nat + (if a.1 >= b.1 {
        a.1 - b.1
    } else {
        b.1 - a.1
    }) as nat
}

/// Two coordinates one orthogonal step apart.
pub open spec fn adjacent(a: (u32, u32), b: (u32, u32)) -> bool {
    manhattan(a, b) == 1
}

/// The orthogonal neighbours of a coordinate, in the order right, left, down,
/// up. A step to the right or down is listed only while the coordinate it
/// increases stays below `u32::MAX - 1`, and a step left or up only from above
/// zero, so no coordinate ever wraps.
pub open spec fn neighbours_of(c: (u32, u32)) -> Seq<(u32, u32)> {
    let (x, y) = c;
    let s1 = if x < u32::MAX - 1 { seq![((x + 1) as u32, y)] } else { Seq::empty() };
    let s2 = if x > 0 { s1.push(((x - 1) as u32, y)) } else { s1 };
    let s3 = if y < u32::MAX - 1 { s2.push((x, (y + 1) as u32)) } else { s2 };
    if y > 0 { s3.push((x, (y - 1) as u32)) } else { s3 }
}

/// A traversable cell of the maze: a vertex of the grid graph.
///
/// `edges` holds the indices, in the graph's node arena, of the orthogonally
/// adjacent traversable cells.
#[derive(Debug)]
pub struct Node {
    pub color: Rgb,
    pub node_type: NodeType,
    pub coords: (u32, u32),
    pub heuristic: u64,
    pub edges: Vec<usize>,
}

impl Node {
    /// A node with no edges, whose heuristic is still the "infinite" sentinel.
    pub fn new(color: Rgb, coords: (u32, u32), node_type: NodeType) -> (n: Node)
        ensures
            n.color == color,
            n.coords == coords,
            n.node_type == node_type,
            n.heuristic == u64::MAX,
            n.edges@ == Seq::<usize>::empty(),
    {
        Node { color, node_type, coords, heuristic: u64::MAX, edges: Vec::new() }
    }

    /// Sets the heuristic to the Manhattan distance from `target`.
    pub fn set_heuristic_distance_from(&mut self, target: (u32, u32))
        ensures
            final(self).heuristic == manhattan(old(self).coords, target),
            final(self).color == old(self).color,
            final(self).node_type == old(self).node_type,
            final(self).coords == old(self).coords,
            final(self).edges@ == old(self).edges@,
    {
        let dx: u64 = if self.coords.0 >= target.0 {
            (self.coords.0 - target.0) as u64
        } else {
            (target.0 - self.coords.0) as u64
        };
        let dy: u64 = if self.coords.1 >= target.1 {
            (self.coords.1 - target.1) as u64
        } else {
            (target.1 - self.coords.1) as u64
        };
        self.heuristic = dx + dy;
    }

    /// The coordinates of the possible neighbours: right, left, down, up. Right
    /// and down are left out once the coordinate reaches `u32::MAX - 1`; left
    /// and up at zero.
    pub fn neighbouring_coords(coords: (u32, u32)) -> (out: Vec<(u32, u32)>)
        ensures
            out@ == neighbours_of(coords),
            forall|k: int| 0 <= k < out@.len() ==> adjacent(coords, #[trigger] out@[k]),
    {
        let (x, y) = coords;
        let mut out: Vec<(u32, u32)> = Vec::new();
        if x < u32::MAX - 1 {
            out.push((x + 1, y));
        }
        if x > 0 {
            out.push((x - 1, y));
        }
        if y < u32::MAX - 1 {
            out.push((x, y + 1));
        }
        if y > 0 {
            out.push((x, y - 1));
        }
        out
    }

    pub fn is_start(&self) -> (res: bool)
        ensures
            res <==> self.node_type == NodeType::Start,
    {
        self.node_type == NodeType::Start
    }

    pub fn is_end(&self) -> (res: bool)
        ensures
            res <==> self.node_type == NodeType::End,
    {
        self.node_type == NodeType::End
    }
}

} // verus!
