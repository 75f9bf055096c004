use vstd::prelude::*;

use crate::error::Error;
use crate::node::{Node, NodeType, Rgb, adjacent, manhattan, neighbours_of};
use crate::palette::{Palette, classify};

verus! {

/// The grid graph built from a maze image: an arena of traversable nodes,
/// addressed by index, and a lookup table from pixel cell to node index.
#[derive(Debug)]
pub struct Graph {
    pub width: u32,
    pub height: u32,
    /// One node per traversable pixel, in row-major order of the pixels.
    pub nodes: Vec<Node>,
    /// For the pixel at `(x, y)`, entry `y * width + x`: the index of its node,
    /// or `None` for a wall.
    pub lookup: Vec<Option<usize>>,
    /// The index of the start node.
    pub start: usize,
    /// The index of the goal node.
    pub goal: usize,
}

impl Graph {
    pub open spec fn n(&self) -> nat {
        self.nodes@.len()
    }

    pub open spec fn coords_of(&self, i: usize) -> (u32, u32) {
        self.nodes@[i as int].coords
    }

    pub open spec fn heur(&self, i: usize) -> nat {
        self.nodes@[i as int].heuristic as nat
    }

    /// There is an edge from node `u` to node `v`.
    pub open spec fn adj(&self, u: usize, v: usize) -> bool {
        self.nodes@[u as int].edges@.contains(v)
    }

    /// A non-empty sequence of node indices, each joined to the next by an edge.
    pub open spec fn is_walk(&self, w: Seq<usize>) -> bool {
        &&& w.len() >= 1
        &&& forall|k: int| 0 <= k < w.len() ==> #[trigger] w[k] < self.n()
        &&& forall|k: int| 0 <= k < w.len() - 1 ==> self.adj(#[trigger] w[k], w[k + 1])
    }

    /// A walk from `from` to `to`.
    pub open spec fn is_walk_between(&self, w: Seq<usize>, from: usize, to: usize) -> bool {
        &&& self.is_walk(w)
        &&& w[0] == from
        &&& w.last() == to
    }

    /// What the searches rely on: edges stay inside the arena, and the
    /// heuristic is exact at the goal, changes by at most one along an edge and
    /// leaves room for every finite score below the "infinite" sentinel.
    pub open spec fn searchable(&self) -> bool {
        &&& self.goal < self.n()
        &&& forall|u: usize, k: int|
            u < self.n() && 0 <= k < self.nodes@[u as int].edges@.len() ==> #[trigger] self.nodes@[
            u as int].edges@[k] < self.n()
        &&& self.heur(self.goal) == 0
        &&& forall|u: usize, v: usize|
            u < self.n() && #[trigger] self.adj(u, v) ==> self.heur(u) <= self.heur(v) + 1
        &&& forall|u: usize| u < self.n() ==> #[trigger] self.heur(u) + self.n() + 1 < u64::MAX
    }
}

/// An edge of a searchable graph leads to a node of the arena.
pub proof fn lemma_adj_in_range(g: &Graph, u: usize, v: usize)
    requires
        g.searchable(),
        u < g.n(),
        g.adj(u, v),
    ensures
        v < g.n(),
{
    let k = choose|k: int| 0 <= k < g.nodes@[u as int].edges@.len() && g.nodes@[u as int].edges@[k] == v;
    assert(g.nodes@[u as int].edges@[k] < g.n());
}

/// Every node of a walk lies in a set that holds its first node and is closed
/// under edges.
pub proof fn lemma_closed_set_holds_walk(g: &Graph, s: spec_fn(usize) -> bool, w: Seq<usize>)
    requires
        g.is_walk(w),
        s(w[0]),
        forall|u: usize, v: usize| u < g.n() && s(u) && #[trigger] g.adj(u, v) ==> s(v),
    ensures
        forall|k: int| 0 <= k < w.len() ==> s(#[trigger] w[k]),
    decreases w.len(),
{
    if w.len() > 1 {
        let p = w.drop_last();
        assert(g.is_walk(p)) by {
            assert forall|k: int| 0 <= k < p.len() - 1 implies g.adj(#[trigger] p[k], p[k + 1]) by {
                assert(g.adj(w[k], w[k + 1]));
            }
            assert forall|k: int| 0 <= k < p.len() implies #[trigger] p[k] < g.n() by {
                assert(w[k] < g.n());
            }
        }
        lemma_closed_set_holds_walk(g, s, p);
        assert forall|k: int| 0 <= k < w.len() implies s(#[trigger] w[k]) by {
            if k < w.len() - 1 {
                assert(p[k] == w[k]);
            } else {
                let j = w.len() - 2;
                assert(p[j] == w[j]);
                assert(s(w[j]));
                assert(g.adj(w[j], w[j + 1]));
            }
        }
    }
}

/// The place of pixel `(x, y)` in a row-major grid `w` pixels wide.
pub open spec fn cell(w: u32, x: u32, y: u32) -> int {
    y as int * w as int + x as int
}

pub proof fn lemma_cell_bounds(w: u32, h: u32, x: u32, y: u32)
    requires
        x < w,
        y < h,
    ensures
        0 <= y as int * w as int <= cell(w, x, y) < w as int * h as int,
{
    assert(0 <= y as int * w as int) by (nonlinear_arith);
    assert(y as int * w as int + x < w as int * h as int) by (nonlinear_arith)
        requires
            x < w,
            y < h,
    ;
}

proof fn lemma_cell_order(w: u32, x1: u32, y1: u32, x2: u32, y2: u32)
    requires
        x1 < w,
        x2 < w,
        y1 < y2 || (y1 == y2 && x1 < x2),
    ensures
        cell(w, x1, y1) < cell(w, x2, y2),
{
    if y1 < y2 {
        assert(y1 as int * w as int + w as int <= y2 as int * w as int) by (nonlinear_arith)
            requires
                y1 < y2,
        ;
    }
}

proof fn lemma_cell_next_row(w: u32, y: u32)
    ensures
        cell(w, 0, (y + 1) as u32) == y as int * w as int + w as int || y == u32::MAX,
{
    if y < u32::MAX {
        assert((y as int + 1) * w as int == y as int * w as int + w as int) by (nonlinear_arith);
    }
}

/// A pixel of `pixels` is of kind `t`.
pub open spec fn has_kind(width: u32, height: u32, pixels: Seq<Rgb>, palette: Palette, t: NodeType) -> bool {
    exists|x: u32, y: u32|
        x < width && y < height && #[trigger] classify(pixels[cell(width, x, y)], palette) == t
}

/// The entry of table `lookup`, for a grid `w` by `h`, at pixel `c`; `None`
/// outside the grid.
pub open spec fn lookup_at(lookup: Seq<Option<usize>>, w: u32, h: u32, c: (u32, u32)) -> Option<usize> {
    if c.0 < w && c.1 < h {
        lookup[cell(w, c.0, c.1)]
    } else {
        None
    }
}

/// The nodes that `lookup` gives for the pixels `cs`, in the order of `cs`,
/// skipping the pixels that have none.
pub open spec fn present_nodes(lookup: Seq<Option<usize>>, w: u32, h: u32, cs: Seq<(u32, u32)>) -> Seq<
    usize,
>
    decreases cs.len(),
{
    if cs.len() == 0 {
        Seq::empty()
    } else {
        let r = present_nodes(lookup, w, h, cs.drop_last());
        match lookup_at(lookup, w, h, cs.last()) {
            Some(j) => r.push(j),
            None => r,
        }
    }
}

impl Graph {
    /// The node at pixel `(x, y)`, if that pixel is traversable.
    pub open spec fn node_at(&self, c: (u32, u32)) -> Option<usize> {
        lookup_at(self.lookup@, self.width, self.height, c)
    }

    /// The arena and the lookup table agree, and each node's edges lead to
    /// exactly its orthogonal neighbours: the nodes of the pixels that
    /// `neighbours_of` lists, in that order.
    pub open spec fn wf(&self) -> bool {
        &&& self.lookup@.len() == self.width as int * self.height as int
        &&& self.nodes@.len() <= self.lookup@.len()
        &&& forall|i: usize|
            i < self.n() ==> {
                let c = #[trigger] self.coords_of(i);
                &&& c.0 < self.width
                &&& c.1 < self.height
                &&& self.lookup@[cell(self.width, c.0, c.1)] == Some(i)
            }
        &&& forall|x: u32, y: u32|
            x < self.width && y < self.height && (#[trigger] self.lookup@[cell(self.width, x, y)]) is Some
                ==> {
                let i = self.lookup@[cell(self.width, x, y)]->0;
                &&& i < self.n()
                &&& self.coords_of(i) == (x, y)
            }
        &&& forall|i: usize, k: int|
            i < self.n() && 0 <= k < self.nodes@[i as int].edges@.len() ==> {
                let j = #[trigger] self.nodes@[i as int].edges@[k];
                &&& j < self.n()
                &&& adjacent(self.coords_of(i), self.coords_of(j))
            }
        &&& forall|i: usize, j: usize|
            i < self.n() && j < self.n() && adjacent(self.coords_of(i), self.coords_of(j)) ==> #[trigger] self.adj(
                i,
                j,
            )
        &&& forall|i: usize|
            i < self.n() ==> #[trigger] self.nodes@[i as int].edges@ == present_nodes(
                self.lookup@,
                self.width,
                self.height,
                neighbours_of(self.coords_of(i)),
            )
        &&& self.goal < self.n()
        &&& self.start < self.n()
        &&& forall|i: usize|
            i < self.n() ==> #[trigger] self.heur(i) == manhattan(self.coords_of(i), self.coords_of(self.goal))
    }

    /// The graph is the one that `pixels`, read with `palette`, describe: a node
    /// for each pixel that is not a wall, the nodes in row-major order of their
    /// pixels, the first goal pixel in that order as the goal and the first
    /// start pixel as the start.
    pub open spec fn built_from(&self, width: u32, height: u32, pixels: Seq<Rgb>, palette: Palette) -> bool {
        &&& self.wf()
        &&& self.width == width
        &&& self.height == height
        &&& forall|x: u32, y: u32|
            #![trigger self.lookup@[cell(width, x, y)]]
            x < width && y < height ==> {
                let k = cell(width, x, y);
                &&& (self.lookup@[k] is Some) == (classify(pixels[k], palette) != NodeType::Wall)
                &&& self.lookup@[k] is Some ==> {
                    let n = self.nodes@[self.lookup@[k]->0 as int];
                    &&& n.color == pixels[k]
                    &&& n.node_type == classify(pixels[k], palette)
                }
            }
        &&& self.nodes@[self.goal as int].node_type == NodeType::End
        &&& self.nodes@[self.start as int].node_type == NodeType::Start
        &&& forall|i: usize| i < self.goal ==> #[trigger] self.nodes@[i as int].node_type != NodeType::End
        &&& forall|i: usize| i < self.start ==> #[trigger] self.nodes@[i as int].node_type != NodeType::Start
        &&& forall|i: usize, j: usize|
            i < j < self.n() ==> before(
                (#[trigger] self.coords_of(i)).0,
                self.coords_of(i).1,
                (#[trigger] self.coords_of(j)).0,
                self.coords_of(j).1,
            )
        &&& forall|x: u32, y: u32|
            x < width && y < height && before(x, y, self.coords_of(self.goal).0, self.coords_of(self.goal).1)
                ==> #[trigger] classify(pixels[cell(width, x, y)], palette) != NodeType::End
        &&& forall|x: u32, y: u32|
            x < width && y < height && before(x, y, self.coords_of(self.start).0, self.coords_of(self.start).1)
                ==> #[trigger] classify(pixels[cell(width, x, y)], palette) != NodeType::Start
    }
}

/// Pixel `(x1, y1)` comes before pixel `(x2, y2)` in row-major order.
pub open spec fn before(x1: u32, y1: u32, x2: u32, y2: u32) -> bool {
    y1 < y2 || (y1 == y2 && x1 < x2)
}

/// What the scan of the pixels has established about pixel `(x, y)`.
pub open spec fn scanned(
    width: u32,
    pixels: Seq<Rgb>,
    palette: Palette,
    nodes: Seq<Node>,
    lookup: Seq<Option<usize>>,
    x: u32,
    y: u32,
) -> bool {
    let k = cell(width, x, y);
    &&& 0 <= k < lookup.len()
    &&& (lookup[k] is Some) == (classify(pixels[k], palette) != NodeType::Wall)
    &&& lookup[k] is Some ==> {
        let i = lookup[k]->0;
        &&& i < nodes.len()
        &&& nodes[i as int].coords == (x, y)
        &&& nodes[i as int].color == pixels[k]
        &&& nodes[i as int].node_type == classify(pixels[k], palette)
    }
}

/// Creates a node for every pixel that is not a wall, in row-major order, and
/// the table from pixel to node.
fn classify_pixels(width: u32, height: u32, pixels: &Vec<Rgb>, palette: &Palette) -> (res: (
    Vec<Node>,
    Vec<Option<usize>>,
))
    requires
        pixels@.len() == width as int * height as int,
    ensures
        res.1@.len() == width as int * height as int,
        res.0@.len() <= res.1@.len(),
        forall|x: u32, y: u32|
            #![trigger cell(width, x, y)]
            x < width && y < height ==> scanned(width, pixels@, *palette, res.0@, res.1@, x, y),
        forall|i: int|
            0 <= i < res.0@.len() ==> {
                let c = #[trigger] res.0@[i].coords;
                &&& c.0 < width
                &&& c.1 < height
                &&& res.1@[cell(width, c.0, c.1)] == Some(i as usize)
            },
        forall|i: int, j: int|
            0 <= i < j < res.0@.len() ==> before(
                (#[trigger] res.0@[i]).coords.0,
                res.0@[i].coords.1,
                (#[trigger] res.0@[j]).coords.0,
                res.0@[j].coords.1,
            ),
{
    let mut nodes: Vec<Node> = Vec::new();
    let mut lookup: Vec<Option<usize>> = Vec::new();
    let mut y: u32 = 0;
    while y < height
        invariant
            pixels@.len() == width as int * height as int,
            y <= height,
            lookup@.len() == cell(width, 0, y),
            nodes@.len() <= lookup@.len(),
            forall|i: int, j: int|
                0 <= i < j < nodes@.len() ==> before(
                    (#[trigger] nodes@[i]).coords.0,
                    nodes@[i].coords.1,
                    (#[trigger] nodes@[j]).coords.0,
                    nodes@[j].coords.1,
                ),
            forall|x1: u32, y1: u32|
                #![trigger cell(width, x1, y1)]
                x1 < width && y1 < y ==> scanned(width, pixels@, *palette, nodes@, lookup@, x1, y1),
            forall|i: int|
                0 <= i < nodes@.len() ==> {
                    let c = #[trigger] nodes@[i].coords;
                    &&& c.0 < width
                    &&& c.1 < y
                    &&& lookup@[cell(width, c.0, c.1)] == Some(i as usize)
                },
        decreases height - y,
    {
        let mut x: u32 = 0;
        while x < width
            invariant
                pixels@.len() == width as int * height as int,
                y < height,
                x <= width,
                lookup@.len() == cell(width, x, y),
                nodes@.len() <= lookup@.len(),
                forall|i: int, j: int|
                    0 <= i < j < nodes@.len() ==> before(
                        (#[trigger] nodes@[i]).coords.0,
                        nodes@[i].coords.1,
                        (#[trigger] nodes@[j]).coords.0,
                        nodes@[j].coords.1,
                    ),
                forall|x1: u32, y1: u32|
                    #![trigger cell(width, x1, y1)]
                    x1 < width && before(x1, y1, x, y) ==> scanned(
                        width,
                        pixels@,
                        *palette,
                        nodes@,
                        lookup@,
                        x1,
                        y1,
                    ),
                forall|i: int|
                    0 <= i < nodes@.len() ==> {
                        let c = #[trigger] nodes@[i].coords;
                        &&& c.0 < width
                        &&& before(c.0, c.1, x, y)
                        &&& lookup@[cell(width, c.0, c.1)] == Some(i as usize)
                    },
            decreases width - x,
        {
            let len = pixels.len();
            proof {
                lemma_cell_bounds(width, height, x, y);
                assert(len == width as int * height as int);
            }
            let k = y as usize * width as usize + x as usize;
            let c = pixels[k];
            let t = palette.classify(c);
            let ghost old_nodes = nodes@;
            let ghost old_lookup = lookup@;
            if t == NodeType::Wall {
                lookup.push(None);
            } else {
                lookup.push(Some(nodes.len()));
                nodes.push(Node::new(c, (x, y), t));
            }
            proof {
                assert forall|x1: u32, y1: u32|
                    #![trigger cell(width, x1, y1)]
                    x1 < width && before(x1, y1, (x + 1) as u32, y) implies scanned(
                        width,
                        pixels@,
                        *palette,
                        nodes@,
                        lookup@,
                        x1,
                        y1,
                    ) by {
                    if before(x1, y1, x, y) {
                        lemma_cell_order(width, x1, y1, x, y);
                        assert(scanned(width, pixels@, *palette, old_nodes, old_lookup, x1, y1));
                        assert(lookup@[cell(width, x1, y1)] == old_lookup[cell(width, x1, y1)]);
                    } else {
                        assert(x1 == x && y1 == y);
                    }
                }
                assert forall|i: int| 0 <= i < nodes@.len() implies {
                    let c = #[trigger] nodes@[i].coords;
                    &&& c.0 < width
                    &&& before(c.0, c.1, (x + 1) as u32, y)
                    &&& lookup@[cell(width, c.0, c.1)] == Some(i as usize)
                } by {
                    if i < old_nodes.len() {
                        let c = old_nodes[i].coords;
                        assert(nodes@[i] == old_nodes[i]);
                        lemma_cell_order(width, c.0, c.1, x, y);
                    }
                }
            }
            x = x + 1;
        }
        proof {
            lemma_cell_next_row(width, y);
            assert forall|i: int| 0 <= i < nodes@.len() implies {
                let c = #[trigger] nodes@[i].coords;
                &&& c.0 < width
                &&& c.1 < y + 1
                &&& lookup@[cell(width, c.0, c.1)] == Some(i as usize)
            } by {
                let c = nodes@[i].coords;
                assert(before(c.0, c.1, x, y));
            }
        }
        y = y + 1;
    }
    proof {
        assert(height as int * width as int == width as int * height as int) by (nonlinear_arith);
    }
    (nodes, lookup)
}

/// Every coordinate one orthogonal step away, and below `u32::MAX` on both
/// axes, is listed among the neighbours.
pub proof fn lemma_adjacent_listed(a: (u32, u32), b: (u32, u32))
    requires
        adjacent(a, b),
        b.0 < u32::MAX,
        b.1 < u32::MAX,
    ensures
        neighbours_of(a).contains(b),
{
    let (x, y) = a;
    let s1 = if x < u32::MAX - 1 { seq![((x + 1) as u32, y)] } else { Seq::<(u32, u32)>::empty() };
    let s2 = if x > 0 { s1.push(((x - 1) as u32, y)) } else { s1 };
    let s3 = if y < u32::MAX - 1 { s2.push((x, (y + 1) as u32)) } else { s2 };
    let s4 = if y > 0 { s3.push((x, (y - 1) as u32)) } else { s3 };
    assert(neighbours_of(a) == s4);
    if b.1 == y && b.0 == x + 1 {
        assert(s1[0] == b);
        assert(s2[0] == b);
        assert(s3[0] == b);
        assert(s4[0] == b);
    } else if b.1 == y {
        assert(s2[s2.len() - 1] == b);
        assert(s3[s2.len() - 1] == b);
        assert(s4[s2.len() - 1] == b);
    } else if b.1 == y + 1 {
        assert(s3[s3.len() - 1] == b);
        assert(s4[s3.len() - 1] == b);
    } else {
        assert(s4[s4.len() - 1] == b);
    }
}

/// The index of the first node of kind `t`.
fn find_first(nodes: &Vec<Node>, t: NodeType) -> (res: Option<usize>)
    ensures
        match res {
            Some(i) => i < nodes@.len() && nodes@[i as int].node_type == t && forall|j: usize|
                j < i ==> #[trigger] nodes@[j as int].node_type != t,
            None => forall|j: usize| j < nodes@.len() ==> #[trigger] nodes@[j as int].node_type != t,
        },
{
    let mut i: usize = 0;
    while i < nodes.len()
        invariant
            i <= nodes@.len(),
            forall|j: usize| j < i ==> #[trigger] nodes@[j as int].node_type != t,
        decreases nodes@.len() - i,
    {
        if nodes[i].node_type == t {
            return Some(i);
        }
        i = i + 1;
    }
    None
}

/// Gives every node its heuristic distance from `target` and its edges: the
/// nodes at the orthogonally neighbouring pixels.
fn connect_nodes(
    nodes: &Vec<Node>,
    lookup: &Vec<Option<usize>>,
    width: u32,
    height: u32,
    target: (u32, u32),
) -> (out: Vec<Node>)
    requires
        lookup@.len() == width as int * height as int,
        forall|x: u32, y: u32|
            #![trigger lookup@[cell(width, x, y)]]
            x < width && y < height && lookup@[cell(width, x, y)] is Some ==> {
                let i = lookup@[cell(width, x, y)]->0;
                &&& i < nodes@.len()
                &&& nodes@[i as int].coords == (x, y)
            },
        forall|i: int|
            0 <= i < nodes@.len() ==> {
                let c = #[trigger] nodes@[i].coords;
                &&& c.0 < width
                &&& c.1 < height
                &&& lookup@[cell(width, c.0, c.1)] == Some(i as usize)
            },
    ensures
        out@.len() == nodes@.len(),
        forall|i: int|
            0 <= i < out@.len() ==> {
                &&& (#[trigger] out@[i]).coords == nodes@[i].coords
                &&& out@[i].color == nodes@[i].color
                &&& out@[i].node_type == nodes@[i].node_type
                &&& out@[i].heuristic == manhattan(nodes@[i].coords, target)
                &&& out@[i].edges@ == present_nodes(lookup@, width, height, neighbours_of(nodes@[i].coords))
            },
        forall|i: int, k: int|
            0 <= i < out@.len() && 0 <= k < out@[i].edges@.len() ==> {
                let j = #[trigger] out@[i].edges@[k];
                &&& j < nodes@.len()
                &&& adjacent(nodes@[i].coords, nodes@[j as int].coords)
            },
        forall|i: int, j: usize|
            0 <= i < out@.len() && j < nodes@.len() && adjacent(nodes@[i].coords, nodes@[j as int].coords)
                ==> #[trigger] out@[i].edges@.contains(j),
{
    let mut out: Vec<Node> = Vec::new();
    let mut i: usize = 0;
    let len = lookup.len();
    while i < nodes.len()
        invariant
            i <= nodes@.len(),
            len == lookup@.len(),
            lookup@.len() == width as int * height as int,
            forall|x: u32, y: u32|
                #![trigger lookup@[cell(width, x, y)]]
                x < width && y < height && lookup@[cell(width, x, y)] is Some ==> {
                    let i = lookup@[cell(width, x, y)]->0;
                    &&& i < nodes@.len()
                    &&& nodes@[i as int].coords == (x, y)
                },
            forall|i: int|
                0 <= i < nodes@.len() ==> {
                    let c = #[trigger] nodes@[i].coords;
                    &&& c.0 < width
                    &&& c.1 < height
                    &&& lookup@[cell(width, c.0, c.1)] == Some(i as usize)
                },
            out@.len() == i,
            forall|i: int|
                0 <= i < out@.len() ==> {
                    &&& (#[trigger] out@[i]).coords == nodes@[i].coords
                    &&& out@[i].color == nodes@[i].color
                    &&& out@[i].node_type == nodes@[i].node_type
                    &&& out@[i].heuristic == manhattan(nodes@[i].coords, target)
                    &&& out@[i].edges@ == present_nodes(lookup@, width, height, neighbours_of(nodes@[i].coords))
                },
            forall|i: int, k: int|
                0 <= i < out@.len() && 0 <= k < out@[i].edges@.len() ==> {
                    let j = #[trigger] out@[i].edges@[k];
                    &&& j < nodes@.len()
                    &&& adjacent(nodes@[i].coords, nodes@[j as int].coords)
                },
            forall|i: int, j: usize|
                0 <= i < out@.len() && j < nodes@.len() && adjacent(
                    nodes@[i].coords,
                    nodes@[j as int].coords,
                ) ==> #[trigger] out@[i].edges@.contains(j),
        decreases nodes@.len() - i,
    {
        let here = nodes[i].coords;
        let around = Node::neighbouring_coords(here);
        let mut edges: Vec<usize> = Vec::new();
        let mut t: usize = 0;
        while t < around.len()
            invariant
                i < nodes@.len(),
                here == nodes@[i as int].coords,
                around@ == neighbours_of(here),
                forall|k: int| 0 <= k < around@.len() ==> adjacent(here, #[trigger] around@[k]),
                t <= around@.len(),
                edges@ == present_nodes(lookup@, width, height, around@.take(t as int)),
                len == lookup@.len(),
                lookup@.len() == width as int * height as int,
                forall|x: u32, y: u32|
                    #![trigger lookup@[cell(width, x, y)]]
                    x < width && y < height && lookup@[cell(width, x, y)] is Some ==> {
                        let i = lookup@[cell(width, x, y)]->0;
                        &&& i < nodes@.len()
                        &&& nodes@[i as int].coords == (x, y)
                    },
                forall|k: int|
                    0 <= k < edges@.len() ==> {
                        let j = #[trigger] edges@[k];
                        &&& j < nodes@.len()
                        &&& adjacent(here, nodes@[j as int].coords)
                    },
                forall|k: int|
                    0 <= k < t ==> {
                        let c = #[trigger] around@[k];
                        c.0 < width && c.1 < height && lookup@[cell(width, c.0, c.1)] is Some
                            ==> edges@.contains(lookup@[cell(width, c.0, c.1)]->0)
                    },
            decreases around@.len() - t,
        {
            let c = around[t];
            let ghost old_edges = edges@;
            proof {
                assert(around@.take(t + 1).drop_last() =~= around@.take(t as int));
                assert(around@.take(t + 1).last() == c);
            }
            if c.0 < width && c.1 < height {
                proof {
                    lemma_cell_bounds(width, height, c.0, c.1);
                }
                let k = c.1 as usize * width as usize + c.0 as usize;
                match lookup[k] {
                    Some(j) => {
                        edges.push(j);
                        proof {
                            assert(edges@[edges@.len() - 1] == j);
                        }
                    },
                    None => {},
                }
            }
            proof {
                assert forall|k: int| 0 <= k < t + 1 implies {
                    let c = #[trigger] around@[k];
                    c.0 < width && c.1 < height && lookup@[cell(width, c.0, c.1)] is Some
                        ==> edges@.contains(lookup@[cell(width, c.0, c.1)]->0)
                } by {
                    if k < t {
                        let c = around@[k];
                        if c.0 < width && c.1 < height && lookup@[cell(width, c.0, c.1)] is Some {
                            let j = lookup@[cell(width, c.0, c.1)]->0;
                            assert(old_edges.contains(j));
                            let m = choose|m: int| 0 <= m < old_edges.len() && old_edges[m] == j;
                            assert(edges@[m] == j);
                        }
                    }
                }
            }
            t = t + 1;
        }
        proof {
            assert forall|j: usize| j < nodes@.len() && adjacent(here, nodes@[j as int].coords) implies edges@.contains(
                j,
            ) by {
                let b = nodes@[j as int].coords;
                lemma_adjacent_listed(here, b);
                let k = choose|k: int| 0 <= k < around@.len() && around@[k] == b;
                assert(around@[k] == b);
            }
        }
        proof {
            assert(around@.take(around@.len() as int) =~= around@);
        }
        let mut node = Node::new(nodes[i].color, here, nodes[i].node_type);
        node.set_heuristic_distance_from(target);
        node.edges = edges;
        let ghost old_out = out@;
        proof {
            assert(node.heuristic == manhattan(nodes@[i as int].coords, target));
            assert(node.color == nodes@[i as int].color);
        }
        out.push(node);
        proof {
            assert forall|i2: int| 0 <= i2 < out@.len() implies {
                &&& (#[trigger] out@[i2]).coords == nodes@[i2].coords
                &&& out@[i2].color == nodes@[i2].color
                &&& out@[i2].node_type == nodes@[i2].node_type
                &&& out@[i2].heuristic == manhattan(nodes@[i2].coords, target)
                &&& out@[i2].edges@ == present_nodes(lookup@, width, height, neighbours_of(nodes@[i2].coords))
            } by {
                if i2 < i {
                    assert(out@[i2] == old_out[i2]);
                }
            }
        }
        i = i + 1;
    }
    out
}

impl Graph {
    /// Builds the graph of a maze from its pixels, given row by row.
    ///
    /// Fails with `MissingGoal` when no pixel has the goal colour, and
    /// otherwise with `MissingStart` when no pixel has the start colour.
    pub fn from_pixels(width: u32, height: u32, pixels: &Vec<Rgb>, palette: &Palette) -> (res: Result<
        Graph,
        Error,
    >)
        requires
            pixels@.len() == width as int * height as int,
        ensures
            res is Ok <==> has_kind(width, height, pixels@, *palette, NodeType::End) && has_kind(
                width,
                height,
                pixels@,
                *palette,
                NodeType::Start,
            ),
            match res {
                Ok(g) => g.built_from(width, height, pixels@, *palette),
                Err(e) => if !has_kind(width, height, pixels@, *palette, NodeType::End) {
                    e == Error::MissingGoal
                } else {
                    e == Error::MissingStart
                },
            },
    {
        let (nodes, lookup) = classify_pixels(width, height, pixels, palette);
        let goal = match find_first(&nodes, NodeType::End) {
            Some(i) => i,
            None => {
                proof {
                    lemma_kind_absent(width, height, pixels@, *palette, nodes@, lookup@, NodeType::End);
                }
                return Err(Error::MissingGoal);
            },
        };
        proof {
            lemma_kind_present(width, height, pixels@, *palette, nodes@, lookup@, NodeType::End, goal);
        }
        let target = nodes[goal].coords;
        let connected = connect_nodes(&nodes, &lookup, width, height, target);
        let start = match find_first(&connected, NodeType::Start) {
            Some(i) => i,
            None => {
                proof {
                    assert forall|j: usize| j < nodes@.len() implies #[trigger] nodes@[j as int].node_type
                        != NodeType::Start by {
                        assert(connected@[j as int].node_type == nodes@[j as int].node_type);
                    }
                    lemma_kind_absent(width, height, pixels@, *palette, nodes@, lookup@, NodeType::Start);
                }
                return Err(Error::MissingStart);
            },
        };
        proof {
            assert(connected@[start as int].node_type == nodes@[start as int].node_type);
            lemma_kind_present(width, height, pixels@, *palette, nodes@, lookup@, NodeType::Start, start);
        }
        let g = Graph { width, height, nodes: connected, lookup, start, goal };
        proof {
            assert forall|i: usize| i < g.n() implies {
                let c = #[trigger] g.coords_of(i);
                &&& c.0 < g.width
                &&& c.1 < g.height
                &&& g.lookup@[cell(g.width, c.0, c.1)] == Some(i)
            } by {
                assert(connected@[i as int].coords == nodes@[i as int].coords);
            }
            assert forall|x: u32, y: u32|
                x < g.width && y < g.height && (#[trigger] g.lookup@[cell(g.width, x, y)]) is Some implies {
                let i = g.lookup@[cell(g.width, x, y)]->0;
                &&& i < g.n()
                &&& g.coords_of(i) == (x, y)
            } by {
                assert(scanned(width, pixels@, *palette, nodes@, lookup@, x, y));
                let i = g.lookup@[cell(g.width, x, y)]->0;
                assert(connected@[i as int].coords == nodes@[i as int].coords);
            }
            assert forall|i: usize, k: int| i < g.n() && 0 <= k < g.nodes@[i as int].edges@.len() implies {
                let j = #[trigger] g.nodes@[i as int].edges@[k];
                &&& j < g.n()
                &&& adjacent(g.coords_of(i), g.coords_of(j))
            } by {
                let j = g.nodes@[i as int].edges@[k];
                assert(connected@[i as int].coords == nodes@[i as int].coords);
                assert(connected@[j as int].coords == nodes@[j as int].coords);
            }
            assert forall|i: usize, j: usize|
                i < g.n() && j < g.n() && adjacent(g.coords_of(i), g.coords_of(j)) implies #[trigger] g.adj(
                i,
                j,
            ) by {
                assert(connected@[i as int].coords == nodes@[i as int].coords);
                assert(connected@[j as int].coords == nodes@[j as int].coords);
                assert(connected@[i as int].edges@.contains(j));
            }
            assert forall|i: usize| i < g.n() implies #[trigger] g.heur(i) == manhattan(
                g.coords_of(i),
                g.coords_of(g.goal),
            ) by {
                assert(connected@[i as int].coords == nodes@[i as int].coords);
                assert(connected@[goal as int].coords == nodes@[goal as int].coords);
            }
            assert forall|x: u32, y: u32|
                #![trigger g.lookup@[cell(width, x, y)]]
                x < width && y < height implies {
                let k = cell(width, x, y);
                &&& (g.lookup@[k] is Some) == (classify(pixels@[k], *palette) != NodeType::Wall)
                &&& g.lookup@[k] is Some ==> {
                    let n = g.nodes@[g.lookup@[k]->0 as int];
                    &&& n.color == pixels@[k]
                    &&& n.node_type == classify(pixels@[k], *palette)
                }
            } by {
                assert(scanned(width, pixels@, *palette, nodes@, lookup@, x, y));
                let k = cell(width, x, y);
                if lookup@[k] is Some {
                    let i = lookup@[k]->0;
                    assert(connected@[i as int].color == nodes@[i as int].color);
                }
            }
            assert forall|i: usize| i < g.goal implies #[trigger] g.nodes@[i as int].node_type != NodeType::End by {
                assert(connected@[i as int].node_type == nodes@[i as int].node_type);
            }
        }
        Ok(g)
    }
}

/// With no node of kind `t`, no pixel is of kind `t`, walls aside.
proof fn lemma_kind_absent(
    width: u32,
    height: u32,
    pixels: Seq<Rgb>,
    palette: Palette,
    nodes: Seq<Node>,
    lookup: Seq<Option<usize>>,
    t: NodeType,
)
    requires
        t != NodeType::Wall,
        forall|x: u32, y: u32|
            #![trigger cell(width, x, y)]
            x < width && y < height ==> scanned(width, pixels, palette, nodes, lookup, x, y),
        forall|j: usize| j < nodes.len() ==> #[trigger] nodes[j as int].node_type != t,
    ensures
        !has_kind(width, height, pixels, palette, t),
{
    if has_kind(width, height, pixels, palette, t) {
        let (x, y) = choose|x: u32, y: u32|
            x < width && y < height && #[trigger] classify(pixels[cell(width, x, y)], palette) == t;
        assert(scanned(width, pixels, palette, nodes, lookup, x, y));
        let i = lookup[cell(width, x, y)]->0;
        assert(nodes[i as int].node_type == t);
    }
}

/// A node of kind `t` stands for a pixel of kind `t`.
proof fn lemma_kind_present(
    width: u32,
    height: u32,
    pixels: Seq<Rgb>,
    palette: Palette,
    nodes: Seq<Node>,
    lookup: Seq<Option<usize>>,
    t: NodeType,
    i: usize,
)
    requires
        forall|x: u32, y: u32|
            #![trigger cell(width, x, y)]
            x < width && y < height ==> scanned(width, pixels, palette, nodes, lookup, x, y),
        forall|i: int|
            0 <= i < nodes.len() ==> {
                let c = #[trigger] nodes[i].coords;
                &&& c.0 < width
                &&& c.1 < height
                &&& lookup[cell(width, c.0, c.1)] == Some(i as usize)
            },
        i < nodes.len(),
        nodes[i as int].node_type == t,
    ensures
        has_kind(width, height, pixels, palette, t),
{
    let c = nodes[i as int].coords;
    assert(scanned(width, pixels, palette, nodes, lookup, c.0, c.1));
    assert(classify(pixels[cell(width, c.0, c.1)], palette) == t);
}

/// A well-formed grid graph is fit for every search: Manhattan distance to
/// the goal changes by at most one per step, and scores stay finite.
pub proof fn lemma_wf_searchable(g: &Graph)
    requires
        g.wf(),
    ensures
        g.searchable(),
{
    let w = g.width as int;
    let h = g.height as int;
    let gc = g.coords_of(g.goal);
    assert forall|u: usize, k: int| u < g.n() && 0 <= k < g.nodes@[u as int].edges@.len() implies #[trigger] g.nodes@[
        u as int].edges@[k] < g.n() by {}
    assert forall|u: usize, v: usize| u < g.n() && #[trigger] g.adj(u, v) implies g.heur(u) <= g.heur(v) + 1 by {
        let k = choose|k: int| 0 <= k < g.nodes@[u as int].edges@.len() && g.nodes@[u as int].edges@[k] == v;
        assert(adjacent(g.coords_of(u), g.coords_of(g.nodes@[u as int].edges@[k])));
    }
    assert forall|u: usize| u < g.n() implies #[trigger] g.heur(u) + g.n() + 1 < u64::MAX by {
        let c = g.coords_of(u);
        assert(c.0 < w && c.1 < h);
        assert(gc.0 < w && gc.1 < h);
        assert(g.heur(u) <= (w - 1) + (h - 1));
        assert((w + 1) * (h + 1) <= 0x1_0000_0000 * 0x1_0000_0000) by (nonlinear_arith)
            requires
                0 <= w < 0x1_0000_0000,
                0 <= h < 0x1_0000_0000,
        ;
        assert((w + 1) * (h + 1) == w * h + w + h + 1) by (nonlinear_arith);
    }
}

impl Graph {
    /// Whether pixel `c` has a node.
    pub fn has_node(&self, c: (u32, u32)) -> (res: bool)
        requires
            self.wf(),
        ensures
            res == self.node_at(c) is Some,
    {
        if c.0 < self.width && c.1 < self.height {
            proof {
                lemma_cell_bounds(self.width, self.height, c.0, c.1);
            }
            let cells = self.lookup.len();
            proof {
                assert(cells == self.width as int * self.height as int);
            }
            let k = c.1 as usize * self.width as usize + c.0 as usize;
            self.lookup[k].is_some()
        } else {
            false
        }
    }
}

} // verus!
