use vstd::prelude::*;

use crate::algorithm::{Algorithm, Path, path_ok};
use crate::graph::{Graph, before, cell};
use crate::node::{NodeType, Rgb, adjacent};
use crate::palette::{Palette, classify};

verus! {

/// Every algorithm but depth-first search finds a route exactly when any
/// other of them does, and then routes of the same length: each is a
/// shortest one.
pub proof fn lemma_shortest_lengths_agree(g: &Graph, root: usize)
    requires
        g.wf(),
        root < g.n(),
    ensures
        forall|a: Algorithm, b: Algorithm, p: Path, q: Path|
            a != Algorithm::Dfs && b != Algorithm::Dfs && #[trigger] path_ok(a, g, root, p) && #[trigger] path_ok(
                b,
                g,
                root,
                q,
            ) ==> (p is Found <==> q is Found) && (p matches Path::Found(v) ==> q matches Path::Found(
                w,
            ) && v@.len() == w@.len()),
{
    assert forall|a: Algorithm, b: Algorithm, p: Path, q: Path|
        a != Algorithm::Dfs && b != Algorithm::Dfs && #[trigger] path_ok(a, g, root, p) && #[trigger] path_ok(
            b,
            g,
            root,
            q,
        ) implies (p is Found <==> q is Found) && (p matches Path::Found(v) ==> q matches Path::Found(
        w,
    ) && v@.len() == w@.len()) by {
        if let Path::Found(v) = p {
            assert(g.is_goal_route(root, v@));
        }
        if let Path::Found(w) = q {
            assert(g.is_goal_route(root, w@));
        }
    }
}

/// Depth-first search finds a route exactly when the others do, and its
/// route is never shorter than theirs.
pub proof fn lemma_depth_first_agrees(g: &Graph, root: usize)
    requires
        g.wf(),
        root < g.n(),
    ensures
        forall|a: Algorithm, p: Path, q: Path|
            a != Algorithm::Dfs && #[trigger] path_ok(a, g, root, p) && #[trigger] path_ok(
                Algorithm::Dfs,
                g,
                root,
                q,
            ) ==> (p is Found <==> q is Found) && (p matches Path::Found(v) ==> q matches Path::Found(
                w,
            ) && v@.len() <= w@.len()),
{
    assert forall|a: Algorithm, p: Path, q: Path|
        a != Algorithm::Dfs && #[trigger] path_ok(a, g, root, p) && #[trigger] path_ok(
            Algorithm::Dfs,
            g,
            root,
            q,
        ) implies (p is Found <==> q is Found) && (p matches Path::Found(v) ==> q matches Path::Found(
        w,
    ) && v@.len() <= w@.len()) by {
        if let Path::Found(v) = p {
            assert(g.is_goal_route(root, v@));
        }
        if let Path::Found(w) = q {
            assert(g.is_goal_route(root, w@));
        }
    }
}

/// Two traversable pixels one orthogonal step apart are joined by an edge
/// in each direction.
pub proof fn lemma_adjacency_symmetric(g: &Graph, a: (u32, u32), b: (u32, u32))
    requires
        g.wf(),
        g.node_at(a) is Some,
        g.node_at(b) is Some,
        adjacent(a, b),
    ensures
        g.adj(g.node_at(a)->0, g.node_at(b)->0),
        g.adj(g.node_at(b)->0, g.node_at(a)->0),
{
    let i = g.node_at(a)->0;
    let j = g.node_at(b)->0;
    assert(g.coords_of(i) == a);
    assert(g.coords_of(j) == b);
    assert(adjacent(b, a));
}

/// A root walled in on every side, and not itself the goal, leaves every
/// algorithm without a route.
pub proof fn lemma_enclosed_root_not_found(g: &Graph, root: usize)
    requires
        g.wf(),
        root < g.n(),
        root != g.goal,
        forall|c: (u32, u32)| adjacent(g.coords_of(root), c) ==> #[trigger] g.node_at(c) is None,
    ensures
        forall|a: Algorithm, p: Path| #[trigger] path_ok(a, g, root, p) ==> p is NotFound,
{
    assert(!g.reachable(root)) by {
        if g.reachable(root) {
            let r = choose|r: Seq<(u32, u32)>| #[trigger] g.is_goal_route(root, r);
            assert(g.node_at(g.coords_of(g.goal)) == Some(g.goal));
            assert(g.node_at(g.coords_of(root)) == Some(root));
            assert(r.len() > 1);
            assert(adjacent(r[0], r[1]));
            assert(g.node_at(r[1]) is Some);
        }
    }
    assert forall|a: Algorithm, p: Path| #[trigger] path_ok(a, g, root, p) implies p is NotFound by {
        if let Path::Found(v) = p {
            assert(g.is_goal_route(root, v@));
        }
    }
}

/// The kind of the pixel under node `i`.
proof fn lemma_node_kind(
    g: &Graph,
    width: u32,
    height: u32,
    pixels: Seq<Rgb>,
    palette: Palette,
    i: usize,
)
    requires
        g.built_from(width, height, pixels, palette),
        i < g.n(),
    ensures
        g.coords_of(i).0 < width,
        g.coords_of(i).1 < height,
        classify(pixels[cell(width, g.coords_of(i).0, g.coords_of(i).1)], palette)
            == g.nodes@[i as int].node_type,
{
    let c = g.coords_of(i);
    assert(g.lookup@[cell(width, c.0, c.1)] == Some(i));
}

/// Graphs built from the same pixels put their start at the same pixel.
proof fn lemma_rebuilt_start(
    width: u32,
    height: u32,
    pixels: Seq<Rgb>,
    palette: Palette,
    g1: &Graph,
    g2: &Graph,
)
    requires
        g1.built_from(width, height, pixels, palette),
        g2.built_from(width, height, pixels, palette),
    ensures
        g1.coords_of(g1.start) == g2.coords_of(g2.start),
{
    lemma_node_kind(g1, width, height, pixels, palette, g1.start);
    lemma_node_kind(g2, width, height, pixels, palette, g2.start);
    let (s1, s2) = (g1.coords_of(g1.start), g2.coords_of(g2.start));
    if before(s1.0, s1.1, s2.0, s2.1) {
        assert(classify(pixels[cell(width, s1.0, s1.1)], palette) != NodeType::Start);
    }
    if before(s2.0, s2.1, s1.0, s1.1) {
        assert(classify(pixels[cell(width, s2.0, s2.1)], palette) != NodeType::Start);
    }
}

/// Graphs built from the same pixels put their goal at the same pixel.
proof fn lemma_rebuilt_goal(
    width: u32,
    height: u32,
    pixels: Seq<Rgb>,
    palette: Palette,
    g1: &Graph,
    g2: &Graph,
)
    requires
        g1.built_from(width, height, pixels, palette),
        g2.built_from(width, height, pixels, palette),
    ensures
        g1.coords_of(g1.goal) == g2.coords_of(g2.goal),
{
    lemma_node_kind(g1, width, height, pixels, palette, g1.goal);
    lemma_node_kind(g2, width, height, pixels, palette, g2.goal);
    let (t1, t2) = (g1.coords_of(g1.goal), g2.coords_of(g2.goal));
    if before(t1.0, t1.1, t2.0, t2.1) {
        assert(classify(pixels[cell(width, t1.0, t1.1)], palette) != NodeType::End);
    }
    if before(t2.0, t2.1, t1.0, t1.1) {
        assert(classify(pixels[cell(width, t2.0, t2.1)], palette) != NodeType::End);
    }
}

/// Graphs built from the same pixels have the same traversable pixels.
proof fn lemma_rebuilt_open(
    width: u32,
    height: u32,
    pixels: Seq<Rgb>,
    palette: Palette,
    g1: &Graph,
    g2: &Graph,
)
    requires
        g1.built_from(width, height, pixels, palette),
        g2.built_from(width, height, pixels, palette),
    ensures
        forall|c: (u32, u32)| (#[trigger] g1.node_at(c) is Some) <==> g2.node_at(c) is Some,
{
    assert forall|c: (u32, u32)| (#[trigger] g1.node_at(c) is Some) <==> g2.node_at(c) is Some by {
        if c.0 < width && c.1 < height {
            assert(g1.lookup@[cell(width, c.0, c.1)] is Some <==> g2.lookup@[cell(width, c.0, c.1)] is Some);
        }
    }
}

/// A route over one graph is a route over another with the same traversable
/// pixels and the same ends.
proof fn lemma_same_shape_same_route(g1: &Graph, r1: usize, g2: &Graph, r2: usize, r: Seq<(u32, u32)>)
    requires
        g1.width == g2.width,
        g1.height == g2.height,
        g1.coords_of(r1) == g2.coords_of(r2),
        g1.coords_of(g1.goal) == g2.coords_of(g2.goal),
        forall|c: (u32, u32)| (#[trigger] g1.node_at(c) is Some) <==> g2.node_at(c) is Some,
    ensures
        g1.is_goal_route(r1, r) <==> g2.is_goal_route(r2, r),
{
    if g1.is_goal_route(r1, r) {
        assert forall|k: int| 0 <= k < r.len() implies (#[trigger] g2.node_at(r[k])) is Some by {
            assert(g1.node_at(r[k]) is Some);
        }
    }
    if g2.is_goal_route(r2, r) {
        assert forall|k: int| 0 <= k < r.len() implies (#[trigger] g1.node_at(r[k])) is Some by {
            assert(g2.node_at(r[k]) is Some);
        }
    }
}

/// An outcome owed on one graph is owed on another with the same traversable
/// pixels and the same ends.
proof fn lemma_outcome_transfers(g1: &Graph, r1: usize, g2: &Graph, r2: usize, alg: Algorithm, p: Path)
    requires
        g1.width == g2.width,
        g1.height == g2.height,
        g1.coords_of(r1) == g2.coords_of(r2),
        g1.coords_of(g1.goal) == g2.coords_of(g2.goal),
        forall|c: (u32, u32)| (#[trigger] g1.node_at(c) is Some) <==> g2.node_at(c) is Some,
        path_ok(alg, g1, r1, p),
    ensures
        path_ok(alg, g2, r2, p),
{
    match p {
        Path::Found(v) => {
            lemma_same_shape_same_route(g1, r1, g2, r2, v@);
            if alg != Algorithm::Dfs {
                assert forall|r: Seq<(u32, u32)>| #[trigger] g2.is_goal_route(r2, r) implies v@.len() <= r.len() by {
                    lemma_same_shape_same_route(g1, r1, g2, r2, r);
                }
            }
        },
        Path::NotFound => {
            if g2.reachable(r2) {
                let r = choose|r: Seq<(u32, u32)>| #[trigger] g2.is_goal_route(r2, r);
                lemma_same_shape_same_route(g1, r1, g2, r2, r);
            }
        },
    }
}

/// Routes, and so the outcomes every algorithm owes, depend only on the
/// traversable pixels and on the pixels of the root and the goal.
proof fn lemma_same_shape_same_outcomes(g1: &Graph, r1: usize, g2: &Graph, r2: usize)
    requires
        g1.width == g2.width,
        g1.height == g2.height,
        g1.coords_of(r1) == g2.coords_of(r2),
        g1.coords_of(g1.goal) == g2.coords_of(g2.goal),
        forall|c: (u32, u32)| (#[trigger] g1.node_at(c) is Some) <==> g2.node_at(c) is Some,
    ensures
        forall|alg: Algorithm, p: Path| #[trigger] path_ok(alg, g1, r1, p) <==> path_ok(alg, g2, r2, p),
{
    assert forall|alg: Algorithm, p: Path| #[trigger] path_ok(alg, g1, r1, p) <==> path_ok(alg, g2, r2, p) by {
        if path_ok(alg, g1, r1, p) {
            lemma_outcome_transfers(g1, r1, g2, r2, alg, p);
        }
        if path_ok(alg, g2, r2, p) {
            lemma_outcome_transfers(g2, r2, g1, r1, alg, p);
        }
    }
}

/// Two graphs built from the same pixels and palette have their start and
/// goal at the same pixels and the same traversable pixels, so every
/// algorithm owes the same outcomes on both.
pub proof fn lemma_rebuilt_graph_same_outcomes(
    width: u32,
    height: u32,
    pixels: Seq<Rgb>,
    palette: Palette,
    g1: &Graph,
    g2: &Graph,
)
    requires
        g1.built_from(width, height, pixels, palette),
        g2.built_from(width, height, pixels, palette),
    ensures
        g1.coords_of(g1.start) == g2.coords_of(g2.start),
        g1.coords_of(g1.goal) == g2.coords_of(g2.goal),
        forall|c: (u32, u32)| (#[trigger] g1.node_at(c) is Some) <==> g2.node_at(c) is Some,
        forall|alg: Algorithm, p: Path|
            #[trigger] path_ok(alg, g1, g1.start, p) <==> path_ok(alg, g2, g2.start, p),
{
    lemma_rebuilt_start(width, height, pixels, palette, g1, g2);
    lemma_rebuilt_goal(width, height, pixels, palette, g1, g2);
    lemma_rebuilt_open(width, height, pixels, palette, g1, g2);
    lemma_same_shape_same_outcomes(g1, g1.start, g2, g2.start);
}

/// On two graphs built from the same pixels, the algorithms other than
/// depth-first search find routes of one length, and depth-first search finds
/// a route exactly when they do, never a shorter one.
pub proof fn lemma_rebuilt_graph_lengths_agree(
    width: u32,
    height: u32,
    pixels: Seq<Rgb>,
    palette: Palette,
    g1: &Graph,
    g2: &Graph,
)
    requires
        g1.built_from(width, height, pixels, palette),
        g2.built_from(width, height, pixels, palette),
    ensures
        forall|a: Algorithm, b: Algorithm, p: Path, q: Path|
            a != Algorithm::Dfs && b != Algorithm::Dfs && #[trigger] path_ok(a, g1, g1.start, p) && #[trigger] path_ok(
                b,
                g2,
                g2.start,
                q,
            ) ==> (p is Found <==> q is Found) && (p matches Path::Found(v) ==> q matches Path::Found(
                w,
            ) && v@.len() == w@.len()),
        forall|a: Algorithm, p: Path, q: Path|
            a != Algorithm::Dfs && #[trigger] path_ok(a, g1, g1.start, p) && #[trigger] path_ok(
                Algorithm::Dfs,
                g2,
                g2.start,
                q,
            ) ==> (p is Found <==> q is Found) && (p matches Path::Found(v) ==> q matches Path::Found(
                w,
            ) && v@.len() <= w@.len()),
{
    lemma_rebuilt_graph_same_outcomes(width, height, pixels, palette, g1, g2);
    lemma_shortest_lengths_agree(g1, g1.start);
    lemma_depth_first_agrees(g1, g1.start);
    assert forall|a: Algorithm, b: Algorithm, p: Path, q: Path|
        a != Algorithm::Dfs && b != Algorithm::Dfs && #[trigger] path_ok(a, g1, g1.start, p) && #[trigger] path_ok(
            b,
            g2,
            g2.start,
            q,
        ) implies (p is Found <==> q is Found) && (p matches Path::Found(v) ==> q matches Path::Found(
        w,
    ) && v@.len() == w@.len()) by {
        assert(path_ok(b, g1, g1.start, q));
    }
    assert forall|a: Algorithm, p: Path, q: Path|
        a != Algorithm::Dfs && #[trigger] path_ok(a, g1, g1.start, p) && #[trigger] path_ok(
            Algorithm::Dfs,
            g2,
            g2.start,
            q,
        ) implies (p is Found <==> q is Found) && (p matches Path::Found(v) ==> q matches Path::Found(
        w,
    ) && v@.len() <= w@.len()) by {
        assert(path_ok(Algorithm::Dfs, g1, g1.start, q));
    }
}

} // verus!
