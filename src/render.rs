use vstd::prelude::*;

use crate::algorithm::Path;
use crate::graph::{Graph, lemma_adjacent_listed};
use crate::node::{Node, adjacent};

verus! {

/// Pixel `c` is marked on account of the `j`-th pixel of route `p`: it is that
/// pixel or, when drawing wide, a traversable pixel next to it.
pub open spec fn marks(g: &Graph, p: Seq<(u32, u32)>, wider: bool, j: int, c: (u32, u32)) -> bool {
    p[j] == c || (wider && adjacent(p[j], c) && g.node_at(c) is Some)
}

/// Pixel `c` is to be drawn in the path colour.
pub open spec fn marked(g: &Graph, p: Seq<(u32, u32)>, wider: bool, c: (u32, u32)) -> bool {
    exists|j: int| 0 <= j < p.len() && #[trigger] marks(g, p, wider, j, c)
}

/// The pixels to recolour for `path`: the route itself and, when `wider`,
/// the traversable pixels next to it. None when no route was found.
pub fn marked_pixels(g: &Graph, path: &Path, wider: bool) -> (out: Vec<(u32, u32)>)
    requires
        g.wf(),
    ensures
        match path {
            Path::Found(p) => forall|c: (u32, u32)| #[trigger] out@.contains(c) <==> marked(g, p@, wider, c),
            Path::NotFound => out@.len() == 0,
        },
{
    let mut out: Vec<(u32, u32)> = Vec::new();
    match path {
        Path::NotFound => {},
        Path::Found(p) => {
            let mut k: usize = 0;
            while k < p.len()
                invariant
                    g.wf(),
                    k <= p@.len(),
                    forall|c: (u32, u32)|
                        #[trigger] out@.contains(c) <==> exists|j: int|
                            0 <= j < k && #[trigger] marks(g, p@, wider, j, c),
                decreases p@.len() - k,
            {
                let here = p[k];
                let ghost before = out@;
                out.push(here);
                proof {
                    assert forall|c: (u32, u32)| #[trigger] out@.contains(c) <==> before.contains(c) || c == here by {
                        if out@.contains(c) && c != here {
                            let m = choose|m: int| 0 <= m < out@.len() && out@[m] == c;
                            assert(before[m] == c);
                        }
                        if before.contains(c) {
                            let m = choose|m: int| 0 <= m < before.len() && before[m] == c;
                            assert(out@[m] == c);
                        }
                        if c == here {
                            assert(out@[out@.len() - 1] == c);
                        }
                    }
                }
                if wider {
                    let around = Node::neighbouring_coords(here);
                    let mut t: usize = 0;
                    while t < around.len()
                        invariant
                            g.wf(),
                            k < p@.len(),
                            here == p@[k as int],
                            wider,
                            around@ == crate::node::neighbours_of(here),
                            forall|i: int| 0 <= i < around@.len() ==> adjacent(here, #[trigger] around@[i]),
                            t <= around@.len(),
                            forall|c: (u32, u32)|
                                #[trigger] out@.contains(c) <==> before.contains(c) || c == here || exists|i: int|
                                    0 <= i < t && around@[i] == c && #[trigger] g.node_at(around@[i]) is Some,
                        decreases around@.len() - t,
                    {
                        let c = around[t];
                        let ghost mid = out@;
                        if g.has_node(c) {
                            out.push(c);
                        }
                        proof {
                            assert forall|d: (u32, u32)| #[trigger] out@.contains(d) <==> before.contains(d)
                                || d == here || exists|i: int|
                                0 <= i < t + 1 && around@[i] == d && #[trigger] g.node_at(around@[i]) is Some by {
                                if out@.contains(d) && !mid.contains(d) {
                                    assert(d == c);
                                    assert(around@[t as int] == d);
                                }
                                if mid.contains(d) {
                                    let m = choose|m: int| 0 <= m < mid.len() && mid[m] == d;
                                    assert(out@[m] == d);
                                }
                                if exists|i: int| 0 <= i < t + 1 && around@[i] == d && #[trigger] g.node_at(around@[i]) is Some {
                                    let i = choose|i: int| 0 <= i < t + 1 && around@[i] == d && #[trigger] g.node_at(around@[i]) is Some;
                                    if i == t {
                                        assert(out@[out@.len() - 1] == d);
                                    } else {
                                        assert(mid.contains(d));
                                    }
                                }
                            }
                        }
                        t = t + 1;
                    }
                    proof {
                        assert forall|c: (u32, u32)| #[trigger] out@.contains(c) <==> exists|j: int|
                            0 <= j < k + 1 && #[trigger] marks(g, p@, wider, j, c) by {
                            if out@.contains(c) {
                                if before.contains(c) {
                                    let j = choose|j: int| 0 <= j < k && #[trigger] marks(g, p@, wider, j, c);
                                } else if c == here {
                                    assert(marks(g, p@, wider, k as int, c));
                                } else {
                                    let i = choose|i: int| 0 <= i < around@.len() && around@[i] == c && #[trigger] g.node_at(around@[i]) is Some;
                                    assert(marks(g, p@, wider, k as int, c));
                                }
                            }
                            if exists|j: int| 0 <= j < k + 1 && #[trigger] marks(g, p@, wider, j, c) {
                                let j = choose|j: int| 0 <= j < k + 1 && #[trigger] marks(g, p@, wider, j, c);
                                if j < k {
                                    assert(before.contains(c));
                                } else if c != here {
                                    lemma_adjacent_listed(here, c);
                                    let i = choose|i: int| 0 <= i < around@.len() && around@[i] == c;
                                    assert(g.node_at(around@[i]) is Some);
                                }
                            }
                        }
                    }
                } else {
                    proof {
                        assert forall|c: (u32, u32)| #[trigger] out@.contains(c) <==> exists|j: int|
                            0 <= j < k + 1 && #[trigger] marks(g, p@, wider, j, c) by {
                            if out@.contains(c) {
                                if c == here {
                                    assert(marks(g, p@, wider, k as int, c));
                                }
                            }
                            if exists|j: int| 0 <= j < k + 1 && #[trigger] marks(g, p@, wider, j, c) {
                                let j = choose|j: int| 0 <= j < k + 1 && #[trigger] marks(g, p@, wider, j, c);
                                if j < k {
                                    assert(before.contains(c));
                                }
                            }
                        }
                    }
                }
                k = k + 1;
            }
        },
    }
    out
}

} // verus!
