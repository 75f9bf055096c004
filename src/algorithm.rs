use vstd::prelude::*;
use vstd::set_lib::{lemma_int_range, lemma_len_subset, set_int_range};

use crate::error::Error;
use crate::graph::{Graph, cell, lemma_wf_searchable};
use crate::node::adjacent;
use crate::best_first::best_first;
use crate::bfs::bfs;
use crate::dfs::dfs;
use crate::search::{shortest_outcome, some_outcome, vec_opt};

verus! {

/// The search strategies on offer.
#[derive(Clone, Copy, Debug, PartialEq, Eq, Structural)]
pub enum Algorithm {
    Dijkstra,
    AStar,
    Dfs,
    Bfs,
}

/// The outcome of a search: the pixels of a route from the root to the goal,
/// in order and both ends included, or the news that there is none.
#[derive(Clone, Debug, PartialEq, Eq)]
pub enum Path {
    NotFound,
    Found(Vec<(u32, u32)>),
}

impl Graph {
    /// `r` leads from `from` to `to` over traversable pixels, one orthogonal
    /// step at a time.
    pub open spec fn is_route(&self, r: Seq<(u32, u32)>, from: (u32, u32), to: (u32, u32)) -> bool {
        &&& r.len() >= 1
        &&& r[0] == from
        &&& r.last() == to
        &&& forall|k: int| 0 <= k < r.len() ==> (#[trigger] self.node_at(r[k])) is Some
        &&& forall|k: int| 0 <= k < r.len() - 1 ==> adjacent(#[trigger] r[k], r[k + 1])
    }

    /// A route from node `root` to the goal.
    pub open spec fn is_goal_route(&self, root: usize, r: Seq<(u32, u32)>) -> bool {
        self.is_route(r, self.coords_of(root), self.coords_of(self.goal))
    }

    /// The goal can be reached from node `root`.
    pub open spec fn reachable(&self, root: usize) -> bool {
        exists|r: Seq<(u32, u32)>| #[trigger] self.is_goal_route(root, r)
    }
}

/// What every algorithm owes: a route to the goal that visits no pixel twice,
/// exactly when a route exists, and, from all but depth-first search, one
/// that no other route undercuts.
pub open spec fn path_ok(alg: Algorithm, g: &Graph, root: usize, p: Path) -> bool {
    match p {
        Path::Found(v) => {
            &&& g.is_goal_route(root, v@)
            &&& v@.no_duplicates()
            &&& v@.len() <= g.width as int * g.height as int
            &&& alg != Algorithm::Dfs ==> forall|r: Seq<(u32, u32)>|
                #[trigger] g.is_goal_route(root, r) ==> v@.len() <= r.len()
        },
        Path::NotFound => !g.reachable(root),
    }
}

/// The pixels of an index walk.
pub open spec fn walk_coords(g: &Graph, w: Seq<usize>) -> Seq<(u32, u32)> {
    w.map_values(|i: usize| g.coords_of(i))
}

/// The nodes of a route.
pub open spec fn route_nodes(g: &Graph, r: Seq<(u32, u32)>) -> Seq<usize> {
    r.map_values(|c: (u32, u32)| g.node_at(c)->0)
}

/// The pixels of a walk from `root` to the goal make a route.
proof fn lemma_walk_is_route(g: &Graph, root: usize, w: Seq<usize>)
    requires
        g.wf(),
        g.is_walk_between(w, root, g.goal),
    ensures
        g.is_goal_route(root, walk_coords(g, w)),
        walk_coords(g, w).len() == w.len(),
{
    let r = walk_coords(g, w);
    assert forall|k: int| 0 <= k < r.len() implies (#[trigger] g.node_at(r[k])) is Some by {
        assert(w[k] < g.n());
        assert(r[k] == g.coords_of(w[k]));
    }
    assert forall|k: int| 0 <= k < r.len() - 1 implies adjacent(#[trigger] r[k], r[k + 1]) by {
        assert(g.adj(w[k], w[k + 1]));
        let u = w[k];
        let e = choose|e: int| 0 <= e < g.nodes@[u as int].edges@.len() && g.nodes@[u as int].edges@[e] == w[k + 1];
        assert(adjacent(g.coords_of(u), g.coords_of(g.nodes@[u as int].edges@[e])));
    }
}

/// The nodes of a route from `root` to the goal make a walk of equal length.
proof fn lemma_route_is_walk(g: &Graph, root: usize, r: Seq<(u32, u32)>)
    requires
        g.wf(),
        root < g.n(),
        g.is_goal_route(root, r),
    ensures
        g.is_walk_between(route_nodes(g, r), root, g.goal),
        route_nodes(g, r).len() == r.len(),
{
    let w = route_nodes(g, r);
    assert forall|k: int| 0 <= k < w.len() implies #[trigger] w[k] < g.n() && g.coords_of(w[k]) == r[k] by {
        assert(g.node_at(r[k]) is Some);
    }
    assert forall|k: int| 0 <= k < w.len() - 1 implies g.adj(#[trigger] w[k], w[k + 1]) by {
        assert(w[k] < g.n() && g.coords_of(w[k]) == r[k]);
        assert(w[k + 1] < g.n() && g.coords_of(w[k + 1]) == r[k + 1]);
        assert(adjacent(r[k], r[k + 1]));
    }
    assert(g.coords_of(w[0]) == g.coords_of(root));
    assert(g.node_at(g.coords_of(root)) == Some(root));
    assert(g.node_at(g.coords_of(g.goal)) == Some(g.goal));
    assert(w[w.len() - 1] == g.node_at(r[r.len() - 1])->0);
}

/// A walk that visits no node twice has no more nodes than the arena.
proof fn lemma_distinct_nodes_bound(g: &Graph, w: Seq<usize>)
    requires
        w.no_duplicates(),
        forall|k: int| 0 <= k < w.len() ==> #[trigger] w[k] < g.n(),
    ensures
        w.len() <= g.n(),
{
    let wi = w.map_values(|x: usize| x as int);
    assert(wi.no_duplicates()) by {
        assert forall|a: int, b: int| 0 <= a < wi.len() && 0 <= b < wi.len() && a != b implies wi[a] != wi[b] by {
            assert(w[a] != w[b]);
        }
    }
    wi.unique_seq_to_set();
    assert(wi.to_set().subset_of(set_int_range(0, g.n() as int))) by {
        assert forall|x: int| wi.to_set().contains(x) implies set_int_range(0, g.n() as int).contains(x) by {
            let k = choose|k: int| 0 <= k < wi.len() && wi[k] == x;
            assert(w[k] < g.n());
        }
    }
    lemma_int_range(0, g.n() as int);
    lemma_len_subset(wi.to_set(), set_int_range(0, g.n() as int));
}

/// Turns the outcome of a search over node indices into a `Path`.
fn to_path(g: &Graph, root: usize, found: Option<Vec<usize>>, Ghost(shortest): Ghost<bool>) -> (p: Path)
    requires
        g.wf(),
        root < g.n(),
        if shortest {
            shortest_outcome(g, root, vec_opt(found))
        } else {
            some_outcome(g, root, vec_opt(found))
        },
    ensures
        match p {
            Path::Found(v) => {
                &&& g.is_goal_route(root, v@)
                &&& v@.no_duplicates()
                &&& v@.len() <= g.width as int * g.height as int
                &&& shortest ==> forall|r: Seq<(u32, u32)>|
                    #[trigger] g.is_goal_route(root, r) ==> v@.len() <= r.len()
            },
            Path::NotFound => !g.reachable(root),
        },
{
    match found {
        Some(w) => {
            let mut v: Vec<(u32, u32)> = Vec::new();
            let mut k: usize = 0;
            while k < w.len()
                invariant
                    k <= w@.len(),
                    g.is_walk(w@),
                    v@ == walk_coords(g, w@).take(k as int),
                decreases w@.len() - k,
            {
                assert(w@[k as int] < g.n());
                v.push(g.nodes[w[k]].coords);
                k = k + 1;
                assert(v@ =~= walk_coords(g, w@).take(k as int));
            }
            proof {
                assert(v@ =~= walk_coords(g, w@));
                lemma_walk_is_route(g, root, w@);
                lemma_distinct_nodes_bound(g, w@);
                assert forall|a: int, b: int| 0 <= a < v@.len() && 0 <= b < v@.len() && a != b implies v@[a]
                    != v@[b] by {
                    assert(w@[a] < g.n() && w@[b] < g.n());
                    assert(w@[a] != w@[b]);
                    assert(g.lookup@[cell(g.width, v@[a].0, v@[a].1)] == Some(w@[a]));
                    assert(g.lookup@[cell(g.width, v@[b].0, v@[b].1)] == Some(w@[b]));
                }
                if shortest {
                    assert forall|r: Seq<(u32, u32)>| #[trigger] g.is_goal_route(root, r) implies v@.len()
                        <= r.len() by {
                        lemma_route_is_walk(g, root, r);
                        assert(g.is_walk_between(route_nodes(g, r), root, g.goal));
                    }
                }
            }
            Path::Found(v)
        },
        None => {
            proof {
                if g.reachable(root) {
                    let r = choose|r: Seq<(u32, u32)>| #[trigger] g.is_goal_route(root, r);
                    lemma_route_is_walk(g, root, r);
                    assert(g.is_walk_between(route_nodes(g, r), root, g.goal));
                }
            }
            Path::NotFound
        },
    }
}

/// Uniform-cost search.
pub fn dijkstra(g: &Graph, root: usize) -> (res: Option<Vec<usize>>)
    requires
        g.searchable(),
        root < g.n(),
    ensures
        shortest_outcome(g, root, vec_opt(res)),
{
    best_first(g, root, false)
}

/// A* search, guided by the Manhattan distance to the goal.
pub fn a_star(g: &Graph, root: usize) -> (res: Option<Vec<usize>>)
    requires
        g.searchable(),
        root < g.n(),
    ensures
        shortest_outcome(g, root, vec_opt(res)),
{
    best_first(g, root, true)
}

impl Algorithm {
    /// Runs the algorithm from node `root` to the goal. When `root` is the
    /// goal, the path is that single pixel.
    pub fn execute(&self, g: &Graph, root: usize) -> (res: Result<Path, Error>)
        requires
            g.wf(),
            root < g.n(),
        ensures
            res is Ok,
            res matches Ok(p) && path_ok(*self, g, root, p),
            root == g.goal ==> (res matches Ok(Path::Found(v)) && v@ == seq![g.coords_of(root)]),
    {
        if root == g.goal {
            let mut v: Vec<(u32, u32)> = Vec::new();
            v.push(g.nodes[root].coords);
            proof {
                assert(g.node_at(g.coords_of(root)) == Some(root));
                assert forall|r: Seq<(u32, u32)>| #[trigger] g.is_goal_route(root, r) implies v@.len() <= r.len() by {}
                assert(v@ =~= seq![g.coords_of(root)]);
            }
            return Ok(Path::Found(v));
        }
        proof {
            lemma_wf_searchable(g);
        }
        let p = match self {
            Algorithm::Dijkstra => to_path(g, root, dijkstra(g, root), Ghost(true)),
            Algorithm::AStar => to_path(g, root, a_star(g, root), Ghost(true)),
            Algorithm::Dfs => to_path(g, root, dfs(g, root), Ghost(false)),
            Algorithm::Bfs => to_path(g, root, bfs(g, root), Ghost(true)),
        };
        Ok(p)
    }
}

} // verus!
