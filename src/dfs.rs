use vstd::prelude::*;

use crate::graph::{Graph, lemma_adj_in_range, lemma_closed_set_holds_walk};
use crate::search::{count_false, filled, lemma_count_false_set, prepare_path, some_outcome, vec_opt};

verus! {

/// The number of entries of `stack` whose node is marked in `seen`.
pub open spec fn seen_entries(stack: Seq<usize>, seen: Seq<bool>) -> nat
    decreases stack.len(),
{
    if stack.len() == 0 {
        0
    } else {
        seen_entries(stack.drop_last(), seen) + if seen[stack.last() as int] {
            1nat
        } else {
            0nat
        }
    }
}

/// The state of a depth-first search: `seen` marks the expanded nodes,
/// `stack` the pending ones, `previous` the node each pending or expanded node
/// was reached from, and `rank` orders each node after the one it was
/// reached from.
pub open spec fn dfs_inv(
    g: &Graph,
    root: usize,
    seen: Seq<bool>,
    previous: Seq<Option<usize>>,
    stack: Seq<usize>,
    rank: Seq<nat>,
    clock: nat,
) -> bool {
    &&& seen.len() == g.n()
    &&& previous.len() == g.n()
    &&& rank.len() == g.n()
    &&& root < g.n()
    &&& !seen[g.goal as int]
    &&& seen[root as int] || stack.contains(root)
    &&& forall|i: int|
        0 <= i < stack.len() ==> #[trigger] stack[i] < g.n() && (stack[i] == root || previous[stack[i] as int] is Some)
    &&& forall|v: usize| v < g.n() && #[trigger] seen[v as int] ==> v == root || previous[v as int] is Some
    &&& forall|v: usize|
        v < g.n() && #[trigger] previous[v as int] is Some ==> {
            &&& previous[v as int]->0 < g.n()
            &&& seen[previous[v as int]->0 as int]
            &&& g.adj(previous[v as int]->0, v)
            &&& rank[previous[v as int]->0 as int] < rank[v as int]
        }
    &&& forall|v: usize| v < g.n() ==> #[trigger] rank[v as int] < clock
}

/// Every neighbour of an expanded node other than `x` is expanded or pending;
/// of `x`, those among its first `e` edges are.
pub open spec fn dfs_closed(g: &Graph, seen: Seq<bool>, stack: Seq<usize>, x: int, e: int) -> bool {
    &&& forall|u: usize, v: usize|
        u < g.n() && seen[u as int] && u != x && #[trigger] g.adj(u, v) ==> seen[v as int]
            || stack.contains(v)
    &&& 0 <= x < g.n() ==> forall|j: int|
        0 <= j < e ==> seen[#[trigger] g.nodes@[x].edges@[j] as int] || stack.contains(
            g.nodes@[x].edges@[j],
        )
}

/// Taking the top node `x` off the stack and expanding it keeps the state,
/// except that the neighbours of `x` are still to be pushed.
proof fn lemma_dfs_pop(
    g: &Graph,
    root: usize,
    seen: Seq<bool>,
    previous: Seq<Option<usize>>,
    stack: Seq<usize>,
    rank: Seq<nat>,
    clock: nat,
)
    requires
        g.searchable(),
        dfs_inv(g, root, seen, previous, stack, rank, clock),
        dfs_closed(g, seen, stack, -1, 0),
        stack.len() > 0,
        stack.last() != g.goal,
    ensures
        dfs_inv(g, root, seen.update(stack.last() as int, true), previous, stack.drop_last(), rank, clock),
        dfs_closed(g, seen.update(stack.last() as int, true), stack.drop_last(), stack.last() as int, 0),
        seen[stack.last() as int] ==> seen.update(stack.last() as int, true) == seen,
        seen[stack.last() as int] ==> seen_entries(stack.drop_last(), seen) + 1 == seen_entries(stack, seen),
        !seen[stack.last() as int] ==> count_false(seen.update(stack.last() as int, true)) + 1 == count_false(seen),
{
    let x = stack.last();
    let s2 = stack.drop_last();
    let seen2 = seen.update(x as int, true);
    assert(stack[stack.len() - 1] == x);
    if seen[x as int] {
        assert(seen2 =~= seen);
    } else {
        lemma_count_false_set(seen, x as int);
    }
    assert forall|v: usize| stack.contains(v) && v != x implies s2.contains(v) by {
        let j = choose|j: int| 0 <= j < stack.len() && stack[j] == v;
        assert(s2[j] == v);
    }
    if !seen2[root as int] {
        assert(stack.contains(root));
    }
    assert forall|i: int| 0 <= i < s2.len() implies #[trigger] s2[i] < g.n() && (s2[i] == root
        || previous[s2[i] as int] is Some) by {
        assert(s2[i] == stack[i]);
    }
    assert forall|v: usize| v < g.n() && #[trigger] seen2[v as int] implies v == root || previous[v as int] is Some by {
        if v == x {
            assert(stack[stack.len() - 1] == x);
        }
    }
    assert forall|v: usize|
        v < g.n() && #[trigger] previous[v as int] is Some implies {
        &&& previous[v as int]->0 < g.n()
        &&& seen2[previous[v as int]->0 as int]
        &&& g.adj(previous[v as int]->0, v)
        &&& rank[previous[v as int]->0 as int] < rank[v as int]
    } by {}
    assert forall|u: usize, v: usize|
        u < g.n() && seen2[u as int] && u != x as int && #[trigger] g.adj(u, v) implies seen2[v as int]
        || s2.contains(v) by {
        assert(seen[u as int]);
        lemma_adj_in_range(g, u, v);
        if !seen[v as int] && v != x {
            assert(stack.contains(v));
            assert(s2.contains(v));
        }
    }
    assert(!seen2[g.goal as int]);
}

/// Pushing the unexpanded neighbour `y` of the node `x` being expanded, with
/// `x` as its predecessor, keeps the state.
proof fn lemma_dfs_push(
    g: &Graph,
    root: usize,
    seen: Seq<bool>,
    previous: Seq<Option<usize>>,
    stack: Seq<usize>,
    rank: Seq<nat>,
    clock: nat,
    x: usize,
    e: int,
)
    requires
        g.searchable(),
        dfs_inv(g, root, seen, previous, stack, rank, clock),
        dfs_closed(g, seen, stack, x as int, e),
        x < g.n(),
        seen[x as int],
        0 <= e < g.nodes@[x as int].edges@.len(),
        !seen[g.nodes@[x as int].edges@[e] as int],
    ensures
        ({
            let y = g.nodes@[x as int].edges@[e];
            let s2 = stack.push(y);
            &&& dfs_inv(g, root, seen, previous.update(y as int, Some(x)), s2, rank.update(y as int, clock), clock + 1)
            &&& dfs_closed(g, seen, s2, x as int, e + 1)
            &&& seen_entries(s2, seen) == seen_entries(stack, seen)
        }),
{
    let y = g.nodes@[x as int].edges@[e];
    let s2 = stack.push(y);
    let prev2 = previous.update(y as int, Some(x));
    let rank2 = rank.update(y as int, clock);
    assert(g.adj(x, y));
    lemma_adj_in_range(g, x, y);
    assert(s2.drop_last() =~= stack);
    assert(s2[s2.len() - 1] == y);
    assert forall|v: usize| stack.contains(v) implies s2.contains(v) by {
        let j = choose|j: int| 0 <= j < stack.len() && stack[j] == v;
        assert(s2[j] == v);
    }
    assert(s2.contains(y));
    assert forall|i: int| 0 <= i < s2.len() implies #[trigger] s2[i] < g.n() && (s2[i] == root
        || prev2[s2[i] as int] is Some) by {
        if i < stack.len() {
            assert(s2[i] == stack[i]);
        }
    }
    assert forall|v: usize|
        v < g.n() && #[trigger] prev2[v as int] is Some implies {
        &&& prev2[v as int]->0 < g.n()
        &&& seen[prev2[v as int]->0 as int]
        &&& g.adj(prev2[v as int]->0, v)
        &&& rank2[prev2[v as int]->0 as int] < rank2[v as int]
    } by {
        if v != y {
            assert(previous[v as int] is Some);
            assert(seen[previous[v as int]->0 as int]);
            assert(previous[v as int]->0 != y);
        } else {
            assert(rank[x as int] < clock);
        }
    }
    assert forall|v: usize| v < g.n() implies #[trigger] rank2[v as int] < clock + 1 by {
        if v != y {
            assert(rank[v as int] < clock);
        }
    }
    assert forall|j: int| 0 <= j < e + 1 implies seen[#[trigger] g.nodes@[x as int].edges@[j] as int]
        || s2.contains(g.nodes@[x as int].edges@[j]) by {}
}

/// Depth-first search from `root`: finds a walk to the goal whenever one
/// exists, though not necessarily a shortest one.
pub fn dfs(g: &Graph, root: usize) -> (res: Option<Vec<usize>>)
    requires
        g.searchable(),
        root < g.n(),
    ensures
        some_outcome(g, root, vec_opt(res)),
{
    let n = g.nodes.len();
    let mut seen = filled(false, n);
    let mut previous: Vec<Option<usize>> = filled(None, n);
    let ghost mut rank: Seq<nat> = Seq::new(n as nat, |i: int| 0nat);
    let ghost mut clock: nat = 1;
    let mut stack: Vec<usize> = Vec::new();
    let mut ending: Option<usize> = None;
    stack.push(root);
    proof {
        assert(stack@[0] == root);
    }
    while stack.len() > 0
        invariant_except_break
            ending is None,
        invariant
            g.searchable(),
            n == g.n(),
            dfs_inv(g, root, seen@, previous@, stack@, rank, clock),
            dfs_closed(g, seen@, stack@, -1, 0),
        ensures
            ending is None ==> stack@.len() == 0,
            ending is Some ==> ending == Some(g.goal) && stack@.len() > 0 && stack@.last() == g.goal,
        decreases count_false(seen@), seen_entries(stack@, seen@),
    {
        let ghost before = stack@;
        let x = stack[stack.len() - 1];
        if x == g.goal {
            ending = Some(x);
            break;
        }
        let _ = stack.pop();
        proof {
            assert(x == before.last());
            assert(stack@ == before.drop_last());
        }
        proof {
            lemma_dfs_pop(g, root, seen@, previous@, before, rank, clock);
        }
        seen.set(x, true);
        let ghost cf = count_false(seen@);
        let ghost se = seen_entries(stack@, seen@);
        let edges = &g.nodes[x].edges;
        let mut e: usize = 0;
        while e < edges.len()
            invariant
                g.searchable(),
                n == g.n(),
                x < n,
                seen@[x as int],
                edges@ == g.nodes@[x as int].edges@,
                e <= edges@.len(),
                dfs_inv(g, root, seen@, previous@, stack@, rank, clock),
                dfs_closed(g, seen@, stack@, x as int, e as int),
                count_false(seen@) == cf,
                seen_entries(stack@, seen@) == se,
            decreases edges@.len() - e,
        {
            let y = edges[e];
            proof {
                assert(g.adj(x, y));
                lemma_adj_in_range(g, x, y);
            }
            if !seen[y] {
                proof {
                    lemma_dfs_push(g, root, seen@, previous@, stack@, rank, clock, x, e as int);
                }
                previous.set(y, Some(x));
                stack.push(y);
                proof {
                    rank = rank.update(y as int, clock);
                    clock = clock + 1;
                }
            }
            e = e + 1;
        }
        proof {
            assert forall|u: usize, v: usize|
                u < g.n() && seen@[u as int] && u != -1int && #[trigger] g.adj(u, v) implies seen@[v as int]
                || stack@.contains(v) by {
                if u == x {
                    let j = choose|j: int| 0 <= j < edges@.len() && edges@[j] == v;
                    assert(seen@[g.nodes@[x as int].edges@[j] as int] || stack@.contains(g.nodes@[x as int].edges@[j]));
                }
            }
        }
    }
    match ending {
        Some(goal) => {
            let ghost tree = Seq::new(n as nat, |v: int| v == root || previous@[v] is Some);
            proof {
                assert forall|v: usize| v < g.n() && #[trigger] tree[v as int] && v != root implies {
                    &&& previous@[v as int] is Some
                    &&& previous@[v as int]->0 < g.n()
                    &&& tree[previous@[v as int]->0 as int]
                    &&& g.adj(previous@[v as int]->0, v)
                    &&& rank[previous@[v as int]->0 as int] < rank[v as int]
                } by {
                    let u = previous@[v as int]->0;
                    assert(seen@[u as int]);
                }
                assert(stack@[stack@.len() - 1] == g.goal);
            }
            let w = prepare_path(g, &previous, root, goal, Ghost(tree), Ghost(rank));
            Some(w)
        },
        None => {
            proof {
                assert forall|q: Seq<usize>| !#[trigger] g.is_walk_between(q, root, g.goal) by {
                    if g.is_walk_between(q, root, g.goal) {
                        let s = |x: usize| x < g.n() && seen@[x as int];
                        assert forall|u: usize, v: usize| u < g.n() && s(u) && #[trigger] g.adj(u, v) implies s(v) by {
                            lemma_adj_in_range(g, u, v);
                            assert(seen@[v as int] || stack@.contains(v));
                        }
                        lemma_closed_set_holds_walk(g, s, q);
                        assert(s(q[q.len() - 1]));
                    }
                }
            }
            None
        },
    }
}

} // verus!
