use vstd::prelude::*;

use crate::graph::{Graph, lemma_adj_in_range, lemma_closed_set_holds_walk};
use crate::search::{
    count_false, filled, lemma_count_false_bound, lemma_count_false_set, prepare_path, shortest_outcome, vec_opt,
};

verus! {

/// The heuristic that orders a best-first search: the graph's own for A*,
/// none for uniform-cost search.
pub open spec fn hval(g: &Graph, weighted: bool, v: usize) -> nat {
    if weighted {
        g.heur(v)
    } else {
        0
    }
}

/// The estimated total cost of node `v` under the scores `gs`.
pub open spec fn fval(g: &Graph, weighted: bool, gs: Seq<u64>, v: usize) -> nat {
    gs[v as int] as nat + hval(g, weighted, v)
}

/// The state of a best-first search: `seen` marks the settled nodes, `gs` the
/// best known cost from the root (`u64::MAX` while unknown) and `frontier` the
/// pending entries, each a node with the estimate it was queued under.
pub open spec fn best_first_inv(
    g: &Graph,
    root: usize,
    weighted: bool,
    seen: Seq<bool>,
    gs: Seq<u64>,
    previous: Seq<Option<usize>>,
    frontier: Seq<(usize, u64)>,
) -> bool {
    &&& seen.len() == g.n()
    &&& gs.len() == g.n()
    &&& previous.len() == g.n()
    &&& root < g.n()
    &&& gs[root as int] == 0
    &&& !seen[g.goal as int]
    &&& forall|i: int|
        0 <= i < frontier.len() ==> #[trigger] frontier[i].0 < g.n() && gs[frontier[i].0 as int]
            < u64::MAX && fval(g, weighted, gs, frontier[i].0) <= frontier[i].1
    &&& forall|v: usize|
        v < g.n() && #[trigger] gs[v as int] < u64::MAX && !seen[v as int] ==> frontier.contains(
            (v, fval(g, weighted, gs, v) as u64),
        )
    &&& forall|v: usize|
        v < g.n() && gs[v as int] < u64::MAX && v != root ==> {
            &&& #[trigger] previous[v as int] is Some
            &&& previous[v as int]->0 < g.n()
            &&& seen[previous[v as int]->0 as int]
            &&& gs[previous[v as int]->0 as int] < u64::MAX
            &&& g.adj(previous[v as int]->0, v)
            &&& gs[v as int] == gs[previous[v as int]->0 as int] + 1
        }
    &&& forall|v: usize| v < g.n() && #[trigger] seen[v as int] ==> gs[v as int] < u64::MAX
    &&& forall|v: usize, i: int|
        v < g.n() && #[trigger] seen[v as int] && 0 <= i < frontier.len() ==> fval(g, weighted, gs, v)
            <= #[trigger] frontier[i].1
    &&& forall|v: usize|
        v < g.n() && #[trigger] gs[v as int] < u64::MAX ==> gs[v as int] + count_false(seen) <= g.n()
}

/// Every neighbour of a settled node other than `except` costs at most one
/// more than it.
pub open spec fn settled_closed(g: &Graph, seen: Seq<bool>, gs: Seq<u64>, except: int) -> bool {
    forall|u: usize, v: usize|
        u < g.n() && seen[u as int] && u != except && #[trigger] g.adj(u, v) ==> gs[v as int]
            <= gs[u as int] + 1
}

/// The index of the first entry with the smallest estimate.
fn min_entry(frontier: &Vec<(usize, u64)>) -> (k: usize)
    requires
        frontier@.len() > 0,
    ensures
        k < frontier@.len(),
        forall|i: int| 0 <= i < frontier@.len() ==> frontier@[k as int].1 <= #[trigger] frontier@[i].1,
        forall|i: int| 0 <= i < k ==> frontier@[k as int].1 < #[trigger] frontier@[i].1,
{
    let mut k: usize = 0;
    let mut i: usize = 1;
    while i < frontier.len()
        invariant
            0 < i <= frontier@.len(),
            k < i,
            forall|j: int| 0 <= j < i ==> frontier@[k as int].1 <= #[trigger] frontier@[j].1,
            forall|j: int| 0 <= j < k ==> frontier@[k as int].1 < #[trigger] frontier@[j].1,
        decreases frontier@.len() - i,
    {
        if frontier[i].1 < frontier[k].1 {
            k = i;
        }
        i = i + 1;
    }
    k
}

/// An entry that is not the one removed stays in the sequence.
proof fn lemma_remove_keeps<A>(s: Seq<A>, k: int, a: A)
    requires
        0 <= k < s.len(),
        s.contains(a),
        s[k] != a,
    ensures
        s.remove(k).contains(a),
{
    let j = choose|j: int| 0 <= j < s.len() && s[j] == a;
    if j < k {
        assert(s.remove(k)[j] == a);
    } else {
        assert(s.remove(k)[j - 1] == a);
    }
}

/// When the goal's entry is the smallest in the frontier, no walk from the
/// root reaches any node `w[j]` both cheaply and with a small estimate.
proof fn lemma_best_first_bound(
    g: &Graph,
    root: usize,
    weighted: bool,
    seen: Seq<bool>,
    gs: Seq<u64>,
    previous: Seq<Option<usize>>,
    frontier: Seq<(usize, u64)>,
    m: u64,
    w: Seq<usize>,
    j: int,
)
    requires
        g.searchable(),
        best_first_inv(g, root, weighted, seen, gs, previous, frontier),
        settled_closed(g, seen, gs, -1),
        forall|i: int| 0 <= i < frontier.len() ==> m <= #[trigger] frontier[i].1,
        g.is_walk(w),
        w[0] == root,
        0 <= j < w.len(),
    ensures
        gs[w[j] as int] <= j || j + hval(g, weighted, w[j]) >= m,
    decreases j,
{
    if j > 0 {
        lemma_best_first_bound(g, root, weighted, seen, gs, previous, frontier, m, w, j - 1);
        let u = w[j - 1];
        let v = w[j];
        assert(u < g.n());
        assert(g.adj(w[j - 1], w[j]));
        assert(hval(g, weighted, u) <= hval(g, weighted, v) + 1);
        if j - 1 + hval(g, weighted, u) < m {
            assert(gs[u as int] < u64::MAX);
            if !seen[u as int] {
                let e = (u, fval(g, weighted, gs, u) as u64);
                assert(frontier.contains(e));
                let i = choose|i: int| 0 <= i < frontier.len() && frontier[i] == e;
                assert(m <= frontier[i].1);
            }
        }
    }
}

/// Taking entry `k` off the frontier and settling its node, which is not the
/// goal and whose estimate is the smallest, keeps the state, except that the
/// node's own neighbours are still to be relaxed.
proof fn lemma_best_first_settle(
    g: &Graph,
    root: usize,
    weighted: bool,
    seen: Seq<bool>,
    gs: Seq<u64>,
    previous: Seq<Option<usize>>,
    frontier: Seq<(usize, u64)>,
    k: int,
)
    requires
        g.searchable(),
        best_first_inv(g, root, weighted, seen, gs, previous, frontier),
        settled_closed(g, seen, gs, -1),
        0 <= k < frontier.len(),
        forall|i: int| 0 <= i < frontier.len() ==> frontier[k].1 <= #[trigger] frontier[i].1,
        !seen[frontier[k].0 as int],
        frontier[k].0 != g.goal,
    ensures
        best_first_inv(
            g,
            root,
            weighted,
            seen.update(frontier[k].0 as int, true),
            gs,
            previous,
            frontier.remove(k),
        ),
        settled_closed(g, seen.update(frontier[k].0 as int, true), gs, frontier[k].0 as int),
        fval(g, weighted, gs, frontier[k].0) == frontier[k].1,
        count_false(seen.update(frontier[k].0 as int, true)) + 1 == count_false(seen),
        gs[frontier[k].0 as int] + 1 + count_false(seen.update(frontier[k].0 as int, true)) <= g.n(),
        forall|v: usize|
            v < g.n() && #[trigger] seen.update(frontier[k].0 as int, true)[v as int] ==> fval(
                g,
                weighted,
                gs,
                v,
            ) <= frontier[k].1,
{
    let x = frontier[k].0;
    let m = frontier[k].1;
    let seen2 = seen.update(x as int, true);
    let f2 = frontier.remove(k);
    lemma_count_false_set(seen, x as int);
    let ex = (x, fval(g, weighted, gs, x) as u64);
    assert(frontier.contains(ex));
    let ix = choose|i: int| 0 <= i < frontier.len() && frontier[i] == ex;
    assert(m <= frontier[ix].1);
    assert forall|i: int| 0 <= i < f2.len() implies #[trigger] f2[i].0 < g.n() && gs[f2[i].0 as int]
        < u64::MAX && fval(g, weighted, gs, f2[i].0) <= f2[i].1 by {
        if i < k {
            assert(f2[i] == frontier[i]);
        } else {
            assert(f2[i] == frontier[i + 1]);
        }
    }
    assert forall|v: usize|
        v < g.n() && #[trigger] gs[v as int] < u64::MAX && !seen2[v as int] implies f2.contains(
        (v, fval(g, weighted, gs, v) as u64),
    ) by {
        lemma_remove_keeps(frontier, k, (v, fval(g, weighted, gs, v) as u64));
    }
    assert forall|v: usize, i: int|
        v < g.n() && #[trigger] seen2[v as int] && 0 <= i < f2.len() implies fval(g, weighted, gs, v)
        <= #[trigger] f2[i].1 by {
        let j = if i < k { i } else { i + 1 };
        assert(f2[i] == frontier[j]);
        if v != x {
            assert(seen[v as int]);
            assert(fval(g, weighted, gs, v) <= frontier[j].1);
        }
    }
    assert forall|v: usize|
        v < g.n() && gs[v as int] < u64::MAX && v != root implies {
        &&& #[trigger] previous[v as int] is Some
        &&& previous[v as int]->0 < g.n()
        &&& seen2[previous[v as int]->0 as int]
        &&& gs[previous[v as int]->0 as int] < u64::MAX
        &&& g.adj(previous[v as int]->0, v)
        &&& gs[v as int] == gs[previous[v as int]->0 as int] + 1
    } by {}
    assert forall|v: usize| v < g.n() && #[trigger] seen2[v as int] implies gs[v as int] < u64::MAX by {
        if v != x {
            assert(seen[v as int]);
        }
    }
    assert forall|v: usize| v < g.n() && #[trigger] seen2[v as int] implies fval(g, weighted, gs, v) <= m by {
        if v != x {
            assert(seen[v as int]);
            assert(fval(g, weighted, gs, v) <= frontier[k].1);
        }
    }
    assert forall|v: usize|
        v < g.n() && #[trigger] gs[v as int] < u64::MAX implies gs[v as int] + count_false(seen2)
        <= g.n() by {}
    assert forall|u: usize, v: usize|
        u < g.n() && seen2[u as int] && u != x as int && #[trigger] g.adj(u, v) implies gs[v as int]
        <= gs[u as int] + 1 by {
        assert(seen[u as int]);
    }
}

/// Relaxing the edge from the node `x` being expanded to `y` keeps the state.
proof fn lemma_best_first_relax(
    g: &Graph,
    root: usize,
    weighted: bool,
    seen: Seq<bool>,
    gs: Seq<u64>,
    previous: Seq<Option<usize>>,
    frontier: Seq<(usize, u64)>,
    x: usize,
    y: usize,
    m: nat,
)
    requires
        g.searchable(),
        best_first_inv(g, root, weighted, seen, gs, previous, frontier),
        settled_closed(g, seen, gs, x as int),
        x < g.n(),
        seen[x as int],
        fval(g, weighted, gs, x) == m,
        forall|i: int| 0 <= i < frontier.len() ==> m <= #[trigger] frontier[i].1,
        forall|v: usize| v < g.n() && #[trigger] seen[v as int] ==> fval(g, weighted, gs, v) <= m,
        gs[x as int] + 1 + count_false(seen) <= g.n(),
        g.adj(x, y),
        gs[x as int] + 1 < gs[y as int],
    ensures
        y < g.n(),
        !seen[y as int],
        gs[x as int] + 1 + hval(g, weighted, y) < u64::MAX,
        ({
            let c = (gs[x as int] + 1) as u64;
            let gs2 = gs.update(y as int, c);
            let f2 = frontier.push((y, (c + hval(g, weighted, y)) as u64));
            &&& best_first_inv(g, root, weighted, seen, gs2, previous.update(y as int, Some(x)), f2)
            &&& settled_closed(g, seen, gs2, x as int)
            &&& fval(g, weighted, gs2, x) == m
            &&& forall|i: int| 0 <= i < f2.len() ==> m <= #[trigger] f2[i].1
            &&& forall|v: usize| v < g.n() && #[trigger] seen[v as int] ==> fval(g, weighted, gs2, v) <= m
            &&& gs2[x as int] == gs[x as int]
        }),
{
    lemma_adj_in_range(g, x, y);
    let c = (gs[x as int] + 1) as u64;
    let gs2 = gs.update(y as int, c);
    let prev2 = previous.update(y as int, Some(x));
    let e = (y, (c + hval(g, weighted, y)) as u64);
    let f2 = frontier.push(e);
    assert(hval(g, weighted, x) <= hval(g, weighted, y) + 1);
    assert(gs[x as int] + count_false(seen) <= g.n());
    assert(hval(g, weighted, y) + g.n() < u64::MAX) by {
        if weighted {
            assert(g.heur(y) + g.n() < u64::MAX);
        }
    }
    if seen[y as int] {
        assert(false);
    }
    assert forall|i: int| 0 <= i < f2.len() implies #[trigger] f2[i].0 < g.n() && gs2[f2[i].0 as int]
        < u64::MAX && fval(g, weighted, gs2, f2[i].0) <= f2[i].1 by {
        if i < frontier.len() {
            assert(f2[i] == frontier[i]);
        }
    }
    assert forall|v: usize|
        v < g.n() && #[trigger] gs2[v as int] < u64::MAX && !seen[v as int] implies f2.contains(
        (v, fval(g, weighted, gs2, v) as u64),
    ) by {
        if v == y {
            assert(f2[frontier.len() as int] == e);
        } else {
            let j = choose|j: int|
                0 <= j < frontier.len() && frontier[j] == (v, fval(g, weighted, gs, v) as u64);
            assert(f2[j] == frontier[j]);
        }
    }
    assert forall|v: usize|
        v < g.n() && gs2[v as int] < u64::MAX && v != root implies {
        &&& #[trigger] prev2[v as int] is Some
        &&& prev2[v as int]->0 < g.n()
        &&& seen[prev2[v as int]->0 as int]
        &&& gs2[prev2[v as int]->0 as int] < u64::MAX
        &&& g.adj(prev2[v as int]->0, v)
        &&& gs2[v as int] == gs2[prev2[v as int]->0 as int] + 1
    } by {
        if v != y {
            assert(gs[v as int] < u64::MAX);
            assert(seen[previous[v as int]->0 as int]);
        }
    }
    assert forall|v: usize| v < g.n() && #[trigger] seen[v as int] implies gs2[v as int] < u64::MAX by {}
    assert forall|v: usize, i: int|
        v < g.n() && #[trigger] seen[v as int] && 0 <= i < f2.len() implies fval(g, weighted, gs2, v)
        <= #[trigger] f2[i].1 by {
        assert(v != y);
        if i < frontier.len() {
            assert(f2[i] == frontier[i]);
        }
    }
    assert forall|v: usize|
        v < g.n() && #[trigger] gs2[v as int] < u64::MAX implies gs2[v as int] + count_false(seen)
        <= g.n() by {}
    assert forall|u: usize, v: usize|
        u < g.n() && seen[u as int] && u != x as int && #[trigger] g.adj(u, v) implies gs2[v as int]
        <= gs2[u as int] + 1 by {
        assert(u != y);
    }
}

/// Dropping an entry whose node is already settled keeps the state.
proof fn lemma_best_first_drop(
    g: &Graph,
    root: usize,
    weighted: bool,
    seen: Seq<bool>,
    gs: Seq<u64>,
    previous: Seq<Option<usize>>,
    frontier: Seq<(usize, u64)>,
    k: int,
)
    requires
        best_first_inv(g, root, weighted, seen, gs, previous, frontier),
        0 <= k < frontier.len(),
        seen[frontier[k].0 as int],
    ensures
        best_first_inv(g, root, weighted, seen, gs, previous, frontier.remove(k)),
{
    let f2 = frontier.remove(k);
    assert forall|i: int| 0 <= i < f2.len() implies #[trigger] f2[i].0 < g.n() && gs[f2[i].0 as int]
        < u64::MAX && fval(g, weighted, gs, f2[i].0) <= f2[i].1 by {
        if i < k {
            assert(f2[i] == frontier[i]);
        } else {
            assert(f2[i] == frontier[i + 1]);
        }
    }
    assert forall|v: usize|
        v < g.n() && #[trigger] gs[v as int] < u64::MAX && !seen[v as int] implies f2.contains(
        (v, fval(g, weighted, gs, v) as u64),
    ) by {
        lemma_remove_keeps(frontier, k, (v, fval(g, weighted, gs, v) as u64));
    }
    assert forall|v: usize, i: int|
        v < g.n() && #[trigger] seen[v as int] && 0 <= i < f2.len() implies fval(g, weighted, gs, v)
        <= #[trigger] f2[i].1 by {
        let j = if i < k { i } else { i + 1 };
        assert(f2[i] == frontier[j]);
    }
}

/// Best-first search from `root`, ordered by cost so far plus, when
/// `weighted`, the graph's heuristic. The first time the goal leaves the
/// frontier, its cost is the shortest possible.
pub fn best_first(g: &Graph, root: usize, weighted: bool) -> (res: Option<Vec<usize>>)
    requires
        g.searchable(),
        root < g.n(),
    ensures
        shortest_outcome(g, root, vec_opt(res)),
{
    let n = g.nodes.len();
    let mut seen = filled(false, n);
    let mut gs = filled(u64::MAX, n);
    let mut previous: Vec<Option<usize>> = filled(None, n);
    gs.set(root, 0);
    let mut frontier: Vec<(usize, u64)> = Vec::new();
    let h_root: u64 = if weighted {
        g.nodes[root].heuristic
    } else {
        0
    };
    frontier.push((root, h_root));
    let mut ending: Option<usize> = None;
    let ghost mut m: u64 = 0;
    proof {
        assert(frontier@[0] == (root, fval(g, weighted, gs@, root) as u64));
        assert(count_false(seen@) <= n) by {
            lemma_count_false_bound(seen@);
        }
    }
    while frontier.len() > 0
        invariant_except_break
            ending is None,
        invariant
            g.searchable(),
            n == g.n(),
            best_first_inv(g, root, weighted, seen@, gs@, previous@, frontier@),
            settled_closed(g, seen@, gs@, -1),
        ensures
            best_first_inv(g, root, weighted, seen@, gs@, previous@, frontier@),
            settled_closed(g, seen@, gs@, -1),
            ending is None ==> frontier@.len() == 0,
            ending is Some ==> ending == Some(g.goal) && gs@[g.goal as int] < u64::MAX && fval(
                g,
                weighted,
                gs@,
                g.goal,
            ) <= m && forall|i: int| 0 <= i < frontier@.len() ==> m <= #[trigger] frontier@[i].1,
        decreases count_false(seen@), frontier@.len(),
    {
        let k = min_entry(&frontier);
        let (x, key) = frontier[k];
        if x == g.goal {
            proof {
                m = key;
            }
            ending = Some(x);
            break;
        }
        let ghost before = frontier@;
        frontier.remove(k);
        if !seen[x] {
            proof {
                lemma_best_first_settle(g, root, weighted, seen@, gs@, previous@, before, k as int);
            }
            let ghost c0 = count_false(seen@);
            let ghost mx: nat = key as nat;
            seen.set(x, true);
            let gx = gs[x];
            let edges = &g.nodes[x].edges;
            let mut e: usize = 0;
            while e < edges.len()
                invariant
                    g.searchable(),
                    n == g.n(),
                    x < n,
                    seen@[x as int],
                    gs@[x as int] == gx,
                    edges@ == g.nodes@[x as int].edges@,
                    e <= edges@.len(),
                    best_first_inv(g, root, weighted, seen@, gs@, previous@, frontier@),
                    settled_closed(g, seen@, gs@, x as int),
                    fval(g, weighted, gs@, x) == mx,
                    forall|i: int| 0 <= i < frontier@.len() ==> mx <= #[trigger] frontier@[i].1,
                    forall|v: usize| v < g.n() && #[trigger] seen@[v as int] ==> fval(g, weighted, gs@, v) <= mx,
                    gx + 1 + count_false(seen@) <= g.n(),
                    count_false(seen@) < c0,
                    forall|j: int| 0 <= j < e ==> gs@[#[trigger] edges@[j] as int] <= gx + 1,
                decreases edges@.len() - e,
            {
                let y = edges[e];
                proof {
                    assert(g.adj(x, y));
                    lemma_adj_in_range(g, x, y);
                }
                if gx + 1 < gs[y] {
                    proof {
                        lemma_best_first_relax(g, root, weighted, seen@, gs@, previous@, frontier@, x, y, mx);
                    }
                    let c = gx + 1;
                    gs.set(y, c);
                    previous.set(y, Some(x));
                    let hy: u64 = if weighted {
                        g.nodes[y].heuristic
                    } else {
                        0
                    };
                    frontier.push((y, c + hy));
                }
                e = e + 1;
            }
            proof {
                assert forall|u: usize, v: usize|
                    u < g.n() && seen@[u as int] && u != -1int && #[trigger] g.adj(u, v) implies gs@[v as int]
                    <= gs@[u as int] + 1 by {
                    if u == x {
                        let j = choose|j: int| 0 <= j < edges@.len() && edges@[j] == v;
                        assert(gs@[edges@[j] as int] <= gx + 1);
                    }
                }
            }
        } else {
            proof {
                lemma_best_first_drop(g, root, weighted, seen@, gs@, previous@, before, k as int);
            }
        }
    }
    match ending {
        Some(goal) => {
            let ghost tree = Seq::new(n as nat, |v: int| gs@[v] < u64::MAX);
            let ghost rank = Seq::new(n as nat, |v: int| gs@[v] as nat);
            proof {
                lemma_best_first_found(g, root, weighted, seen@, gs@, previous@, frontier@, m);
                assert forall|v: usize| v < g.n() && #[trigger] tree[v as int] && v != root implies {
                    &&& previous@[v as int] is Some
                    &&& previous@[v as int]->0 < g.n()
                    &&& tree[previous@[v as int]->0 as int]
                    &&& g.adj(previous@[v as int]->0, v)
                    &&& rank[previous@[v as int]->0 as int] < rank[v as int]
                } by {
                    assert(previous@[v as int] is Some);
                }
            }
            let w = prepare_path(g, &previous, root, goal, Ghost(tree), Ghost(rank));
            Some(w)
        },
        None => {
            proof {
                lemma_best_first_exhausted(g, root, weighted, seen@, gs@, previous@, frontier@);
            }
            None
        },
    }
}

/// When the goal's entry is the smallest in the frontier, its cost is the
/// length of a shortest walk.
proof fn lemma_best_first_found(
    g: &Graph,
    root: usize,
    weighted: bool,
    seen: Seq<bool>,
    gs: Seq<u64>,
    previous: Seq<Option<usize>>,
    frontier: Seq<(usize, u64)>,
    m: u64,
)
    requires
        g.searchable(),
        best_first_inv(g, root, weighted, seen, gs, previous, frontier),
        settled_closed(g, seen, gs, -1),
        gs[g.goal as int] < u64::MAX,
        fval(g, weighted, gs, g.goal) <= m,
        forall|i: int| 0 <= i < frontier.len() ==> m <= #[trigger] frontier[i].1,
    ensures
        gs[g.goal as int] == m,
        forall|q: Seq<usize>| #[trigger] g.is_walk_between(q, root, g.goal) ==> m + 1 <= q.len(),
{
    let e = (g.goal, fval(g, weighted, gs, g.goal) as u64);
    assert(frontier.contains(e));
    let i = choose|i: int| 0 <= i < frontier.len() && frontier[i] == e;
    assert(m <= frontier[i].1);
    assert forall|q: Seq<usize>| #[trigger] g.is_walk_between(q, root, g.goal) implies m + 1 <= q.len() by {
        lemma_best_first_bound(g, root, weighted, seen, gs, previous, frontier, m, q, q.len() - 1);
    }
}

/// With the frontier empty, every node reachable from the root is settled,
/// and the goal, never settled, is out of reach.
proof fn lemma_best_first_exhausted(
    g: &Graph,
    root: usize,
    weighted: bool,
    seen: Seq<bool>,
    gs: Seq<u64>,
    previous: Seq<Option<usize>>,
    frontier: Seq<(usize, u64)>,
)
    requires
        g.searchable(),
        best_first_inv(g, root, weighted, seen, gs, previous, frontier),
        settled_closed(g, seen, gs, -1),
        frontier.len() == 0,
    ensures
        forall|q: Seq<usize>| !#[trigger] g.is_walk_between(q, root, g.goal),
{
    assert forall|v: usize| v < g.n() && gs[v as int] < u64::MAX implies #[trigger] seen[v as int] by {
        if !seen[v as int] {
            assert(frontier.contains((v, fval(g, weighted, gs, v) as u64)));
        }
    }
    let s = |x: usize| x < g.n() && seen[x as int];
    assert forall|u: usize, v: usize| u < g.n() && s(u) && #[trigger] g.adj(u, v) implies s(v) by {
        lemma_adj_in_range(g, u, v);
        assert(gs[u as int] < u64::MAX);
        assert(gs[u as int] + count_false(seen) <= g.n());
        assert(g.heur(u) + g.n() < u64::MAX);
        assert(gs[v as int] <= gs[u as int] + 1);
        assert(gs[v as int] < u64::MAX);
        assert(seen[v as int]);
    }
    assert forall|q: Seq<usize>| !#[trigger] g.is_walk_between(q, root, g.goal) by {
        if g.is_walk_between(q, root, g.goal) {
            lemma_closed_set_holds_walk(g, s, q);
            assert(s(q[q.len() - 1]));
        }
    }
}

} // verus!
