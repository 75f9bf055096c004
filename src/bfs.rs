use vstd::prelude::*;

use crate::graph::{Graph, lemma_adj_in_range, lemma_closed_set_holds_walk};
use crate::search::{count_false, filled, lemma_count_false_set, prepare_path, shortest_outcome, vec_opt};

verus! {

/// The queue state of a breadth-first search: `queue[..head]` are expanded,
/// `queue[head..]` are waiting, `pos` gives each discovered node's place in
/// the queue and `dist` its depth in the search tree.
pub open spec fn bfs_inv(
    g: &Graph,
    root: usize,
    seen: Seq<bool>,
    previous: Seq<Option<usize>>,
    queue: Seq<usize>,
    head: int,
    pos: Seq<int>,
    dist: Seq<nat>,
) -> bool {
    &&& seen.len() == g.n()
    &&& previous.len() == g.n()
    &&& pos.len() == g.n()
    &&& dist.len() == g.n()
    &&& 0 <= head <= queue.len()
    &&& root < g.n()
    &&& seen[root as int]
    &&& dist[root as int] == 0
    &&& forall|i: int| 0 <= i < queue.len() ==> #[trigger] queue[i] < g.n() && seen[queue[i] as int]
        && pos[queue[i] as int] == i
    &&& forall|v: usize|
        v < g.n() && #[trigger] seen[v as int] ==> 0 <= pos[v as int] < queue.len() && queue[pos[
        v as int]] == v
    &&& forall|v: usize|
        v < g.n() && #[trigger] seen[v as int] && v != root ==> {
            &&& previous[v as int] is Some
            &&& previous[v as int]->0 < g.n()
            &&& seen[previous[v as int]->0 as int]
            &&& g.adj(previous[v as int]->0, v)
            &&& dist[v as int] == dist[previous[v as int]->0 as int] + 1
        }
    &&& forall|i: int, j: int|
        0 <= i <= j < queue.len() ==> dist[#[trigger] queue[i] as int] <= dist[#[trigger] queue[j] as int]
    &&& head < queue.len() ==> forall|i: int|
        0 <= i < queue.len() ==> dist[#[trigger] queue[i] as int] <= dist[queue[head] as int] + 1
    &&& forall|u: usize, v: usize|
        u < g.n() && seen[u as int] && pos[u as int] < head && #[trigger] g.adj(u, v) ==> seen[v as int]
            && dist[v as int] <= dist[u as int] + 1
    &&& seen[g.goal as int] ==> pos[g.goal as int] >= head
}

/// While the goal waits at the head of the queue, no walk from the root
/// reaches it in fewer steps than its depth.
proof fn lemma_bfs_depth_bound(
    g: &Graph,
    root: usize,
    seen: Seq<bool>,
    previous: Seq<Option<usize>>,
    queue: Seq<usize>,
    head: int,
    pos: Seq<int>,
    dist: Seq<nat>,
    w: Seq<usize>,
    k: int,
)
    requires
        g.searchable(),
        bfs_inv(g, root, seen, previous, queue, head, pos, dist),
        head < queue.len(),
        g.is_walk(w),
        w[0] == root,
        0 <= k < w.len(),
    ensures
        (seen[w[k] as int] && dist[w[k] as int] <= k) || k > dist[queue[head] as int],
    decreases k,
{
    if k > 0 {
        lemma_bfs_depth_bound(g, root, seen, previous, queue, head, pos, dist, w, k - 1);
        let u = w[k - 1];
        let v = w[k];
        assert(u < g.n());
        assert(g.adj(w[k - 1], w[k]));
        if seen[u as int] && dist[u as int] <= k - 1 {
            if pos[u as int] >= head {
                assert(queue[pos[u as int]] == u);
                assert(dist[queue[head] as int] <= dist[queue[pos[u as int]] as int]);
            }
        }
    }
}

/// Discovering an unseen neighbour `v` of the node at the head of the queue
/// keeps the queue state.
proof fn lemma_bfs_discover(
    g: &Graph,
    root: usize,
    seen: Seq<bool>,
    previous: Seq<Option<usize>>,
    queue: Seq<usize>,
    head: int,
    pos: Seq<int>,
    dist: Seq<nat>,
    u: usize,
    v: usize,
)
    requires
        g.searchable(),
        bfs_inv(g, root, seen, previous, queue, head, pos, dist),
        head < queue.len(),
        queue[head] == u,
        u != g.goal,
        v < g.n(),
        !seen[v as int],
        g.adj(u, v),
    ensures
        bfs_inv(
            g,
            root,
            seen.update(v as int, true),
            previous.update(v as int, Some(u)),
            queue.push(v),
            head,
            pos.update(v as int, queue.len() as int),
            dist.update(v as int, dist[u as int] + 1),
        ),
{
    let seen2 = seen.update(v as int, true);
    let previous2 = previous.update(v as int, Some(u));
    let queue2 = queue.push(v);
    let pos2 = pos.update(v as int, queue.len() as int);
    let dist2 = dist.update(v as int, dist[u as int] + 1);
    assert(queue[pos[u as int]] == u);
    assert forall|i: int| 0 <= i < queue2.len() implies #[trigger] queue2[i] < g.n() && seen2[queue2[
        i] as int] && pos2[queue2[i] as int] == i by {
        if i < queue.len() {
            assert(queue2[i] == queue[i]);
            assert(seen[queue[i] as int]);
        }
    }
    assert forall|x: usize| x < g.n() && #[trigger] seen2[x as int] implies 0 <= pos2[x as int] < queue2.len()
        && queue2[pos2[x as int]] == x by {
        if x != v {
            assert(seen[x as int]);
        }
    }
    assert forall|x: usize| x < g.n() && #[trigger] seen2[x as int] && x != root implies {
        &&& previous2[x as int] is Some
        &&& previous2[x as int]->0 < g.n()
        &&& seen2[previous2[x as int]->0 as int]
        &&& g.adj(previous2[x as int]->0, x)
        &&& dist2[x as int] == dist2[previous2[x as int]->0 as int] + 1
    } by {
        if x != v {
            assert(seen[x as int]);
            assert(previous[x as int]->0 != v);
        }
    }
    assert forall|i: int, j: int| 0 <= i <= j < queue2.len() implies dist2[#[trigger] queue2[i] as int]
        <= dist2[#[trigger] queue2[j] as int] by {
        if j < queue.len() {
            assert(queue2[i] == queue[i]);
            assert(queue2[j] == queue[j]);
            assert(queue[i] != v);
            assert(queue[j] != v);
        } else if i < queue.len() {
            assert(queue2[i] == queue[i]);
            assert(queue[i] != v);
            assert(dist[queue[i] as int] <= dist[queue[head] as int] + 1);
        }
    }
    assert forall|i: int| 0 <= i < queue2.len() implies dist2[#[trigger] queue2[i] as int] <= dist2[queue2[
        head] as int] + 1 by {
        if i < queue.len() {
            assert(queue2[i] == queue[i]);
            assert(queue[i] != v);
        }
    }
    assert forall|x: usize, y: usize|
        x < g.n() && seen2[x as int] && pos2[x as int] < head && #[trigger] g.adj(x, y) implies seen2[y as int]
            && dist2[y as int] <= dist2[x as int] + 1 by {
        if x != v {
            assert(seen[x as int]);
            lemma_adj_in_range(g, x, y);
            assert(seen[y as int]);
            assert(y != v);
        }
    }
}

/// Once every neighbour of the head of the queue is discovered, the head can
/// move on.
proof fn lemma_bfs_advance(
    g: &Graph,
    root: usize,
    seen: Seq<bool>,
    previous: Seq<Option<usize>>,
    queue: Seq<usize>,
    head: int,
    pos: Seq<int>,
    dist: Seq<nat>,
    u: usize,
)
    requires
        g.searchable(),
        bfs_inv(g, root, seen, previous, queue, head, pos, dist),
        head < queue.len(),
        queue[head] == u,
        u != g.goal,
        forall|x: usize| #[trigger] g.adj(u, x) ==> seen[x as int] && dist[x as int] <= dist[u as int] + 1,
    ensures
        bfs_inv(g, root, seen, previous, queue, head + 1, pos, dist),
{
    if head + 1 < queue.len() {
        assert(dist[queue[head] as int] <= dist[queue[head + 1] as int]);
    }
    if seen[g.goal as int] {
        assert(queue[pos[g.goal as int]] == g.goal);
    }
}

/// Breadth-first search from `root`: the first walk to the goal that it finds
/// is a shortest one.
pub fn bfs(g: &Graph, root: usize) -> (res: Option<Vec<usize>>)
    requires
        g.searchable(),
        root < g.n(),
    ensures
        shortest_outcome(g, root, vec_opt(res)),
{
    let n = g.nodes.len();
    let mut seen = filled(false, n);
    let mut previous: Vec<Option<usize>> = filled(None, n);
    let ghost mut pos: Seq<int> = Seq::new(n as nat, |i: int| 0);
    let ghost mut dist: Seq<nat> = Seq::new(n as nat, |i: int| 0);
    let mut queue: Vec<usize> = Vec::new();
    let mut head: usize = 0;
    let mut ending: Option<usize> = None;

    seen.set(root, true);
    queue.push(root);
    proof {
        pos = pos.update(root as int, 0);
    }
    while head < queue.len()
        invariant
            g.searchable(),
            n == g.n(),
            bfs_inv(g, root, seen@, previous@, queue@, head as int, pos, dist),
            ending is Some ==> ending == Some(g.goal) && head < queue@.len() && queue@[head as int]
                == g.goal,
        ensures
            ending is None ==> head >= queue@.len(),
            bfs_inv(g, root, seen@, previous@, queue@, head as int, pos, dist),
            ending is Some ==> ending == Some(g.goal) && head < queue@.len() && queue@[head as int]
                == g.goal,
        decreases count_false(seen@), queue@.len() - head,
    {
        let u = queue[head];
        if u == g.goal {
            ending = Some(u);
            break;
        }
        let edges = &g.nodes[u].edges;
        let ghost c0 = count_false(seen@);
        let ghost l0 = queue@.len();
        let mut e: usize = 0;
        while e < edges.len()
            invariant
                g.searchable(),
                n == g.n(),
                u < n,
                head < queue@.len(),
                queue@[head as int] == u,
                u != g.goal,
                edges@ == g.nodes@[u as int].edges@,
                e <= edges@.len(),
                bfs_inv(g, root, seen@, previous@, queue@, head as int, pos, dist),
                forall|k: int|
                    0 <= k < e ==> #[trigger] seen@[edges@[k] as int] && dist[edges@[k] as int]
                        <= dist[u as int] + 1,
                count_false(seen@) + queue@.len() == c0 + l0,
                l0 <= queue@.len(),
            decreases edges@.len() - e,
        {
            let v = edges[e];
            assert(v < n);
            let ghost old_seen = seen@;
            let ghost old_dist = dist;
            if !seen[v] {
                let ghost qlen = queue@.len();
                proof {
                    lemma_count_false_set(seen@, v as int);
                    assert(g.adj(u, v));
                    assert(seen@[u as int]);
                    lemma_bfs_discover(g, root, seen@, previous@, queue@, head as int, pos, dist, u, v);
                }
                seen.set(v, true);
                previous.set(v, Some(u));
                queue.push(v);
                proof {
                    pos = pos.update(v as int, qlen as int);
                    dist = dist.update(v as int, dist[u as int] + 1);
                }
            } else {
                proof {
                    assert(queue@[pos[v as int]] == v);
                    assert(dist[queue@[pos[v as int]] as int] <= dist[queue@[head as int] as int] + 1);
                }
            }
            proof {
                assert(seen@[v as int] && dist[v as int] <= dist[u as int] + 1);
                assert forall|k: int| 0 <= k < e + 1 implies #[trigger] seen@[edges@[k] as int]
                    && dist[edges@[k] as int] <= dist[u as int] + 1 by {
                    if k < e {
                        assert(old_seen[edges@[k] as int]);
                        assert(old_dist[edges@[k] as int] <= old_dist[u as int] + 1);
                    }
                }
            }
            e = e + 1;
        }
        proof {
            assert forall|x: usize| #[trigger] g.adj(u, x) implies seen@[x as int] && dist[x as int]
                <= dist[u as int] + 1 by {
                let k = choose|k: int| 0 <= k < edges@.len() && edges@[k] == x;
                assert(seen@[edges@[k] as int]);
            }
            lemma_bfs_advance(g, root, seen@, previous@, queue@, head as int, pos, dist, u);
        }
        head = head + 1;
    }
    match ending {
        Some(goal) => {
            let w = prepare_path(g, &previous, root, goal, Ghost(seen@), Ghost(dist));
            proof {
                assert forall|q: Seq<usize>| #[trigger] g.is_walk_between(q, root, g.goal) implies w@.len()
                    <= q.len() by {
                    lemma_bfs_depth_bound(
                        g,
                        root,
                        seen@,
                        previous@,
                        queue@,
                        head as int,
                        pos,
                        dist,
                        q,
                        q.len() - 1,
                    );
                }
            }
            Some(w)
        },
        None => {
            proof {
                assert forall|q: Seq<usize>| !#[trigger] g.is_walk_between(q, root, g.goal) by {
                    if g.is_walk_between(q, root, g.goal) {
                        let s = |x: usize| x < g.n() && seen@[x as int];
                        lemma_closed_set_holds_walk(g, s, q);
                        assert(s(q[q.len() - 1]));
                    }
                }
            }
            None
        },
    }
}

} // verus!
