use vstd::prelude::*;

use crate::graph::Graph;

verus! {

/// The number of `false` entries of a sequence of flags.
pub open spec fn count_false(s: Seq<bool>) -> nat
    decreases s.len(),
{
    if s.len() == 0 {
        0
    } else {
        count_false(s.drop_last()) + if s.last() {
            0nat
        } else {
            1nat
        }
    }
}

pub(crate) proof fn lemma_count_false_set(s: Seq<bool>, i: int)
    requires
        0 <= i < s.len(),
        !s[i],
    ensures
        count_false(s.update(i, true)) + 1 == count_false(s),
    decreases s.len(),
{
    let t = s.update(i, true);
    if i == s.len() - 1 {
        assert(t.drop_last() =~= s.drop_last());
    } else {
        lemma_count_false_set(s.drop_last(), i);
        assert(t.drop_last() =~= s.drop_last().update(i, true));
    }
}

pub(crate) proof fn lemma_count_false_bound(s: Seq<bool>)
    ensures
        count_false(s) <= s.len(),
    decreases s.len(),
{
    if s.len() > 0 {
        lemma_count_false_bound(s.drop_last());
    }
}

/// A vector of `n` copies of `x`.
pub(crate) fn filled<T: Copy>(x: T, n: usize) -> (v: Vec<T>)
    ensures
        v@ == Seq::new(n as nat, |i: int| x),
{
    let mut v: Vec<T> = Vec::new();
    let mut i: usize = 0;
    while i < n
        invariant
            i <= n,
            v@ == Seq::new(i as nat, |j: int| x),
        decreases n - i,
    {
        v.push(x);
        i = i + 1;
        assert(v@ =~= Seq::new(i as nat, |j: int| x));
    }
    v
}

/// Walks the `previous` links back from `ending` to `root` and returns the
/// nodes in order from `root` to `ending`.
///
/// `tree` marks the nodes whose links are meaningful and `rank` strictly
/// decreases along each link, so the walk back ends, and it ends at `root`.
pub(crate) fn prepare_path(
    g: &Graph,
    previous: &Vec<Option<usize>>,
    root: usize,
    ending: usize,
    Ghost(tree): Ghost<Seq<bool>>,
    Ghost(rank): Ghost<Seq<nat>>,
) -> (w: Vec<usize>)
    requires
        previous@.len() == g.n(),
        tree.len() == g.n(),
        rank.len() == g.n(),
        root < g.n(),
        ending < g.n(),
        tree[ending as int],
        forall|v: usize|
            v < g.n() && #[trigger] tree[v as int] && v != root ==> {
                &&& previous@[v as int] is Some
                &&& previous@[v as int]->0 < g.n()
                &&& tree[previous@[v as int]->0 as int]
                &&& g.adj(previous@[v as int]->0, v)
                &&& rank[previous@[v as int]->0 as int] < rank[v as int]
            },
    ensures
        g.is_walk_between(w@, root, ending),
        w@.len() <= rank[ending as int] - rank[root as int] + 1,
        forall|k: int| 0 < k < w@.len() ==> previous@[#[trigger] w@[k] as int] == Some(w@[k - 1]),
        w@.no_duplicates(),
{
    let mut back: Vec<usize> = Vec::new();
    back.push(ending);
    let mut cur = ending;
    while cur != root
        invariant
            previous@.len() == g.n(),
            tree.len() == g.n(),
            rank.len() == g.n(),
            root < g.n(),
            cur < g.n(),
            tree[cur as int],
            forall|v: usize|
                v < g.n() && #[trigger] tree[v as int] && v != root ==> {
                    &&& previous@[v as int] is Some
                    &&& previous@[v as int]->0 < g.n()
                    &&& tree[previous@[v as int]->0 as int]
                    &&& g.adj(previous@[v as int]->0, v)
                    &&& rank[previous@[v as int]->0 as int] < rank[v as int]
                },
            back@.len() >= 1,
            back@[0] == ending,
            back@.last() == cur,
            forall|k: int| 0 <= k < back@.len() ==> #[trigger] back@[k] < g.n(),
            forall|k: int| 0 <= k < back@.len() - 1 ==> g.adj(back@[k + 1], #[trigger] back@[k]),
            back@.len() - 1 + rank[cur as int] <= rank[ending as int],
            forall|k: int|
                0 <= k < back@.len() - 1 ==> previous@[#[trigger] back@[k] as int] == Some(back@[k + 1]),
            forall|i: int, j: int|
                0 <= i < j < back@.len() ==> rank[#[trigger] back@[j] as int] < rank[#[trigger] back@[i] as int],
        decreases rank[cur as int],
    {
        let u = previous[cur].unwrap();
        let ghost old_back = back@;
        back.push(u);
        proof {
            assert forall|i: int, j: int| 0 <= i < j < back@.len() implies rank[#[trigger] back@[j] as int]
                < rank[#[trigger] back@[i] as int] by {
                if j == back@.len() - 1 && i < old_back.len() - 1 {
                    assert(rank[old_back[old_back.len() - 1] as int] < rank[old_back[i] as int]);
                }
            }
            assert forall|k: int| 0 <= k < back@.len() - 1 implies previous@[#[trigger] back@[k] as int] == Some(
                back@[k + 1],
            ) by {
                if k < old_back.len() - 1 {
                    assert(back@[k] == old_back[k]);
                }
            }
        }
        cur = u;
    }
    let mut w: Vec<usize> = Vec::new();
    let mut i: usize = back.len();
    while i > 0
        invariant
            i <= back@.len(),
            w@.len() == back@.len() - i,
            forall|k: int| 0 <= k < w@.len() ==> #[trigger] w@[k] == back@[back@.len() - 1 - k],
        decreases i,
    {
        i = i - 1;
        w.push(back[i]);
    }
    assert forall|k: int| 0 <= k < w@.len() - 1 implies g.adj(#[trigger] w@[k], w@[k + 1]) by {
        let j = back@.len() - 2 - k;
        assert(g.adj(back@[j + 1], back@[j]));
    }
    assert forall|k: int| 0 <= k < w@.len() implies #[trigger] w@[k] < g.n() by {
        assert(back@[back@.len() - 1 - k] < g.n());
    }
    assert forall|k: int| 0 < k < w@.len() implies previous@[#[trigger] w@[k] as int] == Some(w@[k - 1]) by {
        let j = back@.len() - 1 - k;
        assert(previous@[back@[j] as int] == Some(back@[j + 1]));
    }
    assert forall|a: int, b: int| 0 <= a < w@.len() && 0 <= b < w@.len() && a != b implies w@[a] != w@[b] by {
        let ia = back@.len() - 1 - a;
        let ib = back@.len() - 1 - b;
        if ia < ib {
            assert(rank[back@[ib] as int] < rank[back@[ia] as int]);
        } else {
            assert(rank[back@[ia] as int] < rank[back@[ib] as int]);
        }
    }
    w
}

/// The result of a search that guarantees a shortest walk: a walk from `root`
/// to the goal that visits no node twice and that no other such walk
/// undercuts, or `None` exactly when the goal cannot be reached from `root`.
pub open spec fn shortest_outcome(g: &Graph, root: usize, res: Option<Seq<usize>>) -> bool {
    match res {
        Some(w) => g.is_walk_between(w, root, g.goal) && w.no_duplicates() && forall|q: Seq<usize>|
            #[trigger] g.is_walk_between(q, root, g.goal) ==> w.len() <= q.len(),
        None => forall|q: Seq<usize>| !#[trigger] g.is_walk_between(q, root, g.goal),
    }
}

/// The result of a search that finds some walk: a walk from `root` to the goal
/// that visits no node twice, or `None` exactly when there is none.
pub open spec fn some_outcome(g: &Graph, root: usize, res: Option<Seq<usize>>) -> bool {
    match res {
        Some(w) => g.is_walk_between(w, root, g.goal) && w.no_duplicates(),
        None => forall|q: Seq<usize>| !#[trigger] g.is_walk_between(q, root, g.goal),
    }
}

pub open spec fn vec_opt(r: Option<Vec<usize>>) -> Option<Seq<usize>> {
    match r {
        Some(w) => Some(w@),
        None => None,
    }
}

} // verus!
