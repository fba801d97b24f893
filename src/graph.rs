use vstd::prelude::*;

use crate::degree::Degree;

verus! {

/// `(u, v)` or `(v, u)` is one of `edges`.
pub open spec fn listed(edges: Seq<(usize, usize)>, u: int, v: int) -> bool {
    exists|k: int|
        0 <= k < edges.len() && ((#[trigger] edges[k].0 as int == u && edges[k].1 as int == v) || (
        edges[k].0 as int == v && edges[k].1 as int == u))
}

proof fn lemma_listed_take(edges: Seq<(usize, usize)>, k: int, u: int, v: int)
    requires
        0 <= k < edges.len(),
    ensures
        listed(edges.take(k + 1), u, v) == (listed(edges.take(k), u, v) || (edges[k].0 as int == u
            && edges[k].1 as int == v) || (edges[k].0 as int == v && edges[k].1 as int == u)),
{
    let pre = edges.take(k);
    let post = edges.take(k + 1);
    if listed(pre, u, v) {
        let j = choose|j: int|
            0 <= j < pre.len() && ((#[trigger] pre[j].0 as int == u && pre[j].1 as int == v) || (
            pre[j].0 as int == v && pre[j].1 as int == u));
        assert(post[j] == pre[j]);
    }
    if listed(post, u, v) {
        let j = choose|j: int|
            0 <= j < post.len() && ((#[trigger] post[j].0 as int == u && post[j].1 as int == v) || (
            post[j].0 as int == v && post[j].1 as int == u));
        if j < k {
            assert(pre[j] == post[j]);
        }
    }
    assert(post[k] == edges[k]);
}

proof fn lemma_listed_symmetric(edges: Seq<(usize, usize)>, u: int, v: int)
    ensures
        listed(edges, u, v) == listed(edges, v, u),
{
    if listed(edges, u, v) {
        let j = choose|j: int|
            0 <= j < edges.len() && ((#[trigger] edges[j].0 as int == u && edges[j].1 as int == v) || (
            edges[j].0 as int == v && edges[j].1 as int == u));
        assert(listed(edges, v, u));
    }
    if listed(edges, v, u) {
        let j = choose|j: int|
            0 <= j < edges.len() && ((#[trigger] edges[j].0 as int == v && edges[j].1 as int == u) || (
            edges[j].0 as int == u && edges[j].1 as int == v));
        assert(listed(edges, u, v));
    }
}

/// An undirected graph without loops on the vertices `0..size`, stored as
/// an adjacency matrix.
pub struct SimpleGraph {
    size: usize,
    adjacency: Vec<Vec<bool>>,
}

impl SimpleGraph {
    #[verifier::type_invariant]
    closed spec fn well_formed(&self) -> bool {
        &&& self.adjacency@.len() == self.size
        &&& forall|u: int| 0 <= u < self.size ==> (#[trigger] self.adjacency@[u])@.len() == self.size
        &&& forall|u: int| 0 <= u < self.size ==> !self.adjacency@[u]@[u]
        &&& forall|u: int, v: int|
            0 <= u < self.size && 0 <= v < self.size ==> self.adjacency@[u]@[v]
                == self.adjacency@[v]@[u]
    }

    /// The graph on `n` vertices whose edges are the pairs of `edges` with
    /// distinct ends.
    pub fn new(n: usize, edges: &Vec<(usize, usize)>) -> (r: Self)
        requires
            forall|k: int| 0 <= k < edges@.len() ==> (#[trigger] edges@[k]).0 < n && edges@[k].1 < n,
        ensures
            r.order() == n,
            forall|u: int, v: int|
                0 <= u < n && 0 <= v < n ==> (r.adjacent(u, v) <==> u != v && listed(edges@, u, v)),
    {
        let mut adjacency: Vec<Vec<bool>> = Vec::new();
        let mut i: usize = 0;
        while i < n
            invariant
                i <= n,
                adjacency@.len() == i,
                forall|u: int| 0 <= u < i ==> (#[trigger] adjacency@[u])@.len() == n,
                forall|u: int, v: int| 0 <= u < i && 0 <= v < n ==> !adjacency@[u]@[v],
            decreases n - i,
        {
            let mut row: Vec<bool> = Vec::new();
            let mut j: usize = 0;
            while j < n
                invariant
                    j <= n,
                    row@.len() == j,
                    forall|v: int| 0 <= v < j ==> !row@[v],
                decreases n - j,
            {
                row.push(false);
                j = j + 1;
            }
            adjacency.push(row);
            i = i + 1;
        }
        let mut k: usize = 0;
        while k < edges.len()
            invariant
                k <= edges@.len(),
                forall|k: int| 0 <= k < edges@.len() ==> (#[trigger] edges@[k]).0 < n && edges@[k].1 < n,
                adjacency@.len() == n,
                forall|u: int| 0 <= u < n ==> (#[trigger] adjacency@[u])@.len() == n,
                forall|u: int, v: int| #![trigger adjacency@[u]@[v]]
                    0 <= u < n && 0 <= v < n ==> (adjacency@[u]@[v] <==> u != v && listed(
                        edges@.take(k as int),
                        u,
                        v,
                    )),
            decreases edges@.len() - k,
        {
            let (a, b) = edges[k];
            let ghost before = adjacency@;
            if a != b {
                let mut row_a = adjacency[a].clone();
                row_a.set(b, true);
                adjacency.set(a, row_a);
                let mut row_b = adjacency[b].clone();
                row_b.set(a, true);
                adjacency.set(b, row_b);
            }
            proof {
                assert forall|u: int, v: int| 0 <= u < n && 0 <= v < n implies adjacency@[u]@[v] == (
                before[u]@[v] || (a != b && ((u == a && v == b) || (u == b && v == a)))) by {
                    if a != b {
                        if u == b {
                            assert(adjacency@[u]@ == before[u]@.update(a as int, true));
                        } else if u == a {
                            assert(adjacency@[u]@ == before[u]@.update(b as int, true));
                        } else {
                            assert(adjacency@[u] == before[u]);
                        }
                    }
                }
                assert forall|u: int| 0 <= u < n implies (#[trigger] adjacency@[u])@.len() == n by {
                    if a != b && (u == a || u == b) {
                    } else {
                        assert(adjacency@[u] == before[u]);
                    }
                }
                assert(edges@[k as int] == (a, b));
                assert forall|u: int, v: int| 0 <= u < n && 0 <= v < n implies (adjacency@[u]@[v] <==> u
                    != v && listed(edges@.take(k + 1), u, v)) by {
                    lemma_listed_take(edges@, k as int, u, v);
                }
            }
            k = k + 1;
        }
        proof {
            assert(edges@.take(edges@.len() as int) == edges@);
            assert forall|u: int, v: int| 0 <= u < n && 0 <= v < n implies adjacency@[u]@[v]
                == adjacency@[v]@[u] by {
                lemma_listed_symmetric(edges@, u, v);
            }
        }
        SimpleGraph { size: n, adjacency }
    }
}

impl Degree for SimpleGraph {
    closed spec fn order(&self) -> nat {
        self.size as nat
    }

    closed spec fn adjacent(&self, u: int, v: int) -> bool {
        self.adjacency@[u]@[v]
    }

    fn size(&self) -> (r: usize) {
        self.size
    }

    fn is_edge(&self, u: usize, v: usize) -> (r: bool) {
        proof {
            use_type_invariant(self);
        }
        self.adjacency[u][v]
    }
}

} // verus!
