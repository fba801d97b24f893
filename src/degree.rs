use vstd::prelude::*;

verus! {

/// A sequence of vertices of `0..n` where each vertex after the first is
/// related by `adj` to the one before it.
pub open spec fn walk_of(adj: spec_fn(int, int) -> bool, n: nat, p: Seq<int>) -> bool {
    &&& p.len() > 0
    &&& forall|k: int| 0 <= k < p.len() ==> 0 <= #[trigger] p[k] < n
    &&& forall|k: int| 1 <= k < p.len() ==> adj(#[trigger] p[k], p[k - 1])
}

/// Along a walk that starts in a set of marked vertices which holds every
/// seed and is closed under `adj`, every vertex is marked.
proof fn lemma_walk_stays_closed(
    adj: spec_fn(int, int) -> bool,
    n: nat,
    seeds: Set<int>,
    marked: Seq<bool>,
    p: Seq<int>,
)
    requires
        marked.len() == n,
        walk_of(adj, n, p),
        seeds.contains(p[0]),
        forall|w: int| #![trigger seeds.contains(w)] 0 <= w < n && seeds.contains(w) ==> marked[w],
        forall|v: int, w: int| #![trigger adj(w, v)]
            0 <= v < n && 0 <= w < n && marked[v] && adj(w, v) ==> marked[w],
    ensures
        marked[p.last()],
    decreases p.len(),
{
    if p.len() > 1 {
        let q = p.drop_last();
        assert(walk_of(adj, n, q));
        lemma_walk_stays_closed(adj, n, seeds, marked, q);
        assert(adj(p[p.len() - 1], p[p.len() - 2]));
    } else {
        assert(p[0] == p.last());
    }
}

/// `v` can be reached from a vertex of `seeds` by a walk along `adj` in `0..n`.
pub open spec fn reaches(adj: spec_fn(int, int) -> bool, n: nat, seeds: Set<int>, v: int) -> bool {
    exists|p: Seq<int>| #[trigger] walk_of(adj, n, p) && seeds.contains(p[0]) && p.last() == v
}

/// Every vertex of `0..n` can be reached from `seeds` along `adj`.
pub open spec fn covers_all(adj: spec_fn(int, int) -> bool, n: nat, seeds: Set<int>) -> bool {
    forall|v: int| 0 <= v < n ==> #[trigger] reaches(adj, n, seeds, v)
}

/// A trait capturing the notion of degree of a graph: a flag with a number
/// of vertices and an edge relation between them.
pub trait Degree: Sized {
    /// Number of vertices.
    spec fn order(&self) -> nat;

    /// The edge relation between two vertices.
    spec fn adjacent(&self, u: int, v: int) -> bool;

    /// Number of vertices.
    fn size(&self) -> (r: usize)
        ensures
            r == self.order(),
    ;

    /// A weight function defining the degree
    ///
    /// The degree of u is the number of other vertices v with an edge uv.
    fn is_edge(&self, u: usize, v: usize) -> (r: bool)
        requires
            u < self.order(),
            v < self.order(),
        ensures
            r == self.adjacent(u as int, v as int),
    ;

    /// Whether every vertex can be reached by edges from a vertex on which
    /// `f` holds. A flag without vertices is connected to anything.
    ///
    /// `f` is called once on each vertex; `r` is decided by the answers
    /// it gave.
    fn is_connected_to<F: Fn(usize) -> bool>(&self, f: F) -> (r: bool)
        requires
            forall|u: usize| u < self.order() ==> #[trigger] f.requires((u,)),
        ensures
            exists|marks: Seq<bool>|
                {
                    &&& marks.len() == self.order()
                    &&& forall|u: int| 0 <= u < self.order() ==> f.ensures((u as usize,), #[trigger] marks[u])
                    &&& r == covers_all(
                        |x: int, y: int| self.adjacent(x, y),
                        self.order(),
                        Set::new(|u: int| 0 <= u < self.order() && marks[u]),
                    )
                },
    {
        let ghost adj = |x: int, y: int| self.adjacent(x, y);
        let n = self.size();
        let mut visited: Vec<bool> = Vec::new();
        let mut i: usize = 0;
        while i < n
            invariant
                i <= n,
                visited@.len() == i,
                forall|k: int| 0 <= k < i ==> !#[trigger] visited@[k],
            decreases n - i,
        {
            visited.push(false);
            i = i + 1;
        }
        let mut stack: Vec<usize> = Vec::new();
        let ghost mut marks: Seq<bool> = Seq::empty();
        let mut u: usize = 0;
        while u < n
            invariant
                n == self.order(),
                u <= n,
                marks.len() == u,
                forall|k: int| 0 <= k < u ==> f.ensures((k as usize,), #[trigger] marks[k]),
                forall|k: int| 0 <= k < stack@.len() ==> #[trigger] stack@[k] < u,
                forall|k: int| 0 <= k < stack@.len() ==> marks[#[trigger] stack@[k] as int],
                forall|w: int| 0 <= w < u && #[trigger] marks[w] ==> stack@.contains(w as usize),
                forall|u: usize| u < self.order() ==> #[trigger] f.requires((u,)),
            decreases n - u,
        {
            let b = f(u);
            let ghost before = stack@;
            if b {
                stack.push(u);
            }
            proof {
                marks = marks.push(b);
                assert forall|w: int| 0 <= w <= u && #[trigger] marks[w] implies stack@.contains(w as usize) by {
                    if w < u {
                        assert(before.contains(w as usize));
                        let k = choose|k: int| 0 <= k < before.len() && before[k] == w as usize;
                        assert(stack@[k] == w as usize);
                    } else {
                        assert(stack@[stack@.len() - 1] == u);
                    }
                }
                assert forall|k: int| 0 <= k < stack@.len() implies marks[#[trigger] stack@[k] as int] by {
                    if k < before.len() {
                        assert(stack@[k] == before[k]);
                    }
                }
            }
            u = u + 1;
        }
        let ghost seeds = Set::new(|w: int| 0 <= w < self.order() && marks[w]);
        let ghost mut vis: Set<int> = Set::empty();
        proof {
            assert forall|k: int| 0 <= k < stack@.len() implies reaches(adj, n as nat, seeds, #[trigger] stack@[k] as int) by {
                let p = seq![stack@[k] as int];
                assert(walk_of(adj, n as nat, p));
            }
        }
        while stack.len() > 0
            invariant
                n == self.order(),
                adj == (|x: int, y: int| self.adjacent(x, y)),
                visited@.len() == n,
                vis.finite(),
                vis.len() <= n,
                forall|v: int| #[trigger] vis.contains(v) <==> 0 <= v < n && visited@[v],
                forall|k: int| 0 <= k < stack@.len() ==> #[trigger] stack@[k] < n,
                forall|k: int| 0 <= k < stack@.len() ==> reaches(adj, n as nat, seeds, #[trigger] stack@[k] as int),
                forall|v: int| 0 <= v < n && #[trigger] visited@[v] ==> reaches(adj, n as nat, seeds, v),
                forall|w: int| #![trigger seeds.contains(w)]
                    0 <= w < n && seeds.contains(w) ==> visited@[w] || stack@.contains(w as usize),
                forall|v: int, w: int| #![trigger adj(w, v)]
                    0 <= v < n && 0 <= w < n && visited@[v] && adj(w, v)
                        ==> visited@[w] || stack@.contains(w as usize),
            decreases n - vis.len(), stack.len(),
        {
            let ghost old_stack = stack@;
            let ghost old_visited = visited@;
            let v = stack.pop().unwrap();
            let ghost base = stack@;
            proof {
                assert(old_stack == base.push(v));
                assert(reaches(adj, n as nat, seeds, old_stack[old_stack.len() - 1] as int));
                assert forall|x: usize| old_stack.contains(x) implies x == v || base.contains(x) by {
                    let k = choose|k: int| 0 <= k < old_stack.len() && old_stack[k] == x;
                    if k < base.len() {
                        assert(base[k] == x);
                    }
                }
                assert forall|k: int| 0 <= k < base.len() implies reaches(adj, n as nat, seeds, #[trigger] base[k] as int) by {
                    assert(base[k] == old_stack[k]);
                }
            }
            if !visited[v] {
                visited.set(v, true);
                proof {
                    assert(!vis.contains(v as int));
                    vis = vis.insert(v as int);
                    vstd::set_lib::lemma_int_range(0, n as int);
                    assert(vis.subset_of(vstd::set_lib::set_int_range(0, n as int)));
                    vstd::set_lib::lemma_len_subset(vis, vstd::set_lib::set_int_range(0, n as int));
                }
                let mut u: usize = 0;
                while u < n
                    invariant
                        n == self.order(),
                        adj == (|x: int, y: int| self.adjacent(x, y)),
                        v < n,
                        u <= n,
                        visited@ == old_visited.update(v as int, true),
                        reaches(adj, n as nat, seeds, v as int),
                        forall|k: int| 0 <= k < stack@.len() ==> #[trigger] stack@[k] < n,
                        forall|k: int| 0 <= k < stack@.len() ==> reaches(adj, n as nat, seeds, #[trigger] stack@[k] as int),
                        forall|x: usize| #[trigger] base.contains(x) ==> stack@.contains(x),
                        forall|w: int| #![trigger adj(w, v as int)]
                            0 <= w < u && w != v && adj(w, v as int) ==> stack@.contains(w as usize),
                    decreases n - u,
                {
                    let ghost before = stack@;
                    let mut joined = false;
                    if u != v {
                        joined = self.is_edge(u, v);
                    }
                    if joined {
                        stack.push(u);
                        proof {
                            assert(adj(u as int, v as int));
                            let p = choose|p: Seq<int>| #[trigger] walk_of(adj, n as nat, p) && seeds.contains(p[0]) && p.last() == v as int;
                            let q = p.push(u as int);
                            assert(q[q.len() - 2] == p.last());
                            assert forall|k: int| 1 <= k < q.len() implies adj(#[trigger] q[k], q[k - 1]) by {
                                if k < q.len() - 1 {
                                    assert(q[k] == p[k] && q[k - 1] == p[k - 1]);
                                }
                            }
                            assert forall|k: int| 0 <= k < q.len() implies 0 <= #[trigger] q[k] < n by {
                                if k < q.len() - 1 {
                                    assert(q[k] == p[k]);
                                }
                            }
                            assert(walk_of(adj, n as nat, q));
                            assert(q[0] == p[0]);
                            assert(reaches(adj, n as nat, seeds, u as int));
                            assert forall|x: usize| before.contains(x) implies stack@.contains(x) by {
                                let k = choose|k: int| 0 <= k < before.len() && before[k] == x;
                                assert(stack@[k] == x);
                            }
                            assert forall|k: int| 0 <= k < stack@.len() implies reaches(adj, n as nat, seeds, #[trigger] stack@[k] as int) by {
                                if k < before.len() {
                                    assert(stack@[k] == before[k]);
                                }
                            }
                            assert(stack@[stack@.len() - 1] == u);
                        }
                    }
                    proof {
                        assert forall|w: int| #![trigger adj(w, v as int)]
                            0 <= w <= u && w != v && adj(w, v as int) implies stack@.contains(w as usize) by {
                            if w < u {
                                assert(before.contains(w as usize));
                                let k = choose|k: int| 0 <= k < before.len() && before[k] == w as usize;
                                assert(stack@[k] == w as usize);
                            } else {
                                assert(self.adjacent(u as int, v as int));
                                assert(stack@[stack@.len() - 1] == u);
                            }
                        }
                    }
                    u = u + 1;
                }
                proof {
                    assert forall|w: int| #![trigger seeds.contains(w)]
                        0 <= w < n && seeds.contains(w) implies visited@[w] || stack@.contains(w as usize) by {
                        if !old_visited[w] && w != v {
                            assert(old_stack.contains(w as usize));
                            assert(base.contains(w as usize));
                        }
                    }
                    assert forall|x: int, w: int| #![trigger adj(w, x)]
                        0 <= x < n && 0 <= w < n && visited@[x] && adj(w, x)
                            implies visited@[w] || stack@.contains(w as usize) by {
                        if x != v && !old_visited[w] && w != v {
                            assert(old_stack.contains(w as usize));
                            assert(base.contains(w as usize));
                        }
                    }
                }
            } else {
                proof {
                    assert forall|w: int| #![trigger seeds.contains(w)]
                        0 <= w < n && seeds.contains(w) implies visited@[w] || stack@.contains(w as usize) by {
                        if !visited@[w] {
                            assert(old_stack.contains(w as usize));
                        }
                    }
                    assert forall|x: int, w: int| #![trigger adj(w, x)]
                        0 <= x < n && 0 <= w < n && visited@[x] && adj(w, x)
                            implies visited@[w] || stack@.contains(w as usize) by {
                        if !visited@[w] {
                            assert(old_stack.contains(w as usize));
                        }
                    }
                }
            }
        }
        let mut all = true;
        let mut j: usize = 0;
        while j < n
            invariant
                j <= n,
                visited@.len() == n,
                all == (forall|k: int| 0 <= k < j ==> #[trigger] visited@[k]),
            decreases n - j,
        {
            if !visited[j] {
                all = false;
            }
            j = j + 1;
        }
        proof {
            assert(adj == (|x: int, y: int| self.adjacent(x, y)));
            if all {
                assert forall|w: int| 0 <= w < n implies #[trigger] reaches(adj, n as nat, seeds, w) by {
                    assert(visited@[w]);
                }
            }
            if !all {
                let k = choose|k: int| 0 <= k < n && !visited@[k];
                if reaches(adj, n as nat, seeds, k) {
                    let p = choose|p: Seq<int>| #[trigger] walk_of(adj, n as nat, p) && seeds.contains(p[0]) && p.last() == k;
                    lemma_walk_stays_closed(adj, n as nat, seeds, visited@, p);
                }
            }
        }
        all
    }

    /// Whether every vertex from `k` on is adjacent to vertex 0: the flags
    /// that count in the projection of a rooted flag of `k` vertices.
    fn joins_root_from(&self, k: usize) -> (r: bool)
        ensures
            r == (forall|i: int| k <= i < self.order() ==> #[trigger] self.adjacent(0, i)),
    {
        let n = self.size();
        let mut i: usize = k;
        while i < n
            invariant
                n == self.order(),
                k <= i || n <= i,
                forall|j: int| k <= j < i ==> #[trigger] self.adjacent(0, j),
            decreases n - i,
        {
            if !self.is_edge(0, i) {
                return false;
            }
            i = i + 1;
        }
        true
    }

    /// Whether every vertex can be reached by edges from vertex 0.
    fn is_connected(&self) -> (r: bool)
        ensures
            r == covers_all(|x: int, y: int| self.adjacent(x, y), self.order(), Set::new(|u: int| 0 <= u < self.order() && u == 0)),
    {
        let f = |i: usize| -> (b: bool) ensures b == (i == 0) { i == 0 };
        let r = self.is_connected_to(f);
        let n = self.size();
        proof {
            let marks = choose|marks: Seq<bool>|
                {
                    &&& marks.len() == self.order()
                    &&& forall|u: int| 0 <= u < self.order() ==> f.ensures((u as usize,), #[trigger] marks[u])
                    &&& r == covers_all(
                        |x: int, y: int| self.adjacent(x, y),
                        self.order(),
                        Set::new(|u: int| 0 <= u < self.order() && marks[u]),
                    )
                };
            assert(Set::new(|u: int| 0 <= u < self.order() && marks[u])
                =~= Set::new(|u: int| 0 <= u < self.order() && u == 0)) by {
                assert forall|u: int| 0 <= u < self.order() implies marks[u] == (u == 0) by {
                    assert(u < n);
                    assert(f.ensures((u as usize,), marks[u]));
                }
            }
        }
        r
    }
}

/// A flag without vertices is connected to any set of seeds.
pub proof fn lemma_empty_flag_connected<G: Degree>(g: &G, seeds: Set<int>)
    requires
        g.order() == 0,
    ensures
        covers_all(|x: int, y: int| g.adjacent(x, y), g.order(), seeds),
{
}

/// A flag with a single vertex is connected.
pub proof fn lemma_single_vertex_connected<G: Degree>(g: &G)
    requires
        g.order() == 1,
    ensures
        covers_all(
            |x: int, y: int| g.adjacent(x, y),
            g.order(),
            Set::new(|u: int| 0 <= u < g.order() && u == 0),
        ),
{
    let adj = |x: int, y: int| g.adjacent(x, y);
    let p = seq![0int];
    assert(walk_of(adj, 1, p));
    assert(reaches(adj, 1, Set::new(|u: int| 0 <= u < g.order() && u == 0), 0));
}

} // verus!
