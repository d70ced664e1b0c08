use vstd::prelude::*;

verus! {

/// What the algorithm knows of a vertex: `None` when it was never reached,
/// `Some(None)` for the start vertex, `Some(Some((p, d)))` for a vertex
/// reached at distance `d` through the predecessor `p`.
pub type Entry = Option<Option<(usize, u64)>>;

/// Abstract view of a graph: vertex names by index, and for each vertex its
/// outgoing edges as (target index, weight) pairs.
pub ghost struct GraphView {
    pub names: Seq<char>,
    pub adj: Seq<Seq<(usize, u64)>>,
    pub max_weight: u64,
}

impl GraphView {
    pub open spec fn num_vertices(self) -> int {
        self.names.len() as int
    }

    pub open spec fn wf(self) -> bool {
        &&& self.adj.len() == self.names.len()
        &&& self.names.len() <= usize::MAX
        &&& forall|i: int, j: int|
            0 <= i < j < self.names.len() ==> self.names[i] != self.names[j]
        &&& forall|u: int, k: int|
            0 <= u < self.adj.len() && 0 <= k < self.adj[u].len() ==> {
                &&& (#[trigger] self.adj[u][k]).0 < self.names.len()
                &&& self.adj[u][k].1 <= self.max_weight
            }
        &&& forall|u: int, k1: int, k2: int|
            0 <= u < self.adj.len() && 0 <= k1 < k2 < self.adj[u].len() ==> (
            #[trigger] self.adj[u][k1]).0 != (#[trigger] self.adj[u][k2]).0
    }

    /// There is an edge from `u` to `v` of weight `w`.
    pub open spec fn has_edge(self, u: int, v: int, w: int) -> bool {
        &&& 0 <= u < self.adj.len()
        &&& exists|k: int|
            0 <= k < self.adj[u].len() && (#[trigger] self.adj[u][k]).0 == v && self.adj[u][k].1
                == w
    }

    /// Shortest distances fit in a `u64`: a simple path has fewer edges than
    /// there are vertices.
    pub open spec fn distances_fit(self) -> bool {
        self.num_vertices() * self.max_weight <= u64::MAX
    }
}

/// The vertex that a walk from `s` ends at. A walk is a sequence of steps,
/// each the (target, weight) of the edge taken.
pub open spec fn walk_end(s: int, walk: Seq<(usize, u64)>) -> int {
    if walk.len() == 0 {
        s
    } else {
        walk.last().0 as int
    }
}

pub open spec fn is_walk(g: GraphView, s: int, walk: Seq<(usize, u64)>) -> bool {
    forall|i: int|
        0 <= i < walk.len() ==> g.has_edge(
            walk_end(s, walk.take(i)),
            (#[trigger] walk[i]).0 as int,
            walk[i].1 as int,
        )
}

pub open spec fn walk_weight(walk: Seq<(usize, u64)>) -> int
    decreases walk.len(),
{
    if walk.len() == 0 {
        0
    } else {
        walk_weight(walk.drop_last()) + walk.last().1
    }
}

pub open spec fn reachable(g: GraphView, s: int, v: int) -> bool {
    exists|walk: Seq<(usize, u64)>| is_walk(g, s, walk) && walk_end(s, walk) == v
}

/// Recorded distance of a reached vertex (zero for the start).
pub open spec fn dist(e: Entry) -> int {
    match e {
        Some(Some((_, d))) => d as int,
        _ => 0,
    }
}

/// All edges out of `u` are relaxed: each target is reached, at no more
/// than the distance of `u` plus the edge's weight.
pub open spec fn relaxed(g: GraphView, res: Seq<Entry>, u: int, du: int) -> bool {
    forall|k: int|
        0 <= k < g.adj[u].len() ==> {
            let (x, w) = #[trigger] g.adj[u][k];
            &&& res[x as int] is Some
            &&& dist(res[x as int]) <= du + w
        }
}

/// `res` is a shortest-path tree of `g` rooted at `s`.
pub open spec fn is_shortest_path_tree(g: GraphView, s: int, res: Seq<Entry>) -> bool {
    &&& res.len() == g.num_vertices()
    &&& res[s] == Some(None::<(usize, u64)>)
    &&& forall|v: int|
        0 <= v < res.len() && v != s && (#[trigger] res[v]) is Some ==> match res[v] {
            Some(Some((p, d))) => {
                &&& p < res.len()
                &&& res[p as int] is Some
                &&& g.has_edge(p as int, v, d - dist(res[p as int]))
            },
            _ => false,
        }
    &&& forall|v: int|
        0 <= v < res.len() && (#[trigger] res[v]) is Some ==> exists|walk: Seq<(usize, u64)>|
            is_walk(g, s, walk) && walk_end(s, walk) == v && walk_weight(walk) == dist(res[v])
    &&& forall|u: int| 0 <= u < res.len() && (#[trigger] res[u]) is Some ==> relaxed(g, res, u, dist(res[u]))
}


pub open spec fn pred(e: Entry) -> usize {
    match e {
        Some(Some((p, _))) => p,
        _ => 0,
    }
}

/// A weighted directed graph whose vertices are named by `char`s.
pub struct Graph {
    names: Vec<char>,
    adj: Vec<Vec<(usize, u64)>>,
    max_weight: u64,
}

impl View for Graph {
    type V = GraphView;

    closed spec fn view(&self) -> GraphView {
        GraphView {
            names: self.names@,
            adj: self.adj@.map_values(|r: Vec<(usize, u64)>| r@),
            max_weight: self.max_weight,
        }
    }
}

proof fn lemma_walk_push(g: GraphView, s: int, walk: Seq<(usize, u64)>, x: usize, w: u64)
    requires
        is_walk(g, s, walk),
        g.has_edge(walk_end(s, walk), x as int, w as int),
    ensures
        is_walk(g, s, walk.push((x, w))),
        walk_end(s, walk.push((x, w))) == x,
        walk_weight(walk.push((x, w))) == walk_weight(walk) + w,
{
    let nw = walk.push((x, w));
    assert(nw.drop_last() =~= walk);
    assert forall|i: int| 0 <= i < nw.len() implies g.has_edge(
        walk_end(s, nw.take(i)),
        (#[trigger] nw[i]).0 as int,
        nw[i].1 as int,
    ) by {
        if i < walk.len() {
            assert(nw.take(i) =~= walk.take(i));
            assert(nw[i] == walk[i]);
        } else {
            assert(nw.take(i) =~= walk);
        }
    }
}


/// What one relaxation of the edges out of `u`, at distance `du`, does to
/// the recorded entries and to the frontier.
pub open spec fn relax_result(
    g: GraphView,
    ans0: Seq<Entry>,
    heap0: Seq<(u64, usize, usize)>,
    ans1: Seq<Entry>,
    heap1: Seq<(u64, usize, usize)>,
    u: int,
    du: int,
) -> bool {
    &&& ans1.len() == ans0.len()
    &&& forall|x: int|
            0 <= x < ans1.len() && #[trigger] ans1[x] != ans0[x] ==> {
                &&& ans0[x] is None || (ans0[x] is Some && ans0[x] != Some(None::<(usize, u64)>) && dist(ans1[x]) < dist(ans0[x]))
                &&& ans1[x] is Some
                &&& ans1[x] != Some(None::<(usize, u64)>)
                &&& pred(ans1[x]) == u
                &&& dist(ans1[x]) >= du
                &&& g.has_edge(u, x, dist(ans1[x]) - du)
                &&& heap1.contains((dist(ans1[x]) as u64, x as usize, u as usize))
            }
    &&& relaxed(g, ans1, u, du)
    &&& heap1.len() >= heap0.len()
    &&& heap1.subrange(0, heap0.len() as int) == heap0
    &&& forall|i: int|
            heap0.len() <= i < heap1.len() ==> {
                &&& (#[trigger] heap1[i]).0 >= du
                &&& heap1[i].1 < g.num_vertices()
                &&& heap1[i].2 == u
            }
    &&& relaxed(g, ans0, u, du) ==> ans1 == ans0 && heap1
            == heap0
}

/// Relaxes every edge out of `u`, whose distance is `du`: a target that is
/// not yet reached, or reached at a greater distance, is recorded with `u`
/// as predecessor, and a matching entry is pushed onto the frontier.
fn relax(
    g: &Graph,
    ans: &mut Vec<Entry>,
    heap: &mut Vec<(u64, usize, usize)>,
    u: usize,
    du: u64,
)
    requires
        g@.wf(),
        old(ans)@.len() == g@.num_vertices(),
        u < g@.num_vertices(),
        forall|k: int| 0 <= k < g@.adj[u as int].len() ==> du + (#[trigger] g@.adj[u as int][k]).1 <= u64::MAX,
    ensures
        relax_result(g@, old(ans)@, old(heap)@, final(ans)@, final(heap)@, u as int, du as int),
{
    let ghost ans0 = ans@;
    let ghost heap0 = heap@;
    let ghost was_relaxed = relaxed(g@, ans0, u as int, du as int);
    let row = &g.adj[u];
    assert(row@ == g@.adj[u as int]);
    let mut k: usize = 0;
    while k < row.len()
        invariant
            g@.wf(),
            u < g@.num_vertices(),
            row@ == g@.adj[u as int],
            k <= row@.len(),
            forall|k: int| 0 <= k < row@.len() ==> du + (#[trigger] row@[k]).1 <= u64::MAX,
            ans@.len() == ans0.len(),
            ans0.len() == g@.num_vertices(),
            forall|x: int|
                0 <= x < ans@.len() && #[trigger] ans@[x] != ans0[x] ==> {
                    &&& ans0[x] is None || (ans0[x] is Some && ans0[x] != Some(None::<(usize, u64)>) && dist(ans@[x]) < dist(ans0[x]))
                    &&& ans@[x] is Some
                    &&& ans@[x] != Some(None::<(usize, u64)>)
                    &&& pred(ans@[x]) == u
                    &&& dist(ans@[x]) >= du
                    &&& g@.has_edge(u as int, x, dist(ans@[x]) - du)
                    &&& heap@.contains((dist(ans@[x]) as u64, x as usize, u))
                },
            forall|j: int|
                0 <= j < k ==> {
                    let (x, w) = #[trigger] row@[j];
                    &&& ans@[x as int] is Some
                    &&& dist(ans@[x as int]) <= du + w
                },
            heap@.len() >= heap0.len(),
            heap@.subrange(0, heap0.len() as int) == heap0,
            forall|i: int|
                heap0.len() <= i < heap@.len() ==> {
                    &&& (#[trigger] heap@[i]).0 >= du
                    &&& heap@[i].1 < g@.num_vertices()
                    &&& heap@[i].2 == u
                },
            was_relaxed == relaxed(g@, ans0, u as int, du as int),
            was_relaxed ==> ans@ == ans0 && heap@ == heap0,
        decreases row@.len() - k,
    {
        let (x, w) = row[k];
        assert(row@[k as int] == g@.adj[u as int][k as int]);
        let nd: u64 = du + w;
        let improve = match ans[x] {
            Some(None) => false,
            Some(Some((_, dx))) => nd < dx,
            None => true,
        };
        if improve {
            let ghost ans1 = ans@;
            let ghost heap1 = heap@;
            ans.set(x, Some(Some((u, nd))));
            heap.push((nd, x, u));
            assert(g@.has_edge(u as int, x as int, nd - du));
            assert(heap@[heap@.len() - 1] == (nd, x, u));
            assert(heap@.subrange(0, heap0.len() as int) =~= heap1.subrange(0, heap0.len() as int));
            assert forall|y: int|
                0 <= y < ans@.len() && #[trigger] ans@[y] != ans0[y] implies
                    heap@.contains((dist(ans@[y]) as u64, y as usize, u)) by {
                if y != x {
                    assert(ans@[y] == ans1[y]);
                    let i = choose|i: int| 0 <= i < heap1.len() && heap1[i] == (dist(ans1[y]) as u64, y as usize, u);
                    assert(heap@[i] == heap1[i]);
                } else {
                    assert(heap@[heap@.len() - 1] == (dist(ans@[y]) as u64, y as usize, u));
                }
            }
            assert forall|j: int| 0 <= j < k + 1 implies {
                let (x, w) = #[trigger] row@[j];
                &&& ans@[x as int] is Some
                &&& dist(ans@[x as int]) <= du + w
            } by {
                if j < k {
                    let (y, wy) = row@[j];
                    if y != x {
                        assert(ans@[y as int] == ans1[y as int]);
                    }
                }
            }
            proof {
                if was_relaxed {
                    assert(ans0 == ans1);
                    assert(0 <= k < g@.adj[u as int].len());
                    let (xx, ww) = g@.adj[u as int][k as int];
                    assert(ans0[xx as int] is Some);
                    assert(false);
                }
            }
        }
        k = k + 1;
    }
}


/// Orders frontier entries by distance, then by the names of the vertex and
/// of its predecessor.
fn entry_before(g: &Graph, a: (u64, usize, usize), b: (u64, usize, usize)) -> (r: bool)
    requires
        a.1 < g@.num_vertices(),
        a.2 < g@.num_vertices(),
        b.1 < g@.num_vertices(),
        b.2 < g@.num_vertices(),
        g@.wf(),
    ensures
        r ==> a.0 <= b.0,
        a.0 < b.0 ==> r,
{
    if a.0 != b.0 {
        return a.0 < b.0;
    }
    let na = g.names[a.1] as u32;
    let nb = g.names[b.1] as u32;
    if na != nb {
        return na < nb;
    }
    (g.names[a.2] as u32) < (g.names[b.2] as u32)
}

/// Index of a frontier entry of least distance.
fn min_index(g: &Graph, heap: &Vec<(u64, usize, usize)>) -> (r: usize)
    requires
        g@.wf(),
        heap@.len() > 0,
        forall|i: int|
            0 <= i < heap@.len() ==> (#[trigger] heap@[i]).1 < g@.num_vertices() && heap@[i].2
                < g@.num_vertices(),
    ensures
        r < heap@.len(),
        forall|i: int| 0 <= i < heap@.len() ==> heap@[r as int].0 <= (#[trigger] heap@[i]).0,
{
    let mut best: usize = 0;
    let mut i: usize = 1;
    while i < heap.len()
        invariant
            g@.wf(),
            forall|i: int|
                0 <= i < heap@.len() ==> (#[trigger] heap@[i]).1 < g@.num_vertices() && heap@[i].2
                    < g@.num_vertices(),
            1 <= i <= heap@.len(),
            best < i,
            forall|j: int| 0 <= j < i ==> heap@[best as int].0 <= (#[trigger] heap@[j]).0,
        decreases heap@.len() - i,
    {
        if entry_before(g, heap[i], heap[best]) {
            best = i;
        }
        i = i + 1;
    }
    best
}


/// The state of the search between two pops: recorded entries agree with
/// their settled predecessors, every reached vertex has a walk of its
/// distance, every reached vertex is settled or waits on the frontier, and
/// settled vertices have all their edges relaxed.
#[verifier::opaque]
pub open spec fn search_state(
    g: GraphView,
    s: int,
    ans: Seq<Entry>,
    heap: Seq<(u64, usize, usize)>,
    settled: Set<int>,
    level: int,
) -> bool {
    &&& ans.len() == g.num_vertices()
    &&& 0 <= s < ans.len()
    &&& ans[s] == Some(None::<(usize, u64)>)
    &&& settled.finite()
    &&& settled.contains(s)
    &&& forall|v: int| #[trigger] settled.contains(v) ==> 0 <= v < ans.len()
    &&& 0 <= level
    &&& forall|v: int|
        0 <= v < ans.len() && v != s && (#[trigger] ans[v]) is Some ==> match ans[v] {
            Some(Some((p, d))) => {
                &&& p < ans.len()
                &&& settled.contains(p as int)
                &&& g.has_edge(p as int, v, d - dist(ans[p as int]))
            },
            _ => false,
        }
    &&& forall|v: int|
        0 <= v < ans.len() && (#[trigger] ans[v]) is Some ==> exists|walk: Seq<(usize, u64)>|
            is_walk(g, s, walk) && walk_end(s, walk) == v && walk_weight(walk) == dist(ans[v])
    &&& forall|v: int|
        0 <= v < ans.len() && (#[trigger] ans[v]) is Some && !settled.contains(v) ==> heap.contains(
            (dist(ans[v]) as u64, v as usize, pred(ans[v])),
        )
    &&& forall|v: int| #[trigger]
        settled.contains(v) ==> {
            &&& ans[v] is Some
            &&& dist(ans[v]) <= level
            &&& relaxed(g, ans, v, dist(ans[v]))
        }
    &&& forall|i: int|
        0 <= i < heap.len() ==> {
            &&& (#[trigger] heap[i]).0 >= level
            &&& heap[i].1 < ans.len()
            &&& heap[i].2 < ans.len()
        }
    &&& forall|v: int|
        0 <= v < ans.len() && (#[trigger] ans[v]) is Some ==> dist(ans[v]) <= settled.len()
            * g.max_weight
    &&& forall|v: int| #[trigger]
        settled.contains(v) ==> dist(ans[v]) <= (settled.len() - 1) * g.max_weight
}

proof fn lemma_settled_len(settled: Set<int>, n: int, u: int)
    requires
        0 <= n,
        forall|v: int| #[trigger] settled.contains(v) ==> 0 <= v < n,
    ensures
        settled.finite(),
        settled.len() <= n,
        0 <= u < n && !settled.contains(u) ==> settled.len() < n,
{
    vstd::set_lib::lemma_int_range(0, n);
    let r = vstd::set_lib::set_int_range(0, n);
    vstd::set_lib::lemma_len_subset(settled, r);
    if 0 <= u < n && !settled.contains(u) {
        vstd::set_lib::lemma_len_subset(settled, r.remove(u));
    }
}

proof fn lemma_state_facts(
    g: GraphView,
    s: int,
    ans: Seq<Entry>,
    heap: Seq<(u64, usize, usize)>,
    settled: Set<int>,
    level: int,
)
    requires
        search_state(g, s, ans, heap, settled, level),
    ensures
        ans.len() == g.num_vertices(),
        settled.contains(s),
        forall|v: int| 0 <= v < ans.len() && v != s ==> #[trigger] ans[v] != Some(None::<(usize, u64)>),
        settled.finite(),
        settled.len() <= g.num_vertices(),
        forall|j: int|
            0 <= j < heap.len() ==> (#[trigger] heap[j]).1 < g.num_vertices() && heap[j].2
                < g.num_vertices() && heap[j].0 >= level,
        forall|v: int|
            0 <= v < ans.len() && (#[trigger] ans[v]) is Some && !settled.contains(v) ==> heap.contains(
                (dist(ans[v]) as u64, v as usize, pred(ans[v])),
            ),
{
    reveal(search_state);
    lemma_settled_len(settled, g.num_vertices(), -1);
}

proof fn lemma_frontier_remove(
    g: GraphView,
    s: int,
    ans: Seq<Entry>,
    heap: Seq<(u64, usize, usize)>,
    i: int,
    settled: Set<int>,
    level: int,
)
    requires
        g.wf(),
        search_state(g, s, ans, heap, settled, level),
        0 <= i < heap.len(),
        forall|j: int| 0 <= j < heap.len() ==> heap[i].0 <= (#[trigger] heap[j]).0,
        ans[heap[i].1 as int] != Some(Some((heap[i].2, heap[i].0))),
    ensures
        forall|v: int|
            0 <= v < ans.len() && (#[trigger] ans[v]) is Some && !settled.contains(v) ==> heap.remove(i).contains(
                (dist(ans[v]) as u64, v as usize, pred(ans[v])),
            ),
        forall|j: int|
            0 <= j < heap.remove(i).len() ==> {
                &&& (#[trigger] heap.remove(i)[j]).0 >= heap[i].0
                &&& heap.remove(i)[j].1 < ans.len()
                &&& heap.remove(i)[j].2 < ans.len()
            },
{
    lemma_state_facts(g, s, ans, heap, settled, level);
    let h1 = heap.remove(i);
    assert forall|v: int|
        0 <= v < ans.len() && (#[trigger] ans[v]) is Some && !settled.contains(v) implies h1.contains(
            (dist(ans[v]) as u64, v as usize, pred(ans[v])),
        ) by {
        let ev = (dist(ans[v]) as u64, v as usize, pred(ans[v]));
        let j = choose|j: int| 0 <= j < heap.len() && heap[j] == ev;
        assert(v != s);
        assert(ans[v] == Some(Some((pred(ans[v]), dist(ans[v]) as u64))));
        if j < i {
            assert(h1[j] == ev);
        } else {
            assert(j != i);
            assert(h1[j - 1] == ev);
        }
    }
    assert forall|j: int| 0 <= j < h1.len() implies {
        &&& (#[trigger] h1[j]).0 >= heap[i].0
        &&& h1[j].1 < ans.len()
        &&& h1[j].2 < ans.len()
    } by {
        if j < i {
            assert(h1[j] == heap[j]);
        } else {
            assert(h1[j] == heap[j + 1]);
        }
    }
}

/// Popping an entry that no longer matches its vertex's record changes
/// nothing but the frontier.
proof fn lemma_stale_step(
    g: GraphView,
    s: int,
    ans: Seq<Entry>,
    heap: Seq<(u64, usize, usize)>,
    i: int,
    settled: Set<int>,
    level: int,
)
    requires
        g.wf(),
        search_state(g, s, ans, heap, settled, level),
        0 <= i < heap.len(),
        forall|j: int| 0 <= j < heap.len() ==> heap[i].0 <= (#[trigger] heap[j]).0,
        ans[heap[i].1 as int] != Some(Some((heap[i].2, heap[i].0))),
    ensures
        search_state(g, s, ans, heap.remove(i), settled, heap[i].0 as int),
{
    lemma_frontier_remove(g, s, ans, heap, i, settled, level);
    lemma_state_facts(g, s, ans, heap, settled, level);
    reveal(search_state);
}

/// Before relaxing the edges of a freshly popped vertex `u`, its distance
/// plus any edge weight fits in a `u64`.
proof fn lemma_current_bound(
    g: GraphView,
    s: int,
    ans: Seq<Entry>,
    heap: Seq<(u64, usize, usize)>,
    settled: Set<int>,
    level: int,
    u: int,
    d: int,
)
    requires
        g.wf(),
        g.distances_fit(),
        search_state(g, s, ans, heap, settled, level),
        0 <= u < ans.len(),
        ans[u] is Some,
        dist(ans[u]) == d,
    ensures
        forall|k: int| 0 <= k < g.adj[u].len() ==> d + (#[trigger] g.adj[u][k]).1 <= u64::MAX,
{
    reveal(search_state);
    lemma_settled_len(settled, g.num_vertices(), u);
    let k0 = settled.len() as int;
    let w = g.max_weight as int;
    let n = g.num_vertices();
    assert forall|k: int| 0 <= k < g.adj[u].len() implies d + (#[trigger] g.adj[u][k]).1 <= u64::MAX by {
        assert(g.adj[u][k].1 <= w);
        if settled.contains(u) {
            assert(d <= (k0 - 1) * w);
            assert((k0 - 1) * w + w == k0 * w) by (nonlinear_arith);
            assert(k0 * w <= n * w) by (nonlinear_arith)
                requires
                    k0 <= n,
                    w >= 0,
            ;
        } else {
            assert(d <= k0 * w);
            assert(k0 * w + w == (k0 + 1) * w) by (nonlinear_arith);
            assert((k0 + 1) * w <= n * w) by (nonlinear_arith)
                requires
                    k0 + 1 <= n,
                    w >= 0,
            ;
        }
    }
}

proof fn lemma_step_records(
    g: GraphView,
    s: int,
    ans: Seq<Entry>,
    heap: Seq<(u64, usize, usize)>,
    i: int,
    ans2: Seq<Entry>,
    heap2: Seq<(u64, usize, usize)>,
    settled: Set<int>,
    level: int,
)
    requires
        g.wf(),
        search_state(g, s, ans, heap, settled, level),
        0 <= i < heap.len(),
        ans[heap[i].1 as int] == Some(Some((heap[i].2, heap[i].0))),
        relax_result(g, ans, heap.remove(i), ans2, heap2, heap[i].1 as int, heap[i].0 as int),
    ensures
        heap[i].1 as int != s,
        ans2.len() == ans.len(),
        forall|v: int|
            0 <= v < ans.len() && (settled.contains(v) || v == heap[i].1 as int) ==> #[trigger] ans2[v] == ans[v],
        forall|v: int|
            0 <= v < ans.len() && ans[v] is Some ==> (#[trigger] ans2[v]) is Some && dist(ans2[v]) <= dist(ans[v]),
{
    reveal(search_state);
    let u = heap[i].1 as int;
    let d = heap[i].0 as int;
    assert(heap[i].0 >= level);
    assert forall|v: int|
        0 <= v < ans.len() && (settled.contains(v) || v == u) implies #[trigger] ans2[v] == ans[v] by {
        if ans2[v] != ans[v] {
            if v == u {
                let k = choose|k: int| 0 <= k < g.adj[u].len() && (#[trigger] g.adj[u][k]).0 == v && g.adj[u][k].1 == dist(ans2[v]) - d;
                assert(g.adj[u][k].1 >= 0);
            } else {
                assert(dist(ans[v]) <= level);
            }
        }
    }
}

proof fn lemma_step_frontier(
    g: GraphView,
    s: int,
    ans: Seq<Entry>,
    heap: Seq<(u64, usize, usize)>,
    i: int,
    ans2: Seq<Entry>,
    heap2: Seq<(u64, usize, usize)>,
    settled: Set<int>,
    level: int,
)
    requires
        g.wf(),
        search_state(g, s, ans, heap, settled, level),
        0 <= i < heap.len(),
        forall|j: int| 0 <= j < heap.len() ==> heap[i].0 <= (#[trigger] heap[j]).0,
        ans[heap[i].1 as int] == Some(Some((heap[i].2, heap[i].0))),
        relax_result(g, ans, heap.remove(i), ans2, heap2, heap[i].1 as int, heap[i].0 as int),
    ensures
        forall|v: int|
            0 <= v < ans.len() && (#[trigger] ans2[v]) is Some && !settled.insert(heap[i].1 as int).contains(v) ==> heap2.contains(
                (dist(ans2[v]) as u64, v as usize, pred(ans2[v])),
            ),
        forall|j: int|
            0 <= j < heap2.len() ==> {
                &&& (#[trigger] heap2[j]).0 >= heap[i].0
                &&& heap2[j].1 < ans.len()
                &&& heap2[j].2 < ans.len()
            },
{
    lemma_state_facts(g, s, ans, heap, settled, level);
    let h1 = heap.remove(i);
    let u = heap[i].1 as int;
    let d = heap[i].0 as int;
    let st2 = settled.insert(u);
    assert forall|v: int|
        0 <= v < ans.len() && (#[trigger] ans2[v]) is Some && !st2.contains(v) implies heap2.contains(
            (dist(ans2[v]) as u64, v as usize, pred(ans2[v])),
        ) by {
        if ans2[v] == ans[v] {
            let ev = (dist(ans[v]) as u64, v as usize, pred(ans[v]));
            assert(heap.contains(ev));
            let j = choose|j: int| 0 <= j < heap.len() && heap[j] == ev;
            let jj = if j < i { j } else { j - 1 };
            assert(st2.contains(u));
            assert(v != u);
            assert(heap[i].1 != v as usize);
            assert(j != i);
            assert(h1[jj] == ev);
            assert(heap2.subrange(0, h1.len() as int)[jj] == ev);
            assert(heap2[jj] == ev);
        }
    }
    assert forall|j: int| 0 <= j < heap2.len() implies {
        &&& (#[trigger] heap2[j]).0 >= d
        &&& heap2[j].1 < ans.len()
        &&& heap2[j].2 < ans.len()
    } by {
        if j < h1.len() {
            assert(heap2.subrange(0, h1.len() as int)[j] == h1[j]);
            if j < i {
                assert(h1[j] == heap[j]);
            } else {
                assert(h1[j] == heap[j + 1]);
            }
        }
    }
}

/// Popping an entry that matches its vertex's record, and relaxing that
/// vertex's edges, settles it.
#[verifier::spinoff_prover]
#[verifier::rlimit(100)]
proof fn lemma_current_step(
    g: GraphView,
    s: int,
    ans: Seq<Entry>,
    heap: Seq<(u64, usize, usize)>,
    i: int,
    ans2: Seq<Entry>,
    heap2: Seq<(u64, usize, usize)>,
    settled: Set<int>,
    level: int,
)
    requires
        g.wf(),
        search_state(g, s, ans, heap, settled, level),
        0 <= i < heap.len(),
        forall|j: int| 0 <= j < heap.len() ==> heap[i].0 <= (#[trigger] heap[j]).0,
        ans[heap[i].1 as int] == Some(Some((heap[i].2, heap[i].0))),
        relax_result(g, ans, heap.remove(i), ans2, heap2, heap[i].1 as int, heap[i].0 as int),
    ensures
        search_state(g, s, ans2, heap2, settled.insert(heap[i].1 as int), heap[i].0 as int),
        settled.contains(heap[i].1 as int) ==> heap2 == heap.remove(i),
{
    lemma_step_records(g, s, ans, heap, i, ans2, heap2, settled, level);
    lemma_step_frontier(g, s, ans, heap, i, ans2, heap2, settled, level);
    reveal(search_state);
    let (d0, u0, p0) = heap[i];
    let u = u0 as int;
    let d = d0 as int;
    let st2 = settled.insert(u);
    let n = g.num_vertices();
    let w = g.max_weight as int;
    lemma_settled_len(settled, n, u);
    assert(ans2[s] == ans[s]);
    // predecessors
    assert forall|v: int|
        0 <= v < n && v != s && (#[trigger] ans2[v]) is Some implies match ans2[v] {
            Some(Some((p, dd))) => {
                &&& p < n
                &&& st2.contains(p as int)
                &&& g.has_edge(p as int, v, dd - dist(ans2[p as int]))
            },
            _ => false,
        } by {
        if ans2[v] != ans[v] {
            assert(ans2[u] == ans[u]);
        } else {
            let pp = pred(ans[v]) as int;
            assert(settled.contains(pp));
            assert(ans2[pp] == ans[pp]);
        }
    }
    // walks
    assert forall|v: int|
        0 <= v < n && (#[trigger] ans2[v]) is Some implies exists|walk: Seq<(usize, u64)>|
            is_walk(g, s, walk) && walk_end(s, walk) == v && walk_weight(walk) == dist(ans2[v]) by {
        if ans2[v] != ans[v] {
            assert(ans[u] is Some);
            let wu = choose|walk: Seq<(usize, u64)>|
                is_walk(g, s, walk) && walk_end(s, walk) == u && walk_weight(walk) == dist(ans[u]);
            let k = choose|k: int| 0 <= k < g.adj[u].len() && (#[trigger] g.adj[u][k]).0 == v && g.adj[u][k].1 == dist(ans2[v]) - d;
            lemma_walk_push(g, s, wu, v as usize, g.adj[u][k].1);
        }
    }
    // settled vertices stay relaxed
    assert forall|v: int| #[trigger] st2.contains(v) implies {
        &&& ans2[v] is Some
        &&& dist(ans2[v]) <= d
        &&& relaxed(g, ans2, v, dist(ans2[v]))
    } by {
        if v != u {
            assert(ans2[v] == ans[v]);
            assert forall|k: int| 0 <= k < g.adj[v].len() implies {
                let (x, ww) = #[trigger] g.adj[v][k];
                &&& ans2[x as int] is Some
                &&& dist(ans2[x as int]) <= dist(ans2[v]) + ww
            } by {
                let (x, ww) = g.adj[v][k];
                assert(ans[x as int] is Some);
                assert(ans2[x as int] is Some && dist(ans2[x as int]) <= dist(ans[x as int]));
            }
        }
    }
    // distance bounds
    if settled.contains(u) {
        assert(relaxed(g, ans, u, d));
        assert(st2 =~= settled);
    } else {
        let k0 = settled.len() as int;
        assert(st2.len() == k0 + 1);
        assert(k0 * w + w == (k0 + 1) * w) by (nonlinear_arith);
        assert(k0 * w <= (k0 + 1) * w) by (nonlinear_arith)
            requires
                w >= 0,
        ;
        assert forall|v: int| 0 <= v < n && (#[trigger] ans2[v]) is Some implies dist(ans2[v]) <= st2.len() * w by {
            if ans2[v] != ans[v] {
                let k = choose|k: int| 0 <= k < g.adj[u].len() && (#[trigger] g.adj[u][k]).0 == v && g.adj[u][k].1 == dist(ans2[v]) - d;
                assert(g.adj[u][k].1 <= w);
            }
        }
        assert forall|v: int| #[trigger] st2.contains(v) implies dist(ans2[v]) <= (st2.len() - 1) * w by {
            if v != u {
                assert(ans2[v] == ans[v]);
                assert((k0 - 1) * w <= k0 * w) by (nonlinear_arith)
                    requires
                        w >= 0,
                ;
            }
        }
    }
}

/// The search after relaxing the edges of the start vertex.
proof fn lemma_seed(
    gv: GraphView,
    s: int,
    ans0: Seq<Entry>,
    heap0: Seq<(u64, usize, usize)>,
    ans: Seq<Entry>,
    heap: Seq<(u64, usize, usize)>,
)
    requires
        gv.wf(),
        0 <= s < gv.num_vertices(),
        ans0.len() == gv.num_vertices(),
        forall|v: int| 0 <= v < ans0.len() && v != s ==> (#[trigger] ans0[v]) is None,
        ans0[s] == Some(None::<(usize, u64)>),
        heap0.len() == 0,
        relax_result(gv, ans0, heap0, ans, heap, s, 0),
    ensures
        search_state(gv, s, ans, heap, set![s], 0),
{
    let settled = set![s];
    assert(settled.len() == 1);
    assert(ans[s] == ans0[s]);
    let e: Seq<(usize, u64)> = Seq::empty();
    assert(is_walk(gv, s, e));
    assert(walk_weight(e) == 0);
    assert forall|v: int|
        0 <= v < ans.len() && (#[trigger] ans[v]) is Some implies exists|walk: Seq<(usize, u64)>|
            is_walk(gv, s, walk) && walk_end(s, walk) == v && walk_weight(walk) == dist(ans[v]) by {
        if v == s {
            assert(walk_end(s, e) == v);
        } else {
            assert(ans[v] != ans0[v]);
            let k = choose|k: int| 0 <= k < gv.adj[s].len() && (#[trigger] gv.adj[s][k]).0 == v && gv.adj[s][k].1 == dist(ans[v]) - 0;
            lemma_walk_push(gv, s, e, v as usize, gv.adj[s][k].1);
        }
    }
    assert forall|v: int| 0 <= v < ans.len() && (#[trigger] ans[v]) is Some implies dist(ans[v]) <= settled.len() * gv.max_weight by {
        if v != s {
            assert(ans[v] != ans0[v]);
            let k = choose|k: int| 0 <= k < gv.adj[s].len() && (#[trigger] gv.adj[s][k]).0 == v && gv.adj[s][k].1 == dist(ans[v]) - 0;
            assert(gv.adj[s][k].1 <= gv.max_weight);
        }
    }
    reveal(search_state);
}

/// Once the frontier is empty, every reached vertex is settled, and the
/// records form a shortest-path tree.
proof fn lemma_finish(
    g: GraphView,
    s: int,
    ans: Seq<Entry>,
    heap: Seq<(u64, usize, usize)>,
    settled: Set<int>,
    level: int,
)
    requires
        search_state(g, s, ans, heap, settled, level),
        heap.len() == 0,
    ensures
        is_shortest_path_tree(g, s, ans),
{
    reveal(search_state);
    assert forall|v: int| 0 <= v < ans.len() && (#[trigger] ans[v]) is Some implies settled.contains(v) by {
        if !settled.contains(v) {
            assert(heap.contains((dist(ans[v]) as u64, v as usize, pred(ans[v]))));
        }
    }
    assert forall|u: int| 0 <= u < ans.len() && (#[trigger] ans[u]) is Some implies relaxed(g, ans, u, dist(ans[u])) by {
        assert(settled.contains(u));
    }
}

/// Shortest paths from vertex `s`, by index: entry `v` of the result is
/// what the search recorded for vertex `v`.
pub fn shortest_paths_indexed(g: &Graph, s: usize) -> (res: Vec<Entry>)
    requires
        g@.wf(),
        s < g@.num_vertices(),
        g@.distances_fit(),
    ensures
        is_shortest_path_tree(g@, s as int, res@),
{
    let n = g.names.len();
    let mut ans: Vec<Entry> = Vec::new();
    let mut i: usize = 0;
    while i < n
        invariant
            i <= n,
            ans@.len() == i,
            forall|j: int| 0 <= j < i ==> (#[trigger] ans@[j]) is None,
        decreases n - i,
    {
        ans.push(None);
        i = i + 1;
    }
    ans.set(s, Some(None));
    let mut heap: Vec<(u64, usize, usize)> = Vec::new();
    let ghost mut settled: Set<int> = set![s as int];
    let ghost mut level: int = 0;
    let ghost gv = g@;
    let ghost w = g@.max_weight as int;
    proof {
        assert forall|k: int| 0 <= k < gv.adj[s as int].len() implies 0 + (#[trigger] gv.adj[s as int][k]).1 <= u64::MAX by {
            assert(gv.adj[s as int][k].1 <= gv.max_weight);
        }
    }
    let ghost ans0 = ans@;
    let ghost heap0 = heap@;
    relax(g, &mut ans, &mut heap, s, 0);
    proof {
        lemma_seed(gv, s as int, ans0, heap0, ans@, heap@);
    }
    while heap.len() > 0
        invariant
            g@ == gv,
            gv.wf(),
            gv.distances_fit(),
            w == gv.max_weight,
            search_state(gv, s as int, ans@, heap@, settled, level),
        decreases gv.num_vertices() - settled.len(), heap@.len(),
    {
        proof {
            lemma_state_facts(gv, s as int, ans@, heap@, settled, level);
        }
        let i = min_index(g, &heap);
        let ghost heap_full = heap@;
        let (d, u, p) = heap.remove(i);
        let current = match ans[u] {
            Some(Some((pp, dd))) => pp == p && dd == d,
            _ => false,
        };
        if current {
            let ghost ans1 = ans@;
            let ghost heap1 = heap@;
            proof {
                lemma_current_bound(gv, s as int, ans1, heap_full, settled, level, u as int, d as int);
            }
            relax(g, &mut ans, &mut heap, u, d);
            proof {
                lemma_current_step(gv, s as int, ans1, heap_full, i as int, ans@, heap@, settled, level);
                settled = settled.insert(u as int);
                level = d as int;
                lemma_state_facts(gv, s as int, ans@, heap@, settled, level);
            }
        } else {
            proof {
                lemma_stale_step(gv, s as int, ans@, heap_full, i as int, settled, level);
                level = d as int;
            }
        }
    }
    proof {
        lemma_finish(gv, s as int, ans@, heap@, settled, level);
    }
    ans
}


impl Graph {
    /// An empty graph.
    pub fn new() -> (g: Graph)
        ensures
            g@.wf(),
            g@.names.len() == 0,
            g@.max_weight == 0,
    {
        Graph { names: Vec::new(), adj: Vec::new(), max_weight: 0 }
    }

    /// Index of the vertex named `c`, if there is one.
    pub fn find_vertex(&self, c: char) -> (r: Option<usize>)
        requires
            self@.wf(),
        ensures
            match r {
                Some(i) => i < self@.names.len() && self@.names[i as int] == c,
                None => !self@.names.contains(c),
            },
    {
        let mut i: usize = 0;
        while i < self.names.len()
            invariant
                i <= self.names@.len(),
                forall|j: int| 0 <= j < i ==> self.names@[j] != c,
            decreases self.names@.len() - i,
        {
            if self.names[i] == c {
                return Some(i);
            }
            i = i + 1;
        }
        None
    }

    /// Index of the vertex named `c`, adding it without edges if it is new.
    fn vertex_index(&mut self, c: char) -> (r: usize)
        requires
            old(self)@.wf(),
            old(self)@.names.len() < usize::MAX,
        ensures
            final(self)@.wf(),
            r < final(self)@.names.len(),
            final(self)@.names[r as int] == c,
            final(self)@.max_weight == old(self)@.max_weight,
            final(self)@.names == add_name(old(self)@.names, c),
            forall|i: int| 0 <= i < old(self)@.adj.len() ==> #[trigger] final(self)@.adj[i] == old(self)@.adj[i],
            forall|i: int| old(self)@.adj.len() <= i < final(self)@.adj.len() ==> #[trigger] final(self)@.adj[i].len() == 0,
    {
        match self.find_vertex(c) {
            Some(i) => {
                proof {
                    assert(self@.names.contains(c));
                }
                i
            },
            None => {
                let ghost g0 = self@;
                self.names.push(c);
                self.adj.push(Vec::new());
                assert(self@.adj =~= g0.adj.push(Seq::empty()));
                assert forall|i: int, j: int| 0 <= i < j < self@.names.len() implies self@.names[i] != self@.names[j] by {
                    if j == self@.names.len() - 1 {
                        assert(g0.names[i] == self@.names[i]);
                    }
                }
                self.names.len() - 1
            },
        }
    }

    /// Adds the edge `u -> v` of weight `w`, replacing an edge `u -> v`
    /// that was there; both names become vertices of the graph.
    pub fn add_edge(&mut self, u: char, v: char, w: u64)
        requires
            old(self)@.wf(),
            old(self)@.names.len() + 2 <= usize::MAX,
        ensures
            final(self)@.wf(),
            final(self)@.names == add_name(add_name(old(self)@.names, u), v),
            final(self)@.max_weight == if w > old(self)@.max_weight { w } else { old(self)@.max_weight },
            forall|i: int, j: int|
                0 <= i < final(self)@.num_vertices() && 0 <= j < final(self)@.num_vertices()
                    && final(self)@.names[i] == u && final(self)@.names[j] == v ==> {
                    &&& final(self)@.has_edge(i, j, w as int)
                    &&& forall|x: int| #[trigger] final(self)@.has_edge(i, j, x) ==> x == w
                },
            forall|i: int, j: int, x: int|
                0 <= i < final(self)@.num_vertices() && !(final(self)@.names[i] == u && final(self)@.names[j] == v) ==> (
                #[trigger] final(self)@.has_edge(i, j, x) <==> (i < old(self)@.num_vertices() && old(self)@.has_edge(i, j, x))),
    {
        let ghost g0 = self@;
        let iu = self.vertex_index(u);
        let ghost gm = self@;
        let iv = self.vertex_index(v);
        let ghost g1 = self@;
        proof {
            assert forall|i: int, j: int, x: int| 0 <= i < g1.num_vertices() implies (#[trigger] g1.has_edge(i, j, x) <==> (i < g0.num_vertices() && g0.has_edge(i, j, x))) by {
                if i < g0.adj.len() {
                    assert(g1.adj[i] == gm.adj[i]);
                    assert(gm.adj[i] == g0.adj[i]);
                } else if i < gm.adj.len() {
                    assert(g1.adj[i] == gm.adj[i]);
                    assert(gm.adj[i].len() == 0);
                } else {
                    assert(g1.adj[i].len() == 0);
                }
            }
        }
        if w > self.max_weight {
            self.max_weight = w;
        }
        let mut row: Vec<(usize, u64)> = Vec::new();
        let mut found = false;
        let mut k: usize = 0;
        let n_row = self.adj[iu].len();
        while k < n_row
            invariant
                self@.names == g1.names,
                self@.adj == g1.adj,
                self@.max_weight >= g1.max_weight,
                self@.max_weight >= w,
                iu < g1.adj.len(),
                n_row == g1.adj[iu as int].len(),
                k <= n_row,
                row@.len() == k,
                forall|t: int| 0 <= t < k ==> #[trigger] row@[t] == if g1.adj[iu as int][t].0 == iv { (iv, w) } else { g1.adj[iu as int][t] },
                found <==> exists|t: int| 0 <= t < k && (#[trigger] g1.adj[iu as int][t]).0 == iv,
            decreases n_row - k,
        {
            let (x, xw) = self.adj[iu][k];
            assert(self.adj@[iu as int]@ == g1.adj[iu as int]);
            if x == iv {
                row.push((iv, w));
                found = true;
            } else {
                row.push((x, xw));
            }
            k = k + 1;
        }
        if !found {
            row.push((iv, w));
        }
        let ghost row_v = row@;
        self.adj.set(iu, row);
        proof {
            let g2 = self@;
            let r0 = g1.adj[iu as int];
            assert(g2.adj[iu as int] == row_v);
            assert forall|i: int| 0 <= i < g2.adj.len() && i != iu implies #[trigger] g2.adj[i] == g1.adj[i] by {}
            // the new row keeps targets distinct and in range
            assert forall|t: int| 0 <= t < row_v.len() implies (#[trigger] row_v[t]).0 < g2.names.len() && row_v[t].1 <= g2.max_weight by {
                if t < r0.len() {
                    assert(r0[t].1 <= g1.max_weight);
                }
            }
            assert forall|t1: int, t2: int| 0 <= t1 < t2 < row_v.len() implies (#[trigger] row_v[t1]).0 != (#[trigger] row_v[t2]).0 by {
                if t2 < r0.len() {
                } else {
                    assert(!found);
                    if r0[t1].0 == iv {
                        assert(exists|t: int| 0 <= t < r0.len() && (#[trigger] r0[t]).0 == iv);
                    }
                }
            }
            assert forall|a: int, t: int| 0 <= a < g2.adj.len() && 0 <= t < g2.adj[a].len() implies {
                &&& (#[trigger] g2.adj[a][t]).0 < g2.names.len()
                &&& g2.adj[a][t].1 <= g2.max_weight
            } by {
                if a != iu {
                    assert(g1.adj[a][t].1 <= g1.max_weight);
                }
            }
            assert forall|a: int, t1: int, t2: int|
                0 <= a < g2.adj.len() && 0 <= t1 < t2 < g2.adj[a].len() implies (#[trigger] g2.adj[a][t1]).0 != (#[trigger] g2.adj[a][t2]).0 by {
                if a == iu {
                    assert(row_v[t1].0 != row_v[t2].0);
                }
            }
            assert(g2.wf());
            assert forall|i: int, j: int|
                0 <= i < g2.num_vertices() && 0 <= j < g2.num_vertices() && g2.names[i] == u && g2.names[j] == v implies {
                &&& g2.has_edge(i, j, w as int)
                &&& forall|x: int| #[trigger] g2.has_edge(i, j, x) ==> x == w
            } by {
                assert(i == iu);
                assert(j == iv);
                if found {
                    let t = choose|t: int| 0 <= t < r0.len() && (#[trigger] r0[t]).0 == iv;
                    assert(row_v[t] == (iv, w));
                } else {
                    assert(row_v[row_v.len() - 1] == (iv, w));
                }
                assert forall|x: int| #[trigger] g2.has_edge(i, j, x) implies x == w by {
                    let t = choose|t: int| 0 <= t < g2.adj[i].len() && (#[trigger] g2.adj[i][t]).0 == j && g2.adj[i][t].1 == x;
                    if t < r0.len() {
                    }
                }
            }
            assert forall|i: int, j: int, x: int|
                0 <= i < g2.num_vertices() && !(g2.names[i] == u && g2.names[j] == v) implies (
                #[trigger] g2.has_edge(i, j, x) <==> (i < g0.num_vertices() && g0.has_edge(i, j, x))) by {
                assert(g1.has_edge(i, j, x) <==> (i < g0.num_vertices() && g0.has_edge(i, j, x)));
                if i != iu {
                    assert(g2.adj[i] == g1.adj[i]);
                } else {
                    assert(j != iv);
                    if g2.has_edge(i, j, x) {
                        let t = choose|t: int| 0 <= t < g2.adj[i].len() && (#[trigger] g2.adj[i][t]).0 == j && g2.adj[i][t].1 == x;
                        assert(r0[t] == row_v[t]);
                    }
                    if g1.has_edge(i, j, x) {
                        let t = choose|t: int| 0 <= t < g1.adj[i].len() && (#[trigger] g1.adj[i][t]).0 == j && g1.adj[i][t].1 == x;
                        assert(r0[t] == row_v[t]);
                    }
                }
            }
        }
    }
}

/// `ns` with `c` appended, unless `c` is already there.
pub open spec fn add_name(ns: Seq<char>, c: char) -> Seq<char> {
    if ns.contains(c) {
        ns
    } else {
        ns.push(c)
    }
}


/// Why no shortest paths were computed.
#[derive(Debug, Clone, Copy, PartialEq, Eq)]
pub enum DijkstraError {
    /// The start vertex is not a vertex of the graph.
    UnknownStart,
    /// Some shortest distance might not fit in a `u64`.
    DistanceOverflow,
}

/// The records of vertices `0 .. k` that were reached, by name, in index
/// order: `(v, None)` for the start, `(v, Some((p, d)))` for the others.
pub open spec fn named_records(g: GraphView, res: Seq<Entry>, k: int) -> Seq<(char, Option<(char, u64)>)>
    decreases k,
{
    if k <= 0 {
        Seq::empty()
    } else {
        let prev = named_records(g, res, k - 1);
        match res[k - 1] {
            None => prev,
            Some(None) => prev.push((g.names[k - 1], None)),
            Some(Some((p, d))) => prev.push((g.names[k - 1], Some((g.names[p as int], d)))),
        }
    }
}

impl Graph {
    /// Whether `n * max_weight` fits in a `u64`.
    pub fn distances_fit(&self) -> (r: bool)
        requires
            self@.wf(),
        ensures
            r == self@.distances_fit(),
    {
        let n = self.names.len() as u64;
        n.checked_mul(self.max_weight).is_some()
    }
}

/// Shortest paths from `start`: for every vertex reached from it, the
/// vertex before it on a shortest path and its distance from `start`.
pub fn dijkstra(graph: &Graph, start: &char) -> (r: Result<Vec<(char, Option<(char, u64)>)>, DijkstraError>)
    requires
        graph@.wf(),
    ensures
        match r {
            Err(DijkstraError::UnknownStart) => !graph@.names.contains(*start),
            Err(DijkstraError::DistanceOverflow) => graph@.names.contains(*start) && !graph@.distances_fit(),
            Ok(list) => {
                &&& graph@.names.contains(*start)
                &&& graph@.distances_fit()
                &&& exists|s: int, res: Seq<Entry>|
                    0 <= s < graph@.num_vertices() && graph@.names[s] == *start
                        && is_shortest_path_tree(graph@, s, res)
                        && list@ == named_records(graph@, res, graph@.num_vertices())
            },
        },
{
    let s = match graph.find_vertex(*start) {
        Some(s) => s,
        None => {
            return Err(DijkstraError::UnknownStart);
        },
    };
    if !graph.distances_fit() {
        return Err(DijkstraError::DistanceOverflow);
    }
    let res = shortest_paths_indexed(graph, s);
    let mut list: Vec<(char, Option<(char, u64)>)> = Vec::new();
    let mut v: usize = 0;
    let n = graph.names.len();
    while v < n
        invariant
            graph@.wf(),
            n == graph@.num_vertices(),
            is_shortest_path_tree(graph@, s as int, res@),
            v <= n,
            list@ == named_records(graph@, res@, v as int),
        decreases n - v,
    {
        match res[v] {
            None => {},
            Some(None) => {
                list.push((graph.names[v], None));
            },
            Some(Some((p, d))) => {
                assert(p < res@.len());
                list.push((graph.names[v], Some((graph.names[p], d))));
            },
        }
        v = v + 1;
    }
    proof {
        assert(graph@.names.contains(*start));
    }
    Ok(list)
}

/// Every vertex at the end of a walk from the start is reached, at a
/// distance no greater than the walk's weight.
pub proof fn lemma_shortest(g: GraphView, s: int, res: Seq<Entry>, walk: Seq<(usize, u64)>)
    requires
        g.wf(),
        0 <= s < g.num_vertices(),
        is_shortest_path_tree(g, s, res),
        is_walk(g, s, walk),
    ensures
        0 <= walk_end(s, walk) < res.len(),
        res[walk_end(s, walk)] is Some,
        dist(res[walk_end(s, walk)]) <= walk_weight(walk),
    decreases walk.len(),
{
    if walk.len() > 0 {
        let prefix = walk.drop_last();
        assert forall|i: int| 0 <= i < prefix.len() implies g.has_edge(
            walk_end(s, prefix.take(i)),
            (#[trigger] prefix[i]).0 as int,
            prefix[i].1 as int,
        ) by {
            assert(prefix.take(i) =~= walk.take(i));
            assert(prefix[i] == walk[i]);
        }
        lemma_shortest(g, s, res, prefix);
        let u = walk_end(s, prefix);
        let last = walk.last();
        assert(walk.take(walk.len() - 1) =~= prefix);
        assert(g.has_edge(u, last.0 as int, last.1 as int));
        let k = choose|k: int|
            0 <= k < g.adj[u].len() && (#[trigger] g.adj[u][k]).0 == last.0 as int && g.adj[u][k].1 == last.1 as int;
        assert(relaxed(g, res, u, dist(res[u])));
        assert(g.adj[u][k] == last);
    }
}

/// A vertex is reached exactly when some walk from the start ends at it;
/// a vertex that no walk reaches has no record.
pub proof fn lemma_reached_iff_reachable(g: GraphView, s: int, res: Seq<Entry>, v: int)
    requires
        g.wf(),
        0 <= s < g.num_vertices(),
        0 <= v < g.num_vertices(),
        is_shortest_path_tree(g, s, res),
    ensures
        res[v] is Some <==> reachable(g, s, v),
{
    if reachable(g, s, v) {
        let walk = choose|walk: Seq<(usize, u64)>| is_walk(g, s, walk) && walk_end(s, walk) == v;
        lemma_shortest(g, s, res, walk);
    }
}

/// The start vertex is recorded without a predecessor; every other reached
/// vertex `v`, recorded as `(p, d)`, has an edge `p -> v` whose weight is
/// `d` minus the distance of `p`.
pub proof fn lemma_tree_edges(g: GraphView, s: int, res: Seq<Entry>, v: int)
    requires
        is_shortest_path_tree(g, s, res),
        0 <= v < res.len(),
        v != s,
        res[v] is Some,
    ensures
        res[s] == Some(None::<(usize, u64)>),
        res[v] == Some(Some((pred(res[v]), dist(res[v]) as u64))),
        pred(res[v]) < res.len(),
        res[pred(res[v]) as int] is Some,
        g.has_edge(pred(res[v]) as int, v, dist(res[v]) - dist(res[pred(res[v]) as int])),
{
}

/// Two shortest-path trees from the same start reach the same vertices at
/// the same distances.
pub proof fn lemma_trees_agree(g: GraphView, s: int, res1: Seq<Entry>, res2: Seq<Entry>, v: int)
    requires
        g.wf(),
        0 <= s < g.num_vertices(),
        0 <= v < g.num_vertices(),
        is_shortest_path_tree(g, s, res1),
        is_shortest_path_tree(g, s, res2),
    ensures
        res1[v] is Some <==> res2[v] is Some,
        res1[v] is Some ==> dist(res1[v]) == dist(res2[v]),
{
    lemma_reached_iff_reachable(g, s, res1, v);
    lemma_reached_iff_reachable(g, s, res2, v);
    if res1[v] is Some {
        let w1 = choose|walk: Seq<(usize, u64)>|
            is_walk(g, s, walk) && walk_end(s, walk) == v && walk_weight(walk) == dist(res1[v]);
        let w2 = choose|walk: Seq<(usize, u64)>|
            is_walk(g, s, walk) && walk_end(s, walk) == v && walk_weight(walk) == dist(res2[v]);
        lemma_shortest(g, s, res1, w2);
        lemma_shortest(g, s, res2, w1);
    }
}


/// When the start vertex has no outgoing edges, it is the only vertex
/// reached.
pub proof fn lemma_isolated_start(g: GraphView, s: int, res: Seq<Entry>, v: int)
    requires
        g.wf(),
        0 <= s < g.num_vertices(),
        0 <= v < g.num_vertices(),
        g.adj[s].len() == 0,
        is_shortest_path_tree(g, s, res),
    ensures
        res[v] is Some <==> v == s,
{
    if v != s && res[v] is Some {
        let walk = choose|walk: Seq<(usize, u64)>|
            is_walk(g, s, walk) && walk_end(s, walk) == v && walk_weight(walk) == dist(res[v]);
        assert(walk.len() > 0);
        assert(walk.take(0) =~= Seq::<(usize, u64)>::empty());
        assert(g.has_edge(s, walk[0].0 as int, walk[0].1 as int));
    }
}

} // verus!
