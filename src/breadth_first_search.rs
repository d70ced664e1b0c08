use vstd::prelude::*;

verus! {

/// A vertex, named by a number.
#[derive(Clone, Copy, Debug, PartialEq, Eq, Structural)]
pub struct Node(pub u32);

/// A directed edge from the first vertex to the second.
#[derive(Clone, Copy, Debug, PartialEq, Eq, Structural)]
pub struct Edge(pub u32, pub u32);

/// A graph given by its vertices and its list of edges.
pub struct Graph {
    pub nodes: Vec<Node>,
    pub edges: Vec<Edge>,
}

impl Graph {
    pub fn new(nodes: Vec<Node>, edges: Vec<Edge>) -> (r: Graph)
        ensures
            r.nodes@ == nodes@,
            r.edges@ == edges@,
    {
        Graph { nodes, edges }
    }
}

impl From<u32> for Node {
    fn from(item: u32) -> Node {
        Node(item)
    }
}

impl vstd::std_specs::convert::FromSpecImpl<u32> for Node {
    open spec fn obeys_from_spec() -> bool {
        true
    }

    open spec fn from_spec(v: u32) -> Node {
        Node(v)
    }
}

impl From<(u32, u32)> for Edge {
    fn from(item: (u32, u32)) -> Edge {
        Edge(item.0, item.1)
    }
}

impl vstd::std_specs::convert::FromSpecImpl<(u32, u32)> for Edge {
    open spec fn obeys_from_spec() -> bool {
        true
    }

    open spec fn from_spec(v: (u32, u32)) -> Edge {
        Edge(v.0, v.1)
    }
}

/// The targets of the edges out of `a`, in the order of the edge list.
pub open spec fn neighbors_of(edges: Seq<Edge>, a: u32) -> Seq<Node>
    decreases edges.len(),
{
    if edges.len() == 0 {
        Seq::empty()
    } else {
        let prev = neighbors_of(edges.drop_last(), a);
        if edges.last().0 == a {
            prev.push(Node(edges.last().1))
        } else {
            prev
        }
    }
}

pub open spec fn has_edge(edges: Seq<Edge>, a: u32, b: u32) -> bool {
    exists|i: int| 0 <= i < edges.len() && (#[trigger] edges[i]) == Edge(a, b)
}

/// `path` is a nonempty sequence of vertices, each joined to the next by
/// an edge.
pub open spec fn is_path(edges: Seq<Edge>, path: Seq<u32>) -> bool {
    &&& path.len() > 0
    &&& forall|i: int| 0 <= i < path.len() - 1 ==> has_edge(edges, #[trigger] path[i], path[i + 1])
}

pub open spec fn reachable(edges: Seq<Edge>, a: u32, b: u32) -> bool {
    exists|path: Seq<u32>| is_path(edges, path) && path[0] == a && path.last() == b
}

impl Node {
    pub fn value(&self) -> (r: u32)
        ensures
            r == self.0,
    {
        self.0
    }

    /// The targets of the edges out of this vertex, in edge-list order.
    pub fn neighbors(&self, graph: &Graph) -> (r: Vec<Node>)
        ensures
            r@ == neighbors_of(graph.edges@, self.0),
            forall|x: Node| r@.contains(x) <==> has_edge(graph.edges@, self.0, x.0),
    {
        let mut r: Vec<Node> = Vec::new();
        let mut i: usize = 0;
        while i < graph.edges.len()
            invariant
                i <= graph.edges@.len(),
                r@ == neighbors_of(graph.edges@.take(i as int), self.0),
                forall|x: Node| r@.contains(x) <==> has_edge(graph.edges@.take(i as int), self.0, x.0),
            decreases graph.edges@.len() - i,
        {
            let e = graph.edges[i];
            let ghost before = graph.edges@.take(i as int);
            let ghost after = graph.edges@.take(i + 1);
            assert(after.drop_last() =~= before);
            assert(after.last() == e);
            let ghost r0 = r@;
            if e.0 == self.0 {
                r.push(Node(e.1));
            }
            proof {
                assert forall|x: Node| r@.contains(x) implies has_edge(after, self.0, x.0) by {
                    let k = choose|k: int| 0 <= k < r@.len() && r@[k] == x;
                    if k < r0.len() {
                        assert(r0[k] == x);
                        assert(r0.contains(x));
                        let j = choose|j: int| 0 <= j < before.len() && (#[trigger] before[j]) == Edge(self.0, x.0);
                        assert(after[j] == before[j]);
                    } else {
                        assert(after[i as int] == Edge(self.0, x.0));
                    }
                }
                assert forall|x: Node| has_edge(after, self.0, x.0) implies r@.contains(x) by {
                    let j = choose|j: int| 0 <= j < after.len() && (#[trigger] after[j]) == Edge(self.0, x.0);
                    if j < i {
                        assert(before[j] == after[j]);
                        assert(r0.contains(x));
                        let k = choose|k: int| 0 <= k < r0.len() && r0[k] == x;
                        assert(r@[k] == x);
                    } else {
                        assert(r@[r@.len() - 1] == x);
                    }
                }
            }
            i = i + 1;
        }
        assert(graph.edges@.take(graph.edges@.len() as int) =~= graph.edges@);
        r
    }
}


proof fn lemma_path_push(edges: Seq<Edge>, path: Seq<u32>, b: u32)
    requires
        is_path(edges, path),
        has_edge(edges, path.last(), b),
    ensures
        is_path(edges, path.push(b)),
        path.push(b)[0] == path[0],
        path.push(b).last() == b,
{
    let np = path.push(b);
    assert forall|i: int| 0 <= i < np.len() - 1 implies has_edge(edges, #[trigger] np[i], np[i + 1]) by {
        if i < path.len() - 1 {
            assert(np[i] == path[i] && np[i + 1] == path[i + 1]);
        }
    }
}

/// A set of vertices that holds the start of a path, and every target of
/// an edge out of a vertex it holds, holds the end of the path.
proof fn lemma_closed_holds_path(edges: Seq<Edge>, found: Seq<Node>, path: Seq<u32>)
    requires
        is_path(edges, path),
        found.contains(Node(path[0])),
        forall|n: Node, x: u32|
            #![trigger found.contains(n), found.contains(Node(x))]
            found.contains(n) && has_edge(edges, n.0, x) ==> found.contains(Node(x)),
    ensures
        found.contains(Node(path.last())),
    decreases path.len(),
{
    if path.len() > 1 {
        let prefix = path.drop_last();
        assert forall|i: int| 0 <= i < prefix.len() - 1 implies has_edge(edges, #[trigger] prefix[i], prefix[i + 1]) by {
            assert(prefix[i] == path[i] && prefix[i + 1] == path[i + 1]);
        }
        lemma_closed_holds_path(edges, found, prefix);
        assert(has_edge(edges, path[path.len() - 2], path[path.len() - 1]));
        assert(found.contains(Node(prefix.last())));
    }
}

fn contains_node(v: &Vec<Node>, n: Node) -> (r: bool)
    ensures
        r == v@.contains(n),
{
    let mut i: usize = 0;
    while i < v.len()
        invariant
            i <= v@.len(),
            forall|j: int| 0 <= j < i ==> v@[j] != n,
        decreases v@.len() - i,
    {
        if v[i] == n {
            return true;
        }
        i = i + 1;
    }
    false
}

/// The vertices that the search may ever put in its queue: the root and
/// the targets of the edges.
pub open spec fn candidates(edges: Seq<Edge>, root: Node) -> Seq<Node> {
    seq![root] + edges.map_values(|e: Edge| Node(e.1))
}

proof fn lemma_queue_len(queue: Seq<Node>, cand: Seq<Node>)
    requires
        queue.no_duplicates(),
        forall|n: Node| queue.contains(n) ==> cand.contains(n),
    ensures
        queue.len() <= cand.len(),
{
    queue.unique_seq_to_set();
    cand.lemma_cardinality_of_set();
    assert(queue.to_set().subset_of(cand.to_set()));
    vstd::set_lib::lemma_len_subset(queue.to_set(), cand.to_set());
}

/// Breadth-first search from `root` for `target`. When `target` is
/// reachable, returns the values of the vertices taken from the queue, in
/// order, ending with `target`; otherwise `None`.
pub fn breadth_first_search(graph: &Graph, root: Node, target: Node) -> (r: Option<Vec<u32>>)
    ensures
        match r {
            Some(h) => {
                &&& reachable(graph.edges@, root.0, target.0)
                &&& h@.len() >= 1
                &&& h@[0] == root.0
                &&& h@.last() == target.0
                &&& h@.no_duplicates()
                &&& forall|i: int| 0 <= i < h@.len() ==> reachable(graph.edges@, root.0, #[trigger] h@[i])
            },
            None => !reachable(graph.edges@, root.0, target.0),
        },
{
    let ghost edges = graph.edges@;
    let ghost cand = candidates(edges, root);
    let mut queue: Vec<Node> = Vec::new();
    queue.push(root);
    let mut head: usize = 0;
    let mut history: Vec<u32> = Vec::new();
    proof {
        let p = seq![root.0];
        assert(is_path(edges, p));
        assert(p[0] == root.0 && p.last() == root.0);
        assert(reachable(edges, root.0, root.0));
        assert(cand[0] == root);
        assert(queue@ =~= seq![root]);
    }
    while head < queue.len()
        invariant
            edges == graph.edges@,
            cand == candidates(edges, root),
            queue@.len() >= 1,
            queue@[0] == root,
            head <= queue@.len(),
            queue@.no_duplicates(),
            forall|n: Node| queue@.contains(n) ==> cand.contains(n),
            history@ == queue@.take(head as int).map_values(|n: Node| n.0),
            forall|i: int| 0 <= i < queue@.len() ==> reachable(edges, root.0, (#[trigger] queue@[i]).0),
            forall|i: int| 0 <= i < head ==> #[trigger] queue@[i] != target,
            forall|i: int, x: u32| 0 <= i < head && #[trigger] has_edge(edges, queue@[i].0, x) ==> queue@.contains(Node(x)),
        decreases cand.len() - queue@.len(), queue@.len() - head,
    {
        proof {
            lemma_queue_len(queue@, cand);
        }
        let current = queue[head];
        head = head + 1;
        history.push(current.value());
        proof {
            assert(history@ =~= queue@.take(head as int).map_values(|n: Node| n.0));
        }
        if current == target {
            proof {
                let h = history@;
                assert(h[0] == queue@[0].0);
                assert(h.last() == target.0);
                assert forall|i: int, j: int| 0 <= i < j < h.len() implies h[i] != h[j] by {
                    assert(queue@[i] != queue@[j]);
                    assert(h[i] == queue@[i].0 && h[j] == queue@[j].0);
                }
                assert forall|i: int| 0 <= i < h.len() implies reachable(edges, root.0, #[trigger] h[i]) by {
                    assert(h[i] == queue@[i].0);
                }
                assert(reachable(edges, root.0, queue@[head - 1].0));
            }
            return Some(history);
        }
        let ns = current.neighbors(graph);
        let ghost q0 = queue@;
        let mut k: usize = 0;
        while k < ns.len()
            invariant
                edges == graph.edges@,
                cand == candidates(edges, root),
                1 <= head <= q0.len(),
                current == q0[head - 1],
                ns@ == neighbors_of(edges, current.0),
                forall|x: Node| ns@.contains(x) <==> has_edge(edges, current.0, x.0),
                k <= ns@.len(),
                queue@.len() >= q0.len(),
                queue@.take(q0.len() as int) == q0,
                queue@.no_duplicates(),
                forall|n: Node| queue@.contains(n) ==> cand.contains(n),
                forall|i: int| 0 <= i < queue@.len() ==> reachable(edges, root.0, (#[trigger] queue@[i]).0),
                forall|j: int| 0 <= j < k ==> queue@.contains(#[trigger] ns@[j]),
            decreases ns@.len() - k,
        {
            let x = ns[k];
            if !contains_node(&queue, x) {
                let ghost qb = queue@;
                queue.push(x);
                proof {
                    assert(ns@.contains(x));
                    assert(has_edge(edges, current.0, x.0));
                    let j = choose|j: int| 0 <= j < edges.len() && (#[trigger] edges[j]) == Edge(current.0, x.0);
                    assert(cand[j + 1] == Node(edges[j].1));
                    assert(queue@.take(q0.len() as int) =~= qb.take(q0.len() as int));
                    assert forall|i: int, l: int| 0 <= i < l < queue@.len() implies queue@[i] != queue@[l] by {
                        if l == queue@.len() - 1 {
                            assert(qb[i] == queue@[i]);
                            assert(qb.contains(queue@[i]));
                        } else {
                            assert(qb[i] == queue@[i] && qb[l] == queue@[l]);
                        }
                    }
                    assert forall|n: Node| queue@.contains(n) implies cand.contains(n) by {
                        let t = choose|t: int| 0 <= t < queue@.len() && queue@[t] == n;
                        if t < qb.len() {
                            assert(qb[t] == n);
                        }
                    }
                    let pc = choose|path: Seq<u32>| is_path(edges, path) && path[0] == root.0 && path.last() == current.0;
                    assert(reachable(edges, root.0, q0[head - 1].0));
                    lemma_path_push(edges, pc, x.0);
                    assert forall|i: int| 0 <= i < queue@.len() implies reachable(edges, root.0, (#[trigger] queue@[i]).0) by {
                        if i < qb.len() {
                            assert(qb[i] == queue@[i]);
                        } else {
                            assert(queue@[i] == x);
                        }
                    }
                    assert forall|j: int| 0 <= j < k + 1 implies queue@.contains(#[trigger] ns@[j]) by {
                        if j < k {
                            let t = choose|t: int| 0 <= t < qb.len() && qb[t] == ns@[j];
                            assert(queue@[t] == ns@[j]);
                        } else {
                            assert(queue@[queue@.len() - 1] == ns@[j]);
                        }
                    }
                }
            }
            k = k + 1;
        }
        proof {
            assert forall|i: int| 0 <= i < head implies #[trigger] queue@[i] != target by {
                assert(queue@[i] == queue@.take(q0.len() as int)[i]);
            }
            assert forall|i: int, x: u32| 0 <= i < head && #[trigger] has_edge(edges, queue@[i].0, x) implies queue@.contains(Node(x)) by {
                assert(queue@[i] == q0[i]);
                if i < head - 1 {
                    assert(q0.contains(Node(x)));
                    let t = choose|t: int| 0 <= t < q0.len() && q0[t] == Node(x);
                    assert(queue@[t] == Node(x));
                } else {
                    assert(ns@.contains(Node(x)));
                    let j = choose|j: int| 0 <= j < ns@.len() && ns@[j] == Node(x);
                    assert(queue@.contains(ns@[j]));
                }
            }
            assert(history@ =~= queue@.take(head as int).map_values(|n: Node| n.0));
            lemma_queue_len(queue@, cand);
        }
    }
    proof {
        if reachable(edges, root.0, target.0) {
            let p = choose|path: Seq<u32>| is_path(edges, path) && path[0] == root.0 && path.last() == target.0;
            assert(queue@[0] == Node(p[0]));
            assert forall|n: Node, x: u32|
                #![trigger queue@.contains(n), queue@.contains(Node(x))]
                queue@.contains(n) && has_edge(edges, n.0, x) implies queue@.contains(Node(x)) by {
                let t = choose|t: int| 0 <= t < queue@.len() && queue@[t] == n;
                assert(has_edge(edges, queue@[t].0, x));
            }
            lemma_closed_holds_path(edges, queue@, p);
            let t = choose|t: int| 0 <= t < queue@.len() && queue@[t] == Node(p.last());
            assert(queue@[t] != target);
        }
    }
    None
}

} // verus!
