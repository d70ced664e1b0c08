use algorithms::dijkstra::{dijkstra, DijkstraError, Graph};
use std::collections::BTreeMap;

fn add_edge(graph: &mut Graph, v1: char, v2: char, c: u64) {
    graph.add_edge(v1, v2, c);
}

fn paths(graph: &Graph, start: char) -> BTreeMap<char, Option<(char, u64)>> {
    dijkstra(graph, &start).unwrap().into_iter().collect()
}

fn graph1() -> Graph {
    let mut graph = Graph::new();
    add_edge(&mut graph, 'a', 'c', 12);
    add_edge(&mut graph, 'a', 'd', 60);
    add_edge(&mut graph, 'b', 'a', 10);
    add_edge(&mut graph, 'c', 'b', 20);
    add_edge(&mut graph, 'c', 'd', 32);
    add_edge(&mut graph, 'e', 'a', 7);
    graph
}

#[test]
fn graph_1() {
    let graph = graph1();

    let mut dists_a = BTreeMap::new();
    dists_a.insert('a', None);
    dists_a.insert('c', Some(('a', 12)));
    dists_a.insert('d', Some(('c', 44)));
    dists_a.insert('b', Some(('c', 32)));
    assert_eq!(paths(&graph, 'a'), dists_a);

    let mut dists_b = BTreeMap::new();
    dists_b.insert('b', None);
    dists_b.insert('a', Some(('b', 10)));
    dists_b.insert('c', Some(('a', 22)));
    dists_b.insert('d', Some(('c', 54)));
    assert_eq!(paths(&graph, 'b'), dists_b);

    let mut dists_c = BTreeMap::new();
    dists_c.insert('c', None);
    dists_c.insert('b', Some(('c', 20)));
    dists_c.insert('d', Some(('c', 32)));
    dists_c.insert('a', Some(('b', 30)));
    assert_eq!(paths(&graph, 'c'), dists_c);

    let mut dists_d = BTreeMap::new();
    dists_d.insert('d', None);
    assert_eq!(paths(&graph, 'd'), dists_d);

    let mut dists_e = BTreeMap::new();
    dists_e.insert('e', None);
    dists_e.insert('a', Some(('e', 7)));
    dists_e.insert('c', Some(('a', 19)));
    dists_e.insert('d', Some(('c', 51)));
    dists_e.insert('b', Some(('c', 39)));
    assert_eq!(paths(&graph, 'e'), dists_e);
}

#[test]
fn start_is_recorded_without_predecessor() {
    let graph = graph1();
    for start in ['a', 'b', 'c', 'd', 'e'] {
        assert_eq!(paths(&graph, start).get(&start), Some(&None));
    }
}

#[test]
fn recorded_distance_is_predecessor_distance_plus_edge() {
    let graph = graph1();
    let weights: BTreeMap<(char, char), u64> = [
        (('a', 'c'), 12),
        (('a', 'd'), 60),
        (('b', 'a'), 10),
        (('c', 'b'), 20),
        (('c', 'd'), 32),
        (('e', 'a'), 7),
    ]
    .into_iter()
    .collect();
    let result = paths(&graph, 'e');
    for (v, rec) in &result {
        if let Some((p, d)) = rec {
            let dp = match result[p] {
                None => 0,
                Some((_, dp)) => dp,
            };
            assert_eq!(*d, dp + weights[&(*p, *v)]);
        }
    }
}

#[test]
fn shorter_detour_wins_over_direct_edge() {
    let mut graph = Graph::new();
    add_edge(&mut graph, 'x', 'z', 10);
    add_edge(&mut graph, 'x', 'y', 3);
    add_edge(&mut graph, 'y', 'z', 4);
    let result = paths(&graph, 'x');
    assert_eq!(result[&'z'], Some(('y', 7)));
    assert_eq!(result[&'y'], Some(('x', 3)));
}

#[test]
fn unreachable_vertex_is_absent() {
    let graph = graph1();
    let result = paths(&graph, 'a');
    assert!(!result.contains_key(&'e'));
}

#[test]
fn same_inputs_same_result() {
    let graph = graph1();
    assert_eq!(dijkstra(&graph, &'c'), dijkstra(&graph, &'c'));
}

#[test]
fn start_without_edges_gives_singleton() {
    let mut graph = Graph::new();
    add_edge(&mut graph, 'p', 'q', 5);
    let result = dijkstra(&graph, &'q').unwrap();
    assert_eq!(result, vec![('q', None)]);
}

#[test]
fn unknown_start_is_an_error() {
    let graph = graph1();
    assert_eq!(dijkstra(&graph, &'z'), Err(DijkstraError::UnknownStart));
    assert_eq!(dijkstra(&Graph::new(), &'a'), Err(DijkstraError::UnknownStart));
}

#[test]
fn overflowing_weights_are_an_error() {
    let mut graph = Graph::new();
    add_edge(&mut graph, 'a', 'b', u64::MAX);
    assert_eq!(dijkstra(&graph, &'a'), Err(DijkstraError::DistanceOverflow));
    let mut small = Graph::new();
    add_edge(&mut small, 'a', 'b', u64::MAX / 2);
    assert_eq!(dijkstra(&small, &'a').unwrap(), vec![('a', None), ('b', Some(('a', u64::MAX / 2)))]);
}

#[test]
fn add_edge_replaces_weight() {
    let mut graph = Graph::new();
    add_edge(&mut graph, 'a', 'b', 9);
    add_edge(&mut graph, 'a', 'b', 2);
    assert_eq!(paths(&graph, 'a')[&'b'], Some(('a', 2)));
}

#[test]
fn zero_weight_edges_and_cycles() {
    let mut graph = Graph::new();
    add_edge(&mut graph, 'a', 'b', 0);
    add_edge(&mut graph, 'b', 'a', 0);
    add_edge(&mut graph, 'b', 'b', 1);
    let result = paths(&graph, 'a');
    assert_eq!(result[&'a'], None);
    assert_eq!(result[&'b'], Some(('a', 0)));
}
