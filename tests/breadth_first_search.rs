use algorithms::breadth_first_search::{breadth_first_search, Edge, Graph, Node};

fn graph1() -> Graph {
    let nodes = vec![1, 2, 3, 4, 5, 6, 7, 8];
    let edges = vec![(1, 2), (1, 3), (2, 4), (2, 5), (3, 6), (3, 7), (5, 8)];
    Graph::new(
        nodes.into_iter().map(|x| x.into()).collect(),
        edges.into_iter().map(|x| x.into()).collect(),
    )
}

#[test]
fn not_found_node() {
    let graph1 = graph1();
    let root = 1;
    let target = 10;

    assert_eq!(
        breadth_first_search(&graph1, root.into(), target.into()),
        None
    );
}

#[test]
fn all_node() {
    let graph1 = graph1();
    let root = 1;
    let target = 8;

    let expected_history = vec![1, 2, 3, 4, 5, 6, 7, 8];

    assert_eq!(
        breadth_first_search(&graph1, root.into(), target.into()),
        Some(expected_history)
    );
}

#[test]
fn root_is_target() {
    let graph1 = graph1();
    assert_eq!(breadth_first_search(&graph1, Node(3), Node(3)), Some(vec![3]));
}

#[test]
fn stops_at_target() {
    let graph1 = graph1();
    assert_eq!(breadth_first_search(&graph1, Node(1), Node(5)), Some(vec![1, 2, 3, 4, 5]));
}

#[test]
fn edges_point_one_way() {
    let graph1 = graph1();
    assert_eq!(breadth_first_search(&graph1, Node(2), Node(1)), None);
}

#[test]
fn cycles_are_visited_once() {
    let graph = Graph::new(
        vec![Node(1), Node(2), Node(3)],
        vec![Edge(1, 2), Edge(2, 1), Edge(2, 3), Edge(3, 1)],
    );
    assert_eq!(breadth_first_search(&graph, Node(1), Node(3)), Some(vec![1, 2, 3]));
    assert_eq!(breadth_first_search(&graph, Node(1), Node(4)), None);
}

#[test]
fn neighbors_in_edge_order() {
    let graph1 = graph1();
    assert_eq!(Node(3).neighbors(&graph1), vec![Node(6), Node(7)]);
    assert!(Node(8).neighbors(&graph1).is_empty());
    assert_eq!(Node::from(4).value(), 4);
}
