use shortest_paths::{Edge, Graph, Node};

#[test]
fn bellman_ford_test_single_node() {
    let mut graph = Graph::new();
    graph.add_node(Node { id: 1, x: 0, y: 0 });

    assert_eq!(graph.bellman_ford(1, 1), 0);
    assert_eq!(graph.bellman_ford(1, 2), i32::MAX);
}

#[test]
fn bellman_ford_test_two_connected_nodes() {
    let mut graph = Graph::new();
    graph.add_node(Node { id: 1, x: 0, y: 0 });
    graph.add_node(Node { id: 2, x: 1, y: 1 });

    graph.add_edge(Edge {
        node_a_id: 1,
        node_b_id: 2,
        weight: 10,
    });

    assert_eq!(graph.bellman_ford(1, 2), 10);
    assert_eq!(graph.bellman_ford(2, 1), 10);
}

#[test]
fn bellman_ford_test_multiple_nodes() {
    let mut graph = Graph::new();
    graph.add_node(Node { id: 1, x: 0, y: 0 });
    graph.add_node(Node { id: 2, x: 1, y: 1 });
    graph.add_node(Node { id: 3, x: 2, y: 2 });
    graph.add_node(Node { id: 4, x: 3, y: 3 });

    graph.add_edge(Edge {
        node_a_id: 1,
        node_b_id: 2,
        weight: 5,
    });
    graph.add_edge(Edge {
        node_a_id: 2,
        node_b_id: 3,
        weight: 10,
    });
    graph.add_edge(Edge {
        node_a_id: 3,
        node_b_id: 4,
        weight: 3,
    });
    graph.add_edge(Edge {
        node_a_id: 1,
        node_b_id: 4,
        weight: 20,
    });

    assert_eq!(graph.bellman_ford(1, 4), 18);
    assert_eq!(graph.bellman_ford(1, 3), 15);
    assert_eq!(graph.bellman_ford(2, 4), 13);
}

#[test]
fn dijkstra_test_single_node() {
    let mut graph = Graph::new();
    graph.add_node(Node { id: 1, x: 0, y: 0 });

    assert_eq!(graph.kkomatsu_dijkstra(1, 1), 0);
    assert_eq!(graph.kkomatsu_dijkstra(1, 2), i32::MAX);
}

#[test]
fn dijkstra_test_two_connected_nodes() {
    let mut graph = Graph::new();
    graph.add_node(Node { id: 1, x: 0, y: 0 });
    graph.add_node(Node { id: 2, x: 1, y: 1 });

    graph.add_edge(Edge {
        node_a_id: 1,
        node_b_id: 2,
        weight: 10,
    });

    assert_eq!(graph.kkomatsu_dijkstra(1, 2), 10);
    assert_eq!(graph.kkomatsu_dijkstra(2, 1), 10);
}

#[test]
fn dijkstra_test_multiple_nodes() {
    let mut graph = Graph::new();
    graph.add_node(Node { id: 1, x: 0, y: 0 });
    graph.add_node(Node { id: 2, x: 1, y: 1 });
    graph.add_node(Node { id: 3, x: 2, y: 2 });
    graph.add_node(Node { id: 4, x: 3, y: 3 });

    graph.add_edge(Edge {
        node_a_id: 1,
        node_b_id: 2,
        weight: 5,
    });
    graph.add_edge(Edge {
        node_a_id: 2,
        node_b_id: 3,
        weight: 10,
    });
    graph.add_edge(Edge {
        node_a_id: 3,
        node_b_id: 4,
        weight: 3,
    });
    graph.add_edge(Edge {
        node_a_id: 1,
        node_b_id: 4,
        weight: 20,
    });

    assert_eq!(graph.kkomatsu_dijkstra(1, 4), 18);
    assert_eq!(graph.kkomatsu_dijkstra(1, 3), 15);
    assert_eq!(graph.kkomatsu_dijkstra(2, 4), 13);
}
