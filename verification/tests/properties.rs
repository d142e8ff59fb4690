use shortest_paths::{Edge, Graph, Node};

fn diamond() -> Graph {
    let mut graph = Graph::new();
    for id in 1..5 {
        graph.add_node(Node { id, x: id, y: -id });
    }
    graph.add_edge(Edge {
        node_a_id: 1,
        node_b_id: 2,
        weight: 5,
    });
    graph.add_edge(Edge {
        node_a_id: 2,
        node_b_id: 3,
        weight: 10,
    });
    graph.add_edge(Edge {
        node_a_id: 3,
        node_b_id: 4,
        weight: 3,
    });
    graph.add_edge(Edge {
        node_a_id: 1,
        node_b_id: 4,
        weight: 20,
    });
    graph
}

#[test]
fn self_distance_is_zero_for_registered_points() {
    let graph = diamond();
    for id in 1..5 {
        assert_eq!(graph.bellman_ford(id, id), 0);
        assert_eq!(graph.kkomatsu_dijkstra(id, id), 0);
    }
}

#[test]
fn distances_are_symmetric() {
    let graph = diamond();
    for s in 1..5 {
        for d in 1..5 {
            assert_eq!(graph.bellman_ford(s, d), graph.bellman_ford(d, s));
            assert_eq!(graph.kkomatsu_dijkstra(s, d), graph.kkomatsu_dijkstra(d, s));
        }
    }
}

#[test]
fn unreachable_points_give_the_sentinel() {
    let mut graph = Graph::new();
    graph.add_node(Node { id: 1, x: 0, y: 0 });
    graph.add_node(Node { id: 2, x: 1, y: 0 });
    graph.add_node(Node { id: 7, x: 9, y: 9 });
    graph.add_edge(Edge {
        node_a_id: 1,
        node_b_id: 2,
        weight: 4,
    });

    assert_eq!(graph.bellman_ford(1, 7), i32::MAX);
    assert_eq!(graph.bellman_ford(7, 1), i32::MAX);
    assert_eq!(graph.kkomatsu_dijkstra(1, 7), i32::MAX);
    assert_eq!(graph.kkomatsu_dijkstra(7, 1), i32::MAX);
}

#[test]
fn strategies_agree_on_finite_distances() {
    let graph = diamond();
    for s in 1..5 {
        for d in 1..5 {
            assert_eq!(graph.bellman_ford(s, d), graph.kkomatsu_dijkstra(s, d));
        }
    }
}

#[test]
fn repeated_queries_are_identical() {
    let graph = diamond();
    let first = graph.kkomatsu_dijkstra(1, 4);
    assert_eq!(graph.kkomatsu_dijkstra(1, 4), first);
    assert_eq!(graph.kkomatsu_dijkstra(1, 4), first);
    let first_relax = graph.bellman_ford(1, 4);
    assert_eq!(graph.bellman_ford(1, 4), first_relax);
    assert_eq!(graph.bellman_ford(1, 4), first_relax);
}

#[test]
fn relaxation_query_on_empty_graph() {
    let graph = Graph::new();
    // the start is recorded unconditionally, so a self-query yields 0
    assert_eq!(graph.bellman_ford(5, 5), 0);
    assert_eq!(graph.bellman_ford(5, 6), i32::MAX);
}

#[test]
fn frontier_rejects_unregistered_endpoints() {
    let graph = Graph::new();
    assert_eq!(graph.kkomatsu_dijkstra(5, 5), i32::MAX);
    assert_eq!(graph.kkomatsu_dijkstra(5, 6), i32::MAX);
}

#[test]
fn overwriting_a_point_keeps_distances() {
    let mut graph = Graph::new();
    graph.add_node(Node { id: 1, x: 0, y: 0 });
    graph.add_node(Node { id: 2, x: 1, y: 1 });
    graph.add_edge(Edge {
        node_a_id: 1,
        node_b_id: 2,
        weight: 3,
    });
    graph.add_node(Node { id: 1, x: 100, y: 100 });

    assert_eq!(graph.bellman_ford(1, 2), 3);
    assert_eq!(graph.kkomatsu_dijkstra(1, 2), 3);
}

#[test]
fn connection_to_an_unregistered_point() {
    let mut graph = Graph::new();
    graph.add_node(Node { id: 2, x: 0, y: 0 });
    graph.add_edge(Edge {
        node_a_id: 1,
        node_b_id: 2,
        weight: 6,
    });

    // relaxation proceeds from registered points only, so the
    // connection is found from 2 but not from the unregistered 1
    assert_eq!(graph.bellman_ford(2, 1), 6);
    assert_eq!(graph.bellman_ford(1, 2), i32::MAX);
    // the frontier strategy rejects unregistered endpoints outright
    assert_eq!(graph.kkomatsu_dijkstra(2, 1), i32::MAX);
    assert_eq!(graph.kkomatsu_dijkstra(1, 2), i32::MAX);
}

#[test]
fn zero_weight_connections_count_as_free() {
    let mut graph = Graph::new();
    graph.add_node(Node { id: 1, x: 0, y: 0 });
    graph.add_node(Node { id: 2, x: 1, y: 0 });
    graph.add_node(Node { id: 3, x: 2, y: 0 });
    graph.add_edge(Edge {
        node_a_id: 1,
        node_b_id: 2,
        weight: 0,
    });
    graph.add_edge(Edge {
        node_a_id: 2,
        node_b_id: 3,
        weight: 8,
    });

    assert_eq!(graph.bellman_ford(1, 3), 8);
    assert_eq!(graph.kkomatsu_dijkstra(1, 3), 8);
}

#[test]
fn overflowing_accumulation_is_treated_as_infinite() {
    let mut graph = Graph::new();
    graph.add_node(Node { id: 1, x: 0, y: 0 });
    graph.add_node(Node { id: 2, x: 1, y: 0 });
    graph.add_node(Node { id: 3, x: 2, y: 0 });
    graph.add_edge(Edge {
        node_a_id: 1,
        node_b_id: 2,
        weight: i32::MAX - 1,
    });
    graph.add_edge(Edge {
        node_a_id: 2,
        node_b_id: 3,
        weight: 2,
    });

    assert_eq!(graph.bellman_ford(1, 2), i32::MAX - 1);
    assert_eq!(graph.bellman_ford(1, 3), i32::MAX);
    assert_eq!(graph.kkomatsu_dijkstra(1, 2), i32::MAX - 1);
    assert_eq!(graph.kkomatsu_dijkstra(1, 3), i32::MAX);
}

#[test]
fn parallel_connections_use_the_cheapest() {
    let mut graph = Graph::new();
    graph.add_node(Node { id: 1, x: 0, y: 0 });
    graph.add_node(Node { id: 2, x: 1, y: 0 });
    graph.add_edge(Edge {
        node_a_id: 1,
        node_b_id: 2,
        weight: 9,
    });
    graph.add_edge(Edge {
        node_a_id: 1,
        node_b_id: 2,
        weight: 4,
    });

    assert_eq!(graph.bellman_ford(1, 2), 4);
    assert_eq!(graph.kkomatsu_dijkstra(1, 2), 4);
}
