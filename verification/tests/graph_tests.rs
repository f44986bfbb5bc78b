use rust_trader::graph::{EdgeIndex, EmptyEdge, Graph, MixedEdge, NodeIndex, WeightedEdge};

fn path_names(g: &Graph<String, EmptyEdge>, path: &[NodeIndex]) -> String {
    path.iter()
        .map(|n| g.get_node(*n).unwrap().clone())
        .collect::<Vec<String>>()
        .join("->")
}

fn weighted_path_names(g: &Graph<String, WeightedEdge>, path: &[NodeIndex]) -> String {
    path.iter()
        .map(|n| g.get_node(*n).unwrap().clone())
        .collect::<Vec<String>>()
        .join("->")
}

#[test]
fn test_unweighted_bfs() {
    let mut g: Graph<String, EmptyEdge> = Graph::new();

    let a = g.insert_node("A".into());
    let b = g.insert_node("B".into());
    let c = g.insert_node("C".into());
    let d = g.insert_node("D".into());
    let e = g.insert_node("E".into());

    g.insert_edge(EmptyEdge, a, b);
    g.insert_edge(EmptyEdge, b, c);
    g.insert_edge(EmptyEdge, c, e);
    g.insert_edge(EmptyEdge, b, d);
    g.insert_edge(EmptyEdge, d, c);

    let result_bfs = g.bfs(a, e);
    let result_dijkstra = g.dijkstra(a, e);

    let path_bfs = path_names(&g, &result_bfs.unwrap());
    let path_dijkstra = path_names(&g, &result_dijkstra.unwrap());
    assert!(
        path_bfs == path_dijkstra,
        "Dijkstra and BFS results are not the same for simple undirected graphs"
    );
    assert_eq!(path_bfs, "A->B->C->E", "Dijkstra path is incorrect");
}

#[test]
fn dijkstra_with_cycles() {
    let mut g: Graph<String, EmptyEdge> = Graph::new();

    let a = g.insert_node("A".into());
    let b = g.insert_node("B".into());
    let c = g.insert_node("C".into());
    let d = g.insert_node("D".into());
    let e = g.insert_node("E".into());
    let f = g.insert_node("F".into());

    g.insert_edge(EmptyEdge, a, b);
    g.insert_edge(EmptyEdge, b, c);
    g.insert_edge(EmptyEdge, c, e);
    g.insert_edge(EmptyEdge, b, d);
    g.insert_edge(EmptyEdge, d, c);
    g.insert_edge(EmptyEdge, d, f);
    g.insert_edge(EmptyEdge, f, a);

    let result_dijkstra = g.dijkstra(d, e);

    let path_strings = path_names(&g, &result_dijkstra.expect("dijkstra did not resolve"));

    assert_eq!(path_strings, "D->C->E", "Dijkstra path is incorrect");
}

// The route of least total cost from A is A->B->C (cost 3), cheaper than the
// direct edge A->C (cost 4).
#[test]
fn basic_weighted_graph() {
    let mut g: Graph<String, WeightedEdge> = Graph::new();

    let a = g.insert_node("A".into());
    let b = g.insert_node("B".into());
    let c = g.insert_node("C".into());

    g.insert_edge(WeightedEdge(1), a, b);
    g.insert_edge(WeightedEdge(2), b, c);
    g.insert_edge(WeightedEdge(4), a, c);

    let result_dijkstra = g.dijkstra(a, c);

    let path_strings = weighted_path_names(&g, &result_dijkstra.expect("dijkstra did not resolve"));

    assert_eq!(path_strings, "A->B->C", "Dijkstra path is incorrect");
}

#[test]
fn med_weighted_graph() {
    let mut g: Graph<String, WeightedEdge> = Graph::new();

    let a = g.insert_node("A".into());
    let b = g.insert_node("B".into());
    let c = g.insert_node("C".into());
    let d = g.insert_node("D".into());
    let e = g.insert_node("E".into());
    let f = g.insert_node("F".into());

    g.insert_edge(WeightedEdge(2), a, b);
    g.insert_edge(WeightedEdge(1), a, c);
    g.insert_edge(WeightedEdge(3), b, d);
    g.insert_edge(WeightedEdge(5), c, d);
    g.insert_edge(WeightedEdge(4), c, e);
    g.insert_edge(WeightedEdge(2), d, e);
    g.insert_edge(WeightedEdge(1), e, f);
    g.insert_edge(WeightedEdge(6), b, f);

    let result_dijkstra = g.dijkstra(a, f);

    let path_strings = weighted_path_names(&g, &result_dijkstra.expect("dijkstra did not resolve"));

    println!("{}", path_strings);

    println!(
        "{}",
        g.to_mermaid_format(|n, _| n.clone(), |e| { let c: u32 = e.0; c.to_string() })
    );
}

#[test]
fn test_insert_node_and_get_node() {
    let mut graph = Graph::<String, EmptyEdge>::new();
    let node_data = "NodeData".to_string();
    let node_index = graph.insert_node(node_data.clone());

    assert_eq!(graph.get_node(node_index), Some(&node_data));
}

#[test]
fn test_insert_edge_and_get_edge() {
    let mut graph = Graph::<String, WeightedEdge>::new();
    let node_a = graph.insert_node("Node A".into());
    let node_b = graph.insert_node("Node B".into());
    let edge = WeightedEdge(10);

    let edge_index = graph.insert_edge(edge, node_a, node_b);

    assert_eq!(graph.get_edge(edge_index).map(|e| e.0), Some(10));
}

#[test]
fn test_insert_edge_undirected() {
    let mut graph = Graph::<String, WeightedEdge>::new();
    let node_a = graph.insert_node("Node A".into());
    let node_b = graph.insert_node("Node B".into());
    let edge = WeightedEdge(10);

    let edge_index = graph.insert_edge_undirected(edge, node_a, node_b);

    assert_eq!(graph.get_edge(edge_index).map(|e| e.0), Some(10));

    // Check the reverse direction as well
    assert_eq!(graph.get_edge(edge_index).map(|e| e.0), Some(10));
}

#[test]
fn works_with_both_weighted_and_unweighted_edges() {
    let mut graph = Graph::<String, MixedEdge>::new();
    let node_a = graph.insert_node("A".into());
    let node_b = graph.insert_node("B".into());
    let node_c = graph.insert_node("C".into());
    let node_d = graph.insert_node("D".into());
    let ab = MixedEdge::Weighted(10);
    let ac = MixedEdge::Unweighted;
    let bd = MixedEdge::Unweighted;
    let cd = MixedEdge::Weighted(20);

    graph.insert_edge_undirected(ab, node_a, node_b);
    graph.insert_edge_undirected(ac, node_b, node_c);
    graph.insert_edge_undirected(bd, node_b, node_d);
    graph.insert_edge_undirected(cd, node_c, node_d);

    let path_str = graph
        .dijkstra(node_a, node_d)
        .expect("dijkstra did not resolve")
        .iter()
        .map(|n| graph.get_node(*n).unwrap().clone())
        .collect::<Vec<String>>()
        .join("->");

    assert_eq!(path_str, "A->B->D");
}

#[test]
fn undirected_insert_is_symmetric() {
    let mut g: Graph<String, WeightedEdge> = Graph::new();
    let a = g.insert_node("A".into());
    let b = g.insert_node("B".into());
    let e = g.insert_edge_undirected(WeightedEdge(7), a, b);

    assert!(g.get_connections(a).contains(&(e, b)));
    assert!(g.get_connections(b).contains(&(e, a)));
}

#[test]
fn same_endpoint_is_a_single_node_path() {
    let mut g: Graph<String, WeightedEdge> = Graph::new();
    let a = g.insert_node("A".into());
    let b = g.insert_node("B".into());
    g.insert_edge_undirected(WeightedEdge(3), a, b);

    assert_eq!(g.bfs(a, a), Some(vec![a]));
    assert_eq!(g.dijkstra(b, b), Some(vec![b]));
    assert_eq!(g.astar(a, a, |_, _| 5), Some(vec![a]));
}

#[test]
fn disconnected_nodes_are_absent_in_both_traversals() {
    let mut g: Graph<String, WeightedEdge> = Graph::new();
    let a = g.insert_node("A".into());
    let b = g.insert_node("B".into());
    let c = g.insert_node("C".into());
    let d = g.insert_node("D".into());
    g.insert_edge_undirected(WeightedEdge(1), a, b);
    g.insert_edge_undirected(WeightedEdge(1), c, d);

    assert_eq!(g.bfs(a, c), None);
    assert_eq!(g.dijkstra(a, d), None);
    assert_eq!(g.bfs(b, c), None);
}

#[test]
fn out_of_range_lookups_are_absent() {
    let mut g: Graph<String, WeightedEdge> = Graph::new();
    let a = g.insert_node("A".into());
    let missing = NodeIndex(17);

    assert!(g.get_node(missing).is_none());
    assert!(g.get_edge(EdgeIndex(3)).is_none());
    assert!(g.get_connections(missing).is_empty());
    assert_eq!(g.bfs(a, missing), None);
    assert_eq!(g.dijkstra(missing, a), None);
}

// Scenario: undirected, unweighted edges A-B, B-C, C-E, B-D, D-C; the
// fewest-hops route from A to E is A,B,C,E, and the zero-heuristic weighted
// search agrees on the same graph.
#[test]
fn scenario_unweighted_undirected() {
    let mut g: Graph<String, EmptyEdge> = Graph::new();
    let a = g.insert_node("A".into());
    let b = g.insert_node("B".into());
    let c = g.insert_node("C".into());
    let d = g.insert_node("D".into());
    let e = g.insert_node("E".into());

    g.insert_edge_undirected(EmptyEdge, a, b);
    g.insert_edge_undirected(EmptyEdge, b, c);
    g.insert_edge_undirected(EmptyEdge, c, e);
    g.insert_edge_undirected(EmptyEdge, b, d);
    g.insert_edge_undirected(EmptyEdge, d, c);

    let bfs_path = g.bfs(a, e).expect("bfs did not resolve");
    assert_eq!(bfs_path.len(), 4);
    assert_eq!(path_names(&g, &bfs_path), "A->B->C->E");

    let dijkstra_path = g.dijkstra(a, e).expect("dijkstra did not resolve");
    assert_eq!(path_names(&g, &dijkstra_path), "A->B->C->E");
}

fn edge_cost_between(g: &Graph<String, WeightedEdge>, u: NodeIndex, v: NodeIndex) -> Option<u64> {
    g.get_connections(u)
        .iter()
        .filter(|(_, n)| *n == v)
        .map(|(e, _)| g.get_edge(*e).unwrap().0 as u64)
        .min()
}

fn path_cost(g: &Graph<String, WeightedEdge>, path: &[NodeIndex]) -> u64 {
    path.windows(2)
        .map(|w| edge_cost_between(g, w[0], w[1]).expect("path uses a missing edge"))
        .sum()
}

fn min_cost_exhaustive(
    g: &Graph<String, WeightedEdge>,
    current: NodeIndex,
    to: NodeIndex,
    visited: &mut Vec<NodeIndex>,
    cost: u64,
    best: &mut Option<u64>,
) {
    if current == to {
        if best.map_or(true, |b| cost < b) {
            *best = Some(cost);
        }
        return;
    }
    for (e, n) in g.get_connections(current) {
        if !visited.contains(&n) {
            visited.push(n);
            let c = g.get_edge(e).unwrap().0 as u64;
            min_cost_exhaustive(g, n, to, visited, cost + c, best);
            visited.pop();
        }
    }
}

// Scenario: undirected weighted edges A-B(2), A-C(1), B-D(3), C-D(5),
// C-E(4), D-E(2), E-F(1), B-F(6); the returned route's total cost must equal
// the minimum over all simple routes, found by exhaustive enumeration.
#[test]
fn scenario_weighted_undirected_minimal_cost() {
    let mut g: Graph<String, WeightedEdge> = Graph::new();
    let a = g.insert_node("A".into());
    let b = g.insert_node("B".into());
    let c = g.insert_node("C".into());
    let d = g.insert_node("D".into());
    let e = g.insert_node("E".into());
    let f = g.insert_node("F".into());

    g.insert_edge_undirected(WeightedEdge(2), a, b);
    g.insert_edge_undirected(WeightedEdge(1), a, c);
    g.insert_edge_undirected(WeightedEdge(3), b, d);
    g.insert_edge_undirected(WeightedEdge(5), c, d);
    g.insert_edge_undirected(WeightedEdge(4), c, e);
    g.insert_edge_undirected(WeightedEdge(2), d, e);
    g.insert_edge_undirected(WeightedEdge(1), e, f);
    g.insert_edge_undirected(WeightedEdge(6), b, f);

    let path = g.dijkstra(a, f).expect("dijkstra did not resolve");
    assert_eq!(*path.first().unwrap(), a);
    assert_eq!(*path.last().unwrap(), f);

    let mut best: Option<u64> = None;
    let mut visited = vec![a];
    min_cost_exhaustive(&g, a, f, &mut visited, 0, &mut best);

    assert_eq!(path_cost(&g, &path), best.expect("no route found by enumeration"));
}

// Scenario: a cyclic graph (A-B-C-D-A plus the chord B-D) must never yield
// a route that revisits a node.
#[test]
fn scenario_cycle_never_revisits() {
    let mut g: Graph<String, WeightedEdge> = Graph::new();
    let a = g.insert_node("A".into());
    let b = g.insert_node("B".into());
    let c = g.insert_node("C".into());
    let d = g.insert_node("D".into());

    g.insert_edge_undirected(WeightedEdge(1), a, b);
    g.insert_edge_undirected(WeightedEdge(1), b, c);
    g.insert_edge_undirected(WeightedEdge(1), c, d);
    g.insert_edge_undirected(WeightedEdge(1), d, a);
    g.insert_edge_undirected(WeightedEdge(1), b, d);

    for &from in &[a, b, c, d] {
        for &to in &[a, b, c, d] {
            let path = g.bfs(from, to).expect("bfs did not resolve");
            let mut seen = path.clone();
            seen.sort_by_key(|n| format!("{:?}", n));
            seen.dedup();
            assert_eq!(seen.len(), path.len(), "bfs revisited a node");

            let path = g.dijkstra(from, to).expect("dijkstra did not resolve");
            let mut seen = path.clone();
            seen.sort_by_key(|n| format!("{:?}", n));
            seen.dedup();
            assert_eq!(seen.len(), path.len(), "dijkstra revisited a node");
        }
    }
}

// An admissible heuristic (never overestimating the true remaining cost)
// must return a route of the same total cost as the zero-heuristic search.
#[test]
fn admissible_heuristic_matches_zero_heuristic_cost() {
    let mut g: Graph<String, WeightedEdge> = Graph::new();
    let a = g.insert_node("A".into());
    let b = g.insert_node("B".into());
    let c = g.insert_node("C".into());
    let d = g.insert_node("D".into());
    let e = g.insert_node("E".into());
    let f = g.insert_node("F".into());

    g.insert_edge_undirected(WeightedEdge(2), a, b);
    g.insert_edge_undirected(WeightedEdge(1), a, c);
    g.insert_edge_undirected(WeightedEdge(3), b, d);
    g.insert_edge_undirected(WeightedEdge(5), c, d);
    g.insert_edge_undirected(WeightedEdge(4), c, e);
    g.insert_edge_undirected(WeightedEdge(2), d, e);
    g.insert_edge_undirected(WeightedEdge(1), e, f);
    g.insert_edge_undirected(WeightedEdge(6), b, f);

    // True remaining costs to F: A=6, B=6, C=5, D=3, E=1, F=0; one below
    // each is admissible.
    let heuristic = |n: &String, _goal: &String| -> u32 {
        match n.as_str() {
            "A" => 5,
            "B" => 5,
            "C" => 4,
            "D" => 2,
            "E" => 0,
            _ => 0,
        }
    };

    let guided = g.astar(a, f, heuristic).expect("astar did not resolve");
    let plain = g.dijkstra(a, f).expect("dijkstra did not resolve");
    assert_eq!(path_cost(&g, &guided), path_cost(&g, &plain));
}

#[test]
fn mermaid_renders_identifiers_and_costs() {
    let mut g: Graph<String, WeightedEdge> = Graph::new();
    let a = g.insert_node("A".into());
    let b = g.insert_node("B".into());
    g.insert_edge(WeightedEdge(10), a, b);

    assert_eq!(g.to_mermaid(), "graph TD;\n\t0-->|10|1;");

    let named = g.to_mermaid_format(|n, _| n.clone(), |e| { let c: u32 = e.0; c.to_string() });
    assert_eq!(named, "graph TD;\n\tA-->|10|B;");
}

#[test]
fn mermaid_lists_every_adjacency_entry() {
    let mut g: Graph<String, WeightedEdge> = Graph::new();
    let a = g.insert_node("A".into());
    let b = g.insert_node("B".into());
    g.insert_edge_undirected(WeightedEdge(3), a, b);

    assert_eq!(g.to_mermaid(), "graph TD;\n\t0-->|3|1;\n\t1-->|3|0;");
}
