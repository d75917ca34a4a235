use mstdc::algorithms;
use mstdc::neighbors;
use mstdc::properties;
use mstdc::Digraph;
use mstdc::Graph;
use mstdc::GraphImpl;
use mstdc::Subgraph;
use mstdc::WeightedGraph;

#[test]
fn digraph_test() {
    let mut d = Digraph::new(6);

    assert_eq!(d.num_verts(), 6);
    assert_eq!(d.num_edges(), 0);

    assert_eq!(d.has_edge(3, 5), false);
    d.add_edge(3, 5).unwrap();
    assert_eq!(d.has_edge(3, 5), true);
    assert_eq!(d.num_edges(), 1);

    assert_eq!(d.has_edge(5, 3), false);
    d.add_edge(5, 3).unwrap();
    assert_eq!(d.has_edge(5, 3), true);
    assert_eq!(d.num_edges(), 2);

    d.add_edge(1, 2).unwrap();
    assert_eq!(d.num_edges(), 3);

    d.remove_edge(5, 3).unwrap();
    assert_eq!(d.num_edges(), 2);
    assert_eq!(d.has_edge(5, 3), false);
    assert!(d.remove_edge(5, 3).is_err());

    let edges = d.edges();
    assert_eq!(edges, vec![(1, 2), (3, 5)]);
}

#[test]
fn graph_test() {
    let mut g = Graph::new(8);

    assert_eq!(g.num_verts(), 8);
    assert_eq!(g.num_edges(), 0);

    assert_eq!(g.has_edge(3, 5), false);
    g.add_edge(3, 5).unwrap();
    assert_eq!(g.has_edge(3, 5), true);
    assert_eq!(g.num_edges(), 1);
    assert_eq!(g.add_edge(5, 3).is_err(), true);
    assert_eq!(g.has_edge(5, 3), true);
    assert_eq!(g.num_edges(), 1);

    g.add_edge(1, 2).unwrap();
    assert_eq!(g.num_edges(), 2);

    g.remove_edge(5, 3).unwrap();
    assert_eq!(g.num_edges(), 1);
    assert_eq!(g.has_edge(5, 3), false);
    assert!(g.remove_edge(5, 3).is_err());

    g.add_edge(2, 3).unwrap();
    g.add_edge(1, 0).unwrap();

    let edges = g.edges();
    assert_eq!(edges, vec![(0, 1), (1, 2), (2, 3)]);
}

#[test]
fn subgraph_test() {
    let g = Graph::complete(5);

    assert_eq!(g.num_verts(), 5);
    assert_eq!(g.num_edges(), 10);

    let mut sg = Subgraph::from_graph(&g);

    assert_eq!(sg.num_verts(), 5);
    assert_eq!(sg.num_edges(), 10);

    assert_eq!(g.has_edge(1, 2), true);
    assert_eq!(sg.has_edge(1, 2), true);

    sg.remove_edge(1, 2).unwrap();

    assert_eq!(g.has_edge(1, 2), true);
    assert_eq!(sg.has_edge(1, 2), false);
    assert_eq!(sg.remove_edge(1, 2).is_err(), true);

    sg.add_edge(1, 2).unwrap();

    assert_eq!(g.has_edge(1, 2), true);
    assert_eq!(sg.has_edge(1, 2), true);
    assert_eq!(sg.add_edge(1, 2).is_err(), true);

    let edges = sg.edges();
    assert_eq!(
        edges,
        vec![
            (0, 1),
            (0, 2),
            (0, 3),
            (0, 4),
            (1, 2),
            (1, 3),
            (1, 4),
            (2, 3),
            (2, 4),
            (3, 4)
        ]
    );

    let g = Graph::new(10);

    assert_eq!(g.num_verts(), 10);
    assert_eq!(g.num_edges(), 0);

    let mut sg = Subgraph::from_graph(&g);

    assert_eq!(sg.num_verts(), 10);
    assert_eq!(sg.num_edges(), 0);

    assert_eq!(g.has_edge(1, 2), false);
    assert_eq!(sg.has_edge(1, 2), false);

    sg.add_edge(1, 2).unwrap();

    assert_eq!(g.has_edge(1, 2), false);
    assert_eq!(sg.has_edge(1, 2), true);
    assert_eq!(sg.add_edge(1, 2).is_err(), true);

    sg.remove_edge(1, 2).unwrap();

    assert_eq!(g.has_edge(1, 2), false);
    assert_eq!(sg.has_edge(1, 2), false);
    assert_eq!(sg.remove_edge(1, 2).is_err(), true);

    let mut sg2 = Subgraph::from_subgraph(&sg);

    assert_eq!(sg2.remove_edge(1, 2).is_err(), true);

    sg2.add_edge(1, 2).unwrap();

    assert_eq!(g.has_edge(1, 2), false);
    assert_eq!(sg.has_edge(1, 2), false);
    assert_eq!(sg2.has_edge(1, 2), true);

    let edges = sg2.edges();
    assert_eq!(edges, vec![(1, 2)]);
}

#[test]
fn weighted_graph_test() {
    let mut wg = WeightedGraph::new(10);

    assert_eq!(wg.num_verts(), 10);
    assert_eq!(wg.num_edges(), 0);

    wg.add_edge(0, 1).unwrap();
    assert_eq!(wg.has_edge(0, 1), true);
    assert_eq!(wg.has_edge(1, 0), true);
    assert_eq!(wg.get_edge_weight(0, 1), Some(0));
    assert_eq!(wg.get_edge_weight(1, 0), Some(0));

    wg.set_edge_weight(1, 0, 5);
    assert_eq!(wg.get_edge_weight(0, 1), Some(5));
    assert_eq!(wg.get_edge_weight(1, 0), Some(5));

    wg.remove_edge(0, 1).unwrap();
    assert_eq!(wg.get_edge_weight(0, 1), None);
    assert_eq!(wg.get_edge_weight(1, 0), None);
    assert_eq!(wg.remove_edge(1, 0).is_err(), true);
}

#[test]
fn properties_test() {
    let g = Graph::complete(3);

    assert_eq!(properties::is_acyclic(&g), false);

    let mut sg = Subgraph::from_graph(&g);

    sg.remove_edge(0, 1).unwrap();

    assert_eq!(properties::is_acyclic(&sg), true);

    sg.remove_edge(0, 2).unwrap();
    assert_eq!(properties::is_acyclic(&sg), true);
    assert_eq!(properties::is_connected(&sg), false);
    assert_eq!(properties::is_spanning_tree(&sg), false);

    sg.add_edge(0, 1).unwrap();
    assert_eq!(properties::is_connected(&sg), true);
    assert_eq!(properties::is_spanning_tree(&sg), true);
}

#[test]
fn num_neighbors_test() {
    let mut d = Digraph::new(4);

    assert_eq!(neighbors::num_in_neighbors(&d, 0), 0);

    d.add_edge(1, 0).unwrap();
    assert_eq!(neighbors::num_in_neighbors(&d, 0), 1);

    d.add_edge(2, 0).unwrap();
    d.add_edge(3, 0).unwrap();
    assert_eq!(neighbors::num_in_neighbors(&d, 0), 3);

    let in_list = neighbors::in_neighbors(&d, 0);
    assert_eq!(in_list, vec![1, 2, 3]);

    assert_eq!(neighbors::num_out_neighbors(&d, 0), 0);
    assert_eq!(neighbors::num_out_neighbors(&d, 1), 1);
    assert_eq!(neighbors::num_out_neighbors(&d, 2), 1);
    assert_eq!(neighbors::num_out_neighbors(&d, 3), 1);
}

#[test]
fn algorithms_test() {
    let weighted_edges = vec![
        (0, 1, 1),
        (0, 2, 9),
        (0, 5, 14),
        (1, 2, 10),
        (1, 3, 15),
        (2, 3, 11),
        (2, 5, 2),
        (3, 4, 6),
        (4, 5, 9),
    ];

    let wg = WeightedGraph::from_weighted_edges(6, weighted_edges);

    let mst_edges = algorithms::kruskal(&wg);

    assert_eq!(mst_edges.len(), 5);
    let total: u64 = mst_edges
        .to_vec()
        .iter()
        .map(|(u, v)| wg.get_edge_weight(*u, *v).unwrap())
        .sum();
    assert_eq!(total, 27);

    let solution = vec![(0, 1), (0, 2), (2, 5), (3, 4), (4, 5)];

    for edge in solution {
        assert_eq!(mst_edges.contains(edge.0, edge.1), true);
    }
}

#[test]
fn graph_edges_canonical_order() {
    // every edge appears exactly once, in increasing lexicographic
    // order, and the list is as long as the edge count
    let mut g = Graph::new(5);
    g.add_edge(4, 0).unwrap();
    g.add_edge(2, 1).unwrap();
    g.add_edge(3, 3).unwrap();
    g.add_edge(0, 1).unwrap();

    let edges = g.edges();
    assert_eq!(edges.len(), g.num_edges());
    assert_eq!(edges, vec![(0, 1), (0, 4), (1, 2), (3, 3)]);
}

#[test]
fn graph_mutation_round_trip() {
    // adding an edge and removing it again restores the graph
    let mut g = Graph::new(6);
    g.add_edge(0, 3).unwrap();
    let before_edges = g.edges();
    let before_count = g.num_edges();

    g.add_edge(2, 4).unwrap();
    g.remove_edge(2, 4).unwrap();

    assert_eq!(g.has_edge(2, 4), false);
    assert_eq!(g.num_edges(), before_count);
    assert_eq!(g.edges(), before_edges);
}

#[test]
fn subgraph_overlay_semantics() {
    // a subgraph has an edge exactly when it is included, or inherited
    // from the parent and not removed
    let mut g = Graph::new(4);
    g.add_edge(0, 1).unwrap();
    g.add_edge(1, 2).unwrap();

    let mut sg = Subgraph::from_graph(&g);
    sg.add_edge(2, 3).unwrap();
    sg.remove_edge(1, 2).unwrap();

    assert_eq!(sg.has_edge(2, 3), true);
    assert_eq!(sg.has_edge(0, 1), true);
    assert_eq!(sg.has_edge(1, 2), false);
    assert_eq!(sg.has_edge(0, 3), false);
    assert_eq!(sg.num_edges(), 2);
}

#[test]
fn constrained_kruskal_respects_fixings() {
    // a forced edge appears even when it is the heaviest; a forbidden
    // edge never appears
    let weighted_edges = vec![(0, 1, 1), (1, 2, 1), (0, 2, 50)];
    let wg = WeightedGraph::from_weighted_edges(3, weighted_edges);

    let mut forced = mstdc::EdgeSet::new();
    forced.insert(0, 2);
    let forbidden = mstdc::EdgeSet::new();
    let result = mstdc::algorithms::custom_kruskal(&wg, &forced, &forbidden);
    assert!(result.contains(0, 2));
    assert_eq!(result.len(), 2);

    let empty = mstdc::EdgeSet::new();
    let mut banned = mstdc::EdgeSet::new();
    banned.insert(0, 1);
    let result2 = mstdc::algorithms::custom_kruskal(&wg, &empty, &banned);
    assert!(!result2.contains(0, 1));
    assert!(result2.contains(1, 2));
    assert!(result2.contains(0, 2));
}

#[test]
fn random_arborescence_shape() {
    // whatever the random order, an arborescence on five vertices has
    // four arcs and none of them enters the root
    let d = mstdc::random::random_arborescence(5, 2);
    assert_eq!(d.num_verts(), 5);
    assert_eq!(d.num_edges(), 4);
    for (_, v) in d.edges() {
        assert_ne!(v, 0);
    }
}
