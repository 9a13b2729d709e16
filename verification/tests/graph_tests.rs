use petgraph::graph::NodeIndex;
use petgraph::visit::EdgeRef;
use team_similarity::distance::DistanceError;
use team_similarity::features::TeamFeatures;
use team_similarity::graph::create_graph;

fn sample_teams() -> TeamFeatures {
    let mut team_averages = TeamFeatures::new();
    team_averages.insert("TeamA", vec![15, 25]);
    team_averages.insert("TeamB", vec![16, 26]);
    team_averages.insert("TeamC", vec![50, 60]);
    team_averages
}

#[test]
fn graph_test_create_graph() {
    let team_averages = sample_teams();
    let (graph, team_indices) = create_graph(&team_averages, 10, 25).unwrap();

    assert_eq!(graph.node_count(), 3);
    assert!(team_indices.contains_key("TeamA"));
}

#[test]
fn tests_test_create_graph() {
    let team_averages = sample_teams();
    let (graph, team_indices) = create_graph(&team_averages, 10, 25).unwrap();
    assert_eq!(graph.node_count(), 3);
    assert!(team_indices.contains_key("TeamA"));
    assert!(team_indices.contains_key("TeamB"));
}

#[test]
fn close_pair_gets_one_edge() {
    // sums 40, 42 and 110 all pass the threshold of 10; only TeamA and
    // TeamB are closer than the cutoff (squared distance 2 < 25)
    let team_averages = sample_teams();
    let (graph, team_indices) = create_graph(&team_averages, 10, 25).unwrap();

    assert_eq!(graph.node_count(), 3);
    assert_eq!(graph.edge_count(), 1);
    let a = NodeIndex::new(team_indices.get("TeamA").unwrap());
    let b = NodeIndex::new(team_indices.get("TeamB").unwrap());
    let c = NodeIndex::new(team_indices.get("TeamC").unwrap());
    let edge = graph.find_edge(a, b).unwrap();
    assert_eq!(graph.edge_weight(edge), Some(&2));
    assert!(graph.find_edge(a, c).is_none());
    assert!(graph.find_edge(b, c).is_none());
}

#[test]
fn threshold_is_strict() {
    let mut tf = TeamFeatures::new();
    tf.insert("AtThreshold", vec![4, 6]);
    tf.insert("Above", vec![4, 7]);
    let (graph, team_indices) = create_graph(&tf, 10, 25).unwrap();
    assert_eq!(graph.node_count(), 1);
    assert!(!team_indices.contains_key("AtThreshold"));
    assert!(team_indices.contains_key("Above"));
}

#[test]
fn cutoff_is_strict() {
    // both admitted; their squared distance is exactly the cutoff
    let mut tf = TeamFeatures::new();
    tf.insert("Origin", vec![0, 0]);
    tf.insert("Far", vec![3, 4]);
    let (graph, _) = create_graph(&tf, -1, 25).unwrap();
    assert_eq!(graph.node_count(), 2);
    assert_eq!(graph.edge_count(), 0);
}

#[test]
fn empty_mapping_gives_empty_graph() {
    let tf = TeamFeatures::new();
    let (graph, team_indices) = create_graph(&tf, 10, 25).unwrap();
    assert_eq!(graph.node_count(), 0);
    assert_eq!(graph.edge_count(), 0);
    assert_eq!(team_indices.len(), 0);
}

#[test]
fn single_admissible_team_gives_single_node() {
    let mut tf = TeamFeatures::new();
    tf.insert("Lonely", vec![20, 20]);
    tf.insert("Quiet", vec![1, 1]);
    let (graph, team_indices) = create_graph(&tf, 10, 25).unwrap();
    assert_eq!(graph.node_count(), 1);
    assert_eq!(graph.edge_count(), 0);
    assert!(team_indices.contains_key("Lonely"));
    assert!(!team_indices.contains_key("Quiet"));
}

#[test]
fn admitted_dimension_mismatch_is_reported() {
    let mut tf = TeamFeatures::new();
    tf.insert("TeamA", vec![20, 20]);
    tf.insert("TeamB", vec![20, 20, 20]);
    assert!(matches!(
        create_graph(&tf, 10, 25),
        Err(DistanceError::DimensionMismatch)
    ));
}

#[test]
fn filtered_team_cannot_cause_mismatch() {
    let mut tf = TeamFeatures::new();
    tf.insert("TeamA", vec![20, 20]);
    tf.insert("TeamB", vec![21, 21]);
    tf.insert("Quiet", vec![1]);
    let (graph, _) = create_graph(&tf, 10, 25).unwrap();
    assert_eq!(graph.node_count(), 2);
    assert_eq!(graph.edge_count(), 1);
}

#[test]
fn building_twice_yields_identical_graphs() {
    let team_averages = sample_teams();
    let (g1, ti1) = create_graph(&team_averages, 10, 25).unwrap();
    let (g2, ti2) = create_graph(&team_averages, 10, 25).unwrap();

    let nodes1: Vec<&String> = g1.node_indices().map(|ix| &g1[ix]).collect();
    let nodes2: Vec<&String> = g2.node_indices().map(|ix| &g2[ix]).collect();
    assert_eq!(nodes1, nodes2);

    let edges1: Vec<(usize, usize, u128)> =
        g1.edge_references().map(|e| (e.source().index(), e.target().index(), *e.weight())).collect();
    let edges2: Vec<(usize, usize, u128)> =
        g2.edge_references().map(|e| (e.source().index(), e.target().index(), *e.weight())).collect();
    assert_eq!(edges1, edges2);

    for team in ["TeamA", "TeamB", "TeamC"] {
        assert_eq!(ti1.get(team), ti2.get(team));
    }
}
