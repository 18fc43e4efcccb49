use graph_paths::graph::{Edge, Graph};

fn setup_basic1() -> Graph {
    let mut g = Graph::new();
    assert_eq!(g.add_edge(1, 2, 1), Some(1));
    assert_eq!(g.add_edge(1, 3, 1), Some(2));
    assert_eq!(g.add_edge(2, 3, 1), Some(1));
    assert_eq!(g.add_edge(2, 4, 1), Some(2));
    assert_eq!(g.add_edge(3, 4, 1), Some(1));
    assert_eq!(g.get_outgoing(1), &[Edge::new(2, 1), Edge::new(3, 1)]);
    assert_eq!(g.get_outgoing(2), &[Edge::new(3, 1), Edge::new(4, 1)]);
    assert_eq!(g.get_outgoing(3), &[Edge::new(4, 1)]);
    assert_eq!(g.get_outgoing(4), &[]);
    g
}

#[test]
fn basic() {
    let mut g = Graph::new();
    assert_eq!(g.create_vertex(&1), Some(1));
    assert_eq!(g.create_vertex(&2), Some(2));
    assert_eq!(g.add_edge(1, 2, 1), Some(1));
    assert_eq!(g.get_vertexes(), vec!(1, 2));
    assert_eq!(g.create_vertex(&3), Some(3));
    assert_eq!(g.add_edge(1, 3, 1), Some(2));
    assert_eq!(g.add_edge(2, 3, 1), Some(1));
    assert_eq!(g.get_vertexes(), vec!(1, 2, 3));
    assert_eq!(g.add_edge(1, 4, 1), Some(3));
    assert_eq!(g.get_vertexes(), vec!(1, 2, 3, 4));
    println!("{:?}", g);
}

#[test]
fn test_add() {
    let mut g = Graph::new();
    assert_eq!(g.add_edge(1, 2, 1), Some(1));
    assert_eq!(g.get_outgoing(1), &[Edge::new(2, 1)]);
    assert_eq!(g.get_incoming(2), &[Edge::new(1, 1)]);
    assert_eq!(g.add_edge(1, 3, 1), Some(2));
    assert_eq!(g.get_outgoing(1), &[Edge::new(2, 1), Edge::new(3, 1)]);
    assert_eq!(g.get_incoming(2), &[Edge::new(1, 1)]);
}

#[test]
fn test_add_del() {
    let mut g = setup_basic1();
    assert_eq!(g.get_outgoing(1), &[Edge::new(2, 1), Edge::new(3, 1)]);
    assert_eq!(g.add_edge(1, 2, 1), Some(3));
    assert_eq!(g.get_outgoing(1), &[Edge::new(2, 1), Edge::new(3, 1)]);
    assert_eq!(g.get_outgoing(2), &[Edge::new(3, 1), Edge::new(4, 1)]);
    assert_eq!(g.get_outgoing(3), &[Edge::new(4, 1)]);
    assert_eq!(g.delete_edge(1, 2, 1), Ok(()));
    assert_eq!(g.get_outgoing(1), &[Edge::new(2, 1), Edge::new(3, 1)]);
    assert_eq!(g.delete_edge(1, 2, 1), Ok(()));
    assert_eq!(g.get_outgoing(1), &[Edge::new(3, 1)]);
}

#[test]
fn both_sides_track_multiplicity() {
    let mut g = Graph::new();
    assert_eq!(g.add_edge(1, 2, 7), Some(1));
    assert_eq!(g.add_edge(1, 2, 7), Some(2));
    assert_eq!(g.get_outgoing(1), &[Edge::new(2, 7)]);
    assert_eq!(g.get_incoming(2), &[Edge::new(1, 7)]);
    assert_eq!(g.delete_edge(1, 2, 7), Ok(()));
    assert_eq!(g.get_outgoing(1), &[Edge::new(2, 7)]);
    assert_eq!(g.get_incoming(2), &[Edge::new(1, 7)]);
    assert_eq!(g.delete_edge(1, 2, 7), Ok(()));
    assert_eq!(g.get_outgoing(1), &[]);
    assert_eq!(g.get_incoming(2), &[]);
    assert!(g.delete_edge(1, 2, 7).is_err());
}

#[test]
fn delete_missing_edge_leaves_graph_unchanged() {
    let mut g = setup_basic1();
    let before = format!("{:?}", g);
    assert!(g.delete_edge(1, 4, 1).is_err());
    assert!(g.delete_edge(1, 2, 9).is_err());
    assert!(g.delete_edge(7, 2, 1).is_err());
    assert_eq!(format!("{:?}", g), before);
}

#[test]
fn create_vertex_is_idempotent() {
    let mut g = Graph::new();
    assert_eq!(g.create_vertex(&5), Some(1));
    assert_eq!(g.create_vertex(&5), None);
    assert_eq!(g.create_vertex(&2), Some(2));
    assert_eq!(g.get_vertexes(), vec!(2, 5));
}

#[test]
fn parallel_edges_with_distinct_weights_stay_distinct() {
    let mut g = Graph::new();
    assert_eq!(g.add_edge(1, 2, 3), Some(1));
    assert_eq!(g.add_edge(1, 2, 1), Some(2));
    assert_eq!(g.add_edge(1, 1, 4), Some(3));
    assert_eq!(
        g.get_outgoing(1),
        &[Edge::new(1, 4), Edge::new(2, 1), Edge::new(2, 3)]
    );
    assert_eq!(g.get_incoming(2), &[Edge::new(1, 1), Edge::new(1, 3)]);
}
