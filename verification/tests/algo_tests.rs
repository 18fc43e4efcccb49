use graph_paths::dijkstra::Dijkstra;
use graph_paths::graph::Graph;
use graph_paths::min_heap::MinHeap;
use graph_paths::prim::Prim;
use graph_paths::traversal::SENTINEL;

fn directed_square() -> Graph {
    let mut g = Graph::new();
    g.add_edge(1, 2, 1);
    g.add_edge(1, 3, 1);
    g.add_edge(2, 3, 1);
    g.add_edge(2, 4, 1);
    g.add_edge(3, 4, 1);
    g
}

fn undirected(edges: &[(usize, usize, i32)]) -> Graph {
    let mut g = Graph::new();
    for &(u, v, w) in edges {
        g.add_edge(u, v, w);
        g.add_edge(v, u, w);
    }
    g
}

fn seed(heap: &mut MinHeap, g: &Graph) {
    for v in g.get_vertexes() {
        heap.insert(v, SENTINEL);
    }
}

#[test]
fn heap_extracts_in_priority_order() {
    let mut h = MinHeap::new();
    h.insert(10, 50);
    h.insert(20, 10);
    h.insert(30, 30);
    h.insert(40, 20);
    assert_eq!(h.peek_priority_by_identity(30), Some(30));
    assert_eq!(h.peek_priority_by_identity(99), None);
    assert_eq!(h.extract_min(), Some((20, 10)));
    assert_eq!(h.extract_min(), Some((40, 20)));
    assert_eq!(h.extract_min(), Some((30, 30)));
    assert_eq!(h.extract_min(), Some((10, 50)));
    assert_eq!(h.extract_min(), None);
}

#[test]
fn heap_decrease_key_by_identity() {
    let mut h = MinHeap::new();
    h.insert(1, 40);
    h.insert(2, 30);
    h.insert(3, 20);
    let idx = h.position_of(1).unwrap();
    h.decrease_priority_at(idx, 5);
    assert_eq!(h.peek_priority_by_identity(1), Some(5));
    assert_eq!(h.extract_min(), Some((1, 5)));
    assert_eq!(h.extract_min(), Some((3, 20)));
    assert_eq!(h.extract_min(), Some((2, 30)));
}

#[test]
fn heap_delete_at_arbitrary_position() {
    let mut h = MinHeap::new();
    h.insert(1, 10);
    h.insert(2, 20);
    h.insert(3, 30);
    let idx = h.position_of(2).unwrap();
    h.delete_at(idx);
    assert_eq!(h.position_of(2), None);
    assert_eq!(h.extract_min(), Some((1, 10)));
    assert_eq!(h.extract_min(), Some((3, 30)));
    assert_eq!(h.extract_min(), None);
}

#[test]
fn dijkstra_distances_on_directed_square() {
    let mut g = directed_square();
    let mut d = Dijkstra::new();
    seed(&mut d.unprocessed_vertex, &g);
    assert!(d.shortest_paths(&mut g, 1));
    assert_eq!(d.processed_vertex.len(), 4);
    assert_eq!(d.processed_vertex.get(&1), Some(&0));
    assert_eq!(d.processed_vertex.get(&2), Some(&1));
    assert_eq!(d.processed_vertex.get(&3), Some(&1));
    assert_eq!(d.processed_vertex.get(&4), Some(&2));
}

#[test]
fn dijkstra_missing_start_computes_nothing() {
    let mut g = directed_square();
    let mut d = Dijkstra::new();
    seed(&mut d.unprocessed_vertex, &g);
    assert!(!d.shortest_paths(&mut g, 9));
    assert!(d.processed_vertex.is_empty());
}

#[test]
fn dijkstra_unreachable_vertex_keeps_sentinel() {
    let mut g = directed_square();
    g.create_vertex(&8);
    let mut d = Dijkstra::new();
    seed(&mut d.unprocessed_vertex, &g);
    assert!(d.shortest_paths(&mut g, 1));
    assert_eq!(d.processed_vertex.get(&8), Some(&SENTINEL));
    assert_eq!(d.processed_vertex.get(&4), Some(&2));
}

#[test]
fn prim_total_weight_on_unit_square() {
    let mut g = undirected(&[(1, 2, 1), (1, 3, 1), (2, 3, 1), (2, 4, 1), (3, 4, 1)]);
    let mut p = Prim::new();
    seed(&mut p.unprocessed_vertex, &g);
    assert!(p.min_span_tree(&mut g, 1));
    let total: i32 = p.processed_vertex.values().sum();
    assert_eq!(total, 3);
}

#[test]
fn prim_total_weight_ignores_starting_vertex() {
    let edges = [(1, 2, 4), (1, 3, 1), (2, 3, 2), (2, 4, 5), (3, 4, 8)];
    let mut totals: Vec<i32> = Vec::new();
    for start in [1usize, 2, 3, 4] {
        let mut g = undirected(&edges);
        let mut p = Prim::new();
        seed(&mut p.unprocessed_vertex, &g);
        assert!(p.min_span_tree(&mut g, start));
        totals.push(p.processed_vertex.values().sum());
    }
    assert_eq!(totals, vec!(8, 8, 8, 8));
}

#[test]
fn prim_missing_start_computes_nothing() {
    let mut g = undirected(&[(1, 2, 1)]);
    let mut p = Prim::new();
    seed(&mut p.unprocessed_vertex, &g);
    assert!(!p.min_span_tree(&mut g, 3));
    assert!(p.processed_vertex.is_empty());
}

#[test]
fn update_scoring_lowers_frontier_priorities() {
    let mut g = directed_square();
    let mut d = Dijkstra::new();
    seed(&mut d.unprocessed_vertex, &g);
    let idx = d.unprocessed_vertex.position_of(1).unwrap();
    d.unprocessed_vertex.delete_at(idx);
    d.processed_vertex.insert(1, 0);
    d.update_scoring(&mut g, 1);
    assert_eq!(d.unprocessed_vertex.peek_priority_by_identity(2), Some(1));
    assert_eq!(d.unprocessed_vertex.peek_priority_by_identity(3), Some(1));
    assert_eq!(
        d.unprocessed_vertex.peek_priority_by_identity(4),
        Some(SENTINEL)
    );
}

#[test]
fn empty_frontier_rejects_any_start() {
    let mut g = Graph::new();
    let mut d = Dijkstra::new();
    assert!(!d.shortest_paths(&mut g, 0));
    assert!(d.processed_vertex.is_empty());
}

#[test]
fn single_vertex_tree_has_weight_zero() {
    let mut g = Graph::new();
    g.create_vertex(&7);
    let mut p = Prim::new();
    seed(&mut p.unprocessed_vertex, &g);
    assert!(p.min_span_tree(&mut g, 7));
    let total: i32 = p.processed_vertex.values().sum();
    assert_eq!(total, 0);
}
