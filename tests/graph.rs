use roman_domination::{Graph, MAX_VERTICES};

fn path4() -> Graph {
    Graph::new(4, &[(0, 1), (1, 2), (2, 3)])
}

#[test]
fn new_stores_edges_at_both_ends() {
    let g = path4();
    assert_eq!(g.get_num_vertices(), 4);
    assert_eq!(g.get_neighbors(0), &vec![1]);
    assert_eq!(g.get_neighbors(1), &vec![0, 2]);
    assert_eq!(g.get_neighbors(2), &vec![1, 3]);
    assert_eq!(g.get_neighbors(3), &vec![2]);
    assert_eq!(g.get_vertex_degree(1), 2);
    assert_eq!(g.get_graph_size(), 3);
}

#[test]
fn new_keeps_parallel_edges_and_self_loops() {
    let g = Graph::new(3, &[(0, 1), (0, 1), (2, 2)]);
    assert_eq!(g.get_neighbors(0), &vec![1, 1]);
    assert_eq!(g.get_neighbors(1), &vec![0, 0]);
    assert_eq!(g.get_neighbors(2), &vec![2, 2]);
    assert_eq!(g.get_graph_size(), 3);
}

#[test]
fn empty_graph_has_no_vertices() {
    let g = Graph::new(0, &[]);
    assert_eq!(g.get_num_vertices(), 0);
    assert_eq!(g.get_graph_size(), 0);
}

#[test]
fn add_vertex_grows_to_index() {
    let mut g = Graph::new(2, &[(0, 1)]);
    g.add_vertex(4);
    assert_eq!(g.get_num_vertices(), 5);
    assert_eq!(g.get_neighbors(0), &vec![1]);
    assert_eq!(g.get_vertex_degree(4), 0);
    g.add_vertex(1);
    assert_eq!(g.get_num_vertices(), 5);
}

#[test]
fn add_edge_adds_missing_vertices() {
    let mut g = Graph::new(0, &[]);
    g.add_edge(2, 5);
    assert_eq!(g.get_num_vertices(), 6);
    assert_eq!(g.get_neighbors(2), &vec![5]);
    assert_eq!(g.get_neighbors(5), &vec![2]);
    assert_eq!(g.get_graph_size(), 1);
}

#[test]
fn del_vertex_removes_edges_at_both_ends() {
    let mut g = Graph::new(4, &[(0, 1), (1, 2), (2, 3), (1, 2), (1, 1)]);
    g.del_vertex(1);
    assert_eq!(g.get_num_vertices(), 4);
    assert_eq!(g.get_vertex_degree(1), 0);
    assert_eq!(g.get_neighbors(0), &Vec::<usize>::new());
    assert_eq!(g.get_neighbors(2), &vec![3]);
    assert_eq!(g.get_neighbors(3), &vec![2]);
    assert_eq!(g.get_graph_size(), 1);
}

#[test]
fn del_vertex_outside_graph_changes_nothing() {
    let mut g = path4();
    g.del_vertex(9);
    assert_eq!(g.get_graph_size(), 3);
    assert_eq!(g.get_neighbors(1), &vec![0, 2]);
}

#[test]
fn from_records_follows_edge_list_lines() {
    let records = vec![vec![0, 1], vec![3, 3], vec![1, 2, 7], vec![], vec![2, 1]];
    let g = Graph::from_records(&records);
    assert_eq!(g.get_num_vertices(), 4);
    assert_eq!(g.get_neighbors(1), &vec![0, 2]);
    assert_eq!(g.get_neighbors(2), &vec![1]);
    assert_eq!(g.get_vertex_degree(3), 0);
    assert_eq!(g.get_graph_size(), 2);
}

#[test]
fn clone_copies_adjacency() {
    let g = path4();
    let h = g.clone();
    assert_eq!(h.get_neighbors(2), &vec![1, 3]);
    assert_eq!(h.get_graph_size(), 3);
}

#[test]
fn vertex_bound_is_half_the_address_space() {
    assert_eq!(MAX_VERTICES, usize::MAX / 2);
}
