use roman_domination::{Graph, RandomSource};

fn is_roman(g: &Graph, f: &[u8]) -> bool {
    f.len() == g.get_num_vertices()
        && f.iter().all(|&x| x <= 2)
        && (0..f.len()).all(|v| f[v] != 0 || g.get_neighbors(v).iter().any(|&u| f[u] == 2))
}

fn sample_graphs() -> Vec<Graph> {
    vec![
        Graph::new(0, &[]),
        Graph::new(1, &[]),
        Graph::new(2, &[(0, 1)]),
        Graph::new(4, &[(0, 1), (1, 2), (2, 3)]),
        Graph::new(5, &[(0, 1), (0, 2), (0, 3), (0, 4)]),
        Graph::new(6, &[(0, 1), (1, 2), (2, 0), (3, 4), (4, 4), (3, 4)]),
        Graph::new(7, &[(0, 1), (1, 2), (2, 3), (3, 4), (4, 5), (5, 6), (6, 0), (0, 3)]),
    ]
}

#[test]
fn every_heuristic_gives_a_roman_dominating_function() {
    let mut rng = RandomSource::from_seed(11);
    for g in sample_graphs() {
        assert!(is_roman(&g, &g.h1(&mut rng)));
        assert!(is_roman(&g, &g.h2()));
        assert!(is_roman(&g, &g.h3()));
        assert!(is_roman(&g, &g.h4()));
    }
}

#[test]
fn path_of_four_deterministic_heuristics() {
    let g = Graph::new(4, &[(0, 1), (1, 2), (2, 3)]);
    assert_eq!(g.h2(), vec![0, 2, 0, 1]);
    assert_eq!(g.h3(), vec![0, 2, 0, 1]);
    assert_eq!(g.h4(), vec![0, 2, 0, 1]);
}

#[test]
fn star_center_takes_everything() {
    let g = Graph::new(5, &[(0, 1), (0, 2), (0, 3), (0, 4)]);
    assert_eq!(g.h2(), vec![2, 0, 0, 0, 0]);
    assert_eq!(g.h3(), vec![2, 0, 0, 0, 0]);
    assert_eq!(g.h4(), vec![2, 0, 0, 0, 0]);
}

#[test]
fn h2_uses_static_degree_and_h3_residual_degree() {
    // 0-1, 1-2, 2-3, 3-4, 2-5, 5-6: degrees [1,2,3,2,1,2,1].
    let g = Graph::new(7, &[(0, 1), (1, 2), (2, 3), (3, 4), (2, 5), (5, 6)]);
    // Both take 2 first (1, 3, 5 become 0); 0, 4, 6 are left.
    // H2 then takes 0 (degree 1, lowest index), 4, and labels 6 as the last one.
    assert_eq!(g.h2(), vec![2, 0, 2, 0, 2, 0, 1]);
    // H3 sees residual degree 0 everywhere and takes the lowest index each time.
    assert_eq!(g.h3(), vec![2, 0, 2, 0, 2, 0, 1]);
    // H4 settles the isolated 0, 4 and 6 with 1 right after the first round.
    assert_eq!(g.h4(), vec![1, 0, 2, 0, 1, 0, 1]);
}

#[test]
fn ties_go_to_lowest_index() {
    let g = Graph::new(2, &[(0, 1)]);
    assert_eq!(g.h2(), vec![2, 0]);
    assert_eq!(g.h3(), vec![2, 0]);
    assert_eq!(g.h4(), vec![2, 0]);
}

#[test]
fn h4_settles_self_loop_vertex_as_last() {
    let g = Graph::new(1, &[(0, 0)]);
    assert_eq!(g.h4(), vec![2]);
    let g = Graph::new(3, &[(0, 1), (2, 2)]);
    // The loop counts twice in 2's residual degree, so H4 takes 2 first, then 0.
    assert_eq!(g.h4(), vec![2, 0, 2]);
}

#[test]
fn single_vertex_heuristics_label_two() {
    let g = Graph::new(1, &[]);
    let mut rng = RandomSource::from_seed(3);
    assert_eq!(g.h1(&mut rng), vec![2]);
    assert_eq!(g.h2(), vec![2]);
    assert_eq!(g.h3(), vec![2]);
    assert_eq!(g.h4(), vec![2]);
}

#[test]
fn empty_graph_gives_empty_labeling() {
    let g = Graph::new(0, &[]);
    let mut rng = RandomSource::from_seed(3);
    assert!(g.h1(&mut rng).is_empty());
    assert!(g.h2().is_empty());
    assert!(g.h3().is_empty());
    assert!(g.h4().is_empty());
}

#[test]
fn h1_is_reproducible_from_a_seed() {
    let g = Graph::new(7, &[(0, 1), (1, 2), (2, 3), (3, 4), (4, 5), (5, 6), (6, 0), (0, 3)]);
    let mut a = RandomSource::from_seed(42);
    let mut b = RandomSource::from_seed(42);
    for _ in 0..5 {
        assert_eq!(g.h1(&mut a), g.h1(&mut b));
    }
}
