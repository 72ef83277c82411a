use roman_domination::{crossover_at, tournament_winner, Graph, RomanDominationGA, Solution};

fn path4() -> Graph {
    Graph::new(4, &[(0, 1), (1, 2), (2, 3)])
}

fn is_roman(g: &Graph, f: &[u8]) -> bool {
    f.len() == g.get_num_vertices()
        && f.iter().all(|&x| x <= 2)
        && (0..f.len()).all(|v| f[v] != 0 || g.get_neighbors(v).iter().any(|&u| f[u] == 2))
}

#[test]
fn default_population_size_is_half_the_vertices() {
    let ga = RomanDominationGA::new(Graph::new(9, &[]), None);
    assert_eq!(ga.population_size(), 4);
    let ga = RomanDominationGA::new(Graph::new(9, &[]), Some(7));
    assert_eq!(ga.population_size(), 7);
}

#[test]
fn is_feasible_checks_every_zero() {
    let ga = RomanDominationGA::with_seed(path4(), Some(4), 1);
    assert!(ga.is_feasible(&Solution::new(vec![0, 2, 0, 1], None)));
    assert!(ga.is_feasible(&Solution::new(vec![1, 1, 1, 1], None)));
    assert!(!ga.is_feasible(&Solution::new(vec![0, 2, 0, 0], None)));
    assert!(!ga.is_feasible(&Solution::new(vec![0, 1, 1, 1], None)));
}

#[test]
fn make_feasible_raises_undominated_zeros() {
    let ga = RomanDominationGA::with_seed(path4(), Some(4), 1);
    let mut s = Solution::new(vec![0, 0, 2, 0], Some(2));
    ga.make_feasible(&mut s);
    assert_eq!(s.labels(), &vec![1, 0, 2, 0]);
    assert_eq!(s.fitness, None);
}

#[test]
fn make_feasible_keeps_feasible_labels() {
    let ga = RomanDominationGA::with_seed(path4(), Some(4), 1);
    let mut s = Solution::new(vec![0, 2, 0, 1], Some(3));
    ga.make_feasible(&mut s);
    assert_eq!(s.labels(), &vec![0, 2, 0, 1]);
    assert_eq!(s.fitness, Some(3));
}

#[test]
fn evaluate_repairs_then_sums() {
    let ga = RomanDominationGA::with_seed(path4(), Some(4), 1);
    let mut s = Solution::new(vec![0, 0, 0, 0], None);
    let f = ga.evaluate_fitness(&mut s);
    assert_eq!(f, 4);
    assert_eq!(s.fitness, Some(4));
    assert_eq!(s.labels(), &vec![1, 1, 1, 1]);
    assert!(ga.is_feasible(&s));
}

#[test]
fn evaluate_gives_weight_of_feasible_labels() {
    let ga = RomanDominationGA::with_seed(path4(), Some(4), 1);
    let mut s = Solution::new(vec![2, 0, 0, 2], None);
    assert_eq!(ga.evaluate_fitness(&mut s), 4);
    assert_eq!(s.labels(), &vec![2, 0, 0, 2]);
    let labels: usize = s.labels().iter().map(|&x| x as usize).sum();
    assert_eq!(s.fitness, Some(labels));
}

#[test]
fn evaluate_recomputes_a_stale_cache() {
    let ga = RomanDominationGA::with_seed(path4(), Some(4), 1);
    let mut s = Solution::new(vec![0, 2, 0, 1], Some(99));
    assert_eq!(ga.evaluate_fitness(&mut s), 3);
}

#[test]
fn evaluate_twice_respects_cache() {
    let ga = RomanDominationGA::with_seed(path4(), Some(4), 1);
    let mut s = Solution::new(vec![0, 1, 0, 0], None);
    let first = ga.evaluate_fitness(&mut s);
    let labels = s.labels().clone();
    let second = ga.evaluate_fitness(&mut s);
    assert_eq!(first, second);
    assert_eq!(s.labels(), &labels);
    assert_eq!(first, 4);
}

#[test]
fn clone_marks_cache_stale() {
    let ga = RomanDominationGA::with_seed(path4(), Some(4), 1);
    let mut s = Solution::new(vec![0, 2, 0, 1], None);
    ga.evaluate_fitness(&mut s);
    let mut c = s.clone();
    assert_eq!(c.fitness, Some(3));
    assert_eq!(c.labels(), s.labels());
    // The copy is evaluated again, so a wrong copied fitness is corrected.
    c.fitness = Some(7);
    assert_eq!(ga.evaluate_fitness(&mut c), 3);
}

#[test]
fn crossover_at_splices_segment() {
    let a = Solution::new(vec![1, 1, 1, 1, 1], Some(5));
    let b = Solution::new(vec![2, 0, 2, 0, 2], Some(6));
    let c = crossover_at(&a, &b, 1, 4);
    assert_eq!(c.labels(), &vec![1, 0, 2, 0, 1]);
    assert_eq!(c.fitness, None);
    let c = crossover_at(&a, &b, 2, 2);
    assert_eq!(c.labels(), &vec![1, 1, 1, 1, 1]);
    let c = crossover_at(&a, &b, 0, 5);
    assert_eq!(c.labels(), &vec![2, 0, 2, 0, 2]);
}

#[test]
fn crossover_child_agrees_with_parents() {
    let mut ga = RomanDominationGA::with_seed(Graph::new(6, &[]), Some(2), 5);
    let a = Solution::new(vec![0, 0, 0, 0, 0, 0], None);
    let b = Solution::new(vec![2, 2, 2, 2, 2, 2], None);
    for _ in 0..20 {
        let c = ga.crossover(&a, &b).unwrap();
        let l = c.labels();
        assert_eq!(l.len(), 6);
        assert_eq!(l[5], 0);
        let r1 = l.iter().position(|&x| x == 2).unwrap();
        let r2 = r1 + l[r1..].iter().take_while(|&&x| x == 2).count();
        assert!(r1 < r2);
        assert!(l[r2..].iter().all(|&x| x == 0));
        assert_eq!(c.fitness, None);
    }
}

#[test]
fn crossover_needs_two_vertices() {
    let mut ga = RomanDominationGA::with_seed(Graph::new(1, &[]), Some(2), 5);
    let a = Solution::new(vec![1], None);
    let b = Solution::new(vec![2], None);
    assert!(ga.crossover(&a, &b).is_none());
}

#[test]
fn unevaluated_orders_before_evaluated() {
    let s1 = Solution::new(vec![0, 2, 0, 1], None);
    let s2 = Solution::new(vec![0, 2, 0, 1], Some(5));
    assert!(s1 < s2);
    assert!(s2 > s1);
    assert!(s1 != s2);
}

#[test]
fn solutions_order_by_fitness() {
    let s1 = Solution::new(vec![1], Some(3));
    let s2 = Solution::new(vec![2, 2], Some(5));
    let s3 = Solution::new(vec![0], Some(5));
    assert!(s1 < s2);
    assert!(s2 == s3);
    assert!(s2 <= s3);
    assert_eq!(s1.partial_cmp(&s2), Some(std::cmp::Ordering::Less));
    assert_eq!(Solution::new(vec![], None).partial_cmp(&Solution::new(vec![1], None)), Some(std::cmp::Ordering::Equal));
}

#[test]
fn tournament_winner_is_first_of_least_fitness() {
    let pop = vec![
        Solution::new(vec![1], Some(4)),
        Solution::new(vec![1], Some(2)),
        Solution::new(vec![1], Some(7)),
        Solution::new(vec![1], Some(2)),
    ];
    assert_eq!(tournament_winner(&pop, &vec![2, 3, 1]), 1);
    assert_eq!(tournament_winner(&pop, &vec![0, 2]), 0);
    assert_eq!(tournament_winner(&pop, &vec![2]), 0);
    assert_eq!(tournament_winner(&pop, &vec![1, 3]), 0);
}

#[test]
fn path_of_four_converges_to_three() {
    let mut ga = RomanDominationGA::with_seed(path4(), Some(4), 2024);
    let best = ga.run(50, 10, 2, 0);
    assert_eq!(best.fitness, Some(3));
    assert!(is_roman(&path4(), best.labels()));
}

#[test]
fn path_of_four_with_crossover_converges_to_three() {
    let mut ga = RomanDominationGA::new(path4(), Some(4));
    let best = ga.run(50, 10, 2, 900_000);
    assert_eq!(best.fitness, Some(3));
}

#[test]
fn single_isolated_vertex_keeps_heuristic_label() {
    // Every heuristic labels a lone vertex 2, and no operator lowers a label.
    let g = Graph::new(1, &[]);
    let mut ga = RomanDominationGA::with_seed(g, Some(3), 8);
    let best = ga.run(50, 10, 2, 1_000_000);
    assert_eq!(best.labels(), &vec![2]);
    assert_eq!(best.fitness, Some(2));
}

#[test]
fn zero_stagnation_returns_best_seed() {
    // Seeds on this graph: H4 weighs 5, H3 and H2 weigh 7.
    let g = Graph::new(7, &[(0, 1), (1, 2), (2, 3), (3, 4), (2, 5), (5, 6)]);
    let mut ga = RomanDominationGA::with_seed(g.clone(), Some(3), 9);
    let best = ga.run(100, 0, 2, 1_000_000);
    assert_eq!(best.fitness, Some(5));
    assert_eq!(best.labels(), &vec![1, 0, 2, 0, 1, 0, 1]);
}

#[test]
fn zero_generations_returns_best_of_population() {
    let g = Graph::new(7, &[(0, 1), (1, 2), (2, 3), (3, 4), (4, 5), (5, 6), (6, 0), (0, 3)]);
    let mut ga = RomanDominationGA::with_seed(g.clone(), Some(8), 13);
    let population = ga.generate_initial_population();
    assert_eq!(population.len(), 8);
    let mut least = usize::MAX;
    for s in &population {
        let mut c = s.clone();
        least = least.min(ga.evaluate_fitness(&mut c));
    }
    let best = ga.evolve(population, 0, 10, 2, 500_000);
    assert_eq!(best.fitness, Some(least));
}

#[test]
fn initial_population_starts_with_deterministic_seeds() {
    let g = Graph::new(7, &[(0, 1), (1, 2), (2, 3), (3, 4), (2, 5), (5, 6)]);
    let mut ga = RomanDominationGA::with_seed(g.clone(), Some(5), 21);
    let population = ga.generate_initial_population();
    assert_eq!(population.len(), 5);
    assert_eq!(population[0].labels(), &g.h4());
    assert_eq!(population[1].labels(), &g.h3());
    assert_eq!(population[2].labels(), &g.h2());
    for s in &population {
        assert!(is_roman(&g, s.labels()));
        let w: usize = s.labels().iter().map(|&x| x as usize).sum();
        assert_eq!(s.fitness, Some(w));
    }
    let mut small = RomanDominationGA::with_seed(g.clone(), Some(1), 21);
    let population = small.generate_initial_population();
    assert_eq!(population.len(), 1);
    assert_eq!(population[0].labels(), &g.h4());
}

#[test]
fn run_result_is_never_worse_than_h4() {
    let g = Graph::new(9, &[(0, 1), (1, 2), (2, 3), (3, 4), (4, 5), (5, 6), (6, 7), (7, 8), (8, 0), (0, 4)]);
    let h4: usize = g.h4().iter().map(|&x| x as usize).sum();
    for seed in 0..5 {
        let mut ga = RomanDominationGA::with_seed(g.clone(), Some(6), seed);
        let best = ga.run(30, 5, 3, 700_000);
        assert!(best.fitness.unwrap() <= h4);
        assert!(is_roman(&g, best.labels()));
    }
}

#[test]
fn run_is_reproducible_from_a_seed() {
    let g = Graph::new(9, &[(0, 1), (1, 2), (2, 3), (3, 4), (4, 5), (5, 6), (6, 7), (7, 8), (8, 0)]);
    let mut a = RomanDominationGA::with_seed(g.clone(), Some(6), 77);
    let mut b = RomanDominationGA::with_seed(g, Some(6), 77);
    let x = a.run(30, 5, 2, 900_000);
    let y = b.run(30, 5, 2, 900_000);
    assert_eq!(x.labels(), y.labels());
    assert_eq!(x.fitness, y.fitness);
}

#[test]
fn configuration_errors_give_no_solution() {
    let mut ga = RomanDominationGA::new(Graph::new(0, &[]), Some(4));
    let r = ga.run(10, 5, 2, 0);
    assert!(r.labels().is_empty());
    assert_eq!(r.fitness, None);

    let mut ga = RomanDominationGA::new(path4(), Some(0));
    let r = ga.run(10, 5, 2, 0);
    assert!(r.labels().is_empty());
    assert_eq!(r.fitness, None);

    let mut ga = RomanDominationGA::new(path4(), Some(4));
    let r = ga.run(10, 5, 0, 0);
    assert!(r.labels().is_empty());
    assert_eq!(r.fitness, None);
}

#[test]
fn tournament_larger_than_population_uses_everyone() {
    let mut ga = RomanDominationGA::with_seed(path4(), Some(2), 4);
    let best = ga.run(20, 5, 10, 500_000);
    assert_eq!(best.fitness, Some(3));
}
