//! Candidate solutions with cached fitness, their repair and evaluation, and
//! the genetic-algorithm engine that evolves a population of them.
use crate::graph::{adjacency_wf, Adjacency, Graph, MAX_VERTICES};
use crate::heuristics::{h2_labels, h3_labels, h4_labels};
use crate::labeling::{
    dominated, dominated_at, is_roman, labels_in_range, lemma_weight_bound, weight,
};
use crate::random::RandomSource;
use crate::seqs::all_below;
use std::cmp::Ordering;
use vstd::std_specs::cmp::{PartialEqSpec, PartialOrdSpec};
use vstd::prelude::*;

verus! {

/// A candidate labeling with its cached fitness. `modified` marks a cache that
/// must be recomputed before it is trusted.
pub struct Solution {
    labels: Vec<u8>,
    pub fitness: Option<usize>,
    modified: bool,
}

/// What a solution holds, as mathematical values.
pub struct SolutionView {
    pub labels: Seq<u8>,
    pub fitness: Option<usize>,
    pub modified: bool,
}

impl View for Solution {
    type V = SolutionView;

    closed spec fn view(&self) -> SolutionView {
        SolutionView { labels: self.labels@, fitness: self.fitness, modified: self.modified }
    }
}

/// The fitness as a number; an absent fitness counts as 0.
pub open spec fn fitness_value(s: SolutionView) -> usize {
    match s.fitness {
        Some(x) => x,
        None => 0,
    }
}

/// The fitness must be recomputed: it is absent or marked stale.
pub open spec fn needs_evaluation(s: SolutionView) -> bool {
    s.modified || s.fitness is None
}

/// The solution fits the graph: one label in {0, 1, 2} per vertex, and a
/// cache not marked stale holds the weight of a Roman dominating function.
pub open spec fn fits(adj: Adjacency, s: SolutionView) -> bool {
    &&& s.labels.len() == adj.len()
    &&& labels_in_range(s.labels)
    &&& !needs_evaluation(s) ==> s.fitness == Some(weight(s.labels) as usize) && dominated(
        adj,
        s.labels,
    )
}

/// The solution is evaluated: its fitness is the weight of its labels, which
/// form a Roman dominating function.
pub open spec fn settled(adj: Adjacency, s: SolutionView) -> bool {
    &&& s.fitness == Some(weight(s.labels) as usize)
    &&& is_roman(adj, s.labels)
}

/// The same solution with its cache marked stale, as a copy is.
pub open spec fn marked(s: SolutionView) -> SolutionView {
    SolutionView { labels: s.labels, fitness: s.fitness, modified: true }
}

/// The labels after repair: every 0 without a neighbour labelled 2 becomes 1.
pub open spec fn repaired(adj: Adjacency, f: Seq<u8>) -> Seq<u8> {
    Seq::new(
        f.len(),
        |w: int|
            if f[w] == 0 && !dominated_at(adj, f, w) {
                1u8
            } else {
                f[w]
            },
    )
}

/// What evaluation makes of a solution: unless its cache is fresh, the labels
/// are repaired if infeasible and the fitness is set to their weight.
pub open spec fn evaluated(adj: Adjacency, s: SolutionView) -> SolutionView {
    if needs_evaluation(s) {
        let labels = if dominated(adj, s.labels) {
            s.labels
        } else {
            repaired(adj, s.labels)
        };
        SolutionView { labels, fitness: Some(weight(labels) as usize), modified: false }
    } else {
        s
    }
}

/// Parent `a`'s labels with the positions `r1..r2` taken from parent `b`.
pub open spec fn spliced(a: Seq<u8>, b: Seq<u8>, r1: int, r2: int) -> Seq<u8> {
    a.subrange(0, r1) + b.subrange(r1, r2) + a.subrange(r2, a.len() as int)
}

/// A fresh child with the given labels: no fitness yet.
pub open spec fn child_of(labels: Seq<u8>) -> SolutionView {
    SolutionView { labels, fitness: None, modified: true }
}

/// Position `k` holds the smallest value, and no earlier position holds it.
pub open spec fn is_first_min(values: Seq<usize>, k: int) -> bool {
    &&& 0 <= k < values.len()
    &&& forall|i: int| 0 <= i < values.len() ==> values[k] <= #[trigger] values[i]
    &&& forall|i: int| 0 <= i < k ==> values[k] < #[trigger] values[i]
}

/// Repair leaves labels in range and makes them dominated.
pub proof fn lemma_repaired_roman(adj: Adjacency, f: Seq<u8>)
    requires
        adjacency_wf(adj),
        f.len() == adj.len(),
        labels_in_range(f),
    ensures
        is_roman(adj, repaired(adj, f)),
{
    let g = repaired(adj, f);
    assert forall|w: int| 0 <= w < g.len() && g[w] == 0 implies #[trigger] dominated_at(
        adj,
        g,
        w,
    ) by {
        assert(dominated_at(adj, f, w));
        let j = choose|j: int| 0 <= j < adj[w].len() && f[adj[w][j] as int] == 2;
        assert(all_below(adj[w], adj.len()));
        assert(g[adj[w][j] as int] == 2);
    }
}

/// After evaluation a solution that fits the graph has as fitness the weight
/// of its labels, and its labels are a Roman dominating function.
pub proof fn lemma_evaluation_settles(adj: Adjacency, s: SolutionView)
    requires
        adjacency_wf(adj),
        fits(adj, s),
    ensures
        settled(adj, evaluated(adj, s)),
        fits(adj, evaluated(adj, s)),
        !needs_evaluation(evaluated(adj, s)),
{
    if needs_evaluation(s) && !dominated(adj, s.labels) {
        lemma_repaired_roman(adj, s.labels);
    }
}

/// Evaluating twice is evaluating once: the second evaluation finds a fresh
/// cache and changes nothing.
pub proof fn lemma_evaluation_idempotent(adj: Adjacency, s: SolutionView)
    requires
        adjacency_wf(adj),
        fits(adj, s),
    ensures
        !needs_evaluation(evaluated(adj, s)),
        evaluated(adj, evaluated(adj, s)) == evaluated(adj, s),
{
    lemma_evaluation_settles(adj, s);
}

/// A child agrees with its first parent outside `r1..r2` and with its second
/// parent inside.
pub proof fn lemma_spliced_positions(a: Seq<u8>, b: Seq<u8>, r1: int, r2: int)
    requires
        0 <= r1 <= r2 <= a.len(),
        a.len() == b.len(),
    ensures
        spliced(a, b, r1, r2).len() == a.len(),
        forall|i: int|
            0 <= i < a.len() && (i < r1 || r2 <= i) ==> #[trigger] spliced(a, b, r1, r2)[i]
                == a[i],
        forall|i: int| r1 <= i < r2 ==> #[trigger] spliced(a, b, r1, r2)[i] == b[i],
{
}

/// A solution without fitness orders before one with a fitness.
pub proof fn lemma_unevaluated_orders_first(s1: Solution, s2: Solution)
    requires
        s1@.fitness is None,
        s2@.fitness is Some,
    ensures
        s1.partial_cmp_spec(&s2) == Some(Ordering::Less),
        !s1.eq_spec(&s2),
{
}

impl Solution {
    /// A solution with the given labels and fitness, its cache marked stale.
    pub fn new(labels: Vec<u8>, fitness: Option<usize>) -> (r: Solution)
        ensures
            r@ == (SolutionView { labels: labels@, fitness, modified: true }),
    {
        Solution { labels, fitness, modified: true }
    }

    /// The labels, one per vertex.
    pub fn labels(&self) -> (r: &Vec<u8>)
        ensures
            r@ == self@.labels,
    {
        &self.labels
    }
}

impl Clone for Solution {
    /// A copy whose cache is marked stale, so that it is checked again.
    fn clone(&self) -> (r: Solution)
        ensures
            r@ == marked(self@),
    {
        let mut labels: Vec<u8> = Vec::new();
        let mut i: usize = 0;
        while i < self.labels.len()
            invariant
                i <= self.labels@.len(),
                labels@ == self.labels@.take(i as int),
            decreases self.labels@.len() - i,
        {
            labels.push(self.labels[i]);
            i = i + 1;
        }
        assert(labels@ =~= self.labels@);
        Solution { labels, fitness: self.fitness, modified: true }
    }
}

impl PartialEq for Solution {
    fn eq(&self, other: &Solution) -> (r: bool) {
        match (self.fitness, other.fitness) {
            (Some(a), Some(b)) => a == b,
            (None, None) => true,
            _ => false,
        }
    }
}

impl vstd::std_specs::cmp::PartialEqSpecImpl for Solution {
    open spec fn obeys_eq_spec() -> bool {
        true
    }

    /// Solutions are equal when their fitness is.
    open spec fn eq_spec(&self, other: &Solution) -> bool {
        self@.fitness == other@.fitness
    }
}

impl Eq for Solution {

}

impl PartialOrd for Solution {
    fn partial_cmp(&self, other: &Solution) -> (r: Option<Ordering>) {
        match (self.fitness, other.fitness) {
            (Some(a), Some(b)) => {
                if a < b {
                    Some(Ordering::Less)
                } else if a > b {
                    Some(Ordering::Greater)
                } else {
                    Some(Ordering::Equal)
                }
            },
            (None, Some(_)) => Some(Ordering::Less),
            (Some(_), None) => Some(Ordering::Greater),
            (None, None) => Some(Ordering::Equal),
        }
    }
}

impl vstd::std_specs::cmp::PartialOrdSpecImpl for Solution {
    open spec fn obeys_partial_cmp_spec() -> bool {
        true
    }

    /// Solutions order by fitness, ascending; one without fitness orders
    /// before any with a fitness.
    open spec fn partial_cmp_spec(&self, other: &Solution) -> Option<Ordering> {
        match (self@.fitness, other@.fitness) {
            (Some(a), Some(b)) => if a < b {
                Some(Ordering::Less)
            } else if a > b {
                Some(Ordering::Greater)
            } else {
                Some(Ordering::Equal)
            },
            (None, Some(_)) => Some(Ordering::Less),
            (Some(_), None) => Some(Ordering::Greater),
            (None, None) => Some(Ordering::Equal),
        }
    }
}

/// The sum of the labels.
fn label_sum(labels: &Vec<u8>) -> (r: usize)
    requires
        labels@.len() <= MAX_VERTICES,
        labels_in_range(labels@),
    ensures
        r == weight(labels@),
{
    let mut sum: usize = 0;
    let mut i: usize = 0;
    while i < labels.len()
        invariant
            i <= labels@.len(),
            labels@.len() <= MAX_VERTICES,
            labels_in_range(labels@),
            sum == weight(labels@.take(i as int)),
            sum <= 2 * i,
        decreases labels@.len() - i,
    {
        assert(labels@.take(i + 1).drop_last() =~= labels@.take(i as int));
        assert(labels@[i as int] <= 2);
        sum = sum + labels[i] as usize;
        i = i + 1;
    }
    assert(labels@.take(i as int) =~= labels@);
    sum
}

/// Parent `parent_a`'s labels with the positions `r1..r2` taken from parent
/// `parent_b`, as a fresh child without fitness.
pub fn crossover_at(parent_a: &Solution, parent_b: &Solution, r1: usize, r2: usize) -> (r:
    Solution)
    requires
        r1 <= r2 <= parent_a@.labels.len(),
        parent_b@.labels.len() == parent_a@.labels.len(),
    ensures
        r@ == child_of(spliced(parent_a@.labels, parent_b@.labels, r1 as int, r2 as int)),
{
    let n = parent_a.labels.len();
    let mut labels: Vec<u8> = Vec::new();
    let mut i: usize = 0;
    while i < n
        invariant
            n == parent_a@.labels.len(),
            n == parent_b@.labels.len(),
            r1 <= r2 <= n,
            i <= n,
            labels@ == spliced(parent_a@.labels, parent_b@.labels, r1 as int, r2 as int).take(
                i as int,
            ),
        decreases n - i,
    {
        proof {
            lemma_spliced_positions(parent_a@.labels, parent_b@.labels, r1 as int, r2 as int);
        }
        if r1 <= i && i < r2 {
            labels.push(parent_b.labels[i]);
        } else {
            labels.push(parent_a.labels[i]);
        }
        assert(labels@ =~= spliced(parent_a@.labels, parent_b@.labels, r1 as int, r2 as int).take(
            i + 1,
        ));
        i = i + 1;
    }
    proof {
        lemma_spliced_positions(parent_a@.labels, parent_b@.labels, r1 as int, r2 as int);
    }
    assert(labels@ =~= spliced(parent_a@.labels, parent_b@.labels, r1 as int, r2 as int));
    Solution::new(labels, None)
}

/// A seed made from heuristic labels: the weight as fitness, none for an
/// empty graph, the cache marked stale.
pub open spec fn seed_of(labels: Seq<u8>) -> SolutionView {
    SolutionView {
        labels,
        fitness: if labels.len() == 0 {
            None
        } else {
            Some(weight(labels) as usize)
        },
        modified: true,
    }
}

/// The fitness of each solution of a population, absent ones as 0.
pub open spec fn fitness_values(population: Seq<Solution>) -> Seq<usize> {
    Seq::new(population.len(), |i: int| fitness_value(population[i]@))
}

/// The fitness each solution of a population has once evaluated.
pub open spec fn evaluated_fitness_values(adj: Adjacency, population: Seq<Solution>) -> Seq<usize> {
    Seq::new(population.len(), |i: int| fitness_value(evaluated(adj, population[i]@)))
}

/// The fitness of the competitors of a tournament, in the order drawn.
pub open spec fn competitor_fitness(population: Seq<Solution>, competitors: Seq<usize>) -> Seq<
    usize,
> {
    Seq::new(competitors.len(), |i: int| fitness_value(population[competitors[i] as int]@))
}

/// `s` is a copy of the winner of a tournament among `amount` distinct
/// members of `population`: the first of least fitness in the order drawn.
pub open spec fn won_tournament(population: Seq<Solution>, amount: nat, s: SolutionView) -> bool {
    exists|competitors: Seq<usize>, k: int|
        {
            &&& competitors.len() == amount
            &&& competitors.no_duplicates()
            &&& forall|i: int|
                0 <= i < competitors.len() ==> #[trigger] competitors[i] < population.len()
            &&& #[trigger] is_first_min(competitor_fitness(population, competitors), k)
            &&& s == marked(population[competitors[k] as int]@)
        }
}

/// The least weight among the first `count` deterministic seeds, in the
/// order H4, H3, H2.
pub open spec fn least_seed_weight(adj: Adjacency, count: nat) -> nat {
    let w4 = weight(h4_labels(adj));
    let w3 = weight(h3_labels(adj));
    let w2 = weight(h2_labels(adj));
    if count <= 1 {
        w4
    } else if count == 2 {
        vstd::math::min(w4 as int, w3 as int) as nat
    } else {
        vstd::math::min(w4 as int, vstd::math::min(w3 as int, w2 as int)) as nat
    }
}

/// A run cannot proceed: no vertices, an empty population, or tournaments of
/// no competitor.
pub open spec fn configuration_error(n: nat, population_size: nat, tournament_size: nat) -> bool {
    n == 0 || population_size == 0 || tournament_size == 0
}

/// The result of a run that could not proceed: no labels and no fitness.
pub open spec fn no_solution() -> SolutionView {
    SolutionView { labels: Seq::empty(), fitness: None, modified: true }
}

/// Changing only labels other than 2 keeps whether a vertex has a neighbour
/// labelled 2.
proof fn lemma_same_twos(adj: Adjacency, f: Seq<u8>, g: Seq<u8>, w: int)
    requires
        f.len() == g.len(),
        forall|x: int| 0 <= x < f.len() ==> (#[trigger] f[x] == 2) == (g[x] == 2),
        all_below(adj[w], f.len()),
    ensures
        dominated_at(adj, f, w) == dominated_at(adj, g, w),
{
    if dominated_at(adj, f, w) {
        let j = choose|j: int| 0 <= j < adj[w].len() && f[adj[w][j] as int] == 2;
        assert(g[adj[w][j] as int] == 2);
    }
    if dominated_at(adj, g, w) {
        let j = choose|j: int| 0 <= j < adj[w].len() && g[adj[w][j] as int] == 2;
        assert(f[adj[w][j] as int] == 2);
    }
}

/// The labels of a Roman dominating function fit a graph's vertex bound.
proof fn lemma_weight_in_range(adj: Adjacency, f: Seq<u8>)
    requires
        adjacency_wf(adj),
        is_roman(adj, f),
    ensures
        f.len() <= MAX_VERTICES,
        labels_in_range(f),
{
}

/// The position of the first solution of least fitness.
fn best_position(population: &Vec<Solution>) -> (k: usize)
    requires
        population@.len() > 0,
    ensures
        is_first_min(fitness_values(population@), k as int),
{
    let ghost values = fitness_values(population@);
    let mut k: usize = 0;
    let mut best = fitness_of(&population[0]);
    let mut i: usize = 1;
    while i < population.len()
        invariant
            values == fitness_values(population@),
            1 <= i <= population@.len(),
            k < i,
            best == values[k as int],
            forall|j: int| 0 <= j < i ==> best <= #[trigger] values[j],
            forall|j: int| 0 <= j < k ==> best < #[trigger] values[j],
        decreases population@.len() - i,
    {
        let f = fitness_of(&population[i]);
        if f < best {
            best = f;
            k = i;
        }
        i = i + 1;
    }
    k
}

/// The fitness as a number; an absent fitness counts as 0.
fn fitness_of(s: &Solution) -> (r: usize)
    ensures
        r == fitness_value(s@),
{
    match s.fitness {
        Some(x) => x,
        None => 0,
    }
}

/// The position, among the competitors in the order drawn, of the first of
/// least fitness: the winner of the tournament.
pub fn tournament_winner(population: &Vec<Solution>, competitors: &Vec<usize>) -> (k: usize)
    requires
        competitors@.len() > 0,
        forall|i: int| 0 <= i < competitors@.len() ==> #[trigger] competitors@[i] < population@.len(),
    ensures
        is_first_min(competitor_fitness(population@, competitors@), k as int),
{
    let ghost values = competitor_fitness(population@, competitors@);
    let mut k: usize = 0;
    let mut best = fitness_of(&population[competitors[0]]);
    let mut i: usize = 1;
    while i < competitors.len()
        invariant
            values == competitor_fitness(population@, competitors@),
            forall|i: int|
                0 <= i < competitors@.len() ==> #[trigger] competitors@[i] < population@.len(),
            1 <= i <= competitors@.len(),
            k < i,
            best == values[k as int],
            forall|j: int| 0 <= j < i ==> best <= #[trigger] values[j],
            forall|j: int| 0 <= j < k ==> best < #[trigger] values[j],
        decreases competitors@.len() - i,
    {
        let f = fitness_of(&population[competitors[i]]);
        if f < best {
            best = f;
            k = i;
        }
        i = i + 1;
    }
    k
}

/// The engine: a graph, the population size, and a source of randomness.
pub struct RomanDominationGA {
    graph: Graph,
    population_size: usize,
    rng: RandomSource,
}

impl RomanDominationGA {
    /// The graph, as adjacency lists.
    pub closed spec fn graph_view(&self) -> Adjacency {
        self.graph@
    }

    /// The number of solutions in each generation.
    pub closed spec fn size(&self) -> nat {
        self.population_size as nat
    }

    /// The engine's graph is well formed.
    pub open spec fn wf(&self) -> bool {
        adjacency_wf(self.graph_view())
    }

    /// The engine's graph and population size are those of `other`.
    pub open spec fn same_setup(&self, other: &RomanDominationGA) -> bool {
        self.graph_view() == other.graph_view() && self.size() == other.size()
    }

    /// An engine for `graph`; the population size defaults to half the number
    /// of vertices. Randomness is seeded by the operating system.
    pub fn new(graph: Graph, population_size: Option<usize>) -> (r: RomanDominationGA)
        requires
            graph.wf(),
        ensures
            r.wf(),
            r.graph_view() == graph@,
            r.size() == match population_size {
                Some(p) => p as nat,
                None => graph@.len() / 2,
            },
    {
        let n = graph.get_num_vertices();
        let population_size = match population_size {
            Some(p) => p,
            None => n / 2,
        };
        RomanDominationGA { graph, population_size, rng: RandomSource::from_entropy() }
    }

    /// As `new`, with randomness fixed by `seed`, so that runs can be repeated.
    pub fn with_seed(graph: Graph, population_size: Option<usize>, seed: u64) -> (r:
        RomanDominationGA)
        requires
            graph.wf(),
        ensures
            r.wf(),
            r.graph_view() == graph@,
            r.size() == match population_size {
                Some(p) => p as nat,
                None => graph@.len() / 2,
            },
    {
        let n = graph.get_num_vertices();
        let population_size = match population_size {
            Some(p) => p,
            None => n / 2,
        };
        RomanDominationGA { graph, population_size, rng: RandomSource::from_seed(seed) }
    }

    /// The graph.
    pub fn graph(&self) -> (r: &Graph)
        ensures
            r@ == self.graph_view(),
    {
        &self.graph
    }

    /// The number of solutions in each generation.
    pub fn population_size(&self) -> (r: usize)
        ensures
            r == self.size(),
    {
        self.population_size
    }

    /// Some neighbour of `v` is labelled 2.
    fn has_dominator(&self, labels: &Vec<u8>, v: usize) -> (r: bool)
        requires
            self.wf(),
            labels@.len() == self.graph_view().len(),
            v < labels@.len(),
        ensures
            r == dominated_at(self.graph_view(), labels@, v as int),
    {
        let nbrs = self.graph.get_neighbors(v);
        assert(all_below(self.graph_view()[v as int], labels@.len()));
        let mut j: usize = 0;
        while j < nbrs.len()
            invariant
                nbrs@ == self.graph_view()[v as int],
                all_below(nbrs@, labels@.len()),
                j <= nbrs@.len(),
                forall|k: int| 0 <= k < j ==> labels@[#[trigger] nbrs@[k] as int] != 2,
            decreases nbrs@.len() - j,
        {
            if labels[nbrs[j]] == 2 {
                return true;
            }
            j = j + 1;
        }
        false
    }

    /// Whether every vertex labelled 0 has a neighbour labelled 2.
    pub fn is_feasible(&self, solution: &Solution) -> (r: bool)
        requires
            self.wf(),
            solution@.labels.len() == self.graph_view().len(),
        ensures
            r == dominated(self.graph_view(), solution@.labels),
    {
        let n = self.graph.get_num_vertices();
        let mut v: usize = 0;
        while v < n
            invariant
                self.wf(),
                n == self.graph_view().len(),
                solution@.labels.len() == n,
                v <= n,
                forall|w: int|
                    0 <= w < v && solution@.labels[w] == 0 ==> #[trigger] dominated_at(
                        self.graph_view(),
                        solution@.labels,
                        w,
                    ),
            decreases n - v,
        {
            if solution.labels[v] == 0 && !self.has_dominator(&solution.labels, v) {
                return false;
            }
            v = v + 1;
        }
        true
    }

    /// Raises to 1 every 0 without a neighbour labelled 2. When a label
    /// changes, the cached fitness is cleared and marked stale.
    pub fn make_feasible(&self, solution: &mut Solution)
        requires
            self.wf(),
            old(solution)@.labels.len() == self.graph_view().len(),
        ensures
            final(solution)@ == if repaired(self.graph_view(), old(solution)@.labels) == old(
                solution,
            )@.labels {
                old(solution)@
            } else {
                SolutionView {
                    labels: repaired(self.graph_view(), old(solution)@.labels),
                    fitness: None,
                    modified: true,
                }
            },
    {
        let ghost adj = self.graph_view();
        let ghost orig = solution@.labels;
        let n = self.graph.get_num_vertices();
        let mut was_modified = false;
        let mut v: usize = 0;
        while v < n
            invariant
                self.wf(),
                adj == self.graph_view(),
                n == adj.len(),
                orig.len() == n,
                v <= n,
                solution@.labels.len() == n,
                solution@.fitness == old(solution)@.fitness,
                solution@.modified == old(solution)@.modified,
                forall|w: int|
                    0 <= w < n ==> #[trigger] solution@.labels[w] == if w < v {
                        repaired(adj, orig)[w]
                    } else {
                        orig[w]
                    },
                was_modified <==> exists|w: int|
                    0 <= w < v && orig[w] == 0 && !#[trigger] dominated_at(adj, orig, w),
            decreases n - v,
        {
            proof {
                assert forall|x: int| 0 <= x < n implies (#[trigger] solution@.labels[x] == 2) == (
                orig[x] == 2) by {}
                assert(all_below(adj[v as int], n as nat));
                lemma_same_twos(adj, solution@.labels, orig, v as int);
            }
            if solution.labels[v] == 0 && !self.has_dominator(&solution.labels, v) {
                solution.labels.set(v, 1);
                was_modified = true;
            }
            v = v + 1;
        }
        proof {
            assert(solution@.labels =~= repaired(adj, orig));
            if !was_modified {
                assert(repaired(adj, orig) =~= orig);
            } else {
                let w = choose|w: int| 0 <= w < v && orig[w] == 0 && !dominated_at(adj, orig, w);
                assert(repaired(adj, orig)[w] != orig[w]);
            }
        }
        if was_modified {
            solution.modified = true;
            solution.fitness = None;
        }
    }

    /// Evaluates `solution`: unless its cache is fresh, repairs its labels if
    /// they are infeasible and caches their weight. Returns the fitness.
    pub fn evaluate_fitness(&self, solution: &mut Solution) -> (r: usize)
        requires
            self.wf(),
            old(solution)@.labels.len() == self.graph_view().len(),
            labels_in_range(old(solution)@.labels),
        ensures
            final(solution)@ == evaluated(self.graph_view(), old(solution)@),
            r == fitness_value(final(solution)@),
    {
        if solution.modified || solution.fitness.is_none() {
            if !self.is_feasible(solution) {
                self.make_feasible(solution);
                proof {
                    lemma_repaired_roman(self.graph_view(), old(solution)@.labels);
                }
            }
            let sum = label_sum(&solution.labels);
            solution.fitness = Some(sum);
            solution.modified = false;
        }
        fitness_of(solution)
    }

    /// Evaluates every solution of `population`.
    fn evaluate_all(&self, population: &mut Vec<Solution>)
        requires
            self.wf(),
            forall|i: int|
                0 <= i < old(population)@.len() ==> fits(
                    self.graph_view(),
                    #[trigger] old(population)@[i]@,
                ),
        ensures
            final(population)@.len() == old(population)@.len(),
            forall|i: int|
                0 <= i < old(population)@.len() ==> #[trigger] final(population)@[i]@ == evaluated(
                    self.graph_view(),
                    old(population)@[i]@,
                ),
    {
        let ghost start = population@;
        let mut i: usize = 0;
        while i < population.len()
            invariant
                self.wf(),
                i <= population@.len(),
                population@.len() == start.len(),
                forall|k: int| 0 <= k < start.len() ==> fits(self.graph_view(), #[trigger] start[k]@),
                forall|k: int| i <= k < start.len() ==> #[trigger] population@[k] == start[k],
                forall|k: int|
                    0 <= k < i ==> #[trigger] population@[k]@ == evaluated(
                        self.graph_view(),
                        start[k]@,
                    ),
            decreases start.len() - i,
        {
            self.evaluate_fitness(&mut population[i]);
            i = i + 1;
        }
    }

    fn generate_h1_solution(&mut self) -> (r: Solution)
        requires
            old(self).wf(),
        ensures
            final(self).same_setup(old(self)),
            is_roman(final(self).graph_view(), r@.labels),
            r@ == seed_of(r@.labels),
    {
        let labels = self.graph.h1(&mut self.rng);
        proof {
            lemma_weight_in_range(self.graph_view(), labels@);
        }
        let fitness = if labels.len() == 0 {
            None
        } else {
            Some(label_sum(&labels))
        };
        Solution::new(labels, fitness)
    }

    fn generate_h2_solution(&self) -> (r: Solution)
        requires
            self.wf(),
        ensures
            r@ == seed_of(h2_labels(self.graph_view())),
            is_roman(self.graph_view(), r@.labels),
    {
        let labels = self.graph.h2();
        let fitness = if labels.len() == 0 {
            None
        } else {
            Some(label_sum(&labels))
        };
        Solution::new(labels, fitness)
    }

    fn generate_h3_solution(&self) -> (r: Solution)
        requires
            self.wf(),
        ensures
            r@ == seed_of(h3_labels(self.graph_view())),
            is_roman(self.graph_view(), r@.labels),
    {
        let labels = self.graph.h3();
        let fitness = if labels.len() == 0 {
            None
        } else {
            Some(label_sum(&labels))
        };
        Solution::new(labels, fitness)
    }

    fn generate_h4_solution(&self) -> (r: Solution)
        requires
            self.wf(),
        ensures
            r@ == seed_of(h4_labels(self.graph_view())),
            is_roman(self.graph_view(), r@.labels),
    {
        let labels = self.graph.h4();
        let fitness = if labels.len() == 0 {
            None
        } else {
            Some(label_sum(&labels))
        };
        Solution::new(labels, fitness)
    }

    /// The initial population, of the engine's population size: the H4, H3
    /// and H2 seeds first, as many as fit, then H1 samples.
    pub fn generate_initial_population(&mut self) -> (r: Vec<Solution>)
        requires
            old(self).wf(),
        ensures
            final(self).same_setup(old(self)),
            r@.len() == final(self).size(),
            forall|i: int|
                0 <= i < r@.len() ==> fits(final(self).graph_view(), #[trigger] r@[i]@)
                    && is_roman(final(self).graph_view(), r@[i]@.labels),
            r@.len() > 0 ==> r@[0]@ == seed_of(h4_labels(final(self).graph_view())),
            r@.len() > 1 ==> r@[1]@ == seed_of(h3_labels(final(self).graph_view())),
            r@.len() > 2 ==> r@[2]@ == seed_of(h2_labels(final(self).graph_view())),
    {
        let ghost adj = self.graph_view();
        let mut population: Vec<Solution> = Vec::new();
        if population.len() < self.population_size {
            population.push(self.generate_h4_solution());
        }
        if population.len() < self.population_size {
            population.push(self.generate_h3_solution());
        }
        if population.len() < self.population_size {
            population.push(self.generate_h2_solution());
        }
        while population.len() < self.population_size
            invariant
                self.wf(),
                self.graph_view() == adj,
                self.size() == old(self).size(),
                population@.len() <= self.size(),
                population@.len() >= vstd::math::min(3, self.size() as int),
                forall|i: int|
                    0 <= i < population@.len() ==> fits(adj, #[trigger] population@[i]@)
                        && is_roman(adj, population@[i]@.labels),
                population@.len() > 0 ==> population@[0]@ == seed_of(h4_labels(adj)),
                population@.len() > 1 ==> population@[1]@ == seed_of(h3_labels(adj)),
                population@.len() > 2 ==> population@[2]@ == seed_of(h2_labels(adj)),
            decreases self.size() - population@.len(),
        {
            let seed = self.generate_h1_solution();
            population.push(seed);
        }
        population
    }

    /// Tournament selection: evaluates the population, then fills a new one of
    /// the same size, each place won by the first of least fitness among
    /// `tournament_size` distinct competitors drawn at random (all of them when
    /// the population is smaller). Each winner is copied, its cache marked
    /// stale.
    fn tournament_selection(&mut self, tournament_size: usize, population: &mut Vec<Solution>) -> (r:
        Vec<Solution>)
        requires
            old(self).wf(),
            tournament_size > 0,
            forall|i: int|
                0 <= i < old(population)@.len() ==> fits(
                    old(self).graph_view(),
                    #[trigger] old(population)@[i]@,
                ),
        ensures
            final(self).same_setup(old(self)),
            final(population)@.len() == old(population)@.len(),
            forall|i: int|
                0 <= i < old(population)@.len() ==> #[trigger] final(population)@[i]@ == evaluated(
                    old(self).graph_view(),
                    old(population)@[i]@,
                ),
            r@.len() == old(population)@.len(),
            forall|i: int|
                0 <= i < r@.len() ==> won_tournament(
                    final(population)@,
                    vstd::math::min(tournament_size as int, old(population)@.len() as int) as nat,
                    #[trigger] r@[i]@,
                ),
    {
        self.evaluate_all(population);
        let len = population.len();
        let amount = if tournament_size < len {
            tournament_size
        } else {
            len
        };
        let mut selected: Vec<Solution> = Vec::new();
        while selected.len() < len
            invariant
                self.same_setup(old(self)),
                population@.len() == len,
                amount > 0 || len == 0,
                amount <= len,
                amount == vstd::math::min(tournament_size as int, len as int),
                selected@.len() <= len,
                forall|i: int|
                    0 <= i < selected@.len() ==> won_tournament(
                        population@,
                        amount as nat,
                        #[trigger] selected@[i]@,
                    ),
            decreases len - selected@.len(),
        {
            let competitors = self.rng.distinct_below(len, amount);
            let k = tournament_winner(population, &competitors);
            let winner = population[competitors[k]].clone();
            proof {
                assert(winner@ == marked(population@[competitors@[k as int] as int]@));
            }
            proof {
                assert(is_first_min(competitor_fitness(population@, competitors@), k as int));
                assert(won_tournament(population@, amount as nat, winner@));
            }
            selected.push(winner);
        }
        selected
    }

    /// Single-segment crossover: draws two distinct vertices `r1 < r2` and
    /// returns parent A's labels with the positions `r1..r2` taken from parent
    /// B, as a fresh child. With fewer than two vertices there is no crossover.
    pub fn crossover(&mut self, parent_a: &Solution, parent_b: &Solution) -> (r: Option<Solution>)
        requires
            old(self).wf(),
            parent_a@.labels.len() == old(self).graph_view().len(),
            parent_b@.labels.len() == old(self).graph_view().len(),
        ensures
            final(self).same_setup(old(self)),
            r is None <==> old(self).graph_view().len() < 2,
            r matches Some(child) ==> exists|r1: int, r2: int|
                0 <= r1 < r2 < parent_a@.labels.len() && child@ == child_of(
                    #[trigger] spliced(parent_a@.labels, parent_b@.labels, r1, r2),
                ),
    {
        let n = self.graph.get_num_vertices();
        if n < 2 {
            return None;
        }
        let points = self.rng.distinct_below(n, 2);
        let (r1, r2) = if points[0] < points[1] {
            (points[0], points[1])
        } else {
            (points[1], points[0])
        };
        assert(points@[0] != points@[1]);
        let child = crossover_at(parent_a, parent_b, r1, r2);
        assert(child@ == child_of(spliced(parent_a@.labels, parent_b@.labels, r1 as int, r2 as int)));
        Some(child)
    }


    /// One generation's offspring: the selected solutions are paired in order;
    /// each pair passes on as copies, and with chance `crossover_per_million`
    /// in a million also yields a child while there is room. The result has
    /// exactly the population size, and every solution in it is evaluated.
    fn next_generation(&mut self, intermediate: &Vec<Solution>, crossover_per_million: u32) -> (r:
        Vec<Solution>)
        requires
            old(self).wf(),
            intermediate@.len() == old(self).size(),
            old(self).size() > 0,
            forall|i: int|
                0 <= i < intermediate@.len() ==> fits(
                    old(self).graph_view(),
                    #[trigger] intermediate@[i]@,
                ),
        ensures
            final(self).same_setup(old(self)),
            r@.len() == old(self).size(),
            forall|i: int|
                0 <= i < r@.len() ==> settled(final(self).graph_view(), #[trigger] r@[i]@) && fits(
                    final(self).graph_view(),
                    r@[i]@,
                ),
    {
        let ghost adj = self.graph_view();
        let p = self.population_size;
        let mut next: Vec<Solution> = Vec::new();
        let mut i: usize = 0;
        let mut full = false;
        while !full
            invariant
                self.wf(),
                self.same_setup(old(self)),
                adj == self.graph_view(),
                p == self.size(),
                intermediate@.len() == p,
                p > 0,
                forall|k: int| 0 <= k < p ==> fits(adj, #[trigger] intermediate@[k]@),
                forall|k: int| 0 <= k < next@.len() ==> fits(adj, #[trigger] next@[k]@),
                !full ==> i <= next@.len() && next@.len() < p && i < p,
                full ==> next@.len() == p,
            decreases (p - i) as int + if full {
                0int
            } else {
                1int
            },
        {
            next.push(intermediate[i].clone());
            if i + 1 < p {
                next.push(intermediate[i + 1].clone());
                if self.rng.chance_per_million(crossover_per_million) {
                    match self.crossover(&intermediate[i], &intermediate[i + 1]) {
                        Some(mut child) => {
                            proof {
                                let (r1, r2) = choose|r1: int, r2: int|
                                    0 <= r1 < r2 < intermediate@[i as int]@.labels.len()
                                        && child@ == child_of(
                                        #[trigger] spliced(
                                            intermediate@[i as int]@.labels,
                                            intermediate@[i + 1]@.labels,
                                            r1,
                                            r2,
                                        ),
                                    );
                                lemma_spliced_positions(
                                    intermediate@[i as int]@.labels,
                                    intermediate@[i + 1]@.labels,
                                    r1,
                                    r2,
                                );
                                assert(labels_in_range(child@.labels)) by {
                                    assert forall|w: int| 0 <= w < child@.labels.len() implies #[trigger] child@.labels[w] <= 2 by {
                                        assert(intermediate@[i as int]@.labels[w] <= 2);
                                        assert(intermediate@[i + 1]@.labels[w] <= 2);
                                    }
                                }
                            }
                            let ghost fresh = child@;
                            self.evaluate_fitness(&mut child);
                            proof {
                                lemma_evaluation_settles(adj, fresh);
                            }
                            if next.len() < p {
                                next.push(child);
                            }
                        },
                        None => {},
                    }
                }
            }
            if next.len() >= p {
                next.truncate(p);
                full = true;
            } else {
                i = i + 2;
            }
        }
        let ghost before = next@;
        self.evaluate_all(&mut next);
        proof {
            assert forall|k: int| 0 <= k < next@.len() implies settled(adj, #[trigger] next@[k]@)
                && fits(adj, next@[k]@) by {
                lemma_evaluation_settles(adj, before[k]@);
            }
        }
        next
    }

    /// Evolves `population` and returns the best solution found. The
    /// population is evaluated first and its best (the first of least fitness)
    /// copied; then, while fewer than `max_generations` generations have run and
    /// fewer than `max_stagnant` in a row brought no strictly better solution,
    /// a generation is selected, recombined and evaluated, and its best replaces
    /// the best found when strictly better.
    pub fn evolve(
        &mut self,
        population: Vec<Solution>,
        max_generations: usize,
        max_stagnant: usize,
        tournament_size: usize,
        crossover_per_million: u32,
    ) -> (r: Solution)
        requires
            old(self).wf(),
            population@.len() == old(self).size(),
            old(self).size() > 0,
            tournament_size > 0,
            forall|i: int|
                0 <= i < population@.len() ==> fits(old(self).graph_view(), #[trigger] population@[i]@),
        ensures
            final(self).same_setup(old(self)),
            settled(old(self).graph_view(), r@),
            forall|i: int|
                0 <= i < population@.len() ==> fitness_value(r@) <= #[trigger] evaluated_fitness_values(
                    old(self).graph_view(),
                    population@,
                )[i],
            max_generations == 0 || max_stagnant == 0 ==> exists|k: int|
                is_first_min(evaluated_fitness_values(old(self).graph_view(), population@), k)
                    && r@ == marked(evaluated(old(self).graph_view(), #[trigger] population@[k]@)),
    {
        let ghost adj = self.graph_view();
        let ghost initial = evaluated_fitness_values(adj, population@);
        let ghost start = population@;
        let mut population = population;
        self.evaluate_all(&mut population);
        proof {
            assert(fitness_values(population@) =~= initial);
        }
        let k0 = best_position(&population);
        let mut best = population[k0].clone();
        proof {
            lemma_evaluation_settles(adj, start[k0 as int]@);
            assert forall|i: int| 0 <= i < population@.len() implies settled(
                adj,
                #[trigger] population@[i]@,
            ) && fits(adj, population@[i]@) by {
                lemma_evaluation_settles(adj, start[i]@);
            }
        }
        let mut stagnant: usize = 0;
        let mut generation: usize = 0;
        while generation < max_generations && stagnant < max_stagnant
            invariant
                self.wf(),
                self.same_setup(old(self)),
                adj == self.graph_view(),
                population@.len() == self.size(),
                self.size() > 0,
                tournament_size > 0,
                initial.len() == self.size(),
                forall|i: int|
                    0 <= i < population@.len() ==> settled(adj, #[trigger] population@[i]@) && fits(
                        adj,
                        population@[i]@,
                    ),
                settled(adj, best@),
                forall|i: int| 0 <= i < initial.len() ==> fitness_value(best@) <= #[trigger] initial[i],
                generation <= max_generations,
                generation > 0 ==> max_generations > 0 && max_stagnant > 0,
                generation == 0 ==> best@ == marked(evaluated(adj, start[k0 as int]@)),
                is_first_min(initial, k0 as int),
            decreases max_generations - generation,
        {
            let ghost current_population = population@;
            let intermediate = self.tournament_selection(tournament_size, &mut population);
            proof {
                assert forall|i: int| 0 <= i < intermediate@.len() implies fits(
                    adj,
                    #[trigger] intermediate@[i]@,
                ) by {
                    let amount = vstd::math::min(
                        tournament_size as int,
                        current_population.len() as int,
                    ) as nat;
                    assert(won_tournament(population@, amount, intermediate@[i]@));
                    let (competitors, k) = choose|competitors: Seq<usize>, k: int|
                        {
                            &&& competitors.len() == amount
                            &&& competitors.no_duplicates()
                            &&& forall|i: int|
                                0 <= i < competitors.len() ==> #[trigger] competitors[i]
                                    < population@.len()
                            &&& #[trigger] is_first_min(
                                competitor_fitness(population@, competitors),
                                k,
                            )
                            &&& intermediate@[i]@ == marked(population@[competitors[k] as int]@)
                        };
                    let j = competitors[k] as int;
                    lemma_evaluation_settles(adj, current_population[j]@);
                }
            }
            population = self.next_generation(&intermediate, crossover_per_million);
            let k = best_position(&population);
            let current = population[k].clone();
            if fitness_of(&current) < fitness_of(&best) {
                best = current;
                stagnant = 0;
            } else {
                stagnant = stagnant + 1;
            }
            generation = generation + 1;
        }
        best
    }

    /// Runs the genetic algorithm and returns the best solution found. On a
    /// configuration error (no vertices, an empty population, tournaments of
    /// no competitor) it returns a solution with no labels and no fitness.
    /// Otherwise the result is a Roman dominating function with its weight as
    /// fitness, no heavier than the H4 seed (nor the H3 and H2 seeds, when the
    /// population holds them).
    pub fn run(
        &mut self,
        max_generations: usize,
        max_stagnant: usize,
        tournament_size: usize,
        crossover_per_million: u32,
    ) -> (r: Solution)
        requires
            old(self).wf(),
        ensures
            final(self).same_setup(old(self)),
            configuration_error(
                old(self).graph_view().len(),
                old(self).size(),
                tournament_size as nat,
            ) ==> r@ == no_solution(),
            !configuration_error(
                old(self).graph_view().len(),
                old(self).size(),
                tournament_size as nat,
            ) ==> {
                &&& settled(old(self).graph_view(), r@)
                &&& fitness_value(r@) <= weight(h4_labels(old(self).graph_view()))
                &&& old(self).size() > 1 ==> fitness_value(r@) <= weight(
                    h3_labels(old(self).graph_view()),
                )
                &&& old(self).size() > 2 ==> fitness_value(r@) <= weight(
                    h2_labels(old(self).graph_view()),
                )
                &&& (max_generations == 0 || max_stagnant == 0) && old(self).size() <= 3
                    ==> fitness_value(r@) == least_seed_weight(
                    old(self).graph_view(),
                    old(self).size(),
                )
            },
    {
        let ghost adj = self.graph_view();
        if self.graph.get_num_vertices() == 0 || self.population_size == 0 || tournament_size == 0 {
            return Solution::new(Vec::new(), None);
        }
        let population = self.generate_initial_population();
        proof {
            let values = evaluated_fitness_values(adj, population@);
            assert forall|i: int| 0 <= i < population@.len() implies #[trigger] values[i] == weight(
                population@[i]@.labels,
            ) by {
                lemma_weight_in_range(adj, population@[i]@.labels);
                lemma_weight_bound(population@[i]@.labels);
            }
            if population@.len() > 0 {
                assert(values[0] == weight(population@[0]@.labels));
            }
            if population@.len() > 1 {
                assert(values[1] == weight(population@[1]@.labels));
            }
            if population@.len() > 2 {
                assert(values[2] == weight(population@[2]@.labels));
            }
        }
        let r = self.evolve(
            population,
            max_generations,
            max_stagnant,
            tournament_size,
            crossover_per_million,
        );
        proof {
            let values = evaluated_fitness_values(adj, population@);
            if (max_generations == 0 || max_stagnant == 0) && population@.len() <= 3 {
                let k = choose|k: int|
                    is_first_min(values, k) && r@ == marked(evaluated(adj, #[trigger] population@[k]@));
                assert(fitness_value(r@) == values[k]);
            }
        }
        r
    }
}
} // verus!
