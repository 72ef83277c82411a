//! The four greedy heuristics that seed the population. Each repeatedly takes
//! an unvisited vertex, labels it 2 and its unvisited neighbours 0, and labels
//! 1 a single vertex left over. H1 takes the vertex at random, H2 by largest
//! degree, H3 by largest degree among unvisited vertices, and H4 as H3 while
//! also labelling 1 every vertex that no unvisited neighbour is left to cover.
use crate::graph::{adjacency_wf, Adjacency, Graph};
use crate::labeling::{dominated, dominated_at, is_roman, labels_in_range};
use crate::random::RandomSource;
use crate::seqs::{
    all_below, count_in, count_true, lemma_count_positive, lemma_count_true_mono,
    lemma_count_true_none, lemma_count_true_positive, lemma_count_true_update,
    lemma_entry_counted, lemma_take_contains_succ, lemma_count_true_take_succ,
};
use vstd::prelude::*;

verus! {

/// How many entries of the neighbour list `nbrs` are unvisited.
pub open spec fn residual(nbrs: Seq<usize>, unvisited: Seq<bool>) -> nat
    decreases nbrs.len(),
{
    if nbrs.len() == 0 {
        0
    } else {
        residual(nbrs.drop_last(), unvisited) + if unvisited[nbrs.last() as int] {
            1nat
        } else {
            0nat
        }
    }
}

/// Labels after taking `v`: `v` gets 2, its unvisited neighbours 0.
pub open spec fn claimed_labels(adj: Adjacency, f: Seq<u8>, unvisited: Seq<bool>, v: int) -> Seq<
    u8,
> {
    Seq::new(
        f.len(),
        |w: int|
            if w == v {
                2u8
            } else if unvisited[w] && adj[v].contains(w as usize) {
                0u8
            } else {
                f[w]
            },
    )
}

/// Unvisited vertices after taking `v`: neither `v` nor its neighbours.
pub open spec fn claimed_unvisited(adj: Adjacency, unvisited: Seq<bool>, v: int) -> Seq<bool> {
    Seq::new(unvisited.len(), |w: int| unvisited[w] && w != v && !adj[v].contains(w as usize))
}

/// An unvisited vertex with no unvisited neighbour.
pub open spec fn isolated(adj: Adjacency, unvisited: Seq<bool>, w: int) -> bool {
    unvisited[w] && residual(adj[w], unvisited) == 0
}

/// Labels after the sweep of H4: isolated unvisited vertices get 1.
pub open spec fn swept_labels(adj: Adjacency, f: Seq<u8>, unvisited: Seq<bool>) -> Seq<u8> {
    Seq::new(
        f.len(),
        |w: int|
            if isolated(adj, unvisited, w) {
                1u8
            } else {
                f[w]
            },
    )
}

/// Unvisited vertices after the sweep of H4.
pub open spec fn swept_unvisited(adj: Adjacency, unvisited: Seq<bool>) -> Seq<bool> {
    Seq::new(unvisited.len(), |w: int| unvisited[w] && !isolated(adj, unvisited, w))
}

/// Labels once a single unvisited vertex is left: it gets 1.
pub open spec fn last_labels(f: Seq<u8>, unvisited: Seq<bool>) -> Seq<u8> {
    if count_true(unvisited) == 1 {
        Seq::new(
            f.len(),
            |w: int|
                if unvisited[w] {
                    1u8
                } else {
                    f[w]
                },
        )
    } else {
        f
    }
}

/// Unvisited vertices once a single one is left: none.
pub open spec fn last_unvisited(unvisited: Seq<bool>) -> Seq<bool> {
    if count_true(unvisited) == 1 {
        Seq::new(unvisited.len(), |w: int| false)
    } else {
        unvisited
    }
}

/// One round of the greedy process from labels `f` and the flags `unvisited`,
/// taking the vertex `v`; with `sweep`, isolated vertices are settled too.
pub open spec fn step(adj: Adjacency, f: Seq<u8>, unvisited: Seq<bool>, v: int, sweep: bool) -> (
    Seq<u8>,
    Seq<bool>,
) {
    let f1 = claimed_labels(adj, f, unvisited, v);
    let u1 = claimed_unvisited(adj, unvisited, v);
    let f2 = if sweep {
        swept_labels(adj, f1, u1)
    } else {
        f1
    };
    let u2 = if sweep {
        swept_unvisited(adj, u1)
    } else {
        u1
    };
    (last_labels(f2, u2), last_unvisited(u2))
}

/// The key by which a vertex is taken: its degree among unvisited vertices
/// when `dynamic`, else its degree.
pub open spec fn key(adj: Adjacency, unvisited: Seq<bool>, w: int, dynamic: bool) -> nat {
    if dynamic {
        residual(adj[w], unvisited)
    } else {
        adj[w].len()
    }
}

/// `v` is the unvisited vertex of largest key, the lowest such index.
pub open spec fn is_first_max(adj: Adjacency, unvisited: Seq<bool>, v: int, dynamic: bool) -> bool {
    &&& 0 <= v < unvisited.len()
    &&& unvisited[v]
    &&& forall|w: int|
        0 <= w < unvisited.len() && #[trigger] unvisited[w] ==> key(adj, unvisited, w, dynamic)
            <= key(adj, unvisited, v, dynamic) && (w < v ==> key(adj, unvisited, w, dynamic) < key(
            adj,
            unvisited,
            v,
            dynamic,
        ))
}

/// The vertex that the deterministic heuristics take.
pub open spec fn pick(adj: Adjacency, unvisited: Seq<bool>, dynamic: bool) -> int {
    choose|v: int| is_first_max(adj, unvisited, v, dynamic)
}

/// The labels that the deterministic greedy process ends with, from labels `f`
/// and the flags `unvisited`.
pub open spec fn greedy(
    adj: Adjacency,
    f: Seq<u8>,
    unvisited: Seq<bool>,
    dynamic: bool,
    sweep: bool,
) -> Seq<u8>
    decreases count_true(unvisited),
{
    if count_true(unvisited) == 0 {
        f
    } else {
        let next = step(adj, f, unvisited, pick(adj, unvisited, dynamic), sweep);
        if count_true(next.1) < count_true(unvisited) {
            greedy(adj, next.0, next.1, dynamic, sweep)
        } else {
            f
        }
    }
}

/// All labels 0, all vertices unvisited.
pub open spec fn start_labels(n: nat) -> Seq<u8> {
    Seq::new(n, |w: int| 0u8)
}

pub open spec fn start_unvisited(n: nat) -> Seq<bool> {
    Seq::new(n, |w: int| true)
}

/// The labeling H2 produces: vertices taken by largest degree.
pub open spec fn h2_labels(adj: Adjacency) -> Seq<u8> {
    greedy(adj, start_labels(adj.len()), start_unvisited(adj.len()), false, false)
}

/// The labeling H3 produces: vertices taken by largest degree among the
/// unvisited.
pub open spec fn h3_labels(adj: Adjacency) -> Seq<u8> {
    greedy(adj, start_labels(adj.len()), start_unvisited(adj.len()), true, false)
}

/// The labeling H4 produces: as H3, settling isolated vertices after each round.
pub open spec fn h4_labels(adj: Adjacency) -> Seq<u8> {
    greedy(adj, start_labels(adj.len()), start_unvisited(adj.len()), true, true)
}

/// No vertex unvisited.
pub open spec fn none_unvisited(n: nat) -> Seq<bool> {
    Seq::new(n, |w: int| false)
}

/// The state after the greedy rounds taking the vertices `picks` in order,
/// or none when a pick is not an unvisited vertex at its turn.
pub open spec fn taken(
    adj: Adjacency,
    f: Seq<u8>,
    unvisited: Seq<bool>,
    picks: Seq<int>,
    sweep: bool,
) -> Option<(Seq<u8>, Seq<bool>)>
    decreases picks.len(),
{
    if picks.len() == 0 {
        Some((f, unvisited))
    } else {
        match taken(adj, f, unvisited, picks.drop_last(), sweep) {
            Some(state) => {
                let v = picks.last();
                if 0 <= v < state.1.len() && state.1[v] {
                    Some(step(adj, state.0, state.1, v, sweep))
                } else {
                    None
                }
            },
            None => None,
        }
    }
}

/// `labels` is a possible outcome of H1: the greedy process ends with it for
/// some order in which the vertices are taken.
pub open spec fn is_h1_outcome(adj: Adjacency, labels: Seq<u8>) -> bool {
    exists|picks: Seq<int>|
        #[trigger] taken(adj, start_labels(adj.len()), start_unvisited(adj.len()), picks, false)
            == Some((labels, none_unvisited(adj.len())))
}

/// Some visited neighbour of `w` is labelled 2.
pub open spec fn covered(adj: Adjacency, f: Seq<u8>, unvisited: Seq<bool>, w: int) -> bool {
    exists|j: int|
        0 <= j < adj[w].len() && !unvisited[adj[w][j] as int] && f[adj[w][j] as int] == 2
}

/// The greedy state is sound so far: labels in range, and every visited vertex
/// labelled 0 has a visited neighbour labelled 2.
pub open spec fn sound(adj: Adjacency, f: Seq<u8>, unvisited: Seq<bool>) -> bool {
    &&& adjacency_wf(adj)
    &&& f.len() == adj.len()
    &&& unvisited.len() == adj.len()
    &&& labels_in_range(f)
    &&& forall|w: int|
        0 <= w < f.len() && !unvisited[w] && f[w] == 0 ==> #[trigger] covered(adj, f, unvisited, w)
}

/// A step keeps visited vertices and their labels.
pub open spec fn keeps_visited(f: Seq<u8>, u: Seq<bool>, f2: Seq<u8>, u2: Seq<bool>) -> bool {
    &&& f2.len() == f.len()
    &&& u2.len() == u.len()
    &&& forall|w: int| 0 <= w < u.len() && #[trigger] u2[w] ==> u[w]
    &&& forall|w: int| 0 <= w < u.len() && !u[w] ==> #[trigger] f2[w] == f[w]
}

proof fn lemma_covered_kept(
    adj: Adjacency,
    f: Seq<u8>,
    u: Seq<bool>,
    f2: Seq<u8>,
    u2: Seq<bool>,
    w: int,
)
    requires
        keeps_visited(f, u, f2, u2),
        all_below(adj[w], u.len()),
        covered(adj, f, u, w),
    ensures
        covered(adj, f2, u2, w),
{
    let j = choose|j: int|
        0 <= j < adj[w].len() && !u[adj[w][j] as int] && f[adj[w][j] as int] == 2;
    let x = adj[w][j] as int;
    assert(x < u.len());
    assert(!u2[x]);
    assert(f2[x] == f[x]);
}

proof fn lemma_claim_sound(adj: Adjacency, f: Seq<u8>, u: Seq<bool>, v: int)
    requires
        sound(adj, f, u),
        0 <= v < u.len(),
        u[v],
    ensures
        sound(adj, claimed_labels(adj, f, u, v), claimed_unvisited(adj, u, v)),
        keeps_visited(f, u, claimed_labels(adj, f, u, v), claimed_unvisited(adj, u, v)),
        !claimed_unvisited(adj, u, v)[v],
{
    let f1 = claimed_labels(adj, f, u, v);
    let u1 = claimed_unvisited(adj, u, v);
    assert(keeps_visited(f, u, f1, u1));
    assert forall|w: int| 0 <= w < f1.len() && !u1[w] && f1[w] == 0 implies #[trigger] covered(
        adj,
        f1,
        u1,
        w,
    ) by {
        assert(all_below(adj[w], adj.len()));
        if !u[w] {
            lemma_covered_kept(adj, f, u, f1, u1, w);
        } else {
            assert(w != v);
            assert(adj[v].contains(w as usize));
            let k = choose|k: int| 0 <= k < adj[v].len() && adj[v][k] == w as usize;
            lemma_entry_counted(adj[v], k);
            assert(count_in(adj[v], w as usize) == count_in(adj[w], v as usize));
            lemma_count_positive(adj[w], v as usize);
            let j = choose|j: int| 0 <= j < adj[w].len() && adj[w][j] == v as usize;
            assert(!u1[adj[w][j] as int] && f1[adj[w][j] as int] == 2);
        }
    }
}

proof fn lemma_sweep_sound(adj: Adjacency, f: Seq<u8>, u: Seq<bool>)
    requires
        sound(adj, f, u),
    ensures
        sound(adj, swept_labels(adj, f, u), swept_unvisited(adj, u)),
        keeps_visited(f, u, swept_labels(adj, f, u), swept_unvisited(adj, u)),
{
    let f2 = swept_labels(adj, f, u);
    let u2 = swept_unvisited(adj, u);
    assert(keeps_visited(f, u, f2, u2));
    assert forall|w: int| 0 <= w < f2.len() && !u2[w] && f2[w] == 0 implies #[trigger] covered(
        adj,
        f2,
        u2,
        w,
    ) by {
        assert(all_below(adj[w], adj.len()));
        lemma_covered_kept(adj, f, u, f2, u2, w);
    }
}

proof fn lemma_last_sound(adj: Adjacency, f: Seq<u8>, u: Seq<bool>)
    requires
        sound(adj, f, u),
    ensures
        sound(adj, last_labels(f, u), last_unvisited(u)),
        keeps_visited(f, u, last_labels(f, u), last_unvisited(u)),
{
    let f2 = last_labels(f, u);
    let u2 = last_unvisited(u);
    assert(keeps_visited(f, u, f2, u2));
    assert forall|w: int| 0 <= w < f2.len() && !u2[w] && f2[w] == 0 implies #[trigger] covered(
        adj,
        f2,
        u2,
        w,
    ) by {
        assert(all_below(adj[w], adj.len()));
        lemma_covered_kept(adj, f, u, f2, u2, w);
    }
}

/// A round keeps the state sound and visits at least the vertex taken.
proof fn lemma_step_sound(adj: Adjacency, f: Seq<u8>, u: Seq<bool>, v: int, sweep: bool)
    requires
        sound(adj, f, u),
        0 <= v < u.len(),
        u[v],
    ensures
        sound(adj, step(adj, f, u, v, sweep).0, step(adj, f, u, v, sweep).1),
        count_true(step(adj, f, u, v, sweep).1) < count_true(u),
{
    let f1 = claimed_labels(adj, f, u, v);
    let u1 = claimed_unvisited(adj, u, v);
    lemma_claim_sound(adj, f, u, v);
    let f2 = if sweep {
        swept_labels(adj, f1, u1)
    } else {
        f1
    };
    let u2 = if sweep {
        swept_unvisited(adj, u1)
    } else {
        u1
    };
    if sweep {
        lemma_sweep_sound(adj, f1, u1);
    }
    lemma_last_sound(adj, f2, u2);
    let u3 = last_unvisited(u2);
    assert(u3 == step(adj, f, u, v, sweep).1);
    assert(forall|w: int| 0 <= w < u.len() && #[trigger] u3[w] ==> u[w]);
    assert(u[v] && !u3[v]);
    lemma_count_true_mono(u, u3);
}

/// A sound state with every vertex visited is a Roman dominating function.
proof fn lemma_finished_roman(adj: Adjacency, f: Seq<u8>, u: Seq<bool>)
    requires
        sound(adj, f, u),
        count_true(u) == 0,
    ensures
        is_roman(adj, f),
{
    assert forall|w: int| 0 <= w < f.len() && f[w] == 0 implies #[trigger] dominated_at(
        adj,
        f,
        w,
    ) by {
        if u[w] {
            lemma_count_true_positive(u, w);
        }
        assert(covered(adj, f, u, w));
        let j = choose|j: int|
            0 <= j < adj[w].len() && !u[adj[w][j] as int] && f[adj[w][j] as int] == 2;
        assert(f[adj[w][j] as int] == 2);
    }
}

/// At most one vertex is the first of largest key.
proof fn lemma_first_max_unique(adj: Adjacency, u: Seq<bool>, v: int, dynamic: bool)
    requires
        is_first_max(adj, u, v, dynamic),
    ensures
        pick(adj, u, dynamic) == v,
{
    let p = pick(adj, u, dynamic);
    assert(is_first_max(adj, u, p, dynamic));
    assert(u[p] && u[v]);
}

/// Settles a single vertex left over: it gets 1.
fn settle_last(f: &mut Vec<u8>, unvisited: &mut Vec<bool>, remaining: &mut usize)
    requires
        old(f)@.len() == old(unvisited)@.len(),
        *old(remaining) == count_true(old(unvisited)@),
    ensures
        final(f)@ == last_labels(old(f)@, old(unvisited)@),
        final(unvisited)@ == last_unvisited(old(unvisited)@),
        *final(remaining) == count_true(final(unvisited)@),
{
    let ghost f0 = f@;
    let ghost u0 = unvisited@;
    if *remaining == 1 {
        let n = unvisited.len();
        let mut w: usize = 0;
        while w < n
            invariant
                n == u0.len(),
                f0.len() == n,
                w <= n,
                f@.len() == n,
                unvisited@.len() == n,
                forall|k: int|
                    0 <= k < n ==> #[trigger] f@[k] == if k < w && u0[k] {
                        1u8
                    } else {
                        f0[k]
                    },
                forall|k: int| 0 <= k < n ==> #[trigger] unvisited@[k] == (u0[k] && k >= w),
            decreases n - w,
        {
            if unvisited[w] {
                f.set(w, 1);
                unvisited.set(w, false);
            }
            w = w + 1;
        }
        *remaining = 0;
        proof {
            lemma_count_true_none(unvisited@);
            assert(f@ =~= last_labels(f0, u0));
            assert(unvisited@ =~= last_unvisited(u0));
        }
    }
}

/// The vertex at position `k` among the unvisited ones, counted from 0.
fn nth_unvisited(unvisited: &Vec<bool>, k: usize) -> (v: usize)
    requires
        k < count_true(unvisited@),
    ensures
        v < unvisited@.len(),
        unvisited@[v as int],
{
    let mut seen: usize = 0;
    let mut w: usize = 0;
    while w < unvisited.len()
        invariant
            w <= unvisited@.len(),
            seen == count_true(unvisited@.take(w as int)),
            seen <= k,
        decreases unvisited@.len() - w,
    {
        proof {
            lemma_count_true_take_succ(unvisited@, w as int);
        }
        if unvisited[w] {
            if seen == k {
                return w;
            }
            seen = seen + 1;
        }
        w = w + 1;
    }
    assert(unvisited@.take(w as int) =~= unvisited@);
    0
}

impl Graph {
    /// The number of unvisited entries in the neighbour list of `w`.
    fn residual_degree(&self, w: usize, unvisited: &Vec<bool>) -> (r: usize)
        requires
            self.wf(),
            w < self@.len(),
            unvisited@.len() == self@.len(),
        ensures
            r == residual(self@[w as int], unvisited@),
    {
        let nbrs = self.get_neighbors(w);
        let mut count: usize = 0;
        let mut j: usize = 0;
        while j < nbrs.len()
            invariant
                j <= nbrs@.len(),
                count <= j,
                count == residual(nbrs@.take(j as int), unvisited@),
                all_below(nbrs@, unvisited@.len()),
            decreases nbrs@.len() - j,
        {
            assert(nbrs@.take(j + 1).drop_last() =~= nbrs@.take(j as int));
            if unvisited[nbrs[j]] {
                count = count + 1;
            }
            j = j + 1;
        }
        assert(nbrs@.take(j as int) =~= nbrs@);
        count
    }

    /// The unvisited vertex of largest key, the lowest such index.
    fn first_max(&self, unvisited: &Vec<bool>, dynamic: bool) -> (v: usize)
        requires
            self.wf(),
            unvisited@.len() == self@.len(),
            count_true(unvisited@) > 0,
        ensures
            is_first_max(self@, unvisited@, v as int, dynamic),
    {
        let n = self.get_num_vertices();
        let mut found = false;
        let mut best: usize = 0;
        let mut best_key: usize = 0;
        let mut w: usize = 0;
        while w < n
            invariant
                self.wf(),
                n == self@.len(),
                unvisited@.len() == n,
                w <= n,
                found ==> best < w && unvisited@[best as int] && best_key == key(
                    self@,
                    unvisited@,
                    best as int,
                    dynamic,
                ),
                found ==> forall|u: int|
                    0 <= u < w && #[trigger] unvisited@[u] ==> key(self@, unvisited@, u, dynamic)
                        <= best_key && (u < best ==> key(self@, unvisited@, u, dynamic)
                        < best_key),
                !found ==> forall|u: int| 0 <= u < w ==> !#[trigger] unvisited@[u],
            decreases n - w,
        {
            if unvisited[w] {
                let k = if dynamic {
                    self.residual_degree(w, unvisited)
                } else {
                    self.get_vertex_degree(w)
                };
                if !found || k > best_key {
                    found = true;
                    best = w;
                    best_key = k;
                }
            }
            w = w + 1;
        }
        proof {
            if !found {
                lemma_count_true_none(unvisited@);
            }
        }
        best
    }

    /// Takes `v`: labels it 2 and its unvisited neighbours 0, and visits them.
    fn claim(&self, f: &mut Vec<u8>, unvisited: &mut Vec<bool>, remaining: &mut usize, v: usize)
        requires
            self.wf(),
            old(f)@.len() == self@.len(),
            old(unvisited)@.len() == self@.len(),
            v < self@.len(),
            old(unvisited)@[v as int],
            *old(remaining) == count_true(old(unvisited)@),
        ensures
            final(f)@ == claimed_labels(self@, old(f)@, old(unvisited)@, v as int),
            final(unvisited)@ == claimed_unvisited(self@, old(unvisited)@, v as int),
            *final(remaining) == count_true(final(unvisited)@),
    {
        let ghost f0 = f@;
        let ghost u0 = unvisited@;
        let n = self.get_num_vertices();
        proof {
            lemma_count_true_positive(u0, v as int);
            lemma_count_true_update(u0, v as int, false);
        }
        f.set(v, 2);
        unvisited.set(v, false);
        *remaining = *remaining - 1;
        let nbrs = self.get_neighbors(v);
        assert(all_below(self@[v as int], self@.len()));
        let mut j: usize = 0;
        while j < nbrs.len()
            invariant
                n == self@.len(),
                all_below(nbrs@, n as nat),
                j <= nbrs@.len(),
                f0.len() == n,
                u0.len() == n,
                f@.len() == n,
                unvisited@.len() == n,
                v < n,
                forall|w: int|
                    0 <= w < n ==> #[trigger] f@[w] == if w == v {
                        2u8
                    } else if u0[w] && nbrs@.take(j as int).contains(w as usize) {
                        0u8
                    } else {
                        f0[w]
                    },
                forall|w: int|
                    0 <= w < n ==> #[trigger] unvisited@[w] == (u0[w] && w != v && !nbrs@.take(
                        j as int,
                    ).contains(w as usize)),
                *remaining == count_true(unvisited@),
            decreases nbrs@.len() - j,
        {
            let x = nbrs[j];
            proof {
                assert forall|w: int| 0 <= w < n implies #[trigger] nbrs@.take(j + 1).contains(
                    w as usize,
                ) == (nbrs@.take(j as int).contains(w as usize) || x == w as usize) by {
                    lemma_take_contains_succ(nbrs@, j as int, w as usize);
                }
            }
            if unvisited[x] {
                proof {
                    lemma_count_true_positive(unvisited@, x as int);
                    lemma_count_true_update(unvisited@, x as int, false);
                }
                f.set(x, 0);
                unvisited.set(x, false);
                *remaining = *remaining - 1;
            }
            j = j + 1;
        }
        proof {
            assert(nbrs@.take(j as int) =~= nbrs@);
            assert(f@ =~= claimed_labels(self@, f0, u0, v as int));
            assert(unvisited@ =~= claimed_unvisited(self@, u0, v as int));
        }
    }

    /// Labels 1, and visits, every unvisited vertex without unvisited neighbours.
    fn sweep(&self, f: &mut Vec<u8>, unvisited: &mut Vec<bool>, remaining: &mut usize)
        requires
            self.wf(),
            old(f)@.len() == self@.len(),
            old(unvisited)@.len() == self@.len(),
            *old(remaining) == count_true(old(unvisited)@),
        ensures
            final(f)@ == swept_labels(self@, old(f)@, old(unvisited)@),
            final(unvisited)@ == swept_unvisited(self@, old(unvisited)@),
            *final(remaining) == count_true(final(unvisited)@),
    {
        let ghost f0 = f@;
        let ghost u0 = unvisited@;
        let n = self.get_num_vertices();
        let mut lone: Vec<bool> = Vec::new();
        let mut w: usize = 0;
        while w < n
            invariant
                self.wf(),
                n == self@.len(),
                unvisited@ == u0,
                u0.len() == n,
                w <= n,
                lone@.len() == w,
                forall|k: int| 0 <= k < w ==> #[trigger] lone@[k] == isolated(self@, u0, k),
            decreases n - w,
        {
            let b = unvisited[w] && self.residual_degree(w, unvisited) == 0;
            lone.push(b);
            w = w + 1;
        }
        w = 0;
        while w < n
            invariant
                n == self@.len(),
                u0.len() == n,
                f0.len() == n,
                lone@.len() == n,
                forall|k: int| 0 <= k < n ==> #[trigger] lone@[k] == isolated(self@, u0, k),
                w <= n,
                f@.len() == n,
                unvisited@.len() == n,
                forall|k: int|
                    0 <= k < n ==> #[trigger] f@[k] == if k < w && lone@[k] {
                        1u8
                    } else {
                        f0[k]
                    },
                forall|k: int|
                    0 <= k < n ==> #[trigger] unvisited@[k] == (u0[k] && !(k < w && lone@[k])),
                *remaining == count_true(unvisited@),
            decreases n - w,
        {
            if lone[w] {
                proof {
                    lemma_count_true_positive(unvisited@, w as int);
                    lemma_count_true_update(unvisited@, w as int, false);
                }
                f.set(w, 1);
                unvisited.set(w, false);
                *remaining = *remaining - 1;
            }
            w = w + 1;
        }
        proof {
            assert(f@ =~= swept_labels(self@, f0, u0));
            assert(unvisited@ =~= swept_unvisited(self@, u0));
        }
    }

    /// One round of the greedy process, taking `v`.
    fn greedy_step(
        &self,
        f: &mut Vec<u8>,
        unvisited: &mut Vec<bool>,
        remaining: &mut usize,
        v: usize,
        sweep: bool,
    )
        requires
            self.wf(),
            old(f)@.len() == self@.len(),
            old(unvisited)@.len() == self@.len(),
            v < self@.len(),
            old(unvisited)@[v as int],
            *old(remaining) == count_true(old(unvisited)@),
        ensures
            (final(f)@, final(unvisited)@) == step(
                self@,
                old(f)@,
                old(unvisited)@,
                v as int,
                sweep,
            ),
            *final(remaining) == count_true(final(unvisited)@),
    {
        self.claim(f, unvisited, remaining, v);
        if sweep {
            self.sweep(f, unvisited, remaining);
        }
        settle_last(f, unvisited, remaining);
    }

    /// All labels 0 and all vertices unvisited, with their count.
    fn greedy_start(&self) -> (r: (Vec<u8>, Vec<bool>, usize))
        requires
            self.wf(),
        ensures
            r.0@ == start_labels(self@.len()),
            r.1@ == start_unvisited(self@.len()),
            r.2 == count_true(r.1@),
            sound(self@, r.0@, r.1@),
    {
        let n = self.get_num_vertices();
        let mut f: Vec<u8> = Vec::new();
        let mut unvisited: Vec<bool> = Vec::new();
        let mut remaining: usize = 0;
        while remaining < n
            invariant
                remaining <= n,
                f@ == start_labels(remaining as nat),
                unvisited@ == start_unvisited(remaining as nat),
                remaining == count_true(unvisited@),
            decreases n - remaining,
        {
            let ghost before = unvisited@;
            f.push(0);
            unvisited.push(true);
            assert(unvisited@.drop_last() =~= before);
            assert(f@ =~= start_labels((remaining + 1) as nat));
            assert(unvisited@ =~= start_unvisited((remaining + 1) as nat));
            remaining = remaining + 1;
        }
        (f, unvisited, remaining)
    }

    /// Runs the deterministic greedy process to its end.
    fn greedy_labels(&self, dynamic: bool, sweep: bool) -> (r: Vec<u8>)
        requires
            self.wf(),
        ensures
            r@ == greedy(
                self@,
                start_labels(self@.len()),
                start_unvisited(self@.len()),
                dynamic,
                sweep,
            ),
            is_roman(self@, r@),
    {
        let (mut f, mut unvisited, mut remaining) = self.greedy_start();
        let ghost f0 = f@;
        let ghost u0 = unvisited@;
        while remaining > 0
            invariant
                self.wf(),
                f@.len() == self@.len(),
                unvisited@.len() == self@.len(),
                remaining == count_true(unvisited@),
                sound(self@, f@, unvisited@),
                greedy(self@, f@, unvisited@, dynamic, sweep) == greedy(
                    self@,
                    f0,
                    u0,
                    dynamic,
                    sweep,
                ),
            decreases remaining,
        {
            let v = self.first_max(&unvisited, dynamic);
            let ghost fb = f@;
            let ghost ub = unvisited@;
            proof {
                lemma_first_max_unique(self@, ub, v as int, dynamic);
                lemma_step_sound(self@, fb, ub, v as int, sweep);
            }
            self.greedy_step(&mut f, &mut unvisited, &mut remaining, v, sweep);
            assert(greedy(self@, fb, ub, dynamic, sweep) == greedy(
                self@,
                f@,
                unvisited@,
                dynamic,
                sweep,
            ));
        }
        proof {
            lemma_finished_roman(self@, f@, unvisited@);
        }
        f
    }

    /// H1: takes a uniformly random unvisited vertex each round. The result is
    /// the outcome of the greedy process for the order drawn, and a Roman
    /// dominating function of the graph.
    pub fn h1(&self, rng: &mut RandomSource) -> (r: Vec<u8>)
        requires
            self.wf(),
        ensures
            is_h1_outcome(self@, r@),
            is_roman(self@, r@),
    {
        let (mut f, mut unvisited, mut remaining) = self.greedy_start();
        let ghost f0 = f@;
        let ghost u0 = unvisited@;
        let ghost mut picks = Seq::<int>::empty();
        while remaining > 0
            invariant
                self.wf(),
                f@.len() == self@.len(),
                unvisited@.len() == self@.len(),
                remaining == count_true(unvisited@),
                sound(self@, f@, unvisited@),
                taken(self@, f0, u0, picks, false) == Some((f@, unvisited@)),
            decreases remaining,
        {
            let k = rng.below(remaining);
            let v = nth_unvisited(&unvisited, k);
            proof {
                lemma_step_sound(self@, f@, unvisited@, v as int, false);
                assert(picks.push(v as int).drop_last() =~= picks);
                picks = picks.push(v as int);
            }
            self.greedy_step(&mut f, &mut unvisited, &mut remaining, v, false);
        }
        proof {
            lemma_finished_roman(self@, f@, unvisited@);
            assert forall|w: int| 0 <= w < unvisited@.len() implies !unvisited@[w] by {
                if unvisited@[w] {
                    lemma_count_true_positive(unvisited@, w);
                }
            }
            assert(unvisited@ =~= none_unvisited(self@.len()));
            assert(taken(self@, f0, u0, picks, false) == Some((f@, none_unvisited(self@.len()))));
        }
        f
    }

    /// H2: takes the unvisited vertex of largest degree each round, the lowest
    /// index among equals.
    pub fn h2(&self) -> (r: Vec<u8>)
        requires
            self.wf(),
        ensures
            r@ == h2_labels(self@),
            is_roman(self@, r@),
    {
        self.greedy_labels(false, false)
    }

    /// H3: takes the unvisited vertex with the most unvisited neighbour
    /// entries each round, the lowest index among equals.
    pub fn h3(&self) -> (r: Vec<u8>)
        requires
            self.wf(),
        ensures
            r@ == h3_labels(self@),
            is_roman(self@, r@),
    {
        self.greedy_labels(true, false)
    }

    /// H4: as H3, and after each round labels 1 every unvisited vertex that
    /// has no unvisited neighbour left.
    pub fn h4(&self) -> (r: Vec<u8>)
        requires
            self.wf(),
        ensures
            r@ == h4_labels(self@),
            is_roman(self@, r@),
    {
        self.greedy_labels(true, true)
    }
}

} // verus!
