//! An undirected graph over the vertices `0..n`, kept as adjacency lists.
use crate::seqs::{
    all_below, count_in, lemma_count_positive, lemma_count_push, lemma_count_remove,
    lemma_count_take_le, lemma_count_take_succ, lemma_count_without, lemma_count_zero_without,
    lemma_without_below, lemma_without_remove, without,
};
use vstd::prelude::*;

verus! {

/// The largest number of vertices a graph may have: twice it still fits in a
/// `usize`, so that label sums cannot overflow.
pub const MAX_VERTICES: usize = usize::MAX / 2;

/// An undirected graph. `adjacency_list[u]` holds the neighbours of `u` in the
/// order their edges were added; parallel edges and self-loops are kept.
pub struct Graph {
    adjacency_list: Vec<Vec<usize>>,
}

/// A graph as its adjacency lists.
pub type Adjacency = Seq<Seq<usize>>;

/// The adjacency lists are well formed: neighbours are vertices, and each edge
/// is stored at both of its ends, as often at one end as at the other.
pub open spec fn adjacency_wf(adj: Adjacency) -> bool {
    &&& adj.len() <= MAX_VERTICES
    &&& forall|u: int| 0 <= u < adj.len() ==> all_below(#[trigger] adj[u], adj.len())
    &&& forall|u: int, v: int|
        0 <= u < adj.len() && 0 <= v < adj.len() ==> count_in(#[trigger] adj[u], v as usize)
            == count_in(#[trigger] adj[v], u as usize)
}

/// `adj` with the undirected edge `(u, v)` added at both ends.
pub open spec fn with_edge(adj: Adjacency, u: usize, v: usize) -> Adjacency {
    let first = adj.update(u as int, adj[u as int].push(v));
    first.update(v as int, first[v as int].push(u))
}

/// `adj` with the edges of `edges` added in order.
pub open spec fn with_edges(adj: Adjacency, edges: Seq<(usize, usize)>) -> Adjacency
    decreases edges.len(),
{
    if edges.len() == 0 {
        adj
    } else {
        let (u, v) = edges.last();
        with_edge(with_edges(adj, edges.drop_last()), u, v)
    }
}

/// `n` vertices without edges.
pub open spec fn empty_adjacency(n: nat) -> Adjacency {
    Seq::new(n, |i: int| Seq::<usize>::empty())
}

/// `adj` grown, with isolated vertices, until `v` is a vertex.
pub open spec fn grown(adj: Adjacency, v: usize) -> Adjacency {
    if v < adj.len() {
        adj
    } else {
        adj + Seq::new((v + 1 - adj.len()) as nat, |i: int| Seq::<usize>::empty())
    }
}

/// `adj` after one line of an edge-list file, given as the numbers it holds:
/// a line of exactly two numbers adds both as vertices, and the edge between
/// them unless they are equal; any other line changes nothing.
pub open spec fn with_record(adj: Adjacency, record: Seq<usize>) -> Adjacency {
    if record.len() == 2 {
        let g = grown(grown(adj, record[0]), record[1]);
        if record[0] != record[1] {
            with_edge(g, record[0], record[1])
        } else {
            g
        }
    } else {
        adj
    }
}

/// `adj` after the lines `records`, in order.
pub open spec fn with_records(adj: Adjacency, records: Seq<Seq<usize>>) -> Adjacency
    decreases records.len(),
{
    if records.len() == 0 {
        adj
    } else {
        with_record(with_records(adj, records.drop_last()), records.last())
    }
}

/// Every line of two numbers names vertices below `MAX_VERTICES`.
pub open spec fn records_within(records: Seq<Seq<usize>>) -> bool {
    forall|i: int|
        0 <= i < records.len() && (#[trigger] records[i]).len() == 2 ==> records[i][0]
            < MAX_VERTICES && records[i][1] < MAX_VERTICES
}

/// The sum of all degrees, each edge counted at both ends.
pub open spec fn degree_total(adj: Adjacency) -> nat
    decreases adj.len(),
{
    if adj.len() == 0 {
        0
    } else {
        degree_total(adj.drop_last()) + adj.last().len()
    }
}

/// Every endpoint in `edges` is a vertex of an `n`-vertex graph.
pub open spec fn edges_within(edges: Seq<(usize, usize)>, n: nat) -> bool {
    forall|i: int| 0 <= i < edges.len() ==> (#[trigger] edges[i]).0 < n && edges[i].1 < n
}

proof fn lemma_with_edge_wf(adj: Adjacency, u: usize, v: usize)
    requires
        adjacency_wf(adj),
        u < adj.len(),
        v < adj.len(),
    ensures
        adjacency_wf(with_edge(adj, u, v)),
{
    let g = with_edge(adj, u, v);
    let first = adj.update(u as int, adj[u as int].push(v));
    assert forall|a: int| 0 <= a < g.len() implies all_below(#[trigger] g[a], g.len()) by {
        assert(all_below(adj[a], adj.len()));
        assert(all_below(first[a], adj.len()));
    }
    assert forall|a: int, b: int| 0 <= a < g.len() && 0 <= b < g.len() implies count_in(
        #[trigger] g[a],
        b as usize,
    ) == count_in(#[trigger] g[b], a as usize) by {
        assert(count_in(adj[a], b as usize) == count_in(adj[b], a as usize));
        lemma_count_push(adj[u as int], v, a as usize);
        lemma_count_push(adj[u as int], v, b as usize);
        lemma_count_push(first[v as int], u, a as usize);
        lemma_count_push(first[v as int], u, b as usize);
    }
}

/// `adj` with every edge at `v` taken out at both ends.
pub open spec fn deleted(adj: Adjacency, v: usize) -> Adjacency {
    Seq::new(
        adj.len(),
        |w: int|
            if w == v {
                Seq::<usize>::empty()
            } else {
                without(adj[w], v)
            },
    )
}

proof fn lemma_deleted_wf(adj: Adjacency, v: usize)
    requires
        adjacency_wf(adj),
        v < adj.len(),
    ensures
        adjacency_wf(deleted(adj, v)),
{
    let g = deleted(adj, v);
    assert forall|a: int| 0 <= a < g.len() implies all_below(#[trigger] g[a], g.len()) by {
        assert(all_below(adj[a], adj.len()));
        lemma_without_below(adj[a], v, adj.len());
    }
    assert forall|a: int, b: int| 0 <= a < g.len() && 0 <= b < g.len() implies count_in(
        #[trigger] g[a],
        b as usize,
    ) == count_in(#[trigger] g[b], a as usize) by {
        assert(count_in(adj[a], b as usize) == count_in(adj[b], a as usize));
        lemma_count_without(adj[a], v, b as usize);
        lemma_count_without(adj[b], v, a as usize);
    }
}

/// The first index of `x` in `s`, if any.
fn position_of(s: &Vec<usize>, x: usize) -> (r: Option<usize>)
    ensures
        r matches Some(p) ==> p < s@.len() && s@[p as int] == x,
        r is None ==> forall|j: int| 0 <= j < s@.len() ==> s@[j] != x,
{
    let mut j: usize = 0;
    while j < s.len()
        invariant
            j <= s@.len(),
            forall|k: int| 0 <= k < j ==> s@[k] != x,
        decreases s@.len() - j,
    {
        if s[j] == x {
            return Some(j);
        }
        j = j + 1;
    }
    None
}

impl View for Graph {
    type V = Adjacency;

    closed spec fn view(&self) -> Adjacency {
        Seq::new(self.adjacency_list@.len(), |i: int| self.adjacency_list@[i]@)
    }
}

impl Clone for Graph {
    /// A copy with the same adjacency lists.
    fn clone(&self) -> (r: Graph)
        ensures
            r@ == self@,
    {
        let mut adjacency_list: Vec<Vec<usize>> = Vec::new();
        let mut u: usize = 0;
        while u < self.adjacency_list.len()
            invariant
                u <= self@.len(),
                adjacency_list@.len() == u,
                forall|k: int| 0 <= k < u ==> (#[trigger] adjacency_list@[k])@ == self@[k],
            decreases self@.len() - u,
        {
            let source = &self.adjacency_list[u];
            let mut list: Vec<usize> = Vec::new();
            let mut j: usize = 0;
            while j < source.len()
                invariant
                    j <= source@.len(),
                    list@ == source@.take(j as int),
                decreases source@.len() - j,
            {
                list.push(source[j]);
                j = j + 1;
            }
            assert(list@ =~= source@);
            adjacency_list.push(list);
            u = u + 1;
        }
        let r = Graph { adjacency_list };
        assert(r@ =~~= self@);
        r
    }
}

impl Graph {
    /// The graph is well formed (see `adjacency_wf`).
    pub open spec fn wf(&self) -> bool {
        adjacency_wf(self@)
    }

    /// The number of vertices.
    pub open spec fn num_vertices(&self) -> nat {
        self@.len()
    }

    /// A graph with `num_vertices` vertices and the undirected edges `edges`,
    /// each stored at both ends. Every endpoint must be a vertex.
    pub fn new(num_vertices: usize, edges: &[(usize, usize)]) -> (g: Graph)
        requires
            num_vertices <= MAX_VERTICES,
            edges_within(edges@, num_vertices as nat),
        ensures
            g.wf(),
            g@ == with_edges(empty_adjacency(num_vertices as nat), edges@),
    {
        let mut adjacency_list: Vec<Vec<usize>> = Vec::new();
        let mut i: usize = 0;
        while i < num_vertices
            invariant
                i <= num_vertices,
                adjacency_list@.len() == i,
                forall|k: int| 0 <= k < i ==> (#[trigger] adjacency_list@[k])@.len() == 0,
            decreases num_vertices - i,
        {
            adjacency_list.push(Vec::new());
            i = i + 1;
        }
        let mut g = Graph { adjacency_list };
        assert(g@ =~~= empty_adjacency(num_vertices as nat));
        assert(adjacency_wf(g@)) by {
            assert forall|u: int, v: int|
                0 <= u < g@.len() && 0 <= v < g@.len() implies count_in(#[trigger] g@[u], v as usize)
                == count_in(#[trigger] g@[v], u as usize) by {
                assert(g@[u].len() == 0);
                assert(g@[v].len() == 0);
            }
        }
        let mut j: usize = 0;
        while j < edges.len()
            invariant
                j <= edges@.len(),
                g@.len() == num_vertices,
                edges_within(edges@, num_vertices as nat),
                g@ == with_edges(empty_adjacency(num_vertices as nat), edges@.take(j as int)),
                adjacency_wf(g@),
            decreases edges@.len() - j,
        {
            let (u, v) = edges[j];
            assert(edges@[j as int] == (u, v));
            proof {
                lemma_with_edge_wf(g@, u, v);
            }
            g.push_edge(u, v);
            assert(edges@.take(j + 1).drop_last() =~= edges@.take(j as int));
            j = j + 1;
        }
        assert(edges@.take(j as int) =~= edges@);
        g
    }

    /// Stores the edge `(u, v)` at both ends.
    fn push_edge(&mut self, u: usize, v: usize)
        requires
            u < old(self)@.len(),
            v < old(self)@.len(),
        ensures
            final(self)@ == with_edge(old(self)@, u, v),
    {
        let ghost start = self@;
        self.adjacency_list[u].push(v);
        let ghost mid = self@;
        assert(mid =~= start.update(u as int, start[u as int].push(v)));
        self.adjacency_list[v].push(u);
        assert(self@ =~= with_edge(start, u, v));
    }

    /// The number of vertices.
    pub fn get_num_vertices(&self) -> (r: usize)
        ensures
            r == self@.len(),
    {
        self.adjacency_list.len()
    }

    /// The neighbours of `vertex`, one entry per incident edge end.
    pub fn get_neighbors(&self, vertex: usize) -> (r: &Vec<usize>)
        requires
            vertex < self@.len(),
        ensures
            r@ == self@[vertex as int],
    {
        &self.adjacency_list[vertex]
    }

    /// The degree of `vertex`: the length of its neighbour list.
    pub fn get_vertex_degree(&self, vertex: usize) -> (r: usize)
        requires
            vertex < self@.len(),
        ensures
            r == self@[vertex as int].len(),
    {
        self.adjacency_list[vertex].len()
    }

    /// Adds vertices until `v` is one.
    pub fn add_vertex(&mut self, v: usize)
        requires
            old(self).wf(),
            v < MAX_VERTICES,
        ensures
            final(self).wf(),
            final(self)@.len() == if v < old(self)@.len() { old(self)@.len() as int } else { v + 1 },
            forall|u: int| 0 <= u < old(self)@.len() ==> #[trigger] final(self)@[u] == old(self)@[u],
            forall|u: int|
                old(self)@.len() <= u < final(self)@.len() ==> #[trigger] final(self)@[u].len() == 0,
            final(self)@ == grown(old(self)@, v),
    {
        let ghost start = self@;
        while self.adjacency_list.len() <= v
            invariant
                v < MAX_VERTICES,
                self@.len() >= start.len(),
                self@.len() <= if v < start.len() { start.len() as int } else { v + 1 },
                forall|u: int| 0 <= u < start.len() ==> #[trigger] self@[u] == start[u],
                forall|u: int| start.len() <= u < self@.len() ==> #[trigger] self@[u].len() == 0,
            decreases v + 1 - self@.len(),
        {
            let ghost before = self@;
            self.adjacency_list.push(Vec::new());
            assert(self@ =~~= before.push(Seq::<usize>::empty()));
        }
        proof {
            let g = self@;
            assert forall|a: int| 0 <= a < g.len() implies all_below(#[trigger] g[a], g.len()) by {
                if a < start.len() {
                    assert(all_below(start[a], start.len()));
                }
            }
            assert forall|a: int, b: int| 0 <= a < g.len() && 0 <= b < g.len() implies count_in(
                #[trigger] g[a],
                b as usize,
            ) == count_in(#[trigger] g[b], a as usize) by {
                if a < start.len() && b < start.len() {
                    assert(count_in(start[a], b as usize) == count_in(start[b], a as usize));
                } else if a < start.len() {
                    assert(all_below(start[a], start.len()));
                    if count_in(g[a], b as usize) > 0 {
                        lemma_count_positive(g[a], b as usize);
                    }
                } else if b < start.len() {
                    assert(all_below(start[b], start.len()));
                    if count_in(g[b], a as usize) > 0 {
                        lemma_count_positive(g[b], a as usize);
                    }
                }
            }
            assert(g =~~= grown(start, v));
        }
    }

    /// Adds the vertices `u` and `v` if they are missing, then the edge `(u, v)`.
    pub fn add_edge(&mut self, u: usize, v: usize)
        requires
            old(self).wf(),
            u < MAX_VERTICES,
            v < MAX_VERTICES,
        ensures
            final(self).wf(),
            final(self)@ == with_edge(grown(grown(old(self)@, u), v), u, v),
            final(self)@ == with_edge(
                old(self)@ + Seq::new(
                    (final(self)@.len() - old(self)@.len()) as nat,
                    |i: int| Seq::<usize>::empty(),
                ),
                u,
                v,
            ),
            final(self)@.len() == vstd::math::max(
                old(self)@.len() as int,
                vstd::math::max(u as int, v as int) + 1,
            ),
    {
        let ghost start = self@;
        self.add_vertex(u);
        self.add_vertex(v);
        let ghost grown = self@;
        assert(grown =~~= start + Seq::new(
            (grown.len() - start.len()) as nat,
            |i: int| Seq::<usize>::empty(),
        ));
        proof {
            lemma_with_edge_wf(grown, u, v);
        }
        self.push_edge(u, v);
    }

    /// Takes out every edge at `v`, at both ends; `v` stays a vertex, now
    /// isolated. Nothing changes when `v` is not a vertex.
    pub fn del_vertex(&mut self, v: usize)
        requires
            old(self).wf(),
        ensures
            final(self).wf(),
            v < old(self)@.len() ==> final(self)@ == deleted(old(self)@, v),
            v >= old(self)@.len() ==> final(self)@ == old(self)@,
    {
        let ghost start = self@;
        let n = self.get_num_vertices();
        if v < n && self.get_vertex_degree(v) > 0 {
            let mut neighbors: Vec<usize> = Vec::new();
            let mut k: usize = 0;
            while k < self.adjacency_list[v].len()
                invariant
                    self@ == start,
                    v < start.len(),
                    k <= start[v as int].len(),
                    neighbors@ == start[v as int].take(k as int),
                decreases start[v as int].len() - k,
            {
                neighbors.push(self.adjacency_list[v][k]);
                k = k + 1;
            }
            assert(neighbors@ =~= start[v as int]);
            let ghost nbrs = neighbors@;
            let mut i: usize = 0;
            while i < neighbors.len()
                invariant
                    adjacency_wf(start),
                    v < start.len(),
                    nbrs == start[v as int],
                    neighbors@ == nbrs,
                    i <= nbrs.len(),
                    self@.len() == start.len(),
                    forall|w: int|
                        0 <= w < start.len() ==> without(#[trigger] self@[w], v) == without(
                            start[w],
                            v,
                        ),
                    forall|w: int|
                        0 <= w < start.len() ==> count_in(#[trigger] self@[w], v) + count_in(
                            nbrs.take(i as int),
                            w as usize,
                        ) == count_in(start[w], v),
                decreases nbrs.len() - i,
            {
                let w = neighbors[i];
                proof {
                    assert(all_below(start[v as int], start.len()));
                    assert(w < start.len());
                    assert(count_in(start[w as int], v) == count_in(start[v as int], w));
                    lemma_count_take_succ(nbrs, i as int, w);
                    lemma_count_take_le(nbrs, i + 1, w);
                    assert forall|u: int| 0 <= u < start.len() && u != w implies #[trigger] count_in(
                        nbrs.take(i + 1),
                        u as usize,
                    ) == count_in(nbrs.take(i as int), u as usize) by {
                        lemma_count_take_succ(nbrs, i as int, u as usize);
                    }
                }
                match position_of(&self.adjacency_list[w], v) {
                    Some(pos) => {
                        let ghost before = self@;
                        proof {
                            lemma_count_remove(before[w as int], pos as int, v);
                            lemma_without_remove(before[w as int], pos as int, v);
                        }
                        self.adjacency_list[w].remove(pos);
                        assert(self@ =~~= before.update(w as int, before[w as int].remove(pos as int)));
                    },
                    None => {
                        proof {
                            lemma_count_positive(self@[w as int], v);
                        }
                    },
                }
                i = i + 1;
            }
            proof {
                assert(nbrs.take(i as int) =~= nbrs);
                assert forall|w: int| 0 <= w < start.len() && w != v implies #[trigger] self@[w]
                    == without(start[w], v) by {
                    assert(count_in(start[w], v) == count_in(start[v as int], w as usize));
                    lemma_count_zero_without(self@[w], v);
                }
            }
            let ghost before = self@;
            self.adjacency_list.set(v, Vec::new());
            proof {
                assert(self@ =~~= before.update(v as int, Seq::<usize>::empty()));
                lemma_deleted_wf(start, v);
                assert(self@ =~~= deleted(start, v));
            }
        } else if v < n {
            proof {
                assert forall|w: int| 0 <= w < start.len() && w != v implies #[trigger] start[w]
                    == without(start[w], v) by {
                    assert(count_in(start[w], v) == count_in(start[v as int], w as usize));
                    lemma_count_zero_without(start[w], v);
                }
                assert(start =~~= deleted(start, v));
            }
        }
    }

    /// A graph read from the lines of an edge-list file, each given as the
    /// numbers it holds: a line of exactly two numbers adds both as vertices
    /// and, unless they are equal, the edge between them; other lines are
    /// ignored.
    pub fn from_records(records: &Vec<Vec<usize>>) -> (g: Graph)
        requires
            records_within(records@.map_values(|r: Vec<usize>| r@)),
        ensures
            g.wf(),
            g@ == with_records(
                Seq::<Seq<usize>>::empty(),
                records@.map_values(|r: Vec<usize>| r@),
            ),
    {
        let ghost recs = records@.map_values(|r: Vec<usize>| r@);
        let mut g = Graph { adjacency_list: Vec::new() };
        assert(g@ =~~= Seq::<Seq<usize>>::empty());
        let mut i: usize = 0;
        while i < records.len()
            invariant
                recs == records@.map_values(|r: Vec<usize>| r@),
                records_within(recs),
                i <= records@.len(),
                g.wf(),
                g@ == with_records(Seq::<Seq<usize>>::empty(), recs.take(i as int)),
            decreases records@.len() - i,
        {
            let record = &records[i];
            assert(recs[i as int] == record@);
            if record.len() == 2 {
                let u = record[0];
                let v = record[1];
                if u != v {
                    g.add_edge(u, v);
                } else {
                    g.add_vertex(u);
                    g.add_vertex(v);
                }
            }
            assert(recs.take(i + 1).drop_last() =~= recs.take(i as int));
            i = i + 1;
        }
        assert(recs.take(i as int) =~= recs);
        g
    }

    /// The number of edges: half the sum of the degrees (which saturates at
    /// `usize::MAX`).
    pub fn get_graph_size(&self) -> (r: usize)
        ensures
            r == vstd::math::min(degree_total(self@) as int, usize::MAX as int) / 2,
    {
        let mut edge_count: usize = 0;
        let mut i: usize = 0;
        while i < self.adjacency_list.len()
            invariant
                i <= self@.len(),
                edge_count == vstd::math::min(
                    degree_total(self@.take(i as int)) as int,
                    usize::MAX as int,
                ),
            decreases self@.len() - i,
        {
            assert(self@.take(i + 1).drop_last() =~= self@.take(i as int));
            edge_count = edge_count.saturating_add(self.adjacency_list[i].len());
            i = i + 1;
        }
        assert(self@.take(i as int) =~= self@);
        edge_count / 2
    }
}

} // verus!
