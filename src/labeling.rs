//! Labelings of a graph's vertices with 0, 1 and 2, and the Roman domination
//! condition on them.
use crate::graph::Adjacency;
use vstd::prelude::*;

verus! {

/// Some neighbour of `w` is labelled 2.
pub open spec fn dominated_at(adj: Adjacency, f: Seq<u8>, w: int) -> bool {
    exists|j: int| 0 <= j < adj[w].len() && f[adj[w][j] as int] == 2
}

/// Every vertex labelled 0 has a neighbour labelled 2.
pub open spec fn dominated(adj: Adjacency, f: Seq<u8>) -> bool {
    forall|w: int| 0 <= w < f.len() && f[w] == 0 ==> #[trigger] dominated_at(adj, f, w)
}

/// Every label is 0, 1 or 2.
pub open spec fn labels_in_range(f: Seq<u8>) -> bool {
    forall|w: int| 0 <= w < f.len() ==> #[trigger] f[w] <= 2
}

/// `f` is a Roman dominating function of the graph: one label in {0, 1, 2} per
/// vertex, and every 0 next to a 2.
pub open spec fn is_roman(adj: Adjacency, f: Seq<u8>) -> bool {
    &&& f.len() == adj.len()
    &&& labels_in_range(f)
    &&& dominated(adj, f)
}

/// The sum of the labels.
pub open spec fn weight(f: Seq<u8>) -> nat
    decreases f.len(),
{
    if f.len() == 0 {
        0
    } else {
        weight(f.drop_last()) + f.last() as nat
    }
}

/// Labels in {0, 1, 2} weigh at most twice their number.
pub proof fn lemma_weight_bound(f: Seq<u8>)
    requires
        labels_in_range(f),
    ensures
        weight(f) <= 2 * f.len(),
    decreases f.len(),
{
    if f.len() > 0 {
        assert(labels_in_range(f.drop_last())) by {
            assert forall|w: int| 0 <= w < f.drop_last().len() implies #[trigger] f.drop_last()[w]
                <= 2 by {
                assert(f.drop_last()[w] == f[w]);
            }
        }
        lemma_weight_bound(f.drop_last());
        assert(f[f.len() - 1] <= 2);
    }
}

} // verus!
