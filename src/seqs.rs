//! Counting facts about sequences of vertices and of flags.
use vstd::prelude::*;

verus! {

/// How many entries of `s` equal `x`.
pub open spec fn count_in(s: Seq<usize>, x: usize) -> nat
    decreases s.len(),
{
    if s.len() == 0 {
        0
    } else {
        count_in(s.drop_last(), x) + if s.last() == x { 1nat } else { 0nat }
    }
}

/// `s` with every entry equal to `x` left out, the others in order.
pub open spec fn without(s: Seq<usize>, x: usize) -> Seq<usize>
    decreases s.len(),
{
    if s.len() == 0 {
        s
    } else if s.last() == x {
        without(s.drop_last(), x)
    } else {
        without(s.drop_last(), x).push(s.last())
    }
}

/// How many entries of `s` are `true`.
pub open spec fn count_true(s: Seq<bool>) -> nat
    decreases s.len(),
{
    if s.len() == 0 {
        0
    } else {
        count_true(s.drop_last()) + if s.last() { 1nat } else { 0nat }
    }
}

/// Every entry of `s` is below `n`.
pub open spec fn all_below(s: Seq<usize>, n: nat) -> bool {
    forall|j: int| 0 <= j < s.len() ==> #[trigger] s[j] < n
}

pub proof fn lemma_count_push(s: Seq<usize>, x: usize, y: usize)
    ensures
        count_in(s.push(x), y) == count_in(s, y) + if x == y { 1nat } else { 0nat },
{
    assert(s.push(x).drop_last() =~= s);
}

pub proof fn lemma_count_take_succ(s: Seq<usize>, i: int, y: usize)
    requires
        0 <= i < s.len(),
    ensures
        count_in(s.take(i + 1), y) == count_in(s.take(i), y) + if s[i] == y { 1nat } else { 0nat },
{
    assert(s.take(i + 1).drop_last() =~= s.take(i));
}

pub proof fn lemma_count_take_le(s: Seq<usize>, i: int, y: usize)
    requires
        0 <= i <= s.len(),
    ensures
        count_in(s.take(i), y) <= count_in(s, y),
    decreases s.len() - i,
{
    if i < s.len() {
        lemma_count_take_succ(s, i, y);
        lemma_count_take_le(s, i + 1, y);
    } else {
        assert(s.take(i) =~= s);
    }
}

pub proof fn lemma_count_remove(s: Seq<usize>, p: int, y: usize)
    requires
        0 <= p < s.len(),
    ensures
        count_in(s.remove(p), y) + if s[p] == y { 1nat } else { 0nat } == count_in(s, y),
    decreases s.len(),
{
    if p == s.len() - 1 {
        assert(s.remove(p) =~= s.drop_last());
    } else {
        lemma_count_remove(s.drop_last(), p, y);
        assert(s.remove(p).drop_last() =~= s.drop_last().remove(p));
    }
}

pub proof fn lemma_without_remove(s: Seq<usize>, p: int, x: usize)
    requires
        0 <= p < s.len(),
        s[p] == x,
    ensures
        without(s.remove(p), x) == without(s, x),
    decreases s.len(),
{
    if p == s.len() - 1 {
        assert(s.remove(p) =~= s.drop_last());
    } else {
        lemma_without_remove(s.drop_last(), p, x);
        assert(s.remove(p).drop_last() =~= s.drop_last().remove(p));
    }
}

pub proof fn lemma_count_zero_without(s: Seq<usize>, x: usize)
    requires
        count_in(s, x) == 0,
    ensures
        without(s, x) == s,
    decreases s.len(),
{
    if s.len() > 0 {
        lemma_count_zero_without(s.drop_last(), x);
        assert(s.drop_last().push(s.last()) =~= s);
    }
}

pub proof fn lemma_count_without(s: Seq<usize>, x: usize, y: usize)
    ensures
        count_in(without(s, x), y) == if y == x { 0 } else { count_in(s, y) },
    decreases s.len(),
{
    if s.len() > 0 {
        lemma_count_without(s.drop_last(), x, y);
        if s.last() != x {
            lemma_count_push(without(s.drop_last(), x), s.last(), y);
        }
    }
}

pub proof fn lemma_without_below(s: Seq<usize>, x: usize, n: nat)
    requires
        all_below(s, n),
    ensures
        all_below(without(s, x), n),
    decreases s.len(),
{
    if s.len() > 0 {
        assert(all_below(s.drop_last(), n)) by {
            assert forall|j: int| 0 <= j < s.drop_last().len() implies #[trigger] s.drop_last()[j]
                < n by {
                assert(s.drop_last()[j] == s[j]);
            }
        }
        lemma_without_below(s.drop_last(), x, n);
        let w = without(s.drop_last(), x);
        if s.last() != x {
            assert forall|j: int| 0 <= j < w.push(s.last()).len() implies #[trigger] w.push(
                s.last(),
            )[j] < n by {
                if j < w.len() {
                    assert(w.push(s.last())[j] == w[j]);
                }
            }
        }
    }
}

/// An entry that is counted is an entry of the sequence.
pub proof fn lemma_count_positive(s: Seq<usize>, x: usize)
    requires
        count_in(s, x) > 0,
    ensures
        exists|j: int| 0 <= j < s.len() && s[j] == x,
    decreases s.len(),
{
    if s.last() != x {
        lemma_count_positive(s.drop_last(), x);
        let j = choose|j: int| 0 <= j < s.drop_last().len() && s.drop_last()[j] == x;
        assert(s[j] == x);
    } else {
        assert(s[s.len() - 1] == x);
    }
}

/// An entry of the sequence is counted.
pub proof fn lemma_entry_counted(s: Seq<usize>, j: int)
    requires
        0 <= j < s.len(),
    ensures
        count_in(s, s[j]) > 0,
    decreases s.len(),
{
    if j < s.len() - 1 {
        lemma_entry_counted(s.drop_last(), j);
    }
}

pub proof fn lemma_count_true_take_succ(s: Seq<bool>, i: int)
    requires
        0 <= i < s.len(),
    ensures
        count_true(s.take(i + 1)) == count_true(s.take(i)) + if s[i] { 1nat } else { 0nat },
{
    assert(s.take(i + 1).drop_last() =~= s.take(i));
}

pub proof fn lemma_count_true_update(s: Seq<bool>, i: int, b: bool)
    requires
        0 <= i < s.len(),
    ensures
        count_true(s.update(i, b)) + (if s[i] { 1nat } else { 0nat }) == count_true(s) + (if b {
            1nat
        } else {
            0nat
        }),
    decreases s.len(),
{
    if i < s.len() - 1 {
        lemma_count_true_update(s.drop_last(), i, b);
        assert(s.update(i, b).drop_last() =~= s.drop_last().update(i, b));
    } else {
        assert(s.update(i, b).drop_last() =~= s.drop_last());
    }
}

/// A flag sequence with a `true` entry counts it.
pub proof fn lemma_count_true_positive(s: Seq<bool>, i: int)
    requires
        0 <= i < s.len(),
        s[i],
    ensures
        count_true(s) > 0,
    decreases s.len(),
{
    if i < s.len() - 1 {
        lemma_count_true_positive(s.drop_last(), i);
    }
}

/// Fewer `true` entries, pointwise, count fewer; one lost entry counts strictly fewer.
pub proof fn lemma_count_true_mono(s: Seq<bool>, t: Seq<bool>)
    requires
        s.len() == t.len(),
        forall|i: int| 0 <= i < s.len() && #[trigger] t[i] ==> s[i],
    ensures
        count_true(t) <= count_true(s),
        (exists|i: int| 0 <= i < s.len() && s[i] && !t[i]) ==> count_true(t) < count_true(s),
    decreases s.len(),
{
    if s.len() > 0 {
        lemma_count_true_mono(s.drop_last(), t.drop_last());
        if exists|i: int| 0 <= i < s.len() && s[i] && !t[i] {
            let i = choose|i: int| 0 <= i < s.len() && s[i] && !t[i];
            if i < s.len() - 1 {
                assert(s.drop_last()[i] && !t.drop_last()[i]);
            }
        }
    }
}

/// A flag sequence with no `true` entry counts none.
pub proof fn lemma_count_true_none(s: Seq<bool>)
    requires
        forall|i: int| 0 <= i < s.len() ==> !s[i],
    ensures
        count_true(s) == 0,
    decreases s.len(),
{
    if s.len() > 0 {
        lemma_count_true_none(s.drop_last());
    }
}

pub proof fn lemma_take_contains_succ(s: Seq<usize>, j: int, x: usize)
    requires
        0 <= j < s.len(),
    ensures
        s.take(j + 1).contains(x) <==> (s.take(j).contains(x) || s[j] == x),
{
    if s.take(j + 1).contains(x) {
        let k = choose|k: int| 0 <= k < s.take(j + 1).len() && #[trigger] s.take(j + 1)[k] == x;
        if k < j {
            assert(s.take(j)[k] == x);
        }
    }
    if s.take(j).contains(x) {
        let k = choose|k: int| 0 <= k < s.take(j).len() && #[trigger] s.take(j)[k] == x;
        assert(s.take(j + 1)[k] == x);
    }
    if s[j] == x {
        assert(s.take(j + 1)[j] == x);
    }
}

} // verus!
