use vstd::prelude::*;

verus! {

/// Sum of a sequence of weights, as an unbounded integer.
pub open spec fn seq_sum(s: Seq<u64>) -> int
    decreases s.len(),
{
    if s.len() == 0 {
        0
    } else {
        seq_sum(s.drop_last()) + s.last()
    }
}

pub proof fn lemma_seq_sum_push(s: Seq<u64>, x: u64)
    ensures
        seq_sum(s.push(x)) == seq_sum(s) + x,
{
    assert(s.push(x).drop_last() =~= s);
}

pub proof fn lemma_seq_sum_nonneg(s: Seq<u64>)
    ensures
        seq_sum(s) >= 0,
    decreases s.len(),
{
    if s.len() > 0 {
        lemma_seq_sum_nonneg(s.drop_last());
    }
}

/// Every element of a weight vector is at most the vector's sum.
pub proof fn lemma_seq_sum_element(s: Seq<u64>, k: int)
    requires
        0 <= k < s.len(),
    ensures
        s[k] <= seq_sum(s),
    decreases s.len(),
{
    lemma_seq_sum_nonneg(s.drop_last());
    if k < s.len() - 1 {
        lemma_seq_sum_element(s.drop_last(), k);
    }
}

/// Number of `true` entries in a visited-flag vector.
pub open spec fn count_true(s: Seq<bool>) -> int
    decreases s.len(),
{
    if s.len() == 0 {
        0
    } else {
        count_true(s.drop_last()) + if s.last() {
            1int
        } else {
            0int
        }
    }
}

pub proof fn lemma_count_true_bounds(s: Seq<bool>)
    ensures
        0 <= count_true(s) <= s.len(),
    decreases s.len(),
{
    if s.len() > 0 {
        lemma_count_true_bounds(s.drop_last());
    }
}

/// Marking an unmarked entry raises the count by one.
pub proof fn lemma_count_true_update(s: Seq<bool>, i: int)
    requires
        0 <= i < s.len(),
        !s[i],
    ensures
        count_true(s.update(i, true)) == count_true(s) + 1,
    decreases s.len(),
{
    let t = s.update(i, true);
    if i == s.len() - 1 {
        assert(t.drop_last() =~= s.drop_last());
    } else {
        assert(t.drop_last() =~= s.drop_last().update(i, true));
        lemma_count_true_update(s.drop_last(), i);
    }
}

/// A full count means every entry is marked.
pub proof fn lemma_count_true_all(s: Seq<bool>)
    requires
        count_true(s) == s.len(),
    ensures
        forall|k: int| 0 <= k < s.len() ==> s[k],
    decreases s.len(),
{
    if s.len() > 0 {
        lemma_count_true_bounds(s.drop_last());
        lemma_count_true_all(s.drop_last());
        assert(forall|k: int| 0 <= k < s.len() - 1 ==> s[k] == s.drop_last()[k]);
    }
}

/// A partial count means some entry is unmarked.
pub proof fn lemma_count_true_missing(s: Seq<bool>) -> (k: int)
    requires
        count_true(s) < s.len(),
    ensures
        0 <= k < s.len(),
        !s[k],
    decreases s.len(),
{
    if !s.last() {
        s.len() - 1
    } else {
        let k = lemma_count_true_missing(s.drop_last());
        k
    }
}

} // verus!
