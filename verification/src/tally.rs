//! Counting entries of sequences, shared by the games' termination arguments.
use vstd::prelude::*;

verus! {

/// How many entries of `s` are false.
pub open spec fn count_false(s: Seq<bool>) -> int
    decreases s.len(),
{
    if s.len() == 0 { 0 } else { count_false(s.drop_last()) + if !s.last() { 1int } else { 0int } }
}

/// Setting a false entry lowers the count by one.
pub proof fn lemma_count_false_update(s: Seq<bool>, j: int)
    requires
        0 <= j < s.len(),
        !s[j],
    ensures
        count_false(s.update(j, true)) == count_false(s) - 1,
        0 <= count_false(s.update(j, true)),
    decreases s.len(),
{
    let t = s.update(j, true);
    if j < s.len() - 1 {
        assert(t.drop_last() =~= s.drop_last().update(j, true));
        lemma_count_false_update(s.drop_last(), j);
    } else {
        assert(t.drop_last() =~= s.drop_last());
        lemma_count_false_bounds(s.drop_last());
    }
}

/// The count lies between zero and the length.
pub proof fn lemma_count_false_bounds(s: Seq<bool>)
    ensures
        0 <= count_false(s) <= s.len(),
    decreases s.len(),
{
    if s.len() > 0 {
        lemma_count_false_bounds(s.drop_last());
    }
}

/// With no entry set, every entry counts.
pub proof fn lemma_count_false_all(s: Seq<bool>)
    requires
        forall|k: int| 0 <= k < s.len() ==> !#[trigger] s[k],
    ensures
        count_false(s) == s.len(),
    decreases s.len(),
{
    if s.len() > 0 {
        lemma_count_false_all(s.drop_last());
    }
}

} // verus!
