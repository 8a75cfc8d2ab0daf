//! Laws relating the operations of the sequence, stated over the views that
//! the operations' contracts use.

use vstd::prelude::*;

verus! {

/// Splitting and re-merging restores the sequence: the two parts that `split`
/// returns, `merge`d back in order, are element-wise the original sequence.
pub proof fn lemma_split_merge_round_trip<T>(s: Seq<T>, i: int)
    requires
        0 <= i <= s.len(),
    ensures
        s.subrange(0, i) + s.subrange(i, s.len() as int) == s,
{
    assert(s.subrange(0, i) + s.subrange(i, s.len() as int) =~= s);
}

/// Inserting `v` at position `i` puts `v` exactly there: the new sequence
/// reads `v` at `i`, keeps every earlier element in place, and shifts every
/// element from `i` on one position to the right.
pub proof fn lemma_insert_then_index<T>(s: Seq<T>, i: int, v: T)
    requires
        0 <= i <= s.len(),
    ensures
        s.insert(i, v)[i] == v,
        forall|j: int| 0 <= j < i ==> s.insert(i, v)[j] == s[j],
        forall|j: int| i <= j < s.len() ==> s.insert(i, v)[j + 1] == s[j],
{
}

/// Erasing at the position just inserted at undoes the insertion: the result
/// is element-wise the sequence before the insertion.
pub proof fn lemma_erase_undoes_insert<T>(s: Seq<T>, i: int, v: T)
    requires
        0 <= i < s.len(),
    ensures
        s.insert(i, v).remove(i) == s,
{
    assert(s.insert(i, v).remove(i) =~= s);
}

/// Inserting at the end is appending.
pub proof fn lemma_insert_at_end_is_push<T>(s: Seq<T>, v: T)
    ensures
        s.insert(s.len() as int, v) == s.push(v),
{
    assert(s.insert(s.len() as int, v) =~= s.push(v));
}

/// The sequence built by appending the values of `values` one after the
/// other, starting from the empty sequence.
pub open spec fn appended<T>(values: Seq<T>) -> Seq<T>
    decreases values.len(),
{
    if values.len() == 0 {
        Seq::empty()
    } else {
        appended(values.drop_last()).push(values.last())
    }
}

/// Bulk building equals repeated insertion at the end: appending the values
/// of a sequence in order, starting from empty, yields that sequence itself,
/// so `from_vec(values)` is element-wise the same as inserting each value at
/// the end one by one.
pub proof fn lemma_bulk_build_matches_appends<T>(values: Seq<T>)
    ensures
        appended(values) == values,
    decreases values.len(),
{
    if values.len() == 0 {
        assert(appended(values) =~= values);
    } else {
        lemma_bulk_build_matches_appends(values.drop_last());
        assert(appended(values) =~= values);
    }
}

} // verus!
