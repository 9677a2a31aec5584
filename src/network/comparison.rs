//! Expansion of ranked matchups into pairwise comparisons.
use vstd::prelude::*;
use crate::common_types::{BaseInt, InputInt};

verus! {

/// Row `i` of the mould for matchups of size `s`: the pairs `(i, j)` with `i < j < s`.
pub open spec fn mould_row(i: int, s: int) -> Seq<(BaseInt, BaseInt)> {
    Seq::new((s - 1 - i) as nat, |d: int| (i as BaseInt, (i + 1 + d) as BaseInt))
}

/// The rows of the mould from row `i` on.
pub open spec fn mould_from(i: int, s: int) -> Seq<(BaseInt, BaseInt)>
    decreases s - i,
{
    if i >= s {
        seq![]
    } else {
        mould_row(i, s) + mould_from(i + 1, s)
    }
}

/// All pairs `(i, j)` with `0 <= i < j < s`, in lexicographic order.
pub open spec fn expansion_mould(s: int) -> Seq<(BaseInt, BaseInt)> {
    mould_from(0, s)
}

/// The comparisons that a mould draws from one ranked matchup.
pub open spec fn comparisons_of<T>(matchup: Seq<T>, mould: Seq<(BaseInt, BaseInt)>) -> Seq<(T, T)> {
    mould.map_values(|ij: (BaseInt, BaseInt)| (matchup[ij.0 as int], matchup[ij.1 as int]))
}

/// The comparisons of a list of ranked matchups, one matchup after the other.
pub open spec fn comparisons_of_all(
    matchups: Seq<Seq<InputInt>>,
    mould: Seq<(BaseInt, BaseInt)>,
) -> Seq<(InputInt, InputInt)>
    decreases matchups.len(),
{
    if matchups.len() == 0 {
        seq![]
    } else {
        comparisons_of_all(matchups.drop_last(), mould) + comparisons_of(matchups.last(), mould)
    }
}

/// The rows from `i` on hold `(s - i) * (s - i - 1) / 2` pairs.
pub proof fn lemma_mould_from_len(i: int, s: int)
    requires
        0 <= i <= s,
    ensures
        mould_from(i, s).len() == (s - i) * (s - i - 1) / 2,
    decreases s - i,
{
    if i < s {
        lemma_mould_from_len(i + 1, s);
        let r = mould_row(i, s).len() as int;
        let t = mould_from(i + 1, s).len() as int;
        assert(r + t == (s - i) * (s - i - 1) / 2) by (nonlinear_arith)
            requires
                i < s,
                r == s - 1 - i,
                t == (s - (i + 1)) * (s - (i + 1) - 1) / 2,
        ;
    } else {
        assert((s - i) * (s - i - 1) == 0) by (nonlinear_arith)
            requires
                i == s,
        ;
    }
}

/// A mould for matchups of size `s` holds `s * (s - 1) / 2` pairs.
pub proof fn lemma_mould_cardinality(s: BaseInt)
    ensures
        expansion_mould(s as int).len() == s * (s - 1) / 2,
{
    lemma_mould_from_len(0, s as int);
}

/// Every pair of a mould indexes a matchup of its size.
pub proof fn lemma_mould_from_bounds(i: int, s: int)
    requires
        0 <= i <= s,
        s <= BaseInt::MAX,
    ensures
        forall|k: int|
            0 <= k < mould_from(i, s).len() ==> {
                &&& (#[trigger] mould_from(i, s)[k]).0 < mould_from(i, s)[k].1
                &&& mould_from(i, s)[k].1 < s
            },
    decreases s - i,
{
    if i < s {
        lemma_mould_from_bounds(i + 1, s);
        let row = mould_row(i, s);
        let rest = mould_from(i + 1, s);
        assert forall|k: int| 0 <= k < mould_from(i, s).len() implies {
            &&& (#[trigger] mould_from(i, s)[k]).0 < mould_from(i, s)[k].1
            &&& mould_from(i, s)[k].1 < s
        } by {
            if k >= row.len() {
                assert(mould_from(i, s)[k] == rest[k - row.len()]);
            }
        }
    }
}

/// Generate the pairwise combinations of indices for matchups of `size`.
pub fn generate_expansion_mould_for(size: BaseInt) -> (r: Vec<(BaseInt, BaseInt)>)
    ensures
        r@ == expansion_mould(size as int),
{
    let mut comparison_indices: Vec<(BaseInt, BaseInt)> = Vec::new();
    let mut left_pointer: BaseInt = 0;
    while left_pointer < size
        invariant
            left_pointer <= size,
            comparison_indices@ + mould_from(left_pointer as int, size as int) == expansion_mould(
                size as int,
            ),
        decreases size - left_pointer,
    {
        let ghost before = comparison_indices@;
        let ghost row = mould_row(left_pointer as int, size as int);
        let mut right_pointer: BaseInt = left_pointer + 1;
        while right_pointer < size
            invariant
                left_pointer < right_pointer <= size,
                row == mould_row(left_pointer as int, size as int),
                comparison_indices@ == before + row.take(right_pointer - left_pointer - 1),
            decreases size - right_pointer,
        {
            comparison_indices.push((left_pointer, right_pointer));
            right_pointer = right_pointer + 1;
            assert(comparison_indices@ =~= before + row.take(right_pointer - left_pointer - 1));
        }
        assert(row.take(right_pointer - left_pointer - 1) =~= row);
        assert(comparison_indices@ + mould_from(left_pointer + 1, size as int) =~= before
            + mould_from(left_pointer as int, size as int));
        left_pointer = left_pointer + 1;
    }
    assert(comparison_indices@ =~= expansion_mould(size as int));
    comparison_indices
}

/// Retrieve the elements of a ranked matchup pair by pair, as the mould indexes them.
pub fn convert_to_comparisons<T: Copy>(matchup_result: &[T], mould: &[(BaseInt, BaseInt)]) -> (r: Vec<(T, T)>)
    requires
        forall|k: int|
            0 <= k < mould@.len() ==> (#[trigger] mould@[k]).0 < matchup_result@.len()
                && mould@[k].1 < matchup_result@.len(),
    ensures
        r@ == comparisons_of(matchup_result@, mould@),
{
    let mut comparisons: Vec<(T, T)> = Vec::new();
    let mut k: usize = 0;
    while k < mould.len()
        invariant
            k <= mould@.len(),
            forall|k: int|
                0 <= k < mould@.len() ==> (#[trigger] mould@[k]).0 < matchup_result@.len()
                    && mould@[k].1 < matchup_result@.len(),
            comparisons@ == comparisons_of(matchup_result@, mould@).take(k as int),
        decreases mould@.len() - k,
    {
        let (left, right) = mould[k];
        comparisons.push((matchup_result[left as usize], matchup_result[right as usize]));
        k = k + 1;
        assert(comparisons@ =~= comparisons_of(matchup_result@, mould@).take(k as int));
    }
    assert(comparisons@ =~= comparisons_of(matchup_result@, mould@));
    comparisons
}

/// The directed comparisons of a list of ranked matchups of one size: every
/// matchup, best first, is expanded by the mould of that size.
pub fn comparisons_from(ranked_matchups: &Vec<Vec<InputInt>>) -> (r: Vec<(InputInt, InputInt)>)
    requires
        ranked_matchups@.len() > 0 ==> ranked_matchups@[0]@.len() <= BaseInt::MAX,
        forall|i: int|
            0 <= i < ranked_matchups@.len() ==> (#[trigger] ranked_matchups@[i])@.len()
                == ranked_matchups@[0]@.len(),
    ensures
        ranked_matchups@.len() > 0 ==> r@ == comparisons_of_all(
            ranked_matchups@.map_values(|m: Vec<InputInt>| m@),
            expansion_mould(ranked_matchups@[0]@.len() as int),
        ),
        ranked_matchups@.len() == 0 ==> r@.len() == 0,
{
    let mut comparisons: Vec<(InputInt, InputInt)> = Vec::new();
    if ranked_matchups.len() == 0 {
        return comparisons;
    }
    let size = ranked_matchups[0].len() as BaseInt;
    let mould = generate_expansion_mould_for(size);
    let ghost all = ranked_matchups@.map_values(|m: Vec<InputInt>| m@);
    proof {
        lemma_mould_from_bounds(0, size as int);
    }
    let mut i: usize = 0;
    while i < ranked_matchups.len()
        invariant
            i <= ranked_matchups@.len(),
            ranked_matchups@.len() > 0,
            size == ranked_matchups@[0]@.len(),
            mould@ == expansion_mould(size as int),
            all == ranked_matchups@.map_values(|m: Vec<InputInt>| m@),
            forall|i: int|
                0 <= i < ranked_matchups@.len() ==> (#[trigger] ranked_matchups@[i])@.len()
                    == ranked_matchups@[0]@.len(),
            forall|k: int|
                0 <= k < mould@.len() ==> (#[trigger] mould@[k]).0 < mould@[k].1 && mould@[k].1
                    < size,
            comparisons@ == comparisons_of_all(all.take(i as int), mould@),
        decreases ranked_matchups@.len() - i,
    {
        let expanded = convert_to_comparisons(ranked_matchups[i].as_slice(), mould.as_slice());
        let mut e: usize = 0;
        let ghost before = comparisons@;
        while e < expanded.len()
            invariant
                e <= expanded@.len(),
                comparisons@ == before + expanded@.take(e as int),
            decreases expanded@.len() - e,
        {
            comparisons.push(expanded[e]);
            e = e + 1;
            assert(comparisons@ =~= before + expanded@.take(e as int));
        }
        assert(all.take(i + 1).drop_last() =~= all.take(i as int));
        assert(expanded@.take(e as int) =~= expanded@);
        i = i + 1;
    }
    assert(all.take(i as int) =~= all);
    comparisons
}

} // verus!
