//! The weights of satisfied middle joins, with tables made to measure.

use vstd::prelude::*;
use num_bigint::BigUint;
use crate::big::big_value;
use crate::puzzle_combinations::{
    is_combination_table,
    is_factorial_table,
    is_permutation_table,
    lemma_count_below_sum,
    valid_count,
    valid_counts,
};
use crate::puzzle_structure::{lemma_seq_sum_nonnegative, seq_sum, sum_counts, JoinType};

verus! {

/// For colours with the given numbers of middle joins, the weight of having
/// `m` joins satisfied, for every `m` from none to all of them. Twice the
/// number of joins must fit the machine word.
///
/// The tables reach as far as the recurrence reads them: the permutations
/// up to the join ends of the largest colour, the combinations up to the
/// number of joins.
pub fn middle_joins(join_counts: Vec<usize>) -> (r: Vec<BigUint>)
    requires
        2 * seq_sum(join_counts@) < usize::MAX,
    ensures
        r@.len() == seq_sum(join_counts@) + 1,
        forall|m: int|
            0 <= m < r@.len() ==> big_value(#[trigger] r@[m]) == valid_count(
                JoinType::Middle,
                join_counts@,
                join_counts@.len(),
                m as nat,
            ),
{
    proof {
        lemma_seq_sum_nonnegative(join_counts@);
    }
    let total_joints: usize = sum_counts(&join_counts);
    let mut most: usize = 0;
    let mut k: usize = 0;
    while k < join_counts.len()
        invariant
            k <= join_counts@.len(),
            most <= total_joints,
            total_joints == seq_sum(join_counts@),
            forall|i: int| 0 <= i < k ==> #[trigger] join_counts@[i] <= most,
        decreases join_counts@.len() - k,
    {
        proof {
            lemma_count_below_sum(join_counts@, k as int);
        }
        if join_counts[k] > most {
            most = join_counts[k];
        }
        k = k + 1;
    }
    let p: Vec<Vec<BigUint>> = generate_permutations(2 * most);
    let c: Vec<Vec<BigUint>> = generate_combinations(total_joints);
    valid_counts(&join_counts, &p, &c, JoinType::Middle)
}

/// The factorials of `0` to `max_value`.
pub fn generate_factorials(max_value: usize) -> (r: Vec<BigUint>)
    requires
        max_value < usize::MAX,
    ensures
        r@.len() == max_value + 1,
        is_factorial_table(r@),
{
    crate::puzzle_combinations::generate_factorials(max_value)
}

/// The numbers of ordered choices of `k` out of `n`, for every `n` up to
/// `max_value` and every `k` up to `n`.
pub fn generate_permutations(max_value: usize) -> (r: Vec<Vec<BigUint>>)
    requires
        max_value < usize::MAX,
    ensures
        r@.len() == max_value + 1,
        is_permutation_table(r@),
{
    let factorial: Vec<BigUint> = generate_factorials(max_value);
    crate::puzzle_combinations::generate_permutations(&factorial)
}

/// The numbers of unordered choices of `k` out of `n`, for every `n` up to
/// `max_value` and every `k` up to `n`.
pub fn generate_combinations(max_value: usize) -> (r: Vec<Vec<BigUint>>)
    requires
        max_value < usize::MAX,
    ensures
        r@.len() == max_value + 1,
        is_combination_table(r@),
{
    let factorial: Vec<BigUint> = generate_factorials(max_value);
    crate::puzzle_combinations::generate_combinations(&factorial)
}

} // verus!
