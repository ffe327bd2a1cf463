//! Exact combinatorial weights of a puzzle: permutation and combination
//! tables, and the distribution of satisfied joins over the colours.

use vstd::prelude::*;
use num_bigint::BigUint;
use crate::big::{
    big_add,
    big_clone,
    big_div,
    big_from,
    big_is_zero,
    big_mul,
    big_pow,
    big_rem,
    big_value,
};
use crate::puzzle_structure::{
    lemma_seq_sum_nonnegative,
    lemma_seq_sum_prefix,
    seq_sum,
    sum_counts,
    JoinType,
    PuzzleStructure,
};
use vstd::arithmetic::power::pow;

verus! {

/// `n!`
pub open spec fn factorial(n: nat) -> nat
    decreases n,
{
    if n == 0 {
        1
    } else {
        n * factorial((n - 1) as nat)
    }
}

/// Number of ordered choices of `k` out of `n`: `n! / (n - k)!`.
pub open spec fn permutations(n: nat, k: nat) -> nat {
    factorial(n) / factorial((n - k) as nat)
}

/// Number of unordered choices of `k` out of `n`: `n! / (k! (n - k)!)`.
pub open spec fn combinations(n: nat, k: nat) -> nat {
    factorial(n) / (factorial(k) * factorial((n - k) as nat))
}

/// A factorial is never zero.
pub proof fn lemma_factorial_positive(n: nat)
    ensures
        factorial(n) > 0,
    decreases n,
{
    if n > 0 {
        lemma_factorial_positive((n - 1) as nat);
        assert(n * factorial((n - 1) as nat) > 0) by (nonlinear_arith)
            requires
                n > 0,
                factorial((n - 1) as nat) > 0,
        ;
    }
}

/// `table` holds the factorials of `0` to its last index.
pub open spec fn is_factorial_table(table: Seq<BigUint>) -> bool {
    &&& table.len() >= 1
    &&& forall|i: int| 0 <= i < table.len() ==> big_value(#[trigger] table[i]) == factorial(i as nat)
}

/// The factorials of `0` to `max_value`.
pub fn generate_factorials(max_value: usize) -> (r: Vec<BigUint>)
    requires
        max_value < usize::MAX,
    ensures
        r@.len() == max_value + 1,
        is_factorial_table(r@),
{
    let mut table: Vec<BigUint> = Vec::new();
    table.push(big_from(1));
    let mut index: usize = 1;
    while index <= max_value
        invariant
            max_value < usize::MAX,
            1 <= index <= max_value + 1,
            table@.len() == index,
            forall|i: int|
                0 <= i < index ==> big_value(#[trigger] table@[i]) == factorial(i as nat),
        decreases max_value + 1 - index,
    {
        let next = big_mul(&table[index - 1], &big_from(index));
        assert(big_value(next) == factorial(index as nat)) by {
            assert(factorial((index - 1) as nat) * index == index * factorial(
                (index - 1) as nat,
            )) by (nonlinear_arith);
        }
        table.push(next);
        index = index + 1;
    }
    table
}

/// Row `n` of `table` holds the `n + 1` numbers of ordered choices out of
/// `n`.
pub open spec fn is_permutation_table(table: Seq<Vec<BigUint>>) -> bool {
    &&& forall|n: int| 0 <= n < table.len() ==> (#[trigger] table[n])@.len() == n + 1
    &&& forall|n: int, k: int|
        0 <= k <= n < table.len() ==> big_value(#[trigger] table[n]@[k]) == permutations(
            n as nat,
            k as nat,
        )
}

/// Row `n` of `table` holds the `n + 1` numbers of unordered choices out of
/// `n`.
pub open spec fn is_combination_table(table: Seq<Vec<BigUint>>) -> bool {
    &&& forall|n: int| 0 <= n < table.len() ==> (#[trigger] table[n])@.len() == n + 1
    &&& forall|n: int, k: int|
        0 <= k <= n < table.len() ==> big_value(#[trigger] table[n]@[k]) == combinations(
            n as nat,
            k as nat,
        )
}

/// The numbers of ordered choices of `k` out of `n`, for every `n` that the
/// factorial table reaches and every `k` up to `n`.
pub fn generate_permutations(factorials: &Vec<BigUint>) -> (r: Vec<Vec<BigUint>>)
    requires
        is_factorial_table(factorials@),
    ensures
        r@.len() == factorials@.len(),
        is_permutation_table(r@),
{
    let max_value: usize = factorials.len() - 1;
    let mut table: Vec<Vec<BigUint>> = Vec::new();
    let mut n: usize = 0;
    while n <= max_value
        invariant
            is_factorial_table(factorials@),
            max_value == factorials@.len() - 1,
            max_value < usize::MAX,
            n <= max_value + 1,
            table@.len() == n,
            is_permutation_table(table@),
        decreases max_value + 1 - n,
    {
        let mut row: Vec<BigUint> = Vec::new();
        let mut k: usize = 0;
        while k <= n
            invariant
                is_factorial_table(factorials@),
                n < factorials@.len(),
                n < usize::MAX,
                k <= n + 1,
                row@.len() == k,
                forall|i: int|
                    0 <= i < k ==> big_value(#[trigger] row@[i]) == permutations(
                        n as nat,
                        i as nat,
                    ),
            decreases n + 1 - k,
        {
            proof {
                lemma_factorial_positive((n - k) as nat);
            }
            row.push(big_div(&factorials[n], &factorials[n - k]));
            k = k + 1;
        }
        table.push(row);
        n = n + 1;
    }
    table
}

/// The numbers of unordered choices of `k` out of `n`, for every `n` that
/// the factorial table reaches and every `k` up to `n`.
pub fn generate_combinations(factorials: &Vec<BigUint>) -> (r: Vec<Vec<BigUint>>)
    requires
        is_factorial_table(factorials@),
    ensures
        r@.len() == factorials@.len(),
        is_combination_table(r@),
{
    let max_value: usize = factorials.len() - 1;
    let mut table: Vec<Vec<BigUint>> = Vec::new();
    let mut n: usize = 0;
    while n <= max_value
        invariant
            is_factorial_table(factorials@),
            max_value == factorials@.len() - 1,
            max_value < usize::MAX,
            n <= max_value + 1,
            table@.len() == n,
            is_combination_table(table@),
        decreases max_value + 1 - n,
    {
        let mut row: Vec<BigUint> = Vec::new();
        let mut k: usize = 0;
        while k <= n
            invariant
                is_factorial_table(factorials@),
                n < factorials@.len(),
                n < usize::MAX,
                k <= n + 1,
                row@.len() == k,
                forall|i: int|
                    0 <= i < k ==> big_value(#[trigger] row@[i]) == combinations(
                        n as nat,
                        i as nat,
                    ),
            decreases n + 1 - k,
        {
            proof {
                let a = factorial(n as nat) as int;
                let b = factorial((n - k) as nat) as int;
                let d = factorial(k as nat) as int;
                lemma_factorial_positive((n - k) as nat);
                lemma_factorial_positive(k as nat);
                vstd::arithmetic::div_mod::lemma_div_denominator(a, b, d);
                assert(b * d == d * b) by (nonlinear_arith);
            }
            let ordered = big_div(&factorials[n], &factorials[n - k]);
            row.push(big_div(&ordered, &factorials[k]));
            k = k + 1;
        }
        table.push(row);
        n = n + 1;
    }
    table
}

/// Nothing can be chosen in exactly one way, whether order counts or not,
/// and so can everything where order does not count.
pub proof fn lemma_choice_ends(n: nat)
    ensures
        combinations(n, 0) == 1,
        combinations(n, n) == 1,
        permutations(n, 0) == 1,
{
    lemma_factorial_positive(n);
    let f = factorial(n) as int;
    vstd::arithmetic::div_mod::lemma_div_basics(f);
    assert(1 * f == f && f * 1 == f) by (nonlinear_arith);
    assert(factorial(0) == 1);
}

/// In how many ways a colour with `q` joins can take part in `j` satisfied
/// joins. A middle join has two ends of its own colour to order, so the
/// `2 j` ends are chosen in order out of `2 q`; a border join has one end on
/// each side, so `j` ends are chosen in order out of `q` on either side.
pub open spec fn colour_weight(kind: JoinType, q: nat, j: nat) -> nat {
    match kind {
        JoinType::Middle => permutations(2 * q, 2 * j),
        JoinType::Border => permutations(q, j) * permutations(q, j),
    }
}

/// The part of `valid_count(kind, quotas, i, m)` in which colour `i` takes
/// fewer than `n` of the `m` satisfied joins.
pub open spec fn valid_sum(kind: JoinType, quotas: Seq<usize>, i: nat, m: nat, n: nat) -> nat
    decreases i, n,
{
    if i == 0 || n == 0 {
        0
    } else {
        let j = (n - 1) as nat;
        valid_sum(kind, quotas, i, m, j) + (if j <= m {
            valid_count(kind, quotas, (i - 1) as nat, (m - j) as nat) * colour_weight(
                kind,
                quotas[i - 1] as nat,
                j,
            ) * combinations(m, j)
        } else {
            0
        })
    }
}

/// The weight of having `m` joins satisfied among the first `i` colours:
/// nothing but zero joins with no colour, and with colour `i` the sum over
/// the number `j` of joins that it takes, up to its quota and up to `m`, of
/// the weight of the rest among the colours before it, times the weight of
/// the colour, times the number of ways to pick its joins out of the `m`.
pub open spec fn valid_count(kind: JoinType, quotas: Seq<usize>, i: nat, m: nat) -> nat
    decreases
            i,
            (if i == 0 {
                0nat
            } else {
                (quotas[i - 1] + 2) as nat
            }),
{
    if i == 0 {
        if m == 0 {
            1
        } else {
            0
        }
    } else {
        valid_sum(kind, quotas, i, m, (quotas[i - 1] + 1) as nat)
    }
}

/// With one colour, the part of the weight in which it takes fewer than `n`
/// joins is nothing until `n` passes `m`: the colour must take all `m`.
proof fn lemma_single_colour_sum(kind: JoinType, q: usize, m: nat, n: nat)
    ensures
        valid_sum(kind, seq![q], 1, m, n) == (if n <= m {
            0
        } else {
            colour_weight(kind, q as nat, m) * combinations(m, m)
        }),
    decreases n,
{
    if n > 0 {
        let j = (n - 1) as nat;
        lemma_single_colour_sum(kind, q, m, j);
        let quotas = seq![q];
        assert(quotas[0] == q);
        if j < m {
            assert(valid_count(kind, quotas, 0, (m - j) as nat) == 0);
            assert(0 * colour_weight(kind, q as nat, j) * combinations(m, j) == 0)
                by (nonlinear_arith);
        } else if j == m {
            assert(valid_count(kind, quotas, 0, 0) == 1);
            assert(1 * colour_weight(kind, q as nat, m) * combinations(m, m) == colour_weight(
                kind,
                q as nat,
                m,
            ) * combinations(m, m)) by (nonlinear_arith);
        }
    }
}

/// With a single colour there is no freedom of choice: the weight of `m`
/// satisfied joins is the weight of that colour taking all of them.
pub proof fn lemma_single_colour(kind: JoinType, q: usize, m: nat)
    requires
        m <= q,
    ensures
        valid_count(kind, seq![q], 1, m) == colour_weight(kind, q as nat, m) * combinations(m, m),
        valid_count(kind, seq![q], 1, m) == colour_weight(kind, q as nat, m),
{
    let quotas = seq![q];
    assert(quotas[0] == q);
    lemma_single_colour_sum(kind, q, m, (q + 1) as nat);
    lemma_choice_ends(m);
    assert(colour_weight(kind, q as nat, m) * 1 == colour_weight(kind, q as nat, m))
        by (nonlinear_arith);
}

/// How far the permutation table must reach for a colour with `q` joins.
pub open spec fn weight_reach(kind: JoinType, q: int) -> int {
    match kind {
        JoinType::Middle => 2 * q,
        JoinType::Border => q,
    }
}

/// No count is above the sum of all counts.
pub proof fn lemma_count_below_sum(s: Seq<usize>, k: int)
    requires
        0 <= k < s.len(),
    ensures
        s[k] <= seq_sum(s),
{
    lemma_seq_sum_prefix(s, k);
}

/// The weights of `0` to `total` satisfied joins of one kind, for colours
/// with the given numbers of joins; `total` is the sum of these numbers.
/// The combination table must reach `total`, the permutation table the
/// number of join ends of every colour.
pub fn valid_counts(
    join_counts: &Vec<usize>,
    p: &Vec<Vec<BigUint>>,
    c: &Vec<Vec<BigUint>>,
    kind: JoinType,
) -> (r: Vec<BigUint>)
    requires
        is_permutation_table(p@),
        is_combination_table(c@),
        seq_sum(join_counts@) < c@.len(),
        forall|k: int|
            0 <= k < join_counts@.len() ==> weight_reach(kind, #[trigger] join_counts@[k] as int)
                < p@.len(),
    ensures
        r@.len() == seq_sum(join_counts@) + 1,
        forall|m: int|
            0 <= m < r@.len() ==> big_value(#[trigger] r@[m]) == valid_count(
                kind,
                join_counts@,
                join_counts@.len(),
                m as nat,
            ),
{
    let ghost quotas = join_counts@;
    let join_types: usize = join_counts.len();
    let c_len: usize = c.len();
    let p_len: usize = p.len();
    let total_joints: usize = sum_counts(join_counts);
    let mut row: Vec<BigUint> = Vec::new();
    row.push(big_from(1));
    let mut m: usize = 1;
    while m <= total_joints
        invariant
            total_joints < usize::MAX,
            1 <= m <= total_joints + 1,
            row@.len() == m,
            forall|k: int|
                0 <= k < m ==> big_value(#[trigger] row@[k]) == valid_count(
                    kind,
                    quotas,
                    0,
                    k as nat,
                ),
        decreases total_joints + 1 - m,
    {
        row.push(big_from(0));
        m = m + 1;
    }
    let mut done: usize = 0;
    while done < join_types
        invariant
            quotas == join_counts@,
            join_types == quotas.len(),
            c_len == c@.len(),
            p_len == p@.len(),
            total_joints == seq_sum(quotas),
            is_permutation_table(p@),
            is_combination_table(c@),
            total_joints < c_len,
            forall|k: int|
                0 <= k < quotas.len() ==> weight_reach(kind, #[trigger] quotas[k] as int) < p_len,
            done <= join_types,
            row@.len() == total_joints + 1,
            forall|k: int|
                0 <= k <= total_joints ==> big_value(#[trigger] row@[k]) == valid_count(
                    kind,
                    quotas,
                    done as nat,
                    k as nat,
                ),
        decreases join_types - done,
    {
        let q: usize = join_counts[done];
        let ghost i = done + 1;
        proof {
            lemma_seq_sum_prefix(quotas, done as int);
            assert(q <= total_joints);
        }
        let mut next: Vec<BigUint> = Vec::new();
        let mut m: usize = 0;
        while m <= total_joints
            invariant
                quotas == join_counts@,
                c_len == c@.len(),
                p_len == p@.len(),
                is_permutation_table(p@),
                is_combination_table(c@),
                total_joints < c_len,
                weight_reach(kind, q as int) < p_len,
                1 <= i <= quotas.len(),
                q == quotas[i - 1],
                q <= total_joints,
                m <= total_joints + 1,
                row@.len() == total_joints + 1,
                forall|k: int|
                    0 <= k <= total_joints ==> big_value(#[trigger] row@[k]) == valid_count(
                        kind,
                        quotas,
                        (i - 1) as nat,
                        k as nat,
                    ),
                next@.len() == m,
                forall|k: int|
                    0 <= k < m ==> big_value(#[trigger] next@[k]) == valid_count(
                        kind,
                        quotas,
                        i as nat,
                        k as nat,
                    ),
            decreases total_joints + 1 - m,
        {
            let mut acc: BigUint = big_from(0);
            let mut j: usize = 0;
            while j <= q
                invariant
                    c_len == c@.len(),
                    p_len == p@.len(),
                    is_permutation_table(p@),
                    is_combination_table(c@),
                    total_joints < c_len,
                    weight_reach(kind, q as int) < p_len,
                    1 <= i <= quotas.len(),
                    q == quotas[i - 1],
                    q <= total_joints,
                    m <= total_joints,
                    j <= q + 1,
                    row@.len() == total_joints + 1,
                    forall|k: int|
                        0 <= k <= total_joints ==> big_value(#[trigger] row@[k]) == valid_count(
                            kind,
                            quotas,
                            (i - 1) as nat,
                            k as nat,
                        ),
                    big_value(acc) == valid_sum(kind, quotas, i as nat, m as nat, j as nat),
                decreases q + 1 - j,
            {
                if j <= m {
                    let weight: BigUint = match kind {
                        JoinType::Middle => big_clone(&p[2 * q][2 * j]),
                        JoinType::Border => big_mul(&p[q][j], &p[q][j]),
                    };
                    let term = big_mul(&big_mul(&row[m - j], &weight), &c[m][j]);
                    acc = big_add(&acc, &term);
                }
                j = j + 1;
            }
            next.push(acc);
            m = m + 1;
        }
        row = next;
        done = done + 1;
    }
    row
}

/// The greatest common divisor, by Euclid's rule.
pub open spec fn gcd(a: nat, b: nat) -> nat
    decreases b,
{
    if b == 0 {
        a
    } else {
        gcd(b, a % b)
    }
}

/// The greatest common divisor of a number and a positive number is
/// positive.
pub proof fn lemma_gcd_positive(a: nat, b: nat)
    requires
        b > 0,
    ensures
        gcd(a, b) > 0,
    decreases b,
{
    if a % b != 0 {
        lemma_gcd_positive(b, a % b);
    } else {
        assert(gcd(b, 0) == b);
    }
}

/// A sum of a multiple of `b` and of `r` is a multiple of what divides both.
proof fn lemma_divides_sum(a: int, b: int, q: int, r: int, d: int)
    requires
        d > 0,
        b % d == 0,
        r % d == 0,
        a == b * q + r,
    ensures
        a % d == 0,
{
    vstd::arithmetic::div_mod::lemma_mul_mod_noop_general(b, q, d);
    assert((0 * q) % d == 0) by {
        assert(0 * q == 0);
        vstd::arithmetic::div_mod::lemma_small_mod(0, d as nat);
    }
    vstd::arithmetic::div_mod::lemma_add_mod_noop(b * q, r, d);
}

/// The greatest common divisor divides both numbers.
pub proof fn lemma_gcd_divides(a: nat, b: nat)
    requires
        a > 0 || b > 0,
    ensures
        gcd(a, b) > 0,
        a % gcd(a, b) == 0,
        b % gcd(a, b) == 0,
    decreases b,
{
    if b == 0 {
        vstd::arithmetic::div_mod::lemma_mod_self_0(a as int);
    } else {
        let g = gcd(b, a % b);
        lemma_gcd_divides(b, a % b);
        vstd::arithmetic::div_mod::lemma_fundamental_div_mod(a as int, b as int);
        lemma_divides_sum(a as int, b as int, (a / b) as int, (a % b) as int, g as int);
    }
}

/// Whatever divides both numbers divides their greatest common divisor.
pub proof fn lemma_gcd_greatest(a: nat, b: nat, d: nat)
    requires
        d > 0,
        a % d == 0,
        b % d == 0,
    ensures
        gcd(a, b) % d == 0,
    decreases b,
{
    if b != 0 {
        vstd::arithmetic::div_mod::lemma_fundamental_div_mod(a as int, b as int);
        let q = (a / b) as int;
        assert((a % b) as int == b * (-q) + a) by (nonlinear_arith)
            requires
                a == b * q + (a % b),
        ;
        lemma_divides_sum((a % b) as int, b as int, -q, a as int, d as int);
        lemma_gcd_greatest(b, a % b, d);
    }
}

/// A ratio in lowest terms: both numbers divided by their greatest common
/// divisor. A ratio with denominator zero stays as it is.
pub open spec fn reduced(a: nat, b: nat) -> (nat, nat) {
    if b == 0 {
        (a, b)
    } else {
        (a / gcd(a, b), b / gcd(a, b))
    }
}

/// A number that `g` divides is `g` times its quotient by `g`.
proof fn lemma_exact_quotient(a: nat, g: nat)
    requires
        g > 0,
        a % g == 0,
    ensures
        a == g * (a / g),
{
    vstd::arithmetic::div_mod::lemma_fundamental_div_mod(a as int, g as int);
}

/// Reducing a ratio does not change what it is worth: the reduced numbers,
/// times the greatest common divisor, are the numbers themselves.
pub proof fn lemma_reduced_same_ratio(a: nat, b: nat)
    requires
        b > 0,
    ensures
        reduced(a, b).0 * gcd(a, b) == a,
        reduced(a, b).1 * gcd(a, b) == b,
        reduced(a, b).1 > 0,
        reduced(a, b).0 * b == a * reduced(a, b).1,
{
    let g = gcd(a, b);
    lemma_gcd_divides(a, b);
    lemma_exact_quotient(a, g);
    lemma_exact_quotient(b, g);
    let qa = a / g;
    let qb = b / g;
    assert(qa * g == a && qb * g == b) by (nonlinear_arith)
        requires
            a == g * qa,
            b == g * qb,
    ;
    assert(qb > 0) by (nonlinear_arith)
        requires
            b == g * qb,
            b > 0,
            g > 0,
            qb >= 0,
    ;
    assert(qa * b == a * qb) by (nonlinear_arith)
        requires
            a == g * qa,
            b == g * qb,
    ;
}

/// A reduced ratio is in lowest terms: its two numbers have no common
/// divisor but one.
pub proof fn lemma_reduced_lowest(a: nat, b: nat)
    requires
        b > 0,
    ensures
        gcd(reduced(a, b).0, reduced(a, b).1) == 1,
{
    let g = gcd(a, b);
    let qa = reduced(a, b).0;
    let qb = reduced(a, b).1;
    lemma_reduced_same_ratio(a, b);
    lemma_gcd_divides(a, b);
    let d = gcd(qa, qb);
    lemma_gcd_divides(qa, qb);
    lemma_exact_quotient(qa, d);
    lemma_exact_quotient(qb, d);
    let m = g * d;
    assert(m > 0) by (nonlinear_arith)
        requires
            m == g * d,
            g > 0,
            d > 0,
    ;
    assert(a == m * (qa / d)) by (nonlinear_arith)
        requires
            qa * g == a,
            qa == d * (qa / d),
            m == g * d,
    ;
    assert(b == m * (qb / d)) by (nonlinear_arith)
        requires
            qb * g == b,
            qb == d * (qb / d),
            m == g * d,
    ;
    assert(a % m == 0) by {
        vstd::arithmetic::div_mod::lemma_mod_multiples_basic((qa / d) as int, m as int);
        assert((qa / d) * m == m * (qa / d)) by (nonlinear_arith);
    }
    assert(b % m == 0) by {
        vstd::arithmetic::div_mod::lemma_mod_multiples_basic((qb / d) as int, m as int);
        assert((qb / d) * m == m * (qb / d)) by (nonlinear_arith);
    }
    lemma_gcd_greatest(a, b, m);
    if d > 1 {
        assert(g < m) by (nonlinear_arith)
            requires
                m == g * d,
                g > 0,
                d > 1,
        ;
        vstd::arithmetic::div_mod::lemma_small_mod(g, m);
    }
}

/// The greatest common divisor of two numbers.
pub fn greatest_common_divisor(a: &BigUint, b: &BigUint) -> (r: BigUint)
    ensures
        big_value(r) == gcd(big_value(*a), big_value(*b)),
{
    let mut x: BigUint = big_clone(a);
    let mut y: BigUint = big_clone(b);
    while !big_is_zero(&y)
        invariant
            gcd(big_value(x), big_value(y)) == gcd(big_value(*a), big_value(*b)),
        decreases big_value(y),
    {
        let rest = big_rem(&x, &y);
        x = y;
        y = rest;
    }
    x
}

/// The ratio in lowest terms.
pub fn reduce_ratio(numerator: BigUint, denominator: BigUint) -> (r: (BigUint, BigUint))
    ensures
        (big_value(r.0), big_value(r.1)) == reduced(big_value(numerator), big_value(denominator)),
{
    if big_is_zero(&denominator) {
        return (numerator, denominator);
    }
    let divisor = greatest_common_divisor(&numerator, &denominator);
    proof {
        lemma_gcd_positive(big_value(numerator), big_value(denominator));
    }
    (big_div(&numerator, &divisor), big_div(&denominator, &divisor))
}

/// The ratio of entry `m` of a distribution of middle joins.
pub open spec fn middle_ratio(quotas: Seq<usize>, m: nat) -> (nat, nat) {
    reduced(
        valid_count(JoinType::Middle, quotas, quotas.len(), m),
        permutations((2 * seq_sum(quotas)) as nat, 2 * m),
    )
}

/// The ratio of entry `b` of a distribution of border joins.
pub open spec fn border_ratio(quotas: Seq<usize>, b: nat) -> (nat, nat) {
    reduced(
        valid_count(JoinType::Border, quotas, quotas.len(), b),
        permutations(seq_sum(quotas) as nat, b) * permutations(seq_sum(quotas) as nat, b),
    )
}

/// For every number of satisfied middle joins, from none to all, the weight
/// of the ways in which the colours can share them, against the number of
/// ways to order that many join ends regardless of colour, in lowest terms.
pub fn middle_joins(join_counts: &Vec<usize>, p: &Vec<Vec<BigUint>>, c: &Vec<Vec<BigUint>>) -> (r:
    Vec<(BigUint, BigUint)>)
    requires
        is_permutation_table(p@),
        is_combination_table(c@),
        seq_sum(join_counts@) < c@.len(),
        2 * seq_sum(join_counts@) < p@.len(),
    ensures
        r@.len() == seq_sum(join_counts@) + 1,
        forall|m: int|
            0 <= m < r@.len() ==> (big_value((#[trigger] r@[m]).0), big_value(r@[m].1))
                == middle_ratio(join_counts@, m as nat),
{
    proof {
        lemma_seq_sum_nonnegative(join_counts@);
        assert forall|k: int| 0 <= k < join_counts@.len() implies weight_reach(
            JoinType::Middle,
            #[trigger] join_counts@[k] as int,
        ) < p@.len() by {
            lemma_count_below_sum(join_counts@, k);
        }
    }
    let p_len: usize = p.len();
    let valid = valid_counts(join_counts, p, c, JoinType::Middle);
    let total_joints: usize = valid.len() - 1;
    let mut ratios: Vec<(BigUint, BigUint)> = Vec::new();
    let mut m: usize = 0;
    while m <= total_joints
        invariant
            is_permutation_table(p@),
            p_len == p@.len(),
            total_joints == seq_sum(join_counts@),
            2 * total_joints < p_len,
            valid@.len() == total_joints + 1,
            forall|k: int|
                0 <= k < valid@.len() ==> big_value(#[trigger] valid@[k]) == valid_count(
                    JoinType::Middle,
                    join_counts@,
                    join_counts@.len(),
                    k as nat,
                ),
            m <= total_joints + 1,
            ratios@.len() == m,
            forall|k: int|
                0 <= k < m ==> (big_value((#[trigger] ratios@[k]).0), big_value(ratios@[k].1))
                    == middle_ratio(join_counts@, k as nat),
        decreases total_joints + 1 - m,
    {
        let ratio = reduce_ratio(big_clone(&valid[m]), big_clone(&p[2 * total_joints][2 * m]));
        ratios.push(ratio);
        m = m + 1;
    }
    ratios
}

/// For every number of satisfied border joins, from none to all, the weight
/// of the ways in which the colours can share them, against the number of
/// ways to order that many join ends on either side regardless of colour,
/// in lowest terms.
pub fn border_joins(join_counts: &Vec<usize>, p: &Vec<Vec<BigUint>>, c: &Vec<Vec<BigUint>>) -> (r:
    Vec<(BigUint, BigUint)>)
    requires
        is_permutation_table(p@),
        is_combination_table(c@),
        seq_sum(join_counts@) < c@.len(),
        seq_sum(join_counts@) < p@.len(),
    ensures
        r@.len() == seq_sum(join_counts@) + 1,
        forall|b: int|
            0 <= b < r@.len() ==> (big_value((#[trigger] r@[b]).0), big_value(r@[b].1))
                == border_ratio(join_counts@, b as nat),
{
    proof {
        lemma_seq_sum_nonnegative(join_counts@);
        assert forall|k: int| 0 <= k < join_counts@.len() implies weight_reach(
            JoinType::Border,
            #[trigger] join_counts@[k] as int,
        ) < p@.len() by {
            lemma_count_below_sum(join_counts@, k);
        }
    }
    let p_len: usize = p.len();
    let valid = valid_counts(join_counts, p, c, JoinType::Border);
    let total_joints: usize = valid.len() - 1;
    let mut ratios: Vec<(BigUint, BigUint)> = Vec::new();
    let mut b: usize = 0;
    while b <= total_joints
        invariant
            is_permutation_table(p@),
            p_len == p@.len(),
            total_joints == seq_sum(join_counts@),
            total_joints < p_len,
            valid@.len() == total_joints + 1,
            forall|k: int|
                0 <= k < valid@.len() ==> big_value(#[trigger] valid@[k]) == valid_count(
                    JoinType::Border,
                    join_counts@,
                    join_counts@.len(),
                    k as nat,
                ),
            b <= total_joints + 1,
            ratios@.len() == b,
            forall|k: int|
                0 <= k < b ==> (big_value((#[trigger] ratios@[k]).0), big_value(ratios@[k].1))
                    == border_ratio(join_counts@, k as nat),
        decreases total_joints + 1 - b,
    {
        let orders = big_mul(&p[total_joints][b], &p[total_joints][b]);
        let ratio = reduce_ratio(big_clone(&valid[b]), orders);
        ratios.push(ratio);
        b = b + 1;
    }
    ratios
}

/// A copy of a row of numbers.
fn copy_row(row: &Vec<BigUint>) -> (r: Vec<BigUint>)
    ensures
        r@.len() == row@.len(),
        forall|k: int| 0 <= k < r@.len() ==> big_value(#[trigger] r@[k]) == big_value(row@[k]),
{
    let mut copy: Vec<BigUint> = Vec::new();
    let mut k: usize = 0;
    while k < row.len()
        invariant
            k <= row@.len(),
            copy@.len() == k,
            forall|i: int| 0 <= i < k ==> big_value(#[trigger] copy@[i]) == big_value(row@[i]),
        decreases row@.len() - k,
    {
        copy.push(big_clone(&row[k]));
        k = k + 1;
    }
    copy
}

/// Every count of a grid is below four times the number of its cells.
proof fn lemma_counts_fit(w: int, h: int)
    requires
        w > 1,
        h > 1,
    ensures
        2 * (w - 1) + 2 * (h - 1) < 4 * w * h,
        0 <= (w - 1) * (h - 2) + (w - 2) * (h - 1),
        2 * ((w - 1) * (h - 2) + (w - 2) * (h - 1)) < 4 * w * h,
        4 < 4 * w * h,
        2 * (w - 2) + 2 * (h - 2) < 4 * w * h,
        (w - 2) * (h - 2) < 4 * w * h,
{
    assert(2 * (w - 1) + 2 * (h - 1) < 4 * w * h) by (nonlinear_arith)
        requires
            w > 1,
            h > 1,
    ;
    assert(0 <= (w - 1) * (h - 2) + (w - 2) * (h - 1)) by (nonlinear_arith)
        requires
            w > 1,
            h > 1,
    ;
    assert(2 * ((w - 1) * (h - 2) + (w - 2) * (h - 1)) < 4 * w * h) by (nonlinear_arith)
        requires
            w > 1,
            h > 1,
    ;
    assert(4 < 4 * w * h) by (nonlinear_arith)
        requires
            w > 1,
            h > 1,
    ;
    assert(2 * (w - 2) + 2 * (h - 2) < 4 * w * h) by (nonlinear_arith)
        requires
            w > 1,
            h > 1,
    ;
    assert((w - 2) * (h - 2) < 4 * w * h) by (nonlinear_arith)
        requires
            w > 1,
            h > 1,
    ;
}

/// The exact weights of a puzzle, each series indexed by how much of the
/// resource is used: the distributions of satisfied middle and border joins
/// and the numbers of ways to place corner, edge and interior pieces.
pub struct PuzzleCombinations {
    pub middle_probablity: Vec<(BigUint, BigUint)>,
    pub border_probablity: Vec<(BigUint, BigUint)>,
    pub corner_combinations: Vec<BigUint>,
    pub edge_combinations: Vec<BigUint>,
    pub interior_combinations: Vec<BigUint>,
}

impl PuzzleCombinations {
    /// These are the weights of `structure`. An interior piece can be
    /// turned four ways, so placing `k` of them counts `4^k` times.
    pub open spec fn describes(&self, structure: &PuzzleStructure) -> bool {
        &&& self.middle_probablity@.len() == structure.middle_joins + 1
        &&& forall|m: int|
            0 <= m <= structure.middle_joins ==> (
                big_value((#[trigger] self.middle_probablity@[m]).0),
                big_value(self.middle_probablity@[m].1),
            ) == middle_ratio(structure.middle_join_counts@, m as nat)
        &&& self.border_probablity@.len() == structure.border_joins + 1
        &&& forall|b: int|
            0 <= b <= structure.border_joins ==> (
                big_value((#[trigger] self.border_probablity@[b]).0),
                big_value(self.border_probablity@[b].1),
            ) == border_ratio(structure.border_join_counts@, b as nat)
        &&& self.corner_combinations@.len() == structure.corners + 1
        &&& forall|k: int|
            0 <= k <= structure.corners ==> big_value(#[trigger] self.corner_combinations@[k])
                == permutations(structure.corners as nat, k as nat)
        &&& self.edge_combinations@.len() == structure.edges + 1
        &&& forall|k: int|
            0 <= k <= structure.edges ==> big_value(#[trigger] self.edge_combinations@[k])
                == permutations(structure.edges as nat, k as nat)
        &&& self.interior_combinations@.len() == structure.interiors + 1
        &&& forall|k: int|
            0 <= k <= structure.interiors ==> big_value(
                #[trigger] self.interior_combinations@[k],
            ) == permutations(structure.interiors as nat, k as nat) * pow(4, k as nat)
    }

    /// Computes the weights of a puzzle. The number of interior cells must
    /// fit 32 bits.
    pub fn new(puzzle_structure: &PuzzleStructure) -> (r: PuzzleCombinations)
        requires
            puzzle_structure.wf(),
            puzzle_structure.interiors <= u32::MAX,
        ensures
            r.describes(puzzle_structure),
    {
        proof {
            lemma_counts_fit(puzzle_structure.width as int, puzzle_structure.height as int);
        }
        let size1: usize = sum_counts(&puzzle_structure.border_join_counts);
        let size2: usize = sum_counts(&puzzle_structure.middle_join_counts) * 2;
        let size3: usize = puzzle_structure.corners;
        let size4: usize = puzzle_structure.edges;
        let size5: usize = puzzle_structure.interiors;
        let mut max_size: usize = size1;
        if size2 > max_size {
            max_size = size2;
        }
        if size3 > max_size {
            max_size = size3;
        }
        if size4 > max_size {
            max_size = size4;
        }
        if size5 > max_size {
            max_size = size5;
        }
        let f: Vec<BigUint> = generate_factorials(max_size);
        let p: Vec<Vec<BigUint>> = generate_permutations(&f);
        let c: Vec<Vec<BigUint>> = generate_combinations(&f);

        let middle_probablity = middle_joins(&puzzle_structure.middle_join_counts, &p, &c);
        let border_probablity = border_joins(&puzzle_structure.border_join_counts, &p, &c);
        let corner_combinations = copy_row(&p[puzzle_structure.corners]);
        let edge_combinations = copy_row(&p[puzzle_structure.edges]);
        let interiors: usize = puzzle_structure.interiors;
        let four: BigUint = big_from(4);
        let p_len: usize = p.len();
        let mut interior_combinations: Vec<BigUint> = Vec::new();
        let mut index: usize = 0;
        while index <= interiors
            invariant
                interiors <= u32::MAX,
                p_len == p@.len(),
                interiors < p_len,
                is_permutation_table(p@),
                big_value(four) == 4,
                index <= interiors + 1,
                interior_combinations@.len() == index,
                forall|k: int|
                    0 <= k < index ==> big_value(#[trigger] interior_combinations@[k])
                        == permutations(interiors as nat, k as nat) * pow(4, k as nat),
            decreases interiors + 1 - index,
        {
            let turns = big_pow(&four, index as u32);
            interior_combinations.push(big_mul(&p[interiors][index], &turns));
            index = index + 1;
        }
        PuzzleCombinations {
            middle_probablity,
            border_probablity,
            corner_combinations,
            edge_combinations,
            interior_combinations,
        }
    }
}

} // verus!
