use edgelib::combinations::middle_joins;
use edgelib::log_scale::{scale_down, Scaled};
use edgelib::puzzle_combinations::{
    border_joins, generate_combinations, generate_factorials, generate_permutations,
    greatest_common_divisor, reduce_ratio, valid_counts, PuzzleCombinations,
};
use edgelib::puzzle_structure::{checked_sum, even_split, sum_counts, JoinType, PuzzleStructure};
use num_bigint::BigUint;

fn big(n: u64) -> BigUint {
    BigUint::from(n)
}

#[test]
fn factorial_table() {
    let f = generate_factorials(6);
    let expected: Vec<BigUint> = [1u64, 1, 2, 6, 24, 120, 720].iter().map(|&n| big(n)).collect();
    assert_eq!(f, expected);
    assert_eq!(generate_factorials(0), vec![big(1)]);
}

#[test]
fn choosing_nothing_or_everything() {
    let f = generate_factorials(12);
    let p = generate_permutations(&f);
    let c = generate_combinations(&f);
    assert_eq!(p.len(), 13);
    assert_eq!(c.len(), 13);
    for n in 0..=12 {
        assert_eq!(p[n].len(), n + 1);
        assert_eq!(c[n].len(), n + 1);
        assert_eq!(p[n][0], big(1));
        assert_eq!(c[n][0], big(1));
        assert_eq!(c[n][n], big(1));
        assert_eq!(p[n][n], f[n]);
    }
    assert_eq!(p[7][3], big(210));
    assert_eq!(c[7][3], big(35));
    assert_eq!(c[12][6], big(924));
}

#[test]
fn border_distribution_of_two_single_joins() {
    let f = generate_factorials(2);
    let p = generate_permutations(&f);
    let c = generate_combinations(&f);
    let valid = valid_counts(&vec![1, 1], &p, &c, JoinType::Border);
    assert_eq!(valid, vec![big(1), big(2), big(2)]);
    let ratios = border_joins(&vec![1, 1], &p, &c);
    assert_eq!(
        ratios,
        vec![(big(1), big(1)), (big(1), big(2)), (big(1), big(2))]
    );
}

#[test]
fn middle_distribution_of_two_single_joins() {
    assert_eq!(middle_joins(vec![1, 1]), vec![big(1), big(4), big(8)]);
    let f = generate_factorials(4);
    let p = generate_permutations(&f);
    let c = generate_combinations(&f);
    let ratios = edgelib::puzzle_combinations::middle_joins(&vec![1, 1], &p, &c);
    assert_eq!(
        ratios,
        vec![(big(1), big(1)), (big(1), big(3)), (big(1), big(3))]
    );
}

#[test]
fn distribution_without_colours_or_joins() {
    assert_eq!(middle_joins(vec![]), vec![big(1)]);
    assert_eq!(middle_joins(vec![0, 0]), vec![big(1)]);
}

#[test]
fn greatest_common_divisors() {
    assert_eq!(greatest_common_divisor(&big(12), &big(18)), big(6));
    assert_eq!(greatest_common_divisor(&big(18), &big(12)), big(6));
    assert_eq!(greatest_common_divisor(&big(7), &big(0)), big(7));
    assert_eq!(greatest_common_divisor(&big(0), &big(7)), big(7));
    assert_eq!(greatest_common_divisor(&big(0), &big(0)), big(0));
    assert_eq!(greatest_common_divisor(&big(35), &big(64)), big(1));
}

#[test]
fn ratios_in_lowest_terms() {
    assert_eq!(reduce_ratio(big(6), big(4)), (big(3), big(2)));
    assert_eq!(reduce_ratio(big(0), big(4)), (big(0), big(1)));
    assert_eq!(reduce_ratio(big(5), big(7)), (big(5), big(7)));
    // a zero denominator is reported as it is
    assert_eq!(reduce_ratio(big(6), big(0)), (big(6), big(0)));
    assert_eq!(reduce_ratio(big(0), big(0)), (big(0), big(0)));
}

#[test]
fn even_splits() {
    assert_eq!(even_split(60, 5), vec![12, 12, 12, 12, 12]);
    assert_eq!(even_split(7, 3), vec![3, 2, 2]);
    assert_eq!(even_split(8, 3), vec![3, 3, 2]);
    assert_eq!(even_split(2, 5), vec![1, 1, 0, 0, 0]);
    assert_eq!(even_split(0, 2), vec![0, 0]);
    assert_eq!(even_split(usize::MAX, 1), vec![usize::MAX]);
    for total in 0..40usize {
        for types in 1..9usize {
            let split = even_split(total, types);
            assert_eq!(split.len(), types);
            assert_eq!(split.iter().sum::<usize>(), total);
            for (i, share) in split.iter().enumerate() {
                assert_eq!(*share, (total + types - i - 1) / types);
            }
        }
    }
}

#[test]
fn quotas_of_the_large_puzzle() {
    let s = PuzzleStructure::new(16, 16, 5, 12).unwrap();
    assert_eq!(s.border_joins, 60);
    assert_eq!(s.middle_joins, 420);
    assert_eq!(s.border_join_counts, vec![12; 5]);
    assert_eq!(s.middle_join_counts, vec![35; 12]);
    assert_eq!(s.corners, 4);
    assert_eq!(s.edges, 56);
    assert_eq!(s.interiors, 196);
    let t = PuzzleStructure::new(5, 4, 4, 3).unwrap();
    assert_eq!(t.border_joins, 14);
    assert_eq!(t.middle_joins, 17);
    assert_eq!(t.border_join_counts, vec![4, 4, 3, 3]);
    assert_eq!(t.middle_join_counts, vec![6, 6, 5]);
}

#[test]
fn sums_of_counts() {
    assert_eq!(sum_counts(&vec![]), 0);
    assert_eq!(sum_counts(&vec![3, 4, 5]), 12);
    assert_eq!(checked_sum(&vec![3, 4, 5]), Some(12));
    assert_eq!(checked_sum(&vec![usize::MAX, 0]), Some(usize::MAX));
    assert_eq!(checked_sum(&vec![usize::MAX, 1]), None);
    assert_eq!(checked_sum(&vec![1, usize::MAX, 7]), None);
}

#[test]
fn overriding_the_quotas() {
    let mut s = PuzzleStructure::new(3, 3, 2, 2).unwrap();
    assert_eq!(s.border_join_counts, vec![4, 4]);
    s.set_border_join_counts(vec![5, 2, 1]);
    assert_eq!(s.border_join_counts, vec![5, 2, 1]);
    assert_eq!(s.border_types, 3);
    assert_eq!(s.border_joins, 8);
    s.set_middle_join_counts(vec![4]);
    assert_eq!(s.middle_join_counts, vec![4]);
    assert_eq!(s.middle_types, 1);
    let catalog = PuzzleCombinations::new(&s);
    assert_eq!(catalog.border_probablity.len(), 9);
    assert_eq!(catalog.middle_probablity.len(), 5);
}

#[test]
fn interior_pieces_turn_four_ways() {
    let s = PuzzleStructure::new(4, 4, 1, 1).unwrap();
    let catalog = PuzzleCombinations::new(&s);
    // 4 interior cells: P(4, k) * 4^k
    let expected: Vec<BigUint> = [1u64, 16, 192, 1536, 6144].iter().map(|&n| big(n)).collect();
    assert_eq!(catalog.interior_combinations, expected);
    let edges: Vec<BigUint> = [1u64, 8, 56, 336, 1680, 6720, 20160, 40320, 40320]
        .iter()
        .map(|&n| big(n))
        .collect();
    assert_eq!(catalog.edge_combinations, edges);
}

#[test]
fn scaling_keeps_short_numbers() {
    assert_eq!(
        scale_down(&big(12345)),
        Some(Scaled {
            mantissa: 12345,
            shift: 0
        })
    );
    assert_eq!(
        scale_down(&big(0)),
        Some(Scaled {
            mantissa: 0,
            shift: 0
        })
    );
    assert_eq!(
        scale_down(&big(999_999_999_999_999_999)),
        Some(Scaled {
            mantissa: 999_999_999_999_999_999,
            shift: 0
        })
    );
}

#[test]
fn scaling_cuts_long_numbers_to_eighteen_digits() {
    assert_eq!(
        scale_down(&big(1_000_000_000_000_000_000)),
        Some(Scaled {
            mantissa: 100_000_000_000_000_000,
            shift: 1
        })
    );
    let long = "123456789012345678901234567890".parse::<BigUint>().unwrap();
    assert_eq!(
        scale_down(&long),
        Some(Scaled {
            mantissa: 123_456_789_012_345_678,
            shift: 12
        })
    );
    let f = generate_factorials(30);
    // 30! = 265252859812191058636308480000000
    assert_eq!(
        scale_down(&f[30]),
        Some(Scaled {
            mantissa: 265_252_859_812_191_058,
            shift: 15
        })
    );
}
