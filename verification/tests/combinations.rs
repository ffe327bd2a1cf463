use edgelib::combinations::joins::{generate_combinations, generate_permutations};
use edgelib::combinations::middle_joins;
use edgelib::puzzle_combinations::{border_joins, generate_factorials, PuzzleCombinations};
use edgelib::puzzle_structure::PuzzleStructure;
use num_bigint::BigUint;

#[test]
fn test_middle_joins() {
    let middle_joins = middle_joins(vec![35; 12]);
    println!("{:?}", middle_joins);
}

#[test]
fn test_combinations() {
    let combinations = generate_combinations(10);
    assert_eq!(
        combinations[5][3],
        BigUint::from(5 * 4 * 3 * 2 * 1 / (3 * 2 * 1) / (2 * 1) as usize)
    )
}

#[test]
fn test_perimutions() {
    let perimutions = generate_permutations(10);
    assert_eq!(
        perimutions[5][3],
        BigUint::from(5 * 4 * 3 * 2 * 1 / (2 * 1) as usize)
    )
}

#[test]
fn puzzle_combinations_test_border_joins() {
    let f = generate_factorials(4);
    let p = edgelib::puzzle_combinations::generate_permutations(&f);
    let c = edgelib::puzzle_combinations::generate_combinations(&f);
    let ratios = border_joins(&vec![2, 2], &p, &c);
    assert_eq!(ratios.len(), 5);
    assert_eq!(ratios[0], (BigUint::from(1u32), BigUint::from(1u32)));
}

#[test]
fn single_colour_has_no_choice() {
    let total = 5usize;
    let valid = middle_joins(vec![total]);
    let p = generate_permutations(2 * total);
    let c = generate_combinations(2 * total);
    assert_eq!(valid.len(), total + 1);
    assert_eq!(valid[total], &p[2 * total][2 * total] * &c[total][total]);
    let mut factorial = BigUint::from(1u32);
    for i in 1..=(2 * total) {
        factorial *= BigUint::from(i);
    }
    assert_eq!(valid[total], factorial);
}

#[test]
fn catalog_of_three_by_three() {
    let s = PuzzleStructure::new(3, 3, 2, 1).unwrap();
    let catalog = PuzzleCombinations::new(&s);
    assert_eq!(catalog.corner_combinations.len(), 5);
    assert_eq!(catalog.corner_combinations[4], BigUint::from(24u32));
    assert_eq!(catalog.edge_combinations[2], BigUint::from(12u32));
    assert_eq!(catalog.interior_combinations.len(), 2);
    assert_eq!(catalog.interior_combinations[1], BigUint::from(4u32));
    assert_eq!(catalog.border_probablity.len(), 9);
    assert_eq!(catalog.middle_probablity.len(), 5);
    // one middle colour: every number of satisfied joins is certain
    for ratio in catalog.middle_probablity.iter() {
        assert_eq!(ratio.0, ratio.1);
        assert_eq!(ratio.0, BigUint::from(1u32));
    }
}
