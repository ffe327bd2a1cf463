use edgelib::puzzle_structure::{JoinType, LocationType, PuzzleError, PuzzleStructure};

#[test]
fn test_build_structure() {
    let puzzle_structure = PuzzleStructure::new(16, 16, 5, 12).unwrap();

    println!("{:?}", puzzle_structure);
}

#[test]
fn three_by_two_roles_and_joins() {
    let s = PuzzleStructure::new(3, 2, 1, 1).unwrap();
    assert_eq!(s.corners, 4);
    assert_eq!(s.edges, 2);
    assert_eq!(s.interiors, 0);
    assert_eq!(s.border_joins, 6);
    assert_eq!(s.middle_joins, 1);
    assert_eq!(s.grid[1][0].location_type, LocationType::Edge);
    assert_eq!(s.grid[0][0].location_type, LocationType::Corner);
    let middle: Vec<_> = s.grid[1][0]
        .joins
        .iter()
        .filter(|j| j.join_type == JoinType::Middle)
        .collect();
    assert_eq!(middle.len(), 1);
    assert_eq!((middle[0].x, middle[0].y), (1, 1));
}

#[test]
fn rejects_small_dimensions_before_colours() {
    assert_eq!(
        PuzzleStructure::new(1, 5, 0, 0).unwrap_err(),
        PuzzleError::InvalidDimensions
    );
    assert_eq!(
        PuzzleStructure::new(5, 0, 1, 1).unwrap_err(),
        PuzzleError::InvalidDimensions
    );
    assert_eq!(
        PuzzleStructure::new(2, 2, 0, 1).unwrap_err(),
        PuzzleError::InvalidColorCount
    );
    assert_eq!(
        PuzzleStructure::new(2, 2, 1, 0).unwrap_err(),
        PuzzleError::InvalidColorCount
    );
}
