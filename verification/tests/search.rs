use edgelib::puzzle_structure::PuzzleError;
use edgelib::search_order::{
    build_square, frame_columns, frame_rows, spiral, Location, SearchOption, SearchOrder,
};
use std::collections::HashSet;

const ALL: [SearchOption; 12] = [
    SearchOption::ScanRows,
    SearchOption::ScanColumns,
    SearchOption::ScanLargest,
    SearchOption::BuildSquare,
    SearchOption::SpiralIn,
    SearchOption::SpiralInSquare,
    SearchOption::SpiralOut,
    SearchOption::SpiralOutSquare,
    SearchOption::FrameFirstRows,
    SearchOption::FrameFirstColumns,
    SearchOption::FrameLastRows,
    SearchOption::FrameLastColumns,
];

fn cells(order: &[Location]) -> Vec<(usize, usize)> {
    order.iter().map(|l| (l.x, l.y)).collect()
}

#[test]
fn scan_rows_two_by_two_is_row_major() {
    let order = SearchOrder::new(2, 2, SearchOption::ScanRows).unwrap();
    assert_eq!(order.width, 2);
    assert_eq!(order.height, 2);
    assert_eq!(order.size, 4);
    assert_eq!(cells(&order.order), vec![(0, 0), (1, 0), (0, 1), (1, 1)]);
}

#[test]
fn scan_columns_is_column_major() {
    let order = SearchOrder::new(2, 3, SearchOption::ScanColumns).unwrap();
    assert_eq!(
        cells(&order.order),
        vec![(0, 0), (0, 1), (0, 2), (1, 0), (1, 1), (1, 2)]
    );
}

#[test]
fn every_strategy_visits_every_cell_once() {
    for (width, height) in [(2, 2), (3, 2), (2, 3), (4, 5), (7, 3), (16, 16)] {
        for option in ALL {
            let order = SearchOrder::new(width, height, option).unwrap();
            assert_eq!(order.size, width * height);
            assert_eq!(order.order.len(), width * height);
            let seen: HashSet<(usize, usize)> = cells(&order.order).into_iter().collect();
            assert_eq!(seen.len(), width * height);
            assert!(seen.iter().all(|&(x, y)| x < width && y < height));
        }
    }
}

#[test]
fn spiral_in_three_by_three() {
    let order = spiral(3, 3, 9, false, false);
    assert_eq!(
        cells(&order),
        vec![
            (0, 0),
            (1, 0),
            (2, 0),
            (2, 1),
            (2, 2),
            (1, 2),
            (0, 2),
            (0, 1),
            (1, 1)
        ]
    );
}

#[test]
fn spiral_out_is_spiral_in_backwards() {
    let mut inward = cells(&spiral(4, 3, 12, false, false));
    inward.reverse();
    assert_eq!(cells(&spiral(4, 3, 12, false, true)), inward);
}

#[test]
fn square_variants_of_the_spiral_change_nothing() {
    assert_eq!(
        cells(&spiral(5, 4, 20, true, false)),
        cells(&spiral(5, 4, 20, false, false))
    );
    assert_eq!(
        cells(&spiral(5, 4, 20, true, true)),
        cells(&spiral(5, 4, 20, false, true))
    );
    let a = SearchOrder::new(5, 4, SearchOption::SpiralInSquare).unwrap();
    let b = SearchOrder::new(5, 4, SearchOption::SpiralIn).unwrap();
    assert_eq!(cells(&a.order), cells(&b.order));
}

#[test]
fn scan_largest_two_by_three() {
    assert_eq!(
        cells(&build_square(2, 3, 6, false)),
        vec![(0, 0), (1, 0), (0, 1), (0, 2), (1, 1), (1, 2)]
    );
}

#[test]
fn build_square_is_reversed_and_mirrored() {
    assert_eq!(
        cells(&build_square(2, 3, 6, true)),
        vec![(0, 0), (0, 1), (1, 0), (1, 1), (0, 2), (1, 2)]
    );
    let order = SearchOrder::new(2, 3, SearchOption::BuildSquare).unwrap();
    assert_eq!(
        cells(&order.order),
        vec![(0, 0), (0, 1), (1, 0), (1, 1), (0, 2), (1, 2)]
    );
}

#[test]
fn frame_first_rows_leaves_the_inside_for_last() {
    assert_eq!(
        cells(&frame_rows(3, 3, false, false)),
        vec![
            (0, 0),
            (1, 0),
            (2, 0),
            (0, 1),
            (2, 1),
            (0, 2),
            (1, 2),
            (2, 2),
            (1, 1)
        ]
    );
}

#[test]
fn frame_last_rows_starts_with_the_inside() {
    assert_eq!(
        cells(&frame_rows(3, 3, false, true)),
        vec![
            (1, 1),
            (0, 0),
            (1, 0),
            (2, 0),
            (0, 1),
            (2, 1),
            (0, 2),
            (1, 2),
            (2, 2)
        ]
    );
}

#[test]
fn frame_columns_four_by_four() {
    let first = cells(&frame_columns(4, 4, false, false));
    assert_eq!(
        first,
        vec![
            (0, 0),
            (0, 1),
            (0, 2),
            (0, 3),
            (1, 0),
            (1, 3),
            (2, 0),
            (2, 3),
            (3, 0),
            (3, 1),
            (3, 2),
            (3, 3),
            (1, 1),
            (1, 2),
            (2, 1),
            (2, 2)
        ]
    );
    let last = cells(&frame_columns(4, 4, false, true));
    assert_eq!(&last[..4], &[(1, 1), (1, 2), (2, 1), (2, 2)]);
    assert_eq!(&last[4..], &first[..12]);
}

#[test]
fn ignoring_the_frame_gives_the_plain_raster() {
    assert_eq!(
        cells(&frame_rows(3, 3, true, true)),
        cells(&frame_rows(3, 3, true, false))
    );
    assert_eq!(
        cells(&frame_rows(3, 2, true, false)),
        vec![(0, 0), (1, 0), (2, 0), (0, 1), (1, 1), (2, 1)]
    );
}

#[test]
fn search_order_rejects_small_grids() {
    for (width, height) in [(0, 5), (1, 5), (5, 1), (5, 0), (1, 1)] {
        match SearchOrder::new(width, height, SearchOption::SpiralIn) {
            Err(e) => assert_eq!(e, PuzzleError::InvalidDimensions),
            Ok(_) => panic!("a grid of {} by {} was accepted", width, height),
        }
    }
}
