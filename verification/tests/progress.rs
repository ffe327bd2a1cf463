use edgelib::puzzle_structure::{PuzzleError, PuzzleStructure};
use edgelib::search_order::{SearchOption, SearchOrder};
use edgelib::search_progress::{SearchProgress, Used};

fn used(corners: usize, edges: usize, interiors: usize, borders: usize, middles: usize) -> Used {
    Used {
        corners,
        edges,
        interiors,
        borders,
        middles,
    }
}

#[test]
fn two_by_two_scan_rows_progress() {
    let structure = PuzzleStructure::new(2, 2, 1, 1).unwrap();
    let order = SearchOrder::new(2, 2, SearchOption::ScanRows).unwrap();
    let progress = SearchProgress::new(&structure, &order).unwrap();
    assert_eq!(progress.width, 2);
    assert_eq!(progress.height, 2);
    assert_eq!(progress.size, 4);
    assert_eq!(
        progress.progress,
        vec![
            used(0, 0, 0, 0, 0),
            used(1, 0, 0, 0, 0),
            used(2, 0, 0, 1, 0),
            used(3, 0, 0, 2, 0),
            used(4, 0, 0, 4, 0)
        ]
    );
    assert_eq!(progress.progress[4], progress.end_point);
    assert_eq!(
        progress.end_point,
        used(
            structure.corners,
            structure.edges,
            structure.interiors,
            structure.border_joins,
            structure.middle_joins
        )
    );
}

#[test]
fn three_by_three_spiral_progress() {
    let structure = PuzzleStructure::new(3, 3, 2, 2).unwrap();
    let order = SearchOrder::new(3, 3, SearchOption::SpiralIn).unwrap();
    let progress = SearchProgress::new(&structure, &order).unwrap();
    assert_eq!(
        progress.progress,
        vec![
            used(0, 0, 0, 0, 0),
            used(1, 0, 0, 0, 0),
            used(1, 1, 0, 1, 0),
            used(2, 1, 0, 2, 0),
            used(2, 2, 0, 3, 0),
            used(3, 2, 0, 4, 0),
            used(3, 3, 0, 5, 0),
            used(4, 3, 0, 6, 0),
            used(4, 4, 0, 8, 0),
            used(4, 4, 1, 8, 4)
        ]
    );
}

#[test]
fn progress_never_falls_and_ends_at_the_totals() {
    let options = [
        SearchOption::ScanRows,
        SearchOption::ScanColumns,
        SearchOption::ScanLargest,
        SearchOption::BuildSquare,
        SearchOption::SpiralIn,
        SearchOption::SpiralInSquare,
        SearchOption::SpiralOut,
        SearchOption::SpiralOutSquare,
        SearchOption::FrameFirstRows,
        SearchOption::FrameFirstColumns,
        SearchOption::FrameLastRows,
        SearchOption::FrameLastColumns,
    ];
    for (width, height) in [(2, 2), (3, 2), (5, 4), (16, 16)] {
        let structure = PuzzleStructure::new(width, height, 3, 4).unwrap();
        for option in options {
            let order = SearchOrder::new(width, height, option).unwrap();
            let progress = SearchProgress::new(&structure, &order).unwrap();
            assert_eq!(progress.progress.len(), width * height + 1);
            assert_eq!(progress.progress[0], used(0, 0, 0, 0, 0));
            for pair in progress.progress.windows(2) {
                assert!(pair[0].corners <= pair[1].corners);
                assert!(pair[0].edges <= pair[1].edges);
                assert!(pair[0].interiors <= pair[1].interiors);
                assert!(pair[0].borders <= pair[1].borders);
                assert!(pair[0].middles <= pair[1].middles);
                assert_eq!(
                    pair[0].corners + pair[0].edges + pair[0].interiors + 1,
                    pair[1].corners + pair[1].edges + pair[1].interiors
                );
            }
            let last = progress.progress[width * height];
            assert_eq!(last, progress.end_point);
            assert_eq!(last.corners, 4);
            assert_eq!(last.edges, 2 * (width - 2) + 2 * (height - 2));
            assert_eq!(last.interiors, (width - 2) * (height - 2));
            assert_eq!(last.borders, 2 * (width - 1) + 2 * (height - 1));
            assert_eq!(
                last.middles,
                (width - 1) * (height - 2) + (width - 2) * (height - 1)
            );
        }
    }
}

#[test]
fn an_order_for_another_grid_is_rejected() {
    let structure = PuzzleStructure::new(3, 4, 1, 1).unwrap();
    let wider = SearchOrder::new(4, 4, SearchOption::ScanRows).unwrap();
    let higher = SearchOrder::new(3, 5, SearchOption::ScanRows).unwrap();
    let turned = SearchOrder::new(4, 3, SearchOption::ScanRows).unwrap();
    for order in [wider, higher, turned] {
        match SearchProgress::new(&structure, &order) {
            Err(e) => assert_eq!(e, PuzzleError::DimensionMismatch),
            Ok(_) => panic!("an order for another grid was accepted"),
        }
    }
}
