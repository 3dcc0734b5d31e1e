use std::cell::RefCell;

use walkgrid::Grid;
use walkgrid::GridError;

#[test]
fn test_spiral_search_works() {
    let mut grid = Grid::new(100, 100, false);
    grid.set(20, 20, true).unwrap();
    assert_eq!(vec!((20, 20)), grid.search_from_pos(60, 60, |&b| b))
}

#[test]
fn test_spiral_finds_ring() {
    let mut grid = Grid::new(100, 100, false);
    grid.set(22, 11, true).unwrap();
    grid.set(23, 11, true).unwrap();
    grid.set(21, 11, true).unwrap();
    grid.set(23, 10, true).unwrap();
    assert_eq!(
        vec!((23, 11), (22, 11), (21, 11)),
        grid.search_from_pos(22, 12, |&b| b)
    )
}

#[test]
fn test_spiral_finds_closest_down_ring() {
    let mut grid = Grid::new(100, 100, false);
    grid.set(21, 3, true).unwrap();
    assert_eq!(vec!((21, 3)), grid.search_from_pos(21, 2, |&b| b))
}

#[test]
fn test_spiral_self_match_wins_over_other_cells() {
    let mut grid = Grid::new(100, 100, false);
    grid.set(60, 60, true).unwrap();
    grid.set(61, 60, true).unwrap();
    grid.set(20, 20, true).unwrap();
    assert_eq!(vec!((60, 60)), grid.search_from_pos(60, 60, |&b| b))
}

#[test]
fn test_spiral_out_of_bounds_returns_empty() {
    let grid = Grid::new(10, 10, true);
    assert_eq!(Vec::<(usize, usize)>::new(), grid.search_from_pos(10, 3, |&b| b));
    assert_eq!(Vec::<(usize, usize)>::new(), grid.search_from_pos(3, 10, |&b| b))
}

#[test]
fn test_spiral_no_match_returns_empty() {
    let grid = Grid::new(8, 8, false);
    assert_eq!(Vec::<(usize, usize)>::new(), grid.search_from_pos(4, 4, |&b| b))
}

#[test]
fn test_spiral_scans_side_edges() {
    let mut grid = Grid::new(100, 100, false);
    grid.set(48, 50, true).unwrap();
    grid.set(52, 50, true).unwrap();
    assert_eq!(
        vec!((48, 50), (52, 50)),
        grid.search_from_pos(50, 50, |&b| b)
    )
}

#[test]
fn try_from_accepts_rectangular_rows() {
    let rows: Vec<Vec<u8>> = vec![vec![1, 2, 3], vec![4, 5, 6]];
    let grid = Grid::try_from(rows).unwrap();
    assert_eq!(grid.x_max(), 3);
    assert_eq!(grid.y_max(), 2);
    assert_eq!(grid.get(0, 0), Some(&1));
    assert_eq!(grid.get(2, 0), Some(&3));
    assert_eq!(grid.get(1, 1), Some(&5));
    assert_eq!(grid.get(2, 1), Some(&6))
}

#[test]
fn try_from_rejects_empty_rows() {
    let rows: Vec<Vec<u8>> = Vec::new();
    match Grid::try_from(rows) {
        Err(GridError::NoDataInColumns) => {}
        other => panic!("expected NoDataInColumns, got {:?}", other.is_ok()),
    }
}

#[test]
fn try_from_reports_distinct_widths() {
    let rows: Vec<Vec<u8>> = vec![vec![1, 2], vec![3, 4, 5], vec![6, 7]];
    match Grid::try_from(rows) {
        Err(GridError::MismatchedWidth { widths }) => assert_eq!(widths, vec![2, 3]),
        _ => panic!("expected MismatchedWidth"),
    }
}

#[test]
fn get_out_of_bounds_is_none() {
    let grid = Grid::new(3, 4, 7u8);
    assert_eq!(grid.get(0, 0), Some(&7));
    assert_eq!(grid.get(4, 0), None);
    assert_eq!(grid.get(0, 3), None);
    assert_eq!(grid.get(usize::MAX, usize::MAX), None)
}

#[test]
fn set_writes_in_bounds() {
    let mut grid = Grid::new(3, 3, 0u8);
    assert!(grid.set(1, 2, 9).is_ok());
    assert_eq!(grid.get(1, 2), Some(&9));
    assert_eq!(grid.get(2, 1), Some(&0))
}

#[test]
fn set_rejects_row_out_of_bounds_first() {
    let mut grid = Grid::new(3, 4, 0u8);
    assert_eq!(
        grid.set(0, 3, 1),
        Err(GridError::OutOfBounds { asked: 3, max: 3 })
    );
    assert_eq!(
        grid.set(9, 7, 1),
        Err(GridError::OutOfBounds { asked: 7, max: 3 })
    )
}

#[test]
fn set_rejects_column_at_exact_length() {
    let mut grid = Grid::new(3, 4, 0u8);
    assert_eq!(
        grid.set(4, 1, 1),
        Err(GridError::OutOfBounds { asked: 4, max: 4 })
    );
    assert_eq!(grid.get(0, 1), Some(&0))
}

#[test]
fn new_fills_every_cell() {
    let grid = Grid::new(2, 3, 'w');
    for y in 0..2 {
        for x in 0..3 {
            assert_eq!(grid.get(x, y), Some(&'w'));
        }
    }
}

#[test]
fn map_transforms_every_cell() {
    let rows: Vec<Vec<u8>> = vec![vec![0, 1], vec![2, 1]];
    let grid = Grid::try_from(rows).unwrap();
    let flags = grid.map(|v: &u8| *v == 1);
    assert_eq!(flags.get(0, 0), Some(&false));
    assert_eq!(flags.get(1, 0), Some(&true));
    assert_eq!(flags.get(0, 1), Some(&false));
    assert_eq!(flags.get(1, 1), Some(&true))
}

#[test]
fn for_each_visits_row_major() {
    let rows: Vec<Vec<u8>> = vec![vec![10, 11], vec![12, 13]];
    let grid = Grid::try_from(rows).unwrap();
    let seen: RefCell<Vec<(usize, usize, u8)>> = RefCell::new(Vec::new());
    grid.for_each(|x, y, v: &u8| seen.borrow_mut().push((x, y, *v)));
    assert_eq!(
        seen.into_inner(),
        vec![(0, 0, 10), (1, 0, 11), (0, 1, 12), (1, 1, 13)]
    )
}

#[test]
fn into_vec_returns_the_rows() {
    let rows: Vec<Vec<u8>> = vec![vec![1, 2], vec![3, 4]];
    let grid = Grid::try_from(rows.clone()).unwrap();
    assert_eq!(grid.into_vec(), rows)
}
