use walkgrid::Grid;
use walkgrid::WalkableTiles;

fn tiles_from_rows(rows: Vec<Vec<u8>>) -> WalkableTiles {
    let grid = Grid::try_from(rows).unwrap();
    WalkableTiles::from_u8_grid(&grid)
}

#[test]
fn from_u8_grid_marks_ones_walkable() {
    let tiles = tiles_from_rows(vec![vec![1, 0, 2], vec![0, 1, 1]]);
    assert!(tiles.is_walkable_local(0, 0));
    assert!(!tiles.is_walkable_local(1, 0));
    assert!(!tiles.is_walkable_local(2, 0));
    assert!(!tiles.is_walkable_local(0, 1));
    assert!(tiles.is_walkable_local(1, 1));
    assert!(tiles.is_walkable_local(2, 1))
}

#[test]
fn is_walkable_local_out_of_bounds_is_false() {
    let tiles = tiles_from_rows(vec![vec![1, 1], vec![1, 1]]);
    assert!(!tiles.is_walkable_local(2, 0));
    assert!(!tiles.is_walkable_local(0, 2));
    assert!(!tiles.is_walkable_local(usize::MAX, usize::MAX))
}

#[test]
fn nearest_local_returns_query_tile_when_walkable() {
    let tiles = tiles_from_rows(vec![
        vec![1, 1, 1],
        vec![1, 1, 1],
        vec![1, 1, 1],
    ]);
    assert_eq!(tiles.nearest_walkable_tiles_local((1, 1)), vec![(1, 1)]);
    assert_eq!(tiles.nearest_walkable_tiles_local((0, 2)), vec![(0, 2)])
}

#[test]
fn nearest_local_finds_ring_candidates() {
    let tiles = tiles_from_rows(vec![
        vec![0, 0, 0, 0, 0],
        vec![0, 1, 1, 0, 0],
        vec![0, 0, 0, 0, 0],
        vec![0, 0, 0, 0, 0],
    ]);
    assert_eq!(
        tiles.nearest_walkable_tiles_local((2, 2)),
        vec![(2, 1), (1, 1)]
    )
}

#[test]
fn nearest_local_out_of_bounds_is_empty() {
    let tiles = tiles_from_rows(vec![vec![1, 1], vec![1, 1]]);
    assert_eq!(tiles.nearest_walkable_tiles_local((5, 0)), Vec::new())
}

#[test]
fn nearest_local_without_any_walkable_is_empty() {
    let tiles = tiles_from_rows(vec![vec![0, 0], vec![0, 0]]);
    assert_eq!(tiles.nearest_walkable_tiles_local((1, 1)), Vec::new())
}

#[test]
fn nearest_abs_centers_origin_on_middle_cell() {
    let tiles = tiles_from_rows(vec![
        vec![1, 1, 1, 1, 1],
        vec![1, 1, 1, 1, 1],
        vec![1, 1, 1, 1, 1],
        vec![1, 1, 1, 1, 1],
        vec![1, 1, 1, 1, 1],
    ]);
    assert_eq!(tiles.nearest_walkable_tiles((0, 0)), vec![(0, 0)]);
    assert_eq!(tiles.nearest_walkable_tiles((-2, -2)), vec![(-2, -2)]);
    assert_eq!(tiles.nearest_walkable_tiles((2, 1)), vec![(2, 1)])
}

#[test]
fn nearest_abs_searches_from_converted_tile() {
    let tiles = tiles_from_rows(vec![
        vec![0, 0, 0, 0, 0],
        vec![0, 0, 0, 0, 0],
        vec![0, 0, 0, 1, 0],
        vec![0, 0, 0, 0, 0],
        vec![0, 0, 0, 0, 0],
    ]);
    // Absolute (0, 0) is local (2, 2); the only walkable tile sits one
    // ring away at local (3, 2), which is absolute (1, 0).
    assert_eq!(tiles.nearest_walkable_tiles((0, 0)), vec![(1, 0)])
}

#[test]
fn nearest_abs_saturates_far_negative_queries_to_the_boundary() {
    let tiles = tiles_from_rows(vec![
        vec![1, 0, 0],
        vec![0, 0, 0],
        vec![0, 0, 0],
    ]);
    // Absolute (-40, -40) clamps to local (0, 0), which is walkable; the
    // result converts back to absolute (-1, -1).
    assert_eq!(tiles.nearest_walkable_tiles((-40, -40)), vec![(-1, -1)])
}
