use grid_geometry::edges::{build_edges, Edge, TILE_SIZE};
use grid_geometry::grid::Grid;
use grid_geometry::plates::{plate_rows, row_plates, Plate};
use grid_geometry::rects::{partition, Rect};

fn rect(left: i32, right: i32, bottom: i32, top: i32) -> Rect {
    Rect { left, right, bottom, top }
}

fn edge(sx: i64, sy: i64, ex: i64, ey: i64) -> Edge {
    Edge { sx, sy, ex, ey }
}

#[test]
fn empty_grid_yields_nothing() {
    let grid = Grid::new(4, 4);
    assert_eq!(partition(&grid), vec![]);
    assert_eq!(build_edges(&grid, 1).edges, vec![]);
}

#[test]
fn single_cell_yields_one_rect_and_a_square_of_edges() {
    let grid = Grid::from_cells(4, 4, &[(1, 1)]);
    assert_eq!(partition(&grid), vec![rect(1, 1, 1, 1)]);
    assert_eq!(
        build_edges(&grid, 1).edges,
        vec![edge(1, 1, 1, 2), edge(2, 1, 2, 2), edge(1, 1, 2, 1), edge(1, 2, 2, 2)]
    );
}

#[test]
fn single_cell_in_world_units() {
    let grid = Grid::from_cells(4, 4, &[(1, 1)]);
    assert_eq!(
        build_edges(&grid, TILE_SIZE).edges,
        vec![edge(16, 16, 16, 32), edge(32, 16, 32, 32), edge(16, 16, 32, 16), edge(16, 32, 32, 32)]
    );
}

#[test]
fn full_bottom_row_is_one_rect_with_four_edges() {
    let grid = Grid::from_cells(4, 4, &[(0, 0), (1, 0), (2, 0), (3, 0)]);
    assert_eq!(partition(&grid), vec![rect(0, 3, 0, 0)]);
    assert_eq!(
        build_edges(&grid, 1).edges,
        vec![edge(0, 0, 0, 1), edge(0, 0, 4, 0), edge(0, 1, 4, 1), edge(4, 0, 4, 1)]
    );
}

#[test]
fn two_equal_rows_merge_into_one_rect() {
    let mut cells = Vec::new();
    for y in 0..2 {
        for x in 0..4 {
            cells.push((x, y));
        }
    }
    let grid = Grid::from_cells(4, 4, &cells);
    assert_eq!(partition(&grid), vec![rect(0, 3, 0, 1)]);
    assert_eq!(
        build_edges(&grid, 1).edges,
        vec![edge(0, 0, 0, 2), edge(0, 0, 4, 0), edge(4, 0, 4, 2), edge(0, 2, 4, 2)]
    );
}

#[test]
fn l_shape_splits_into_two_rects() {
    let grid = Grid::from_cells(4, 4, &[(0, 0), (1, 0), (2, 0), (3, 0), (0, 1)]);
    assert_eq!(partition(&grid), vec![rect(0, 3, 0, 0), rect(0, 0, 1, 1)]);
}

#[test]
fn plates_of_a_row_are_its_runs() {
    let grid = Grid::from_cells(6, 2, &[(0, 0), (1, 0), (3, 0), (5, 0), (2, 1)]);
    assert_eq!(
        row_plates(&grid, 0),
        vec![
            Plate { row: 0, left: 0, right: 1 },
            Plate { row: 0, left: 3, right: 3 },
            Plate { row: 0, left: 5, right: 5 }
        ]
    );
    assert_eq!(row_plates(&grid, 1), vec![Plate { row: 1, left: 2, right: 2 }]);
    assert_eq!(row_plates(&grid, 2), vec![]);
    assert_eq!(row_plates(&grid, -1), vec![]);
    assert_eq!(plate_rows(&grid).len(), 2);
}
