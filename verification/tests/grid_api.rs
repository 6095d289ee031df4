use grid_geometry::{
    build_edges, partition, plate_rows, row_plates, Cell, Cells, Edge, Grid, Plate, Rect, Side,
    TaggedCell, TILE_SIZE,
};

#[test]
fn new_grid_is_open_everywhere() {
    let grid = Grid::new(3, 2);
    assert_eq!(grid.width(), 3);
    assert_eq!(grid.height(), 2);
    assert_eq!(grid.area(), 6);
    for y in -1..3 {
        for x in -1..4 {
            assert!(!grid.is_solid(x, y));
        }
    }
}

#[test]
fn grids_of_any_size_fit_where_words_are_wide() {
    assert!(Grid::fits(0, 0));
    assert!(Grid::fits(-5, i32::MAX));
    assert!(Grid::fits(4, 4));
    assert_eq!(
        Grid::fits(i32::MAX, i32::MAX),
        (i32::MAX as u128) * (i32::MAX as u128) <= usize::MAX as u128
    );
}

#[test]
fn negative_and_zero_sizes_give_no_output() {
    for (w, h) in [(0, 0), (0, 5), (5, 0), (-3, 4), (4, -3), (-1, -1)] {
        let grid = Grid::from_cells(w, h, &[(0, 0), (1, 1)]);
        assert_eq!(grid.width(), w.max(0));
        assert_eq!(grid.height(), h.max(0));
        assert_eq!(grid.area(), 0);
        assert!(!grid.is_solid(0, 0));
        assert_eq!(partition(&grid), vec![]);
        assert_eq!(build_edges(&grid, TILE_SIZE).edges, vec![]);
        assert_eq!(plate_rows(&grid).len(), h.max(0) as usize);
    }
}

#[test]
fn cells_outside_the_grid_are_ignored() {
    let grid = Grid::from_cells(2, 2, &[(2, 0), (0, 2), (-1, 0), (0, -1), (1, 1), (1, 1)]);
    assert!(grid.is_solid(1, 1));
    assert!(!grid.is_solid(2, 0));
    assert!(!grid.is_solid(0, 2));
    assert!(!grid.is_solid(-1, 0));
    assert!(!grid.is_solid(0, -1));
    assert!(!grid.is_solid(0, 0));
    assert_eq!(partition(&grid), vec![Rect { left: 1, right: 1, bottom: 1, top: 1 }]);
}

#[test]
fn with_solid_marks_one_cell() {
    let grid = Grid::new(3, 3).with_solid(2, 1).with_solid(5, 5);
    for y in 0..3 {
        for x in 0..3 {
            assert_eq!(grid.is_solid(x, y), (x, y) == (2, 1));
        }
    }
}

#[test]
fn groups_are_kept_apart() {
    let cells = [
        TaggedCell { group: 7, x: 0, y: 0 },
        TaggedCell { group: 9, x: 1, y: 0 },
        TaggedCell { group: 7, x: 2, y: 0 },
        TaggedCell { group: 9, x: 0, y: 1 },
    ];
    let seven = Grid::from_group(3, 2, &cells, 7);
    let nine = Grid::from_group(3, 2, &cells, 9);
    let none = Grid::from_group(3, 2, &cells, 8);
    assert!(seven.is_solid(0, 0) && seven.is_solid(2, 0));
    assert!(!seven.is_solid(1, 0) && !seven.is_solid(0, 1));
    // Cells (0, 0), (1, 0), (2, 0) are one row of solid tiles, but of two
    // groups: none of the rectangles spans the row.
    assert_eq!(
        partition(&seven),
        vec![Rect { left: 0, right: 0, bottom: 0, top: 0 }, Rect { left: 2, right: 2, bottom: 0, top: 0 }]
    );
    assert_eq!(
        partition(&nine),
        vec![Rect { left: 1, right: 1, bottom: 0, top: 0 }, Rect { left: 0, right: 0, bottom: 1, top: 1 }]
    );
    assert_eq!(partition(&none), vec![]);
}

#[test]
fn run_touching_the_east_edge_is_closed() {
    let grid = Grid::from_cells(3, 1, &[(1, 0), (2, 0)]);
    assert_eq!(row_plates(&grid, 0), vec![Plate { row: 0, left: 1, right: 2 }]);
    assert_eq!(partition(&grid), vec![Rect { left: 1, right: 2, bottom: 0, top: 0 }]);
}

#[test]
fn rect_touching_the_top_edge_is_closed() {
    let grid = Grid::from_cells(1, 3, &[(0, 1), (0, 2)]);
    assert_eq!(partition(&grid), vec![Rect { left: 0, right: 0, bottom: 1, top: 2 }]);
}

#[test]
fn one_wide_column_is_one_rect_with_long_sides() {
    let grid = Grid::from_cells(3, 4, &[(1, 0), (1, 1), (1, 2), (1, 3)]);
    assert_eq!(partition(&grid), vec![Rect { left: 1, right: 1, bottom: 0, top: 3 }]);
    assert_eq!(
        build_edges(&grid, TILE_SIZE).edges,
        vec![
            Edge { sx: 16, sy: 0, ex: 16, ey: 64 },
            Edge { sx: 32, sy: 0, ex: 32, ey: 64 },
            Edge { sx: 16, sy: 0, ex: 32, ey: 0 },
            Edge { sx: 16, sy: 64, ex: 32, ey: 64 },
        ]
    );
}

#[test]
fn plates_of_differing_width_do_not_merge() {
    // Row 0 holds columns 0..=2, row 1 columns 0..=1, row 2 columns 0..=2.
    let grid =
        Grid::from_cells(3, 3, &[(0, 0), (1, 0), (2, 0), (0, 1), (1, 1), (0, 2), (1, 2), (2, 2)]);
    assert_eq!(
        partition(&grid),
        vec![
            Rect { left: 0, right: 2, bottom: 0, top: 0 },
            Rect { left: 0, right: 1, bottom: 1, top: 1 },
            Rect { left: 0, right: 2, bottom: 2, top: 2 },
        ]
    );
}

#[test]
fn same_plate_after_a_gap_starts_a_new_rect() {
    let grid = Grid::from_cells(2, 3, &[(0, 0), (1, 0), (0, 2), (1, 2)]);
    assert_eq!(
        partition(&grid),
        vec![Rect { left: 0, right: 1, bottom: 0, top: 0 }, Rect { left: 0, right: 1, bottom: 2, top: 2 }]
    );
}

#[test]
fn negative_tile_size_mirrors_the_edges() {
    let grid = Grid::from_cells(2, 1, &[(0, 0), (1, 0)]);
    assert_eq!(
        build_edges(&grid, -2).edges,
        vec![
            Edge { sx: 0, sy: 0, ex: 0, ey: -2 },
            Edge { sx: 0, sy: 0, ex: -4, ey: 0 },
            Edge { sx: 0, sy: -2, ex: -4, ey: -2 },
            Edge { sx: -4, sy: 0, ex: -4, ey: -2 },
        ]
    );
}

#[test]
fn zero_tile_size_collapses_the_edges() {
    let grid = Grid::from_cells(1, 1, &[(0, 0)]);
    assert_eq!(build_edges(&grid, 0).edges, vec![Edge { sx: 0, sy: 0, ex: 0, ey: 0 }; 4]);
}

#[test]
fn rect_contains_and_intersects() {
    let a = Rect { left: 1, right: 3, bottom: 2, top: 4 };
    assert!(a.contains(1, 2) && a.contains(3, 4) && a.contains(2, 3));
    assert!(!a.contains(0, 2) && !a.contains(4, 2) && !a.contains(1, 1) && !a.contains(1, 5));
    assert!(a.intersects(&a));
    assert!(a.intersects(&Rect { left: 3, right: 5, bottom: 4, top: 6 }));
    assert!(!a.intersects(&Rect { left: 4, right: 5, bottom: 2, top: 4 }));
    assert!(!a.intersects(&Rect { left: 1, right: 3, bottom: 5, top: 6 }));
}

#[test]
fn side_slots() {
    assert_eq!(Side::North.index(), 0);
    assert_eq!(Side::South.index(), 1);
    assert_eq!(Side::East.index(), 2);
    assert_eq!(Side::West.index(), 3);
    assert!(Side::West.is_upright() && Side::East.is_upright());
    assert!(!Side::South.is_upright() && !Side::North.is_upright());
}

#[test]
fn cell_record_keeps_sides_apart() {
    let cell = Cell::new();
    for side in [Side::North, Side::South, Side::East, Side::West] {
        assert_eq!(cell.edge(side), None);
    }
    let cell = cell.with_edge(Side::East, 5).with_edge(Side::North, 0);
    assert_eq!(cell.edge(Side::East), Some(5));
    assert_eq!(cell.edge(Side::North), Some(0));
    assert_eq!(cell.edge(Side::South), None);
    assert_eq!(cell.edge(Side::West), None);
    assert_eq!(cell.with_edge(Side::East, 6).edge(Side::East), Some(6));
}

#[test]
fn cell_records_are_kept_per_cell() {
    let cells = Cells::new(3, 2).with_edge(2, 1, Side::West, 4).with_edge(0, 0, Side::West, 1);
    assert_eq!(cells.edge(2, 1, Side::West), Some(4));
    assert_eq!(cells.edge(0, 0, Side::West), Some(1));
    assert_eq!(cells.edge(2, 1, Side::East), None);
    assert_eq!(cells.edge(1, 1, Side::West), None);
    assert_eq!(cells.edge(3, 1, Side::West), None);
    assert_eq!(cells.edge(0, -1, Side::West), None);
    let same = cells.with_edge(3, 0, Side::West, 9).with_edge(0, 2, Side::West, 9);
    assert_eq!(same.edge(0, 0, Side::West), Some(1));
    assert_eq!(same.edge(2, 1, Side::West), Some(4));
    assert_eq!(same.edge(1, 0, Side::West), None);
}

#[test]
fn u_shape_edges_in_scan_order() {
    // Solid: (0, 0), (1, 0), (2, 0), (0, 1), (2, 1).
    let grid = Grid::from_cells(3, 2, &[(0, 0), (1, 0), (2, 0), (0, 1), (2, 1)]);
    assert_eq!(
        build_edges(&grid, 1).edges,
        vec![
            Edge { sx: 0, sy: 0, ex: 0, ey: 2 },
            Edge { sx: 0, sy: 0, ex: 3, ey: 0 },
            Edge { sx: 1, sy: 1, ex: 2, ey: 1 },
            Edge { sx: 3, sy: 0, ex: 3, ey: 2 },
            Edge { sx: 1, sy: 1, ex: 1, ey: 2 },
            Edge { sx: 0, sy: 2, ex: 1, ey: 2 },
            Edge { sx: 2, sy: 1, ex: 2, ey: 2 },
            Edge { sx: 2, sy: 2, ex: 3, ey: 2 },
        ]
    );
    assert_eq!(
        partition(&grid),
        vec![
            Rect { left: 0, right: 2, bottom: 0, top: 0 },
            Rect { left: 0, right: 0, bottom: 1, top: 1 },
            Rect { left: 2, right: 2, bottom: 1, top: 1 },
        ]
    );
}
