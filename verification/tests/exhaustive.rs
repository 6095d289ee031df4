use grid_geometry::{build_edges, partition, Edge, Grid, Rect, Side};

const SIDES: [Side; 4] = [Side::West, Side::East, Side::South, Side::North];

/// The grid of the given size whose cell `(x, y)` is solid where bit
/// `y * width + x` of `bits` is set.
fn grid_from_bits(width: i32, height: i32, bits: u32) -> Grid {
    let mut cells = Vec::new();
    for y in 0..height {
        for x in 0..width {
            if bits >> (y * width + x) & 1 == 1 {
                cells.push((x, y));
            }
        }
    }
    Grid::from_cells(width, height, &cells)
}

fn facing(side: Side, x: i32, y: i32) -> (i32, i32) {
    match side {
        Side::West => (x - 1, y),
        Side::East => (x + 1, y),
        Side::South => (x, y - 1),
        Side::North => (x, y + 1),
    }
}

fn covers_side(e: &Edge, tile: i64, side: Side, x: i32, y: i32) -> bool {
    let (x, y) = (x as i64, y as i64);
    match side {
        Side::West => e.sx == x * tile && e.ex == x * tile && e.sy <= y * tile && (y + 1) * tile <= e.ey,
        Side::East => {
            e.sx == (x + 1) * tile && e.ex == (x + 1) * tile && e.sy <= y * tile && (y + 1) * tile <= e.ey
        }
        Side::South => e.sy == y * tile && e.ey == y * tile && e.sx <= x * tile && (x + 1) * tile <= e.ex,
        Side::North => {
            e.sy == (y + 1) * tile && e.ey == (y + 1) * tile && e.sx <= x * tile && (x + 1) * tile <= e.ex
        }
    }
}

fn count_covering(edges: &[Edge], tile: i64, side: Side, x: i32, y: i32) -> usize {
    edges.iter().filter(|e| covers_side(e, tile, side, x, y)).count()
}

fn check_partition(grid: &Grid, rects: &[Rect]) {
    for y in -1..=grid.height() {
        for x in -1..=grid.width() {
            let holders = rects.iter().filter(|r| r.contains(x, y)).count();
            assert_eq!(holders, if grid.is_solid(x, y) { 1 } else { 0 }, "cell ({x}, {y})");
        }
    }
    for (i, a) in rects.iter().enumerate() {
        assert!(a.left <= a.right && a.bottom <= a.top);
        for (j, b) in rects.iter().enumerate() {
            assert_eq!(a.intersects(b), i == j);
        }
    }
}

fn check_edges(grid: &Grid, edges: &[Edge], tile: i32) {
    for e in edges {
        assert!(e.sx == e.ex || e.sy == e.ey);
        assert!(e.sx < e.ex || e.sy < e.ey);
    }
    for y in 0..grid.height() {
        for x in 0..grid.width() {
            if !grid.is_solid(x, y) {
                continue;
            }
            for side in SIDES {
                let (fx, fy) = facing(side, x, y);
                let expected = if grid.is_solid(fx, fy) { 0 } else { 1 };
                assert_eq!(count_covering(edges, tile as i64, side, x, y), expected);
            }
        }
    }
}

#[test]
fn every_three_by_three_grid_is_covered_without_overlap() {
    for bits in 0..512 {
        let grid = grid_from_bits(3, 3, bits);
        check_partition(&grid, &partition(&grid));
    }
}

#[test]
fn every_four_by_three_grid_is_covered_without_overlap() {
    for bits in 0..4096 {
        let grid = grid_from_bits(4, 3, bits);
        check_partition(&grid, &partition(&grid));
    }
}

#[test]
fn partition_twice_gives_the_same_list() {
    for bits in 0..512 {
        let grid = grid_from_bits(3, 3, bits);
        assert_eq!(partition(&grid), partition(&grid));
        let again = grid_from_bits(3, 3, bits);
        assert_eq!(partition(&grid), partition(&again));
    }
}

#[test]
fn every_side_of_every_three_by_three_grid_is_closed() {
    for bits in 0..512 {
        let grid = grid_from_bits(3, 3, bits);
        check_edges(&grid, &build_edges(&grid, 1).edges, 1);
        check_edges(&grid, &build_edges(&grid, 16).edges, 16);
    }
}

#[test]
fn every_side_of_every_four_by_three_grid_is_closed() {
    for bits in 0..4096 {
        let grid = grid_from_bits(4, 3, bits);
        check_edges(&grid, &build_edges(&grid, 7).edges, 7);
    }
}

#[test]
fn adjacent_sides_lie_on_one_segment() {
    for bits in 0..4096 {
        let grid = grid_from_bits(4, 3, bits);
        let edges = build_edges(&grid, 1).edges;
        for y in 0..3 {
            for x in 0..4 {
                for side in SIDES {
                    let (nx, ny) = match side {
                        Side::West | Side::East => (x, y + 1),
                        Side::South | Side::North => (x + 1, y),
                    };
                    let (fx, fy) = facing(side, x, y);
                    let (gx, gy) = facing(side, nx, ny);
                    let both = grid.is_solid(x, y)
                        && !grid.is_solid(fx, fy)
                        && grid.is_solid(nx, ny)
                        && !grid.is_solid(gx, gy);
                    if both {
                        let shared = edges
                            .iter()
                            .filter(|e| covers_side(e, 1, side, x, y) && covers_side(e, 1, side, nx, ny))
                            .count();
                        assert_eq!(shared, 1);
                    }
                }
            }
        }
    }
}

#[test]
fn rectangles_come_out_by_top_row_then_from_the_west() {
    for bits in 0..4096 {
        let grid = grid_from_bits(4, 3, bits);
        let rects = partition(&grid);
        for pair in rects.windows(2) {
            assert!((pair[0].top, pair[0].left) < (pair[1].top, pair[1].left));
        }
    }
}

#[test]
fn interior_cell_has_no_edges_of_its_own() {
    let grid = grid_from_bits(3, 3, 0b111_111_111);
    let edges = build_edges(&grid, 1).edges;
    for side in SIDES {
        assert_eq!(count_covering(&edges, 1, side, 1, 1), 0);
    }
    assert_eq!(
        edges,
        vec![
            Edge { sx: 0, sy: 0, ex: 0, ey: 3 },
            Edge { sx: 0, sy: 0, ex: 3, ey: 0 },
            Edge { sx: 3, sy: 0, ex: 3, ey: 3 },
            Edge { sx: 0, sy: 3, ex: 3, ey: 3 },
        ]
    );
}

#[test]
fn diagonal_cells_keep_their_sides_apart() {
    // (0, 0) and (1, 1): the north side of the first and the south side of
    // the second lie on the line y = 1 and touch, but are different runs.
    let grid = Grid::from_cells(2, 2, &[(0, 0), (1, 1)]);
    let edges = build_edges(&grid, 1).edges;
    assert_eq!(edges.len(), 8);
    assert!(edges.contains(&Edge { sx: 0, sy: 1, ex: 1, ey: 1 }));
    assert!(edges.contains(&Edge { sx: 1, sy: 1, ex: 2, ey: 1 }));
    assert_eq!(partition(&grid), vec![
        Rect { left: 0, right: 0, bottom: 0, top: 0 },
        Rect { left: 1, right: 1, bottom: 1, top: 1 },
    ]);
}
