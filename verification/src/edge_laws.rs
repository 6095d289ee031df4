//! What holds of the boundary edges: each boundary side of a solid cell lies
//! on exactly one segment, a side between two solid cells on none, and sides
//! that follow each other along a line lie on the same segment.

use crate::edges::{lemma_scaled_fits, Edge};
use crate::grid::GridModel;
use crate::runs::{scanned, Side};
use vstd::prelude::*;

verus! {

/// Whether segment `e` runs along the whole of side `side` of cell `(x, y)`,
/// with tiles of size `tile`.
pub open spec fn covers_side(e: Edge, tile: int, side: Side, x: int, y: int) -> bool {
    match side {
        Side::West => e.sx == x * tile && e.ex == x * tile && e.sy <= y * tile && (y + 1) * tile
            <= e.ey,
        Side::East => e.sx == (x + 1) * tile && e.ex == (x + 1) * tile && e.sy <= y * tile && (y
            + 1) * tile <= e.ey,
        Side::South => e.sy == y * tile && e.ey == y * tile && e.sx <= x * tile && (x + 1) * tile
            <= e.ex,
        Side::North => e.sy == (y + 1) * tile && e.ey == (y + 1) * tile && e.sx <= x * tile && (x
            + 1) * tile <= e.ex,
    }
}

/// Whether exactly one of the segments runs along side `side` of cell `(x, y)`.
pub open spec fn covered_once(edges: Seq<Edge>, tile: int, side: Side, x: int, y: int) -> bool {
    exists|i: int|
        0 <= i < edges.len() && covers_side(#[trigger] edges[i], tile, side, x, y) && forall|
            j: int,
        |
            0 <= j < edges.len() && covers_side(#[trigger] edges[j], tile, side, x, y) ==> j == i
}

/// Whether none of the segments runs along side `side` of cell `(x, y)`.
pub open spec fn uncovered(edges: Seq<Edge>, tile: int, side: Side, x: int, y: int) -> bool {
    forall|j: int| 0 <= j < edges.len() ==> !covers_side(#[trigger] edges[j], tile, side, x, y)
}

/// Whether one segment runs along side `side` of cell `(x, y)` and along the
/// same side of the next cell on its line as well.
pub open spec fn merged_with_next(edges: Seq<Edge>, tile: int, side: Side, x: int, y: int) -> bool {
    exists|i: int|
        0 <= i < edges.len() && covers_side(#[trigger] edges[i], tile, side, x, y) && covers_side(
            edges[i],
            tile,
            side,
            side.cell(side.line(x, y), side.pos(x, y) + 1).0,
            side.cell(side.line(x, y), side.pos(x, y) + 1).1,
        )
}

/// With a positive tile size, world coordinates stand in the order of the
/// cell coordinates they come from.
pub proof fn lemma_scale_order(a: int, b: int, tile: int)
    requires
        tile > 0,
    ensures
        a <= b <==> a * tile <= b * tile,
        a < b <==> a * tile < b * tile,
        a == b <==> a * tile == b * tile,
{
    assert(a <= b ==> a * tile <= b * tile) by (nonlinear_arith)
        requires
            tile > 0,
    ;
    assert(a < b ==> a * tile < b * tile) by (nonlinear_arith)
        requires
            tile > 0,
    ;
    assert(b < a ==> b * tile < a * tile) by (nonlinear_arith)
        requires
            tile > 0,
    ;
}

impl GridModel {
    /// Whether the segments close side `side` of the solid cell `(x, y)` as
    /// they should: exactly one runs along it if the side is boundary, and
    /// none if the cell beyond it is solid too.
    pub open spec fn side_closed(
        self,
        edges: Seq<Edge>,
        tile: int,
        side: Side,
        x: int,
        y: int,
    ) -> bool {
        if self.exposed(side, x, y) {
            covered_once(edges, tile, side, x, y)
        } else {
            uncovered(edges, tile, side, x, y)
        }
    }

    /// The segment in place `j` is that of the run in place `j`, which
    /// begins at a cell of the grid and cannot be made longer at either end;
    /// its coordinates are the run's cell coordinates times the tile size.
    pub proof fn lemma_edge_of_run(self, tile: i32, j: int)
        requires
            0 <= j < self.edges(tile as int).len(),
        ensures
            self.runs().len() == self.edges(tile as int).len(),
            self.edges(tile as int)[j] == self.edge_of(tile as int, self.runs()[j]),
            self.run_starts(self.runs()[j].side, self.runs()[j].x as int, self.runs()[j].y as int),
            ({
                let r = self.runs()[j];
                let e = self.edges(tile as int)[j];
                let stop = self.stop_of(r);
                &&& r.side.pos(r.x as int, r.y as int) <= stop < self.reach(r.side)
                &&& !self.bare(r.side, r.side.line(r.x as int, r.y as int), stop + 1)
                &&& match r.side {
                    Side::West => e.sx == r.x * tile && e.ex == r.x * tile && e.sy == r.y * tile
                        && e.ey == (stop + 1) * tile,
                    Side::East => e.sx == (r.x + 1) * tile && e.ex == (r.x + 1) * tile && e.sy
                        == r.y * tile && e.ey == (stop + 1) * tile,
                    Side::South => e.sy == r.y * tile && e.ey == r.y * tile && e.sx == r.x * tile
                        && e.ex == (stop + 1) * tile,
                    Side::North => e.sy == (r.y + 1) * tile && e.ey == (r.y + 1) * tile && e.sx
                        == r.x * tile && e.ex == (stop + 1) * tile,
                }
            }),
    {
        let r = self.runs()[j];
        self.lemma_all_rows();
        self.lemma_runs_at(0, self.height as int, 0, j, j);
        self.lemma_run_stop(
            r.side,
            r.side.line(r.x as int, r.y as int),
            r.side.pos(r.x as int, r.y as int),
        );
        lemma_scaled_fits(r.x as int, tile as int);
        lemma_scaled_fits(r.x + 1, tile as int);
        lemma_scaled_fits(r.y as int, tile as int);
        lemma_scaled_fits(r.y + 1, tile as int);
        lemma_scaled_fits(self.stop_of(r) + 1, tile as int);
    }

    /// Every segment is parallel to an axis.
    pub proof fn lemma_edges_axis_aligned(self, tile: i32, j: int)
        requires
            0 <= j < self.edges(tile as int).len(),
        ensures
            self.edges(tile as int)[j].sx == self.edges(tile as int)[j].ex || self.edges(
                tile as int,
            )[j].sy == self.edges(tile as int)[j].ey,
    {
        self.lemma_edge_of_run(tile, j);
    }

    /// A segment that runs along a side of a solid cell is the segment of
    /// the run that holds that side; so the side is boundary.
    pub proof fn lemma_cover_is_own_run(self, tile: i32, side: Side, x: int, y: int, j: int)
        requires
            tile > 0,
            self.solid(x, y),
            0 <= j < self.edges(tile as int).len(),
            covers_side(self.edges(tile as int)[j], tile as int, side, x, y),
        ensures
            self.exposed(side, x, y),
            self.runs()[j] == self.run_of(side, x, y),
    {
        let r = self.runs()[j];
        let e = self.edges(tile as int)[j];
        let stop = self.stop_of(r);
        let t = tile as int;
        self.lemma_edge_of_run(tile, j);
        let rline = r.side.line(r.x as int, r.y as int);
        let rpos = r.side.pos(r.x as int, r.y as int);
        self.lemma_run_stop(r.side, rline, rpos);
        lemma_scale_order(x, x + 1, t);
        lemma_scale_order(y, y + 1, t);
        lemma_scale_order(r.x as int, x, t);
        lemma_scale_order(r.x + 1, x, t);
        lemma_scale_order(r.x as int, x + 1, t);
        lemma_scale_order(r.x + 1, x + 1, t);
        lemma_scale_order(r.y as int, y, t);
        lemma_scale_order(r.y + 1, y, t);
        lemma_scale_order(r.y as int, y + 1, t);
        lemma_scale_order(r.y + 1, y + 1, t);
        lemma_scale_order(x + 1, stop + 1, t);
        lemma_scale_order(y + 1, stop + 1, t);
        lemma_scale_order(rpos, stop + 1, t);
        assert(r.side.upright() == side.upright());
        let pos = side.pos(x, y);
        assert(rpos <= pos <= stop);
        assert(self.bare(r.side, rline, pos));
        assert(r.side == side);
        self.lemma_run_origin_is(side, rline, pos, rpos);
    }

    /// Each boundary side of a solid cell lies on exactly one segment: the
    /// result names it, and no other segment runs along that side.
    pub proof fn lemma_side_covered_once(self, tile: i32, side: Side, x: int, y: int) -> (i: int)
        requires
            tile > 0,
            self.exposed(side, x, y),
        ensures
            0 <= i < self.edges(tile as int).len(),
            covers_side(self.edges(tile as int)[i], tile as int, side, x, y),
            forall|j: int|
                0 <= j < self.edges(tile as int).len() && covers_side(
                    #[trigger] self.edges(tile as int)[j],
                    tile as int,
                    side,
                    x,
                    y,
                ) ==> j == i,
    {
        let t = tile as int;
        let line = side.line(x, y);
        let pos = side.pos(x, y);
        let first = self.run_origin(side, line, pos);
        let r = self.run_of(side, x, y);
        let h = self.height as int;
        self.lemma_run_origin(side, line, pos);
        self.lemma_run_stop(side, line, pos);
        assert(self.bare(side, line, first));
        assert(scanned(0, h, 0, side, r.x as int, r.y as int));
        let i = self.lemma_runs_at_has(0, h, 0, side, r.x as int, r.y as int);
        self.lemma_all_rows();
        self.lemma_edge_of_run(tile, i);
        lemma_scale_order(first, pos, t);
        lemma_scale_order(pos + 1, self.stop_of(r) + 1, t);
        assert forall|j: int|
            0 <= j < self.edges(t).len() && covers_side(
                #[trigger] self.edges(t)[j],
                t,
                side,
                x,
                y,
            ) implies j == i by {
            self.lemma_cover_is_own_run(tile, side, x, y, j);
            if j < i {
                self.lemma_runs_at(0, h, 0, j, i);
            } else if i < j {
                self.lemma_runs_at(0, h, 0, i, j);
            }
        }
        i
    }

    /// A side between two solid cells lies on no segment.
    pub proof fn lemma_inner_side_uncovered(self, tile: i32, side: Side, x: int, y: int, j: int)
        requires
            tile > 0,
            self.solid(x, y),
            !self.exposed(side, x, y),
            0 <= j < self.edges(tile as int).len(),
        ensures
            !covers_side(self.edges(tile as int)[j], tile as int, side, x, y),
    {
        if covers_side(self.edges(tile as int)[j], tile as int, side, x, y) {
            self.lemma_cover_is_own_run(tile, side, x, y, j);
        }
    }

    /// Two boundary sides that follow each other along their line, with no
    /// gap between them, lie on one and the same segment, which the result
    /// names. For south and north sides these are the sides of `(x, y)` and
    /// `(x + 1, y)`, for west and east sides those of `(x, y)` and `(x, y + 1)`.
    pub proof fn lemma_adjacent_sides_merge(self, tile: i32, side: Side, x: int, y: int) -> (i: int)
        requires
            tile > 0,
            self.exposed(side, x, y),
            self.bare(side, side.line(x, y), side.pos(x, y) + 1),
        ensures
            0 <= i < self.edges(tile as int).len(),
            covers_side(self.edges(tile as int)[i], tile as int, side, x, y),
            covers_side(
                self.edges(tile as int)[i],
                tile as int,
                side,
                side.cell(side.line(x, y), side.pos(x, y) + 1).0,
                side.cell(side.line(x, y), side.pos(x, y) + 1).1,
            ),
            merged_with_next(self.edges(tile as int), tile as int, side, x, y),
    {
        let line = side.line(x, y);
        let pos = side.pos(x, y);
        let (nx, ny) = side.cell(line, pos + 1);
        let i = self.lemma_side_covered_once(tile, side, x, y);
        let k = self.lemma_side_covered_once(tile, side, nx, ny);
        self.lemma_cover_is_own_run(tile, side, x, y, i);
        self.lemma_cover_is_own_run(tile, side, nx, ny, k);
        assert(self.run_of(side, nx, ny) == self.run_of(side, x, y));
        if i < k {
            self.lemma_all_rows();
            self.lemma_runs_at(0, self.height as int, 0, i, k);
        } else if k < i {
            self.lemma_all_rows();
            self.lemma_runs_at(0, self.height as int, 0, k, i);
        }
        i
    }

    /// The boundary edges close every side of every solid cell: exactly one
    /// segment runs along a side that is boundary, none along a side
    /// between two solid cells.
    pub proof fn lemma_side_closed(self, tile: i32, side: Side, x: int, y: int)
        requires
            tile > 0,
            self.solid(x, y),
        ensures
            self.side_closed(self.edges(tile as int), tile as int, side, x, y),
    {
        let edges = self.edges(tile as int);
        if self.exposed(side, x, y) {
            let i = self.lemma_side_covered_once(tile, side, x, y);
            assert(covers_side(edges[i], tile as int, side, x, y));
        } else {
            assert forall|j: int| 0 <= j < edges.len() implies !covers_side(
                #[trigger] edges[j],
                tile as int,
                side,
                x,
                y,
            ) by {
                self.lemma_inner_side_uncovered(tile, side, x, y, j);
            }
        }
    }

    proof fn lemma_agree_run_stop(self, other: GridModel, side: Side, line: int, pos: int)
        requires
            self.agrees(other),
        ensures
            self.run_stop(side, line, pos) == other.run_stop(side, line, pos),
        decreases self.reach(side) - pos,
    {
        if self.bare(side, line, pos + 1) {
            self.lemma_agree_run_stop(other, side, line, pos + 1);
        }
    }

    proof fn lemma_agree_cell_runs(self, other: GridModel, x: int, y: int, s: int)
        requires
            self.agrees(other),
        ensures
            self.cell_runs(x, y, s) == other.cell_runs(x, y, s),
        decreases s,
    {
        if s > 0 {
            self.lemma_agree_cell_runs(other, x, y, s - 1);
        }
    }

    proof fn lemma_agree_row_runs(self, other: GridModel, y: int, n: int)
        requires
            self.agrees(other),
        ensures
            self.row_runs(y, n) == other.row_runs(y, n),
        decreases n,
    {
        if n > 0 {
            self.lemma_agree_row_runs(other, y, n - 1);
            self.lemma_agree_cell_runs(other, n - 1, y, 4);
        }
    }

    proof fn lemma_agree_runs(self, other: GridModel, m: int)
        requires
            self.agrees(other),
        ensures
            self.runs_upto(m) == other.runs_upto(m),
        decreases m,
    {
        if m > 0 {
            self.lemma_agree_runs(other, m - 1);
            self.lemma_agree_row_runs(other, m - 1, self.width as int);
        }
    }

    /// The boundary edges are determined by the size of the grid, its solid
    /// cells and the tile size: grids that agree have the same segments in
    /// the same order.
    pub proof fn lemma_edges_repeatable(self, other: GridModel, tile: int)
        requires
            self.agrees(other),
        ensures
            self.edges(tile) == other.edges(tile),
    {
        self.lemma_agree_runs(other, self.height as int);
        assert forall|i: int| 0 <= i < self.runs().len() implies self.edge_of(tile, self.runs()[i])
            == other.edge_of(tile, other.runs()[i]) by {
            let r = self.runs()[i];
            self.lemma_agree_run_stop(
                other,
                r.side,
                r.side.line(r.x as int, r.y as int),
                r.side.pos(r.x as int, r.y as int),
            );
        }
        assert(self.edges(tile) =~= other.edges(tile));
    }
}

} // verus!
