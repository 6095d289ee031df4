//! Boundary edges: every run of boundary as one straight segment in world
//! units.

use crate::cells::Cells;
use crate::edge_laws::merged_with_next;
use crate::grid::{Grid, GridModel};
use crate::runs::{scanned, Run, Side};
use vstd::prelude::*;

verus! {

/// Edge length of a tile in world units, as levels are commonly drawn.
pub const TILE_SIZE: i32 = 16;

/// A straight, axis-aligned segment from `(sx, sy)` to `(ex, ey)` in world
/// units.
#[derive(Clone, Copy, Debug, PartialEq, Eq, Structural)]
pub struct Edge {
    pub sx: i64,
    pub sy: i64,
    pub ex: i64,
    pub ey: i64,
}

/// The boundary edges of one grid, in the order in which a scan of the grid
/// meets them.
#[derive(Debug)]
pub struct Edges {
    pub edges: Vec<Edge>,
}

/// The segment along side `side` of the cells from `(x, y)` to place `stop`
/// of its line, with tiles of size `tile`.
///
/// A west side lies on the line `x`, an east side on `x + 1`; a south side
/// on the line `y`, a north side on `y + 1`.
pub open spec fn edge_between(tile: int, side: Side, x: int, y: int, stop: int) -> Edge {
    match side {
        Side::West => Edge {
            sx: (x * tile) as i64,
            sy: (y * tile) as i64,
            ex: (x * tile) as i64,
            ey: ((stop + 1) * tile) as i64,
        },
        Side::East => Edge {
            sx: ((x + 1) * tile) as i64,
            sy: (y * tile) as i64,
            ex: ((x + 1) * tile) as i64,
            ey: ((stop + 1) * tile) as i64,
        },
        Side::South => Edge {
            sx: (x * tile) as i64,
            sy: (y * tile) as i64,
            ex: ((stop + 1) * tile) as i64,
            ey: (y * tile) as i64,
        },
        Side::North => Edge {
            sx: (x * tile) as i64,
            sy: ((y + 1) * tile) as i64,
            ex: ((stop + 1) * tile) as i64,
            ey: ((y + 1) * tile) as i64,
        },
    }
}

/// The segment `e`, made one tile longer at its far end.
spec fn grown(e: Edge, side: Side, tile: int) -> Edge {
    if side.upright() {
        Edge { sx: e.sx, sy: e.sy, ex: e.ex, ey: (e.ey + tile) as i64 }
    } else {
        Edge { sx: e.sx, sy: e.sy, ex: (e.ex + tile) as i64, ey: e.ey }
    }
}

/// The smaller of two numbers.
spec fn lesser(a: int, b: int) -> int {
    if a <= b {
        a
    } else {
        b
    }
}

/// A cell coordinate times a tile size is a world coordinate that fits.
pub proof fn lemma_scaled_fits(k: int, tile: int)
    requires
        0 <= k <= 0x8000_0000,
        -0x8000_0000 <= tile < 0x8000_0000,
    ensures
        -0x4000_0000_0000_0000 <= k * tile <= 0x4000_0000_0000_0000,
        (k + 1) * tile == k * tile + tile,
{
    assert(-0x4000_0000_0000_0000 <= k * tile <= 0x4000_0000_0000_0000) by (nonlinear_arith)
        requires
            0 <= k <= 0x8000_0000,
            -0x8000_0000 <= tile < 0x8000_0000,
    ;
    assert((k + 1) * tile == k * tile + tile) by (nonlinear_arith);
}

impl GridModel {
    /// The run that holds side `side` of the cell `(x, y)`.
    pub open spec fn run_of(self, side: Side, x: int, y: int) -> Run {
        let first = self.run_origin(side, side.line(x, y), side.pos(x, y));
        Run {
            side,
            x: side.cell(side.line(x, y), first).0 as i32,
            y: side.cell(side.line(x, y), first).1 as i32,
        }
    }

    /// The last place of the run `run`.
    pub open spec fn stop_of(self, run: Run) -> int {
        self.run_stop(
            run.side,
            run.side.line(run.x as int, run.y as int),
            run.side.pos(run.x as int, run.y as int),
        )
    }

    /// The segment of the run `run`, with tiles of size `tile`.
    pub open spec fn edge_of(self, tile: int, run: Run) -> Edge {
        edge_between(tile, run.side, run.x as int, run.y as int, self.stop_of(run))
    }

    /// The boundary between solid and open space: one segment for every run,
    /// in the order of the runs.
    pub open spec fn edges(self, tile: int) -> Seq<Edge> {
        Seq::new(self.runs().len(), |i: int| self.edge_of(tile, self.runs()[i]))
    }

    /// The last place, on line `line`, whose side `side` a scan has visited
    /// by the time it stands at side `s` of cell `(cx, cy)`; one less than
    /// the first place if it has visited none.
    spec fn last_visited(self, cx: int, cy: int, s: int, side: Side, line: int) -> int {
        if side.upright() {
            if line < cx || (line == cx && side.order() < s) {
                cy
            } else {
                cy - 1
            }
        } else {
            if line < cy {
                self.width - 1
            } else if line == cy {
                if side.order() < s {
                    cx
                } else {
                    cx - 1
                }
            } else {
                -1
            }
        }
    }

    /// The segment of the run `run` as far as a scan has followed it by the
    /// time it stands at side `s` of cell `(cx, cy)`.
    spec fn edge_so_far(self, tile: int, cx: int, cy: int, s: int, run: Run) -> Edge {
        edge_between(
            tile,
            run.side,
            run.x as int,
            run.y as int,
            lesser(
                self.stop_of(run),
                self.last_visited(cx, cy, s, run.side, run.side.line(run.x as int, run.y as int)),
            ),
        )
    }

    /// What a scan holds when it stands at side `s` of cell `(cx, cy)`: one
    /// segment for each run it has met, as long as the part it has followed;
    /// and for each side that it has visited and found to be boundary, the
    /// place of that side's run among the segments.
    spec fn scan_ok(
        self,
        tile: int,
        cx: int,
        cy: int,
        s: int,
        edges: Seq<Edge>,
        marks: Map<(int, int, Side), usize>,
    ) -> bool {
        &&& edges.len() == self.runs_at(cx, cy, s).len()
        &&& forall|i: int|
            0 <= i < edges.len() ==> #[trigger] edges[i] == self.edge_so_far(
                tile,
                cx,
                cy,
                s,
                self.runs_at(cx, cy, s)[i],
            )
        &&& forall|x: int, y: int, side: Side|
            self.in_bounds(x, y) ==> (#[trigger] marks.dom().contains((x, y, side)) <==> scanned(
                cx,
                cy,
                s,
                side,
                x,
                y,
            ) && self.exposed(side, x, y))
        &&& forall|x: int, y: int, side: Side|
            self.in_bounds(x, y) && #[trigger] marks.dom().contains((x, y, side)) ==> marks[(
                x,
                y,
                side,
            )] < edges.len() && self.runs_at(cx, cy, s)[marks[(x, y, side)] as int] == self.run_of(
                side,
                x,
                y,
            )
    }

    /// A run that a scan has met does not change its followed part when the
    /// scan visits a side that the run does not hold.
    proof fn lemma_untouched(self, tile: int, x: int, y: int, s: int, i: int)
        requires
            0 <= s < 4,
            0 <= i < self.runs_at(x, y, s).len(),
            self.in_bounds(x, y),
            self.exposed(Side::at(s), x, y) ==> self.runs_at(x, y, s)[i] != self.run_of(
                Side::at(s),
                x,
                y,
            ),
        ensures
            self.edge_so_far(tile, x, y, s + 1, self.runs_at(x, y, s)[i]) == self.edge_so_far(
                tile,
                x,
                y,
                s,
                self.runs_at(x, y, s)[i],
            ),
    {
        let side = Side::at(s);
        let run = self.runs_at(x, y, s)[i];
        let line = side.line(x, y);
        let pos = side.pos(x, y);
        self.lemma_runs_at(x, y, s, i, i);
        if run.side == side && run.side.line(run.x as int, run.y as int) == line {
            let first = side.pos(run.x as int, run.y as int);
            self.lemma_run_stop(side, line, first);
            if self.stop_of(run) >= pos {
                assert(self.bare(side, line, pos));
                self.lemma_run_origin_is(side, line, pos, first);
            }
        }
    }

    /// Visiting a side that is no boundary changes nothing.
    proof fn lemma_pass_side(
        self,
        tile: int,
        x: int,
        y: int,
        s: int,
        edges: Seq<Edge>,
        marks: Map<(int, int, Side), usize>,
    )
        requires
            0 <= s < 4,
            self.in_bounds(x, y),
            !self.exposed(Side::at(s), x, y),
            self.scan_ok(tile, x, y, s, edges, marks),
        ensures
            self.scan_ok(tile, x, y, s + 1, edges, marks),
    {
        self.lemma_visit_side(x, y, s);
        assert forall|i: int| 0 <= i < edges.len() implies #[trigger] edges[i]
            == self.edge_so_far(tile, x, y, s + 1, self.runs_at(x, y, s + 1)[i]) by {
            self.lemma_untouched(tile, x, y, s, i);
        }
    }

    /// Visiting a side that is boundary and follows boundary on its line
    /// makes the segment of its run one tile longer.
    proof fn lemma_extend(
        self,
        tile: int,
        x: int,
        y: int,
        s: int,
        edges: Seq<Edge>,
        marks: Map<(int, int, Side), usize>,
        id: usize,
    )
        requires
            0 <= s < 4,
            -0x8000_0000 <= tile < 0x8000_0000,
            self.exposed(Side::at(s), x, y),
            self.scan_ok(tile, x, y, s, edges, marks),
            self.bare(Side::at(s), Side::at(s).line(x, y), Side::at(s).pos(x, y) - 1),
            id < edges.len(),
            self.runs_at(x, y, s)[id as int] == self.run_of(Side::at(s), x, y),
        ensures
            self.scan_ok(
                tile,
                x,
                y,
                s + 1,
                edges.update(id as int, grown(edges[id as int], Side::at(s), tile)),
                marks.insert((x, y, Side::at(s)), id),
            ),
            if Side::at(s).upright() {
                edges[id as int].ey + tile == ((Side::at(s).pos(x, y) + 1) * tile)
            } else {
                edges[id as int].ex + tile == ((Side::at(s).pos(x, y) + 1) * tile)
            },
            -0x4000_0000_0000_0000 <= (Side::at(s).pos(x, y) + 1) * tile <= 0x4000_0000_0000_0000,
    {
        let side = Side::at(s);
        let line = side.line(x, y);
        let pos = side.pos(x, y);
        let runs = self.runs_at(x, y, s);
        let run = runs[id as int];
        let first = self.run_origin(side, line, pos);
        let edges2 = edges.update(id as int, grown(edges[id as int], side, tile));
        let marks2 = marks.insert((x, y, side), id);
        self.lemma_visit_side(x, y, s);
        self.lemma_run_origin(side, line, pos);
        self.lemma_run_stop(side, line, pos);
        self.lemma_runs_at(x, y, s, id as int, id as int);
        lemma_scaled_fits(pos, tile);
        lemma_scaled_fits(pos + 1, tile);
        assert(side.pos(run.x as int, run.y as int) == first);
        assert(side.line(run.x as int, run.y as int) == line);
        assert(self.stop_of(run) == self.run_stop(side, line, pos));
        assert(edges[id as int] == edge_between(tile, side, run.x as int, run.y as int, pos - 1));
        assert(edges2[id as int] == edge_between(tile, side, run.x as int, run.y as int, pos));
        assert forall|i: int| 0 <= i < edges2.len() implies #[trigger] edges2[i]
            == self.edge_so_far(tile, x, y, s + 1, self.runs_at(x, y, s + 1)[i]) by {
            if i != id {
                if i < id {
                    self.lemma_runs_at(x, y, s, i, id as int);
                } else {
                    self.lemma_runs_at(x, y, s, id as int, i);
                }
                self.lemma_untouched(tile, x, y, s, i);
            }
        }
    }

    /// Visiting a side that is boundary and follows none on its line begins
    /// a run, with a segment one tile long.
    proof fn lemma_begin(
        self,
        tile: int,
        x: int,
        y: int,
        s: int,
        edges: Seq<Edge>,
        marks: Map<(int, int, Side), usize>,
    )
        requires
            0 <= s < 4,
            self.exposed(Side::at(s), x, y),
            self.scan_ok(tile, x, y, s, edges, marks),
            !self.bare(Side::at(s), Side::at(s).line(x, y), Side::at(s).pos(x, y) - 1),
            edges.len() <= usize::MAX,
        ensures
            self.scan_ok(
                tile,
                x,
                y,
                s + 1,
                edges.push(edge_between(tile, Side::at(s), x, y, Side::at(s).pos(x, y))),
                marks.insert((x, y, Side::at(s)), edges.len() as usize),
            ),
    {
        let side = Side::at(s);
        let line = side.line(x, y);
        let pos = side.pos(x, y);
        let run = Run { side, x: x as i32, y: y as i32 };
        let edges2 = edges.push(edge_between(tile, side, x, y, pos));
        let marks2 = marks.insert((x, y, side), edges.len() as usize);
        self.lemma_visit_side(x, y, s);
        self.lemma_run_stop(side, line, pos);
        assert(self.run_of(side, x, y) == run);
        assert forall|i: int| 0 <= i < edges2.len() implies #[trigger] edges2[i]
            == self.edge_so_far(tile, x, y, s + 1, self.runs_at(x, y, s + 1)[i]) by {
            if i < edges.len() {
                self.lemma_runs_at(x, y, s, i, i);
                self.lemma_untouched(tile, x, y, s, i);
            }
        }
    }

    /// Leaving a cell, the scan holds what it holds on entering the next.
    proof fn lemma_scan_next_cell(
        self,
        tile: int,
        x: int,
        y: int,
        edges: Seq<Edge>,
        marks: Map<(int, int, Side), usize>,
    )
        requires
            0 <= x,
            self.scan_ok(tile, x, y, 4, edges, marks),
        ensures
            self.scan_ok(tile, x + 1, y, 0, edges, marks),
    {
        self.lemma_next_cell(x, y);
    }

    /// Leaving a row, the scan holds what it holds on entering the next.
    proof fn lemma_scan_next_row(
        self,
        tile: int,
        y: int,
        edges: Seq<Edge>,
        marks: Map<(int, int, Side), usize>,
    )
        requires
            0 <= y,
            self.scan_ok(tile, self.width as int, y, 0, edges, marks),
        ensures
            self.scan_ok(tile, 0, y + 1, 0, edges, marks),
    {
        self.lemma_next_row(y);
        let w = self.width as int;
        assert forall|i: int| 0 <= i < edges.len() implies #[trigger] edges[i] == self.edge_so_far(
            tile,
            0,
            y + 1,
            0,
            self.runs_at(0, y + 1, 0)[i],
        ) by {
            self.lemma_runs_at(w, y, 0, i, i);
        }
    }

    /// When the scan has left the last row, it holds the segments of all
    /// runs.
    proof fn lemma_scan_done(
        self,
        tile: int,
        edges: Seq<Edge>,
        marks: Map<(int, int, Side), usize>,
    )
        requires
            0 <= self.height,
            self.scan_ok(tile, 0, self.height as int, 0, edges, marks),
        ensures
            edges == self.edges(tile),
    {
        self.lemma_all_rows();
        let h = self.height as int;
        assert forall|i: int| 0 <= i < edges.len() implies edges[i] == self.edges(tile)[i] by {
            let run = self.runs()[i];
            self.lemma_runs_at(0, h, 0, i, i);
            self.lemma_run_stop(
                run.side,
                run.side.line(run.x as int, run.y as int),
                run.side.pos(run.x as int, run.y as int),
            );
        }
        assert(edges =~= self.edges(tile));
    }
}

/// The segment along side `side` of the single cell `(x, y)`.
fn unit_edge(tile: i32, side: Side, x: i32, y: i32) -> (e: Edge)
    requires
        0 <= x < i32::MAX,
        0 <= y < i32::MAX,
    ensures
        e == edge_between(tile as int, side, x as int, y as int, side.pos(x as int, y as int)),
{
    proof {
        lemma_scaled_fits(x as int, tile as int);
        lemma_scaled_fits(y as int, tile as int);
        lemma_scaled_fits(x + 1, tile as int);
        lemma_scaled_fits(y + 1, tile as int);
    }
    let t = tile as i64;
    let x0 = (x as i64) * t;
    let y0 = (y as i64) * t;
    let x1 = x0 + t;
    let y1 = y0 + t;
    match side {
        Side::West => Edge { sx: x0, sy: y0, ex: x0, ey: y1 },
        Side::East => Edge { sx: x1, sy: y0, ex: x1, ey: y1 },
        Side::South => Edge { sx: x0, sy: y0, ex: x1, ey: y0 },
        Side::North => Edge { sx: x0, sy: y1, ex: x1, ey: y1 },
    }
}

/// Visits side `side` of the solid cell `(x, y)`. If the side is boundary,
/// it joins the segment of the cell before it on its line, where that cell
/// has one on the same side, and else starts a segment of its own.
fn visit_side(
    grid: &Grid,
    tile: i32,
    x: i32,
    y: i32,
    side: Side,
    edges: &mut Vec<Edge>,
    cells: Cells,
) -> (next: Cells)
    requires
        grid@.solid(x as int, y as int),
        cells.columns() == grid@.width,
        cells.rows() == grid@.height,
        grid@.scan_ok(tile as int, x as int, y as int, side.order(), old(edges)@, cells@),
    ensures
        next.columns() == grid@.width,
        next.rows() == grid@.height,
        grid@.scan_ok(tile as int, x as int, y as int, side.order() + 1, final(edges)@, next@),
{
    let ghost g = grid@;
    let ghost s = side.order();
    assert(Side::at(s) == side);
    let (fx, fy) = match side {
        Side::West => (x - 1, y),
        Side::East => (x + 1, y),
        Side::South => (x, y - 1),
        Side::North => (x, y + 1),
    };
    if grid.is_solid(fx, fy) {
        proof {
            g.lemma_pass_side(tile as int, x as int, y as int, s, edges@, cells@);
        }
        return cells;
    }
    let upright = side.is_upright();
    let (bx, by) = if upright {
        (x, y - 1)
    } else {
        (x - 1, y)
    };
    assert(side.cell(side.line(x as int, y as int), side.pos(x as int, y as int) - 1) == (
        bx as int,
        by as int,
    ));
    match cells.edge(bx, by, side) {
        Some(id) => {
            proof {
                assert(cells@.dom().contains((bx as int, by as int, side)));
                assert(g.run_of(side, bx as int, by as int) == g.run_of(side, x as int, y as int));
                g.lemma_extend(tile as int, x as int, y as int, s, edges@, cells@, id);
            }
            let e = edges[id];
            let longer = if upright {
                Edge { sx: e.sx, sy: e.sy, ex: e.ex, ey: e.ey + tile as i64 }
            } else {
                Edge { sx: e.sx, sy: e.sy, ex: e.ex + tile as i64, ey: e.ey }
            };
            edges.set(id, longer);
            cells.with_edge(x, y, side, id)
        },
        None => {
            proof {
                if g.in_bounds(bx as int, by as int) {
                    assert(!cells@.dom().contains((bx as int, by as int, side)));
                }
                assert(edges@.len() == edges.len());
                g.lemma_begin(tile as int, x as int, y as int, s, edges@, cells@);
            }
            let id = edges.len();
            edges.push(unit_edge(tile, side, x, y));
            cells.with_edge(x, y, side, id)
        },
    }
}

/// Builds the boundary between solid and open space as straight segments in
/// world units, with tiles of size `tile_size`.
///
/// The grid is scanned row by row from the south, each row from the west.
/// Each side of a solid cell that faces open space, or the outside of the
/// grid, gets a segment one tile long, unless the cell before it on the same
/// line (to the south for west and east sides, to the west for south and
/// north sides) has a segment on the same side: then that segment grows by
/// one tile. So every straight run of boundary comes out as one segment.
///
/// With a positive tile size, exactly one segment runs along each side of a
/// solid cell that is boundary, and none along a side between two solid
/// cells; and two boundary sides that follow each other on a line lie on
/// the same segment.
pub fn build_edges(grid: &Grid, tile_size: i32) -> (out: Edges)
    ensures
        out.edges@ == grid@.edges(tile_size as int),
        tile_size > 0 ==> forall|side: Side, x: int, y: int|
            grid@.solid(x, y) ==> #[trigger] grid@.side_closed(
                out.edges@,
                tile_size as int,
                side,
                x,
                y,
            ),
        tile_size > 0 ==> forall|side: Side, x: int, y: int|
            grid@.exposed(side, x, y) && grid@.bare(side, side.line(x, y), side.pos(x, y) + 1)
                ==> #[trigger] merged_with_next(out.edges@, tile_size as int, side, x, y),
{
    let w = grid.width();
    let h = grid.height();
    let area = grid.area();
    let ghost g = grid@;
    let ghost tile = tile_size as int;
    let mut edges: Vec<Edge> = Vec::new();
    let mut cells = Cells::new(w, h);
    let mut y: i32 = 0;
    proof {
        assert(g.runs_at(0, 0, 0) =~= Seq::<Run>::empty());
    }
    while y < h
        invariant
            0 <= y <= h,
            0 <= w,
            w == g.width,
            h == g.height,
            g == grid@,
            tile == tile_size,
            cells.columns() == w,
            cells.rows() == h,
            g.scan_ok(tile, 0, y as int, 0, edges@, cells@),
        decreases h - y,
    {
        let mut x: i32 = 0;
        while x < w
            invariant
                0 <= x <= w,
                0 <= y < h,
                w == g.width,
                h == g.height,
                g == grid@,
                tile == tile_size,
                cells.columns() == w,
                cells.rows() == h,
                g.scan_ok(tile, x as int, y as int, 0, edges@, cells@),
            decreases w - x,
        {
            if grid.is_solid(x, y) {
                cells = visit_side(grid, tile_size, x, y, Side::West, &mut edges, cells);
                cells = visit_side(grid, tile_size, x, y, Side::East, &mut edges, cells);
                cells = visit_side(grid, tile_size, x, y, Side::South, &mut edges, cells);
                cells = visit_side(grid, tile_size, x, y, Side::North, &mut edges, cells);
            } else {
                proof {
                    g.lemma_pass_side(tile, x as int, y as int, 0, edges@, cells@);
                    g.lemma_pass_side(tile, x as int, y as int, 1, edges@, cells@);
                    g.lemma_pass_side(tile, x as int, y as int, 2, edges@, cells@);
                    g.lemma_pass_side(tile, x as int, y as int, 3, edges@, cells@);
                }
            }
            proof {
                g.lemma_scan_next_cell(tile, x as int, y as int, edges@, cells@);
            }
            x += 1;
        }
        proof {
            g.lemma_scan_next_row(tile, y as int, edges@, cells@);
        }
        y += 1;
    }
    proof {
        g.lemma_scan_done(tile, edges@, cells@);
        if tile_size > 0 {
            assert forall|side: Side, x: int, y: int| g.solid(x, y) implies #[trigger] g.side_closed(
                edges@,
                tile,
                side,
                x,
                y,
            ) by {
                g.lemma_side_closed(tile_size, side, x, y);
            }
            assert forall|side: Side, x: int, y: int|
                g.exposed(side, x, y) && g.bare(
                    side,
                    side.line(x, y),
                    side.pos(x, y) + 1,
                ) implies #[trigger] merged_with_next(edges@, tile, side, x, y) by {
                let i = g.lemma_adjacent_sides_merge(tile_size, side, x, y);
            }
        }
    }
    Edges { edges }
}

} // verus!
