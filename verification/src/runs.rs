//! The boundary of the solid region, side by side: where a solid cell faces
//! open space, and how such sides line up into straight runs.

use crate::grid::GridModel;
use vstd::prelude::*;

verus! {

/// One of the four sides of a cell. North is the side towards larger `y`.
#[derive(Clone, Copy, Debug, PartialEq, Eq, Structural)]
pub enum Side {
    North,
    South,
    East,
    West,
}

impl Side {
    /// The place of the side in the order in which the sides of a cell are
    /// visited: west, east, south, north.
    pub open spec fn order(self) -> int {
        match self {
            Side::West => 0,
            Side::East => 1,
            Side::South => 2,
            Side::North => 3,
        }
    }

    /// The side that is visited in place `k`.
    pub open spec fn at(k: int) -> Side {
        if k == 0 {
            Side::West
        } else if k == 1 {
            Side::East
        } else if k == 2 {
            Side::South
        } else {
            Side::North
        }
    }

    /// The slot of the side in a cell's record: north, south, east, west.
    pub open spec fn slot(self) -> int {
        match self {
            Side::North => 0,
            Side::South => 1,
            Side::East => 2,
            Side::West => 3,
        }
    }

    /// The slot of the side in a cell's record.
    pub fn index(self) -> (i: usize)
        ensures
            i == self.slot(),
            i < 4,
    {
        match self {
            Side::North => 0,
            Side::South => 1,
            Side::East => 2,
            Side::West => 3,
        }
    }

    /// Whether runs of this side lead north (west and east sides) rather
    /// than east.
    pub fn is_upright(self) -> (b: bool)
        ensures
            b == self.upright(),
    {
        match self {
            Side::West => true,
            Side::East => true,
            _ => false,
        }
    }

    /// West and east sides are upright: runs of them lead north. South and
    /// north sides lie flat: runs of them lead east.
    pub open spec fn upright(self) -> bool {
        self == Side::West || self == Side::East
    }

    /// The cell beyond this side of `(x, y)`.
    pub open spec fn facing(self, x: int, y: int) -> (int, int) {
        match self {
            Side::West => (x - 1, y),
            Side::East => (x + 1, y),
            Side::South => (x, y - 1),
            Side::North => (x, y + 1),
        }
    }

    /// The line on which runs through `(x, y)` lie: the column for an
    /// upright side, the row for a flat one.
    pub open spec fn line(self, x: int, y: int) -> int {
        if self.upright() {
            x
        } else {
            y
        }
    }

    /// The place of `(x, y)` along its line.
    pub open spec fn pos(self, x: int, y: int) -> int {
        if self.upright() {
            y
        } else {
            x
        }
    }

    /// The cell at place `pos` of line `line`.
    pub open spec fn cell(self, line: int, pos: int) -> (int, int) {
        if self.upright() {
            (line, pos)
        } else {
            (pos, line)
        }
    }
}

/// A straight run of boundary: the side `side` of cell `(x, y)` and of the
/// cells that follow it along its line, as far as they face open space too.
pub struct Run {
    pub side: Side,
    pub x: i32,
    pub y: i32,
}

impl Run {
    /// Whether this run's first cell comes before `other`'s where cells are
    /// visited row by row from the south, each row from the west, and the
    /// sides of a cell in their order.
    pub open spec fn before(self, other: Run) -> bool {
        self.y < other.y || (self.y == other.y && (self.x < other.x || (self.x == other.x
            && self.side.order() < other.side.order())))
    }
}

impl GridModel {
    /// The cell `(x, y)` is solid and the cell beyond its side `side` is not
    /// (or lies outside the grid): that side is boundary.
    pub open spec fn exposed(self, side: Side, x: int, y: int) -> bool {
        self.solid(x, y) && !self.solid(side.facing(x, y).0, side.facing(x, y).1)
    }

    /// `exposed`, for the cell at place `pos` of line `line`.
    pub open spec fn bare(self, side: Side, line: int, pos: int) -> bool {
        self.exposed(side, side.cell(line, pos).0, side.cell(line, pos).1)
    }

    /// How many places a line of this side has.
    pub open spec fn reach(self, side: Side) -> int {
        if side.upright() {
            self.height as int
        } else {
            self.width as int
        }
    }

    /// The last place of the unbroken stretch of boundary that leads on
    /// from place `pos` of line `line`.
    pub open spec fn run_stop(self, side: Side, line: int, pos: int) -> int
        decreases self.reach(side) - pos,
    {
        if self.bare(side, line, pos + 1) {
            self.run_stop(side, line, pos + 1)
        } else {
            pos
        }
    }

    /// The first place of the unbroken stretch of boundary that leads back
    /// from place `pos` of line `line`.
    pub open spec fn run_origin(self, side: Side, line: int, pos: int) -> int
        decreases pos,
    {
        if self.bare(side, line, pos - 1) {
            self.run_origin(side, line, pos - 1)
        } else {
            pos
        }
    }

    /// A run begins at side `side` of `(x, y)`: the side is boundary, and
    /// that of the cell before it on its line is not.
    pub open spec fn run_starts(self, side: Side, x: int, y: int) -> bool {
        self.exposed(side, x, y) && !self.bare(side, side.line(x, y), side.pos(x, y) - 1)
    }

    /// The runs that begin at cell `(x, y)`, among the first `s` sides in
    /// the order of visit.
    pub open spec fn cell_runs(self, x: int, y: int, s: int) -> Seq<Run>
        decreases s,
    {
        if s <= 0 {
            Seq::empty()
        } else if self.run_starts(Side::at(s - 1), x, y) {
            self.cell_runs(x, y, s - 1).push(Run { side: Side::at(s - 1), x: x as i32, y: y as i32 })
        } else {
            self.cell_runs(x, y, s - 1)
        }
    }

    /// The runs that begin in row `y` in a column below `n`.
    pub open spec fn row_runs(self, y: int, n: int) -> Seq<Run>
        decreases n,
    {
        if n <= 0 {
            Seq::empty()
        } else {
            self.row_runs(y, n - 1) + self.cell_runs(n - 1, y, 4)
        }
    }

    /// The runs that begin in a row below `m`.
    pub open spec fn runs_upto(self, m: int) -> Seq<Run>
        decreases m,
    {
        if m <= 0 {
            Seq::empty()
        } else {
            self.runs_upto(m - 1) + self.row_runs(m - 1, self.width as int)
        }
    }

    /// The runs that a scan has met when it has visited every row below
    /// `cy`, of row `cy` every column below `cx`, and of cell `(cx, cy)` the
    /// first `s` sides.
    pub open spec fn runs_at(self, cx: int, cy: int, s: int) -> Seq<Run> {
        self.runs_upto(cy) + self.row_runs(cy, cx) + self.cell_runs(cx, cy, s)
    }

    /// All runs of boundary, in the order in which their first cells are
    /// visited.
    pub open spec fn runs(self) -> Seq<Run> {
        self.runs_upto(self.height as int)
    }
}

/// Whether side `side` of cell `(x, y)` has been visited by the time a scan
/// has visited every row below `cy`, of row `cy` every column below `cx`, and
/// of cell `(cx, cy)` the first `s` sides.
pub open spec fn scanned(cx: int, cy: int, s: int, side: Side, x: int, y: int) -> bool {
    y < cy || (y == cy && (x < cx || (x == cx && side.order() < s)))
}

impl GridModel {
    /// A stretch of boundary reaches from where it is entered to its last
    /// place over boundary only, and stops in front of a place that is none.
    pub proof fn lemma_run_stop(self, side: Side, line: int, pos: int)
        requires
            self.bare(side, line, pos),
        ensures
            pos <= self.run_stop(side, line, pos) < self.reach(side),
            forall|k: int| pos <= k <= self.run_stop(side, line, pos) ==> self.bare(side, line, k),
            !self.bare(side, line, self.run_stop(side, line, pos) + 1),
        decreases self.reach(side) - pos,
    {
        if self.bare(side, line, pos + 1) {
            self.lemma_run_stop(side, line, pos + 1);
        }
    }

    /// Back from a place of boundary the stretch is boundary down to its
    /// first place, where a run begins; the run ends where the stretch ends.
    pub proof fn lemma_run_origin(self, side: Side, line: int, pos: int)
        requires
            self.bare(side, line, pos),
        ensures
            0 <= self.run_origin(side, line, pos) <= pos,
            forall|k: int| self.run_origin(side, line, pos) <= k <= pos ==> self.bare(side, line, k),
            !self.bare(side, line, self.run_origin(side, line, pos) - 1),
            self.run_stop(side, line, self.run_origin(side, line, pos)) == self.run_stop(
                side,
                line,
                pos,
            ),
        decreases pos,
    {
        if self.bare(side, line, pos - 1) {
            self.lemma_run_origin(side, line, pos - 1);
        }
    }

    /// A stretch of boundary that begins behind a place that is none has its
    /// first place there.
    pub proof fn lemma_run_origin_is(self, side: Side, line: int, pos: int, first: int)
        requires
            first <= pos,
            forall|k: int| first <= k <= pos ==> self.bare(side, line, k),
            !self.bare(side, line, first - 1),
        ensures
            self.run_origin(side, line, pos) == first,
        decreases pos - first,
    {
        if first < pos {
            self.lemma_run_origin_is(side, line, pos - 1, first);
        }
    }

    proof fn lemma_cell_runs(self, x: int, y: int, s: int, i: int, j: int)
        requires
            0 <= s <= 4,
            0 <= i <= j < self.cell_runs(x, y, s).len(),
        ensures
            self.cell_runs(x, y, s)[i].x == x,
            self.cell_runs(x, y, s)[i].y == y,
            self.cell_runs(x, y, s)[i].side.order() < s,
            self.run_starts(self.cell_runs(x, y, s)[i].side, x, y),
            self.cell_runs(x, y, s)[j].x == x,
            self.cell_runs(x, y, s)[j].y == y,
            self.cell_runs(x, y, s)[j].side.order() < s,
            self.run_starts(self.cell_runs(x, y, s)[j].side, x, y),
            i < j ==> self.cell_runs(x, y, s)[i].side.order() < self.cell_runs(
                x,
                y,
                s,
            )[j].side.order(),
        decreases s,
    {
        let prev = self.cell_runs(x, y, s - 1);
        if !self.run_starts(Side::at(s - 1), x, y) || j < prev.len() {
            self.lemma_cell_runs(x, y, s - 1, i, j);
        } else if i < j {
            self.lemma_cell_runs(x, y, s - 1, i, i);
        }
    }

    proof fn lemma_cell_runs_has(self, side: Side, x: int, y: int, s: int) -> (i: int)
        requires
            0 <= s <= 4,
            side.order() < s,
            self.run_starts(side, x, y),
        ensures
            0 <= i < self.cell_runs(x, y, s).len(),
            self.cell_runs(x, y, s)[i] == (Run { side, x: x as i32, y: y as i32 }),
        decreases s,
    {
        if side.order() == s - 1 {
            self.cell_runs(x, y, s).len() - 1
        } else {
            self.lemma_cell_runs_has(side, x, y, s - 1)
        }
    }

    proof fn lemma_row_runs(self, y: int, n: int, i: int, j: int)
        requires
            0 <= i <= j < self.row_runs(y, n).len(),
        ensures
            self.row_runs(y, n)[i].y == y,
            0 <= self.row_runs(y, n)[i].x < n,
            self.run_starts(self.row_runs(y, n)[i].side, self.row_runs(y, n)[i].x as int, y),
            self.row_runs(y, n)[j].y == y,
            0 <= self.row_runs(y, n)[j].x < n,
            self.run_starts(self.row_runs(y, n)[j].side, self.row_runs(y, n)[j].x as int, y),
            i < j ==> self.row_runs(y, n)[i].before(self.row_runs(y, n)[j]),
        decreases n,
    {
        let prev = self.row_runs(y, n - 1);
        if j < prev.len() {
            self.lemma_row_runs(y, n - 1, i, j);
        } else if i < prev.len() {
            self.lemma_row_runs(y, n - 1, i, i);
            self.lemma_cell_runs(n - 1, y, 4, j - prev.len(), j - prev.len());
        } else {
            self.lemma_cell_runs(n - 1, y, 4, i - prev.len(), j - prev.len());
        }
    }

    proof fn lemma_row_runs_has(self, side: Side, x: int, y: int, n: int) -> (i: int)
        requires
            x < n,
            self.run_starts(side, x, y),
        ensures
            0 <= i < self.row_runs(y, n).len(),
            self.row_runs(y, n)[i] == (Run { side, x: x as i32, y: y as i32 }),
        decreases n,
    {
        if x == n - 1 {
            self.row_runs(y, n - 1).len() + self.lemma_cell_runs_has(side, x, y, 4)
        } else {
            self.lemma_row_runs_has(side, x, y, n - 1)
        }
    }

    proof fn lemma_runs_upto(self, m: int, i: int, j: int)
        requires
            0 <= i <= j < self.runs_upto(m).len(),
        ensures
            0 <= self.runs_upto(m)[i].y < m,
            self.run_starts(
                self.runs_upto(m)[i].side,
                self.runs_upto(m)[i].x as int,
                self.runs_upto(m)[i].y as int,
            ),
            0 <= self.runs_upto(m)[j].y < m,
            self.run_starts(
                self.runs_upto(m)[j].side,
                self.runs_upto(m)[j].x as int,
                self.runs_upto(m)[j].y as int,
            ),
            i < j ==> self.runs_upto(m)[i].before(self.runs_upto(m)[j]),
        decreases m,
    {
        let prev = self.runs_upto(m - 1);
        let w = self.width as int;
        if j < prev.len() {
            self.lemma_runs_upto(m - 1, i, j);
        } else if i < prev.len() {
            self.lemma_runs_upto(m - 1, i, i);
            self.lemma_row_runs(m - 1, w, j - prev.len(), j - prev.len());
        } else {
            self.lemma_row_runs(m - 1, w, i - prev.len(), j - prev.len());
        }
    }

    proof fn lemma_runs_upto_has(self, side: Side, x: int, y: int, m: int) -> (i: int)
        requires
            y < m,
            self.run_starts(side, x, y),
        ensures
            0 <= i < self.runs_upto(m).len(),
            self.runs_upto(m)[i] == (Run { side, x: x as i32, y: y as i32 }),
        decreases m,
    {
        if y == m - 1 {
            self.runs_upto(m - 1).len() + self.lemma_row_runs_has(side, x, y, self.width as int)
        } else {
            self.lemma_runs_upto_has(side, x, y, m - 1)
        }
    }

    /// Every run that a scan has met begins at a side that the scan has
    /// visited, and the runs stand in the order of visit.
    pub proof fn lemma_runs_at(self, cx: int, cy: int, s: int, i: int, j: int)
        requires
            0 <= s <= 4,
            0 <= i <= j < self.runs_at(cx, cy, s).len(),
        ensures
            self.run_starts(
                self.runs_at(cx, cy, s)[i].side,
                self.runs_at(cx, cy, s)[i].x as int,
                self.runs_at(cx, cy, s)[i].y as int,
            ),
            scanned(
                cx,
                cy,
                s,
                self.runs_at(cx, cy, s)[i].side,
                self.runs_at(cx, cy, s)[i].x as int,
                self.runs_at(cx, cy, s)[i].y as int,
            ),
            self.run_starts(
                self.runs_at(cx, cy, s)[j].side,
                self.runs_at(cx, cy, s)[j].x as int,
                self.runs_at(cx, cy, s)[j].y as int,
            ),
            scanned(
                cx,
                cy,
                s,
                self.runs_at(cx, cy, s)[j].side,
                self.runs_at(cx, cy, s)[j].x as int,
                self.runs_at(cx, cy, s)[j].y as int,
            ),
            i < j ==> self.runs_at(cx, cy, s)[i].before(self.runs_at(cx, cy, s)[j]),
    {
        let a = self.runs_upto(cy);
        let b = self.row_runs(cy, cx);
        let c = self.cell_runs(cx, cy, s);
        let la = a.len() as int;
        let lb = la + b.len();
        if i < la {
            self.lemma_runs_upto(cy, i, i);
        } else if i < lb {
            self.lemma_row_runs(cy, cx, i - la, i - la);
        } else {
            self.lemma_cell_runs(cx, cy, s, i - lb, i - lb);
        }
        if j < la {
            self.lemma_runs_upto(cy, i, j);
        } else if j < lb {
            self.lemma_row_runs(cy, cx, j - la, j - la);
            if i >= la {
                self.lemma_row_runs(cy, cx, i - la, j - la);
            }
        } else {
            self.lemma_cell_runs(cx, cy, s, j - lb, j - lb);
            if i >= lb {
                self.lemma_cell_runs(cx, cy, s, i - lb, j - lb);
            }
        }
    }

    /// Every run that begins at a side that a scan has visited is among the
    /// runs that the scan has met.
    pub proof fn lemma_runs_at_has(self, cx: int, cy: int, s: int, side: Side, x: int, y: int) -> (i:
        int)
        requires
            0 <= s <= 4,
            self.run_starts(side, x, y),
            scanned(cx, cy, s, side, x, y),
        ensures
            0 <= i < self.runs_at(cx, cy, s).len(),
            self.runs_at(cx, cy, s)[i] == (Run { side, x: x as i32, y: y as i32 }),
    {
        let la = self.runs_upto(cy).len() as int;
        let lb = la + self.row_runs(cy, cx).len();
        if y < cy {
            self.lemma_runs_upto_has(side, x, y, cy)
        } else if x < cx {
            la + self.lemma_row_runs_has(side, x, y, cx)
        } else {
            lb + self.lemma_cell_runs_has(side, x, y, s)
        }
    }

    /// Visiting one more side of a cell adds the run that begins there, if
    /// one does.
    pub proof fn lemma_visit_side(self, cx: int, cy: int, s: int)
        requires
            0 <= s < 4,
        ensures
            self.runs_at(cx, cy, s + 1) == if self.run_starts(Side::at(s), cx, cy) {
                self.runs_at(cx, cy, s).push(Run { side: Side::at(s), x: cx as i32, y: cy as i32 })
            } else {
                self.runs_at(cx, cy, s)
            },
    {
        if self.run_starts(Side::at(s), cx, cy) {
            assert(self.runs_at(cx, cy, s + 1) =~= self.runs_at(cx, cy, s).push(
                Run { side: Side::at(s), x: cx as i32, y: cy as i32 },
            ));
        }
    }

    /// Leaving a cell, the scan has met the same runs as on entering the next.
    pub proof fn lemma_next_cell(self, cx: int, cy: int)
        requires
            0 <= cx,
        ensures
            self.runs_at(cx + 1, cy, 0) == self.runs_at(cx, cy, 4),
    {
        assert(self.runs_at(cx + 1, cy, 0) =~= self.runs_at(cx, cy, 4));
    }

    /// Leaving a row, the scan has met the same runs as on entering the next.
    pub proof fn lemma_next_row(self, cy: int)
        requires
            0 <= cy,
        ensures
            self.runs_at(0, cy + 1, 0) == self.runs_at(self.width as int, cy, 0),
    {
        assert(self.runs_at(0, cy + 1, 0) =~= self.runs_at(self.width as int, cy, 0));
    }

    /// A scan that has visited every row has met all runs.
    pub proof fn lemma_all_rows(self)
        ensures
            self.runs_at(0, self.height as int, 0) == self.runs(),
    {
        assert(self.runs_at(0, self.height as int, 0) =~= self.runs());
    }
}

} // verus!
