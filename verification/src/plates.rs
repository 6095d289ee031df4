//! The row pass: maximal horizontal runs of solid cells.

use crate::grid::{clamp_dim, Grid, GridModel};
use vstd::prelude::*;

verus! {

/// A maximal horizontal run of solid cells in one row: the cells
/// `left ..= right` of row `row`.
#[derive(Clone, Copy, Debug, PartialEq, Eq, Structural)]
pub struct Plate {
    pub row: i32,
    pub left: i32,
    pub right: i32,
}

impl GridModel {
    /// A run of solid cells begins at `(x, y)`: the cell is solid and the
    /// one to its west is not.
    pub open spec fn run_start(self, x: int, y: int) -> bool {
        self.solid(x, y) && !self.solid(x - 1, y)
    }

    /// The last column of the unbroken solid stretch that leads east from `(x, y)`.
    pub open spec fn run_end(self, x: int, y: int) -> int
        decreases self.width - x,
    {
        if self.solid(x + 1, y) {
            self.run_end(x + 1, y)
        } else {
            x
        }
    }

    /// The first column of the unbroken solid stretch that leads west from `(x, y)`.
    pub open spec fn run_begin(self, x: int, y: int) -> int
        decreases x,
    {
        if self.solid(x - 1, y) {
            self.run_begin(x - 1, y)
        } else {
            x
        }
    }

    /// The cells `l ..= r` of row `y` are a plate: a run that starts at `l`
    /// and ends at `r`.
    pub open spec fn is_plate(self, y: int, l: int, r: int) -> bool {
        self.run_start(l, y) && self.run_end(l, y) == r
    }

    /// The plate that starts at `(x, y)`.
    pub open spec fn plate_at(self, x: int, y: int) -> Plate {
        Plate { row: y as i32, left: x as i32, right: self.run_end(x, y) as i32 }
    }

    /// The plates of row `y` that start in a column below `n`, from west to east.
    pub open spec fn row_plates_upto(self, y: int, n: int) -> Seq<Plate>
        decreases n,
    {
        if n <= 0 {
            Seq::empty()
        } else if self.run_start(n - 1, y) {
            self.row_plates_upto(y, n - 1).push(self.plate_at(n - 1, y))
        } else {
            self.row_plates_upto(y, n - 1)
        }
    }

    /// All plates of row `y`, from west to east. A row outside the grid has none.
    pub open spec fn row_plates(self, y: int) -> Seq<Plate> {
        self.row_plates_upto(y, self.width as int)
    }

    /// A run reaches from where it is entered to its end over solid cells
    /// only, and stops in front of an open cell.
    pub proof fn lemma_run_end(self, x: int, y: int)
        requires
            self.solid(x, y),
        ensures
            x <= self.run_end(x, y) < self.width,
            forall|c: int| x <= c <= self.run_end(x, y) ==> self.solid(c, y),
            !self.solid(self.run_end(x, y) + 1, y),
        decreases self.width - x,
    {
        if self.solid(x + 1, y) {
            self.lemma_run_end(x + 1, y);
        }
    }

    /// A stretch of solid cells that stops in front of an open cell ends there.
    pub proof fn lemma_run_end_is(self, x: int, y: int, r: int)
        requires
            x <= r,
            forall|c: int| x <= c <= r ==> self.solid(c, y),
            !self.solid(r + 1, y),
        ensures
            self.run_end(x, y) == r,
        decreases r - x,
    {
        if x < r {
            self.lemma_run_end_is(x + 1, y, r);
        }
    }

    /// The stretch west of a solid cell is solid down to its first column,
    /// where a run starts; from there the run ends where it ends from the cell.
    pub proof fn lemma_run_begin(self, x: int, y: int)
        requires
            self.solid(x, y),
        ensures
            0 <= self.run_begin(x, y) <= x,
            forall|c: int| self.run_begin(x, y) <= c <= x ==> self.solid(c, y),
            self.run_start(self.run_begin(x, y), y),
            self.run_end(self.run_begin(x, y), y) == self.run_end(x, y),
        decreases x,
    {
        if self.solid(x - 1, y) {
            self.lemma_run_begin(x - 1, y);
        }
    }

    /// Where no run starts between two columns, the plates counted up to
    /// either column are the same.
    pub proof fn lemma_no_start_between(self, y: int, a: int, b: int)
        requires
            a <= b,
            forall|c: int| a <= c < b ==> !self.run_start(c, y),
        ensures
            self.row_plates_upto(y, b) == self.row_plates_upto(y, a),
        decreases b - a,
    {
        if a < b {
            self.lemma_no_start_between(y, a, b - 1);
        }
    }

    /// What the list of plates holds: each entry is the plate of a run start
    /// below column `n`, entries stand in the order of their left ends, and
    /// every run start below `n` has its entry.
    pub proof fn lemma_row_plates_upto(self, y: int, n: int)
        ensures
            forall|i: int|
                0 <= i < self.row_plates_upto(y, n).len() ==> {
                    let p = #[trigger] self.row_plates_upto(y, n)[i];
                    &&& 0 <= p.left < n
                    &&& self.run_start(p.left as int, y)
                    &&& p == self.plate_at(p.left as int, y)
                },
            forall|i: int, j: int|
                0 <= i < j < self.row_plates_upto(y, n).len() ==> self.row_plates_upto(y, n)[i].left
                    < self.row_plates_upto(y, n)[j].left,
            forall|x: int|
                0 <= x < n && #[trigger] self.run_start(x, y) ==> exists|i: int|
                    0 <= i < self.row_plates_upto(y, n).len() && #[trigger] self.row_plates_upto(
                        y,
                        n,
                    )[i] == self.plate_at(x, y),
        decreases n,
    {
        if n > 0 {
            self.lemma_row_plates_upto(y, n - 1);
            let prev = self.row_plates_upto(y, n - 1);
            let cur = self.row_plates_upto(y, n);
            assert forall|x: int| 0 <= x < n && #[trigger] self.run_start(x, y) implies exists|
                i: int,
            |
                0 <= i < cur.len() && #[trigger] cur[i] == self.plate_at(x, y) by {
                if x < n - 1 {
                    let i = choose|i: int|
                        0 <= i < prev.len() && #[trigger] prev[i] == self.plate_at(x, y);
                    assert(cur[i] == self.plate_at(x, y));
                } else {
                    assert(cur[cur.len() - 1] == self.plate_at(x, y));
                }
            }
        }
    }

    /// A row's list of plates holds a plate with the span `l ..= r` exactly
    /// when those cells are a plate of the row.
    pub proof fn lemma_has_plate(self, y: int, l: i32, r: i32)
        ensures
            self.is_plate(y, l as int, r as int) <==> exists|j: int|
                0 <= j < self.row_plates(y).len() && (#[trigger] self.row_plates(y)[j]).left == l
                    && self.row_plates(y)[j].right == r,
    {
        self.lemma_row_plates_upto(y, self.width as int);
        let row = self.row_plates(y);
        if self.is_plate(y, l as int, r as int) {
            let j = choose|j: int|
                0 <= j < row.len() && #[trigger] row[j] == self.plate_at(l as int, y);
            assert(row[j].left == l && row[j].right == r);
        }
        if exists|j: int| 0 <= j < row.len() && (#[trigger] row[j]).left == l && row[j].right == r {
            let j = choose|j: int|
                0 <= j < row.len() && (#[trigger] row[j]).left == l && row[j].right == r;
            self.lemma_run_end(l as int, y);
        }
    }

    /// A row outside the grid has no plates.
    pub proof fn lemma_no_plates_outside(self, y: int)
        requires
            y < 0 || y >= self.height,
        ensures
            self.row_plates(y) == Seq::<Plate>::empty(),
    {
        self.lemma_no_start_between(y, 0, clamp_dim(self.width as int));
        if self.width < 0 {
            assert(self.row_plates_upto(y, self.width as int) == Seq::<Plate>::empty());
        }
    }
}

/// The plates of row `y`, from west to east. A row outside the grid has none.
pub fn row_plates(grid: &Grid, y: i32) -> (plates: Vec<Plate>)
    ensures
        plates@ == grid@.row_plates(y as int),
{
    let w = grid.width();
    let ghost g = grid@;
    let mut plates: Vec<Plate> = Vec::new();
    let mut start: Option<i32> = None;
    let mut x: i32 = 0;
    while x < w
        invariant
            0 <= x <= w,
            w == g.width,
            g == grid@,
            match start {
                Some(s) => {
                    &&& 0 <= s < x
                    &&& g.run_start(s as int, y as int)
                    &&& forall|c: int| s <= c < x ==> g.solid(c, y as int)
                    &&& plates@ == g.row_plates_upto(y as int, s as int)
                },
                None => {
                    &&& !g.solid(x - 1, y as int)
                    &&& plates@ == g.row_plates_upto(y as int, x as int)
                },
            },
        decreases w - x,
    {
        let here = grid.is_solid(x, y);
        match start {
            Some(s) => {
                if !here {
                    plates.push(Plate { row: y, left: s, right: x - 1 });
                    start = None;
                    proof {
                        g.lemma_run_end_is(s as int, y as int, x - 1);
                        assert(g.row_plates_upto(y as int, s + 1) == g.row_plates_upto(
                            y as int,
                            s as int,
                        ).push(g.plate_at(s as int, y as int)));
                        g.lemma_no_start_between(y as int, s + 1, x + 1);
                    }
                }
            },
            None => {
                if here {
                    start = Some(x);
                }
            },
        }
        x += 1;
    }
    // A run that is still open has reached the east edge and ends there.
    if let Some(s) = start {
        plates.push(Plate { row: y, left: s, right: w - 1 });
        proof {
            g.lemma_run_end_is(s as int, y as int, w - 1);
            assert(g.row_plates_upto(y as int, s + 1) == g.row_plates_upto(
                y as int,
                s as int,
            ).push(g.plate_at(s as int, y as int)));
            g.lemma_no_start_between(y as int, s + 1, w as int);
        }
    }
    plates
}

/// The row pass over the whole grid: entry `y` holds the plates of row `y`.
pub fn plate_rows(grid: &Grid) -> (rows: Vec<Vec<Plate>>)
    ensures
        rows@.len() == grid@.height,
        forall|y: int| 0 <= y < rows@.len() ==> (#[trigger] rows@[y])@ == grid@.row_plates(y),
{
    let h = grid.height();
    let mut rows: Vec<Vec<Plate>> = Vec::new();
    let mut y: i32 = 0;
    while y < h
        invariant
            0 <= y <= h,
            rows@.len() == y,
            forall|k: int| 0 <= k < rows@.len() ==> (#[trigger] rows@[k])@ == grid@.row_plates(k),
        decreases h - y,
    {
        let row = row_plates(grid, y);
        rows.push(row);
        y += 1;
    }
    rows
}

} // verus!
