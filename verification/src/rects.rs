//! The vertical merge pass: plates of equal span in consecutive rows become
//! one rectangle.

use crate::grid::{Grid, GridModel};
use crate::plates::{plate_rows, Plate};
use vstd::prelude::*;

verus! {

/// An axis-aligned block of cells: columns `left ..= right`, rows
/// `bottom ..= top`.
#[derive(Clone, Copy, Debug, PartialEq, Eq, Structural)]
pub struct Rect {
    pub left: i32,
    pub right: i32,
    pub bottom: i32,
    pub top: i32,
}

impl Rect {
    /// Whether the cell `(x, y)` lies in the rectangle.
    pub open spec fn covers(self, x: int, y: int) -> bool {
        self.left <= x <= self.right && self.bottom <= y <= self.top
    }

    /// Whether two rectangles share a cell.
    pub open spec fn overlaps(self, other: Rect) -> bool {
        &&& self.left <= other.right
        &&& other.left <= self.right
        &&& self.bottom <= other.top
        &&& other.bottom <= self.top
    }

    /// Whether the cell `(x, y)` lies in the rectangle.
    pub fn contains(&self, x: i32, y: i32) -> (b: bool)
        ensures
            b == self.covers(x as int, y as int),
    {
        self.left <= x && x <= self.right && self.bottom <= y && y <= self.top
    }

    /// Whether two rectangles share a cell.
    pub fn intersects(&self, other: &Rect) -> (b: bool)
        ensures
            b == self.overlaps(*other),
    {
        self.left <= other.right && other.left <= self.right && self.bottom <= other.top
            && other.bottom <= self.top
    }
}

/// Whether one of the rectangles holds the cell `(x, y)`.
pub open spec fn holds_cell(rects: Seq<Rect>, x: int, y: int) -> bool {
    exists|i: int| 0 <= i < rects.len() && (#[trigger] rects[i]).covers(x, y)
}

impl GridModel {
    /// Whether the rectangle `r` is well formed and lies within the grid.
    pub open spec fn encloses(self, r: Rect) -> bool {
        0 <= r.left <= r.right < self.width && 0 <= r.bottom <= r.top < self.height
    }

    /// The lowest row from which the plate `l ..= r` is repeated, row after
    /// row, up to row `y`.
    pub open spec fn rect_bottom(self, y: int, l: int, r: int) -> int
        decreases y,
    {
        if self.is_plate(y - 1, l, r) {
            self.rect_bottom(y - 1, l, r)
        } else {
            y
        }
    }

    /// The rectangle that the plate `p` has grown into by its own row.
    pub open spec fn open_rect(self, p: Plate) -> Rect {
        Rect {
            left: p.left,
            right: p.right,
            bottom: self.rect_bottom(p.row as int, p.left as int, p.right as int) as i32,
            top: p.row,
        }
    }

    /// The rectangles in progress after row `y`: one for each plate of the row.
    pub open spec fn open_rects(self, y: int) -> Seq<Rect> {
        Seq::new(self.row_plates(y).len(), |i: int| self.open_rect(self.row_plates(y)[i]))
    }

    /// The plate `p` is repeated with the same span in the row above it.
    pub open spec fn continues(self, p: Plate) -> bool {
        self.is_plate(p.row + 1, p.left as int, p.right as int)
    }

    /// The rectangles that end in row `y`, taken from the first `i` plates of
    /// that row: one for each plate that the row above does not repeat.
    pub open spec fn closed_prefix(self, y: int, i: int) -> Seq<Rect>
        decreases i,
    {
        if i <= 0 {
            Seq::empty()
        } else if self.continues(self.row_plates(y)[i - 1]) {
            self.closed_prefix(y, i - 1)
        } else {
            self.closed_prefix(y, i - 1).push(self.open_rect(self.row_plates(y)[i - 1]))
        }
    }

    /// The rectangles whose top row is `y`, from west to east.
    pub open spec fn row_rects(self, y: int) -> Seq<Rect> {
        self.closed_prefix(y, self.row_plates(y).len() as int)
    }

    /// The rectangles whose top row lies below row `m`, by top row and then
    /// from west to east.
    pub open spec fn rects_upto(self, m: int) -> Seq<Rect>
        decreases m,
    {
        if m <= 0 {
            Seq::empty()
        } else {
            self.rects_upto(m - 1) + self.row_rects(m - 1)
        }
    }

    /// The partition of the solid cells into rectangles: every maximal stack
    /// of equal plates in consecutive rows is one rectangle. They are listed
    /// by top row, and within a row from west to east.
    pub open spec fn rectangles(self) -> Seq<Rect> {
        self.rects_upto(self.height as int)
    }

    /// From its bottom row up to row `y` a rectangle consists of the same
    /// plate in every row, and the row below its bottom does not hold it.
    pub proof fn lemma_rect_bottom(self, y: int, l: int, r: int)
        requires
            self.is_plate(y, l, r),
        ensures
            0 <= self.rect_bottom(y, l, r) <= y,
            forall|k: int| self.rect_bottom(y, l, r) <= k <= y ==> self.is_plate(k, l, r),
            !self.is_plate(self.rect_bottom(y, l, r) - 1, l, r),
        decreases y,
    {
        if self.is_plate(y - 1, l, r) {
            self.lemma_rect_bottom(y - 1, l, r);
        }
    }
}

/// Whether `row` holds a plate with the span `left ..= right`.
fn has_span(row: &Vec<Plate>, left: i32, right: i32) -> (b: bool)
    ensures
        b <==> exists|j: int|
            0 <= j < row@.len() && (#[trigger] row@[j]).left == left && row@[j].right == right,
{
    let mut j: usize = 0;
    while j < row.len()
        invariant
            j <= row.len(),
            forall|k: int|
                0 <= k < j ==> !((#[trigger] row@[k]).left == left && row@[k].right == right),
        decreases row.len() - j,
    {
        if row[j].left == left && row[j].right == right {
            return true;
        }
        j += 1;
    }
    false
}

/// The place in `open` of the rectangle with the span `left ..= right`, if
/// there is one.
fn find_span(open: &Vec<Rect>, left: i32, right: i32) -> (found: Option<usize>)
    ensures
        match found {
            Some(j) => j < open@.len() && open@[j as int].left == left && open@[j as int].right
                == right,
            None => forall|k: int|
                0 <= k < open@.len() ==> !((#[trigger] open@[k]).left == left && open@[k].right
                    == right),
        },
{
    let mut j: usize = 0;
    while j < open.len()
        invariant
            j <= open.len(),
            forall|k: int|
                0 <= k < j ==> !((#[trigger] open@[k]).left == left && open@[k].right == right),
        decreases open.len() - j,
    {
        if open[j].left == left && open[j].right == right {
            return Some(j);
        }
        j += 1;
    }
    None
}

/// Emits every rectangle in progress whose plate the row `current` does not
/// repeat. `open` holds the rectangles in progress after row `y - 1`, and
/// `current` the plates of row `y`.
fn close_finished(
    open: &Vec<Rect>,
    current: &Vec<Plate>,
    out: &mut Vec<Rect>,
    Ghost(g): Ghost<GridModel>,
    Ghost(y): Ghost<int>,
)
    requires
        -1 <= y - 1 < g.height,
        open@ == g.open_rects(y - 1),
        current@ == g.row_plates(y),
    ensures
        final(out)@ == old(out)@ + g.row_rects(y - 1),
{
    let ghost below = g.row_plates(y - 1);
    let mut i: usize = 0;
    while i < open.len()
        invariant
            i <= open.len(),
            -1 <= y - 1 < g.height,
            below == g.row_plates(y - 1),
            open@ == g.open_rects(y - 1),
            current@ == g.row_plates(y),
            out@ == old(out)@ + g.closed_prefix(y - 1, i as int),
        decreases open.len() - i,
    {
        let rect = open[i];
        let repeated = has_span(current, rect.left, rect.right);
        proof {
            let p = below[i as int];
            g.lemma_row_plates_upto(y - 1, g.width as int);
            g.lemma_has_plate(y, rect.left, rect.right);
            assert(p.row == y - 1);
            assert(repeated == g.continues(p));
        }
        if !repeated {
            out.push(rect);
        }
        i += 1;
    }
}

/// The rectangles in progress after row `y`: a plate that row `y - 1` held
/// too extends its rectangle by one row, any other plate starts a new one.
fn carry_over(open: &Vec<Rect>, current: &Vec<Plate>, y: i32, Ghost(g): Ghost<GridModel>) -> (next:
    Vec<Rect>)
    requires
        0 <= y < g.height,
        open@ == g.open_rects(y - 1),
        current@ == g.row_plates(y as int),
    ensures
        next@ == g.open_rects(y as int),
{
    let mut next: Vec<Rect> = Vec::new();
    let mut i: usize = 0;
    while i < current.len()
        invariant
            i <= current.len(),
            0 <= y < g.height,
            open@ == g.open_rects(y - 1),
            current@ == g.row_plates(y as int),
            next@.len() == i,
            forall|k: int| 0 <= k < i ==> #[trigger] next@[k] == g.open_rect(current@[k]),
        decreases current.len() - i,
    {
        let plate = current[i];
        proof {
            g.lemma_row_plates_upto(y as int, g.width as int);
            g.lemma_row_plates_upto(y - 1, g.width as int);
            g.lemma_has_plate(y - 1, plate.left, plate.right);
            assert(plate == g.row_plates_upto(y as int, g.width as int)[i as int]);
            g.lemma_run_end(plate.left as int, y as int);
            g.lemma_rect_bottom(y as int, plate.left as int, plate.right as int);
            if g.is_plate(y - 1, plate.left as int, plate.right as int) {
                g.lemma_rect_bottom(y - 1, plate.left as int, plate.right as int);
            }
        }
        let rect = match find_span(open, plate.left, plate.right) {
            Some(j) => {
                let below = open[j];
                proof {
                    let q = g.row_plates(y - 1)[j as int];
                    assert(below == g.open_rect(q));
                    assert(q.row == y - 1);
                }
                Rect { left: below.left, right: below.right, bottom: below.bottom, top: below.top + 1 }
            },
            None => {
                proof {
                    if g.is_plate(y - 1, plate.left as int, plate.right as int) {
                        let j = choose|j: int|
                            0 <= j < g.row_plates(y - 1).len() && (#[trigger] g.row_plates(
                                y - 1,
                            )[j]).left == plate.left && g.row_plates(y - 1)[j].right
                                == plate.right;
                        assert(open@[j] == g.open_rect(g.row_plates(y - 1)[j]));
                    }
                }
                Rect { left: plate.left, right: plate.right, bottom: y, top: y }
            },
        };
        assert(rect == g.open_rect(plate));
        next.push(rect);
        i += 1;
    }
    assert(next@ =~= g.open_rects(y as int));
    next
}

/// Partitions the solid cells of the grid into rectangles that do not
/// overlap. Each row is cut into plates, and a plate that the next row
/// repeats with the same span grows into one rectangle with it.
///
/// The rectangles cover exactly the solid cells, and no two of them share a
/// cell. They come out by top row, and within a top row from west to east.
pub fn partition(grid: &Grid) -> (rects: Vec<Rect>)
    ensures
        rects@ == grid@.rectangles(),
        forall|i: int| 0 <= i < rects@.len() ==> grid@.encloses(#[trigger] rects@[i]),
        forall|x: int, y: int| grid@.solid(x, y) <==> #[trigger] holds_cell(rects@, x, y),
        forall|i: int, j: int|
            0 <= i < rects@.len() && 0 <= j < rects@.len() && i != j ==> !(#[trigger] rects@[i]).overlaps(
                #[trigger] rects@[j],
            ),
{
    let rows = plate_rows(grid);
    let h = grid.height();
    let ghost g = grid@;
    let mut open: Vec<Rect> = Vec::new();
    let mut rects: Vec<Rect> = Vec::new();
    let mut y: i32 = 0;
    proof {
        g.lemma_no_plates_outside(-1);
        assert(open@ =~= g.open_rects(-1));
        assert(g.rects_upto(-1) =~= rects@);
    }
    while y < h
        invariant
            0 <= y <= h,
            h == g.height,
            rows@.len() == h,
            forall|k: int| 0 <= k < rows@.len() ==> (#[trigger] rows@[k])@ == g.row_plates(k),
            open@ == g.open_rects(y - 1),
            rects@ == g.rects_upto(y - 1),
        decreases h - y,
    {
        let current = &rows[y as usize];
        close_finished(&open, current, &mut rects, Ghost(g), Ghost(y as int));
        open = carry_over(&open, current, y, Ghost(g));
        proof {
            if y == 0 {
                g.lemma_no_plates_outside(-1);
                assert(g.row_rects(-1) =~= Seq::<Rect>::empty());
            }
            assert(rects@ =~= g.rects_upto(y as int));
        }
        y += 1;
    }
    // One more, empty row ends the rectangles that reach the top edge.
    let beyond: Vec<Plate> = Vec::new();
    proof {
        g.lemma_no_plates_outside(h as int);
        if h == 0 {
            g.lemma_no_plates_outside(-1);
            assert(g.row_rects(-1) =~= Seq::<Rect>::empty());
        }
    }
    close_finished(&open, &beyond, &mut rects, Ghost(g), Ghost(h as int));
    assert(rects@ =~= g.rects_upto(h as int));
    proof {
        assert forall|i: int| 0 <= i < rects@.len() implies g.encloses(#[trigger] rects@[i]) by {
            g.lemma_rectangles_in_grid(i);
        }
        assert forall|x: int, y: int| g.solid(x, y) <==> #[trigger] holds_cell(rects@, x, y) by {
            g.lemma_rectangles_cover(x, y);
        }
        assert forall|i: int, j: int|
            0 <= i < rects@.len() && 0 <= j < rects@.len() && i != j implies !(
            #[trigger] rects@[i]).overlaps(#[trigger] rects@[j]) by {
            g.lemma_rectangles_disjoint(i, j);
        }
    }
    rects
}

} // verus!
