//! What holds of the rectangle partition: it covers exactly the solid cells,
//! and no two of its rectangles overlap.

use crate::grid::{tagged, GridModel, TaggedCell};
use crate::rects::{holds_cell, Rect};
use vstd::prelude::*;

verus! {

impl GridModel {
    /// The highest row up to which the plate `l ..= r` is repeated, row after
    /// row, from row `y`.
    pub open spec fn rect_top(self, y: int, l: int, r: int) -> int
        decreases self.height - y,
    {
        if self.is_plate(y + 1, l, r) {
            self.rect_top(y + 1, l, r)
        } else {
            y
        }
    }

    /// `r` is a maximal stack of equal plates: its span is a plate in its top
    /// row, the row above does not repeat that plate, and its bottom is the
    /// lowest row from which the plate is repeated without a break.
    pub open spec fn is_rect(self, r: Rect) -> bool {
        &&& self.is_plate(r.top as int, r.left as int, r.right as int)
        &&& !self.is_plate(r.top + 1, r.left as int, r.right as int)
        &&& r.bottom == self.rect_bottom(r.top as int, r.left as int, r.right as int)
    }

    /// From row `y` up to its top a stack consists of the same plate in every
    /// row, and the row above its top does not hold it.
    pub proof fn lemma_rect_top(self, y: int, l: int, r: int)
        requires
            self.is_plate(y, l, r),
        ensures
            y <= self.rect_top(y, l, r) < self.height,
            forall|k: int| y <= k <= self.rect_top(y, l, r) ==> self.is_plate(k, l, r),
            !self.is_plate(self.rect_top(y, l, r) + 1, l, r),
        decreases self.height - y,
    {
        if self.is_plate(y + 1, l, r) {
            self.lemma_rect_top(y + 1, l, r);
        }
    }

    /// A cell within a plate belongs to the run that starts at the plate's
    /// left end.
    pub proof fn lemma_plate_of_cell(self, y: int, l: int, r: int, x: int)
        requires
            self.is_plate(y, l, r),
            l <= x <= r,
        ensures
            self.solid(x, y),
            self.run_begin(x, y) == l,
        decreases x - l,
    {
        self.lemma_run_end(l, y);
        if x > l {
            self.lemma_plate_of_cell(y, l, r, x - 1);
        }
    }

    /// The rectangle that a plate of row `y` closes with is a maximal stack
    /// with top row `y`.
    proof fn lemma_open_rect_is_rect(self, y: int, j: int)
        requires
            0 <= j < self.row_plates(y).len(),
            !self.continues(self.row_plates(y)[j]),
        ensures
            self.is_rect(self.open_rect(self.row_plates(y)[j])),
            self.open_rect(self.row_plates(y)[j]).top == y,
            self.open_rect(self.row_plates(y)[j]).left == self.row_plates(y)[j].left,
    {
        self.lemma_row_plates_upto(y, self.width as int);
        let p = self.row_plates_upto(y, self.width as int)[j];
        self.lemma_run_end(p.left as int, y);
        self.lemma_rect_bottom(y, p.left as int, p.right as int);
    }

    proof fn lemma_closed_prefix_elem(self, y: int, i: int, k: int)
        requires
            0 <= i <= self.row_plates(y).len(),
            0 <= k < self.closed_prefix(y, i).len(),
        ensures
            i >= 1,
            self.is_rect(self.closed_prefix(y, i)[k]),
            self.closed_prefix(y, i)[k].top == y,
            self.closed_prefix(y, i)[k].left <= self.row_plates(y)[i - 1].left,
        decreases i,
    {
        self.lemma_row_plates_upto(y, self.width as int);
        let plates = self.row_plates_upto(y, self.width as int);
        let p = plates[i - 1];
        if self.continues(p) || k < self.closed_prefix(y, i - 1).len() {
            self.lemma_closed_prefix_elem(y, i - 1, k);
            assert(plates[i - 2].left < plates[i - 1].left);
        } else {
            self.lemma_open_rect_is_rect(y, i - 1);
        }
    }

    proof fn lemma_closed_prefix_sorted(self, y: int, i: int, a: int, b: int)
        requires
            0 <= i <= self.row_plates(y).len(),
            0 <= a < b < self.closed_prefix(y, i).len(),
        ensures
            self.closed_prefix(y, i)[a].left < self.closed_prefix(y, i)[b].left,
        decreases i,
    {
        self.lemma_row_plates_upto(y, self.width as int);
        let plates = self.row_plates_upto(y, self.width as int);
        let p = plates[i - 1];
        if self.continues(p) || b < self.closed_prefix(y, i - 1).len() {
            self.lemma_closed_prefix_sorted(y, i - 1, a, b);
        } else {
            self.lemma_closed_prefix_elem(y, i - 1, a);
            self.lemma_open_rect_is_rect(y, i - 1);
            assert(plates[i - 2].left < plates[i - 1].left);
        }
    }

    proof fn lemma_closed_prefix_has(self, y: int, i: int, j: int) -> (k: int)
        requires
            0 <= j < i <= self.row_plates(y).len(),
            !self.continues(self.row_plates(y)[j]),
        ensures
            0 <= k < self.closed_prefix(y, i).len(),
            self.closed_prefix(y, i)[k] == self.open_rect(self.row_plates(y)[j]),
        decreases i,
    {
        if j == i - 1 {
            self.closed_prefix(y, i).len() - 1
        } else {
            self.lemma_closed_prefix_has(y, i - 1, j)
        }
    }

    /// Every listed rectangle whose top row lies below `m` is a maximal stack.
    proof fn lemma_rects_upto_elem(self, m: int, k: int)
        requires
            0 <= k < self.rects_upto(m).len(),
        ensures
            self.is_rect(self.rects_upto(m)[k]),
            0 <= self.rects_upto(m)[k].top < m,
        decreases m,
    {
        let prev = self.rects_upto(m - 1);
        if k < prev.len() {
            self.lemma_rects_upto_elem(m - 1, k);
        } else {
            self.lemma_closed_prefix_elem(
                m - 1,
                self.row_plates(m - 1).len() as int,
                k - prev.len(),
            );
        }
    }

    /// The list stands in the order of top rows, and within one top row in
    /// the order of left ends.
    proof fn lemma_rects_upto_sorted(self, m: int, a: int, b: int)
        requires
            0 <= a < b < self.rects_upto(m).len(),
        ensures
            self.rects_upto(m)[a].top < self.rects_upto(m)[b].top || (self.rects_upto(m)[a].top
                == self.rects_upto(m)[b].top && self.rects_upto(m)[a].left < self.rects_upto(
                m,
            )[b].left),
        decreases m,
    {
        let prev = self.rects_upto(m - 1);
        let n = self.row_plates(m - 1).len() as int;
        if b < prev.len() {
            self.lemma_rects_upto_sorted(m - 1, a, b);
        } else if a < prev.len() {
            self.lemma_rects_upto_elem(m - 1, a);
            self.lemma_closed_prefix_elem(m - 1, n, b - prev.len());
        } else {
            self.lemma_closed_prefix_elem(m - 1, n, a - prev.len());
            self.lemma_closed_prefix_elem(m - 1, n, b - prev.len());
            self.lemma_closed_prefix_sorted(m - 1, n, a - prev.len(), b - prev.len());
        }
    }

    /// Every maximal stack whose top row lies below `m` is listed.
    proof fn lemma_rects_upto_has(self, m: int, r: Rect) -> (k: int)
        requires
            self.is_rect(r),
            r.top < m,
        ensures
            0 <= k < self.rects_upto(m).len(),
            self.rects_upto(m)[k] == r,
        decreases m,
    {
        let prev = self.rects_upto(m - 1);
        if r.top < m - 1 {
            self.lemma_rects_upto_has(m - 1, r)
        } else {
            let y = m - 1;
            self.lemma_has_plate(y, r.left, r.right);
            self.lemma_row_plates_upto(y, self.width as int);
            let plates = self.row_plates(y);
            let j = choose|j: int|
                0 <= j < plates.len() && (#[trigger] plates[j]).left == r.left && plates[j].right
                    == r.right;
            assert(plates[j] == self.row_plates_upto(y, self.width as int)[j]);
            assert(plates[j].row == y);
            assert(self.open_rect(plates[j]) == r);
            let k = self.lemma_closed_prefix_has(y, plates.len() as int, j);
            prev.len() + k
        }
    }

    /// Every rectangle of the partition is a maximal stack of equal plates.
    pub proof fn lemma_rectangles_are_stacks(self, i: int)
        requires
            0 <= i < self.rectangles().len(),
        ensures
            self.is_rect(self.rectangles()[i]),
    {
        self.lemma_rects_upto_elem(self.height as int, i);
    }

    /// Every maximal stack of equal plates is a rectangle of the partition;
    /// the result is its place in the list.
    pub proof fn lemma_stack_is_listed(self, r: Rect) -> (i: int)
        requires
            self.is_rect(r),
        ensures
            0 <= i < self.rectangles().len(),
            self.rectangles()[i] == r,
    {
        self.lemma_rects_upto_has(self.height as int, r)
    }

    /// The rectangles are listed by top row, and those with the same top row
    /// by their left end; so none is listed twice.
    pub proof fn lemma_rectangles_ordered(self, i: int, j: int)
        requires
            0 <= i < j < self.rectangles().len(),
        ensures
            self.rectangles()[i].top < self.rectangles()[j].top || (self.rectangles()[i].top
                == self.rectangles()[j].top && self.rectangles()[i].left
                < self.rectangles()[j].left),
    {
        self.lemma_rects_upto_sorted(self.height as int, i, j);
    }

    /// Every rectangle of the partition lies within the grid, with its left
    /// end not east of its right end and its bottom not above its top.
    pub proof fn lemma_rectangles_in_grid(self, i: int)
        requires
            0 <= i < self.rectangles().len(),
        ensures
            self.encloses(self.rectangles()[i]),
    {
        let r = self.rectangles()[i];
        self.lemma_rects_upto_elem(self.height as int, i);
        self.lemma_run_end(r.left as int, r.top as int);
        self.lemma_rect_bottom(r.top as int, r.left as int, r.right as int);
    }

    /// The rectangles cover exactly the solid cells: a cell is solid if and
    /// only if some rectangle of the partition holds it.
    pub proof fn lemma_rectangles_cover(self, x: int, y: int)
        ensures
            self.solid(x, y) <==> holds_cell(self.rectangles(), x, y),
    {
        let rects = self.rectangles();
        if self.solid(x, y) {
            self.lemma_run_begin(x, y);
            self.lemma_run_end(x, y);
            let l = self.run_begin(x, y);
            let r = self.run_end(l, y);
            self.lemma_rect_top(y, l, r);
            let t = self.rect_top(y, l, r);
            self.lemma_rect_bottom(t, l, r);
            let b = self.rect_bottom(t, l, r);
            if b > y {
                assert(self.is_plate(b - 1, l, r));
            }
            let rect = Rect { left: l as i32, right: r as i32, bottom: b as i32, top: t as i32 };
            let k = self.lemma_rects_upto_has(self.height as int, rect);
            assert(rects[k].covers(x, y));
        }
        if exists|i: int| 0 <= i < rects.len() && (#[trigger] rects[i]).covers(x, y) {
            let i = choose|i: int| 0 <= i < rects.len() && (#[trigger] rects[i]).covers(x, y);
            let rect = rects[i];
            self.lemma_rects_upto_elem(self.height as int, i);
            self.lemma_rect_bottom(rect.top as int, rect.left as int, rect.right as int);
            self.lemma_plate_of_cell(y, rect.left as int, rect.right as int, x);
        }
    }

    /// No two rectangles of the partition share a cell.
    pub proof fn lemma_rectangles_disjoint(self, i: int, j: int)
        requires
            0 <= i < self.rectangles().len(),
            0 <= j < self.rectangles().len(),
            i != j,
        ensures
            !self.rectangles()[i].overlaps(self.rectangles()[j]),
    {
        let a = self.rectangles()[i];
        let b = self.rectangles()[j];
        let h = self.height as int;
        self.lemma_rects_upto_elem(h, i);
        self.lemma_rects_upto_elem(h, j);
        if a.overlaps(b) {
            let x: int = if a.left >= b.left { a.left as int } else { b.left as int };
            let y: int = if a.bottom >= b.bottom { a.bottom as int } else { b.bottom as int };
            self.lemma_rect_bottom(a.top as int, a.left as int, a.right as int);
            self.lemma_rect_bottom(b.top as int, b.left as int, b.right as int);
            self.lemma_run_end(a.left as int, a.top as int);
            self.lemma_run_end(b.left as int, b.top as int);
            self.lemma_plate_of_cell(y, a.left as int, a.right as int, x);
            self.lemma_plate_of_cell(y, b.left as int, b.right as int, x);
            assert(self.is_plate(y, a.left as int, a.right as int));
            assert(self.is_plate(y, b.left as int, b.right as int));
            assert(a.left == b.left);
            assert(a.right == b.right);
            if a.top < b.top {
                assert(self.is_plate(a.top + 1, b.left as int, b.right as int));
            } else if b.top < a.top {
                assert(self.is_plate(b.top + 1, a.left as int, a.right as int));
            }
            assert(a.top == b.top);
            if i < j {
                self.lemma_rects_upto_sorted(h, i, j);
            } else {
                self.lemma_rects_upto_sorted(h, j, i);
            }
        }
    }

    /// Two grids agree: they have the same size and the same solid cells.
    pub open spec fn agrees(self, other: GridModel) -> bool {
        &&& self.width == other.width
        &&& self.height == other.height
        &&& forall|x: int, y: int| self.solid(x, y) == other.solid(x, y)
    }

    proof fn lemma_agree_run_end(self, other: GridModel, x: int, y: int)
        requires
            self.agrees(other),
        ensures
            self.run_end(x, y) == other.run_end(x, y),
        decreases self.width - x,
    {
        if self.solid(x + 1, y) {
            self.lemma_agree_run_end(other, x + 1, y);
        }
    }

    proof fn lemma_agree_plates(self, other: GridModel, y: int, n: int)
        requires
            self.agrees(other),
        ensures
            self.row_plates_upto(y, n) == other.row_plates_upto(y, n),
        decreases n,
    {
        if n > 0 {
            self.lemma_agree_plates(other, y, n - 1);
            self.lemma_agree_run_end(other, n - 1, y);
        }
    }

    proof fn lemma_agree_bottom(self, other: GridModel, y: int, l: int, r: int)
        requires
            self.agrees(other),
        ensures
            self.rect_bottom(y, l, r) == other.rect_bottom(y, l, r),
        decreases y,
    {
        self.lemma_agree_run_end(other, l, y - 1);
        if self.is_plate(y - 1, l, r) {
            self.lemma_agree_bottom(other, y - 1, l, r);
        }
    }

    proof fn lemma_agree_closed(self, other: GridModel, y: int, i: int)
        requires
            self.agrees(other),
        ensures
            self.closed_prefix(y, i) == other.closed_prefix(y, i),
        decreases i,
    {
        if i > 0 {
            self.lemma_agree_closed(other, y, i - 1);
            self.lemma_agree_plates(other, y, self.width as int);
            let p = self.row_plates(y)[i - 1];
            self.lemma_agree_run_end(other, p.left as int, p.row + 1);
            self.lemma_agree_bottom(other, p.row as int, p.left as int, p.right as int);
        }
    }

    proof fn lemma_agree_rects(self, other: GridModel, m: int)
        requires
            self.agrees(other),
        ensures
            self.rects_upto(m) == other.rects_upto(m),
        decreases m,
    {
        if m > 0 {
            self.lemma_agree_rects(other, m - 1);
            self.lemma_agree_plates(other, m - 1, self.width as int);
            self.lemma_agree_closed(other, m - 1, self.row_plates(m - 1).len() as int);
        }
    }

    /// The partition is determined by the size of the grid and its solid
    /// cells: grids that agree in these have the same rectangles in the same
    /// order. So partitioning a grid a second time gives the same list again.
    pub proof fn lemma_partition_repeatable(self, other: GridModel)
        requires
            self.agrees(other),
        ensures
            self.rectangles() == other.rectangles(),
    {
        self.lemma_agree_rects(other, self.height as int);
    }

    /// Rectangles do not reach across groups: where the solid cells of a
    /// grid are cells of one group, every cell of every rectangle is a cell
    /// of that group.
    pub proof fn lemma_rects_keep_to_group(
        self,
        cells: Seq<TaggedCell>,
        group: u64,
        i: int,
        x: int,
        y: int,
    )
        requires
            forall|cx: int, cy: int|
                self.solid(cx, cy) ==> tagged(cells, cells.len() as int, group, cx, cy),
            0 <= i < self.rectangles().len(),
            self.rectangles()[i].covers(x, y),
        ensures
            tagged(cells, cells.len() as int, group, x, y),
    {
        self.lemma_rectangles_cover(x, y);
    }
}

} // verus!
