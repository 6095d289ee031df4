//! Scratch records of a scan: for each cell and side, the segment that the
//! side belongs to.

use crate::grid::{cell_count, clamp_dim, lemma_index_in_range, lemma_index_injective};
use crate::runs::Side;
use vstd::prelude::*;

verus! {

/// What a scan has noted of one cell: for each side, whether it belongs to a
/// segment, and to which.
#[derive(Clone, Copy, Debug)]
pub struct Cell {
    edge_id: [usize; 4],
    edge_exist: [bool; 4],
}

impl Cell {
    /// The segment noted for side `side`, if any.
    pub closed spec fn edge_on(self, side: Side) -> Option<usize> {
        if self.edge_exist@[side.slot()] {
            Some(self.edge_id@[side.slot()])
        } else {
            None
        }
    }

    /// A record with no segment noted on any side.
    pub fn new() -> (c: Cell)
        ensures
            forall|side: Side| c.edge_on(side).is_none(),
    {
        Cell { edge_id: [0, 0, 0, 0], edge_exist: [false, false, false, false] }
    }

    /// The segment noted for side `side`, if any.
    pub fn edge(&self, side: Side) -> (id: Option<usize>)
        ensures
            id == self.edge_on(side),
    {
        let i = side.index();
        if self.edge_exist[i] {
            Some(self.edge_id[i])
        } else {
            None
        }
    }

    /// The same record with segment `id` noted for side `side`.
    pub fn with_edge(self, side: Side, id: usize) -> (c: Cell)
        ensures
            c.edge_on(side) == Some(id),
            forall|other: Side| other != side ==> c.edge_on(other) == self.edge_on(other),
    {
        let i = side.index();
        let mut edge_id = self.edge_id;
        let mut edge_exist = self.edge_exist;
        edge_id[i] = id;
        edge_exist[i] = true;
        Cell { edge_id, edge_exist }
    }
}

/// The records of all cells of a grid, in one flat row-major array.
pub struct Cells {
    width: i32,
    height: i32,
    cells: Vec<Cell>,
}

impl View for Cells {
    type V = Map<(int, int, Side), usize>;

    closed spec fn view(&self) -> Map<(int, int, Side), usize> {
        Map::new(
            |k: (int, int, Side)|
                0 <= k.0 < self.width && 0 <= k.1 < self.height && self.cells@[k.1 * self.width
                    + k.0].edge_on(k.2).is_some(),
            |k: (int, int, Side)| self.cells@[k.1 * self.width + k.0].edge_on(k.2).unwrap(),
        )
    }
}

impl Cells {
    #[verifier::type_invariant]
    spec fn inv(self) -> bool {
        &&& 0 <= self.width
        &&& 0 <= self.height
        &&& self.cells.len() == self.width * self.height
    }

    /// Number of columns.
    pub closed spec fn columns(&self) -> int {
        self.width as int
    }

    /// Number of rows.
    pub closed spec fn rows(&self) -> int {
        self.height as int
    }

    /// Records for a grid of the given size, with nothing noted. A negative
    /// dimension is taken as zero.
    pub fn new(width: i32, height: i32) -> (c: Cells)
        requires
            cell_count(width as int, height as int) <= usize::MAX,
        ensures
            c.columns() == clamp_dim(width as int),
            c.rows() == clamp_dim(height as int),
            c@ == Map::<(int, int, Side), usize>::empty(),
    {
        let w: i32 = if width > 0 { width } else { 0 };
        let h: i32 = if height > 0 { height } else { 0 };
        assert(w * h == cell_count(width as int, height as int)) by (nonlinear_arith)
            requires
                w == clamp_dim(width as int),
                h == clamp_dim(height as int),
        ;
        let n: usize = (w as usize) * (h as usize);
        let blank = Cell::new();
        let cells: Vec<Cell> = vec![blank; n];
        let c = Cells { width: w, height: h, cells };
        proof {
            assert forall|k: (int, int, Side)| !c@.dom().contains(k) by {
                if 0 <= k.0 < w && 0 <= k.1 < h {
                    lemma_index_in_range(k.0, k.1, w as int, h as int);
                }
            }
            assert(c@ =~= Map::<(int, int, Side), usize>::empty());
        }
        c
    }

    /// The segment noted for side `side` of cell `(x, y)`, if any. There is
    /// none for a cell outside the grid.
    pub fn edge(&self, x: i32, y: i32, side: Side) -> (id: Option<usize>)
        ensures
            id == if 0 <= x < self.columns() && 0 <= y < self.rows() && self@.dom().contains(
                (x as int, y as int, side),
            ) {
                Some(self@[(x as int, y as int, side)])
            } else {
                None
            },
    {
        proof {
            use_type_invariant(self);
        }
        if x < 0 || y < 0 || x >= self.width || y >= self.height {
            return None;
        }
        proof {
            lemma_index_in_range(x as int, y as int, self.width as int, self.height as int);
        }
        let idx: usize = (y as usize) * (self.width as usize) + (x as usize);
        self.cells[idx].edge(side)
    }

    /// The same records with segment `id` noted for side `side` of cell
    /// `(x, y)`. A cell outside the grid changes nothing.
    pub fn with_edge(self, x: i32, y: i32, side: Side, id: usize) -> (c: Cells)
        ensures
            c.columns() == self.columns(),
            c.rows() == self.rows(),
            c@ == if 0 <= x < self.columns() && 0 <= y < self.rows() {
                self@.insert((x as int, y as int, side), id)
            } else {
                self@
            },
    {
        proof {
            use_type_invariant(&self);
        }
        if x < 0 || y < 0 || x >= self.width || y >= self.height {
            return self;
        }
        proof {
            lemma_index_in_range(x as int, y as int, self.width as int, self.height as int);
        }
        let width = self.width;
        let height = self.height;
        let idx: usize = (y as usize) * (width as usize) + (x as usize);
        let ghost before = self@;
        let mut cells = self.cells;
        let cell = cells[idx].with_edge(side, id);
        cells.set(idx, cell);
        let c = Cells { width, height, cells };
        proof {
            let w = width as int;
            let after = before.insert((x as int, y as int, side), id);
            assert forall|k: (int, int, Side)| c@.dom().contains(k) <==> after.dom().contains(
                k,
            ) by {
                if 0 <= k.0 < w && 0 <= k.1 < height {
                    lemma_index_in_range(k.0, k.1, w, height as int);
                    if k.1 * w + k.0 == idx {
                        lemma_index_injective(k.0, k.1, x as int, y as int, w);
                    }
                }
            }
            assert forall|k: (int, int, Side)| c@.dom().contains(k) implies c@[k] == after[k] by {
                lemma_index_in_range(k.0, k.1, w, height as int);
                if k.1 * w + k.0 == idx {
                    lemma_index_injective(k.0, k.1, x as int, y as int, w);
                }
            }
            assert(c@ =~= after);
        }
        c
    }
}

} // verus!
