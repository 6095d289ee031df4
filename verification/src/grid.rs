//! The occupancy grid: which tiles of a level are solid.

use vstd::prelude::*;

verus! {

/// Number of cells in a grid of the given dimensions; a dimension that is
/// zero or negative leaves no cells.
pub open spec fn cell_count(width: int, height: int) -> int {
    if width > 0 && height > 0 {
        width * height
    } else {
        0
    }
}

/// A dimension as the grid keeps it: negative sizes count as zero.
pub open spec fn clamp_dim(d: int) -> int {
    if d > 0 {
        d
    } else {
        0
    }
}

/// What a grid is, mathematically: its dimensions and the set of its solid cells.
pub struct GridModel {
    pub width: i32,
    pub height: i32,
    pub cells: Set<(int, int)>,
}

impl GridModel {
    /// Whether `(x, y)` names a cell of the grid.
    pub open spec fn in_bounds(self, x: int, y: int) -> bool {
        0 <= x < self.width && 0 <= y < self.height
    }

    /// Whether the cell `(x, y)` is solid. Everything outside the grid is open space.
    pub open spec fn solid(self, x: int, y: int) -> bool {
        self.in_bounds(x, y) && self.cells.contains((x, y))
    }
}

/// Among the first `n` entries of `cells`, is there one that names `(x, y)`?
pub open spec fn listed(cells: Seq<(i32, i32)>, n: int, x: int, y: int) -> bool {
    exists|i: int| 0 <= i < n && i < cells.len() && (#[trigger] cells[i]).0 == x && cells[i].1 == y
}

/// A solid cell together with the group it belongs to, such as the level
/// that owns it. Cells of different groups never form one shape.
#[derive(Clone, Copy, Debug, PartialEq, Eq, Structural)]
pub struct TaggedCell {
    pub group: u64,
    pub x: i32,
    pub y: i32,
}

/// Among the first `n` entries of `cells`, is there one that names `(x, y)`
/// for the group `group`?
pub open spec fn tagged(cells: Seq<TaggedCell>, n: int, group: u64, x: int, y: int) -> bool {
    exists|i: int|
        0 <= i < n && i < cells.len() && (#[trigger] cells[i]).group == group && cells[i].x == x
            && cells[i].y == y
}

/// The row-major index of a cell of the grid lies within the cell array.
pub proof fn lemma_index_in_range(x: int, y: int, w: int, h: int)
    requires
        0 <= x < w,
        0 <= y < h,
    ensures
        0 <= y * w + x < w * h,
{
    assert(y * w + x < w * h) by (nonlinear_arith)
        requires
            0 <= x < w,
            0 <= y < h,
    {
        assert((y + 1) * w <= h * w);
    }
    assert(0 <= y * w) by (nonlinear_arith)
        requires
            0 <= y,
            0 <= w,
    ;
}

/// Two cells with the same row-major index are the same cell.
pub proof fn lemma_index_injective(x1: int, y1: int, x2: int, y2: int, w: int)
    requires
        0 <= x1 < w,
        0 <= x2 < w,
        y1 * w + x1 == y2 * w + x2,
    ensures
        x1 == x2,
        y1 == y2,
{
    if y1 < y2 {
        assert((y1 + 1) * w <= y2 * w) by (nonlinear_arith)
            requires
                y1 < y2,
                0 <= w,
        ;
        assert((y1 + 1) * w == y1 * w + w) by (nonlinear_arith);
    } else if y2 < y1 {
        assert((y2 + 1) * w <= y1 * w) by (nonlinear_arith)
            requires
                y2 < y1,
                0 <= w,
        ;
        assert((y2 + 1) * w == y2 * w + w) by (nonlinear_arith);
    }
}

/// A rectangular field of tiles, each either solid or open.
///
/// Cells are addressed by integer coordinates `(x, y)` with `0 <= x < width`
/// and `0 <= y < height`; `y` grows upward. The cells are kept in one flat
/// row-major array.
#[derive(Debug)]
pub struct Grid {
    width: i32,
    height: i32,
    cells: Vec<bool>,
}

impl View for Grid {
    type V = GridModel;

    closed spec fn view(&self) -> GridModel {
        GridModel {
            width: self.width,
            height: self.height,
            cells: Set::new(
                |p: (int, int)|
                    0 <= p.0 < self.width && 0 <= p.1 < self.height && self.cells@[p.1
                        * self.width + p.0],
            ),
        }
    }
}

impl Grid {
    #[verifier::type_invariant]
    spec fn inv(self) -> bool {
        &&& 0 <= self.width
        &&& 0 <= self.height
        &&& self.cells.len() == self.width * self.height
    }

    /// Whether a grid of the given size can be built: whether the number of
    /// its cells is one that this machine can count.
    pub fn fits(width: i32, height: i32) -> (b: bool)
        ensures
            b == (cell_count(width as int, height as int) <= usize::MAX),
    {
        if width <= 0 || height <= 0 {
            return true;
        }
        let w = width as u64;
        let h = height as u64;
        assert(w * h <= 0x4000_0000_0000_0000) by (nonlinear_arith)
            requires
                w < 0x8000_0000,
                h < 0x8000_0000,
        ;
        w * h <= usize::MAX as u64
    }

    /// A grid of the given size with every cell open. A negative dimension
    /// is taken as zero.
    pub fn new(width: i32, height: i32) -> (g: Grid)
        requires
            cell_count(width as int, height as int) <= usize::MAX,
        ensures
            g@.width == clamp_dim(width as int),
            g@.height == clamp_dim(height as int),
            g@.cells == Set::<(int, int)>::empty(),
    {
        let w: i32 = if width > 0 { width } else { 0 };
        let h: i32 = if height > 0 { height } else { 0 };
        assert(w * h == cell_count(width as int, height as int)) by (nonlinear_arith)
            requires
                w == clamp_dim(width as int),
                h == clamp_dim(height as int),
        ;
        let n: usize = (w as usize) * (h as usize);
        let cells: Vec<bool> = vec![false; n];
        let g = Grid { width: w, height: h, cells };
        proof {
            assert forall|p: (int, int)| !g@.cells.contains(p) by {
                if 0 <= p.0 < w && 0 <= p.1 < h {
                    lemma_index_in_range(p.0, p.1, w as int, h as int);
                }
            }
            assert(g@.cells =~= Set::<(int, int)>::empty());
        }
        g
    }

    /// A grid of the given size whose solid cells are those named in `cells`.
    /// Entries that lie outside the grid are ignored; naming a cell twice is
    /// the same as naming it once.
    pub fn from_cells(width: i32, height: i32, cells: &[(i32, i32)]) -> (g: Grid)
        requires
            cell_count(width as int, height as int) <= usize::MAX,
        ensures
            g@.width == clamp_dim(width as int),
            g@.height == clamp_dim(height as int),
            forall|x: int, y: int|
                g@.solid(x, y) <==> g@.in_bounds(x, y) && listed(cells@, cells@.len() as int, x, y),
    {
        let mut g = Grid::new(width, height);
        let mut i: usize = 0;
        while i < cells.len()
            invariant
                i <= cells.len(),
                g@.width == clamp_dim(width as int),
                g@.height == clamp_dim(height as int),
                forall|x: int, y: int|
                    g@.solid(x, y) <==> g@.in_bounds(x, y) && listed(cells@, i as int, x, y),
            decreases cells.len() - i,
        {
            let (cx, cy) = cells[i];
            let ghost before = g@;
            g = g.with_solid(cx, cy);
            proof {
                assert forall|x: int, y: int|
                    g@.solid(x, y) <==> g@.in_bounds(x, y) && listed(
                        cells@,
                        i as int + 1,
                        x,
                        y,
                    ) by {
                    if listed(cells@, i as int + 1, x, y) {
                        let k = choose|k: int|
                            0 <= k < i + 1 && k < cells@.len() && (#[trigger] cells@[k]).0 == x
                                && cells@[k].1 == y;
                        if k < i {
                            assert(listed(cells@, i as int, x, y));
                        }
                    }
                    if listed(cells@, i as int, x, y) {
                        let k = choose|k: int|
                            0 <= k < i && k < cells@.len() && (#[trigger] cells@[k]).0 == x
                                && cells@[k].1 == y;
                        assert(listed(cells@, i as int + 1, x, y));
                    }
                    if x == cx && y == cy {
                        assert(cells@[i as int].0 == x && cells@[i as int].1 == y);
                        assert(listed(cells@, i as int + 1, x, y));
                    }
                    assert(before.solid(x, y) <==> before.in_bounds(x, y) && listed(
                        cells@,
                        i as int,
                        x,
                        y,
                    ));
                }
            }
            i += 1;
        }
        g
    }

    /// The grid of one group: of the given size, with those cells solid that
    /// `cells` names for the group `group`. Entries of other groups and
    /// entries outside the grid are ignored.
    pub fn from_group(width: i32, height: i32, cells: &[TaggedCell], group: u64) -> (g: Grid)
        requires
            cell_count(width as int, height as int) <= usize::MAX,
        ensures
            g@.width == clamp_dim(width as int),
            g@.height == clamp_dim(height as int),
            forall|x: int, y: int|
                g@.solid(x, y) <==> g@.in_bounds(x, y) && tagged(
                    cells@,
                    cells@.len() as int,
                    group,
                    x,
                    y,
                ),
    {
        let mut g = Grid::new(width, height);
        let mut i: usize = 0;
        while i < cells.len()
            invariant
                i <= cells.len(),
                g@.width == clamp_dim(width as int),
                g@.height == clamp_dim(height as int),
                forall|x: int, y: int|
                    g@.solid(x, y) <==> g@.in_bounds(x, y) && tagged(cells@, i as int, group, x, y),
            decreases cells.len() - i,
        {
            let cell = cells[i];
            let ghost before = g@;
            if cell.group == group {
                g = g.with_solid(cell.x, cell.y);
            }
            proof {
                assert forall|x: int, y: int|
                    g@.solid(x, y) <==> g@.in_bounds(x, y) && tagged(
                        cells@,
                        i as int + 1,
                        group,
                        x,
                        y,
                    ) by {
                    if tagged(cells@, i as int + 1, group, x, y) {
                        let k = choose|k: int|
                            0 <= k < i + 1 && k < cells@.len() && (#[trigger] cells@[k]).group
                                == group && cells@[k].x == x && cells@[k].y == y;
                        if k < i {
                            assert(tagged(cells@, i as int, group, x, y));
                        }
                    }
                    if tagged(cells@, i as int, group, x, y) {
                        let k = choose|k: int|
                            0 <= k < i && k < cells@.len() && (#[trigger] cells@[k]).group == group
                                && cells@[k].x == x && cells@[k].y == y;
                        assert(tagged(cells@, i as int + 1, group, x, y));
                    }
                    if cell.group == group && x == cell.x && y == cell.y {
                        assert(cells@[i as int].group == group);
                        assert(tagged(cells@, i as int + 1, group, x, y));
                    }
                    assert(before.solid(x, y) <==> before.in_bounds(x, y) && tagged(
                        cells@,
                        i as int,
                        group,
                        x,
                        y,
                    ));
                }
            }
            i += 1;
        }
        g
    }

    /// Number of columns.
    pub fn width(&self) -> (w: i32)
        ensures
            w == self@.width,
            w >= 0,
    {
        proof {
            use_type_invariant(self);
        }
        self.width
    }

    /// Number of rows.
    pub fn height(&self) -> (h: i32)
        ensures
            h == self@.height,
            h >= 0,
    {
        proof {
            use_type_invariant(self);
        }
        self.height
    }

    /// Number of cells, `width * height`.
    pub fn area(&self) -> (n: usize)
        ensures
            n == self@.width * self@.height,
    {
        proof {
            use_type_invariant(self);
        }
        self.cells.len()
    }

    /// Whether the cell `(x, y)` is solid. Any coordinate outside the grid
    /// answers `false`.
    pub fn is_solid(&self, x: i32, y: i32) -> (b: bool)
        ensures
            b == self@.solid(x as int, y as int),
    {
        proof {
            use_type_invariant(self);
        }
        if x < 0 || y < 0 || x >= self.width || y >= self.height {
            return false;
        }
        proof {
            lemma_index_in_range(x as int, y as int, self.width as int, self.height as int);
        }
        let idx: usize = (y as usize) * (self.width as usize) + (x as usize);
        self.cells[idx]
    }

    /// The same grid with the cell `(x, y)` made solid. A coordinate outside
    /// the grid changes nothing.
    pub fn with_solid(self, x: i32, y: i32) -> (g: Grid)
        ensures
            g@.width == self@.width,
            g@.height == self@.height,
            g@.cells == if self@.in_bounds(x as int, y as int) {
                self@.cells.insert((x as int, y as int))
            } else {
                self@.cells
            },
    {
        proof {
            use_type_invariant(&self);
        }
        if x < 0 || y < 0 || x >= self.width || y >= self.height {
            return self;
        }
        proof {
            lemma_index_in_range(x as int, y as int, self.width as int, self.height as int);
        }
        let width = self.width;
        let height = self.height;
        let idx: usize = (y as usize) * (width as usize) + (x as usize);
        let ghost before = self@;
        let ghost old_cells = self.cells@;
        let mut cells = self.cells;
        cells.set(idx, true);
        let g = Grid { width, height, cells };
        proof {
            let w = width as int;
            assert forall|p: (int, int)|
                g@.cells.contains(p) <==> before.cells.insert((x as int, y as int)).contains(
                    p,
                ) by {
                if 0 <= p.0 < w && 0 <= p.1 < height {
                    lemma_index_in_range(p.0, p.1, w, height as int);
                    if p.1 * w + p.0 == idx {
                        lemma_index_injective(p.0, p.1, x as int, y as int, w);
                    }
                }
            }
            assert(g@.cells =~= before.cells.insert((x as int, y as int)));
        }
        g
    }
}

} // verus!
