use vstd::prelude::*;

verus! {

/// A cell of the board, by column and row.
#[derive(Clone, Copy, Debug, PartialEq, Eq, Structural)]
pub struct Pos {
    pub x: i32,
    pub y: i32,
}

/// Whether `p` lies on a board of the given width and height.
pub open spec fn on_board(p: Pos, width: int, height: int) -> bool {
    0 <= p.x < width && 0 <= p.y < height
}

/// Distinct cells of a board have distinct row-major indices.
pub proof fn lemma_index_injective(p: Pos, q: Pos, width: int, height: int)
    requires
        on_board(p, width, height),
        on_board(q, width, height),
        p != q,
    ensures
        p.y * width + p.x != q.y * width + q.x,
{
    if p.y < q.y {
        assert(p.y * width + width <= q.y * width) by (nonlinear_arith)
            requires p.y < q.y, 0 < width;
    } else if q.y < p.y {
        assert(q.y * width + width <= p.y * width) by (nonlinear_arith)
            requires q.y < p.y, 0 < width;
    }
}

/// A cell's row-major index lies inside the flat array.
pub proof fn lemma_index_in_range(p: Pos, width: int, height: int)
    requires
        on_board(p, width, height),
    ensures
        0 <= p.y * width + p.x < width * height,
{
    assert(0 <= p.y * width) by (nonlinear_arith)
        requires 0 <= p.y, 0 < width;
    assert(p.y * width + width <= width * height) by (nonlinear_arith)
        requires p.y < height, 0 < width;
}

/// Per-cell counters of the cells that snake bodies cover, kept in a flat
/// row-major array.
pub struct OccupancyGrid {
    width: i32,
    height: i32,
    cells: Vec<usize>,
}

impl OccupancyGrid {
    pub closed spec fn spec_width(&self) -> int {
        self.width as int
    }

    pub closed spec fn spec_height(&self) -> int {
        self.height as int
    }

    pub open spec fn contains(&self, p: Pos) -> bool {
        on_board(p, self.spec_width(), self.spec_height())
    }

    /// The counter of cell `p`.
    pub closed spec fn count_of(&self, p: Pos) -> nat {
        self.cells@[p.y * self.width + p.x] as nat
    }

    pub closed spec fn wf(&self) -> bool {
        &&& 0 < self.width
        &&& 0 < self.height
        &&& self.cells@.len() == self.width * self.height
    }

    /// Whether every counter of the grid is zero.
    pub open spec fn is_empty(&self) -> bool {
        forall|p: Pos| self.contains(p) ==> #[trigger] self.count_of(p) == 0
    }

    /// A grid of `width` by `height` cells, all at zero.
    pub fn new(width: i32, height: i32) -> (g: OccupancyGrid)
        requires
            0 < width,
            0 < height,
            width * height <= usize::MAX,
        ensures
            g.wf(),
            g.spec_width() == width,
            g.spec_height() == height,
            g.is_empty(),
    {
        let n: usize = (width as usize) * (height as usize);
        let mut cells: Vec<usize> = Vec::new();
        let mut i: usize = 0;
        while i < n
            invariant
                i <= n,
                cells@.len() == i,
                forall|k: int| 0 <= k < i ==> cells@[k] == 0,
            decreases n - i,
        {
            cells.push(0);
            i = i + 1;
        }
        let g = OccupancyGrid { width, height, cells };
        assert forall|p: Pos| g.contains(p) implies #[trigger] g.count_of(p) == 0 by {
            lemma_index_in_range(p, width as int, height as int);
        }
        g
    }

    pub fn width(&self) -> (r: i32)
        ensures
            r == self.spec_width(),
    {
        self.width
    }

    pub fn height(&self) -> (r: i32)
        ensures
            r == self.spec_height(),
    {
        self.height
    }

    /// Whether `p` lies on the grid.
    pub fn in_bounds(&self, p: Pos) -> (r: bool)
        ensures
            r == self.contains(p),
    {
        p.x >= 0 && p.x < self.width && p.y >= 0 && p.y < self.height
    }

    fn index(&self, p: Pos) -> (i: usize)
        requires
            self.wf(),
            self.contains(p),
        ensures
            i == p.y * self.width + p.x,
            i < self.cells@.len(),
    {
        proof {
            lemma_index_in_range(p, self.width as int, self.height as int);
            assert(self.cells@.len() == self.cells.len());
        }
        (p.y as usize) * (self.width as usize) + (p.x as usize)
    }

    /// The number of body segments that cover `p`.
    pub fn count(&self, p: Pos) -> (r: usize)
        requires
            self.wf(),
            self.contains(p),
        ensures
            r == self.count_of(p),
    {
        let i = self.index(p);
        self.cells[i]
    }

    /// Adds one to the counter of `p`.
    pub fn increment(&mut self, p: Pos)
        requires
            old(self).wf(),
            old(self).contains(p),
            old(self).count_of(p) < usize::MAX,
        ensures
            final(self).wf(),
            final(self).spec_width() == old(self).spec_width(),
            final(self).spec_height() == old(self).spec_height(),
            final(self).count_of(p) == old(self).count_of(p) + 1,
            forall|q: Pos|
                q != p && old(self).contains(q) ==> #[trigger] final(self).count_of(q)
                    == old(self).count_of(q),
    {
        let i = self.index(p);
        let v = self.cells[i];
        self.cells.set(i, v + 1);
        proof {
            assert forall|q: Pos| q != p && old(self).contains(q) implies #[trigger] self.count_of(q)
                == old(self).count_of(q) by {
                lemma_index_injective(p, q, self.width as int, self.height as int);
                lemma_index_in_range(q, self.width as int, self.height as int);
            }
        }
    }

    /// Takes one from the counter of `p`, which must be positive: a counter
    /// that would go below zero means the grid no longer matches the bodies.
    pub fn decrement(&mut self, p: Pos)
        requires
            old(self).wf(),
            old(self).contains(p),
            old(self).count_of(p) > 0,
        ensures
            final(self).wf(),
            final(self).spec_width() == old(self).spec_width(),
            final(self).spec_height() == old(self).spec_height(),
            final(self).count_of(p) == old(self).count_of(p) - 1,
            forall|q: Pos|
                q != p && old(self).contains(q) ==> #[trigger] final(self).count_of(q)
                    == old(self).count_of(q),
    {
        let i = self.index(p);
        let v = self.cells[i];
        self.cells.set(i, v - 1);
        proof {
            assert forall|q: Pos| q != p && old(self).contains(q) implies #[trigger] self.count_of(q)
                == old(self).count_of(q) by {
                lemma_index_injective(p, q, self.width as int, self.height as int);
                lemma_index_in_range(q, self.width as int, self.height as int);
            }
        }
    }
}

} // verus!
