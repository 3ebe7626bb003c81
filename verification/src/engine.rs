use vstd::prelude::*;

verus! {

use crate::board::Board;
use crate::board::lemma_wf_bounds;
use crate::error::Error;

/// The number of live cells among the eight neighbors of `(x, y)`.
pub open spec fn nbrs(b: Board, x: int, y: int) -> int {
    b.cell(x - 1, y - 1) + b.cell(x, y - 1) + b.cell(x + 1, y - 1) + b.cell(x - 1, y) + b.cell(
        x + 1,
        y,
    ) + b.cell(x - 1, y + 1) + b.cell(x, y + 1) + b.cell(x + 1, y + 1)
}

/// The birth/survival rule: a cell is alive in the next generation if and
/// only if it has exactly three live neighbors, or it is alive and has
/// exactly two.
pub open spec fn next_cell(b: Board, x: int, y: int) -> u8 {
    if nbrs(b, x, y) == 3 || (nbrs(b, x, y) == 2 && b.cell(x, y) == 1) {
        1u8
    } else {
        0u8
    }
}

/// Whether `(x, y)` lies on the one-cell padding ring of `b`.
pub open spec fn on_ring(b: Board, x: int, y: int) -> bool {
    b.in_bounds(x, y) && (x == 0 || y == 0 || x == b.w() - 1 || y == b.h() - 1)
}

/// A Game-of-Life engine: a live grid carrying a one-cell dead padding ring
/// on every side, and a scratch grid of the interior extent reused each step
/// to accumulate neighbor counts.
pub struct SimulationEngine {
    cells: Board,
    scratch: Board,
}

impl SimulationEngine {
    /// The live grid, padding ring included.
    pub closed spec fn grid(self) -> Board {
        self.cells
    }

    /// The neighbor-count scratch grid.
    pub closed spec fn scratch_grid(self) -> Board {
        self.scratch
    }

    /// Whether `(x, y)` is an interior (simulated) cell of the live grid.
    pub open spec fn interior(self, x: int, y: int) -> bool {
        1 <= x < self.grid().w() - 1 && 1 <= y < self.grid().h() - 1
    }

    /// Well-formed: both grids are well-formed, the live grid holds plain
    /// dead-or-alive states, the scratch extent is the live extent minus the
    /// padding ring, and the ring is dead.
    pub closed spec fn wf(self) -> bool {
        &&& self.cells.wf()
        &&& self.cells.binary()
        &&& self.scratch.wf()
        &&& self.cells.w() >= 3
        &&& self.cells.h() >= 3
        &&& self.scratch.w() == self.cells.w() - 2
        &&& self.scratch.h() == self.cells.h() - 2
        &&& forall|x: int, y: int| on_ring(self.cells, x, y) ==> self.cells.cell(x, y) == 0
    }

    /// Law: a well-formed engine keeps every cell of its one-cell padding
    /// ring dead. The constructors establish well-formedness and `advance`
    /// preserves it, so the ring is dead after any number of steps.
    pub proof fn lemma_ring_dead(self)
        requires
            self.wf(),
        ensures
            forall|x: int, y: int| on_ring(self.grid(), x, y) ==> self.grid().cell(x, y) == 0,
    {
    }

    /// An all-dead engine for the given interior extent; `InvalidDimensions`
    /// if and only if one of the extents is zero.
    pub fn new(interior_width: usize, interior_height: usize) -> (r: Result<
        SimulationEngine,
        Error,
    >)
        requires
            (interior_width + 2) * (interior_height + 2) <= usize::MAX,
        ensures
            match r {
                Ok(e) => {
                    &&& interior_width >= 1 && interior_height >= 1
                    &&& e.wf()
                    &&& e.grid().w() == interior_width + 2
                    &&& e.grid().h() == interior_height + 2
                    &&& forall|x: int, y: int|
                        e.grid().in_bounds(x, y) ==> e.grid().cell(x, y) == 0
                },
                Err(err) => err == Error::InvalidDimensions && (interior_width == 0
                    || interior_height == 0),
            },
    {
        if interior_width == 0 || interior_height == 0 {
            return Err(Error::InvalidDimensions);
        }
        proof {
            lemma_interior_fits(interior_width as int, interior_height as int);
        }
        let cells = Board::all_dead(interior_width + 2, interior_height + 2);
        let scratch = Board::all_dead(interior_width, interior_height);
        Ok(SimulationEngine { cells, scratch })
    }

    /// An engine over an existing board whose extent already includes the
    /// padding ring; the ring is zero-filled so it starts dead.
    /// `InvalidDimensions` if and only if the board is too small to host a
    /// ring around at least one interior cell.
    pub fn new_from_board(board: Board) -> (r: Result<SimulationEngine, Error>)
        requires
            board.wf(),
            board.binary(),
        ensures
            match r {
                Ok(e) => {
                    &&& board.w() >= 3 && board.h() >= 3
                    &&& e.wf()
                    &&& e.grid().w() == board.w()
                    &&& e.grid().h() == board.h()
                    &&& forall|x: int, y: int|
                        1 <= x < board.w() - 1 && 1 <= y < board.h() - 1 ==> e.grid().cell(x, y)
                            == board.cell(x, y)
                    &&& forall|x: int, y: int|
                        on_ring(e.grid(), x, y) ==> e.grid().cell(x, y) == 0
                },
                Err(err) => err == Error::InvalidDimensions && (board.w() < 3 || board.h() < 3),
            },
    {
        let w = board.width();
        let h = board.height();
        if w < 3 || h < 3 {
            return Err(Error::InvalidDimensions);
        }
        proof {
            lemma_wf_bounds(board);
            lemma_shrunk_fits(w as int, h as int);
        }
        let scratch = Board::all_dead(w - 2, h - 2);
        let mut cells = board;
        let ghost b0 = cells;
        // Zero-fill the top and bottom rows of the padding ring.
        let mut x: usize = 0;
        while x < w
            invariant
                b0.wf(),
                b0.binary(),
                w == b0.w(),
                h == b0.h(),
                3 <= w,
                3 <= h,
                x <= w,
                cells.wf(),
                cells.w() == w,
                cells.h() == h,
                forall|a: int, c: int|
                    cells.in_bounds(a, c) && !(c == 0 && a < x) && !(c == h - 1 && a < x)
                        ==> #[trigger] cells.cell(a, c) == b0.cell(a, c),
                forall|a: int, c: int|
                    0 <= a < x && (c == 0 || c == h - 1) ==> #[trigger] cells.cell(a, c) == 0,
            decreases w - x,
        {
            cells.put(x, 0, 0u8);
            cells.put(x, h - 1, 0u8);
            x = x + 1;
        }
        // Zero-fill the left and right columns of the padding ring.
        let mut y: usize = 0;
        while y < h
            invariant
                b0.wf(),
                b0.binary(),
                w == b0.w(),
                h == b0.h(),
                3 <= w,
                3 <= h,
                y <= h,
                cells.wf(),
                cells.w() == w,
                cells.h() == h,
                forall|a: int, c: int|
                    cells.in_bounds(a, c) && c != 0 && c != h - 1 && !(a == 0 && c < y) && !(a == w
                        - 1 && c < y) ==> #[trigger] cells.cell(a, c) == b0.cell(a, c),
                forall|a: int, c: int|
                    0 <= a < w && (c == 0 || c == h - 1) ==> #[trigger] cells.cell(a, c) == 0,
                forall|a: int, c: int|
                    (a == 0 || a == w - 1) && 0 <= c < y ==> #[trigger] cells.cell(a, c) == 0,
            decreases h - y,
        {
            cells.put(0, y, 0u8);
            cells.put(w - 1, y, 0u8);
            y = y + 1;
        }
        let e = SimulationEngine { cells, scratch };
        proof {
            assert forall|a: int, c: int| e.cells.in_bounds(a, c) implies e.cells.cell(a, c)
                <= 1 by {
                assert(b0.in_bounds(a, c));
            }
        }
        Ok(e)
    }

    /// A read-only view of the live grid, for the renderer.
    pub fn cells(&self) -> (r: &Board)
        ensures
            *r == self.grid(),
    {
        &self.cells
    }

    /// One simulation step. Every interior cell moves to its next state
    /// under the birth/survival rule, computed from the whole previous
    /// generation; the padding ring stays dead; the extent never changes.
    pub fn advance(&mut self)
        requires
            old(self).wf(),
        ensures
            final(self).wf(),
            final(self).grid().w() == old(self).grid().w(),
            final(self).grid().h() == old(self).grid().h(),
            forall|x: int, y: int|
                old(self).interior(x, y) ==> final(self).grid().cell(x, y) == next_cell(
                    old(self).grid(),
                    x,
                    y,
                ),
            forall|x: int, y: int|
                on_ring(old(self).grid(), x, y) ==> final(self).grid().cell(x, y) == 0,
            forall|a: int, c: int|
                0 <= a < old(self).grid().w() - 2 && 0 <= c < old(self).grid().h() - 2
                    ==> #[trigger] final(self).scratch_grid().cell(a, c) == nbrs(
                    old(self).grid(),
                    a + 1,
                    c + 1,
                ),
    {
        let ghost g = self.cells;
        proof {
            lemma_wf_bounds(self.cells);
        }
        let iw = self.scratch.width();
        let ih = self.scratch.height();
        // First pass: accumulate the eight shifted neighbor contributions of
        // the previous generation into the scratch grid.
        let mut y: usize = 0;
        while y < ih
            invariant
                g.wf(),
                g.binary(),
                self.cells == g,
                iw == g.w() - 2,
                ih == g.h() - 2,
                3 <= g.w() <= usize::MAX,
                3 <= g.h() <= usize::MAX,
                y <= ih,
                self.scratch.wf(),
                self.scratch.w() == iw,
                self.scratch.h() == ih,
                forall|a: int, c: int|
                    0 <= a < iw && 0 <= c < y ==> #[trigger] self.scratch.cell(a, c) == nbrs(
                        g,
                        a + 1,
                        c + 1,
                    ),
            decreases ih - y,
        {
            let mut x: usize = 0;
            while x < iw
                invariant
                    g.wf(),
                    g.binary(),
                    self.cells == g,
                    iw == g.w() - 2,
                    ih == g.h() - 2,
                    3 <= g.w() <= usize::MAX,
                    3 <= g.h() <= usize::MAX,
                    y < ih,
                    x <= iw,
                    self.scratch.wf(),
                    self.scratch.w() == iw,
                    self.scratch.h() == ih,
                    forall|a: int, c: int|
                        0 <= a < iw && 0 <= c < y ==> #[trigger] self.scratch.cell(a, c) == nbrs(
                            g,
                            a + 1,
                            c + 1,
                        ),
                    forall|a: int, c: int|
                        0 <= a < x && c == y ==> #[trigger] self.scratch.cell(a, c) == nbrs(
                            g,
                            a + 1,
                            c + 1,
                        ),
                decreases iw - x,
            {
                let c00 = self.cells.at(x, y);
                let c10 = self.cells.at(x + 1, y);
                let c20 = self.cells.at(x + 2, y);
                let c01 = self.cells.at(x, y + 1);
                let c21 = self.cells.at(x + 2, y + 1);
                let c02 = self.cells.at(x, y + 2);
                let c12 = self.cells.at(x + 1, y + 2);
                let c22 = self.cells.at(x + 2, y + 2);
                proof {
                    assert(c00 <= 1 && c10 <= 1 && c20 <= 1 && c01 <= 1 && c21 <= 1 && c02 <= 1
                        && c12 <= 1 && c22 <= 1);
                }
                let n = c00 + c10 + c20 + c01 + c21 + c02 + c12 + c22;
                self.scratch.put(x, y, n);
                x = x + 1;
            }
            y = y + 1;
        }
        // Second pass: apply the rule elementwise, overwriting the interior
        // in place; the counts in the scratch grid all describe the previous
        // generation, so the order of overwriting does not matter.
        let mut y2: usize = 0;
        while y2 < ih
            invariant
                g.wf(),
                g.binary(),
                iw == g.w() - 2,
                ih == g.h() - 2,
                3 <= g.w() <= usize::MAX,
                3 <= g.h() <= usize::MAX,
                y2 <= ih,
                self.scratch.wf(),
                self.scratch.w() == iw,
                self.scratch.h() == ih,
                forall|a: int, c: int|
                    0 <= a < iw && 0 <= c < ih ==> #[trigger] self.scratch.cell(a, c) == nbrs(
                        g,
                        a + 1,
                        c + 1,
                    ),
                self.cells.wf(),
                self.cells.w() == g.w(),
                self.cells.h() == g.h(),
                forall|x: int, y: int| on_ring(g, x, y) ==> self.cells.cell(x, y) == 0,
                forall|px: int, py: int|
                    1 <= px < g.w() - 1 && 1 <= py < 1 + y2 ==> #[trigger] self.cells.cell(px, py)
                        == next_cell(g, px, py),
                forall|px: int, py: int|
                    1 <= px < g.w() - 1 && 1 + y2 <= py < g.h() - 1 ==> #[trigger] self.cells.cell(
                        px,
                        py,
                    ) == g.cell(px, py),
            decreases ih - y2,
        {
            let mut x2: usize = 0;
            while x2 < iw
                invariant
                    g.wf(),
                    g.binary(),
                    iw == g.w() - 2,
                    ih == g.h() - 2,
                    3 <= g.w() <= usize::MAX,
                    3 <= g.h() <= usize::MAX,
                    y2 < ih,
                    x2 <= iw,
                    self.scratch.wf(),
                    self.scratch.w() == iw,
                    self.scratch.h() == ih,
                    forall|a: int, c: int|
                        0 <= a < iw && 0 <= c < ih ==> #[trigger] self.scratch.cell(a, c) == nbrs(
                            g,
                            a + 1,
                            c + 1,
                        ),
                    self.cells.wf(),
                    self.cells.w() == g.w(),
                    self.cells.h() == g.h(),
                    forall|x: int, y: int| on_ring(g, x, y) ==> self.cells.cell(x, y) == 0,
                    forall|px: int, py: int|
                        1 <= px < g.w() - 1 && 1 <= py < 1 + y2 ==> #[trigger] self.cells.cell(
                            px,
                            py,
                        ) == next_cell(g, px, py),
                    forall|px: int, py: int|
                        1 <= px < 1 + x2 && py == 1 + y2 ==> #[trigger] self.cells.cell(px, py)
                            == next_cell(g, px, py),
                    forall|px: int, py: int|
                        1 <= px < g.w() - 1 && 1 + y2 <= py < g.h() - 1 && (py > 1 + y2 || px >= 1
                            + x2) ==> #[trigger] self.cells.cell(px, py) == g.cell(px, py),
                decreases iw - x2,
            {
                let n = self.scratch.at(x2, y2);
                let cur = self.cells.at(x2 + 1, y2 + 1);
                let v: u8 = if n == 3 || (n == 2 && cur == 1) {
                    1u8
                } else {
                    0u8
                };
                self.cells.put(x2 + 1, y2 + 1, v);
                x2 = x2 + 1;
            }
            y2 = y2 + 1;
        }
        proof {
            assert forall|x: int, y: int| self.cells.in_bounds(x, y) implies #[trigger] self.cells.cell(
                x,
                y,
            ) <= 1 by {
                if on_ring(g, x, y) {
                    assert(self.cells.cell(x, y) == 0);
                } else {
                    assert(self.cells.cell(x, y) == next_cell(g, x, y));
                }
            }
            assert forall|x: int, y: int| on_ring(self.cells, x, y) implies self.cells.cell(x, y)
                == 0 by {
                assert(on_ring(g, x, y));
            }
            assert(self.cells.binary());
        }
    }
}

/// An interior extent plus its ring fits whenever the padded cell count does.
proof fn lemma_interior_fits(iw: int, ih: int)
    requires
        1 <= iw,
        1 <= ih,
        (iw + 2) * (ih + 2) <= usize::MAX as int,
    ensures
        iw + 2 <= usize::MAX as int,
        ih + 2 <= usize::MAX as int,
        iw * ih <= usize::MAX as int,
{
    assert(iw + 2 <= (iw + 2) * (ih + 2) && ih + 2 <= (iw + 2) * (ih + 2) && iw * ih <= (iw + 2) * (
    ih + 2)) by (nonlinear_arith)
        requires
            1 <= iw,
            1 <= ih,
    ;
}

/// A board extent minus its ring still fits.
proof fn lemma_shrunk_fits(w: int, h: int)
    requires
        3 <= w,
        3 <= h,
        w * h <= usize::MAX as int,
    ensures
        (w - 2) * (h - 2) <= usize::MAX as int,
{
    assert((w - 2) * (h - 2) <= w * h) by (nonlinear_arith)
        requires
            3 <= w,
            3 <= h,
    ;
}

} // verus!
