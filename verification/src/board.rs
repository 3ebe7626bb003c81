use vstd::prelude::*;

verus! {

use crate::error::Error;

/// A dense rectangular grid of byte-sized cell states, stored row-major.
/// A cell holds `0` (dead) or `1` (alive); reserving a whole byte lets
/// neighbor counts be summed directly without a per-cell branch.
/// The extent never changes after construction.
pub struct Board {
    width: usize,
    height: usize,
    cells: Vec<u8>,
}

impl Board {
    /// The width, as a mathematical integer.
    pub closed spec fn w(self) -> int {
        self.width as int
    }

    /// The height, as a mathematical integer.
    pub closed spec fn h(self) -> int {
        self.height as int
    }

    /// The state of the cell in column `x` of row `y`.
    pub closed spec fn cell(self, x: int, y: int) -> u8 {
        self.cells@[y * self.w() + x]
    }

    /// Whether `(x, y)` lies on the board.
    pub open spec fn in_bounds(self, x: int, y: int) -> bool {
        0 <= x < self.w() && 0 <= y < self.h()
    }

    /// Well-formed: a positive extent whose cell count fits the address
    /// space, over a backing vector of exactly `width * height` bytes.
    pub closed spec fn wf(self) -> bool {
        &&& 1 <= self.w()
        &&& 1 <= self.h()
        &&& self.w() * self.h() <= usize::MAX as int
        &&& self.cells@.len() == self.w() * self.h()
    }

    /// Whether every cell holds a plain dead-or-alive state. Boards built
    /// through the public constructors and mutated through `set` always do;
    /// the engine's scratch grid, which accumulates neighbor counts, need
    /// not.
    pub open spec fn binary(self) -> bool {
        forall|x: int, y: int| self.in_bounds(x, y) ==> #[trigger] self.cell(x, y) <= 1
    }

    /// Allocates an all-dead board; `InvalidDimensions` if and only if one
    /// of the extents is zero.
    pub fn new(width: usize, height: usize) -> (r: Result<Board, Error>)
        requires
            width * height <= usize::MAX,
        ensures
            match r {
                Ok(b) => {
                    &&& width >= 1 && height >= 1
                    &&& b.wf()
                    &&& b.binary()
                    &&& b.w() == width && b.h() == height
                    &&& forall|x: int, y: int| b.in_bounds(x, y) ==> b.cell(x, y) == 0
                },
                Err(e) => e == Error::InvalidDimensions && (width == 0 || height == 0),
            },
    {
        if width == 0 || height == 0 {
            Err(Error::InvalidDimensions)
        } else {
            Ok(Self::all_dead(width, height))
        }
    }

    /// Allocates an all-dead board of a positive extent already known to fit.
    pub(crate) fn all_dead(width: usize, height: usize) -> (b: Board)
        requires
            1 <= width,
            1 <= height,
            width * height <= usize::MAX,
        ensures
            b.wf(),
            b.binary(),
            b.w() == width,
            b.h() == height,
            forall|x: int, y: int| b.in_bounds(x, y) ==> b.cell(x, y) == 0,
    {
        let n = width * height;
        let mut cells: Vec<u8> = Vec::new();
        let mut i: usize = 0;
        while i < n
            invariant
                i <= n,
                cells@.len() == i,
                forall|k: int| 0 <= k < i ==> cells@[k] == 0,
            decreases n - i,
        {
            cells.push(0u8);
            i = i + 1;
        }
        let b = Board { width, height, cells };
        proof {
            assert forall|x: int, y: int| b.in_bounds(x, y) implies b.cell(x, y) == 0 by {
                lemma_row_major_index(width as int, height as int, x, y);
            }
        }
        b
    }

    /// Reads a cell known to be on a well-formed board.
    pub(crate) fn at(&self, x: usize, y: usize) -> (r: u8)
        requires
            self.wf(),
            self.in_bounds(x as int, y as int),
        ensures
            r == self.cell(x as int, y as int),
    {
        proof {
            lemma_row_major_index(self.w(), self.h(), x as int, y as int);
        }
        self.cells[y * self.width + x]
    }

    /// Writes a cell known to be on a well-formed board, leaving every other
    /// cell and the extent unchanged.
    pub(crate) fn put(&mut self, x: usize, y: usize, v: u8)
        requires
            old(self).wf(),
            old(self).in_bounds(x as int, y as int),
        ensures
            final(self).wf(),
            final(self).w() == old(self).w(),
            final(self).h() == old(self).h(),
            final(self).cell(x as int, y as int) == v,
            forall|a: int, b: int|
                old(self).in_bounds(a, b) && (a != x || b != y) ==> final(self).cell(a, b)
                    == old(self).cell(a, b),
    {
        proof {
            lemma_row_major_index(self.w(), self.h(), x as int, y as int);
        }
        let idx = y * self.width + x;
        self.cells[idx] = v;
        proof {
            assert forall|a: int, b: int|
                old(self).in_bounds(a, b) && (a != x || b != y) implies self.cell(a, b) == old(
                self,
            ).cell(a, b) by {
                lemma_row_major_index(self.w(), self.h(), a, b);
                lemma_row_major_distinct(self.w(), self.h(), x as int, y as int, a, b);
            }
        }
    }

    /// The width.
    pub fn width(&self) -> (r: usize)
        ensures
            r == self.w(),
    {
        self.width
    }

    /// The height.
    pub fn height(&self) -> (r: usize)
        ensures
            r == self.h(),
    {
        self.height
    }

    /// Bounds-checked read; `OutOfBounds` if and only if `(x, y)` lies off
    /// the board.
    pub fn get(&self, x: usize, y: usize) -> (r: Result<u8, Error>)
        requires
            self.wf(),
        ensures
            match r {
                Ok(v) => self.in_bounds(x as int, y as int) && v == self.cell(x as int, y as int),
                Err(e) => e == Error::OutOfBounds && !self.in_bounds(x as int, y as int),
            },
    {
        if x < self.width && y < self.height {
            Ok(self.at(x, y))
        } else {
            Err(Error::OutOfBounds)
        }
    }

    /// Bounds-checked write of a cell state (`0` or `1`); `OutOfBounds` if
    /// and only if `(x, y)` lies off the board, in which case nothing
    /// changes.
    pub fn set(&mut self, x: usize, y: usize, value: u8) -> (r: Result<(), Error>)
        requires
            old(self).wf(),
            value <= 1,
        ensures
            final(self).wf(),
            final(self).w() == old(self).w(),
            final(self).h() == old(self).h(),
            match r {
                Ok(()) => {
                    &&& old(self).in_bounds(x as int, y as int)
                    &&& final(self).cell(x as int, y as int) == value
                    &&& forall|a: int, b: int|
                        old(self).in_bounds(a, b) && (a != x || b != y) ==> final(self).cell(a, b)
                            == old(self).cell(a, b)
                },
                Err(e) => {
                    &&& e == Error::OutOfBounds
                    &&& !old(self).in_bounds(x as int, y as int)
                    &&& *final(self) == *old(self)
                },
            },
    {
        if x < self.width && y < self.height {
            self.put(x, y, value);
            Ok(())
        } else {
            Err(Error::OutOfBounds)
        }
    }

    /// What a cell of the board returned by `embed_into(margin)` holds: the
    /// receiver's contents shifted by half the margin, dead cells elsewhere.
    pub open spec fn embedded_cell(self, margin: int, x: int, y: int) -> u8 {
        let m2 = margin / 2;
        if m2 <= x < m2 + self.w() && m2 <= y < m2 + self.h() {
            self.cell(x - m2, y - m2)
        } else {
            0u8
        }
    }

    /// A new board of extent `(width + margin) x (height + margin)` holding
    /// this board's contents centered inside a dead border; the margin must
    /// split evenly, so `InvalidDimensions` if and only if it is odd.
    pub fn embed_into(&self, margin: usize) -> (r: Result<Board, Error>)
        requires
            self.wf(),
            (self.w() + margin) * (self.h() + margin) <= usize::MAX,
        ensures
            match r {
                Ok(b) => {
                    &&& margin % 2 == 0
                    &&& b.wf()
                    &&& b.w() == self.w() + margin
                    &&& b.h() == self.h() + margin
                    &&& forall|x: int, y: int|
                        b.in_bounds(x, y) ==> b.cell(x, y) == self.embedded_cell(
                            margin as int,
                            x,
                            y,
                        )
                },
                Err(e) => e == Error::InvalidDimensions && margin % 2 == 1,
            },
    {
        if margin % 2 == 1 {
            return Err(Error::InvalidDimensions);
        }
        proof {
            lemma_extent_fits(self.w(), self.h(), margin as int);
        }
        let nw = self.width + margin;
        let nh = self.height + margin;
        let m2 = margin / 2;
        let mut b = Self::all_dead(nw, nh);
        let mut y: usize = 0;
        while y < self.height
            invariant
                self.wf(),
                y <= self.h(),
                margin % 2 == 0,
                m2 == margin / 2,
                nw == self.w() + margin,
                nh == self.h() + margin,
                b.wf(),
                b.w() == nw,
                b.h() == nh,
                forall|a: int, c: int|
                    b.in_bounds(a, c) ==> b.cell(a, c) == (if m2 <= a < m2 + self.w() && m2 <= c
                        < m2 + y {
                        self.cell(a - m2, c - m2)
                    } else {
                        0u8
                    }),
            decreases self.h() - y,
        {
            let mut x: usize = 0;
            while x < self.width
                invariant
                    self.wf(),
                    y < self.h(),
                    x <= self.w(),
                    margin % 2 == 0,
                    m2 == margin / 2,
                    nw == self.w() + margin,
                    nh == self.h() + margin,
                    b.wf(),
                    b.w() == nw,
                    b.h() == nh,
                    forall|a: int, c: int|
                        b.in_bounds(a, c) ==> b.cell(a, c) == (if m2 <= a < m2 + self.w() && m2 <= c
                            < m2 + y {
                            self.cell(a - m2, c - m2)
                        } else if c == m2 + y && m2 <= a < m2 + x {
                            self.cell(a - m2, c - m2)
                        } else {
                            0u8
                        }),
                decreases self.w() - x,
            {
                let v = self.at(x, y);
                b.put(x + m2, y + m2, v);
                x = x + 1;
            }
            y = y + 1;
        }
        Ok(b)
    }
}

/// What well-formedness guarantees about a board's extent.
pub(crate) proof fn lemma_wf_bounds(b: Board)
    requires
        b.wf(),
    ensures
        1 <= b.w() <= usize::MAX as int,
        1 <= b.h() <= usize::MAX as int,
        b.w() * b.h() <= usize::MAX as int,
{
    assert(b.w() <= b.w() * b.h() && b.h() <= b.w() * b.h()) by (nonlinear_arith)
        requires
            1 <= b.w(),
            1 <= b.h(),
    ;
}

/// A row-major index stays inside a `w x h` cell vector.
pub(crate) proof fn lemma_row_major_index(w: int, h: int, x: int, y: int)
    requires
        0 <= x < w,
        0 <= y < h,
    ensures
        0 <= y * w + x < h * w,
        h * w == w * h,
{
    assert(y * w + x < h * w) by (nonlinear_arith)
        requires
            0 <= x < w,
            0 <= y < h,
    ;
    assert(0 <= y * w) by (nonlinear_arith)
        requires
            0 <= y,
            0 < w,
    ;
    assert(h * w == w * h) by (nonlinear_arith);
}

/// Distinct coordinates have distinct row-major indices.
proof fn lemma_row_major_distinct(w: int, h: int, x1: int, y1: int, x2: int, y2: int)
    requires
        0 <= x1 < w,
        0 <= y1 < h,
        0 <= x2 < w,
        0 <= y2 < h,
        x1 != x2 || y1 != y2,
    ensures
        y1 * w + x1 != y2 * w + x2,
{
    assert(y1 * w + x1 != y2 * w + x2) by (nonlinear_arith)
        requires
            0 <= x1 < w,
            0 <= y1 < h,
            0 <= x2 < w,
            0 <= y2 < h,
            x1 != x2 || y1 != y2,
    ;
}

/// A padded extent fits whenever the padded cell count does.
pub(crate) proof fn lemma_extent_fits(w: int, h: int, margin: int)
    requires
        1 <= w,
        1 <= h,
        0 <= margin,
        (w + margin) * (h + margin) <= usize::MAX as int,
    ensures
        w + margin <= usize::MAX as int,
        h + margin <= usize::MAX as int,
{
    assert((w + margin) <= (w + margin) * (h + margin)) by (nonlinear_arith)
        requires
            1 <= w,
            1 <= h,
            0 <= margin,
    ;
    assert((h + margin) <= (w + margin) * (h + margin)) by (nonlinear_arith)
        requires
            1 <= w,
            1 <= h,
            0 <= margin,
    ;
}

} // verus!
