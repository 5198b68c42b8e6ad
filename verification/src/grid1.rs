//! The contiguous grid: one flat buffer of length width * height, addressed
//! row-major by offset(x, y) = x + y * width, with two cursor iterators that
//! recover (x, y) from linear position.

use crate::grid::{Grid, GridElement};
use vstd::arithmetic::div_mod::lemma_fundamental_div_mod_converse;
use vstd::prelude::*;

verus! {

/// The row-major linear offset of the cell at column x, row y in a grid of
/// the given width. Both point access and iteration derive from this one
/// mapping.
pub open spec fn offset_of(width: int, x: int, y: int) -> int {
    x + y * width
}

/// A grid backed by a single contiguous buffer in row-major order: all cells
/// of row y precede all cells of row y + 1, and the cell at (x, y) sits at
/// linear offset x + y * width.
pub struct Grid1<T> {
    spaces: Vec<T>,
    width: usize,
    height: usize,
}

impl<T: GridElement> Grid1<T> {
    /// The linear buffer, in row-major order.
    pub closed spec fn view(&self) -> Seq<T> {
        self.spaces@
    }

    /// Compute the linear offset of (x, y). Both point access and iteration
    /// derive from this one mapping.
    fn get_offset(&self, x: usize, y: usize) -> (r: usize)
        requires
            self.wf(),
            x < self.spec_width(),
            y < self.spec_height(),
        ensures
            r == offset_of(self.spec_width(), x as int, y as int),
            r < self.view().len(),
    {
        proof {
            lemma_offset_in_bounds(
                self.spec_width(),
                self.spec_height(),
                x as int,
                y as int,
            );
            assert(self.spaces.len() == self.spaces@.len());
        }
        x + y * self.width
    }
}

/// The row-major offset of a valid coordinate lies inside a buffer of length
/// width * height.
pub proof fn lemma_offset_in_bounds(width: int, height: int, x: int, y: int)
    requires
        0 <= x < width,
        0 <= y < height,
    ensures
        0 <= x + y * width < width * height,
{
    assert(x + y * width < width * height) by (nonlinear_arith)
        requires
            0 <= x < width,
            0 <= y < height,
    ;
}

impl<T: GridElement> Grid for Grid1<T> {
    type Item = T;

    /// The buffer length always equals width * height exactly.
    closed spec fn wf(&self) -> bool {
        self.spaces@.len() == self.width * self.height
    }

    closed spec fn spec_width(&self) -> int {
        self.width as int
    }

    closed spec fn spec_height(&self) -> int {
        self.height as int
    }

    closed spec fn spec_at(&self, x: int, y: int) -> T {
        self.spaces@[offset_of(self.width as int, x, y)]
    }

    fn with_size(width: usize, height: usize) -> (g: Self)
    {
        let count = width * height;
        let mut spaces: Vec<T> = Vec::new();
        let mut i: usize = 0;
        while i < count
            invariant
                i <= count,
                spaces@.len() == i,
                forall|k: int| 0 <= k < i ==> spaces@[k] == T::spec_default(),
            decreases count - i,
        {
            spaces.push(T::default_value());
            i = i + 1;
        }
        let g = Grid1 { spaces, width, height };
        proof {
            assert forall|x: int, y: int| 0 <= x < width && 0 <= y < height implies #[trigger] g.spec_at(x, y)
                == T::spec_default() by {
                lemma_offset_in_bounds(width as int, height as int, x, y);
            }
        }
        g
    }

    fn width(&self) -> (w: usize) {
        self.width
    }

    fn height(&self) -> (h: usize) {
        self.height
    }

    fn get(&self, x: usize, y: usize) -> (r: &T) {
        let offset = self.get_offset(x, y);
        &self.spaces[offset]
    }

    fn get_mut(&mut self, x: usize, y: usize) -> (r: &mut T) {
        let offset = self.get_offset(x, y);
        proof {
            lemma_other_offsets_differ(
                self.spec_width(),
                self.spec_height(),
                x as int,
                y as int,
            );
        }
        &mut self.spaces[offset]
    }

    fn set(&mut self, x: usize, y: usize, value: T) {
        let offset = self.get_offset(x, y);
        proof {
            lemma_other_offsets_differ(
                self.spec_width(),
                self.spec_height(),
                x as int,
                y as int,
            );
        }
        self.spaces[offset] = value;
    }
}

impl<T: GridElement> Grid1<T> {
    /// Iterate every cell exactly once in row-major order, pairing each
    /// element with its (x, y) coordinate. The grid is only read for the
    /// iterator's whole lifetime; a fresh call starts a fresh full traversal.
    pub fn iter<'a>(&'a self) -> (it: GridIter<'a, T>)
        requires
            self.wf(),
        ensures
            it.wf(),
            it.grid() == *self,
            it.spec_pos() == 0,
    {
        GridIter { grid: self, pos: 0, x: 0, y: 0 }
    }

    /// Iterate every cell exactly once in row-major order with write access:
    /// the iterator takes the whole grid, holds it exclusively for its
    /// lifetime, and hands it back through [`GridIterMut::into_grid`].
    pub fn iter_mut(self) -> (it: GridIterMut<T>)
        requires
            self.wf(),
        ensures
            it.wf(),
            it.grid() == self,
            it.spec_pos() == 0,
    {
        GridIterMut { grid: self, pos: 0, x: 0, y: 0 }
    }
}

/// A read-only iterator over a contiguous grid: a cursor over the linear
/// buffer plus a running (x, y) position reconstructed from width alone.
pub struct GridIter<'a, T> {
    grid: &'a Grid1<T>,
    pos: usize,
    x: usize,
    y: usize,
}

impl<'a, T: GridElement> GridIter<'a, T> {
    /// The grid being iterated.
    pub closed spec fn grid(&self) -> Grid1<T> {
        *self.grid
    }

    /// How many cells have been yielded so far; equally, the linear position
    /// of the next yield.
    pub closed spec fn spec_pos(&self) -> int {
        self.pos as int
    }

    /// Cursor well-formedness: the linear position never passes the buffer's
    /// end and always agrees with the running (x, y) position.
    pub closed spec fn wf(&self) -> bool {
        &&& self.grid.wf()
        &&& self.pos <= self.grid.view().len()
        &&& self.pos == offset_of(self.grid.spec_width(), self.x as int, self.y as int)
        &&& if self.grid.spec_width() == 0 {
            self.x == 0 && self.y == 0
        } else {
            self.x < self.grid.spec_width()
        }
    }

    /// Pull the next element, paired with the coordinate it sits at, or
    /// signal exhaustion: the n-th call yields the n-th entry of
    /// [`yield_seq`], and `None` comes exactly after width * height yields.
    pub fn next(&mut self) -> (r: Option<(usize, usize, &'a T)>)
        requires
            old(self).wf(),
        ensures
            final(self).wf(),
            final(self).grid() == old(self).grid(),
            old(self).spec_pos() < yield_seq(old(self).grid()).len() ==> {
                &&& final(self).spec_pos() == old(self).spec_pos() + 1
                &&& r matches Some(t) && (t.0 as int, t.1 as int, *t.2) == yield_seq(
                    old(self).grid(),
                )[old(self).spec_pos()]
                &&& r matches Some(t) && *t.2 == old(self).grid().spec_at(t.0 as int, t.1 as int)
            },
            old(self).spec_pos() >= yield_seq(old(self).grid()).len() ==> {
                &&& final(self).spec_pos() == old(self).spec_pos()
                &&& r is None
            },
    {
        let g: &'a Grid1<T> = self.grid;
        let len = g.spaces.len();
        if self.pos < len {
            proof {
                if g.spec_width() == 0 {
                    lemma_degenerate_empty(g.spec_width(), g.spec_height());
                }
                lemma_cursor_yield(
                    g.spec_width(),
                    g.spec_height(),
                    self.x as int,
                    self.y as int,
                );
            }
            let item: &'a T = &g.spaces[self.pos];
            let rx = self.x;
            let ry = self.y;
            self.pos = self.pos + 1;
            self.x = self.x + 1;
            if self.x == g.width {
                self.x = 0;
                self.y = ry + 1;
            }
            Some((rx, ry, item))
        } else {
            None
        }
    }
}

/// A mutable iterator over a contiguous grid. It holds the whole grid
/// exclusively for its lifetime: the grid moves in through
/// [`Grid1::iter_mut`] and moves back out through [`GridIterMut::into_grid`].
/// `next` advances the cursor in row-major order; `read` and `write` access
/// the cell most recently yielded.
pub struct GridIterMut<T> {
    grid: Grid1<T>,
    pos: usize,
    x: usize,
    y: usize,
}

impl<T: GridElement> GridIterMut<T> {
    /// The grid as the iteration has left it so far.
    pub closed spec fn grid(&self) -> Grid1<T> {
        self.grid
    }

    /// How many cells have been yielded so far; equally, the linear position
    /// of the next yield.
    pub closed spec fn spec_pos(&self) -> int {
        self.pos as int
    }

    /// Cursor well-formedness: the linear position never passes the buffer's
    /// end and always agrees with the running (x, y) position.
    pub closed spec fn wf(&self) -> bool {
        &&& self.grid.wf()
        &&& self.pos <= self.grid.view().len()
        &&& self.pos == offset_of(self.grid.spec_width(), self.x as int, self.y as int)
        &&& if self.grid.spec_width() == 0 {
            self.x == 0 && self.y == 0
        } else {
            self.x < self.grid.spec_width()
        }
    }

    /// Advance to the next cell and yield its coordinate, or signal
    /// exhaustion: the n-th call yields the coordinates of the n-th entry of
    /// [`yield_seq`], and `None` comes exactly after width * height yields.
    /// The grid's contents are untouched.
    pub fn next(&mut self) -> (r: Option<(usize, usize)>)
        requires
            old(self).wf(),
        ensures
            final(self).wf(),
            final(self).grid() == old(self).grid(),
            old(self).spec_pos() < yield_seq(old(self).grid()).len() ==> {
                &&& final(self).spec_pos() == old(self).spec_pos() + 1
                &&& r matches Some(t) && t.0 as int == yield_seq(old(self).grid())[old(
                    self,
                ).spec_pos()].0 && t.1 as int == yield_seq(old(self).grid())[old(
                    self,
                ).spec_pos()].1
                &&& r matches Some(t) && old(self).spec_pos() == offset_of(
                    old(self).grid().spec_width(),
                    t.0 as int,
                    t.1 as int,
                )
            },
            old(self).spec_pos() >= yield_seq(old(self).grid()).len() ==> {
                &&& final(self).spec_pos() == old(self).spec_pos()
                &&& r is None
            },
    {
        let len = self.grid.spaces.len();
        if self.pos < len {
            proof {
                if self.grid.spec_width() == 0 {
                    lemma_degenerate_empty(self.grid.spec_width(), self.grid.spec_height());
                }
                lemma_cursor_yield(
                    self.grid.spec_width(),
                    self.grid.spec_height(),
                    self.x as int,
                    self.y as int,
                );
            }
            let rx = self.x;
            let ry = self.y;
            self.pos = self.pos + 1;
            self.x = self.x + 1;
            if self.x == self.grid.width {
                self.x = 0;
                self.y = ry + 1;
            }
            Some((rx, ry))
        } else {
            None
        }
    }

    /// Read the cell most recently yielded by `next`.
    pub fn read(&self) -> (r: &T)
        requires
            self.wf(),
            0 < self.spec_pos(),
        ensures
            *r == self.grid().view()[self.spec_pos() - 1],
    {
        &self.grid.spaces[self.pos - 1]
    }

    /// Write through to the cell most recently yielded by `next`: the write
    /// lands in the grid itself, at that cell alone, and the iteration goes
    /// on unchanged.
    pub fn write(&mut self, value: T)
        requires
            old(self).wf(),
            0 < old(self).spec_pos(),
        ensures
            final(self).wf(),
            final(self).spec_pos() == old(self).spec_pos(),
            final(self).grid().view() == old(self).grid().view().update(
                old(self).spec_pos() - 1,
                value,
            ),
            final(self).grid().spec_width() == old(self).grid().spec_width(),
            final(self).grid().spec_height() == old(self).grid().spec_height(),
    {
        self.grid.spaces[self.pos - 1] = value;
    }

    /// Hand the grid back once iteration is over (or abandoned early).
    pub fn into_grid(self) -> (g: Grid1<T>)
        ensures
            g == self.grid(),
    {
        self.grid
    }
}

/// A cursor standing at a yet-unexhausted position: its (x, y) is a valid
/// coordinate, and x and y are the remainder and quotient that the linear
/// position decomposes into.
proof fn lemma_cursor_yield(width: int, height: int, x: int, y: int)
    requires
        0 <= x < width,
        0 <= y,
        offset_of(width, x, y) < width * height,
    ensures
        y < height,
        x == offset_of(width, x, y) % width,
        y == offset_of(width, x, y) / width,
        offset_of(width, x, y) + 1 == if x + 1 == width {
            offset_of(width, 0, y + 1)
        } else {
            offset_of(width, x + 1, y)
        },
{
    assert(y < height) by (nonlinear_arith)
        requires
            0 <= x < width,
            0 <= y,
            x + y * width < width * height,
    ;
    lemma_fundamental_div_mod_converse(offset_of(width, x, y), width, y, x);
    assert((y + 1) * width == y * width + width) by (nonlinear_arith);
}

/// A grid with a zero dimension has an empty buffer.
proof fn lemma_degenerate_empty(width: int, height: int)
    requires
        width == 0 || height == 0,
    ensures
        width * height == 0,
{
    assert(width * height == 0) by (nonlinear_arith)
        requires
            width == 0 || height == 0,
    ;
}

/// Offset/iteration agreement (law): for every valid coordinate (x, y), one
/// full iteration yields the coordinate pair (x, y) exactly once, as yield
/// number offset_of(width, x, y), and the element that yield carries equals
/// the element that lookup at (x, y) returns.
pub proof fn lemma_iteration_get_agree<T: GridElement>(g: Grid1<T>, x: int, y: int)
    requires
        g.wf(),
        0 <= x < g.spec_width(),
        0 <= y < g.spec_height(),
    ensures
        0 <= offset_of(g.spec_width(), x, y) < yield_seq(g).len(),
        yield_seq(g)[offset_of(g.spec_width(), x, y)] == (x, y, g.spec_at(x, y)),
        forall|n: int|
            0 <= n < yield_seq(g).len() && (#[trigger] yield_seq(g)[n]).0 == x && yield_seq(
                g,
            )[n].1 == y ==> n == offset_of(g.spec_width(), x, y),
{
    let w = g.spec_width();
    lemma_offset_in_bounds(w, g.spec_height(), x, y);
    lemma_fundamental_div_mod_converse(offset_of(w, x, y), w, y, x);
    assert forall|n: int|
        0 <= n < yield_seq(g).len() && (#[trigger] yield_seq(g)[n]).0 == x && yield_seq(g)[n].1
        == y implies n == offset_of(w, x, y) by {
        assert(yield_seq(g)[n] == (n % w, n / w, g.view()[n]));
        vstd::arithmetic::div_mod::lemma_fundamental_div_mod(n, w);
        assert(n == w * (n / w) + n % w);
    }
}

/// Exhaustion cardinality (law): one full iteration yields exactly
/// width * height items — and so zero items when either dimension is zero.
pub proof fn lemma_exhaustion_cardinality<T: GridElement>(g: Grid1<T>)
    requires
        g.wf(),
    ensures
        yield_seq(g).len() == g.spec_width() * g.spec_height(),
        yield_seq(g).len() == g.view().len(),
        g.spec_width() == 0 || g.spec_height() == 0 ==> yield_seq(g).len() == 0,
{
}

/// Every valid coordinate other than (x, y) maps to an offset other than
/// that of (x, y).
proof fn lemma_other_offsets_differ(width: int, height: int, x: int, y: int)
    requires
        0 <= x < width,
        0 <= y < height,
    ensures
        forall|i: int, j: int|
            0 <= i < width && 0 <= j < height && !(i == x && j == y) ==> #[trigger] offset_of(
                width,
                i,
                j,
            ) != offset_of(width, x, y),
        forall|i: int, j: int|
            0 <= i < width && 0 <= j < height ==> 0 <= #[trigger] offset_of(width, i, j) < width
                * height,
{
    assert forall|i: int, j: int|
        0 <= i < width && 0 <= j < height && !(i == x && j == y) implies #[trigger] offset_of(
        width,
        i,
        j,
    ) != offset_of(width, x, y) by {
        lemma_offset_injective(width, height, i, j, x, y);
    }
    assert forall|i: int, j: int| 0 <= i < width && 0 <= j < height implies 0 <= #[trigger] offset_of(
        width,
        i,
        j,
    ) < width * height by {
        lemma_offset_in_bounds(width, height, i, j);
    }
}

/// The sequence of (x, y, element) triples that one full iteration of `g`
/// yields, in row-major order: y outermost, x innermost, both ascending, so
/// the n-th yield carries the coordinates whose offset is n.
pub open spec fn yield_seq<T: GridElement>(g: Grid1<T>) -> Seq<(int, int, T)> {
    Seq::new(
        (g.spec_width() * g.spec_height()) as nat,
        |n: int| (n % g.spec_width(), n / g.spec_width(), g.view()[n]),
    )
}

/// Distinct valid coordinates map to distinct row-major offsets: together
/// with [`lemma_offset_in_bounds`], the offset map is a bijection between
/// valid coordinates and buffer positions.
pub proof fn lemma_offset_injective(width: int, height: int, x1: int, y1: int, x2: int, y2: int)
    requires
        0 <= x1 < width,
        0 <= y1 < height,
        0 <= x2 < width,
        0 <= y2 < height,
        !(x1 == x2 && y1 == y2),
    ensures
        x1 + y1 * width != x2 + y2 * width,
{
    if y1 != y2 {
        assert(x1 + y1 * width != x2 + y2 * width) by (nonlinear_arith)
            requires
                0 <= x1 < width,
                0 <= x2 < width,
                y1 != y2,
        ;
    }
}

} // verus!
