//! The grid capability contract: what any 2D addressable container must
//! support, independent of its storage strategy.

use vstd::prelude::*;

verus! {

/// An element type a grid can be filled with: it supplies the value every
/// cell holds right after construction, and a way to produce that value.
pub trait GridElement: Sized {
    /// The value a freshly constructed grid holds in every cell.
    spec fn spec_default() -> Self;

    /// Produce the default value.
    fn default_value() -> (r: Self)
        ensures
            r == Self::spec_default(),
    ;
}

/// A grid of plain numbers starts out all zeroes.
impl GridElement for u32 {
    open spec fn spec_default() -> u32 {
        0u32
    }

    fn default_value() -> (r: u32) {
        0u32
    }
}

/// The capability contract for a two-dimensional, (x, y)-addressable
/// container: sized construction, bounded point read, point mutable access,
/// and point update. A coordinate (x, y) is valid when 0 <= x < width and
/// 0 <= y < height; every access demands a valid coordinate, so an
/// out-of-bounds call is rejected before it can reach any cell.
pub trait Grid: Sized {
    type Item: GridElement;

    /// Internal well-formedness of the container. Constructors establish it
    /// and every method preserves it.
    spec fn wf(&self) -> bool;

    /// Number of columns.
    spec fn spec_width(&self) -> int;

    /// Number of rows.
    spec fn spec_height(&self) -> int;

    /// The element stored at column x, row y.
    spec fn spec_at(&self, x: int, y: int) -> Self::Item;

    /// Construct a grid with exactly width * height cells, every one holding
    /// the element type's default value. A zero width or height yields a
    /// valid, empty grid.
    fn with_size(width: usize, height: usize) -> (g: Self)
        requires
            width * height <= usize::MAX,
        ensures
            g.wf(),
            g.spec_width() == width as int,
            g.spec_height() == height as int,
            forall|x: int, y: int|
                0 <= x < width && 0 <= y < height ==> #[trigger] g.spec_at(x, y)
                    == <Self::Item as GridElement>::spec_default(),
    ;

    /// The stored width.
    fn width(&self) -> (w: usize)
        requires
            self.wf(),
        ensures
            w as int == self.spec_width(),
    ;

    /// The stored height.
    fn height(&self) -> (h: usize)
        requires
            self.wf(),
        ensures
            h as int == self.spec_height(),
    ;

    /// Read the cell at (x, y).
    fn get(&self, x: usize, y: usize) -> (r: &Self::Item)
        requires
            self.wf(),
            x < self.spec_width(),
            y < self.spec_height(),
        ensures
            *r == self.spec_at(x as int, y as int),
    ;

    /// Exclusive access to the single cell at (x, y): the grid afterwards
    /// holds whatever the caller leaves behind the returned reference, and
    /// every other cell is untouched.
    fn get_mut(&mut self, x: usize, y: usize) -> (r: &mut Self::Item)
        requires
            old(self).wf(),
            x < old(self).spec_width(),
            y < old(self).spec_height(),
        ensures
            *r == old(self).spec_at(x as int, y as int),
            final(self).wf(),
            final(self).spec_width() == old(self).spec_width(),
            final(self).spec_height() == old(self).spec_height(),
            final(self).spec_at(x as int, y as int) == *final(r),
            forall|i: int, j: int|
                0 <= i < old(self).spec_width() && 0 <= j < old(self).spec_height() && !(i == x
                    && j == y) ==> #[trigger] final(self).spec_at(i, j) == old(self).spec_at(i, j),
    ;

    /// Overwrite the cell at (x, y) with `value`; every other cell is
    /// untouched.
    fn set(&mut self, x: usize, y: usize, value: Self::Item)
        requires
            old(self).wf(),
            x < old(self).spec_width(),
            y < old(self).spec_height(),
        ensures
            final(self).wf(),
            final(self).spec_width() == old(self).spec_width(),
            final(self).spec_height() == old(self).spec_height(),
            final(self).spec_at(x as int, y as int) == value,
            forall|i: int, j: int|
                0 <= i < old(self).spec_width() && 0 <= j < old(self).spec_height() && !(i == x
                    && j == y) ==> #[trigger] final(self).spec_at(i, j) == old(self).spec_at(i, j),
    ;
}

} // verus!
