use vstd::prelude::*;

verus! {

/// A width and a height, counted in cells.
#[derive(Debug, Clone, Copy)]
pub struct Size {
    pub w: usize,
    pub h: usize,
}

impl Size {
    pub fn new(w: usize, h: usize) -> (s: Size)
        ensures
            s.w == w,
            s.h == h,
    {
        Size { w, h }
    }

    /// The row-major index of the cell in the middle of the area.
    pub fn middle(&self) -> (m: usize)
        requires
            (self.h / 2) * self.w + self.w / 2 <= usize::MAX,
        ensures
            m == (self.h / 2) * self.w + self.w / 2,
    {
        self.h / 2 * self.w + self.w / 2
    }

    /// The number of cells of the area.
    pub fn flatten(&self) -> (n: usize)
        requires
            self.h * self.w <= usize::MAX,
        ensures
            n == self.h * self.w,
    {
        self.h * self.w
    }
}

/// Where a text is anchored relative to a column.
#[derive(PartialEq, Eq, Structural, Clone, Copy, Debug)]
pub enum Quad {
    Left,
    Center,
    Right,
}

} // verus!
