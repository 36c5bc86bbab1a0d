use vstd::prelude::*;

verus! {

/// The two movement axes a piece can slide along.
#[derive(Clone, Copy, PartialEq, Eq, Structural, Debug)]
pub enum Orientation {
    Vertical,
    Horizontal,
}

/// A single sliding block: a run of `size >= 2` consecutive cells along its
/// axis, starting at anchor `p`, at fixed cross-coordinate `row`.
#[derive(Clone, Copy, Debug)]
pub struct Piece {
    pub val: char,
    pub p: usize,
    pub row: usize,
    pub size: usize,
    pub orientation: Orientation,
}

impl Piece {
    pub open spec fn spec_is_horizontal(&self) -> bool {
        self.orientation == Orientation::Horizontal
    }

    /// The set of cells the piece occupies, as a predicate on coordinates.
    pub open spec fn spec_contains(&self, x: int, y: int) -> bool {
        if self.spec_is_horizontal() {
            y == self.row && self.p <= x < self.p + self.size
        } else {
            x == self.row && self.p <= y < self.p + self.size
        }
    }

    pub fn is_horizontal(&self) -> (r: bool)
        ensures
            r == self.spec_is_horizontal(),
    {
        self.orientation == Orientation::Horizontal
    }

    pub fn contains(&self, x: usize, y: usize) -> (r: bool)
        ensures
            r == self.spec_contains(x as int, y as int),
    {
        if self.is_horizontal() {
            y == self.row && x >= self.p && x - self.p < self.size
        } else {
            x == self.row && y >= self.p && y - self.p < self.size
        }
    }
}

} // verus!
