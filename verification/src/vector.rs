use vstd::prelude::*;

verus! {

/// A two-dimensional integer vector, used for cell positions and offsets.
#[derive(Clone, Copy, Debug, PartialEq, Eq, Structural)]
pub struct IVec2 {
    pub x: i32,
    pub y: i32,
}

/// `a` comes before `b` when points are listed column by column: by `x`,
/// then by `y`.
pub open spec fn lex_lt(a: IVec2, b: IVec2) -> bool {
    a.x < b.x || (a.x == b.x && a.y < b.y)
}

/// The squared length `x * x + y * y` of `v`.
pub open spec fn norm_sq(v: IVec2) -> int {
    v.x * v.x + v.y * v.y
}

impl IVec2 {
    /// Builds the vector `(x, y)`.
    pub fn new(x: i32, y: i32) -> (v: IVec2)
        ensures
            v.x == x,
            v.y == y,
    {
        IVec2 { x, y }
    }

    /// Componentwise sum; both sums must fit in `i32`.
    pub fn plus(self, other: IVec2) -> (v: IVec2)
        requires
            i32::MIN <= self.x + other.x <= i32::MAX,
            i32::MIN <= self.y + other.y <= i32::MAX,
        ensures
            v.x == self.x + other.x,
            v.y == self.y + other.y,
    {
        IVec2 { x: self.x + other.x, y: self.y + other.y }
    }
}

} // verus!
