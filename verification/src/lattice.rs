//! The integer points of a square that lie in a band of squared distances
//! from the origin: the cells of kernels, discs and rings.
use vstd::prelude::*;

use crate::vector::{IVec2, lex_lt, norm_sq};

verus! {

/// The largest radius for which the squared-distance tests here agree with
/// comparing an `f32` Euclidean length to the radius: below it every sum of
/// two squares and its square root are exact enough in `f32`.
pub const EXACT_RADIUS_LIMIT: i32 = 2896;

/// `p` lies in the square `[-bound, bound] x [-bound, bound]`.
pub open spec fn in_square(p: IVec2, bound: int) -> bool {
    -bound <= p.x <= bound && -bound <= p.y <= bound
}

/// The squared distance of `p` from the origin lies in `[min_sq, max_sq]`.
pub open spec fn in_band(p: IVec2, min_sq: int, max_sq: int) -> bool {
    min_sq <= norm_sq(p) <= max_sq
}

/// `pts` lists, column by column and each column from bottom to top, exactly
/// the points of the square of half-side `bound` whose squared distance from
/// the origin lies in `[min_sq, max_sq]`.
pub open spec fn lists_band(pts: Seq<IVec2>, bound: int, min_sq: int, max_sq: int) -> bool {
    &&& forall|i: int, j: int| 0 <= i < j < pts.len() ==> lex_lt(#[trigger] pts[i], #[trigger] pts[j])
    &&& forall|i: int| 0 <= i < pts.len() ==> in_square(#[trigger] pts[i], bound) && in_band(pts[i], min_sq, max_sq)
    &&& forall|p: IVec2| in_square(p, bound) && in_band(p, min_sq, max_sq) ==> pts.contains(p)
}

/// The points of the square of half-side `bound`, column by column from
/// `x = -bound` and each column from `y = -bound`, whose squared distance
/// from the origin lies in `[min_sq, max_sq]`. A negative `bound` gives no
/// point.
pub fn band_points(bound: i32, min_sq: i64, max_sq: i64) -> (pts: Vec<IVec2>)
    requires
        bound <= EXACT_RADIUS_LIMIT,
    ensures
        lists_band(pts@, bound as int, min_sq as int, max_sq as int),
{
    let mut pts: Vec<IVec2> = Vec::new();
    if bound < 0 {
        proof {
            assert forall|p: IVec2| in_square(p, bound as int) && in_band(p, min_sq as int, max_sq as int) implies pts@.contains(p) by {}
        }
        return pts;
    }
    let mut x: i32 = -bound;
    while x <= bound
        invariant
            0 <= bound <= EXACT_RADIUS_LIMIT,
            -bound <= x <= bound + 1,
            forall|i: int, j: int| 0 <= i < j < pts.len() ==> lex_lt(#[trigger] pts@[i], #[trigger] pts@[j]),
            forall|i: int| 0 <= i < pts.len() ==> in_square(#[trigger] pts@[i], bound as int) && in_band(pts@[i], min_sq as int, max_sq as int),
            forall|i: int| 0 <= i < pts.len() ==> (#[trigger] pts@[i]).x < x,
            forall|p: IVec2| in_square(p, bound as int) && in_band(p, min_sq as int, max_sq as int) && p.x < x ==> pts@.contains(p),
        decreases bound + 1 - x,
    {
        let mut y: i32 = -bound;
        while y <= bound
            invariant
                0 <= bound <= EXACT_RADIUS_LIMIT,
                -bound <= x <= bound,
                -bound <= y <= bound + 1,
                forall|i: int, j: int| 0 <= i < j < pts.len() ==> lex_lt(#[trigger] pts@[i], #[trigger] pts@[j]),
                forall|i: int| 0 <= i < pts.len() ==> in_square(#[trigger] pts@[i], bound as int) && in_band(pts@[i], min_sq as int, max_sq as int),
                forall|i: int| 0 <= i < pts.len() ==> lex_lt(#[trigger] pts@[i], IVec2 { x, y }),
                forall|p: IVec2| in_square(p, bound as int) && in_band(p, min_sq as int, max_sq as int) && lex_lt(p, IVec2 { x, y }) ==> pts@.contains(p),
            decreases bound + 1 - y,
        {
            let xx = x as i64;
            let yy = y as i64;
            assert(0 <= xx * xx <= 2896 * 2896 && 0 <= yy * yy <= 2896 * 2896) by (nonlinear_arith)
                requires
                    -2896 <= xx <= 2896,
                    -2896 <= yy <= 2896,
            ;
            let d = xx * xx + yy * yy;
            let p = IVec2::new(x, y);
            if min_sq <= d && d <= max_sq {
                let ghost old_pts = pts@;
                pts.push(p);
                proof {
                    assert forall|q: IVec2| in_square(q, bound as int) && in_band(q, min_sq as int, max_sq as int) && lex_lt(q, IVec2 { x, y: (y + 1) as i32 }) implies pts@.contains(q) by {
                        if q == p {
                            assert(pts@[old_pts.len() as int] == q);
                        } else {
                            assert(old_pts.contains(q));
                            let k = choose|k: int| 0 <= k < old_pts.len() && old_pts[k] == q;
                            assert(pts@[k] == q);
                        }
                    }
                }
            } else {
                proof {
                    assert forall|q: IVec2| in_square(q, bound as int) && in_band(q, min_sq as int, max_sq as int) && lex_lt(q, IVec2 { x, y: (y + 1) as i32 }) implies pts@.contains(q) by {
                        if q == p {
                            assert(norm_sq(q) == d);
                        }
                    }
                }
            }
            y += 1;
        }
        x += 1;
    }
    pts
}

/// A band of points is symmetric: reflecting a listed point in either axis,
/// or in the diagonal, gives a listed point. Kernels, discs and rings are
/// radially symmetric.
pub proof fn lemma_band_symmetric(pts: Seq<IVec2>, bound: int, min_sq: int, max_sq: int, i: int)
    requires
        lists_band(pts, bound, min_sq, max_sq),
        bound <= i32::MAX,
        0 <= i < pts.len(),
    ensures
        pts.contains(IVec2 { x: -pts[i].x as i32, y: pts[i].y }),
        pts.contains(IVec2 { x: pts[i].x, y: -pts[i].y as i32 }),
        pts.contains(IVec2 { x: pts[i].y, y: pts[i].x }),
{
    let p = pts[i];
    assert(in_square(p, bound) && in_band(p, min_sq, max_sq));
    let a = IVec2 { x: -p.x as i32, y: p.y };
    let b = IVec2 { x: p.x, y: -p.y as i32 };
    let c = IVec2 { x: p.y, y: p.x };
    assert((-p.x) * (-p.x) == p.x * p.x) by (nonlinear_arith);
    assert((-p.y) * (-p.y) == p.y * p.y) by (nonlinear_arith);
    assert(in_square(a, bound) && in_band(a, min_sq, max_sq));
    assert(in_square(b, bound) && in_band(b, min_sq, max_sq));
    assert(in_square(c, bound) && in_band(c, min_sq, max_sq));
}

} // verus!
