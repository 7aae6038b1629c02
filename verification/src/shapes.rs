//! The integer side of building life-form shapes: which cells a shape has
//! and where they sit relative to its centre.
use vstd::prelude::*;

use crate::lattice::{band_points, lists_band, EXACT_RADIUS_LIMIT};
use crate::vector::IVec2;

verus! {

/// The square of an `i32` fits in an `i64`.
proof fn lemma_square_fits(v: i64)
    requires
        i32::MIN <= v <= i32::MAX,
    ensures
        0 <= v * v <= 0x4000_0000_0000_0000,
{
    assert(0 <= v * v <= 0x4000_0000_0000_0000) by (nonlinear_arith)
        requires
            -0x8000_0000 <= v <= 0x7fff_ffff,
    ;
}

/// The cells of a disc of radius `r`: every point `(x, y)` with
/// `x * x + y * y <= r * r`, column by column from `x = -r` and each column
/// from `y = -r`. A negative radius gives no cell.
pub fn disc_positions(r: i32) -> (pts: Vec<IVec2>)
    requires
        r <= EXACT_RADIUS_LIMIT,
    ensures
        lists_band(pts@, r as int, 0, r * r),
{
    let rr = r as i64;
    assert(rr * rr == r * r);
    proof {
        lemma_square_fits(rr);
    }
    band_points(r, 0, rr * rr)
}

/// The cells of a ring between the radii `r_inner` and `r_outer`: every
/// point `(x, y)` with `x * x + y * y <= r_outer * r_outer` and, when
/// `r_inner` is positive, `x * x + y * y >= r_inner * r_inner`; column by
/// column from `x = -r_outer` and each column from `y = -r_outer`.
pub fn ring_positions(r_inner: i32, r_outer: i32) -> (pts: Vec<IVec2>)
    requires
        r_outer <= EXACT_RADIUS_LIMIT,
    ensures
        lists_band(pts@, r_outer as int, if r_inner > 0 { r_inner * r_inner } else { 0 }, r_outer * r_outer),
{
    let ri = r_inner as i64;
    let ro = r_outer as i64;
    proof {
        lemma_square_fits(ri);
        lemma_square_fits(ro);
    }
    let min_sq = if r_inner > 0 { ri * ri } else { 0 };
    band_points(r_outer, min_sq, ro * ro)
}

/// Where a shape read from a grid puts a cell: the cell at column `x` and row
/// `y` of a grid of `rows` rows whose first row has `cols` cells sits at
/// `(x, rows - 1 - y) - (cols / 2, rows / 2)`, so that row 0 is the top.
pub open spec fn site_pos(x: int, y: int, rows: int, cols: int) -> IVec2 {
    IVec2 { x: (x - cols / 2) as i32, y: (rows - 1 - y - rows / 2) as i32 }
}

/// A cell of a grid kept in a shape: its row, its column and its position.
#[derive(Clone, Copy, Debug, PartialEq, Eq, Structural)]
pub struct Site {
    pub row: usize,
    pub col: usize,
    pub pos: IVec2,
}

/// The sites of the kept cells of row `y` of `mask`, from left to right.
pub open spec fn row_sites(row: Seq<bool>, y: int, rows: int, cols: int) -> Seq<Site>
    decreases row.len(),
{
    if row.len() == 0 {
        Seq::empty()
    } else {
        let prev = row_sites(row.drop_last(), y, rows, cols);
        let x = row.len() - 1;
        if row.last() {
            prev.push(Site { row: y as usize, col: x as usize, pos: site_pos(x, y, rows, cols) })
        } else {
            prev
        }
    }
}

/// The sites of the kept cells of the first `n` rows of `mask`, row by row.
pub open spec fn mask_sites(mask: Seq<Seq<bool>>, n: int, rows: int, cols: int) -> Seq<Site>
    decreases n,
{
    if n <= 0 {
        Seq::empty()
    } else {
        mask_sites(mask, n - 1, rows, cols) + row_sites(mask[n - 1], n - 1, rows, cols)
    }
}

/// `s` is the site of a kept cell of `mask`.
pub open spec fn is_kept_site(mask: Seq<Seq<bool>>, s: Site, rows: int, cols: int) -> bool {
    &&& s.row < mask.len()
    &&& s.col < mask[s.row as int].len()
    &&& mask[s.row as int][s.col as int]
    &&& s.pos == site_pos(s.col as int, s.row as int, rows, cols)
}

proof fn lemma_row_sites_kept(mask: Seq<Seq<bool>>, y: int, k: int, rows: int, cols: int)
    requires
        0 <= y < mask.len(),
        0 <= k <= mask[y].len(),
        mask.len() <= usize::MAX,
        mask[y].len() <= usize::MAX,
    ensures
        forall|i: int| 0 <= i < row_sites(mask[y].take(k), y, rows, cols).len() ==> {
            let s = #[trigger] row_sites(mask[y].take(k), y, rows, cols)[i];
            &&& is_kept_site(mask, s, rows, cols)
            &&& s.row == y
            &&& s.col < k
        },
        forall|x: int| 0 <= x < k && mask[y][x] ==> exists|i: int|
            0 <= i < row_sites(mask[y].take(k), y, rows, cols).len()
            && (#[trigger] row_sites(mask[y].take(k), y, rows, cols)[i]).row == y
            && row_sites(mask[y].take(k), y, rows, cols)[i].col == x,
    decreases k,
{
    let row = mask[y].take(k);
    if k > 0 {
        assert(row.drop_last() =~= mask[y].take(k - 1));
        lemma_row_sites_kept(mask, y, k - 1, rows, cols);
        let prev = row_sites(mask[y].take(k - 1), y, rows, cols);
        let cur = row_sites(row, y, rows, cols);
        assert forall|x: int| 0 <= x < k && mask[y][x] implies exists|i: int|
            0 <= i < cur.len() && (#[trigger] cur[i]).row == y && cur[i].col == x by {
            if x < k - 1 {
                let i = choose|i: int| 0 <= i < prev.len() && (#[trigger] prev[i]).row == y && prev[i].col == x;
                assert(cur[i] == prev[i]);
            } else {
                assert(cur[cur.len() - 1].col == x);
            }
        }
        assert forall|i: int| 0 <= i < cur.len() implies {
            let s = #[trigger] cur[i];
            &&& is_kept_site(mask, s, rows, cols)
            &&& s.row == y
            &&& s.col < k
        } by {
            if i < prev.len() {
                assert(cur[i] == prev[i]);
            }
        }
    }
}

/// The sites listed for `mask` are exactly its kept cells: every listed site
/// is a kept cell at its position, and every kept cell is listed. Cells that
/// are not kept give no site.
pub proof fn lemma_mask_sites_are_kept_cells(mask: Seq<Seq<bool>>, n: int, rows: int, cols: int)
    requires
        0 <= n <= mask.len(),
        mask.len() <= usize::MAX,
        forall|y: int| 0 <= y < mask.len() ==> (#[trigger] mask[y]).len() <= usize::MAX,
    ensures
        forall|i: int| 0 <= i < mask_sites(mask, n, rows, cols).len() ==>
            is_kept_site(mask, #[trigger] mask_sites(mask, n, rows, cols)[i], rows, cols)
            && mask_sites(mask, n, rows, cols)[i].row < n,
        forall|y: int, x: int| 0 <= y < n && 0 <= x < mask[y].len() && #[trigger] mask[y][x] ==> exists|i: int|
            0 <= i < mask_sites(mask, n, rows, cols).len()
            && (#[trigger] mask_sites(mask, n, rows, cols)[i]).row == y
            && mask_sites(mask, n, rows, cols)[i].col == x,
    decreases n,
{
    if n > 0 {
        lemma_mask_sites_are_kept_cells(mask, n - 1, rows, cols);
        let y = n - 1;
        lemma_row_sites_kept(mask, y, mask[y].len() as int, rows, cols);
        assert(mask[y].take(mask[y].len() as int) =~= mask[y]);
        let prev = mask_sites(mask, n - 1, rows, cols);
        let rs = row_sites(mask[y], y, rows, cols);
        let all = mask_sites(mask, n, rows, cols);
        assert(all == prev + rs);
        assert forall|i: int| 0 <= i < all.len() implies
            is_kept_site(mask, #[trigger] all[i], rows, cols) && all[i].row < n by {
            if i < prev.len() {
                assert(all[i] == prev[i]);
            } else {
                assert(all[i] == rs[i - prev.len()]);
            }
        }
        assert forall|yy: int, x: int| 0 <= yy < n && 0 <= x < mask[yy].len() && #[trigger] mask[yy][x] implies exists|i: int|
            0 <= i < all.len() && (#[trigger] all[i]).row == yy && all[i].col == x by {
            if yy < n - 1 {
                let i = choose|i: int| 0 <= i < prev.len() && (#[trigger] prev[i]).row == yy && prev[i].col == x;
                assert(all[i] == prev[i]);
            } else {
                let j = choose|j: int| 0 <= j < rs.len() && (#[trigger] rs[j]).row == yy && rs[j].col == x;
                assert(all[prev.len() + j] == rs[j]);
            }
        }
    }
}

/// `a` comes before `b` in reading order: by row, then by column.
pub open spec fn site_before(a: Site, b: Site) -> bool {
    a.row < b.row || (a.row == b.row && a.col < b.col)
}

proof fn lemma_row_sites_sorted(row: Seq<bool>, y: int, rows: int, cols: int)
    requires
        0 <= y <= usize::MAX,
        row.len() <= usize::MAX,
    ensures
        forall|i: int, j: int| 0 <= i < j < row_sites(row, y, rows, cols).len() ==>
            (#[trigger] row_sites(row, y, rows, cols)[i]).col < (#[trigger] row_sites(row, y, rows, cols)[j]).col,
        forall|i: int| 0 <= i < row_sites(row, y, rows, cols).len() ==>
            (#[trigger] row_sites(row, y, rows, cols)[i]).col < row.len() && row_sites(row, y, rows, cols)[i].row == y,
    decreases row.len(),
{
    if row.len() > 0 {
        let prev = row_sites(row.drop_last(), y, rows, cols);
        lemma_row_sites_sorted(row.drop_last(), y, rows, cols);
        let cur = row_sites(row, y, rows, cols);
        let last = row.len() - 1;
        assert forall|i: int| 0 <= i < cur.len() implies (#[trigger] cur[i]).col < row.len() && cur[i].row == y by {
            if i < prev.len() {
                assert(cur[i] == prev[i]);
            } else {
                assert(cur[i].col == last);
            }
        }
        assert forall|i: int, j: int| 0 <= i < j < cur.len() implies (#[trigger] cur[i]).col < (#[trigger] cur[j]).col by {
            assert(cur[i] == prev[i]);
            if j < prev.len() {
                assert(cur[j] == prev[j]);
            } else {
                assert(cur[j].col == last);
                assert(prev[i].col < row.drop_last().len());
            }
        }
    }
}

proof fn lemma_mask_sites_sorted(mask: Seq<Seq<bool>>, n: int, rows: int, cols: int)
    requires
        0 <= n <= mask.len(),
        mask.len() <= usize::MAX,
        forall|y: int| 0 <= y < mask.len() ==> (#[trigger] mask[y]).len() <= usize::MAX,
    ensures
        forall|i: int, j: int| 0 <= i < j < mask_sites(mask, n, rows, cols).len() ==>
            site_before(#[trigger] mask_sites(mask, n, rows, cols)[i], #[trigger] mask_sites(mask, n, rows, cols)[j]),
        forall|i: int| 0 <= i < mask_sites(mask, n, rows, cols).len() ==> (#[trigger] mask_sites(mask, n, rows, cols)[i]).row < n,
    decreases n,
{
    if n > 0 {
        lemma_mask_sites_sorted(mask, n - 1, rows, cols);
        let y = n - 1;
        lemma_row_sites_sorted(mask[y], y, rows, cols);
        let prev = mask_sites(mask, n - 1, rows, cols);
        let rs = row_sites(mask[y], y, rows, cols);
        let all = mask_sites(mask, n, rows, cols);
        assert(all == prev + rs);
        assert forall|i: int| 0 <= i < all.len() implies (#[trigger] all[i]).row < n by {
            if i < prev.len() {
                assert(all[i] == prev[i]);
            } else {
                assert(all[i] == rs[i - prev.len()]);
            }
        }
        assert forall|i: int, j: int| 0 <= i < j < all.len() implies site_before(#[trigger] all[i], #[trigger] all[j]) by {
            if j < prev.len() {
                assert(all[i] == prev[i]);
                assert(all[j] == prev[j]);
            } else if i < prev.len() {
                assert(all[i] == prev[i]);
                assert(all[j] == rs[j - prev.len()]);
            } else {
                assert(all[i] == rs[i - prev.len()]);
                assert(all[j] == rs[j - prev.len()]);
            }
        }
    }
}

/// The views of a vector of boolean rows.
pub open spec fn mask_view(mask: Seq<Vec<bool>>) -> Seq<Seq<bool>> {
    mask.map_values(|r: Vec<bool>| r@)
}

/// The cells that a shape read from a grid keeps, given which cells hold a
/// positive value: row by row from the top, each row from the left, with
/// their positions relative to the centre of the grid.
pub fn grid_sites(mask: &Vec<Vec<bool>>) -> (sites: Vec<Site>)
    requires
        1 <= mask.len() <= i32::MAX,
        forall|y: int| 0 <= y < mask.len() ==> (#[trigger] mask[y]).len() <= i32::MAX,
    ensures
        sites@ == mask_sites(mask_view(mask@), mask.len() as int, mask.len() as int, mask[0].len() as int),
        forall|i: int| 0 <= i < sites.len() ==> {
            let s = #[trigger] sites[i];
            &&& s.row < mask.len()
            &&& s.col < mask[s.row as int].len()
            &&& mask[s.row as int][s.col as int]
            &&& s.pos.x == s.col - mask[0].len() / 2
            &&& s.pos.y == mask.len() - 1 - s.row - mask.len() / 2
        },
        forall|y: int, x: int| 0 <= y < mask.len() && 0 <= x < mask[y].len() && #[trigger] mask[y][x] ==>
            exists|i: int| 0 <= i < sites.len() && (#[trigger] sites[i]).row == y && sites[i].col == x,
        forall|i: int, j: int| 0 <= i < j < sites.len() ==>
            (#[trigger] sites[i]).row < (#[trigger] sites[j]).row
            || (sites[i].row == sites[j].row && sites[i].col < sites[j].col),
{
    let ghost mv = mask_view(mask@);
    let rows = mask.len() as i32;
    let cols = mask[0].len() as i32;
    let ox = cols / 2;
    let oy = rows / 2;
    let mut sites: Vec<Site> = Vec::new();
    let mut y: usize = 0;
    while y < mask.len()
        invariant
            1 <= mask.len() <= i32::MAX,
            forall|k: int| 0 <= k < mask.len() ==> (#[trigger] mask[k]).len() <= i32::MAX,
            mv == mask_view(mask@),
            rows == mask.len(),
            cols == mask[0].len(),
            ox == cols / 2,
            oy == rows / 2,
            y <= mask.len(),
            sites@ == mask_sites(mv, y as int, rows as int, cols as int),
        decreases mask.len() - y,
    {
        let row = &mask[y];
        let ghost before = sites@;
        assert(mv[y as int] == row@);
        let mut x: usize = 0;
        while x < row.len()
            invariant
                1 <= mask.len() <= i32::MAX,
                rows == mask.len(),
                cols == mask[0].len(),
                cols <= i32::MAX,
                ox == cols / 2,
                oy == rows / 2,
                y < mask.len(),
                row.len() <= i32::MAX,
                x <= row.len(),
                sites@ == before + row_sites(row@.take(x as int), y as int, rows as int, cols as int),
            decreases row.len() - x,
        {
            proof {
                assert(row@.take(x + 1).drop_last() =~= row@.take(x as int));
                assert(row@.take(x + 1).last() == row@[x as int]);
            }
            if row[x] {
                let pos = IVec2::new(x as i32 - ox, rows - 1 - y as i32 - oy);
                sites.push(Site { row: y, col: x, pos });
                proof {
                    assert(sites@ =~= before + row_sites(row@.take(x + 1), y as int, rows as int, cols as int));
                }
            }
            x += 1;
        }
        proof {
            assert(row@.take(x as int) =~= row@);
        }
        y += 1;
    }
    proof {
        let n = mask.len() as int;
        let cols = mask[0].len() as int;
        assert forall|k: int| 0 <= k < mv.len() implies (#[trigger] mv[k]).len() <= usize::MAX by {
            assert(mv[k] == mask[k]@);
        }
        lemma_mask_sites_are_kept_cells(mv, n, n, cols);
        lemma_mask_sites_sorted(mv, n, n, cols);
        assert forall|i: int| 0 <= i < sites.len() implies {
            let s = #[trigger] sites[i];
            &&& s.row < mask.len()
            &&& s.col < mask[s.row as int].len()
            &&& mask[s.row as int][s.col as int]
            &&& s.pos.x == s.col - mask[0].len() / 2
            &&& s.pos.y == mask.len() - 1 - s.row - mask.len() / 2
        } by {
            let s = sites[i];
            assert(is_kept_site(mv, sites@[i], n, cols));
            assert(mv[s.row as int] == mask[s.row as int]@);
        }
        assert forall|yy: int, x: int| 0 <= yy < mask.len() && 0 <= x < mask[yy].len() && #[trigger] mask[yy][x] implies
            exists|i: int| 0 <= i < sites.len() && (#[trigger] sites[i]).row == yy && sites[i].col == x by {
            assert(mv[yy] == mask[yy]@);
            assert(mv[yy][x]);
        }
        assert forall|i: int, j: int| 0 <= i < j < sites.len() implies
            (#[trigger] sites[i]).row < (#[trigger] sites[j]).row
            || (sites[i].row == sites[j].row && sites[i].col < sites[j].col) by {
            assert(site_before(sites@[i], sites@[j]));
        }
    }
    sites
}

/// The shape that `spawn_shape` picks among shapes named `names` for the
/// name `name`: the last one with that name, or the first shape when none
/// has it.
pub fn select_shape(names: &Vec<String>, name: &String) -> (k: usize)
    requires
        names.len() >= 1,
    ensures
        k < names.len(),
        (exists|i: int| 0 <= i < names.len() && names[i]@ == name@) ==> {
            &&& names[k as int]@ == name@
            &&& forall|j: int| k < j < names.len() ==> names[j]@ != name@
        },
        !(exists|i: int| 0 <= i < names.len() && names[i]@ == name@) ==> k == 0,
{
    let mut k: usize = 0;
    let mut found = false;
    let mut i: usize = 0;
    while i < names.len()
        invariant
            names.len() >= 1,
            i <= names.len(),
            k < names.len(),
            found == (exists|j: int| 0 <= j < i && names[j]@ == name@),
            found ==> names[k as int]@ == name@ && k < i,
            found ==> forall|j: int| k < j < i ==> names[j]@ != name@,
            !found ==> k == 0,
        decreases names.len() - i,
    {
        if names[i] == *name {
            k = i;
            found = true;
        }
        i += 1;
    }
    k
}

} // verus!
