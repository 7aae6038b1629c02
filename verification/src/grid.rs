use vstd::prelude::*;

use crate::lattice::{band_points, lists_band, EXACT_RADIUS_LIMIT};
use crate::vector::IVec2;

verus! {

/// Remainder of `a` by `b > 0` as Rust's `%` on integers computes it: the sign
/// follows the dividend.
pub open spec fn trunc_rem(a: int, b: int) -> int {
    if a >= 0 { a % b } else { -((-a) % b) }
}

/// Quotient of `a` by `b > 0` as Rust's `/` on integers computes it: rounded
/// towards zero.
pub open spec fn trunc_div(a: int, b: int) -> int {
    if a >= 0 { a / b } else { -((-a) / b) }
}

/// `trunc_rem(a, b)` lies strictly between `-b` and `b`, with the sign of `a`.
pub proof fn lemma_trunc_rem_bounds(a: int, b: int)
    requires
        b > 0,
    ensures
        a >= 0 ==> 0 <= trunc_rem(a, b) < b,
        a < 0 ==> -b < trunc_rem(a, b) <= 0,
        a >= 0 ==> trunc_rem(a, b) == a % b,
{
    if a < 0 {
        assert(0 <= (-a) % b < b) by (nonlinear_arith)
            requires
                b > 0,
                -a > 0,
        {
            vstd::arithmetic::div_mod::lemma_mod_bound(-a, b);
        }
    } else {
        vstd::arithmetic::div_mod::lemma_mod_bound(a, b);
    }
}

/// Rust's `/` and `%` split `a` into `b * trunc_div(a, b) + trunc_rem(a, b)`,
/// and the remainder is a multiple of `b` away from `a`.
pub proof fn lemma_trunc_split(a: int, b: int)
    requires
        b > 0,
    ensures
        trunc_div(a, b) * b + trunc_rem(a, b) == a,
        (a - trunc_rem(a, b)) % b == 0,
        a >= 0 ==> 0 <= trunc_rem(a, b) < b,
        a < 0 ==> -b < trunc_rem(a, b) <= 0,
{
    lemma_trunc_rem_bounds(a, b);
    if a >= 0 {
        vstd::arithmetic::div_mod::lemma_fundamental_div_mod(a, b);
        assert(trunc_div(a, b) * b == b * (a / b)) by (nonlinear_arith)
            requires
                trunc_div(a, b) == a / b,
        ;
        vstd::arithmetic::div_mod::lemma_mod_multiples_basic(a / b, b);
        assert((a / b) * b == b * (a / b)) by (nonlinear_arith);
    } else {
        vstd::arithmetic::div_mod::lemma_fundamental_div_mod(-a, b);
        assert(trunc_div(a, b) * b == -(b * ((-a) / b))) by (nonlinear_arith)
            requires
                trunc_div(a, b) == -((-a) / b),
        ;
        assert(a - trunc_rem(a, b) == (-((-a) / b)) * b) by (nonlinear_arith)
            requires
                -a == b * ((-a) / b) + (-a) % b,
                trunc_rem(a, b) == -((-a) % b),
        ;
        vstd::arithmetic::div_mod::lemma_mod_multiples_basic(-((-a) / b), b);
    }
}

/// If `r` differs from `a + b` by a multiple of `b`, it differs from `a` by
/// one too.
proof fn lemma_congruent_shift(a: int, b: int, r: int)
    requires
        b > 0,
        (a + b - r) % b == 0,
    ensures
        (a - r) % b == 0,
{
    vstd::arithmetic::div_mod::lemma_mod_sub_multiples_vanish(a + b - r, b);
    assert(a + b - r - b == a - r);
}

/// How the cells are filled when the grid is (re)initialised.
#[derive(Clone, Copy, Debug, PartialEq, Eq, Structural)]
pub enum GenerationType {
    EMPTY,
    RANDOM,
    BLOB,
}

/// The toroidal grid of `width * height` cells, stored row by row: the cell at
/// column `x` and row `y` has the index `x + y * width`.
#[derive(Clone, Copy, Debug)]
pub struct Grid {
    pub width: usize,
    pub height: usize,
    pub paused: bool,
    pub generation_type: GenerationType,
}

impl Grid {
    /// The grid has at least one row and one column, and every cell index
    /// fits in an `i32`.
    pub open spec fn wf(self) -> bool {
        &&& 1 <= self.width
        &&& 1 <= self.height
        &&& self.width * self.height <= i32::MAX
    }

    /// Number of cells.
    pub open spec fn num_cells(self) -> int {
        self.width * self.height
    }

    /// The position that `idx_to_vector` gives for the index `idx`.
    pub open spec fn position_of(self, idx: int) -> IVec2 {
        IVec2 {
            x: trunc_rem(idx, self.width as int) as i32,
            y: trunc_div(idx, self.width as int) as i32,
        }
    }

    /// The index that `vector_to_idx` gives for the position `pos`.
    pub open spec fn index_of(self, pos: IVec2) -> int {
        trunc_rem(pos.x as int, self.width as int) + pos.y * self.width
    }

    /// The position that `wrap_pos` gives for `pos`.
    pub open spec fn wrapped(self, pos: IVec2) -> IVec2 {
        IVec2 {
            x: trunc_rem(pos.x + self.width, self.width as int) as i32,
            y: trunc_rem(pos.y + self.height, self.height as int) as i32,
        }
    }

    /// `pos` names a cell of the grid.
    pub open spec fn in_grid(self, pos: IVec2) -> bool {
        0 <= pos.x < self.width && 0 <= pos.y < self.height
    }

    /// Each side of a well-formed grid fits in an `i32`.
    pub proof fn lemma_sides_fit(self)
        requires
            self.wf(),
        ensures
            self.width <= i32::MAX,
            self.height <= i32::MAX,
            self.width <= self.num_cells(),
            self.height <= self.num_cells(),
    {
        assert(self.width <= self.width * self.height) by (nonlinear_arith)
            requires
                1 <= self.width,
                1 <= self.height,
        ;
        assert(self.height <= self.width * self.height) by (nonlinear_arith)
            requires
                1 <= self.width,
                1 <= self.height,
        ;
    }

    /// A paused grid of `width` by `height` cells that is filled at random on
    /// initialisation. Its cell indices fit in an `i32`; with at least one row
    /// and one column it is well formed.
    pub fn new(width: usize, height: usize) -> (g: Grid)
        requires
            width <= i32::MAX,
            height <= i32::MAX,
            width * height <= i32::MAX,
        ensures
            1 <= width && 1 <= height ==> g.wf(),
            g.width == width,
            g.height == height,
            g.paused,
            g.generation_type == GenerationType::RANDOM,
    {
        Grid { width, height, paused: true, generation_type: GenerationType::RANDOM }
    }

    /// The position `(idx % width, idx / width)` of the cell with index `idx`.
    pub fn idx_to_vector(&self, idx: i32) -> (v: IVec2)
        requires
            self.wf(),
        ensures
            v == self.position_of(idx as int),
            v.y * self.width + v.x == idx,
            idx >= 0 ==> 0 <= v.x < self.width,
            idx < 0 ==> -self.width < v.x <= 0,
    {
        proof {
            self.lemma_sides_fit();
            lemma_trunc_split(idx as int, self.width as int);
        }
        let w = self.width as i32;
        IVec2::new(idx % w, idx / w)
    }

    /// The index `pos.x % width + pos.y * width` of the cell at `pos`.
    pub fn vector_to_idx(&self, pos: IVec2) -> (idx: i32)
        requires
            self.wf(),
            i32::MIN <= pos.y * self.width <= i32::MAX,
            i32::MIN <= self.index_of(pos) <= i32::MAX,
        ensures
            idx == self.index_of(pos),
            (pos.x - (idx - pos.y * self.width)) % (self.width as int) == 0,
            pos.x >= 0 ==> 0 <= idx - pos.y * self.width < self.width,
            pos.x < 0 ==> -self.width < idx - pos.y * self.width <= 0,
    {
        proof {
            lemma_trunc_split(pos.x as int, self.width as int);
        }
        proof {
            self.lemma_sides_fit();
            lemma_trunc_rem_bounds(pos.x as int, self.width as int);
        }
        let w = self.width as i32;
        let r = pos.x % w;
        r + pos.y * w
    }

    /// Brings `pos` back onto the torus: `((pos.x + width) % width,
    /// (pos.y + height) % height)`.
    pub fn wrap_pos(&self, pos: IVec2) -> (v: IVec2)
        requires
            self.wf(),
            pos.x + self.width <= i32::MAX,
            pos.y + self.height <= i32::MAX,
        ensures
            v == self.wrapped(pos),
            (pos.x - v.x) % (self.width as int) == 0,
            (pos.y - v.y) % (self.height as int) == 0,
            pos.x >= -self.width ==> 0 <= v.x < self.width,
            pos.y >= -self.height ==> 0 <= v.y < self.height,
            pos.x < -self.width ==> -self.width < v.x <= 0,
            pos.y < -self.height ==> -self.height < v.y <= 0,
    {
        proof {
            self.lemma_sides_fit();
            lemma_trunc_split(pos.x + self.width, self.width as int);
            lemma_trunc_split(pos.y + self.height, self.height as int);
            lemma_congruent_shift(pos.x as int, self.width as int, trunc_rem(pos.x + self.width, self.width as int));
            lemma_congruent_shift(pos.y as int, self.height as int, trunc_rem(pos.y + self.height, self.height as int));
        }
        let w = self.width as i32;
        let h = self.height as i32;
        IVec2::new((pos.x + w) % w, (pos.y + h) % h)
    }

    /// The cell that a kernel reads at `offset` from `pos`: the index of
    /// `wrap_pos(pos + offset)`. It always names a cell of the grid.
    pub fn neighbour_index(&self, pos: IVec2, offset: IVec2) -> (idx: usize)
        requires
            self.wf(),
            -self.width <= pos.x + offset.x,
            -self.height <= pos.y + offset.y,
            pos.x + offset.x + self.width <= i32::MAX,
            pos.y + offset.y + self.height <= i32::MAX,
        ensures
            idx == self.index_of(self.wrapped(IVec2 { x: (pos.x + offset.x) as i32, y: (pos.y + offset.y) as i32 })),
            idx < self.num_cells(),
    {
        proof {
            self.lemma_sides_fit();
        }
        let p = pos.plus(offset);
        let wrapped = self.wrap_pos(p);
        proof {
            lemma_wrap_in_grid(*self, p);
            lemma_position_index_roundtrip(*self, wrapped);
            assert(0 <= wrapped.y * self.width <= self.num_cells()) by (nonlinear_arith)
                requires
                    0 <= wrapped.y < self.height,
                    self.width >= 1,
            ;
        }
        self.vector_to_idx(wrapped) as usize
    }

    /// The centre `(width / 2, height / 2)` on which shapes are spawned.
    pub open spec fn center(self) -> IVec2 {
        IVec2 { x: (self.width / 2) as i32, y: (self.height / 2) as i32 }
    }

    /// The grid position of the shape cell at offset `rel` from the centre.
    pub open spec fn shape_cell_pos(self, rel: IVec2) -> IVec2 {
        IVec2 { x: (self.center().x + rel.x) as i32, y: (self.center().y + rel.y) as i32 }
    }

    /// Placing a shape cell at offset `rel` from the centre stays within `i32`.
    pub open spec fn placeable(self, rel: IVec2) -> bool {
        let p = self.shape_cell_pos(rel);
        &&& i32::MIN <= self.center().x + rel.x <= i32::MAX
        &&& i32::MIN <= self.center().y + rel.y <= i32::MAX
        &&& i32::MIN <= p.y * self.width <= i32::MAX
        &&& i32::MIN <= self.index_of(p) <= i32::MAX
    }

    /// Where the `i`-th of `n_states` shape values goes when a shape is
    /// spawned on a grid whose cells have `num_channels` channels: the cell
    /// index and the channel, or `None` when the index falls outside the grid.
    /// A shape holding one value per channel of every cell spreads its values
    /// over the channels in turn; otherwise every value goes to channel 0.
    pub open spec fn shape_target(self, rel: IVec2, i: int, n_states: int, num_channels: int) -> Option<(usize, usize)> {
        let idx = self.index_of(self.shape_cell_pos(rel));
        let ch = if num_channels != 1 && n_states == self.num_cells() * num_channels {
            i % num_channels
        } else {
            0
        };
        if 0 <= idx < self.num_cells() {
            Some((idx as usize, ch as usize))
        } else {
            None
        }
    }

    /// The placement of each value of a shape, as `spawn_shape` writes them:
    /// entry `i` is `shape_target` of `cells_pos[i]`.
    pub fn shape_targets(&self, cells_pos: &Vec<IVec2>, n_states: usize, num_channels: usize) -> (t: Vec<Option<(usize, usize)>>)
        requires
            self.wf(),
            n_states <= cells_pos.len(),
            1 <= num_channels,
            self.num_cells() * num_channels <= usize::MAX,
            forall|i: int| 0 <= i < n_states ==> self.placeable(#[trigger] cells_pos[i]),
        ensures
            t.len() == n_states,
            forall|i: int| 0 <= i < n_states ==>
                t[i] == self.shape_target(cells_pos[i], i, n_states as int, num_channels as int),
            forall|i: int| 0 <= i < n_states ==> (#[trigger] t[i] matches Some((idx, ch)) ==>
                idx < self.num_cells() && ch < num_channels),
            forall|i: int| 0 <= i < n_states ==> (#[trigger] t[i] matches Some((idx, ch)) ==> {
                &&& n_states != self.width * self.height * num_channels ==> ch == 0
                &&& n_states == self.width * self.height * num_channels ==> ch == i % (num_channels as int)
                &&& idx == trunc_rem(self.width / 2 + cells_pos[i].x, self.width as int)
                    + (self.height / 2 + cells_pos[i].y) * self.width
            }),
            forall|i: int| 0 <= i < n_states ==> ((#[trigger] t[i] is Some) <==> {
                let idx = trunc_rem(self.width / 2 + cells_pos[i].x, self.width as int)
                    + (self.height / 2 + cells_pos[i].y) * self.width;
                0 <= idx < self.width * self.height
            }),
    {
        proof {
            self.lemma_sides_fit();
        }
        let center = IVec2::new(self.width as i32 / 2, self.height as i32 / 2);
        let total = self.width * self.height;
        let spread = num_channels != 1 && n_states == total * num_channels;
        let mut t: Vec<Option<(usize, usize)>> = Vec::new();
        let mut i: usize = 0;
        while i < n_states
            invariant
                self.wf(),
                n_states <= cells_pos.len(),
                1 <= num_channels,
                total == self.num_cells(),
                center == self.center(),
                spread == (num_channels != 1 && n_states == self.num_cells() * num_channels),
                forall|k: int| 0 <= k < n_states ==> self.placeable(#[trigger] cells_pos[k]),
                i <= n_states,
                t.len() == i,
                forall|k: int| 0 <= k < i ==>
                    t[k] == self.shape_target(cells_pos[k], k, n_states as int, num_channels as int),
                forall|k: int| 0 <= k < i ==> (#[trigger] t[k] matches Some((idx, ch)) ==>
                    idx < self.num_cells() && ch < num_channels),
            decreases n_states - i,
        {
            let rel = cells_pos[i];
            assert(self.placeable(rel));
            let idx = self.vector_to_idx(center.plus(rel));
            if 0 <= idx && (idx as usize) < total {
                let ch = if spread { i % num_channels } else { 0 };
                assert(ch < num_channels);
                t.push(Some((idx as usize, ch)));
            } else {
                t.push(None);
            }
            i += 1;
        }
        proof {
            assert forall|k: int| 0 <= k < n_states implies #[trigger] t[k] == self.shape_target(
                cells_pos[k], k, n_states as int, num_channels as int) by {
                lemma_shape_target_placement(*self, cells_pos[k], k, n_states as int, num_channels as int);
            }
        }
        t
    }

    /// The grid with `paused` flipped and everything else as it was.
    pub open spec fn toggled(self) -> Grid {
        Grid { paused: !self.paused, ..self }
    }

    /// Switches between running and paused.
    pub fn pause(&mut self)
        ensures
            *final(self) == old(self).toggled(),
    {
        self.paused = !self.paused;
    }
}

/// The offsets that a kernel of radius `r` weighs: every point `(x, y)` with
/// `0 < x * x + y * y <= r * r`, column by column from `x = -r` and each
/// column from `y = -r`. The centre itself is left out.
pub fn kernel_offsets(r: i32) -> (offsets: Vec<IVec2>)
    requires
        1 <= r <= EXACT_RADIUS_LIMIT,
    ensures
        lists_band(offsets@, r as int, 1, r * r),
{
    let rr = r as i64;
    assert(0 <= rr * rr <= 2896 * 2896) by (nonlinear_arith)
        requires
            1 <= rr <= 2896,
    ;
    band_points(r, 1, rr * rr)
}

/// How many kernels among `targets` (the target channel of each kernel) feed
/// channel `c`.
pub open spec fn feeding_count(targets: Seq<usize>, c: usize) -> nat {
    targets.filter(|t: usize| t == c).len()
}

/// The kernels, by position in `targets` (the target channel of each
/// kernel), whose growth goes to channel `c`, in increasing order.
pub fn kernels_into(targets: &Vec<usize>, c: usize) -> (ks: Vec<usize>)
    ensures
        forall|i: int, j: int| 0 <= i < j < ks.len() ==> ks[i] < ks[j],
        forall|i: int| 0 <= i < ks.len() ==> ks[i] < targets.len() && targets[ks[i] as int] == c,
        forall|k: int| 0 <= k < targets.len() && targets[k] == c ==> ks@.contains(k as usize),
        ks.len() == feeding_count(targets@, c),
{
    let mut ks: Vec<usize> = Vec::new();
    let mut k: usize = 0;
    proof {
        assert(targets@.take(0) =~= Seq::<usize>::empty());
        assert(feeding_count(targets@.take(0), c) == 0);
    }
    while k < targets.len()
        invariant
            k <= targets.len(),
            ks.len() == feeding_count(targets@.take(k as int), c),
            forall|i: int, j: int| 0 <= i < j < ks.len() ==> ks[i] < ks[j],
            forall|i: int| 0 <= i < ks.len() ==> ks[i] < k && targets[ks[i] as int] == c,
            forall|m: int| 0 <= m < k && targets[m] == c ==> ks@.contains(m as usize),
        decreases targets.len() - k,
    {
        proof {
            assert(targets@.take(k + 1).drop_last() =~= targets@.take(k as int));
            reveal_with_fuel(Seq::filter, 1);
        }
        if targets[k] == c {
            let ghost before = ks@;
            ks.push(k);
            proof {
                assert forall|m: int| 0 <= m < k + 1 && targets[m] == c implies ks@.contains(m as usize) by {
                    if m == k {
                        assert(ks@[before.len() as int] == k);
                    } else {
                        let i = choose|i: int| 0 <= i < before.len() && before[i] == m as usize;
                        assert(ks@[i] == m as usize);
                    }
                }
            }
        }
        k += 1;
    }
    proof {
        assert(targets@.take(k as int) =~= targets@);
    }
    ks
}

/// The number of kernels among `targets` (the target channel of each kernel)
/// that feed channel `c`, counted as 1 when there are none: the divisor of
/// the averaged growth of channel `c`.
pub fn kernels_feeding(targets: &Vec<usize>, c: usize) -> (n: usize)
    ensures
        n >= 1,
        n == if feeding_count(targets@, c) == 0 { 1 } else { feeding_count(targets@, c) },
{
    let mut count: usize = 0;
    let mut i: usize = 0;
    proof {
        assert(targets@.take(0) =~= Seq::<usize>::empty());
        assert(feeding_count(targets@.take(0), c) == 0);
    }
    while i < targets.len()
        invariant
            i <= targets.len(),
            count == feeding_count(targets@.take(i as int), c),
            count <= i,
        decreases targets.len() - i,
    {
        proof {
            assert(targets@.take(i + 1).drop_last() =~= targets@.take(i as int));
            reveal_with_fuel(Seq::filter, 1);
        }
        if targets[i] == c {
            count += 1;
        }
        i += 1;
    }
    proof {
        assert(targets@.take(i as int) =~= targets@);
    }
    if count == 0 { 1 } else { count }
}

/// The flat position of channel `c` of the cell at column `x` and row `y`
/// in a buffer of `channels` values per cell and `width` cells per row.
pub open spec fn flat_index(x: int, y: int, c: int, width: int, channels: int) -> int {
    (y * width + x) * channels + c
}

/// What a cell buffer resized from `old_w` by `old_h` cells to a wider or
/// narrower grid holds at channel `c` of the cell `(x, y)`: the same channel
/// of the same cell of the old buffer when that cell existed and the old
/// buffer reaches it, `fill` otherwise.
pub open spec fn carried_value<T>(old: Seq<T>, old_w: int, old_h: int, new_w: int, channels: int, fill: T, x: int, y: int, c: int) -> T {
    let src = flat_index(x, y, c, old_w, channels);
    if x < old_w && y < old_h && src < old.len() { old[src] } else { fill }
}

proof fn lemma_flat_index(x: int, y: int, c: int, w: int, h: int, ch: int)
    requires
        0 <= x < w,
        0 <= y < h,
        0 <= c < ch,
    ensures
        0 <= y * w <= y * w + x < w * h <= w * h * ch,
        0 <= (y * w + x) * ch <= flat_index(x, y, c, w, ch) < w * h * ch,
        flat_index(x, y, c, w, ch) % ch == c,
        (flat_index(x, y, c, w, ch) / ch) % w == x,
        (flat_index(x, y, c, w, ch) / ch) / w == y,
{
    let cell = y * w + x;
    assert(w * h <= w * h * ch) by (nonlinear_arith)
        requires
            0 <= x < w,
            0 <= y < h,
            0 <= c < ch,
    ;
    assert(0 <= y * w <= y * w + x < w * h) by (nonlinear_arith)
        requires
            0 <= x < w,
            0 <= y < h,
    ;
    assert(0 <= cell * ch <= cell * ch + c < w * h * ch) by (nonlinear_arith)
        requires
            0 <= cell < w * h,
            0 <= c < ch,
    ;
    assert(cell * ch + c == ch * cell + c) by (nonlinear_arith);
    vstd::arithmetic::div_mod::lemma_fundamental_div_mod_converse(cell * ch + c, ch, cell, c);
    assert(y * w + x == w * y + x) by (nonlinear_arith);
    vstd::arithmetic::div_mod::lemma_fundamental_div_mod_converse(cell, w, y, x);
}

/// Every position of a buffer of `w * h` cells with `ch` channels each is the
/// flat position of exactly the cell and channel that dividing it out gives.
pub proof fn lemma_flat_decompose(i: int, w: int, h: int, ch: int)
    requires
        0 <= i < w * h * ch,
        1 <= w,
        1 <= h,
        1 <= ch,
    ensures
        0 <= (i / ch) % w < w,
        0 <= (i / ch) / w < h,
        0 <= i % ch < ch,
        flat_index((i / ch) % w, (i / ch) / w, i % ch, w, ch) == i,
{
    let cell = i / ch;
    let c = i % ch;
    vstd::arithmetic::div_mod::lemma_fundamental_div_mod(i, ch);
    vstd::arithmetic::div_mod::lemma_mod_bound(i, ch);
    vstd::arithmetic::div_mod::lemma_fundamental_div_mod(cell, w);
    vstd::arithmetic::div_mod::lemma_mod_bound(cell, w);
    assert(0 <= cell < w * h) by (nonlinear_arith)
        requires
            0 <= i < w * h * ch,
            1 <= ch,
            cell == i / ch,
            i == ch * (i / ch) + i % ch,
            0 <= i % ch < ch,
    ;
    assert(0 <= cell / w < h) by (nonlinear_arith)
        requires
            0 <= cell < w * h,
            1 <= w,
            cell == w * (cell / w) + cell % w,
            0 <= cell % w < w,
    ;
    assert(flat_index(cell % w, cell / w, c, w, ch) == i) by (nonlinear_arith)
        requires
            cell == w * (cell / w) + cell % w,
            i == ch * cell + c,
    ;
}

/// Resizing keeps every cell that both grids have: channel `c` of the cell
/// `(x, y)` is read from the old buffer at `(y * old_w + x) * channels + c`,
/// with the old width as row stride whatever the new width, and every value
/// the old grid cannot supply is `fill`.
pub proof fn lemma_carried_value<T>(old: Seq<T>, old_w: int, old_h: int, new_w: int, channels: int, fill: T, x: int, y: int, c: int)
    requires
        0 <= x < new_w,
        0 <= y,
        0 <= c < channels,
    ensures
        x < old_w && y < old_h && (y * old_w + x) * channels + c < old.len() ==>
            carried_value(old, old_w, old_h, new_w, channels, fill, x, y, c) == old[(y * old_w + x) * channels + c],
        !(x < old_w && y < old_h && (y * old_w + x) * channels + c < old.len()) ==>
            carried_value(old, old_w, old_h, new_w, channels, fill, x, y, c) == fill,
{
    lemma_flat_index(x, y, c, new_w, y + 1, channels);
}

/// The cell buffer of a grid resized from `old_w` by `old_h` to `new_w` by
/// `new_h` cells, `channels` values per cell: every cell that both grids have
/// keeps its values, as far as `old` holds them; every other value is `fill`.
pub fn carry_over_cells<T: Copy>(old: &Vec<T>, old_w: usize, old_h: usize, new_w: usize, new_h: usize, channels: usize, fill: T) -> (cells: Vec<T>)
    requires
        new_w * new_h * channels <= usize::MAX,
        old_w * old_h * channels <= usize::MAX,
    ensures
        cells.len() == new_w * new_h * channels,
        forall|x: int, y: int, c: int| 0 <= x < new_w && 0 <= y < new_h && 0 <= c < channels ==>
            #[trigger] cells@[flat_index(x, y, c, new_w as int, channels as int)]
                == carried_value(old@, old_w as int, old_h as int, new_w as int, channels as int, fill, x, y, c),
        forall|i: int| 0 <= i < cells.len() ==> #[trigger] cells@[i] == carried_value(
            old@, old_w as int, old_h as int, new_w as int, channels as int, fill,
            (i / channels as int) % new_w as int, (i / channels as int) / new_w as int, i % channels as int),
        forall|i: int| 0 <= i < cells.len() ==> {
            let c = i % (channels as int);
            let x = (i / (channels as int)) % (new_w as int);
            let y = (i / (channels as int)) / (new_w as int);
            let src = (y * old_w + x) * channels + c;
            #[trigger] cells@[i] == if x < old_w && y < old_h && src < old.len() { old@[src] } else { fill }
        },
{
    let mut cells: Vec<T> = Vec::new();
    let mut y: usize = 0;
    while y < new_h
        invariant
            new_w * new_h * channels <= usize::MAX,
            old_w * old_h * channels <= usize::MAX,
            y <= new_h,
            cells.len() == y * new_w * channels,
            forall|x: int, yy: int, c: int| 0 <= x < new_w && 0 <= yy < y && 0 <= c < channels ==>
                #[trigger] cells@[flat_index(x, yy, c, new_w as int, channels as int)]
                    == carried_value(old@, old_w as int, old_h as int, new_w as int, channels as int, fill, x, yy, c),
        decreases new_h - y,
    {
        let mut x: usize = 0;
        while x < new_w
            invariant
                new_w * new_h * channels <= usize::MAX,
                old_w * old_h * channels <= usize::MAX,
                y < new_h,
                x <= new_w,
                cells.len() == (y * new_w + x) * channels,
                forall|xx: int, yy: int, c: int| 0 <= xx < new_w && 0 <= yy < new_h && 0 <= c < channels
                    && (yy < y || (yy == y && xx < x)) ==>
                    #[trigger] cells@[flat_index(xx, yy, c, new_w as int, channels as int)]
                        == carried_value(old@, old_w as int, old_h as int, new_w as int, channels as int, fill, xx, yy, c),
            decreases new_w - x,
        {
            let mut c: usize = 0;
            while c < channels
                invariant
                    new_w * new_h * channels <= usize::MAX,
                    old_w * old_h * channels <= usize::MAX,
                    y < new_h,
                    x < new_w,
                    c <= channels,
                    cells.len() == (y * new_w + x) * channels + c,
                    forall|xx: int, yy: int, cc: int| 0 <= xx < new_w && 0 <= yy < new_h && 0 <= cc < channels
                        && (yy < y || (yy == y && xx < x) || (yy == y && xx == x && cc < c)) ==>
                        #[trigger] cells@[flat_index(xx, yy, cc, new_w as int, channels as int)]
                            == carried_value(old@, old_w as int, old_h as int, new_w as int, channels as int, fill, xx, yy, cc),
                decreases channels - c,
            {
                proof {
                    lemma_flat_index(x as int, y as int, c as int, new_w as int, new_h as int, channels as int);
                }
                let mut v = fill;
                if x < old_w && y < old_h {
                    proof {
                        lemma_flat_index(x as int, y as int, c as int, old_w as int, old_h as int, channels as int);
                    }
                    let src = (y * old_w + x) * channels + c;
                    if src < old.len() {
                        v = old[src];
                    }
                }
                let ghost before = cells@;
                cells.push(v);
                proof {
                    assert forall|xx: int, yy: int, cc: int| 0 <= xx < new_w && 0 <= yy < new_h && 0 <= cc < channels
                        && (yy < y || (yy == y && xx < x) || (yy == y && xx == x && cc < c + 1)) implies
                        #[trigger] cells@[flat_index(xx, yy, cc, new_w as int, channels as int)]
                            == carried_value(old@, old_w as int, old_h as int, new_w as int, channels as int, fill, xx, yy, cc) by {
                        lemma_flat_order(xx, yy, cc, x as int, y as int, c as int, new_w as int, channels as int);
                    }
                }
                c += 1;
            }
            assert((y * new_w + x) * channels + channels == (y * new_w + (x + 1)) * channels) by (nonlinear_arith);
            x += 1;
        }
        assert((y * new_w + new_w) * channels == (y + 1) * new_w * channels) by (nonlinear_arith);
        y += 1;
    }
    assert(new_h * new_w * channels == new_w * new_h * channels) by (nonlinear_arith);
    proof {
        assert forall|i: int| 0 <= i < cells.len() implies {
            let c = i % (channels as int);
            let x = (i / (channels as int)) % (new_w as int);
            let y = (i / (channels as int)) / (new_w as int);
            let src = (y * old_w + x) * channels + c;
            #[trigger] cells@[i] == if x < old_w && y < old_h && src < old.len() { old@[src] } else { fill }
        } by {
            let (w, h, ch) = (new_w as int, new_h as int, channels as int);
            assert(1 <= w && 1 <= h && 1 <= ch) by (nonlinear_arith)
                requires
                    0 <= i < w * h * ch,
                    w >= 0,
                    h >= 0,
                    ch >= 0,
            ;
            lemma_flat_decompose(i, w, h, ch);
            let x = (i / ch) % w;
            let y = (i / ch) / w;
            let c = i % ch;
            assert(cells@[flat_index(x, y, c, w, ch)] == carried_value(old@, old_w as int, old_h as int, w, ch, fill, x, y, c));
            lemma_carried_value(old@, old_w as int, old_h as int, w, ch, fill, x, y, c);
        }
        assert forall|i: int| 0 <= i < cells.len() implies #[trigger] cells@[i] == carried_value(
            old@, old_w as int, old_h as int, new_w as int, channels as int, fill,
            (i / channels as int) % new_w as int, (i / channels as int) / new_w as int, i % channels as int) by {
            let (w, h, ch) = (new_w as int, new_h as int, channels as int);
            assert(1 <= w && 1 <= h && 1 <= ch) by (nonlinear_arith)
                requires
                    0 <= i < w * h * ch,
                    w >= 0,
                    h >= 0,
                    ch >= 0,
            ;
            lemma_flat_decompose(i, w, h, ch);
            let x = (i / ch) % w;
            let y = (i / ch) / w;
            let c = i % ch;
            assert(cells@[flat_index(x, y, c, w, ch)] == carried_value(old@, old_w as int, old_h as int, w, ch, fill, x, y, c));
        }
    }
    cells
}

/// Listing cells row by row and channels within a cell gives each value of
/// an earlier cell, or an earlier channel of the same cell, a smaller flat
/// position.
proof fn lemma_flat_order(xx: int, yy: int, cc: int, x: int, y: int, c: int, w: int, ch: int)
    requires
        0 <= xx < w,
        0 <= x < w,
        0 <= cc < ch,
        0 <= c < ch,
        0 <= yy,
        0 <= y,
    ensures
        (yy < y || (yy == y && xx < x) || (yy == y && xx == x && cc < c)) ==> flat_index(xx, yy, cc, w, ch) < flat_index(x, y, c, w, ch),
        (yy == y && xx == x && cc == c) ==> flat_index(xx, yy, cc, w, ch) == flat_index(x, y, c, w, ch),
{
    if yy < y {
        assert(yy * w + xx < y * w + x) by (nonlinear_arith)
            requires
                yy < y,
                0 <= xx < w,
                0 <= x,
        ;
        assert((yy * w + xx) * ch + cc < (y * w + x) * ch + c) by (nonlinear_arith)
            requires
                yy * w + xx < y * w + x,
                0 <= cc < ch,
                0 <= c,
        ;
    } else if yy == y && xx < x {
        assert((yy * w + xx) * ch + cc < (y * w + x) * ch + c) by (nonlinear_arith)
            requires
                yy * w + xx < y * w + x,
                0 <= cc < ch,
                0 <= c,
        ;
    }
}

/// `v` brought into `[lo, hi]`.
pub open spec fn clamp_int(v: int, lo: int, hi: int) -> int {
    if v < lo { lo } else if v > hi { hi } else { v }
}

/// `v` brought into `[lo, hi]`, as `i32::clamp` does.
fn clamp_i32(v: i32, lo: i32, hi: i32) -> (r: i32)
    requires
        lo <= hi,
    ensures
        r == clamp_int(v as int, lo as int, hi as int),
{
    if v < lo { lo } else if v > hi { hi } else { v }
}

/// The position in a cell buffer of channel `ch` of the cell at `(x, y)`
/// clamped onto a `width` by `height` grid: what a smooth sample reads near
/// the border.
pub fn sample_offset(width: usize, height: usize, channels: usize, ch: usize, x: i32, y: i32) -> (off: usize)
    requires
        1 <= width <= i32::MAX,
        1 <= height <= i32::MAX,
        ch < channels,
        width * height * channels <= usize::MAX,
    ensures
        off == flat_index(clamp_int(x as int, 0, width - 1), clamp_int(y as int, 0, height - 1), ch as int, width as int, channels as int),
        off < width * height * channels,
        ({
            let cx = if x < 0 { 0 } else if x >= width { width - 1 } else { x as int };
            let cy = if y < 0 { 0 } else if y >= height { height - 1 } else { y as int };
            off == (cy * width + cx) * channels + ch
        }),
{
    let xx = clamp_i32(x, 0, width as i32 - 1) as usize;
    let yy = clamp_i32(y, 0, height as i32 - 1) as usize;
    proof {
        lemma_flat_index(xx as int, yy as int, ch as int, width as int, height as int, channels as int);
    }
    let row_base = yy * width;
    (row_base + xx) * channels + ch
}

/// Every index of a cell names a position on the grid, and that position
/// gives the index back: `vector_to_idx(idx_to_vector(i)) == i` for
/// `0 <= i < width * height`.
pub proof fn lemma_index_position_roundtrip(g: Grid, idx: int)
    requires
        g.wf(),
        0 <= idx < g.num_cells(),
    ensures
        g.in_grid(g.position_of(idx)),
        g.index_of(g.position_of(idx)) == idx,
{
    g.lemma_sides_fit();
    let w = g.width as int;
    let h = g.height as int;
    vstd::arithmetic::div_mod::lemma_fundamental_div_mod(idx, w);
    vstd::arithmetic::div_mod::lemma_mod_bound(idx, w);
    assert(0 <= idx / w < h) by (nonlinear_arith)
        requires
            0 <= idx < w * h,
            w >= 1,
            idx == w * (idx / w) + idx % w,
            0 <= idx % w < w,
    ;
    assert((idx / w) * w == w * (idx / w)) by (nonlinear_arith);
    let p = g.position_of(idx);
    assert(p.x == idx % w);
    assert(p.y == idx / w);
    vstd::arithmetic::div_mod::lemma_mod_twice(idx, w);
    assert(trunc_rem(p.x as int, w) == idx % w);
}

/// Every position on the grid has an index of a cell, and that index gives
/// the position back: `idx_to_vector(vector_to_idx(p)) == p` for `p` on the
/// grid.
pub proof fn lemma_position_index_roundtrip(g: Grid, pos: IVec2)
    requires
        g.wf(),
        g.in_grid(pos),
    ensures
        0 <= g.index_of(pos) < g.num_cells(),
        g.position_of(g.index_of(pos)) == pos,
{
    g.lemma_sides_fit();
    let w = g.width as int;
    let h = g.height as int;
    let x = pos.x as int;
    let y = pos.y as int;
    vstd::arithmetic::div_mod::lemma_small_mod(x as nat, w as nat);
    assert(0 <= x + y * w < w * h) by (nonlinear_arith)
        requires
            0 <= x < w,
            0 <= y < h,
    ;
    assert(x + y * w == w * y + x) by (nonlinear_arith);
    vstd::arithmetic::div_mod::lemma_fundamental_div_mod_converse(x + y * w, w, y, x);
}

/// Wrapping brings every position at most one grid size below the origin
/// onto the grid.
pub proof fn lemma_wrap_in_grid(g: Grid, pos: IVec2)
    requires
        g.wf(),
        -g.width <= pos.x,
        -g.height <= pos.y,
    ensures
        g.in_grid(g.wrapped(pos)),
{
    g.lemma_sides_fit();
    vstd::arithmetic::div_mod::lemma_mod_bound(pos.x + g.width, g.width as int);
    vstd::arithmetic::div_mod::lemma_mod_bound(pos.y + g.height, g.height as int);
}

/// Wrapping leaves a position on the grid where it is.
pub proof fn lemma_wrap_fixes_in_grid(g: Grid, pos: IVec2)
    requires
        g.wf(),
        g.in_grid(pos),
    ensures
        g.wrapped(pos) == pos,
{
    g.lemma_sides_fit();
    let w = g.width as int;
    let h = g.height as int;
    vstd::arithmetic::div_mod::lemma_fundamental_div_mod_converse(pos.x + w, w, 1, pos.x as int);
    vstd::arithmetic::div_mod::lemma_fundamental_div_mod_converse(pos.y + h, h, 1, pos.y as int);
}

/// The grid is a torus: a position one full width to the right, or one full
/// height up, wraps to the same cell.
pub proof fn lemma_wrap_periodic(g: Grid, pos: IVec2)
    requires
        g.wf(),
        -g.width <= pos.x,
        -g.height <= pos.y,
        pos.x + g.width <= i32::MAX,
        pos.y + g.height <= i32::MAX,
    ensures
        g.wrapped(IVec2 { x: (pos.x + g.width) as i32, y: pos.y }) == g.wrapped(pos),
        g.wrapped(IVec2 { x: pos.x, y: (pos.y + g.height) as i32 }) == g.wrapped(pos),
{
    g.lemma_sides_fit();
    let w = g.width as int;
    let h = g.height as int;
    vstd::arithmetic::div_mod::lemma_mod_add_multiples_vanish(pos.x + w, w);
    vstd::arithmetic::div_mod::lemma_mod_add_multiples_vanish(pos.y + h, h);
}

/// Spawning a shape puts the value `i` of `n_states` values at offset `rel`
/// from the centre `(width / 2, height / 2)` into the cell with index
/// `(width / 2 + rel.x) % width + (height / 2 + rel.y) * width` when that index
/// names a cell, and nowhere otherwise. Unless the shape holds exactly one
/// value per channel of every cell, every value goes to channel 0; a shape
/// that does is spread over the channels, value `i` to channel
/// `i % num_channels`.
pub proof fn lemma_shape_target_placement(g: Grid, rel: IVec2, i: int, n_states: int, num_channels: int)
    requires
        g.wf(),
        g.placeable(rel),
        1 <= num_channels <= usize::MAX,
        0 <= i,
    ensures
        ({
            let idx = trunc_rem(g.width / 2 + rel.x, g.width as int) + (g.height / 2 + rel.y) * g.width;
            let r = g.shape_target(rel, i, n_states, num_channels);
            &&& (r is Some <==> 0 <= idx < g.width * g.height)
            &&& (r matches Some((j, ch)) ==> {
                &&& j == idx
                &&& n_states != g.width * g.height * num_channels ==> ch == 0
                &&& n_states == g.width * g.height * num_channels ==> ch == i % num_channels
            })
        }),
{
    g.lemma_sides_fit();
    let w = g.width as int;
    let h = g.height as int;
    assert(g.center().x == w / 2);
    assert(g.center().y == h / 2);
    let p = g.shape_cell_pos(rel);
    assert(p.x == w / 2 + rel.x);
    assert(p.y == h / 2 + rel.y);
    let idx = trunc_rem(w / 2 + rel.x, w) + (h / 2 + rel.y) * w;
    assert(g.index_of(p) == idx);
    assert(0 <= i % num_channels < num_channels) by {
        vstd::arithmetic::div_mod::lemma_mod_bound(i, num_channels);
    }
    if num_channels == 1 {
        assert(i % num_channels == 0) by {
            vstd::arithmetic::div_mod::lemma_mod_bound(i, 1);
        }
    }
}

/// Pausing twice leaves the grid as it was.
pub proof fn lemma_pause_twice(g: Grid)
    ensures
        g.toggled().toggled() == g,
{
}

} // verus!
