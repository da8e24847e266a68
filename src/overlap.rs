//! From world units to cells: the cells a box overlaps and the cell nearest a point.

use vstd::prelude::*;
use crate::cell::Cell;
use crate::grid::Grid;

verus! {

/// The cell at index `k`, spanning [`k*c - c/2`, `k*c + c/2`], meets the span
/// [`center - half`, `center + half`] (both closed); all doubled to stay in integers.
pub open spec fn overlaps(k: int, center: int, half: int, c: int) -> bool {
    2 * k * c - c <= 2 * (center + half) && 2 * (center - half) <= 2 * k * c + c
}

/// The index of the cell nearest to world coordinate `p`, halves rounded away from zero.
pub open spec fn nearest(p: int, c: int) -> int {
    if p >= 0 {
        (2 * p + c) / (2 * c)
    } else {
        -((-2 * p + c) / (2 * c))
    }
}

/// The first cell index whose span meets [`center - half`, `center + half`].
pub open spec fn first_touched(center: int, half: int, c: int) -> int {
    -((c - 2 * (center - half)) / (2 * c))
}

/// The last cell index whose span meets [`center - half`, `center + half`].
pub open spec fn last_touched(center: int, half: int, c: int) -> int {
    (2 * (center + half) + c) / (2 * c)
}

/// How many indices run from `lo` to `hi`, both included.
pub open spec fn span(lo: int, hi: int) -> int {
    if hi >= lo {
        hi - lo + 1
    } else {
        0
    }
}

/// For a positive `d`, `k <= b / d` exactly when `k * d <= b`.
proof fn lemma_floor_bound(k: int, b: int, d: int)
    requires
        d > 0,
    ensures
        (k <= b / d) == (k * d <= b),
{
    vstd::arithmetic::div_mod::lemma_fundamental_div_mod(b, d);
    let q = b / d;
    let r = b % d;
    if k <= q {
        assert(k * d <= b) by (nonlinear_arith)
            requires
                k <= q,
                d > 0,
                b == d * q + r,
                r >= 0,
        ;
    } else {
        assert(k * d > b) by (nonlinear_arith)
            requires
                k >= q + 1,
                d > 0,
                b == d * q + r,
                r < d,
        ;
    }
}

fn floor_div64(x: i64, d: i64) -> (r: i64)
    requires
        d > 0,
        -0x10_0000_0000 <= x <= 0x10_0000_0000,
    ensures
        r == x / d,
        x >= 0 ==> 0 <= r <= x,
        x < 0 ==> x <= r < 0,
{
    if x >= 0 {
        proof {
            vstd::arithmetic::div_mod::lemma_div_pos_is_pos(x as int, d as int);
            vstd::arithmetic::div_mod::lemma_div_is_ordered_by_denominator(x as int, 1, d as int);
        }
        x / d
    } else {
        let m = -x - 1;
        proof {
            vstd::arithmetic::div_mod::lemma_fundamental_div_mod(m as int, d as int);
            vstd::arithmetic::div_mod::lemma_fundamental_div_mod(x as int, d as int);
            let q = m / d;
            let s = m % d;
            assert(x == (-q - 1) * d + (d - 1 - s)) by (nonlinear_arith)
                requires
                    m == d * q + s,
                    x == -m - 1,
            ;
            vstd::arithmetic::div_mod::lemma_fundamental_div_mod_converse(
                x as int,
                d as int,
                -q - 1,
                d - 1 - s,
            );
            vstd::arithmetic::div_mod::lemma_div_pos_is_pos(m as int, d as int);
            vstd::arithmetic::div_mod::lemma_div_is_ordered_by_denominator(m as int, 1, d as int);
        }
        -(m / d) - 1
    }
}

/// The first and last cell indices whose spans meet [`center - half`, `center + half`].
fn touched_range(center: i32, half: u32, c: u32) -> (r: (i64, i64))
    requires
        c > 0,
        i32::MIN < center - half,
        center + half < i32::MAX,
    ensures
        forall|k: int| overlaps(k, center as int, half as int, c as int) <==> r.0 <= k <= r.1,
        r.0 == first_touched(center as int, half as int, c as int),
        r.1 == last_touched(center as int, half as int, c as int),
        i32::MIN <= r.0,
        r.1 <= i32::MAX,
{
    let d: i64 = 2 * (c as i64);
    let a: i64 = 2 * (center as i64 - half as i64) - c as i64;
    let b: i64 = 2 * (center as i64 + half as i64) + c as i64;
    let lo = -floor_div64(-a, d);
    let hi = floor_div64(b, d);
    proof {
        assert forall|k: int| overlaps(k, center as int, half as int, c as int) <==> lo <= k <= hi by {
            lemma_floor_bound(k, b as int, d as int);
            lemma_floor_bound(-k, -a as int, d as int);
            assert(k * d == 2 * k * c) by (nonlinear_arith)
                requires
                    d == 2 * c,
            ;
            assert(-k * d == -(k * d)) by (nonlinear_arith);
        }
        lemma_floor_bound(i32::MIN as int, b as int, d as int);
        lemma_floor_bound(-(i32::MIN as int), -a as int, d as int);
        lemma_floor_bound(i32::MAX as int + 1, b as int, d as int);
        assert(b < (i32::MAX as int + 1) * d) by (nonlinear_arith)
            requires
                b == 2 * (center + half) + c,
                center + half < i32::MAX,
                d == 2 * c,
                c >= 1,
        ;
        assert(-(i32::MIN as int) * d >= -a) by (nonlinear_arith)
            requires
                a == 2 * (center - half) - c,
                center - half > i32::MIN,
                d == 2 * c,
                c >= 1,
        ;
    }
    (lo, hi)
}

impl Cell {
/// The grid cells that an axis-aligned box overlaps: the box is centred at (`cx`, `cy`) with
/// half extents `half_w` and `half_h`; cells have side `cell_size` and are centred at
/// multiples of it. Each overlapped cell is listed once, by column from left to right and,
/// within a column, from bottom to top.
pub fn touched_by(cx: i32, cy: i32, half_w: u32, half_h: u32, cell_size: u32) -> (r: Vec<(i32, i32)>)
    requires
        cell_size > 0,
        i32::MIN < cx - half_w,
        cx + half_w < i32::MAX,
        i32::MIN < cy - half_h,
        cy + half_h < i32::MAX,
    ensures
        ({
            let lx = first_touched(cx as int, half_w as int, cell_size as int);
            let hx = last_touched(cx as int, half_w as int, cell_size as int);
            let ly = first_touched(cy as int, half_h as int, cell_size as int);
            let hy = last_touched(cy as int, half_h as int, cell_size as int);
            &&& r@.len() == span(lx, hx) * span(ly, hy)
            &&& forall|i: int|
                0 <= i < r@.len() ==> #[trigger] r@[i].0 == lx + i / span(ly, hy) && r@[i].1 == ly
                    + i % span(ly, hy)
        }),
        r@.no_duplicates(),
        forall|p: (i32, i32)|
            r@.contains(p) <==> overlaps(p.0 as int, cx as int, half_w as int, cell_size as int)
                && overlaps(p.1 as int, cy as int, half_h as int, cell_size as int),
{
    let (lo_x, hi_x) = touched_range(cx, half_w, cell_size);
    let (lo_y, hi_y) = touched_range(cy, half_h, cell_size);
    let ghost ny = span(lo_y as int, hi_y as int);
    let mut touched: Vec<(i32, i32)> = Vec::new();
    let mut ix: i64 = lo_x;
    while ix <= hi_x
        invariant
            lo_x <= ix <= hi_x + 1 || hi_x < lo_x,
            ix == lo_x || lo_x <= ix <= hi_x + 1,
            i32::MIN <= lo_x,
            hi_x <= i32::MAX,
            i32::MIN <= lo_y,
            hi_y <= i32::MAX,
            touched@.no_duplicates(),
            forall|p: (i32, i32)|
                touched@.contains(p) <==> (lo_x <= p.0 < ix && lo_y <= p.1 <= hi_y),
            ny == span(lo_y as int, hi_y as int),
            touched@.len() == (ix - lo_x) * ny,
            forall|j: int|
                0 <= j < touched@.len() ==> #[trigger] touched@[j].0 == lo_x + j / ny && touched@[j].1
                    == lo_y + j % ny,
        decreases hi_x + 1 - ix,
    {
        let mut iy: i64 = lo_y;
        while iy <= hi_y
            invariant
                lo_x <= ix <= hi_x,
                iy == lo_y || lo_y <= iy <= hi_y + 1,
                i32::MIN <= lo_x,
                hi_x <= i32::MAX,
                i32::MIN <= lo_y,
                hi_y <= i32::MAX,
                touched@.no_duplicates(),
                forall|p: (i32, i32)|
                    touched@.contains(p) <==> ((lo_x <= p.0 < ix && lo_y <= p.1 <= hi_y) || (p.0 == ix
                        && lo_y <= p.1 < iy)),
                ny == span(lo_y as int, hi_y as int),
                touched@.len() == (ix - lo_x) * ny + (iy - lo_y),
                forall|j: int|
                    0 <= j < touched@.len() ==> #[trigger] touched@[j].0 == lo_x + j / ny
                        && touched@[j].1 == lo_y + j % ny,
            decreases hi_y + 1 - iy,
        {
            let ghost before = touched@;
            let p = (ix as i32, iy as i32);
            assert(!before.contains(p));
            touched.push(p);
            proof {
                let j = before.len() as int;
                vstd::arithmetic::div_mod::lemma_fundamental_div_mod_converse(
                    j,
                    ny,
                    ix - lo_x,
                    iy - lo_y,
                );
                assert forall|k: int|
                    0 <= k < touched@.len() implies #[trigger] touched@[k].0 == lo_x + k / ny
                    && touched@[k].1 == lo_y + k % ny by {
                    if k < j {
                        assert(touched@[k] == before[k]);
                    }
                }
                assert forall|a: int, b: int|
                    0 <= a < touched@.len() && 0 <= b < touched@.len() && a != b implies touched@[a]
                    != touched@[b] by {
                    if a < before.len() && b < before.len() {
                        assert(touched@[a] == before[a] && touched@[b] == before[b]);
                    } else if a < before.len() {
                        assert(touched@[a] == before[a] && before.contains(before[a]));
                    } else {
                        assert(touched@[b] == before[b] && before.contains(before[b]));
                    }
                }
                assert forall|q: (i32, i32)|
                    touched@.contains(q) <==> ((lo_x <= q.0 < ix && lo_y <= q.1 <= hi_y) || (q.0
                        == ix && lo_y <= q.1 < iy + 1)) by {
                    if touched@.contains(q) && q != p {
                        let j = choose|j: int| 0 <= j < touched@.len() && touched@[j] == q;
                        assert(j < before.len());
                        assert(before.contains(q));
                    }
                    if q == p {
                        assert(touched@[touched@.len() - 1] == p);
                    } else if before.contains(q) {
                        let j = choose|j: int| 0 <= j < before.len() && before[j] == q;
                        assert(touched@[j] == q);
                    }
                }
            }
            iy = iy + 1;
        }
        assert((ix + 1 - lo_x) * ny == (ix - lo_x) * ny + ny) by (nonlinear_arith);
        ix = ix + 1;
    }
    touched
}
}

/// The index of the cell nearest to world coordinate `p` for cells of side `c`.
fn nearest_cell(p: i32, c: u32) -> (r: i32)
    requires
        c > 0,
    ensures
        r == nearest(p as int, c as int),
{
    let d: i64 = 2 * (c as i64);
    let b: i64 = if p >= 0 {
        2 * (p as i64) + c as i64
    } else {
        -2 * (p as i64) + c as i64
    };
    let mag: i64 = if p >= 0 {
        p as i64
    } else {
        -(p as i64)
    };
    let q = b / d;
    proof {
        lemma_floor_bound(mag + 1, b as int, d as int);
        assert(b < (mag + 1) * d) by (nonlinear_arith)
            requires
                d == 2 * c,
                c >= 1,
                mag >= 0,
                b == 2 * mag + c,
        ;
        vstd::arithmetic::div_mod::lemma_div_pos_is_pos(b as int, d as int);
        assert(0 <= q <= mag);
    }
    if p >= 0 {
        q as i32
    } else {
        (-q) as i32
    }
}

impl Grid {
    /// The coordinates of the cell nearest to world point (`x`, `y`).
    pub fn cell_from_world(&self, x: i32, y: i32) -> (r: (i32, i32))
        requires
            self.spec_cell_size() > 0,
        ensures
            r == (
                nearest(x as int, self.spec_cell_size()) as i32,
                nearest(y as int, self.spec_cell_size()) as i32,
            ),
            r.0 == nearest(x as int, self.spec_cell_size()),
            r.1 == nearest(y as int, self.spec_cell_size()),
    {
        let c = self.cell_size();
        (nearest_cell(x, c), nearest_cell(y, c))
    }
}

/// The coordinates of the cell of `grid` nearest to world point (`x`, `y`).
pub fn world_to_cell(x: i32, y: i32, grid: &Grid) -> (r: (i32, i32))
    requires
        grid.spec_cell_size() > 0,
    ensures
        r.0 == nearest(x as int, grid.spec_cell_size()),
        r.1 == nearest(y as int, grid.spec_cell_size()),
{
    grid.cell_from_world(x, y)
}

} // verus!
