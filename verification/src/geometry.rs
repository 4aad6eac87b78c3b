//! Plane geometry of placed rectangles, on a fixed-point grid.
//!
//! Coordinates and lengths are whole numbers of one grid unit; the rest of
//! the crate uses hundredths of a pixel, so that a coordinate rounded to two
//! decimal places is exact. An angle travels with its cosine and sine, both
//! in billionths: they are measured where the angle is read, and everything
//! computed from them here is integer arithmetic with stated rounding.
//!
//! Rotation is about the rectangle's own center, counter-clockwise positive:
//! a point at offset `(ox, oy)` from the center moves to
//! `(ox * cos - oy * sin, ox * sin + oy * cos)`.

use vstd::arithmetic::div_mod::{lemma_div_is_ordered, lemma_div_multiples_vanish_fancy};
use vstd::prelude::*;

verus! {

/// The fixed-point one of cosines and sines.
pub const UNIT: i64 = 1_000_000_000;

/// The largest magnitude of a coordinate: with it, every result fits `i64`.
pub const COORD_LIMIT: i64 = 0x4000_0000_0000_0000;

/// The largest width or height of a rectangle.
pub const EXTENT_LIMIT: i64 = 0x100_0000_0000;

/// An angle in hundredths of a degree, with its cosine and sine in billionths.
#[derive(Clone, Copy, Debug, PartialEq, Eq, Structural)]
pub struct Rotation {
    pub centidegrees: i64,
    pub cos: i64,
    pub sin: i64,
}

/// A point of the grid.
#[derive(Clone, Copy, Debug, PartialEq, Eq, Structural)]
pub struct Corner {
    pub x: i64,
    pub y: i64,
}

/// `n / d` rounded to the nearest whole number, halves away from zero.
pub open spec fn round_div(n: int, d: int) -> int {
    if n >= 0 {
        (n + d / 2) / d
    } else {
        -((-n + d / 2) / d)
    }
}

/// A rounded quotient is no larger in magnitude than a whole bound on the
/// exact one.
pub proof fn lemma_round_div_bound(n: int, d: int, b: int)
    requires
        0 < d,
        0 <= b,
        -(d * b) <= n <= d * b,
    ensures
        -b <= round_div(n, d) <= b,
{
    let m = if n >= 0 {
        n
    } else {
        -n
    };
    assert(0 <= (m + d / 2) / d <= b) by {
        lemma_div_is_ordered(0, m + d / 2, d);
        lemma_div_is_ordered(m + d / 2, d * b + d / 2, d);
        lemma_div_multiples_vanish_fancy(b, d / 2, d);
    }
}

/// The coordinate that a turn gives: `(c2 + a * p - b * q) / 2` in grid
/// units, where `c2` is twice the center's coordinate, `(a, b)` twice the
/// offset from the center, and `p`, `q` are in billionths.
pub open spec fn turned(c2: int, a: int, b: int, p: int, q: int) -> int {
    round_div(c2 * UNIT + a * p - b * q, 2 * UNIT)
}

/// Twice the offset of corner `k` from the center of a `w` by `h`
/// rectangle: top-left, top-right, bottom-right, bottom-left.
pub open spec fn corner_offset(k: int, w: int, h: int) -> (int, int) {
    if k == 0 {
        (-w, -h)
    } else if k == 1 {
        (w, -h)
    } else if k == 2 {
        (w, h)
    } else {
        (-w, h)
    }
}

/// Corner `k` of the rectangle at `(x, y)` of size `w` by `h`, turned about
/// the rectangle's center, each coordinate rounded to the grid.
pub open spec fn rotated_corner(x: int, y: int, w: int, h: int, r: Rotation, k: int) -> (int, int) {
    let (ox, oy) = corner_offset(k, w, h);
    (
        turned(2 * x + w, ox, oy, r.cos as int, r.sin as int),
        turned(2 * y + h, ox, -oy, r.sin as int, r.cos as int),
    )
}

/// Corner `k` of the rectangle as it lies, not turned.
pub open spec fn plain_corner(x: int, y: int, w: int, h: int, k: int) -> (int, int) {
    if k == 0 {
        (x, y)
    } else if k == 1 {
        (x + w, y)
    } else if k == 2 {
        (x + w, y + h)
    } else {
        (x, y + h)
    }
}

impl Rotation {
    /// Cosine and sine are between minus one and one.
    pub open spec fn wf(&self) -> bool {
        &&& -UNIT <= self.cos <= UNIT
        &&& -UNIT <= self.sin <= UNIT
    }

    /// An angle with the cosine and sine measured for it; `None` when either
    /// is out of range.
    pub fn new(centidegrees: i64, cos: i64, sin: i64) -> (r: Option<Rotation>)
        ensures
            r == if -UNIT <= cos <= UNIT && -UNIT <= sin <= UNIT {
                Some(Rotation { centidegrees, cos, sin })
            } else {
                None
            },
    {
        if -UNIT <= cos && cos <= UNIT && -UNIT <= sin && sin <= UNIT {
            Some(Rotation { centidegrees, cos, sin })
        } else {
            None
        }
    }

    /// Whether cosine and sine are between minus one and one.
    pub fn is_wf(&self) -> (ok: bool)
        ensures
            ok == self.wf(),
    {
        -UNIT <= self.cos && self.cos <= UNIT && -UNIT <= self.sin && self.sin <= UNIT
    }

    /// The rotation by `n` quarter turns, whose cosine and sine are exact.
    pub open spec fn spec_quarter_turns(n: int) -> Rotation {
        let q = n % 4;
        Rotation {
            centidegrees: (9000 * n) as i64,
            cos: if q == 0 {
                UNIT
            } else if q == 2 {
                (-UNIT) as i64
            } else {
                0
            },
            sin: if q == 1 {
                UNIT
            } else if q == 3 {
                (-UNIT) as i64
            } else {
                0
            },
        }
    }

    /// The rotation by `n` quarter turns.
    pub fn quarter_turns(n: i32) -> (r: Rotation)
        ensures
            r == Rotation::spec_quarter_turns(n as int),
            r.wf(),
            r.centidegrees == 9000 * n,
    {
        let q: i32 = ((n % 4) + 4) % 4;
        let (cos, sin): (i64, i64) = if q == 0 {
            (UNIT, 0)
        } else if q == 1 {
            (0, UNIT)
        } else if q == 2 {
            (-UNIT, 0)
        } else {
            (0, -UNIT)
        };
        Rotation { centidegrees: 9000 * (n as i64), cos, sin }
    }
}

/// Whether a rectangle is within the limits for which its turned corners and
/// bounding box fit the grid.
pub open spec fn in_limits(x: int, y: int, w: int, h: int) -> bool {
    &&& -COORD_LIMIT <= x <= COORD_LIMIT
    &&& -COORD_LIMIT <= y <= COORD_LIMIT
    &&& 0 <= w <= EXTENT_LIMIT
    &&& 0 <= h <= EXTENT_LIMIT
}

/// One coordinate of a turned corner.
fn turn(c2: i128, a: i64, b: i64, p: i64, q: i64) -> (r: i64)
    requires
        -2 * COORD_LIMIT <= c2 <= 2 * COORD_LIMIT + EXTENT_LIMIT,
        -EXTENT_LIMIT <= a <= EXTENT_LIMIT,
        -EXTENT_LIMIT <= b <= EXTENT_LIMIT,
        -UNIT <= p <= UNIT,
        -UNIT <= q <= UNIT,
    ensures
        r == turned(c2 as int, a as int, b as int, p as int, q as int),
{
    let ghost bound: int = COORD_LIMIT + 2 * EXTENT_LIMIT;
    proof {
        let (ci, ai, bi, pi, qi, u, e) = (
            c2 as int,
            a as int,
            b as int,
            p as int,
            q as int,
            UNIT as int,
            EXTENT_LIMIT as int,
        );
        assert(-(e * u) <= ai * pi <= e * u) by (nonlinear_arith)
            requires
                -e <= ai <= e,
                -u <= pi <= u,
                0 <= e,
                0 <= u,
        ;
        assert(-(e * u) <= bi * qi <= e * u) by (nonlinear_arith)
            requires
                -e <= bi <= e,
                -u <= qi <= u,
                0 <= e,
                0 <= u,
        ;
        assert(-((2 * COORD_LIMIT) * u) <= ci * u <= (2 * COORD_LIMIT + e) * u) by (nonlinear_arith)
            requires
                -2 * COORD_LIMIT <= ci <= 2 * COORD_LIMIT + e,
                0 <= u,
        ;
        assert((2 * u) * bound == (2 * COORD_LIMIT + e) * u + 3 * (e * u)) by (nonlinear_arith)
            requires
                bound == COORD_LIMIT + 2 * e,
        ;
        lemma_round_div_bound(ci * u + ai * pi - bi * qi, 2 * u, bound);
    }
    let n: i128 = c2 * (UNIT as i128) + (a as i128) * (p as i128) - (b as i128) * (q as i128);
    let d: i128 = 2 * (UNIT as i128);
    let r: i128 = if n >= 0 {
        (n + d / 2) / d
    } else {
        -((-n + d / 2) / d)
    };
    r as i64
}

/// The four corners of the rectangle at `(x, y)` of size `w` by `h`, turned
/// about its center: top-left first, then top-right, bottom-right and
/// bottom-left, each where the turn takes it.
pub fn rotated_corners(x: i64, y: i64, w: i64, h: i64, rotation: &Rotation) -> (corners: [Corner; 4])
    requires
        in_limits(x as int, y as int, w as int, h as int),
        rotation.wf(),
    ensures
        forall|k: int|
            0 <= k < 4 ==> (#[trigger] corners[k]).x == rotated_corner(
                x as int,
                y as int,
                w as int,
                h as int,
                *rotation,
                k,
            ).0 && corners[k].y == rotated_corner(
                x as int,
                y as int,
                w as int,
                h as int,
                *rotation,
                k,
            ).1,
{
    let cx2: i128 = 2 * (x as i128) + w as i128;
    let cy2: i128 = 2 * (y as i128) + h as i128;
    let (c, s) = (rotation.cos, rotation.sin);
    [
        Corner { x: turn(cx2, -w, -h, c, s), y: turn(cy2, -w, h, s, c) },
        Corner { x: turn(cx2, w, -h, c, s), y: turn(cy2, w, h, s, c) },
        Corner { x: turn(cx2, w, h, c, s), y: turn(cy2, w, -h, s, c) },
        Corner { x: turn(cx2, -w, h, c, s), y: turn(cy2, -w, -h, s, c) },
    ]
}

/// An axis-aligned rectangle: top-left corner, width and height.
#[derive(Clone, Copy, Debug, PartialEq, Eq, Structural)]
pub struct Rect {
    pub x: i64,
    pub y: i64,
    pub w: i64,
    pub h: i64,
}

/// The larger of two numbers.
pub open spec fn max(a: int, b: int) -> int {
    if a >= b {
        a
    } else {
        b
    }
}

/// The smaller of two numbers.
pub open spec fn min(a: int, b: int) -> int {
    if a <= b {
        a
    } else {
        b
    }
}

/// How far two stretches of a line overlap: `[a, a + m)` and `[b, b + n)`.
pub open spec fn overlap_length(a: int, m: int, b: int, n: int) -> int {
    min(a + m, b + n) - max(a, b)
}

/// The magnitude of a number.
pub open spec fn abs(a: int) -> int {
    if a >= 0 {
        a
    } else {
        -a
    }
}

/// The length of the shadow that a `w` by `h` rectangle casts on an axis
/// when it is turned: `w * |p| + h * |q|`, rounded to the grid, where `p` and
/// `q` are the cosine and sine for the horizontal axis and the sine and
/// cosine for the vertical one.
pub open spec fn shadow(w: int, h: int, p: int, q: int) -> int {
    round_div(w * abs(p) + h * abs(q), UNIT as int)
}

impl Rect {
    /// The area: width times height.
    pub open spec fn spec_area(self) -> int {
        self.w * self.h
    }

    /// The area that two rectangles have in common; zero when they do not
    /// overlap.
    pub open spec fn spec_overlap(self, other: Rect) -> int {
        let dx = overlap_length(self.x as int, self.w as int, other.x as int, other.w as int);
        let dy = overlap_length(self.y as int, self.h as int, other.y as int, other.h as int);
        if dx > 0 && dy > 0 {
            dx * dy
        } else {
            0
        }
    }

    /// The axis-aligned bounding box of the rectangle at `(x, y)` of size
    /// `w` by `h` after a turn about its center. A turn of less than one
    /// degree leaves the rectangle as it is. The box of any other turn is as
    /// wide and as high as the turned rectangle's shadows, and keeps the
    /// center, to the half unit that the grid cannot hold.
    pub open spec fn spec_aabb_with_rotation(x: int, y: int, w: int, h: int, r: Rotation) -> Rect {
        if -100 < r.centidegrees < 100 {
            Rect { x: x as i64, y: y as i64, w: w as i64, h: h as i64 }
        } else {
            let new_w = shadow(w, h, r.cos as int, r.sin as int);
            let new_h = shadow(w, h, r.sin as int, r.cos as int);
            Rect {
                x: ((2 * x + w - new_w) / 2) as i64,
                y: ((2 * y + h - new_h) / 2) as i64,
                w: new_w as i64,
                h: new_h as i64,
            }
        }
    }

    /// The area of the rectangle.
    pub fn area(&self) -> (a: i128)
        ensures
            a == self.spec_area(),
    {
        assert(-0x4000_0000_0000_0000_0000_0000_0000_0000 <= self.w * self.h
            <= 0x4000_0000_0000_0000_0000_0000_0000_0000) by (nonlinear_arith)
            requires
                -0x8000_0000_0000_0000 <= self.w <= 0x7fff_ffff_ffff_ffff,
                -0x8000_0000_0000_0000 <= self.h <= 0x7fff_ffff_ffff_ffff,
        ;
        (self.w as i128) * (self.h as i128)
    }

    /// The area that this rectangle and `other` have in common.
    pub fn overlap(&self, other: &Rect) -> (a: i128)
        ensures
            a == self.spec_overlap(*other),
            a >= 0,
    {
        let x1: i128 = if self.x >= other.x {
            self.x as i128
        } else {
            other.x as i128
        };
        let y1: i128 = if self.y >= other.y {
            self.y as i128
        } else {
            other.y as i128
        };
        let (ax2, bx2): (i128, i128) = (
            self.x as i128 + self.w as i128,
            other.x as i128 + other.w as i128,
        );
        let (ay2, by2): (i128, i128) = (
            self.y as i128 + self.h as i128,
            other.y as i128 + other.h as i128,
        );
        let x2: i128 = if ax2 <= bx2 {
            ax2
        } else {
            bx2
        };
        let y2: i128 = if ay2 <= by2 {
            ay2
        } else {
            by2
        };
        if x2 > x1 && y2 > y1 {
            let (dx, dy): (i128, i128) = (x2 - x1, y2 - y1);
            assert(0 < dx * dy <= 0x8000_0000_0000_0000 * 0x8000_0000_0000_0000) by (nonlinear_arith)
                requires
                    0 < dx <= 0x8000_0000_0000_0000,
                    0 < dy <= 0x8000_0000_0000_0000,
            ;
            dx * dy
        } else {
            0
        }
    }

    /// The axis-aligned bounding box of a rectangle turned about its center.
    /// A turn of less than one degree gives the rectangle back, whatever it
    /// is; for any other turn the rectangle has to be within the limits of
    /// the grid.
    pub fn aabb_with_rotation(x: i64, y: i64, w: i64, h: i64, rotation: &Rotation) -> (b: Rect)
        requires
            -100 < rotation.centidegrees < 100 || (in_limits(x as int, y as int, w as int, h as int)
                && rotation.wf()),
        ensures
            b == Rect::spec_aabb_with_rotation(x as int, y as int, w as int, h as int, *rotation),
            -100 < rotation.centidegrees < 100 ==> b == (Rect { x, y, w, h }),
    {
        if -100 < rotation.centidegrees && rotation.centidegrees < 100 {
            return Rect { x, y, w, h };
        }
        let new_w = cast_shadow(w, h, rotation.cos, rotation.sin);
        let new_h = cast_shadow(w, h, rotation.sin, rotation.cos);
        Rect { x: recenter(x, w, new_w), y: recenter(y, h, new_h), w: new_w, h: new_h }
    }
}

/// The shadow of a turned rectangle on one axis.
fn cast_shadow(w: i64, h: i64, p: i64, q: i64) -> (len: i64)
    requires
        0 <= w <= EXTENT_LIMIT,
        0 <= h <= EXTENT_LIMIT,
        -UNIT <= p <= UNIT,
        -UNIT <= q <= UNIT,
    ensures
        len == shadow(w as int, h as int, p as int, q as int),
        0 <= len <= w + h,
{
    let ap: i128 = if p >= 0 {
        p as i128
    } else {
        -(p as i128)
    };
    let aq: i128 = if q >= 0 {
        q as i128
    } else {
        -(q as i128)
    };
    proof {
        let (wi, hi, pi, qi, u) = (w as int, h as int, ap as int, aq as int, UNIT as int);
        assert(0 <= wi * pi <= wi * u) by (nonlinear_arith)
            requires
                0 <= wi,
                0 <= pi <= u,
        ;
        assert(0 <= hi * qi <= hi * u) by (nonlinear_arith)
            requires
                0 <= hi,
                0 <= qi <= u,
        ;
        assert(wi * u <= EXTENT_LIMIT * u) by (nonlinear_arith)
            requires
                0 <= wi <= EXTENT_LIMIT,
                0 <= u,
        ;
        assert(hi * u <= EXTENT_LIMIT * u) by (nonlinear_arith)
            requires
                0 <= hi <= EXTENT_LIMIT,
                0 <= u,
        ;
        assert(u * (wi + hi) == wi * u + hi * u) by (nonlinear_arith);
        lemma_round_div_bound(wi * pi + hi * qi, u, wi + hi);
    }
    let n: i128 = (w as i128) * ap + (h as i128) * aq;
    let d: i128 = UNIT as i128;
    ((n + d / 2) / d) as i64
}

/// The near edge of a box of length `new_len` that keeps the center of a
/// stretch of length `len` starting at `start`.
fn recenter(start: i64, len: i64, new_len: i64) -> (edge: i64)
    requires
        -COORD_LIMIT <= start <= COORD_LIMIT,
        0 <= len <= EXTENT_LIMIT,
        0 <= new_len <= 2 * EXTENT_LIMIT,
    ensures
        edge == (2 * start + len - new_len) / 2,
{
    let n: i128 = 2 * (start as i128) + len as i128 - new_len as i128;
    let q: i128 = n / 2;
    if n < 0 && n % 2 != 0 {
        (q - 1) as i64
    } else {
        q as i64
    }
}

/// A whole multiple divides back without rounding.
pub proof fn lemma_round_div_exact(q: int, d: int)
    requires
        0 < d,
    ensures
        round_div(d * q, d) == q,
{
    if q >= 0 {
        assert(d * q >= 0) by (nonlinear_arith)
            requires
                q >= 0,
                d > 0,
        ;
        lemma_div_multiples_vanish_fancy(q, d / 2, d);
    } else {
        assert(d * q < 0) by (nonlinear_arith)
            requires
                q < 0,
                d > 0,
        ;
        assert(-(d * q) == d * (-q)) by (nonlinear_arith);
        lemma_div_multiples_vanish_fancy(-q, d / 2, d);
    }
}

/// A turn whose cosine is one and whose sine is zero moves no corner: the
/// turn by no angle at all, and every whole number of full turns.
pub proof fn lemma_no_turn_keeps_corners(x: int, y: int, w: int, h: int, r: Rotation, k: int)
    requires
        r.cos == UNIT,
        r.sin == 0,
        0 <= k < 4,
    ensures
        rotated_corner(x, y, w, h, r, k) == plain_corner(x, y, w, h, k),
{
    let (ox, oy) = corner_offset(k, w, h);
    let u = UNIT as int;
    let px = plain_corner(x, y, w, h, k).0;
    let py = plain_corner(x, y, w, h, k).1;
    assert(2 * px == 2 * x + w + ox && 2 * py == 2 * y + h + oy);
    assert((2 * x + w) * u + ox * u - oy * 0 == (2 * u) * px) by (nonlinear_arith)
        requires
            2 * px == 2 * x + w + ox,
    ;
    assert((2 * y + h) * u + ox * 0 - (-oy) * u == (2 * u) * py) by (nonlinear_arith)
        requires
            2 * py == 2 * y + h + oy,
    ;
    lemma_round_div_exact(px, 2 * u);
    lemma_round_div_exact(py, 2 * u);
}

/// Turning by no angle and turning by whole turns give the same corners as
/// no turn at all.
pub proof fn lemma_full_turns_keep_corners(x: int, y: int, w: int, h: int, turns: int, k: int)
    requires
        0 <= k < 4,
    ensures
        rotated_corner(x, y, w, h, Rotation::spec_quarter_turns(4 * turns), k) == plain_corner(
            x,
            y,
            w,
            h,
            k,
        ),
        rotated_corner(x, y, w, h, Rotation::spec_quarter_turns(4 * turns), k) == rotated_corner(
            x,
            y,
            w,
            h,
            Rotation::spec_quarter_turns(0),
            k,
        ),
{
    assert((4 * turns) % 4 == 0) by (nonlinear_arith);
    lemma_no_turn_keeps_corners(x, y, w, h, Rotation::spec_quarter_turns(4 * turns), k);
    lemma_no_turn_keeps_corners(x, y, w, h, Rotation::spec_quarter_turns(0), k);
}

/// A turn by no angle, or by whole turns, leaves the bounding box as the
/// rectangle is, wherever the rectangle lies and whatever its size.
pub proof fn lemma_no_turn_keeps_box(x: i64, y: i64, w: i64, h: i64, r: Rotation)
    requires
        r.centidegrees == 0 || (r.cos == UNIT && r.sin == 0),
    ensures
        Rect::spec_aabb_with_rotation(x as int, y as int, w as int, h as int, r) == (Rect {
            x,
            y,
            w,
            h,
        }),
{
    if !(-100 < r.centidegrees < 100) {
        let u = UNIT as int;
        assert(w * u + h * 0 == u * w) by (nonlinear_arith);
        assert(w * 0 + h * u == u * h) by (nonlinear_arith);
        lemma_round_div_exact(w as int, u);
        lemma_round_div_exact(h as int, u);
    }
}

/// A quarter turn of a square about its center maps it onto itself: each
/// corner lands where the next corner was.
pub proof fn lemma_quarter_turn_of_square(x: int, y: int, side: int, r: Rotation, k: int)
    requires
        r.cos == 0,
        r.sin == UNIT,
        0 <= k < 4,
    ensures
        rotated_corner(x, y, side, side, r, k) == plain_corner(x, y, side, side, (k + 1) % 4),
{
    let (ox, oy) = corner_offset(k, side, side);
    let u = UNIT as int;
    let px = plain_corner(x, y, side, side, (k + 1) % 4).0;
    let py = plain_corner(x, y, side, side, (k + 1) % 4).1;
    assert(2 * px == 2 * x + side - oy && 2 * py == 2 * y + side + ox);
    assert((2 * x + side) * u + ox * 0 - oy * u == (2 * u) * px) by (nonlinear_arith)
        requires
            2 * px == 2 * x + side - oy,
    ;
    assert((2 * y + side) * u + ox * u - (-oy) * 0 == (2 * u) * py) by (nonlinear_arith)
        requires
            2 * py == 2 * y + side + ox,
    ;
    lemma_round_div_exact(px, 2 * u);
    lemma_round_div_exact(py, 2 * u);
}

/// A quotient that is within a half of a whole number rounds to that number
/// or to one of its neighbours.
pub proof fn lemma_round_div_near(n: int, d: int, q: int)
    requires
        0 < d,
        d * q - d / 2 <= n <= d * q + d / 2,
    ensures
        q - 1 <= round_div(n, d) <= q + 1,
{
    assert(d * (q + 1) == d * q + d) by (nonlinear_arith);
    assert(d * (-q) == -(d * q)) by (nonlinear_arith);
    assert(d * (-q + 1) == -(d * q) + d) by (nonlinear_arith);
    if n >= 0 {
        lemma_div_is_ordered(d * q, n + d / 2, d);
        lemma_div_is_ordered(n + d / 2, d * (q + 1), d);
        lemma_div_multiples_vanish_fancy(q, 0, d);
        lemma_div_multiples_vanish_fancy(q + 1, 0, d);
    } else {
        lemma_div_is_ordered(d * (-q), -n + d / 2, d);
        lemma_div_is_ordered(-n + d / 2, d * (-q + 1), d);
        lemma_div_multiples_vanish_fancy(-q, 0, d);
        lemma_div_multiples_vanish_fancy(-q + 1, 0, d);
    }
}

/// The product of two bounded numbers is bounded by the product of the
/// bounds.
proof fn lemma_product_bound(a: int, b: int, m: int, e: int)
    requires
        -m <= a <= m,
        -e <= b <= e,
    ensures
        -(m * e) <= a * b <= m * e,
{
    assert(-(m * e) <= a * b <= m * e) by (nonlinear_arith)
        requires
            -m <= a <= m,
            -e <= b <= e,
    ;
}

/// A turn that is a full turn to within the error of measuring it moves no
/// corner by more than one unit of the grid: if cosine and sine are within
/// `e` of one and of zero, and the rectangle's width and height together,
/// times `e`, stay within the fixed-point one.
pub proof fn lemma_nearly_no_turn(x: int, y: int, w: int, h: int, r: Rotation, e: int, k: int)
    requires
        0 <= w,
        0 <= h,
        0 <= k < 4,
        UNIT - e <= r.cos <= UNIT + e,
        -e <= r.sin <= e,
        (w + h) * e <= UNIT,
    ensures
        plain_corner(x, y, w, h, k).0 - 1 <= rotated_corner(x, y, w, h, r, k).0 <= plain_corner(
            x,
            y,
            w,
            h,
            k,
        ).0 + 1,
        plain_corner(x, y, w, h, k).1 - 1 <= rotated_corner(x, y, w, h, r, k).1 <= plain_corner(
            x,
            y,
            w,
            h,
            k,
        ).1 + 1,
{
    let (ox, oy) = corner_offset(k, w, h);
    let u = UNIT as int;
    let (c, s) = (r.cos as int, r.sin as int);
    let px = plain_corner(x, y, w, h, k).0;
    let py = plain_corner(x, y, w, h, k).1;
    assert(2 * px == 2 * x + w + ox && 2 * py == 2 * y + h + oy);
    lemma_product_bound(ox, c - u, w, e);
    lemma_product_bound(oy, s, h, e);
    lemma_product_bound(ox, s, w, e);
    lemma_product_bound(oy, c - u, h, e);
    assert((w + h) * e == w * e + h * e) by (nonlinear_arith);
    assert((2 * x + w) * u + ox * c - oy * s == (2 * u) * px + ox * (c - u) - oy * s) by (nonlinear_arith)
        requires
            2 * px == 2 * x + w + ox,
    ;
    assert((2 * y + h) * u + ox * s - (-oy) * c == (2 * u) * py + ox * s + oy * (c - u)) by (nonlinear_arith)
        requires
            2 * py == 2 * y + h + oy,
    ;
    lemma_round_div_near((2 * x + w) * u + ox * c - oy * s, 2 * u, px);
    lemma_round_div_near((2 * y + h) * u + ox * s - (-oy) * c, 2 * u, py);
}

/// A turn of a square that is a quarter turn to within the error of
/// measuring it takes each corner to within one unit of where the next
/// corner was.
pub proof fn lemma_nearly_quarter_turn_of_square(
    x: int,
    y: int,
    side: int,
    r: Rotation,
    e: int,
    k: int,
)
    requires
        0 <= side,
        0 <= k < 4,
        -e <= r.cos <= e,
        UNIT - e <= r.sin <= UNIT + e,
        2 * side * e <= UNIT,
    ensures
        plain_corner(x, y, side, side, (k + 1) % 4).0 - 1 <= rotated_corner(
            x,
            y,
            side,
            side,
            r,
            k,
        ).0 <= plain_corner(x, y, side, side, (k + 1) % 4).0 + 1,
        plain_corner(x, y, side, side, (k + 1) % 4).1 - 1 <= rotated_corner(
            x,
            y,
            side,
            side,
            r,
            k,
        ).1 <= plain_corner(x, y, side, side, (k + 1) % 4).1 + 1,
{
    let (ox, oy) = corner_offset(k, side, side);
    let u = UNIT as int;
    let (c, s) = (r.cos as int, r.sin as int);
    let px = plain_corner(x, y, side, side, (k + 1) % 4).0;
    let py = plain_corner(x, y, side, side, (k + 1) % 4).1;
    assert(2 * px == 2 * x + side - oy && 2 * py == 2 * y + side + ox);
    lemma_product_bound(ox, c, side, e);
    lemma_product_bound(oy, s - u, side, e);
    lemma_product_bound(ox, s - u, side, e);
    lemma_product_bound(oy, c, side, e);
    assert(2 * side * e == side * e + side * e) by (nonlinear_arith);
    assert((2 * x + side) * u + ox * c - oy * s == (2 * u) * px + ox * c - oy * (s - u)) by (nonlinear_arith)
        requires
            2 * px == 2 * x + side - oy,
    ;
    assert((2 * y + side) * u + ox * s - (-oy) * c == (2 * u) * py + ox * (s - u) + oy * c) by (nonlinear_arith)
        requires
            2 * py == 2 * y + side + ox,
    ;
    lemma_round_div_near((2 * x + side) * u + ox * c - oy * s, 2 * u, px);
    lemma_round_div_near((2 * y + side) * u + ox * s - (-oy) * c, 2 * u, py);
}

} // verus!
