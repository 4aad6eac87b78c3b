//! Opaque footprints: which canvas pixels a placed raster would paint.
//!
//! A canvas pixel is named by its linear index, `row * canvas_width + column`.
//! The footprint of a raster drawn at an offset is the set of indices of the
//! canvas pixels that lie under a pixel of the raster with alpha above zero.
//! Pixels of the raster that fall outside the canvas have no index and are
//! left out.

use crate::raster::{Raster, RasterView};
use vstd::arithmetic::div_mod::{lemma_fundamental_div_mod, lemma_fundamental_div_mod_converse};
use vstd::prelude::*;

verus! {

/// Whether the canvas pixel `idx` lies under a pixel of `raster` that is not
/// fully transparent, when the raster's top-left corner is drawn at
/// `(dx, dy)` on a canvas of `cw` by `ch` pixels.
pub open spec fn opaque_at(raster: RasterView, dx: int, dy: int, cw: nat, ch: nat, idx: int) -> bool {
    &&& 0 <= idx < cw * ch
    &&& raster.contains(idx % (cw as int) - dx, idx / (cw as int) - dy)
    &&& raster.at(idx % (cw as int) - dx, idx / (cw as int) - dy).a > 0
}

/// Whether `fp` lists, in increasing order and each once, exactly the canvas
/// pixels that the raster paints.
pub open spec fn is_footprint(
    fp: Seq<usize>,
    raster: RasterView,
    dx: int,
    dy: int,
    cw: nat,
    ch: nat,
) -> bool {
    &&& forall|a: int, b: int| 0 <= a < b < fp.len() ==> fp[a] < fp[b]
    &&& forall|k: int| 0 <= k < fp.len() ==> opaque_at(raster, dx, dy, cw, ch, #[trigger] fp[k] as int)
    &&& forall|idx: int| #[trigger]
        opaque_at(raster, dx, dy, cw, ch, idx) ==> exists|k: int|
            0 <= k < fp.len() && #[trigger] fp[k] == idx
}

/// The index of the canvas pixel in column `px` of row `py` has that row and
/// column again as its quotient and remainder by the canvas width.
pub proof fn lemma_index_of_coords(cw: int, ch: int, px: int, py: int)
    requires
        0 <= px < cw,
        0 <= py < ch,
    ensures
        0 <= py * cw + px < cw * ch,
        (py * cw + px) / cw == py,
        (py * cw + px) % cw == px,
{
    lemma_fundamental_div_mod_converse(py * cw + px, cw, py, px);
    assert(py * cw + px < cw * ch) by (nonlinear_arith)
        requires
            0 <= px < cw,
            0 <= py < ch,
    ;
    assert(0 <= py * cw) by (nonlinear_arith)
        requires
            0 <= py,
            0 <= cw,
    ;
}

/// A canvas index splits into a row and a column inside the canvas.
pub proof fn lemma_coords_of_index(cw: int, ch: int, idx: int)
    requires
        0 <= cw,
        0 <= ch,
        0 <= idx < cw * ch,
    ensures
        0 < cw,
        0 <= idx % cw < cw,
        0 <= idx / cw < ch,
        idx == (idx / cw) * cw + idx % cw,
{
    assert(0 < cw && 0 < ch) by (nonlinear_arith)
        requires
            0 <= cw,
            0 <= ch,
            0 <= idx < cw * ch,
    ;
    lemma_fundamental_div_mod(idx, cw);
    let (q, r) = (idx / cw, idx % cw);
    assert(cw * q == q * cw) by (nonlinear_arith);
    assert(0 <= q < ch) by (nonlinear_arith)
        requires
            idx == q * cw + r,
            0 <= r < cw,
            0 <= idx < cw * ch,
    ;
}

/// Row-major order: an earlier row, or an earlier column of the same row,
/// has the smaller index.
pub proof fn lemma_index_order(cw: int, r1: int, c1: int, r2: int, c2: int)
    requires
        0 <= c1 < cw,
        0 <= c2 < cw,
        r1 < r2 || (r1 == r2 && c1 < c2),
    ensures
        r1 * cw + c1 < r2 * cw + c2,
{
    if r1 < r2 {
        assert(r1 * cw + cw <= r2 * cw) by (nonlinear_arith)
            requires
                r1 + 1 <= r2,
                0 < cw,
        ;
    }
}

/// Two strictly increasing sequences that agree up to `n` in what they hold
/// agree there in every position.
proof fn lemma_increasing_prefix(a: Seq<usize>, b: Seq<usize>, n: int)
    requires
        forall|i: int, j: int| 0 <= i < j < a.len() ==> a[i] < a[j],
        forall|i: int, j: int| 0 <= i < j < b.len() ==> b[i] < b[j],
        forall|i: int| 0 <= i < a.len() ==> b.contains(#[trigger] a[i]),
        forall|i: int| 0 <= i < b.len() ==> a.contains(#[trigger] b[i]),
        0 <= n <= a.len(),
        n <= b.len(),
    ensures
        forall|i: int| 0 <= i < n ==> a[i] == b[i],
    decreases n,
{
    if n > 0 {
        lemma_increasing_prefix(a, b, n - 1);
        let i = n - 1;
        assert(b.contains(a[i]));
        let k = choose|k: int| 0 <= k < b.len() && b[k] == a[i];
        if k < i {
            assert(a[k] == b[k]);
        }
        assert(a.contains(b[i]));
        let m = choose|m: int| 0 <= m < a.len() && a[m] == b[i];
        if m < i {
            assert(a[m] == b[m]);
        }
    }
}

/// A placed raster has one footprint.
pub proof fn lemma_footprint_unique(
    a: Seq<usize>,
    b: Seq<usize>,
    raster: RasterView,
    dx: int,
    dy: int,
    cw: nat,
    ch: nat,
)
    requires
        is_footprint(a, raster, dx, dy, cw, ch),
        is_footprint(b, raster, dx, dy, cw, ch),
    ensures
        a == b,
{
    assert forall|i: int| 0 <= i < a.len() implies b.contains(#[trigger] a[i]) by {
        assert(opaque_at(raster, dx, dy, cw, ch, a[i] as int));
        let k = choose|k: int| 0 <= k < b.len() && #[trigger] b[k] == a[i] as int;
        assert(b[k] == a[i]);
    }
    assert forall|i: int| 0 <= i < b.len() implies a.contains(#[trigger] b[i]) by {
        assert(opaque_at(raster, dx, dy, cw, ch, b[i] as int));
        let k = choose|k: int| 0 <= k < a.len() && #[trigger] a[k] == b[i] as int;
        assert(a[k] == b[i]);
    }
    let n = if a.len() <= b.len() {
        a.len() as int
    } else {
        b.len() as int
    };
    lemma_increasing_prefix(a, b, n);
    if a.len() < b.len() {
        assert(a.contains(b[n]));
        let m = choose|m: int| 0 <= m < a.len() && a[m] == b[n];
        assert(b[m] == a[m]);
    }
    if b.len() < a.len() {
        assert(b.contains(a[n]));
        let m = choose|m: int| 0 <= m < b.len() && b[m] == a[n];
        assert(a[m] == b[m]);
    }
    assert(a =~= b);
}

/// A raster that lies wholly beside, above or below the canvas paints none
/// of its pixels.
pub proof fn lemma_off_canvas_paints_nothing(
    fp: Seq<usize>,
    raster: RasterView,
    dx: int,
    dy: int,
    cw: nat,
    ch: nat,
)
    requires
        is_footprint(fp, raster, dx, dy, cw, ch),
        dx + raster.width <= 0 || dx >= cw || dy + raster.height() <= 0 || dy >= ch,
    ensures
        fp.len() == 0,
{
    if fp.len() > 0 {
        assert(opaque_at(raster, dx, dy, cw, ch, fp[0] as int));
        lemma_coords_of_index(cw as int, ch as int, fp[0] as int);
    }
}

/// Whether the scan of the raster, row by row, has passed the canvas pixel
/// `idx` when it stands before column `x` of row `y`, and found it painted.
spec fn scanned(
    raster: RasterView,
    dx: int,
    dy: int,
    cw: nat,
    ch: nat,
    idx: int,
    x: int,
    y: int,
) -> bool {
    &&& opaque_at(raster, dx, dy, cw, ch, idx)
    &&& (idx / (cw as int) - dy < y || (idx / (cw as int) - dy == y && idx % (cw as int) - dx < x))
}

/// What holds of the indices gathered when the scan stands before column
/// `x` of row `y`: they are, in increasing order, the painted pixels passed.
spec fn scan_invariant(
    fp: Seq<usize>,
    raster: RasterView,
    dx: int,
    dy: int,
    cw: nat,
    ch: nat,
    x: int,
    y: int,
) -> bool {
    &&& forall|a: int, b: int| 0 <= a < b < fp.len() ==> fp[a] < fp[b]
    &&& forall|k: int| 0 <= k < fp.len() ==> scanned(raster, dx, dy, cw, ch, #[trigger] fp[k] as int, x, y)
    &&& forall|idx: int| #[trigger]
        scanned(raster, dx, dy, cw, ch, idx, x, y) ==> exists|k: int|
            0 <= k < fp.len() && #[trigger] fp[k] == idx
}

/// The scan steps over a raster pixel that paints nothing: it is transparent
/// or falls outside the canvas.
proof fn lemma_scan_skip(
    fp: Seq<usize>,
    raster: RasterView,
    dx: int,
    dy: int,
    cw: nat,
    ch: nat,
    x: int,
    y: int,
)
    requires
        scan_invariant(fp, raster, dx, dy, cw, ch, x, y),
        raster.contains(x, y),
        !(0 <= x + dx < cw && 0 <= y + dy < ch) || raster.at(x, y).a == 0,
    ensures
        scan_invariant(fp, raster, dx, dy, cw, ch, x + 1, y),
{
    assert forall|idx: int| #[trigger] scanned(raster, dx, dy, cw, ch, idx, x + 1, y) implies exists|
        k: int,
    |
        0 <= k < fp.len() && #[trigger] fp[k] == idx by {
        lemma_coords_of_index(cw as int, ch as int, idx);
        assert(scanned(raster, dx, dy, cw, ch, idx, x, y));
    }
    assert forall|k: int| 0 <= k < fp.len() implies scanned(
        raster,
        dx,
        dy,
        cw,
        ch,
        #[trigger] fp[k] as int,
        x + 1,
        y,
    ) by {
        assert(scanned(raster, dx, dy, cw, ch, fp[k] as int, x, y));
    }
}

/// The scan finds a painted pixel inside the canvas and appends its index.
proof fn lemma_scan_take(
    fp: Seq<usize>,
    raster: RasterView,
    dx: int,
    dy: int,
    cw: nat,
    ch: nat,
    x: int,
    y: int,
    idx: usize,
)
    requires
        scan_invariant(fp, raster, dx, dy, cw, ch, x, y),
        raster.contains(x, y),
        0 <= x + dx < cw,
        0 <= y + dy < ch,
        raster.at(x, y).a > 0,
        idx == (y + dy) * cw + (x + dx),
    ensures
        scan_invariant(fp.push(idx), raster, dx, dy, cw, ch, x + 1, y),
{
    let next = fp.push(idx);
    let w = cw as int;
    lemma_index_of_coords(w, ch as int, x + dx, y + dy);
    assert(scanned(raster, dx, dy, cw, ch, idx as int, x + 1, y));
    assert forall|k: int| 0 <= k < next.len() implies scanned(
        raster,
        dx,
        dy,
        cw,
        ch,
        #[trigger] next[k] as int,
        x + 1,
        y,
    ) by {
        if k < fp.len() {
            assert(scanned(raster, dx, dy, cw, ch, fp[k] as int, x, y));
        }
    }
    assert forall|a: int, b: int| 0 <= a < b < next.len() implies next[a] < next[b] by {
        if b == fp.len() {
            let e = fp[a] as int;
            assert(scanned(raster, dx, dy, cw, ch, e, x, y));
            lemma_coords_of_index(w, ch as int, e);
            lemma_index_order(w, e / w, e % w, y + dy, x + dx);
        }
    }
    assert forall|i: int| #[trigger] scanned(raster, dx, dy, cw, ch, i, x + 1, y) implies exists|
        k: int,
    |
        0 <= k < next.len() && #[trigger] next[k] == i by {
        lemma_coords_of_index(w, ch as int, i);
        if scanned(raster, dx, dy, cw, ch, i, x, y) {
            let k = choose|k: int| 0 <= k < fp.len() && #[trigger] fp[k] == i;
            assert(next[k] == i);
        } else {
            assert(i == idx);
            assert(next[fp.len() as int] == i);
        }
    }
}

/// The end of a row is the start of the next.
proof fn lemma_scan_next_row(
    fp: Seq<usize>,
    raster: RasterView,
    dx: int,
    dy: int,
    cw: nat,
    ch: nat,
    y: int,
)
    requires
        scan_invariant(fp, raster, dx, dy, cw, ch, raster.width as int, y),
    ensures
        scan_invariant(fp, raster, dx, dy, cw, ch, 0, y + 1),
{
    assert forall|k: int| 0 <= k < fp.len() implies scanned(
        raster,
        dx,
        dy,
        cw,
        ch,
        #[trigger] fp[k] as int,
        0,
        y + 1,
    ) by {
        assert(scanned(raster, dx, dy, cw, ch, fp[k] as int, raster.width as int, y));
    }
    assert forall|idx: int| #[trigger] scanned(raster, dx, dy, cw, ch, idx, 0, y + 1) implies exists|
        k: int,
    |
        0 <= k < fp.len() && #[trigger] fp[k] == idx by {
        assert(scanned(raster, dx, dy, cw, ch, idx, raster.width as int, y));
    }
}

/// The canvas pixels that `raster` paints when its top-left corner is drawn
/// at `(dx, dy)`, in increasing order of their indices.
pub fn opaque_footprint(raster: &Raster, dx: i64, dy: i64, cw: u32, ch: u32) -> (fp: Vec<usize>)
    requires
        raster.wf(),
        cw * ch <= usize::MAX,
    ensures
        is_footprint(fp@, raster@, dx as int, dy as int, cw as nat, ch as nat),
{
    let mut fp: Vec<usize> = Vec::new();
    let (rw, rh) = (raster.width(), raster.height());
    let mut y: u32 = 0;
    while y < rh
        invariant
            raster.wf(),
            rw == raster@.width,
            rh == raster@.height(),
            y <= rh,
            cw * ch <= usize::MAX,
            scan_invariant(fp@, raster@, dx as int, dy as int, cw as nat, ch as nat, 0, y as int),
        decreases rh - y,
    {
        let py: i128 = dy as i128 + y as i128;
        let mut x: u32 = 0;
        while x < rw
            invariant
                raster.wf(),
                rw == raster@.width,
                rh == raster@.height(),
                y < rh,
                x <= rw,
                py == dy + y,
                cw * ch <= usize::MAX,
                scan_invariant(
                    fp@,
                    raster@,
                    dx as int,
                    dy as int,
                    cw as nat,
                    ch as nat,
                    x as int,
                    y as int,
                ),
            decreases rw - x,
        {
            let px: i128 = dx as i128 + x as i128;
            let inside = 0 <= px && px < cw as i128 && 0 <= py && py < ch as i128;
            let painted = match raster.pixel(x, y) {
                Some(c) => c.a > 0,
                None => false,
            };
            if inside && painted {
                proof {
                    lemma_index_of_coords(cw as int, ch as int, px as int, py as int);
                }
                let idx: usize = py as usize * cw as usize + px as usize;
                proof {
                    lemma_scan_take(
                        fp@,
                        raster@,
                        dx as int,
                        dy as int,
                        cw as nat,
                        ch as nat,
                        x as int,
                        y as int,
                        idx,
                    );
                }
                fp.push(idx);
            } else {
                proof {
                    lemma_scan_skip(
                        fp@,
                        raster@,
                        dx as int,
                        dy as int,
                        cw as nat,
                        ch as nat,
                        x as int,
                        y as int,
                    );
                }
            }
            x = x + 1;
        }
        proof {
            lemma_scan_next_row(fp@, raster@, dx as int, dy as int, cw as nat, ch as nat, y as int);
        }
        y = y + 1;
    }
    proof {
        assert forall|k: int| 0 <= k < fp@.len() implies opaque_at(
            raster@,
            dx as int,
            dy as int,
            cw as nat,
            ch as nat,
            #[trigger] fp@[k] as int,
        ) by {
            assert(scanned(raster@, dx as int, dy as int, cw as nat, ch as nat, fp@[k] as int, 0, y as int));
        }
        assert forall|idx: int| #[trigger]
            opaque_at(raster@, dx as int, dy as int, cw as nat, ch as nat, idx) implies exists|k: int|
            0 <= k < fp@.len() && #[trigger] fp@[k] == idx by {
            assert(scanned(raster@, dx as int, dy as int, cw as nat, ch as nat, idx, 0, y as int));
        }
    }
    fp
}

} // verus!
