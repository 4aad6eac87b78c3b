//! Stickers and the layers built from them.
//!
//! A sticker's placement is in hundredths of a pixel, its size in whole
//! pixels. Building its layer takes three steps. The source image is resized
//! to the sticker's size and centered in a transparent square whose side is
//! the sticker's diagonal, rounded up, so that no rotation can crop a corner
//! ([`pad_for_rotation`]). The square is then rotated about its center, which
//! is not done here. Last, the rotated square is placed so that the unpadded,
//! unrotated sticker's top-left corner lies at the sticker's position, and
//! the canvas pixels that it paints are recorded ([`Layer::build`]).

use crate::footprint::{is_footprint, opaque_footprint};
use crate::geometry::COORD_LIMIT;
use crate::model::{InputData, Sticker, ValidationError};
use crate::raster::{overlaid, resize_fits, resized, Color, Raster, RasterView, SAMPLING_LIMIT};
use vstd::prelude::*;

verus! {

/// Whether `d` is the square root of `n`, rounded up.
pub open spec fn is_ceil_sqrt(n: nat, d: nat) -> bool {
    &&& d * d >= n
    &&& d == 0 || (d - 1) * (d - 1) < n
}

/// The square root of `n`, rounded up.
pub open spec fn ceil_sqrt(n: nat) -> nat {
    choose|d: nat| is_ceil_sqrt(n, d)
}

/// A number has one rounded-up square root.
pub proof fn lemma_ceil_sqrt_unique(n: nat, d: nat, e: nat)
    requires
        is_ceil_sqrt(n, d),
        is_ceil_sqrt(n, e),
    ensures
        d == e,
{
    if d < e {
        assert(d * d <= (e - 1) * (e - 1)) by (nonlinear_arith)
            requires
                0 <= d <= e - 1,
        ;
    }
    if e < d {
        assert(e * e <= (d - 1) * (d - 1)) by (nonlinear_arith)
            requires
                0 <= e <= d - 1,
        ;
    }
}

/// The side of the square that a `width` by `height` sticker is padded to:
/// the length of its diagonal, rounded up.
pub open spec fn padded_side(width: nat, height: nat) -> nat {
    ceil_sqrt(width * width + height * height)
}

/// The side of the padding square of a `width` by `height` sticker.
pub fn padding_side(width: u32, height: u32) -> (side: u64)
    ensures
        side == padded_side(width as nat, height as nat),
        is_ceil_sqrt((width as nat) * (width as nat) + (height as nat) * (height as nat), side as nat),
        side <= 0x2_0000_0000,
{
    let ghost n: nat = (width as nat) * (width as nat) + (height as nat) * (height as nat);
    assert((width as nat) * (width as nat) <= 0xffff_ffff * 0xffff_ffff) by (nonlinear_arith)
        requires
            width <= 0xffff_ffff,
    ;
    assert((height as nat) * (height as nat) <= 0xffff_ffff * 0xffff_ffff) by (nonlinear_arith)
        requires
            height <= 0xffff_ffff,
    ;
    let square: u128 = (width as u128) * (width as u128) + (height as u128) * (height as u128);
    let mut lo: u64 = 0;
    let mut hi: u64 = 0x2_0000_0000;
    if square == 0 {
        hi = 0;
    }
    while hi - lo > 1
        invariant
            square == n,
            lo <= hi <= 0x2_0000_0000,
            hi * hi >= n,
            n > 0 ==> lo * lo < n,
            n == 0 ==> hi == 0,
        decreases hi - lo,
    {
        let mid: u64 = lo + (hi - lo) / 2;
        assert(mid * mid <= 0x2_0000_0000 * 0x2_0000_0000) by (nonlinear_arith)
            requires
                mid <= 0x2_0000_0000,
        ;
        if (mid as u128) * (mid as u128) >= square {
            hi = mid;
        } else {
            lo = mid;
        }
    }
    proof {
        if n > 0 {
            assert(hi == lo + 1) by {
                if hi == lo {
                    assert(false);
                }
            }
        }
        assert(is_ceil_sqrt(n, hi as nat));
        lemma_ceil_sqrt_unique(n, hi as nat, padded_side(width as nat, height as nat));
    }
    hi
}

/// The whole pixels of transparent border on one side, when something
/// `extent` long is centered in a square of side `side`.
pub open spec fn margin(side: nat, extent: nat) -> int {
    (side - extent) / 2
}

/// `content` centered in a transparent square of side `side`.
pub open spec fn padded(content: RasterView, side: nat) -> RasterView {
    overlaid(
        RasterView::filled(side, side, Color::transparent()),
        content,
        margin(side, content.width),
        margin(side, content.height()),
    )
}

/// Whether the padding square of a `width` by `height` raster is within what
/// a raster's sides and a vector can hold.
pub open spec fn square_fits(width: nat, height: nat) -> bool {
    &&& padded_side(width, height) <= u32::MAX
    &&& 4 * (padded_side(width, height) * padded_side(width, height)) <= isize::MAX
}

/// Whether the source image `src` can be resized to `width` by `height` and
/// padded.
pub open spec fn pad_fits(src: RasterView, width: nat, height: nat) -> bool {
    &&& resize_fits(src, width, height)
    &&& square_fits(width, height)
}

/// Centers a raster in a transparent square that is as wide as the raster's
/// diagonal, rounded up. Where the border cannot be the same on both sides,
/// the side before the raster gets the smaller part.
pub fn pad_square(content: &Raster) -> (r: Result<Raster, ValidationError>)
    requires
        content.wf(),
    ensures
        r is Ok <==> square_fits(content@.width, content@.height()),
        r matches Ok(square) ==> square.wf() && square@ == padded(
            content@,
            padded_side(content@.width, content@.height()),
        ),
        r matches Err(e) ==> e == ValidationError::TooLarge,
{
    let (width, height) = (content.width(), content.height());
    let side = padding_side(width, height);
    if side > u32::MAX as u64 {
        return Err(ValidationError::TooLarge);
    }
    let side: u32 = side as u32;
    let mut square = match Raster::filled(side, side, Color::transparent()) {
        Some(s) => s,
        None => {
            return Err(ValidationError::TooLarge);
        },
    };
    proof {
        lemma_side_covers(width as nat, height as nat, side as nat);
    }
    let left: u32 = (side - width) / 2;
    let top: u32 = (side - height) / 2;
    square.overlay(content, left as i64, top as i64);
    Ok(square)
}

/// Resizes a sticker's source image to `width` by `height` and centers it in
/// a transparent square that is as wide as the sticker's diagonal, ready to
/// be rotated about its center.
pub fn pad_for_rotation(img: &Raster, width: u32, height: u32) -> (r: Result<
    Raster,
    ValidationError,
>)
    requires
        img.wf(),
    ensures
        r is Ok <==> width > 0 && height > 0 && pad_fits(img@, width as nat, height as nat),
        r matches Ok(square) ==> square.wf() && square@ == padded(
            resized(img@, width as nat, height as nat),
            padded_side(width as nat, height as nat),
        ),
        r matches Err(e) ==> e == if width == 0 || height == 0 {
            ValidationError::EmptySize
        } else {
            ValidationError::TooLarge
        },
{
    if width == 0 || height == 0 {
        return Err(ValidationError::EmptySize);
    }
    let (src_width, src_height): (u32, u32) = (img.width(), img.height());
    if src_width > SAMPLING_LIMIT || src_height > SAMPLING_LIMIT || width > SAMPLING_LIMIT || height
        > SAMPLING_LIMIT {
        return Err(ValidationError::TooLarge);
    }
    assert((width as nat) * (height as nat) <= 0xffff_ffff * 0xffff_ffff) by (nonlinear_arith)
        requires
            width <= 0xffff_ffff,
            height <= 0xffff_ffff,
    ;
    assert((src_width as nat) * (height as nat) <= 0xffff_ffff * 0xffff_ffff) by (nonlinear_arith)
        requires
            src_width <= 0xffff_ffff,
            height <= 0xffff_ffff,
    ;
    let out_bytes: u128 = 4 * ((width as u128) * (height as u128));
    let mid_bytes: u128 = 16 * ((src_width as u128) * (height as u128));
    if out_bytes > isize::MAX as u128 || mid_bytes > isize::MAX as u128 {
        return Err(ValidationError::TooLarge);
    }
    let content = img.resample(width, height);
    proof {
        let want = resized(img@, width as nat, height as nat);
        assert(want.width == width && want.rows.len() == height);
    }
    pad_square(&content)
}

/// The padding square is at least as wide and as high as the sticker.
pub proof fn lemma_side_covers(width: nat, height: nat, side: nat)
    requires
        is_ceil_sqrt(width * width + height * height, side),
    ensures
        side >= width,
        side >= height,
{
    if side < width {
        assert(side * side < width * width) by (nonlinear_arith)
            requires
                0 <= side < width,
        ;
        assert(height * height >= 0) by (nonlinear_arith);
    }
    if side < height {
        assert(side * side < height * height) by (nonlinear_arith)
            requires
                0 <= side < height,
        ;
        assert(width * width >= 0) by (nonlinear_arith);
    }
}

/// `n / d` rounded toward zero.
pub open spec fn trunc_div(n: int, d: int) -> int {
    if n >= 0 {
        n / d
    } else {
        -((-n) / d)
    }
}

/// Where, in whole canvas pixels, the padded square is drawn along one axis:
/// the sticker's position, in hundredths of a pixel, less the border that
/// the padding put before the sticker, rounded toward zero. A sticker at a
/// whole pixel is drawn with its own top-left corner on that pixel.
pub open spec fn draw_offset(position: int, extent: nat, side: nat) -> int {
    trunc_div(position - 100 * margin(side, extent), 100)
}

/// One sticker made ready for a canvas: the rotated raster, where it is
/// drawn, and the canvas pixels that it paints.
#[derive(Clone, Debug)]
pub struct Layer {
    pub sticker: Sticker,
    /// The sticker's image: resized, padded and rotated.
    pub rotated: Raster,
    /// Canvas column of the raster's left edge.
    pub draw_x: i64,
    /// Canvas row of the raster's top edge.
    pub draw_y: i64,
    /// Width of the canvas that the footprint was taken on.
    pub canvas_width: u32,
    /// Height of the canvas that the footprint was taken on.
    pub canvas_height: u32,
    /// The opaque footprint: linear indices of the canvas pixels under a
    /// pixel of the raster with alpha above zero, in increasing order.
    pub opaque_indices: Vec<usize>,
}

impl Layer {
    /// The layer is what [`Layer::build`] makes of its sticker, its raster
    /// and its canvas size.
    pub open spec fn wf(&self) -> bool {
        let side = padded_side(self.sticker.width as nat, self.sticker.height as nat);
        &&& self.sticker.valid()
        &&& self.rotated.wf()
        &&& self.draw_x == draw_offset(self.sticker.x as int, self.sticker.width as nat, side)
        &&& self.draw_y == draw_offset(self.sticker.y as int, self.sticker.height as nat, side)
        &&& self.canvas_width * self.canvas_height <= usize::MAX
        &&& is_footprint(
            self.opaque_indices@,
            self.rotated@,
            self.draw_x as int,
            self.draw_y as int,
            self.canvas_width as nat,
            self.canvas_height as nat,
        )
    }

    /// Places a sticker's rotated raster on a canvas of the given size and
    /// records its footprint.
    pub fn build(sticker: Sticker, rotated: Raster, canvas_width: u32, canvas_height: u32) -> (r:
        Result<Layer, ValidationError>)
        requires
            rotated.wf(),
        ensures
            r is Ok <==> sticker.valid() && canvas_width * canvas_height <= usize::MAX,
            r matches Ok(layer) ==> {
                &&& layer.wf()
                &&& layer.sticker == sticker
                &&& layer.rotated@ == rotated@
                &&& layer.canvas_width == canvas_width
                &&& layer.canvas_height == canvas_height
            },
            r matches Err(e) ==> e == match sticker.defect() {
                Some(d) => d,
                None => ValidationError::TooLarge,
            },
    {
        match sticker.validate() {
            Err(e) => {
                return Err(e);
            },
            Ok(_) => {},
        }
        assert(canvas_width * canvas_height <= 0xffff_ffff * 0xffff_ffff) by (nonlinear_arith)
            requires
                canvas_width <= 0xffff_ffff,
                canvas_height <= 0xffff_ffff,
        ;
        if (canvas_width as u64) * (canvas_height as u64) > usize::MAX as u64 {
            return Err(ValidationError::TooLarge);
        }
        let side = padding_side(sticker.width, sticker.height);
        proof {
            lemma_side_covers(sticker.width as nat, sticker.height as nat, side as nat);
        }
        let draw_x = place(sticker.x, sticker.width, side);
        let draw_y = place(sticker.y, sticker.height, side);
        let opaque_indices = opaque_footprint(&rotated, draw_x, draw_y, canvas_width, canvas_height);
        Ok(Layer { sticker, rotated, draw_x, draw_y, canvas_width, canvas_height, opaque_indices })
    }
}

/// The draw offset along one axis.
fn place(position: i64, extent: u32, side: u64) -> (offset: i64)
    requires
        -COORD_LIMIT <= position <= COORD_LIMIT,
        extent <= side <= 0x2_0000_0000,
    ensures
        offset == draw_offset(position as int, extent as nat, side as nat),
{
    let border: i64 = 100 * (((side - extent as u64) / 2) as i64);
    (position - border) / 100
}

/// Builds the layers of a request from its stickers' rotated rasters, one
/// for each sticker and in their order, for a canvas of `bg_w` by `bg_h`
/// pixels. With `swap_xy`, each sticker is placed with its horizontal and
/// vertical position exchanged, as the transposed canvas wants it. The
/// request is checked first; nothing is built for one that has a problem.
pub fn process_layers(
    req: &InputData,
    rotated: Vec<Raster>,
    bg_w: u32,
    bg_h: u32,
    swap_xy: bool,
) -> (r: Result<Vec<Layer>, ValidationError>)
    requires
        forall|i: int| 0 <= i < rotated.len() ==> (#[trigger] rotated[i]).wf(),
    ensures
        r is Ok <==> req.valid() && rotated.len() == req.stickers.len() && bg_w * bg_h
            <= usize::MAX,
        r matches Ok(layers) ==> {
            &&& layers.len() == req.stickers.len()
            &&& built_from(layers@, req.stickers@, rotated@, bg_w, bg_h, swap_xy)
        },
        r matches Err(e) ==> e == match InputData::first_problem(
            req.stickers@,
            req.stickers.len() as int,
        ) {
            Some(p) => p,
            None => if rotated.len() != req.stickers.len() {
                ValidationError::RasterCount
            } else {
                ValidationError::TooLarge
            },
        },
{
    match req.validate() {
        Err(e) => {
            return Err(e);
        },
        Ok(_) => {},
    }
    let n = req.stickers.len();
    if rotated.len() != n {
        return Err(ValidationError::RasterCount);
    }
    assert(bg_w * bg_h <= 0xffff_ffff * 0xffff_ffff) by (nonlinear_arith)
        requires
            bg_w <= 0xffff_ffff,
            bg_h <= 0xffff_ffff,
    ;
    if (bg_w as u64) * (bg_h as u64) > usize::MAX as u64 {
        return Err(ValidationError::TooLarge);
    }
    let mut layers: Vec<Layer> = Vec::new();
    let ghost rasters = rotated@;
    for raster in it: rotated
        invariant
            n == req.stickers.len(),
            rasters.len() == n,
            it.seq() == rasters,
            req.valid(),
            bg_w * bg_h <= usize::MAX,
            forall|i: int| 0 <= i < rasters.len() ==> (#[trigger] rasters[i]).wf(),
            layers.len() == it.index(),
            built_from(layers@, req.stickers@, rasters, bg_w, bg_h, swap_xy),
    {
        let i = layers.len();
        assert(req.stickers[i as int].valid());
        match Layer::build(req.stickers[i].placed(swap_xy), raster, bg_w, bg_h) {
            Ok(layer) => {
                layers.push(layer);
            },
            Err(_) => {
                assert(false);
            },
        }
    }
    Ok(layers)
}

/// Whether each of `layers` is the well-formed layer of the sticker and the
/// raster at its position in the lists, the sticker placed as `swap_xy`
/// says, on a canvas of the given size.
pub open spec fn built_from(
    layers: Seq<Layer>,
    stickers: Seq<Sticker>,
    rasters: Seq<Raster>,
    width: u32,
    height: u32,
    swap_xy: bool,
) -> bool {
    forall|i: int|
        0 <= i < layers.len() ==> {
            &&& (#[trigger] layers[i]).wf()
            &&& layers[i].sticker == stickers[i].spec_placed(swap_xy)
            &&& layers[i].rotated@ == rasters[i]@
            &&& layers[i].canvas_width == width
            &&& layers[i].canvas_height == height
        }
}

} // verus!
