//! RGBA rasters: the pixel grids that stickers and canvases are made of.
//!
//! A [`Raster`] owns its samples as plain bytes, so that everything the
//! compositing pipeline decides from pixels is decided in verified code.
//! Resampling and alpha blending are done by the `image` crate; the two
//! functions that call it are the trusted boundary of this module.

use vstd::prelude::*;

verus! {

/// One pixel: red, green, blue and alpha, each from 0 to 255.
#[derive(Clone, Copy, Debug, PartialEq, Eq, Structural)]
pub struct Color {
    pub r: u8,
    pub g: u8,
    pub b: u8,
    pub a: u8,
}

impl Color {
    /// The fully transparent pixel that fills padding and exposed corners.
    pub open spec fn spec_transparent() -> Color {
        Color { r: 0, g: 0, b: 0, a: 0 }
    }

    #[verifier::when_used_as_spec(spec_transparent)]
    pub fn transparent() -> (c: Color)
        ensures
            c == Color::spec_transparent(),
    {
        Color { r: 0, g: 0, b: 0, a: 0 }
    }
}

/// The mathematical content of a raster: `rows[y][x]` is the pixel in
/// column `x` of row `y`, rows counted from the top.
pub ghost struct RasterView {
    pub width: nat,
    pub rows: Seq<Seq<Color>>,
}

impl RasterView {
    pub open spec fn height(self) -> nat {
        self.rows.len()
    }

    /// Every row is `width` pixels long.
    pub open spec fn rectangular(self) -> bool {
        forall|y: int| 0 <= y < self.rows.len() ==> (#[trigger] self.rows[y]).len() == self.width
    }

    pub open spec fn contains(self, x: int, y: int) -> bool {
        0 <= x < self.width && 0 <= y < self.rows.len()
    }

    /// The pixel at `(x, y)`; meaningful where `contains(x, y)`.
    pub open spec fn at(self, x: int, y: int) -> Color {
        self.rows[y][x]
    }

    /// A raster of the given size with the same pixel everywhere.
    pub open spec fn filled(width: nat, height: nat, c: Color) -> RasterView {
        RasterView { width, rows: Seq::new(height, |y: int| Seq::new(width, |x: int| c)) }
    }
}

/// The pixel whose four samples start at `start` in a row-major sample buffer.
pub open spec fn color_at(samples: Seq<u8>, start: int) -> Color {
    Color { r: samples[start], g: samples[start + 1], b: samples[start + 2], a: samples[start + 3] }
}

/// Pixel number `i` of a row-major sample buffer.
pub open spec fn nth_color(samples: Seq<u8>, i: int) -> Color {
    color_at(samples, 4 * i)
}

/// The raster that a row-major buffer of RGBA samples stands for.
pub open spec fn raw_view(width: nat, height: nat, samples: Seq<u8>) -> RasterView {
    RasterView {
        width,
        rows: Seq::new(
            height,
            |y: int| Seq::new(width, |x: int| color_at(samples, 4 * (y * width + x))),
        ),
    }
}

/// An owned RGBA image: `width * height` pixels, four samples each, row by row.
#[derive(Clone, Debug)]
pub struct Raster {
    width: u32,
    height: u32,
    data: Vec<u8>,
}

impl View for Raster {
    type V = RasterView;

    closed spec fn view(&self) -> RasterView {
        raw_view(self.width as nat, self.height as nat, self.data@)
    }
}

/// The four samples of the pixel at `(x, y)` lie inside the buffer of a
/// `width` by `height` raster.
proof fn lemma_sample_index(width: int, height: int, x: int, y: int)
    requires
        0 <= x < width,
        0 <= y < height,
    ensures
        0 <= y * width <= y * width + x < width * height,
        4 * (y * width + x) + 3 < 4 * (width * height),
{
    assert(y * width + x < width * height) by (nonlinear_arith)
        requires
            0 <= x < width,
            0 <= y < height,
    ;
    assert(0 <= y * width) by (nonlinear_arith)
        requires
            0 <= y,
            0 <= width,
    ;
}

/// A raster has one sample buffer: two buffers of the right length that
/// stand for the same raster hold the same samples.
pub proof fn lemma_raw_view_unique(width: nat, height: nat, a: Seq<u8>, b: Seq<u8>)
    requires
        a.len() == 4 * (width * height),
        b.len() == 4 * (width * height),
        raw_view(width, height, a) == raw_view(width, height, b),
    ensures
        a == b,
{
    let (va, vb) = (raw_view(width, height, a), raw_view(width, height, b));
    assert forall|i: int| 0 <= i < a.len() implies a[i] == b[i] by {
        let w = width as int;
        let k = i / 4;
        assert(0 <= k < w * height);
        assert(0 < w) by (nonlinear_arith)
            requires
                0 <= k < w * height,
                0 <= w,
                0 <= height,
        ;
        let (x, y) = (k % w, k / w);
        vstd::arithmetic::div_mod::lemma_fundamental_div_mod(k, w);
        assert(w * y == y * w) by (nonlinear_arith);
        assert(0 <= y < height) by (nonlinear_arith)
            requires
                k == y * w + x,
                0 <= x < w,
                0 <= k < w * height,
        ;
        assert(va.rows[y][x] == vb.rows[y][x]);
        assert(va.rows[y][x] == color_at(a, 4 * (y * w + x)));
        assert(vb.rows[y][x] == color_at(b, 4 * (y * w + x)));
    }
    assert(a =~= b);
}

impl Raster {
    /// The sample buffer holds exactly the pixels of a `width` by `height` grid.
    pub closed spec fn wf(&self) -> bool {
        self.data@.len() == 4 * (self.width as nat * self.height as nat)
    }

    /// Takes over a row-major RGBA sample buffer. Fails when the buffer's
    /// length is not `4 * width * height`.
    pub fn from_raw(width: u32, height: u32, data: Vec<u8>) -> (r: Option<Raster>)
        ensures
            r is Some <==> data@.len() == 4 * (width as nat * height as nat),
            r matches Some(img) ==> img.wf() && img@ == raw_view(
                width as nat,
                height as nat,
                data@,
            ),
    {
        assert(width as nat * height as nat <= 0xffff_ffff * 0xffff_ffff) by (nonlinear_arith)
            requires
                width <= 0xffff_ffff,
                height <= 0xffff_ffff,
        ;
        let samples: u128 = width as u128 * height as u128 * 4;
        if data.len() as u128 == samples {
            Some(Raster { width, height, data })
        } else {
            None
        }
    }

    /// A raster of the given size with every pixel `color`; `None` when its
    /// samples would be more than a vector can hold.
    pub fn filled(width: u32, height: u32, color: Color) -> (r: Option<Raster>)
        ensures
            r is Some <==> 4 * (width as nat * height as nat) <= isize::MAX,
            r matches Some(img) ==> img.wf() && img@ == RasterView::filled(
                width as nat,
                height as nat,
                color,
            ),
    {
        assert(width as nat * height as nat <= 0xffff_ffff * 0xffff_ffff) by (nonlinear_arith)
            requires
                width <= 0xffff_ffff,
                height <= 0xffff_ffff,
        ;
        let pixels: u128 = width as u128 * height as u128;
        if pixels * 4 > isize::MAX as u128 {
            return None;
        }
        let count: usize = pixels as usize;
        let mut data: Vec<u8> = Vec::new();
        let mut k: usize = 0;
        while k < count
            invariant
                k <= count,
                4 * count <= isize::MAX,
                data@.len() == 4 * k,
                forall|i: int| 0 <= i < k ==> nth_color(data@, i) == color,
            decreases count - k,
        {
            let ghost before = data@;
            data.push(color.r);
            data.push(color.g);
            data.push(color.b);
            data.push(color.a);
            assert forall|i: int| 0 <= i < k + 1 implies nth_color(data@, i) == color by {
                if i < k {
                    assert(nth_color(before, i) == color);
                }
            }
            k = k + 1;
        }
        let img = Raster { width, height, data };
        proof {
            let want = RasterView::filled(width as nat, height as nat, color);
            assert forall|y: int| 0 <= y < want.rows.len() implies #[trigger] img@.rows[y]
                =~= want.rows[y] by {
                assert forall|x: int| 0 <= x < want.width implies img@.rows[y][x]
                    == want.rows[y][x] by {
                    lemma_sample_index(width as int, height as int, x, y);
                    assert(nth_color(data@, y * width + x) == color);
                }
            }
            assert(img@.rows =~= want.rows);
        }
        Some(img)
    }

    /// Gives the sample buffer back, row by row, four samples to the pixel.
    pub fn into_raw(self) -> (data: Vec<u8>)
        requires
            self.wf(),
        ensures
            data@.len() == 4 * (self@.width * self@.height()),
            raw_view(self@.width, self@.height(), data@) == self@,
    {
        self.data
    }

    /// The number of pixels in a row.
    pub fn width(&self) -> (w: u32)
        ensures
            w == self@.width,
    {
        self.width
    }

    /// The number of rows.
    pub fn height(&self) -> (h: u32)
        ensures
            h == self@.height(),
    {
        self.height
    }

    /// The pixel at `(x, y)`, or `None` outside the raster.
    pub fn pixel(&self, x: u32, y: u32) -> (p: Option<Color>)
        requires
            self.wf(),
        ensures
            p == if self@.contains(x as int, y as int) {
                Some(self@.at(x as int, y as int))
            } else {
                None
            },
    {
        if x < self.width && y < self.height {
            let (col, row, stride): (usize, usize, usize) = (
                x as usize,
                y as usize,
                self.width as usize,
            );
            let samples: usize = self.data.len();
            proof {
                lemma_sample_index(stride as int, self.height as int, col as int, row as int);
                assert(samples == 4 * (stride as int * self.height as int));
            }
            let start: usize = (row * stride + col) * 4;
            Some(
                Color {
                    r: self.data[start],
                    g: self.data[start + 1],
                    b: self.data[start + 2],
                    a: self.data[start + 3],
                },
            )
        } else {
            None
        }
    }
}

/// What `image`'s `Pixel::blend` makes of the pixel `bottom` when a partly
/// transparent pixel `top` (alpha from 1 to 254) is blended into it:
/// source-over compositing, computed in single precision.
pub uninterp spec fn blended(bottom: Color, top: Color) -> Color;

/// One pixel laid on another, given what blending the two would give: a
/// fully transparent pixel leaves the one below as it is, a fully opaque one
/// replaces it, anything between is blended.
pub open spec fn blend_with(bottom: Color, top: Color, partial: Color) -> Color {
    if top.a == 0 {
        bottom
    } else if top.a == 255 {
        top
    } else {
        partial
    }
}

/// One pixel laid on another.
pub open spec fn blend(bottom: Color, top: Color) -> Color {
    blend_with(bottom, top, blended(bottom, top))
}

/// `bottom` with `top` laid over it, the top-left corner of `top` at `(x, y)`
/// of `bottom`. What falls outside `bottom` is clipped; the pixels of `bottom`
/// that `top` does not reach stay as they are.
pub open spec fn overlaid(bottom: RasterView, top: RasterView, x: int, y: int) -> RasterView {
    RasterView {
        width: bottom.width,
        rows: Seq::new(
            bottom.height(),
            |j: int|
                Seq::new(
                    bottom.width,
                    |i: int|
                        if top.contains(i - x, j - y) {
                            blend(bottom.at(i, j), top.at(i - x, j - y))
                        } else {
                            bottom.at(i, j)
                        },
                ),
        ),
    }
}

/// The pixel rows that `image::imageops::resize` with the triangle filter
/// gives when it resamples `src` to `width` by `height`, for a `src` that is
/// not empty and has another size.
pub uninterp spec fn resampled(src: RasterView, width: nat, height: nat) -> Seq<Seq<Color>>;

/// `src` resized to `width` by `height`, given the rows that resampling
/// would give: an empty source gives a transparent raster, a source of that
/// very size a copy, and any other the resampled rows.
pub open spec fn resized_with(
    src: RasterView,
    width: nat,
    height: nat,
    rows: Seq<Seq<Color>>,
) -> RasterView {
    if src.width == 0 || src.height() == 0 {
        RasterView::filled(width, height, Color::transparent())
    } else if width == src.width && height == src.height() {
        src
    } else {
        RasterView { width, rows: Seq::new(height, |y: int| Seq::new(width, |x: int| rows[y][x])) }
    }
}

/// `src` resized to `width` by `height`.
pub open spec fn resized(src: RasterView, width: nat, height: nat) -> RasterView {
    resized_with(src, width, height, resampled(src, width, height))
}

/// The largest width or height that is resampled from or to. The resampler
/// places its samples with single-precision coordinates, which tell pixels
/// apart only up to a few millions.
pub const SAMPLING_LIMIT: u32 = 0x10_0000;

/// Whether `src` can be resized to `width` by `height`: no side, of the
/// source or of the result, is beyond the sampling limit, and the buffers
/// that resizing allocates stay within what a vector can hold, which are the
/// result, of four bytes to the pixel, and an intermediate as wide as the
/// source and as high as the result, of sixteen bytes to the pixel.
pub open spec fn resize_fits(src: RasterView, width: nat, height: nat) -> bool {
    &&& src.width <= SAMPLING_LIMIT
    &&& src.height() <= SAMPLING_LIMIT
    &&& width <= SAMPLING_LIMIT
    &&& height <= SAMPLING_LIMIT
    &&& 4 * (width * height) <= isize::MAX
    &&& 16 * (src.width * height) <= isize::MAX
}

impl Raster {
    /// `image::imageops::overlay`, on borrowed views of the two sample
    /// buffers. It keeps the size of `self`, and blends each pixel of `top`
    /// that lands inside `self` into the pixel under it with `Pixel::blend`,
    /// which returns at once for alpha 0 and copies for alpha 255; it touches
    /// no other pixel.
    #[verifier::external_body]
    fn blend_onto(&mut self, top: &Raster, x: i64, y: i64)
        requires
            old(self).wf(),
            top.wf(),
        ensures
            final(self).wf(),
            final(self)@.width == old(self)@.width,
            final(self)@.height() == old(self)@.height(),
            forall|i: int, j: int|
                old(self)@.contains(i, j) ==> #[trigger] final(self)@.at(i, j) == if top@.contains(
                    i - x,
                    j - y,
                ) {
                    blend_with(
                        old(self)@.at(i, j),
                        top@.at(i - x, j - y),
                        blended(old(self)@.at(i, j), top@.at(i - x, j - y)),
                    )
                } else {
                    old(self)@.at(i, j)
                },
    {
        let (w, h) = (self.width, self.height);
        let mut below =
            image::ImageBuffer::<image::Rgba<u8>, &mut [u8]>::from_raw(w, h, &mut self.data[..])
                .unwrap();
        let above =
            image::ImageBuffer::<image::Rgba<u8>, &[u8]>::from_raw(top.width, top.height, &top.data[..])
                .unwrap();
        image::imageops::overlay(&mut below, &above, x, y);
    }

    /// `image::imageops::resize` with `FilterType::Triangle`, on a borrowed
    /// view of the sample buffer. The result has the size asked for; the
    /// source's pixels come back unchanged when the size is its own, and
    /// transparent ones when the source is empty. Sizes beyond
    /// [`resize_fits`] are kept away from it: it allocates its buffers
    /// without a test, and places samples with single-precision coordinates.
    #[verifier::external_body]
    pub(crate) fn resample(&self, width: u32, height: u32) -> (out: Raster)
        requires
            self.wf(),
            resize_fits(self@, width as nat, height as nat),
        ensures
            out.wf(),
            out@ == resized_with(
                self@,
                width as nat,
                height as nat,
                resampled(self@, width as nat, height as nat),
            ),
    {
        let src =
            image::ImageBuffer::<image::Rgba<u8>, &[u8]>::from_raw(self.width, self.height, &self.data[..])
                .unwrap();
        let out = image::imageops::resize(&src, width, height, image::imageops::FilterType::Triangle);
        Raster { width: out.width(), height: out.height(), data: out.into_raw() }
    }

    /// Lays `top` over this raster with its top-left corner at `(x, y)`,
    /// clipped to this raster.
    pub fn overlay(&mut self, top: &Raster, x: i64, y: i64)
        requires
            old(self).wf(),
            top.wf(),
        ensures
            final(self).wf(),
            final(self)@ == overlaid(old(self)@, top@, x as int, y as int),
    {
        self.blend_onto(top, x, y);
        proof {
            let want = overlaid(old(self)@, top@, x as int, y as int);
            assert forall|j: int| 0 <= j < want.rows.len() implies #[trigger] self@.rows[j]
                =~= want.rows[j] by {
                assert forall|i: int| 0 <= i < want.width implies self@.rows[j][i]
                    == want.rows[j][i] by {
                    assert(self@.at(i, j) == want.at(i, j));
                }
            }
            assert(self@.rows =~= want.rows);
        }
    }
}

} // verus!
