//! Compositing the visible layers onto the canvas, and the click zones that
//! describe them.
//!
//! Layers are drawn bottommost first. A layer that the occlusion sweep found
//! hidden is neither drawn nor described. The click zone of a visible sticker
//! is the quadrilateral of its unpadded rectangle, turned about its own
//! center by the sticker's rotation, in hundredths of a pixel.

use crate::footprint::{
    lemma_footprint_unique, lemma_index_of_coords, lemma_off_canvas_paints_nothing, opaque_at,
};
use crate::geometry::{rotated_corner, rotated_corners, Corner};
use crate::layer::{built_from, process_layers, Layer};
use crate::model::{InputData, Sticker, ValidationError};
use crate::occlusion::{
    footprints, lemma_empty_footprint_is_hidden, visibility, visible_flags, within_canvas,
};
use crate::raster::{overlaid, Raster, RasterView};
use vstd::prelude::*;

verus! {

/// The screen-space polygon of one visible sticker.
#[derive(Clone, Debug)]
pub struct ClickZone {
    /// The sticker's identifier.
    pub id: String,
    /// Top-left, top-right, bottom-right and bottom-left corner of the
    /// sticker's rectangle after rotation, in hundredths of a pixel.
    pub corners: [Corner; 4],
}

/// Corner `k` of a sticker's click zone.
pub open spec fn zone_corner(sticker: Sticker, k: int) -> (int, int) {
    rotated_corner(
        sticker.x as int,
        sticker.y as int,
        100 * sticker.width,
        100 * sticker.height,
        sticker.rotation,
        k,
    )
}

/// Whether `zone` is the click zone of `sticker`.
pub open spec fn is_zone_of(zone: ClickZone, sticker: Sticker) -> bool {
    &&& zone.id == sticker.id
    &&& forall|k: int|
        0 <= k < 4 ==> ((#[trigger] zone.corners[k]).x as int, zone.corners[k].y as int)
            == zone_corner(sticker, k)
}

/// The click zone of a sticker.
pub fn click_zone(sticker: &Sticker) -> (zone: ClickZone)
    requires
        sticker.valid(),
    ensures
        is_zone_of(zone, *sticker),
{
    let corners = rotated_corners(
        sticker.x,
        sticker.y,
        100 * (sticker.width as i64),
        100 * (sticker.height as i64),
        &sticker.rotation,
    );
    ClickZone { id: sticker.id.clone(), corners }
}

/// The positions, among the first `n` layers, of those that are flagged
/// visible, in increasing order.
pub open spec fn visible_indices(flags: Seq<bool>, n: int) -> Seq<int>
    decreases n,
{
    if n <= 0 {
        Seq::empty()
    } else if flags[n - 1] {
        visible_indices(flags, n - 1).push(n - 1)
    } else {
        visible_indices(flags, n - 1)
    }
}

/// The canvas after those of the first `n` layers that are flagged visible
/// have been laid on it, bottommost first, each at its draw offset.
pub open spec fn composited(canvas: RasterView, layers: Seq<Layer>, flags: Seq<bool>, n: int) -> RasterView
    decreases n,
{
    if n <= 0 {
        canvas
    } else if flags[n - 1] {
        overlaid(
            composited(canvas, layers, flags, n - 1),
            layers[n - 1].rotated@,
            layers[n - 1].draw_x as int,
            layers[n - 1].draw_y as int,
        )
    } else {
        composited(canvas, layers, flags, n - 1)
    }
}

/// Whether `zones` describes, in their order, the layers at the positions
/// `shown`.
pub open spec fn zones_match(zones: Seq<ClickZone>, layers: Seq<Layer>, shown: Seq<int>) -> bool {
    &&& zones.len() == shown.len()
    &&& forall|j: int| 0 <= j < zones.len() ==> is_zone_of(#[trigger] zones[j], layers[shown[j]].sticker)
}

/// Every layer was built for a canvas of the given size.
pub open spec fn built_for(layers: Seq<Layer>, width: nat, height: nat) -> bool {
    forall|i: int|
        0 <= i < layers.len() ==> (#[trigger] layers[i]).canvas_width == width
            && layers[i].canvas_height == height
}

/// The positions of the visible layers are positions of layers, in
/// increasing order, and there are no more of them than layers.
pub proof fn lemma_visible_indices(flags: Seq<bool>, n: int)
    requires
        0 <= n <= flags.len(),
    ensures
        visible_indices(flags, n).len() <= n,
        forall|j: int|
            0 <= j < visible_indices(flags, n).len() ==> 0 <= (#[trigger] visible_indices(
                flags,
                n,
            )[j]) < n && flags[visible_indices(flags, n)[j]],
        forall|a: int, b: int|
            0 <= a < b < visible_indices(flags, n).len() ==> visible_indices(flags, n)[a]
                < visible_indices(flags, n)[b],
        forall|i: int|
            0 <= i < n && flags[i] ==> visible_indices(flags, n).contains(i),
    decreases n,
{
    if n > 0 {
        lemma_visible_indices(flags, n - 1);
        let prev = visible_indices(flags, n - 1);
        let cur = visible_indices(flags, n);
        assert forall|i: int| 0 <= i < n && flags[i] implies cur.contains(i) by {
            if i < n - 1 {
                let j = choose|j: int| 0 <= j < prev.len() && prev[j] == i;
                assert(cur[j] == i);
            } else {
                assert(cur[prev.len() as int] == i);
            }
        }
    }
}

/// The footprints of well-formed layers built for one canvas hold only
/// pixels of that canvas.
proof fn lemma_footprints_within(layers: Seq<Layer>, width: nat, height: nat)
    requires
        forall|i: int| 0 <= i < layers.len() ==> (#[trigger] layers[i]).wf(),
        built_for(layers, width, height),
    ensures
        within_canvas(footprints(layers), width * height),
{
    let fps = footprints(layers);
    assert forall|i: int, k: int| 0 <= i < fps.len() && 0 <= k < fps[i].len() implies (
    #[trigger] fps[i][k]) < width * height by {
        assert(layers[i].wf());
        assert(opaque_at(
            layers[i].rotated@,
            layers[i].draw_x as int,
            layers[i].draw_y as int,
            width,
            height,
            layers[i].opaque_indices@[k] as int,
        ));
    }
}

/// Finds the visible layers, lays them on the canvas bottommost first, and
/// returns their click zones in the same order. Fails, and leaves the canvas
/// as it is, when a layer was built for a canvas of another size.
pub fn draw_layers(canvas: &mut Raster, layers: &Vec<Layer>) -> (r: Result<
    Vec<ClickZone>,
    ValidationError,
>)
    requires
        old(canvas).wf(),
        forall|i: int| 0 <= i < layers.len() ==> (#[trigger] layers[i]).wf(),
    ensures
        final(canvas).wf(),
        r is Ok <==> built_for(layers@, old(canvas)@.width, old(canvas)@.height()),
        r matches Ok(zones) ==> {
            let flags = visible_flags(footprints(layers@));
            &&& final(canvas)@ == composited(old(canvas)@, layers@, flags, layers.len() as int)
            &&& zones_match(zones@, layers@, visible_indices(flags, layers.len() as int))
            &&& zones.len() <= layers.len()
            &&& forall|j: int|
                0 <= j < zones.len() ==> exists|i: int|
                    0 <= i < layers.len() && (#[trigger] zones[j]).id == layers[i].sticker.id
        },
        r matches Err(e) ==> e == ValidationError::CanvasMismatch && final(canvas)@ == old(
            canvas,
        )@,
{
    let n = layers.len();
    let (width, height) = (canvas.width(), canvas.height());
    let mut i: usize = 0;
    while i < n
        invariant
            n == layers.len(),
            i <= n,
            canvas.wf(),
            canvas@ == old(canvas)@,
            width == canvas@.width,
            height == canvas@.height(),
            forall|j: int|
                0 <= j < i ==> (#[trigger] layers[j]).canvas_width == width
                    && layers[j].canvas_height == height,
        decreases n - i,
    {
        if layers[i].canvas_width != width || layers[i].canvas_height != height {
            return Err(ValidationError::CanvasMismatch);
        }
        i = i + 1;
    }
    let mut zones: Vec<ClickZone> = Vec::new();
    if n == 0 {
        assert(visible_indices(visible_flags(footprints(layers@)), 0) =~= Seq::<int>::empty());
        return Ok(zones);
    }
    assert(layers[0].wf());
    let canvas_len: usize = width as usize * height as usize;
    proof {
        lemma_footprints_within(layers@, width as nat, height as nat);
    }
    let visible = visibility(layers, canvas_len);
    let ghost flags = visible_flags(footprints(layers@));
    let mut i: usize = 0;
    while i < n
        invariant
            n == layers.len(),
            i <= n,
            flags == visible_flags(footprints(layers@)),
            visible@ == flags,
            flags.len() == n,
            forall|j: int| 0 <= j < layers.len() ==> (#[trigger] layers[j]).wf(),
            canvas.wf(),
            canvas@ == composited(old(canvas)@, layers@, flags, i as int),
            zones_match(zones@, layers@, visible_indices(flags, i as int)),
        decreases n - i,
    {
        if visible[i] {
            let layer = &layers[i];
            assert(layer.wf());
            canvas.overlay(&layer.rotated, layer.draw_x, layer.draw_y);
            let zone = click_zone(&layer.sticker);
            zones.push(zone);
        }
        i = i + 1;
    }
    proof {
        lemma_visible_indices(flags, n as int);
        let shown = visible_indices(flags, n as int);
        assert forall|j: int| 0 <= j < zones.len() implies exists|i: int|
            0 <= i < layers.len() && (#[trigger] zones[j]).id == layers[i].sticker.id by {
            assert(is_zone_of(zones@[j], layers@[shown[j]].sticker));
            assert(0 <= shown[j] < n);
        }
    }
    Ok(zones)
}

/// Whether `after` and `zones` are what composing the stickers, with their
/// rotated rasters, onto the canvas `before` gives, `layers` being the layers
/// built on the way.
pub open spec fn composed_onto(
    before: RasterView,
    after: RasterView,
    zones: Seq<ClickZone>,
    layers: Seq<Layer>,
    stickers: Seq<Sticker>,
    rasters: Seq<Raster>,
    swap_xy: bool,
) -> bool {
    let flags = visible_flags(footprints(layers));
    &&& layers.len() == stickers.len()
    &&& built_from(layers, stickers, rasters, before.width as u32, before.height() as u32, swap_xy)
    &&& after == composited(before, layers, flags, layers.len() as int)
    &&& zones_match(zones, layers, visible_indices(flags, layers.len() as int))
}

/// Composes a request onto its two backgrounds: the upright one, and the
/// transposed one, on which every sticker's horizontal and vertical position
/// change places. `rotated` and `rotated_again` hold, for each canvas, the
/// stickers' rotated rasters in the order of the stickers. Returns the click
/// zones of the upright and of the transposed canvas. When the request
/// cannot be composed, neither canvas is touched.
pub fn compose_bgs(
    upright: &mut Raster,
    transposed: &mut Raster,
    req: &InputData,
    rotated: Vec<Raster>,
    rotated_again: Vec<Raster>,
) -> (r: Result<(Vec<ClickZone>, Vec<ClickZone>), ValidationError>)
    requires
        old(upright).wf(),
        old(transposed).wf(),
        forall|i: int| 0 <= i < rotated.len() ==> (#[trigger] rotated[i]).wf(),
        forall|i: int| 0 <= i < rotated_again.len() ==> (#[trigger] rotated_again[i]).wf(),
    ensures
        final(upright).wf(),
        final(transposed).wf(),
        r is Ok <==> {
            &&& req.valid()
            &&& rotated.len() == req.stickers.len()
            &&& rotated_again.len() == req.stickers.len()
            &&& old(upright)@.width * old(upright)@.height() <= usize::MAX
            &&& old(transposed)@.width * old(transposed)@.height() <= usize::MAX
        },
        r matches Ok(zones) ==> exists|layers: Seq<Layer>| #[trigger]
            composed_onto(
                old(upright)@,
                final(upright)@,
                zones.0@,
                layers,
                req.stickers@,
                rotated@,
                false,
            ),
        r matches Ok(zones) ==> exists|layers: Seq<Layer>| #[trigger]
            composed_onto(
                old(transposed)@,
                final(transposed)@,
                zones.1@,
                layers,
                req.stickers@,
                rotated_again@,
                true,
            ),
        r matches Err(e) ==> {
            &&& final(upright)@ == old(upright)@
            &&& final(transposed)@ == old(transposed)@
            &&& e == match InputData::first_problem(req.stickers@, req.stickers.len() as int) {
                Some(p) => p,
                None => if rotated.len() != req.stickers.len() || rotated_again.len()
                    != req.stickers.len() {
                    ValidationError::RasterCount
                } else {
                    ValidationError::TooLarge
                },
            }
        },
{
    match req.validate() {
        Err(e) => {
            return Err(e);
        },
        Ok(_) => {},
    }
    if rotated.len() != req.stickers.len() || rotated_again.len() != req.stickers.len() {
        return Err(ValidationError::RasterCount);
    }
    let (width, height) = (upright.width(), upright.height());
    let first = match process_layers(req, rotated, width, height, false) {
        Ok(layers) => layers,
        Err(e) => {
            return Err(e);
        },
    };
    let (width_again, height_again) = (transposed.width(), transposed.height());
    let second = match process_layers(req, rotated_again, width_again, height_again, true) {
        Ok(layers) => layers,
        Err(e) => {
            return Err(e);
        },
    };
    let zones = match draw_layers(upright, &first) {
        Ok(zones) => zones,
        Err(e) => {
            assert(false);
            return Err(e);
        },
    };
    let zones_again = match draw_layers(transposed, &second) {
        Ok(zones) => zones,
        Err(e) => {
            assert(false);
            return Err(e);
        },
    };
    let ghost shown = (zones@, zones_again@);
    let r = Ok((zones, zones_again));
    proof {
        assert(r matches Ok(z) && z.0@ == shown.0 && z.1@ == shown.1);
        assert(composed_onto(
            old(upright)@,
            upright@,
            shown.0,
            first@,
            req.stickers@,
            rotated@,
            false,
        ));
        assert(composed_onto(
            old(transposed)@,
            transposed@,
            shown.1,
            second@,
            req.stickers@,
            rotated_again@,
            true,
        ));
    }
    r
}

/// A layer whose raster has no overlap with the canvas is not visible,
/// whatever lies above or below it.
pub proof fn lemma_off_canvas_layer_is_hidden(layers: Seq<Layer>, i: int)
    requires
        0 <= i < layers.len(),
        layers[i].wf(),
        layers[i].draw_x + layers[i].rotated@.width <= 0 || layers[i].draw_x
            >= layers[i].canvas_width || layers[i].draw_y + layers[i].rotated@.height() <= 0
            || layers[i].draw_y >= layers[i].canvas_height,
    ensures
        layers[i].opaque_indices@.len() == 0,
        !visible_flags(footprints(layers))[i],
{
    lemma_off_canvas_paints_nothing(
        layers[i].opaque_indices@,
        layers[i].rotated@,
        layers[i].draw_x as int,
        layers[i].draw_y as int,
        layers[i].canvas_width as nat,
        layers[i].canvas_height as nat,
    );
    lemma_empty_footprint_is_hidden(footprints(layers), i);
}

/// Whether two well-formed layers are built from the same sticker and from
/// rasters with the same pixels, for canvases of the same size.
pub open spec fn same_input(a: Layer, b: Layer) -> bool {
    &&& a.wf()
    &&& b.wf()
    &&& a.sticker == b.sticker
    &&& a.rotated@ == b.rotated@
    &&& a.canvas_width == b.canvas_width
    &&& a.canvas_height == b.canvas_height
}

/// Compositing the same request twice gives the same pixels: on canvases
/// with the same pixels, two lists of well-formed layers that agree, layer
/// by layer, in their stickers, their rasters' pixels and their canvas size
/// show the same layers and end with the same canvas.
pub proof fn lemma_compositing_repeats(
    canvas_a: RasterView,
    canvas_b: RasterView,
    a: Seq<Layer>,
    b: Seq<Layer>,
)
    requires
        canvas_a == canvas_b,
        a.len() == b.len(),
        forall|i: int| 0 <= i < a.len() ==> same_input(#[trigger] a[i], b[i]),
    ensures
        visible_flags(footprints(a)) == visible_flags(footprints(b)),
        composited(canvas_a, a, visible_flags(footprints(a)), a.len() as int) == composited(
            canvas_b,
            b,
            visible_flags(footprints(b)),
            b.len() as int,
        ),
{
    assert forall|i: int| 0 <= i < a.len() implies #[trigger] footprints(a)[i] == footprints(
        b,
    )[i] by {
        assert(same_input(a[i], b[i]));
        lemma_footprint_unique(
            a[i].opaque_indices@,
            b[i].opaque_indices@,
            a[i].rotated@,
            a[i].draw_x as int,
            a[i].draw_y as int,
            a[i].canvas_width as nat,
            a[i].canvas_height as nat,
        );
    }
    assert(footprints(a) =~= footprints(b));
    lemma_same_composite(canvas_a, a, b, visible_flags(footprints(a)), a.len() as int);
}

/// The induction behind [`lemma_compositing_repeats`].
proof fn lemma_same_composite(canvas: RasterView, a: Seq<Layer>, b: Seq<Layer>, flags: Seq<bool>, n: int)
    requires
        a.len() == b.len(),
        0 <= n <= a.len(),
        forall|i: int| 0 <= i < a.len() ==> same_input(#[trigger] a[i], b[i]),
    ensures
        composited(canvas, a, flags, n) == composited(canvas, b, flags, n),
    decreases n,
{
    if n > 0 {
        lemma_same_composite(canvas, a, b, flags, n - 1);
        assert(same_input(a[n - 1], b[n - 1]));
    }
}

/// Compositing keeps the size of the canvas.
pub proof fn lemma_composited_size(canvas: RasterView, layers: Seq<Layer>, flags: Seq<bool>, n: int)
    ensures
        composited(canvas, layers, flags, n).width == canvas.width,
        composited(canvas, layers, flags, n).height() == canvas.height(),
    decreases n,
{
    if n > 0 {
        lemma_composited_size(canvas, layers, flags, n - 1);
    }
}

/// Compositing touches only what the drawn layers paint: a canvas pixel that
/// is in the opaque footprint of none of the layers that are drawn keeps its
/// color.
pub proof fn lemma_unpainted_pixel_is_kept(
    canvas: RasterView,
    layers: Seq<Layer>,
    flags: Seq<bool>,
    n: int,
    x: int,
    y: int,
)
    requires
        0 <= n <= layers.len(),
        canvas.contains(x, y),
        built_for(layers, canvas.width, canvas.height()),
        forall|i: int| 0 <= i < n ==> (#[trigger] layers[i]).wf(),
        forall|i: int|
            0 <= i < n && flags[i] ==> !(#[trigger] layers[i]).opaque_indices@.contains(
                (y * canvas.width + x) as usize,
            ),
    ensures
        composited(canvas, layers, flags, n).at(x, y) == canvas.at(x, y),
    decreases n,
{
    if n > 0 {
        lemma_unpainted_pixel_is_kept(canvas, layers, flags, n - 1, x, y);
        lemma_composited_size(canvas, layers, flags, n - 1);
        if flags[n - 1] {
            let layer = layers[n - 1];
            let top = layer.rotated@;
            let (dx, dy) = (layer.draw_x as int, layer.draw_y as int);
            let idx = y * canvas.width + x;
            assert(layer.wf());
            lemma_index_of_coords(canvas.width as int, canvas.height() as int, x, y);
            if top.contains(x - dx, y - dy) && top.at(x - dx, y - dy).a > 0 {
                assert(opaque_at(top, dx, dy, canvas.width, canvas.height(), idx));
                let k = choose|k: int|
                    0 <= k < layer.opaque_indices@.len() && #[trigger] layer.opaque_indices@[k]
                        == idx;
                assert(layer.opaque_indices@[k] == idx as usize);
            }
        }
    }
}

} // verus!
