//! Layered compositing of placed stickers onto a canvas, with pixel-exact
//! occlusion culling and click-zone metadata.
//!
//! A request is a background and an ordered list of stickers, bottommost
//! first, each with an image, a position, a size and a rotation. One
//! compositing run
//!
//! 1. checks the request ([`model`]),
//! 2. resizes each sticker's image and pads it for rotation, and, once it is
//!    rotated, places it on the canvas and records the canvas pixels that it
//!    paints ([`layer`], [`footprint`]),
//! 3. sweeps the layers from the topmost down to find those that are not
//!    wholly covered ([`occlusion`]),
//! 4. lays the visible ones on the canvas, bottommost first, and describes
//!    each by the corners of its rotated rectangle ([`compositor`]).
//!
//! Beside the pipeline stand the plane geometry that it uses ([`geometry`]),
//! a quadtree for coarse overlap queries between bounding boxes
//! ([`quadtree`]), the naming of output files ([`naming`]) and the rule by
//! which old ones are found again ([`cleanup`]).
//!
//! Positions are fixed-point, in hundredths of a pixel; sizes are whole
//! pixels. The library holds no floating-point number: an angle comes with
//! its cosine and sine, and rotating a raster is left to the caller.
//!
//! Everything is verified but two functions of [`raster`], which hand the
//! resampling and the blending of pixels to the `image` crate.

pub mod cleanup;
pub mod compositor;
pub mod footprint;
pub mod geometry;
pub mod layer;
pub mod model;
pub mod naming;
pub mod occlusion;
pub mod quadtree;
pub mod raster;
