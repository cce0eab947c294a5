//! Clipping and rasterization of 2-D lattice geometry.
//!
//! Points live on the integer lattice.  Line segments and polygons are
//! clipped against rectangles and convex polygons, and the visible part is
//! converted to pixel writes on a bounds-checked canvas.  Every function is
//! verified against a contract stated over mathematical models.

pub mod arith;
pub mod clipped_region;
pub mod clipping;
pub mod corners;
pub mod draw;
pub mod fill_rule;
pub mod line;
pub mod pixel_color;
pub mod point2d;
pub mod polygon;
pub mod polygon_clip_facts;
pub mod raw_canvas;
pub mod rectangle_clip_facts;
pub mod scene;
pub mod seqs;
pub mod vector2d;
pub mod window_facts;
