//! Integer rasterization of circular shapes onto RGBA pixel buffers.
//!
//! Arcs, circles, filled annuli and antialiased circles are drawn with
//! incremental integer arithmetic only. Angles are held as directions from
//! the center, so that the octant of an angle and the side of an edge on
//! which a pixel lies are told exactly.
//!
//! Every executable function of this crate carries a contract that Verus
//! proves. Pixel buffers are those of the `image` crate, reached through the
//! small trusted surface in [`canvas`].

pub mod aa;
pub mod angle;
pub mod annulus;
pub mod arc;
pub mod basics;
pub mod canvas;
pub mod circle;
pub mod conics;
pub mod draw;
pub mod edge;
pub mod lines;
pub mod octants;
pub mod pos;
pub mod pt;
pub mod ring;
pub mod shapes;
pub mod translate;

pub use crate::angle::Dir;
pub use crate::basics::{draw_iter, rgba_array_index};
pub use crate::canvas::{Canvas, Color};
pub use crate::draw::{new, Draw};
pub use crate::pt::{Loc, Pt};
pub use crate::ring::calc_error;
