//! Circular shapes: arcs, circles, annuli and their antialiased kin.

pub use crate::aa::{antialiased_arc, try_antialiased_arc, AAArc};
pub use crate::annulus::{annulus, pie_slice_filled, try_annulus, Annulus};
pub use crate::arc::{arc, try_arc, Arc};
pub use crate::circle::circle;
