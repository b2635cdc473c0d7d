//! Filled shapes with straight sides.

pub use crate::basics::rectangle_filled;
