//! Lines along the rows and columns of a canvas, solid and dashed.

pub use crate::basics::{
    horizontal_dashed_line, horizontal_line, vertical_dashed_line, vertical_line,
};
