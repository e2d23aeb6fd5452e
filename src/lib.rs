//! Pixel sorting: a contrast mask selects spans of pixels along rows or
//! columns, and each span is sorted by a colour attribute.
//!
//! - `color`: pixels, exact fractions, and the HSV triple of a colour.
//! - `mask`: the contrast mask of an image.
//! - `span`: sorting the spans of one scan line.
//! - `grid`: scan lines of a row-major image, and sorting all of them.
//! - `engine`: one run over an image, with its settings.
//! - `settings`: reading a settings file.

pub mod color;
pub mod mask;
pub mod span;
pub mod grid;
pub mod engine;
pub mod settings;
