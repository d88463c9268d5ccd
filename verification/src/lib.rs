//! A verified decoder for the Hershey vector-font text format.
//!
//! A Hershey font is a newline-delimited text blob in which each non-empty
//! line encodes one glyph as fixed-width ASCII fields: a five-character
//! record index, a three-character pair count, two header characters giving
//! the declared left/right extents, and a stream of two-character
//! coordinate pairs separated by pen-up markers.
//!
//! The crate decodes such a blob into an immutable glyph table with a
//! font-wide bounding box, and proves that the decoded structures match the
//! format's rules exactly.

pub mod coord;
pub mod font;
pub mod glyph;
pub mod text;

pub use coord::char_to_int;
pub use font::{HersheyFont, HersheyFontGetGlyphError, HersheyFontNewError};
pub use glyph::{line_to_hershey_glyph, Edge, HersheyGlyph, HersheyGlyphError};
