//! A bidirectional textual encoding for annotating positions and ranges
//! inside a plain string with inline sentinel characters, and the inverse
//! operation that renders such annotations back into sentinel form.
//!
//! Annotated fixtures such as `one «ˇtwo» three` carry cursor positions and
//! selection ranges inside the text itself.  Decoding strips the sentinel
//! characters and reports offsets into the stripped text; encoding inserts
//! the sentinels back at the recorded offsets.  All offsets count scalar
//! values (`char`s) of the stripped text.

pub mod error;
pub mod extract;
pub mod laws;
pub mod marker;
pub mod parse;
pub mod render;
pub mod roles;
mod text;

pub use error::MarkedTextError;
pub use extract::marked_text_offsets_by;
pub use marker::TextRangeMarker;
pub use parse::marked_text_offsets;
pub use parse::marked_text_ranges;
pub use render::generate_marked_text;
pub use roles::marked_text_ranges_by;
