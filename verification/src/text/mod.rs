//! Text objects and the traits that give them string-like behavior:
//! replacing, slicing and splitting while respecting the styles applied to
//! the text.
pub mod expandable;
pub mod matching;
pub mod offsets;
pub mod painter;
pub mod pattern;
pub mod pushable;
pub mod raw_text;
pub mod replaceable;
pub mod sliceable;
pub mod spans;
pub mod splitable;
pub mod tag;
pub mod width;
pub mod width_sliceable;

pub use expandable::Expandable;
pub use painter::{painter_groups, Painter, StyleValue};
pub use pattern::{CaptureMatch, Pattern};
pub use pushable::Pushable;
pub use raw_text::RawText;
pub use replaceable::Replaceable;
pub use sliceable::{Bound, Bounds, Sliceable};
pub use spans::{SearchTree, ShiftError, Span, Spans};
pub use splitable::{Split, Splitable};
pub use tag::Tag;
pub use width::{width_sum, width_total, BoundedWidth, HasWidth, Width};
pub use width_sliceable::WidthSliceable;
