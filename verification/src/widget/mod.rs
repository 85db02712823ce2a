//! Widgets for displaying styled text objects in a given terminal width:
//! truncation with a symbol, repetition of a text, and boxes of widgets side
//! by side.
pub mod hbox;
pub mod repeat;
pub mod text_widget;
pub mod truncatable;

pub use hbox::{hbox_allocate, HBox};
pub use repeat::Repeat;
pub use text_widget::{Fitable, TextWidget};
pub use truncatable::{Truncateable, TruncationStrategy, TruncationStyle, TruncationSymbol};
