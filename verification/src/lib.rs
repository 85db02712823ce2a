//! Styled spans of text with string-like operations, and widgets that
//! truncate styled text to a width.
mod outside;
pub mod text;
pub mod widget;
