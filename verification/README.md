stylish_stringlike
==================

Styled spans of text with string-like operations (push, slice by bytes or by
display columns, literal and regex replacement, splitting), and widgets that
truncate styled text to fit a terminal width, written in Verus. The
library's own logic is proved against its contracts; what the Unicode and
regex crates compute is taken on trust, through the items in
`src/outside.rs`.

Layout
------

- `src/text/spans/search_tree.rs`: the ordered map of run offsets to styles
  that every styled text keeps, with its laws (what a lookup gives after an
  insert); `dedup.rs` holds the laws of dropping repeated styles.
- `src/text/spans/`: `Spans` (a text and its runs of styles), `Span` (a text in
  one style), and replacement in styled text.
- `src/text/`: the traits (`RawText`, `Pushable`, `Sliceable`,
  `WidthSliceable`, `Replaceable`, `Expandable`, `Splitable`, `HasWidth`,
  `BoundedWidth`, `Painter`), `Width`, `Tag`, `Pattern` (a regular expression
  with its text), byte offsets of UTF-8 text and pattern matching.
- `src/widget/`: `Repeat`, `TruncationStyle`, `TextWidget` and `HBox`.
- `src/outside.rs`: the calls into `unicode-width`, `unicode-segmentation` and
  `regex`, with what each is taken to promise.

What the outside crates compute is named, not computed, in the
specifications: contracts speak of `display_width` and `grapheme_clusters`
for the two Unicode crates, and of `regex_compiles`, `regex_match_spans` and
`regex_expansion` for the regex crate. A contract that goes through one of
these names pins the result down in terms of the name; the functions that
take the named results as arguments (`scan_width_bounds`,
`replace_text_matches`, `Spans::splice_replacements`,
`Spans::replace_styled_matches`, `hbox_allocate`) are exact on their own.
