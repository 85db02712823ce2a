use ansi_term::{ANSIString, Color, Style};
use stylish_stringlike::text::{Bound, Bounds, Painter, RawText, Sliceable, Span, StyleValue, WidthSliceable};

/// An ANSI terminal style, painted by `ansi_term`.
#[derive(Debug, Clone, Copy, PartialEq, Default)]
struct Ansi(Style);

impl StyleValue for Ansi {
    fn same(&self, other: &Self) -> bool {
        self == other
    }
    fn duplicate(&self) -> Self {
        *self
    }
    fn plain() -> Self {
        Ansi(Style::default())
    }
}

impl Painter for Ansi {
    fn paint(&self, target: &str) -> String {
        self.0.paint(target).to_string()
    }
    fn paint_many(groups: &Vec<(&Self, &str)>) -> String {
        groups.iter().map(|(style, text)| style.paint(text)).collect()
    }
}

fn to_ansi(span: &Span<Ansi>) -> ANSIString<'static> {
    span.style().0.paint(span.raw())
}

fn black(text: &str) -> Span<Ansi> {
    Span::new(Ansi(Color::Black.normal()), String::from(text))
}

#[test]
fn span_convert() {
    let style = Ansi(Style::new());
    let span = Span::borrowed(&style, "foo");
    let actual: ANSIString = to_ansi(&span);
    let expected = Style::new().paint("foo");
    assert_eq!(expected, actual);
}

#[test]
fn fmt() {
    let style = Ansi(Style::new());
    let span = Span::borrowed(&style, "foo");
    let foo: ANSIString = to_ansi(&span);
    let actual = span.display();
    let expected = format!("{}", foo);
    assert_eq!(expected, actual);
}

#[test]
fn slice() {
    let span = black("012345678");
    let res = span.slice(Bounds::between(1, 8));
    let actual = res.unwrap().display();
    let expected = format!("{}", Color::Black.paint("1234567"));
    assert_eq!(expected, actual);
}

#[test]
fn slice_width_middle() {
    let span = black("012345678");
    let res = span.slice_width(Bounds::between(1, 2));
    let actual = res.unwrap().display();
    let expected = format!("{}", Color::Black.paint("1"));
    assert_eq!(expected, actual);
}

#[test]
fn slice_width_left() {
    let span = black("012345678");
    let res = span.slice_width(Bounds::up_to(1));
    let actual = res.unwrap().display();
    let expected = format!("{}", Color::Black.paint("0"));
    assert_eq!(expected, actual);
}

#[test]
fn slice_width_right() {
    let span = black("012345678");
    let res = span.slice_width(Bounds::starting_at(8));
    let actual = res.unwrap().display();
    let expected = format!("{}", Color::Black.paint("8"));
    assert_eq!(expected, actual);
}

#[test]
fn slice_width_emoji_left_none() {
    let span = black("😼🙋👩📪");
    let actual = span.slice_width(Bounds::up_to(1));
    let expected = None;
    assert_eq!(expected, actual);
}

#[test]
fn slice_width_emoji_left_some() {
    let span = black("😼🙋👩📪");
    let res = span.slice_width(Bounds::up_to(2));
    let actual = res.unwrap().display();
    let expected = format!("{}", Color::Black.paint("😼"));
    assert_eq!(expected, actual);
}

#[test]
fn slice_width_emoji_left_more() {
    let span = black("😼🙋👩📪");
    let res = span.slice_width(Bounds::up_to(3));
    let actual = res.unwrap().display();
    let expected = format!("{}", Color::Black.paint("😼"));
    assert_eq!(expected, actual);
}

#[test]
fn slice_width_emoji_left_even_more() {
    let span = black("😼🙋👩📪");
    let res = span.slice_width(Bounds::up_to(4));
    let actual = res.unwrap().display();
    let expected = format!("{}", Color::Black.paint("😼🙋"));
    assert_eq!(expected, actual);
}

#[test]
fn slice_width_emoji_middle_none_less() {
    let span = black("😼🙋👩📪");
    let actual = span.slice_width(Bounds::between(1, 2));
    let expected = None;
    assert_eq!(expected, actual);
}

#[test]
fn slice_width_emoji_middle_none_more() {
    let span = black("😼🙋👩📪");
    let actual = span.slice_width(Bounds::between(1, 3));
    let expected = None;
    assert_eq!(expected, actual);
}

#[test]
fn slice_width_emoji_middle_some() {
    let span = black("😼🙋👩📪");
    let res = span.slice_width(Bounds::between(1, 4));
    let actual = res.unwrap().display();
    let expected = format!("{}", Color::Black.paint("🙋"));
    assert_eq!(expected, actual);
}

#[test]
fn slice_width_emoji_middle_more() {
    let span = black("😼🙋👩📪");
    let res = span.slice_width(Bounds::between(1, 6));
    let actual = res.unwrap().display();
    let expected = format!("{}", Color::Black.paint("🙋👩"));
    assert_eq!(expected, actual);
}

#[test]
fn slice_width_emoji_right_none_trivial() {
    let span = black("😼🙋👩📪");
    let actual = span.slice_width(Bounds::starting_at(8));
    let expected = None;
    assert_eq!(expected, actual);
}

#[test]
fn slice_width_emoji_right_none_simple() {
    let span = black("😼🙋👩📪");
    let actual = span.slice_width(Bounds::starting_at(7));
    let expected = None;
    assert_eq!(expected, actual);
}

#[test]
fn slice_width_emoji_right_some() {
    let span = black("😼🙋👩📪");
    let res = span.slice_width(Bounds::starting_at(6));
    let actual = res.unwrap().display();
    let expected = format!("{}", Color::Black.paint("📪"));
    assert_eq!(expected, actual);
}

#[test]
fn slice_width_full() {
    let span = black("😼🙋👩📪");
    let res = span.slice_width(Bounds::full());
    let actual = res.unwrap().display();
    let expected = format!("{}", Color::Black.paint("😼🙋👩📪"));
    assert_eq!(expected, actual);
}

#[test]
fn slice_excluded_bounds() {
    let span = black("012345678");
    let res = span.slice(Bounds::new(Bound::Excluded(1), Bound::Included(3)));
    assert_eq!(res.unwrap().raw(), "23");
}
