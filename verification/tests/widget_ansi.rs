use ansi_term::{ANSIStrings, Color, Style};
use stylish_stringlike::text::{Painter, Pushable, Span, Spans, StyleValue};
use stylish_stringlike::widget::{HBox, Repeat, TextWidget, TruncationStyle};

/// An ANSI terminal style, painted by `ansi_term`; each span is painted on
/// its own, with its own reset.
#[derive(Debug, Clone, Copy, PartialEq, Default)]
struct Ansi(Style);

impl StyleValue for Ansi {
    fn same(&self, other: &Self) -> bool {
        self == other
    }
    fn duplicate(&self) -> Self {
        *self
    }
    fn plain() -> Self {
        Ansi(Style::default())
    }
}

impl Painter for Ansi {
    fn paint(&self, target: &str) -> String {
        self.0.paint(target).to_string()
    }
    fn paint_many(groups: &Vec<(&Self, &str)>) -> String {
        groups.iter().map(|(style, text)| style.paint(text)).collect()
    }
}

fn make_spans(style: &Style, text: &str) -> Spans<Ansi> {
    let span = Span::borrowed(&Ansi(*style), text);
    let mut spans: Spans<Ansi> = Default::default();
    spans.push(&span);
    spans
}

fn box_of_one(text: &Spans<Ansi>, truncation: &TruncationStyle<Option<Spans<Ansi>>>, width: usize) -> String {
    let widget = TextWidget::new(text, truncation);
    let mut hbox = HBox::new();
    hbox.push(&widget);
    let out: Spans<Ansi> = hbox.truncate(width);
    out.display()
}

fn box_of_two(
    first: &Spans<Ansi>,
    second: &Spans<Ansi>,
    truncation: &TruncationStyle<Option<Spans<Ansi>>>,
    width: usize,
) -> String {
    let widgets = vec![TextWidget::new(first, truncation), TextWidget::new(second, truncation)];
    let mut hbox = HBox::new();
    hbox.push(&widgets[0]);
    hbox.push(&widgets[1]);
    let out: Spans<Ansi> = hbox.truncate(width);
    out.display()
}

fn compound(content0: &str, content1: &str) -> Spans<Ansi> {
    let mut text = make_spans(&Color::Red.normal(), content0);
    text.push(&make_spans(&Color::Green.normal(), content1));
    text
}

fn ellipsis() -> Option<Spans<Ansi>> {
    Some(make_spans(&Color::Blue.normal(), "…"))
}

fn repeat_output(truncation: &TruncationStyle<Option<Spans<Ansi>>>, width: usize) -> String {
    let span = Span::borrowed(&Ansi(Color::Blue.normal()), "=");
    let repeat_widget = Repeat::new(span);
    let repeat_text_widget = TextWidget::new(&repeat_widget, truncation);
    let mut hbox = HBox::new();
    hbox.push(&repeat_text_widget);
    let out: Spans<Ansi> = hbox.truncate(width);
    out.display()
}

#[test]
fn mod_truncate_trivial_left() {
    let style = Color::Red.normal();
    let text = make_spans(&style, "0123456");
    let truncation = TruncationStyle::Left(ellipsis());
    let actual = box_of_one(&text, &truncation, 4);
    let expected = format!("{}{}", style.paint("012"), Color::Blue.normal().paint("…"));
    assert_eq!(expected, actual);
}

#[test]
fn mod_truncate_compound_span_left() {
    let text = compound("0123456", "789");
    let truncation = TruncationStyle::Left(ellipsis());
    let actual = box_of_one(&text, &truncation, 4);
    let expected = format!("{}{}", Color::Red.normal().paint("012"), Color::Blue.normal().paint("…"));
    assert_eq!(expected, actual);
}

#[test]
fn mod_truncate_two_widgets_first_left() {
    let first = make_spans(&Color::Red.normal(), "01234");
    let second = make_spans(&Color::Green.normal(), "56789");
    let truncation = TruncationStyle::Left(ellipsis());
    let actual = box_of_two(&first, &second, &truncation, 8);
    let expected = format!(
        "{}{}{}{}",
        Color::Red.normal().paint("012"),
        Color::Blue.normal().paint("…"),
        Color::Green.normal().paint("567"),
        Color::Blue.normal().paint("…"),
    );
    assert_eq!(expected, actual);
}

#[test]
fn mod_truncate_trivial_left_noop() {
    let style = Color::Red.normal();
    let content = "0123456";
    let string = style.paint(content);
    let text = make_spans(&style, content);
    let truncation = TruncationStyle::Left(ellipsis());
    let actual = box_of_one(&text, &truncation, 7);
    let expected = format!("{}", ANSIStrings(&[string]));
    assert_eq!(expected, actual);
}

#[test]
fn mod_trunctate_infinite_left() {
    let truncator_style = Color::Black.normal();
    let truncation = TruncationStyle::Left(Some(make_spans(&truncator_style, ".")));
    let actual = repeat_output(&truncation, 5);
    let expected = format!("{}{}", Color::Blue.normal().paint("===="), truncator_style.paint("."));
    assert_eq!(expected, actual);
}

#[test]
fn mod_truncate_trivial_right() {
    let style = Color::Red.normal();
    let text = make_spans(&style, "0123456");
    let truncation = TruncationStyle::Right(ellipsis());
    let actual = box_of_one(&text, &truncation, 4);
    let expected = format!("{}{}", Color::Blue.normal().paint("…"), style.paint("456"));
    assert_eq!(expected, actual);
}

#[test]
fn mod_truncate_two_widgets_first_right() {
    let first = make_spans(&Color::Red.normal(), "01234");
    let second = make_spans(&Color::Green.normal(), "56789");
    let truncation = TruncationStyle::Right(ellipsis());
    let actual = box_of_two(&first, &second, &truncation, 8);
    let expected = format!(
        "{}{}{}{}",
        Color::Blue.normal().paint("…"),
        Color::Red.normal().paint("234"),
        Color::Blue.normal().paint("…"),
        Color::Green.normal().paint("789"),
    );
    assert_eq!(expected, actual);
}

#[test]
fn mod_truncate_trivial_right_noop() {
    let style = Color::Red.normal();
    let content = "0123456";
    let string = style.paint(content);
    let text = make_spans(&style, content);
    let truncation = TruncationStyle::Right(ellipsis());
    let actual = box_of_one(&text, &truncation, 7);
    let expected = format!("{}", ANSIStrings(&[string]));
    assert_eq!(expected, actual);
}

#[test]
fn mod_trunctate_infinite_right() {
    let truncator_style = Color::Black.normal();
    let truncation = TruncationStyle::Right(Some(make_spans(&truncator_style, ".")));
    let actual = repeat_output(&truncation, 5);
    let expected = format!("{}{}", truncator_style.paint("."), Color::Blue.normal().paint("===="));
    assert_eq!(expected, actual);
}

#[test]
fn mod_truncate_trivial_inner() {
    let style = Color::Red.normal();
    let text = make_spans(&style, "0123456");
    let truncation = TruncationStyle::Inner(ellipsis());
    let actual = box_of_one(&text, &truncation, 4);
    let expected = format!("{}{}{}", style.paint("01"), Color::Blue.normal().paint("…"), style.paint("6"));
    assert_eq!(expected, actual);
}

#[test]
fn mod_truncate_compound_span_inner() {
    let text = compound("01234", "56789");
    let truncation = TruncationStyle::Inner(ellipsis());
    let actual = box_of_one(&text, &truncation, 6);
    let expected = format!(
        "{}{}{}",
        Color::Red.normal().paint("012"),
        Color::Blue.normal().paint("…"),
        Color::Green.normal().paint("89"),
    );
    assert_eq!(expected, actual);
}

#[test]
fn mod_truncate_two_widgets_first_inner() {
    let first = make_spans(&Color::Red.normal(), "01234");
    let second = make_spans(&Color::Green.normal(), "56789");
    let truncation = TruncationStyle::Inner(ellipsis());
    let actual = box_of_two(&first, &second, &truncation, 8);
    let expected = format!(
        "{}{}{}{}{}{}",
        Color::Red.normal().paint("01"),
        Color::Blue.normal().paint("…"),
        Color::Red.normal().paint("4"),
        Color::Green.normal().paint("56"),
        Color::Blue.normal().paint("…"),
        Color::Green.normal().paint("9"),
    );
    assert_eq!(expected, actual);
}

#[test]
fn mod_truncate_trivial_inner_noop() {
    let style = Color::Red.normal();
    let content = "0123456";
    let text = make_spans(&style, content);
    let truncation = TruncationStyle::Inner(ellipsis());
    let actual = box_of_one(&text, &truncation, 7);
    let expected = format!("{}", ANSIStrings(&[style.paint(content)]));
    assert_eq!(expected, actual);
}

#[test]
fn mod_trunctate_infinite_inner() {
    let truncator_style = Color::Black.normal();
    let truncator = truncator_style.paint(".");
    let truncation = TruncationStyle::Inner(Some(make_spans(&truncator_style, ".")));
    let actual = repeat_output(&truncation, 5);
    let expected = format!(
        "{}{}{}",
        Color::Blue.normal().paint("=="),
        truncator.clone(),
        Color::Blue.normal().paint("=="),
    );
    assert_eq!(expected, actual);
}

#[test]
fn trunctate_infinite_none_left() {
    let truncation = TruncationStyle::Left(Some(make_spans(&Color::Black.normal(), ".")));
    assert_eq!(String::new(), repeat_output(&truncation, 0));
}

#[test]
fn trunctate_infinite_none_right() {
    let truncation = TruncationStyle::Right(Some(make_spans(&Color::Black.normal(), ".")));
    assert_eq!(String::new(), repeat_output(&truncation, 0));
}

#[test]
fn trunctate_infinite_none_inner() {
    let truncation = TruncationStyle::Inner(Some(make_spans(&Color::Black.normal(), ".")));
    assert_eq!(String::new(), repeat_output(&truncation, 0));
}

#[test]
fn trunctate_infinite_only_symbol() {
    let truncator_style = Color::Black.normal();
    let truncation = TruncationStyle::Inner(Some(make_spans(&truncator_style, ".")));
    let expected = format!("{}", truncator_style.paint("."));
    assert_eq!(expected, repeat_output(&truncation, 1));
}
