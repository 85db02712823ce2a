use ansi_term::{ANSIString, ANSIStrings, Color, Style};
use stylish_stringlike::text::{
    Bounds, Painter, Pushable, Replaceable, Sliceable, Span, Spans, Split, Splitable, StyleValue, Tag,
};
use stylish_stringlike::widget::{HBox, TextWidget, TruncationStyle};

/// An ANSI terminal style, painted by `ansi_term`.
#[derive(Debug, Clone, Copy, PartialEq, Default)]
struct Ansi(Style);

impl StyleValue for Ansi {
    fn same(&self, other: &Self) -> bool {
        self == other
    }
    fn duplicate(&self) -> Self {
        *self
    }
    fn plain() -> Self {
        Ansi(Style::default())
    }
}

impl Painter for Ansi {
    fn paint(&self, target: &str) -> String {
        self.0.paint(target).to_string()
    }
    fn paint_many(groups: &Vec<(&Self, &str)>) -> String {
        let strings: Vec<ANSIString> = groups
            .iter()
            .map(|(style, text)| style.0.paint(text.to_string()))
            .collect();
        format!("{}", ANSIStrings(strings.as_slice()))
    }
}

fn ansi_span(string: &ANSIString<'_>) -> Span<Ansi> {
    let text: &str = string;
    Span::borrowed(&Ansi(*string.style_ref()), text)
}

fn make_spans(style: &Style, text: &str) -> Spans<Ansi> {
    let mut spans: Spans<Ansi> = Default::default();
    spans.push(&Span::borrowed(&Ansi(*style), text));
    spans
}

#[test]
fn readme_usage() {
    let italic = Tag::new("<i>", "</i>");
    let bold = Tag::new("<b>", "</b>");
    let underline = Tag::new("<u>", "</u>");

    let foo: Span<Tag> = Span::borrowed(&italic, "foo");
    let bar: Span<Tag> = Span::borrowed(&bold, "bar");

    let foobar = foo.join(&bar);
    assert_eq!(foobar.display(), "<i>foo</i><b>bar</b>");

    let foobaz = foobar.replace("bar", "baz");
    assert_eq!(foobaz.display(), "<i>foo</i><b>baz</b>");

    let mut buz: Spans<Tag> = Default::default();
    buz.push(&Span::borrowed(&underline, "buz"));

    let foobuz = foobar.replace("bar", &buz);
    assert_eq!(foobuz.display(), "<i>foo</i><u>buz</u>");

    let foob = foobar.slice(Bounds::up_to(4)).unwrap();
    assert_eq!(foob.display(), "<i>foo</i><b>b</b>");

    fn make_tag_spans(style: &Tag, text: &str) -> Spans<Tag> {
        let spans: Spans<Tag> = Default::default();
        let span: Span<Tag> = Span::borrowed(style, text);
        spans.join_span(&span)
    }
    let truncation = TruncationStyle::Inner(Some(Span::borrowed(&underline, "…")));
    let spans = vec![make_tag_spans(&italic, "abcdefg"), make_tag_spans(&bold, "12345678")];
    let widgets: Vec<TextWidget<Spans<Tag>, TruncationStyle<Option<Span<Tag>>>>> =
        spans.iter().map(|s| TextWidget::new(s, &truncation)).collect();
    let mut hbox = HBox::new();
    for widget in widgets.iter() {
        hbox.push(widget);
    }
    let out: Spans<Tag> = hbox.truncate(10);
    assert_eq!(out.display(), "<i>ab</i><u>…</u><i>fg</i><b>12</b><u>…</u><b>78</b>");
}

#[test]
fn lib_split_path() {
    let texts = vec![
        Color::Black.paint("::"),
        Color::Red.paint("SomeExtremelyLong"),
        Color::Blue.paint("::"),
        Color::Green.paint("RandomAndPoorlyNamed"),
        Color::Cyan.paint("::"),
        Color::White.paint("Path"),
        Color::Yellow.paint("::"),
    ];
    let parts: Vec<Span<Ansi>> = texts.iter().map(ansi_span).collect();
    let spans = Spans::from_spans(&parts);
    let ellipsis_string = Color::Blue.paint("…");
    let ellipsis_span = make_spans(&Color::Blue.normal(), "…");
    let truncation = TruncationStyle::Inner(ellipsis_span.duplicate());

    let pieces: Vec<Spans<Ansi>> = spans
        .split_style("::")
        .into_iter()
        .map(|Split { segment, delim }| vec![segment, delim])
        .flatten()
        .flatten()
        .collect();
    let widgets: Vec<TextWidget<Spans<Ansi>, TruncationStyle<Spans<Ansi>>>> =
        pieces.iter().map(|s| TextWidget::new(s, &truncation)).collect();
    let mut hbox = HBox::new();
    for widget in widgets.iter() {
        hbox.push(widget);
    }
    let out: Spans<Ansi> = hbox.truncate(20);
    let actual = out.display();
    let expected = format!(
        "{}",
        ANSIStrings(&[
            Color::Black.paint("::"),
            Color::Red.paint("So"),
            ellipsis_string.clone(),
            Color::Red.paint("g"),
            Color::Blue.paint("::"),
            Color::Green.paint("Ra"),
            ellipsis_string,
            Color::Green.paint("d"),
            Color::Cyan.paint("::"),
            Color::White.paint("Path"),
            Color::Yellow.paint("::"),
        ])
    );
    assert_eq!(expected, actual);
}

#[test]
fn split_path_2() {
    let path = Color::Blue.paint("some//path//with//segments");
    let span = ansi_span(&path);
    let spans = {
        let mut spans: Spans<Ansi> = Default::default();
        spans.push(&span);
        spans
    };
    let truncation = TruncationStyle::Inner(Some(make_spans(&Color::Blue.normal(), "……")));

    let pieces: Vec<Spans<Ansi>> = spans
        .split_style("::")
        .into_iter()
        .map(|Split { segment, delim }| vec![segment, delim])
        .flatten()
        .flatten()
        .collect();
    let widgets: Vec<TextWidget<Spans<Ansi>, TruncationStyle<Option<Spans<Ansi>>>>> =
        pieces.iter().map(|s| TextWidget::new(s, &truncation)).collect();
    let mut hbox = HBox::new();
    for widget in widgets.iter() {
        hbox.push(widget);
    }
    let out: Spans<Ansi> = hbox.truncate(50);
    let expected = format!("{}", path);
    assert_eq!(expected, out.display());
}
