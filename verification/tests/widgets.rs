use ansi_term::{ANSIString, ANSIStrings, Color, Style};
use stylish_stringlike::text::{Bound, Bounds, Width, Painter, Pushable, Span, Spans, StyleValue, Tag, WidthSliceable};
use stylish_stringlike::widget::{hbox_allocate, Fitable, HBox, Repeat, TextWidget, TruncationStrategy, TruncationStyle};

/// An ANSI terminal style, painted by `ansi_term`.
#[derive(Debug, Clone, Copy, PartialEq, Default)]
struct Ansi(Style);

impl StyleValue for Ansi {
    fn same(&self, other: &Self) -> bool {
        self == other
    }
    fn duplicate(&self) -> Self {
        *self
    }
    fn plain() -> Self {
        Ansi(Style::default())
    }
}

impl Painter for Ansi {
    fn paint(&self, target: &str) -> String {
        self.0.paint(target).to_string()
    }
    fn paint_many(groups: &Vec<(&Self, &str)>) -> String {
        let strings: Vec<ANSIString> = groups
            .iter()
            .map(|(style, text)| style.0.paint(text.to_string()))
            .collect();
        format!("{}", ANSIStrings(strings.as_slice()))
    }
}

fn tag_spans(parts: &[(&Tag, &str)]) -> Spans<Tag> {
    let mut spans: Spans<Tag> = Default::default();
    for (tag, text) in parts {
        spans.push(&Span::borrowed(*tag, text));
    }
    spans
}

#[test]
fn make_hbox() {
    let fmt_1 = Tag::new("<1>", "</1>");
    let fmt_2 = Tag::new("<2>", "</2>");
    let fmt_3 = Tag::new("<3>", "</3>");
    let spans = tag_spans(&[(&fmt_2, "01234"), (&fmt_3, "56789")]);
    let truncator = {
        let ellipsis = tag_spans(&[(&fmt_1, "...")]);
        TruncationStyle::Left(ellipsis)
    };
    let widget = TextWidget::new(&spans, &truncator);
    let mut hbox = HBox::new();
    hbox.push(&widget);
    let out: Spans<Tag> = hbox.truncate(9);
    let actual = out.display();
    let expected = String::from("<2>01234</2><3>5</3><1>...</1>");
    assert_eq!(expected, actual);
}

#[test]
fn make_hbox_infinite() {
    let fmt_1 = Tag::new("<1>", "</1>");
    let fmt_2 = Tag::new("<2>", "</2>");
    let span = Span::borrowed(&fmt_2, "=");
    let repeat = Repeat::new(span);
    let truncator = TruncationStyle::Left(Span::borrowed(&fmt_1, "..."));
    let widget = TextWidget::new(&repeat, &truncator);
    let mut hbox = HBox::new();
    hbox.push(&widget);
    let out: Spans<Tag> = hbox.truncate(5);
    let actual = out.display();
    let expected = String::from("<2>==</2><1>...</1>");
    assert_eq!(expected, actual);
}

#[test]
fn make_hbox_literal() {
    let fmt_2 = Tag::new("<2>", "</2>");
    let fmt_3 = Tag::new("<3>", "</3>");
    let spans = tag_spans(&[(&fmt_2, "01234"), (&fmt_3, "56789")]);
    let truncator = TruncationStyle::Left("...");
    let widget = TextWidget::new(&spans, &truncator);
    let mut hbox = HBox::new();
    hbox.push(&widget);
    let out: Spans<Tag> = hbox.truncate(9);
    let actual = out.display();
    let expected = String::from("<2>01234</2><3>5...</3>");
    assert_eq!(expected, actual);
}

#[test]
fn truncate_widget() {
    let fmt_1 = Tag::new("<1>", "</1>");
    let fmt_2 = Tag::new("<2>", "</2>");
    let fmt_3 = Tag::new("<3>", "</3>");
    let spans = tag_spans(&[(&fmt_2, "01234"), (&fmt_3, "56789")]);
    let truncator = {
        let ellipsis = tag_spans(&[(&fmt_1, "...")]);
        TruncationStyle::Left(ellipsis)
    };
    let widget = TextWidget::new(&spans, &truncator);
    let actual = widget.truncate(9).unwrap().display();
    let expected = String::from("<2>01234</2><3>5</3><1>...</1>");
    assert_eq!(expected, actual);
}

#[test]
fn truncate_text() {
    let fmt_1 = Tag::new("<1>", "</1>");
    let fmt_2 = Tag::new("<2>", "</2>");
    let fmt_3 = Tag::new("<3>", "</3>");
    let spans = tag_spans(&[(&fmt_2, "01234"), (&fmt_3, "56789")]);
    let truncator = {
        let ellipsis = tag_spans(&[(&fmt_1, "...")]);
        TruncationStyle::Left(ellipsis)
    };
    let actual = truncator.truncate(&spans, 9).unwrap().display();
    let expected = String::from("<2>01234</2><3>5</3><1>...</1>");
    assert_eq!(expected, actual);
}

#[test]
fn truncate_none() {
    let fmt_2 = Tag::new("<2>", "</2>");
    let fmt_3 = Tag::new("<3>", "</3>");
    let spans = tag_spans(&[(&fmt_2, "01234"), (&fmt_3, "56789")]);
    let truncator: TruncationStyle<Option<Spans<Tag>>> = TruncationStyle::Left(None);
    let actual = truncator.truncate(&spans, 9).unwrap().display();
    let expected = String::from("<2>01234</2><3>5678</3>");
    assert_eq!(expected, actual);
}

#[test]
fn truncate_one() {
    let fmt_1 = Tag::new("<1>", "</1>");
    let fmt_2 = Tag::new("<2>", "</2>");
    let spans = tag_spans(&[(&fmt_2, "0")]);
    let truncator = {
        let ellipsis = tag_spans(&[(&fmt_1, "…")]);
        TruncationStyle::Left(ellipsis)
    };
    let actual = truncator.truncate(&spans, 1).unwrap().display();
    let expected = String::from("<2>0</2>");
    assert_eq!(expected, actual);
}

#[test]
fn truncate_cuts_a_symbol_wider_than_the_width() {
    let fmt_1 = Tag::new("<1>", "</1>");
    let fmt_2 = Tag::new("<2>", "</2>");
    let spans = tag_spans(&[(&fmt_2, "01234")]);
    let left = TruncationStyle::Left(tag_spans(&[(&fmt_1, "...")]));
    let out = left.truncate(&spans, 2).unwrap();
    assert_eq!(String::from("<1>..</1>"), out.display());
    let right = TruncationStyle::Right(tag_spans(&[(&fmt_1, "...")]));
    assert_eq!(String::from("<1>..</1>"), right.truncate(&spans, 2).unwrap().display());
}

#[test]
fn truncate_to_nothing_gives_none() {
    let fmt_2 = Tag::new("<2>", "</2>");
    let spans = tag_spans(&[(&fmt_2, "0123")]);
    let truncator = TruncationStyle::Right(tag_spans(&[(&fmt_2, "…")]));
    assert!(truncator.truncate(&spans, 0).is_none());
}

#[test]
fn truncate_right_and_inner_tags() {
    let fmt_1 = Tag::new("<1>", "</1>");
    let fmt_2 = Tag::new("<2>", "</2>");
    let spans = tag_spans(&[(&fmt_2, "0123456")]);
    let right = TruncationStyle::Right(tag_spans(&[(&fmt_1, "…")]));
    assert_eq!(right.truncate(&spans, 4).unwrap().display(), "<1>…</1><2>456</2>");
    let inner = TruncationStyle::Inner(tag_spans(&[(&fmt_1, "…")]));
    assert_eq!(inner.truncate(&spans, 4).unwrap().display(), "<2>01</2><1>…</1><2>6</2>");
}

#[test]
fn hbox_splits_space_between_widgets() {
    let fmt_1 = Tag::new("<1>", "</1>");
    let fmt_2 = Tag::new("<2>", "</2>");
    let fmt_3 = Tag::new("<3>", "</3>");
    let first = tag_spans(&[(&fmt_2, "01234")]);
    let second = tag_spans(&[(&fmt_3, "56789")]);
    let truncation = TruncationStyle::Left(tag_spans(&[(&fmt_1, "…")]));
    let widgets = vec![TextWidget::new(&first, &truncation), TextWidget::new(&second, &truncation)];
    let mut hbox = HBox::new();
    hbox.push(&widgets[0]);
    hbox.push(&widgets[1]);
    let out: Spans<Tag> = hbox.truncate(8);
    assert_eq!(out.display(), "<2>012</2><1>…</1><3>567</3><1>…</1>");
}

#[test]
fn hbox_gives_short_widget_its_width() {
    let fmt_1 = Tag::new("<1>", "</1>");
    let fmt_2 = Tag::new("<2>", "</2>");
    let short = tag_spans(&[(&fmt_2, "ab")]);
    let long = tag_spans(&[(&fmt_2, "cdefghij")]);
    let truncation = TruncationStyle::Left(tag_spans(&[(&fmt_1, "…")]));
    let widgets = vec![TextWidget::new(&short, &truncation), TextWidget::new(&long, &truncation)];
    let mut hbox = HBox::new();
    hbox.push(&widgets[0]);
    hbox.push(&widgets[1]);
    let out: Spans<Tag> = hbox.truncate(6);
    assert_eq!(out.display(), "<2>abcde</2><1>…</1>");
}

fn yellow_repeat(text: &str) -> Repeat<Ansi> {
    Repeat::new(Span::borrowed(&Ansi(Color::Yellow.normal()), text))
}

#[test]
fn make_repeat_trivial_null() {
    let repeat = yellow_repeat("");
    let actual = repeat.slice_width(Bounds::between(1, 100));
    assert!(actual.is_none());
}

#[test]
fn make_repeat_trivial_empty() {
    let repeat = yellow_repeat("0");
    let actual = repeat.slice_width(Bounds::between(0, 0));
    assert!(actual.is_none());
}

#[test]
fn make_repeat_trivial_inclusive() {
    let repeat = yellow_repeat("0");
    let res = repeat.slice_width(Bounds::up_to_inclusive(0));
    let actual = res.unwrap().display();
    let expected = format!("{}", Color::Yellow.paint("0"));
    assert_eq!(expected, actual);
}

#[test]
fn make_repeat_trivial_unbounded() {
    let repeat = yellow_repeat("0");
    let actual = repeat.slice_width(Bounds::starting_at(0));
    assert!(actual.is_none());
}

#[test]
fn make_repeat_trivial_single() {
    let repeat = yellow_repeat("0");
    let actual = repeat.slice_width(Bounds::up_to(1)).unwrap().display();
    let expected = format!("{}", Color::Yellow.paint("0"));
    assert_eq!(expected, actual);
}

#[test]
fn make_repeat_trivial_multiple() {
    let repeat = yellow_repeat("0");
    let actual = repeat.slice_width(Bounds::up_to(2)).unwrap().display();
    let expected = format!("{}", Color::Yellow.paint("00"));
    assert_eq!(expected, actual);
}

#[test]
fn repeat_make_repeat_long() {
    let repeat = yellow_repeat("01234");
    let actual = repeat.slice_width(Bounds::between(1, 14)).unwrap().display();
    let expected = format!("{}", Color::Yellow.paint("1234012340123"));
    assert_eq!(expected, actual);
}

#[test]
fn repeat_make_repeat_short() {
    let repeat = yellow_repeat("01234");
    let actual = repeat.slice_width(Bounds::up_to(3)).unwrap().display();
    let expected = format!("{}", Color::Yellow.paint("012"));
    assert_eq!(expected, actual);
}

#[test]
fn make_repeat_mid_inclusive() {
    let repeat = yellow_repeat("01234");
    let actual = repeat.slice_width(Bounds::between_inclusive(1, 3)).unwrap().display();
    let expected = format!("{}", Color::Yellow.paint("123"));
    assert_eq!(expected, actual);
}

#[test]
fn make_repeat_mid_ex_in() {
    let repeat = yellow_repeat("01234");
    let actual = repeat
        .slice_width(Bounds::new(Bound::Excluded(1), Bound::Included(3)))
        .unwrap()
        .display();
    let expected = format!("{}", Color::Yellow.paint("23"));
    assert_eq!(expected, actual);
}

#[test]
fn make_repeat_mid_ex_ex() {
    let repeat = yellow_repeat("01234");
    let actual = repeat
        .slice_width(Bounds::new(Bound::Excluded(1), Bound::Excluded(3)))
        .unwrap()
        .display();
    let expected = format!("{}", Color::Yellow.paint("2"));
    assert_eq!(expected, actual);
}

#[test]
fn repeat_make_repeat_left() {
    let repeat = yellow_repeat("01234");
    let actual = repeat.slice_width(Bounds::between(1, 9)).unwrap().display();
    let expected = format!("{}", Color::Yellow.paint("12340123"));
    assert_eq!(expected, actual);
}

#[test]
fn repeat_make_repeat_shifted_long() {
    let repeat = yellow_repeat("01234");
    let actual = repeat.slice_width(Bounds::between(7, 18)).unwrap().display();
    let expected = format!("{}", Color::Yellow.paint("23401234012"));
    assert_eq!(expected, actual);
}

#[test]
fn repeat_make_repeat_shifted_extra_long() {
    let repeat = yellow_repeat("01234");
    let actual = repeat.slice_width(Bounds::between(7, 23)).unwrap().display();
    let expected = format!("{}", Color::Yellow.paint("2340123401234012"));
    assert_eq!(expected, actual);
}

#[test]
fn repeat_goes_on_without_end() {
    let repeat = yellow_repeat("0");
    let actual = repeat.slice_width(Bounds::up_to(20)).unwrap().display();
    let expected = format!("{}", Color::Yellow.paint("00000000000000000000"));
    assert_eq!(expected, actual);
    let long = repeat.slice_width(Bounds::up_to(100)).unwrap().display();
    assert_eq!(format!("{}", Color::Yellow.paint("0".repeat(100))), long);
}

#[test]
fn repeat_excluded_start_counts_in_every_copy() {
    let repeat = yellow_repeat("01234");
    let range = Bounds::new(Bound::Excluded(1), Bound::Excluded(13));
    let actual = repeat.slice_width(range).unwrap().display();
    let expected = format!("{}", Color::Yellow.paint("23401234012"));
    assert_eq!(expected, actual);
}

#[test]
fn hbox_gives_fitting_widgets_their_width_and_shares_the_rest() {
    let widths = vec![Width::Bounded(3), Width::Bounded(10), Width::Unbounded];
    assert_eq!(hbox_allocate(&widths, 12), vec![3, 9, 0]);
    let widths = vec![Width::Bounded(2), Width::Unbounded, Width::Unbounded];
    assert_eq!(hbox_allocate(&widths, 9), vec![2, 4, 3]);
    let widths = vec![Width::Bounded(5), Width::Bounded(5), Width::Bounded(5)];
    assert_eq!(hbox_allocate(&widths, 10), vec![4, 3, 3]);
}
