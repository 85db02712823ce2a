use ansi_term::{ANSIString, ANSIStrings, Color, Style};
use stylish_stringlike::text::{
    Pattern,
    Bound, Bounds, BoundedWidth, Painter, Pushable, RawText, Replaceable, Sliceable, Span, Spans, Split,
    Splitable, StyleValue, WidthSliceable,
};

/// An ANSI terminal style, painted by `ansi_term`.
#[derive(Debug, Clone, Copy, PartialEq, Default)]
struct Ansi(Style);

impl StyleValue for Ansi {
    fn same(&self, other: &Self) -> bool {
        self == other
    }
    fn duplicate(&self) -> Self {
        *self
    }
    fn plain() -> Self {
        Ansi(Style::default())
    }
}

impl Painter for Ansi {
    fn paint(&self, target: &str) -> String {
        self.0.paint(target).to_string()
    }
    fn paint_many(groups: &Vec<(&Self, &str)>) -> String {
        let strings: Vec<ANSIString> = groups
            .iter()
            .map(|(style, text)| style.0.paint(text.to_string()))
            .collect();
        format!("{}", ANSIStrings(strings.as_slice()))
    }
}

fn span_of(string: &ANSIString<'_>) -> Span<Ansi> {
    Span::new(Ansi(*string.style_ref()), string.to_string_plain())
}

trait Plain {
    fn to_string_plain(&self) -> String;
}

impl Plain for ANSIString<'_> {
    fn to_string_plain(&self) -> String {
        let text: &str = self;
        text.to_string()
    }
}

fn strings_to_spans(strings: &[ANSIString<'_>]) -> Spans<Ansi> {
    let spans: Vec<Span<Ansi>> = strings.iter().map(span_of).collect();
    Spans::from_spans(&spans)
}

fn string_to_spans(string: &ANSIString<'_>) -> Spans<Ansi> {
    let mut spans: Spans<Ansi> = Default::default();
    spans.push(&span_of(string));
    spans
}

#[test]
fn test_slice_width_easy() {
    let text = strings_to_spans(&[Color::Green.paint("foo")]);
    let actual = text.slice_width(Bounds::up_to(2)).unwrap();
    let expected = strings_to_spans(&[Color::Green.paint("fo")]);
    assert_eq!(expected, actual);
}

#[test]
fn test_slice_width_left_hard() {
    let text = strings_to_spans(&[Color::Green.paint("👱👱👱")]);
    let actual = text.slice_width(Bounds::up_to(3)).unwrap();
    let expected = strings_to_spans(&[Color::Green.paint("👱")]);
    assert_eq!(expected, actual);
    let actual = text.slice_width(Bounds::up_to(4)).unwrap();
    let expected = strings_to_spans(&[Color::Green.paint("👱👱")]);
    assert_eq!(expected, actual);
}

#[test]
fn test_finite_width() {
    let text = strings_to_spans(&[Color::Green.paint("foo")]);
    let expected = 3;
    let actual = text.bounded_width();
    assert_eq!(expected, actual);
}

#[test]
fn mod_build_span() {
    let from = Color::Green.paint("foo");
    let to = string_to_spans(&from);
    let expected = format!("{}", from);
    let actual = to.display();
    assert_eq!(expected, actual);
}

#[test]
fn mod_build_spans() {
    let texts = [
        Color::Red.paint("a"),
        Color::Blue.paint("b"),
        Color::Blue.paint("⛇"),
    ];
    let text = strings_to_spans(&texts);
    let string = ANSIStrings(&texts);
    let strings = text
        .spans()
        .iter()
        .map(|span| span.style().0.paint(span.raw()))
        .collect::<Vec<_>>();
    let output = ANSIStrings(&strings);
    let expected = format!("{}", string);
    let actual = format!("{}", output);
    assert_eq!(expected, actual);
}

#[test]
fn mod_simple_replace() {
    let text = strings_to_spans(&[Color::Red.paint("foo")]);
    let actual = text.replace("foo", "bar");
    let expected = strings_to_spans(&[Color::Red.paint("bar")]);
    assert_eq!(expected, actual);
}

#[test]
fn mod_replace_in_span() {
    let text = strings_to_spans(&[Color::Red.paint("Bob "), Color::Blue.paint("Dylan")]);
    let new_text = text.replace("Bob", "Robert");
    let target_text = strings_to_spans(&[Color::Red.paint("Robert "), Color::Blue.paint("Dylan")]);
    assert_eq!(new_text, target_text);
}

#[test]
fn replace_chars() {
    let text = strings_to_spans(&[
        Color::Blue.paint("what"),
        Color::Red.paint("//\\/;,!"),
        Color::Blue.paint("the fudge"),
    ]);
    let new_text = text.replace("/", "/");
    let target_text = strings_to_spans(&[
        Color::Blue.paint("what"),
        Color::Red.paint("//\\/;,!"),
        Color::Blue.paint("the fudge"),
    ]);
    assert_eq!(new_text, target_text);
}

#[test]
fn mod_replace_across_span_simple_2() {
    let text = strings_to_spans(&[
        Color::Red.paint("Here is some f"),
        Color::Blue.paint("oo foo fo"),
        Color::Green.paint("o"),
    ]);
    let new_text = text.replace("foo", "bar");
    let target_text = strings_to_spans(&[
        Color::Red.paint("Here is some b"),
        Color::Blue.paint("ar bar ba"),
        Color::Green.paint("r"),
    ]);
    assert_eq!(new_text, target_text);
}

#[test]
fn mod_simple_regex_replace() {
    let text = strings_to_spans(&[Color::Red.paint("foooo")]);
    let new_text = text.replace_regex(&Pattern::new("fo+").unwrap(), "bar");
    let target_text = strings_to_spans(&[Color::Red.paint("bar")]);
    assert_eq!(new_text, target_text);
}

#[test]
fn mod_replace_regex_across_span_simple_trival() {
    let text = strings_to_spans(&[Color::Red.paint("Here lies "), Color::Blue.paint("Beavis")]);
    let new_text = text.replace_regex(
        &Pattern::new(r"(Here lies) Beavis").unwrap(),
        "Here lies Butthead",
    );
    let target_text = strings_to_spans(&[
        Color::Red.paint("Here lies "),
        Color::Blue.paint("Butthead"),
    ]);
    assert_eq!(new_text, target_text);
}

#[test]
fn mod_replace_regex_across_span_simple_backref() {
    let text = strings_to_spans(&[Color::Red.paint("Here lies "), Color::Blue.paint("Beavis")]);
    let new_text = text.replace_regex(&Pattern::new(r"(Here lies) Beavis").unwrap(), "$1 Butthead");
    let target_text = strings_to_spans(&[
        Color::Red.paint("Here lies "),
        Color::Blue.paint("Butthead"),
    ]);
    assert_eq!(new_text, target_text);
}

#[test]
fn mod_replace_regex_across_span_simple_2_backref() {
    let text = strings_to_spans(&[
        Color::Red.paint("Here is some f"),
        Color::Blue.paint("ooo fuuu f"),
        Color::Green.paint("aaa"),
    ]);
    let new_text = text.replace_regex(&Pattern::new("f(([aeiou])+)").unwrap(), "b${2}r");
    let target_text = strings_to_spans(&[
        Color::Red.paint("Here is some b"),
        Color::Blue.paint("or bur b"),
        Color::Green.paint("ar"),
    ]);
    assert_eq!(new_text, target_text);
}

#[test]
fn mod_replace_regex_across_span_simple_2_trivial() {
    let text = strings_to_spans(&[
        Color::Red.paint("Here is some f"),
        Color::Blue.paint("ooo fuuu f"),
        Color::Green.paint("aaa"),
    ]);
    let new_text = text.replace_regex(&Pattern::new("f(([aeiou])+)").unwrap(), "bar");
    let target_text = strings_to_spans(&[
        Color::Red.paint("Here is some b"),
        Color::Blue.paint("ar bar b"),
        Color::Green.paint("ar"),
    ]);
    assert_eq!(new_text, target_text);
}

#[test]
fn replace_regex_empty() {
    let text = strings_to_spans(&[
        Color::Red.paint("Here is some f"),
        Color::Blue.paint("ooo fuuu f"),
        Color::Green.paint("aaa"),
    ]);
    let new_text = text.replace_regex(&Pattern::new("quux").unwrap(), "bar");
    assert_eq!(new_text, text);
}

#[test]
fn replace_regex_empty_fancy() {
    let text = strings_to_spans(&[
        Color::Red.paint("Here is some f"),
        Color::Blue.paint("ooo fuuu f"),
        Color::Green.paint("aaa"),
    ]);
    let new_text = text.replace_regex(&Pattern::new("([zyx])").unwrap(), "missing $1 letters");
    assert_eq!(new_text, text);
}

#[test]
fn span() {
    let texts = [
        Color::Red.paint("Here is some f"),
        Color::Blue.paint("ooo fuuu f"),
        Color::Green.paint("aaa"),
    ];
    let text = strings_to_spans(&texts);
    let span = text.spans().into_iter().next().unwrap();
    let expected = format!("{}", texts[0]);
    let actual = span.display();
    assert_eq!(expected, actual);
}

#[test]
fn raw() {
    let text = strings_to_spans(&[
        Color::Red.paint("Here is some f"),
        Color::Blue.paint("ooo fuuu f"),
        Color::Green.paint("aaa"),
    ]);
    let expected = String::from("Here is some fooo fuuu faaa");
    let actual = text.raw();
    assert_eq!(expected, actual);
}

#[test]
fn slice_start() {
    let text = strings_to_spans(&[Color::Red.paint("01234"), Color::Blue.paint("56789")]);
    let actual = text.slice(Bounds::between(0, 8)).unwrap();
    let expected = strings_to_spans(&[Color::Red.paint("01234"), Color::Blue.paint("567")]);
    assert_eq!(expected, actual);
}

#[test]
fn slice_middle() {
    let text = strings_to_spans(&[
        Color::Red.paint("012"),
        Color::Blue.paint("345"),
        Color::Green.paint("678"),
    ]);
    let actual = text.slice(Bounds::between(2, 8)).unwrap();
    let expected = strings_to_spans(&[
        Color::Red.paint("2"),
        Color::Blue.paint("345"),
        Color::Green.paint("67"),
    ]);
    assert_eq!(expected, actual);
}

#[test]
fn slice_end() {
    let text = strings_to_spans(&[
        Color::Red.paint("012"),
        Color::Blue.paint("345"),
        Color::Green.paint("678"),
    ]);
    let actual = text.slice(Bounds::starting_at(2)).unwrap();
    let expected = strings_to_spans(&[
        Color::Red.paint("2"),
        Color::Blue.paint("345"),
        Color::Green.paint("678"),
    ]);
    assert_eq!(expected, actual);
}

#[test]
fn slice_full() {
    let text = strings_to_spans(&[
        Color::Red.paint("012"),
        Color::Blue.paint("345"),
        Color::Green.paint("678"),
    ]);
    let actual = text.slice(Bounds::full()).unwrap();
    let expected = strings_to_spans(&[
        Color::Red.paint("012"),
        Color::Blue.paint("345"),
        Color::Green.paint("678"),
    ]);
    assert_eq!(expected, actual);
}

#[test]
fn slice_excluded_start() {
    let text = strings_to_spans(&[Color::Red.paint("012"), Color::Blue.paint("345")]);
    // An excluded start moves the runs back by the excluded index itself, so
    // the second run begins one byte late.
    let actual = text.slice(Bounds::new(Bound::Excluded(1), Bound::Included(4))).unwrap();
    let expected = strings_to_spans(&[Color::Red.paint("23"), Color::Blue.paint("4")]);
    assert_eq!(expected, actual);
}

#[test]
fn replace_regex_styled_easy() {
    let text = strings_to_spans(&[
        Color::Red.paint("Foo"),
        Color::Blue.paint("Bar"),
        Color::Green.paint("Baz"),
    ]);
    let replacement = strings_to_spans(&[Color::Cyan.paint("Quux")]);
    let actual = text.replace_regex(&Pattern::new("Bar").unwrap(), &replacement);
    let expected = strings_to_spans(&[
        Color::Red.paint("Foo"),
        Color::Cyan.paint("Quux"),
        Color::Green.paint("Baz"),
    ]);
    assert_eq!(expected, actual);
}

#[test]
fn replace_regex_styled_complex() {
    let text = strings_to_spans(&[
        Color::Red.paint("555"),
        Color::Black.paint("."),
        Color::Blue.paint("444"),
        Color::White.paint("."),
        Color::Green.paint("3333"),
    ]);
    let replacement = strings_to_spans(&[
        Color::Red.paint("$1"),
        Color::Black.paint("-"),
        Color::Green.paint("$2"),
        Color::Black.paint("-"),
        Color::Blue.paint("$3"),
    ]);
    let regex = Pattern::new(r"(\d{3})[.-](\d{3})[.-](\d{4})").unwrap();
    let actual = text.replace_regex(&regex, &replacement);
    let expected = strings_to_spans(&[
        Color::Red.paint("555"),
        Color::Black.paint("-"),
        Color::Green.paint("444"),
        Color::Black.paint("-"),
        Color::Blue.paint("3333"),
    ]);
    assert_eq!(expected, actual);
}

#[test]
fn split_outer() {
    let texts = vec![
        Color::Black.paint("::"),
        Color::Red.paint("Some"),
        Color::Blue.paint("::"),
        Color::Green.paint("Random"),
        Color::Cyan.paint("::"),
        Color::White.paint("Place"),
        Color::Yellow.paint("::"),
    ];
    let spans = strings_to_spans(&texts);
    let actual = spans.split_style("::");
    let expected = vec![
        Split {
            segment: None,
            delim: Some(string_to_spans(&texts[0])),
        },
        Split {
            segment: Some(string_to_spans(&texts[1])),
            delim: Some(string_to_spans(&texts[2])),
        },
        Split {
            segment: Some(string_to_spans(&texts[3])),
            delim: Some(string_to_spans(&texts[4])),
        },
        Split {
            segment: Some(string_to_spans(&texts[5])),
            delim: Some(string_to_spans(&texts[6])),
        },
    ];
    assert_eq!(expected, actual);
}

#[test]
fn split_inner() {
    let texts = vec![
        Color::Red.paint("Some"),
        Color::Blue.paint("::"),
        Color::Green.paint("Random"),
        Color::Cyan.paint("::"),
        Color::White.paint("Place"),
    ];
    let spans = strings_to_spans(&texts);
    let actual = spans.split_style("::");
    let expected = vec![
        Split {
            segment: Some(string_to_spans(&texts[0])),
            delim: Some(string_to_spans(&texts[1])),
        },
        Split {
            segment: Some(string_to_spans(&texts[2])),
            delim: Some(string_to_spans(&texts[3])),
        },
        Split {
            segment: Some(string_to_spans(&texts[4])),
            delim: None,
        },
    ];
    assert_eq!(expected, actual);
}

#[test]
fn push_appends_text() {
    let mut text = strings_to_spans(&[Color::Red.paint("abc")]);
    let more = strings_to_spans(&[Color::Blue.paint("de"), Color::Green.paint("f")]);
    text.push(&more);
    assert_eq!(text.raw(), "abcdef");
    text.push(&span_of(&Color::Red.paint("g")));
    assert_eq!(text.raw(), "abcdefg");
    Pushable::<str>::push(&mut text, "h");
    assert_eq!(text.raw(), "abcdefgh");
    assert_eq!(
        text.spans().iter().map(|s| s.raw()).collect::<Vec<_>>(),
        vec!["abc".to_string(), "de".to_string(), "f".to_string(), "gh".to_string()]
    );
}

#[test]
fn replace_absent_keeps_text() {
    let text = strings_to_spans(&[Color::Red.paint("Bob "), Color::Blue.paint("Dylan")]);
    let same = text.replace("Zed", "Robert");
    assert_eq!(same, text);
}

#[test]
fn styled_replace_gives_plain_replace_text() {
    let text = strings_to_spans(&[
        Color::Red.paint("Here is some f"),
        Color::Blue.paint("oo foo fo"),
        Color::Green.paint("o"),
    ]);
    let styled = text.replace("foo", "quux");
    let plain = Replaceable::<&String>::replace(&text.raw(), "foo", &String::from("quux"));
    assert_eq!(styled.raw(), plain);
}

#[test]
fn split_rebuilds_text() {
    let text = strings_to_spans(&[
        Color::Black.paint("::"),
        Color::Red.paint("Some"),
        Color::Blue.paint("::"),
        Color::Green.paint("Path"),
    ]);
    let mut rebuilt = String::new();
    for Split { segment, delim } in text.split_style("::") {
        if let Some(s) = segment {
            rebuilt.push_str(&s.raw());
        }
        if let Some(d) = delim {
            rebuilt.push_str(&d.raw());
        }
    }
    assert_eq!(rebuilt, text.raw());
}

#[test]
fn split_without_delimiter_gives_whole_text() {
    let text = strings_to_spans(&[Color::Red.paint("abc")]);
    let splits = text.split_style("::");
    assert_eq!(splits, vec![Split { segment: Some(text.clone()), delim: None }]);
}

#[test]
fn from_str_is_plain() {
    let text: Spans<Ansi> = Spans::from_str("plain");
    assert_eq!(text.raw(), "plain");
    assert_eq!(text.spans().len(), 1);
    assert_eq!(*text.spans()[0].style(), Ansi::plain());
}

#[test]
fn join_spans_and_span() {
    let a = strings_to_spans(&[Color::Red.paint("ab")]);
    let b = strings_to_spans(&[Color::Blue.paint("cd")]);
    let joined = a.join(&b);
    assert_eq!(joined, strings_to_spans(&[Color::Red.paint("ab"), Color::Blue.paint("cd")]));
    let with_span = a.join_span(&span_of(&Color::Red.paint("e")));
    assert_eq!(with_span, strings_to_spans(&[Color::Red.paint("abe")]));
    let two = span_of(&Color::Red.paint("x")).join(&span_of(&Color::Blue.paint("y")));
    assert_eq!(two, strings_to_spans(&[Color::Red.paint("x"), Color::Blue.paint("y")]));
}

#[test]
fn concat_spans() {
    let parts = vec![
        strings_to_spans(&[Color::Red.paint("a")]),
        strings_to_spans(&[Color::Red.paint("b")]),
        strings_to_spans(&[Color::Blue.paint("c")]),
    ];
    let all = Spans::concat(&parts);
    assert_eq!(all, strings_to_spans(&[Color::Red.paint("ab"), Color::Blue.paint("c")]));
}

#[test]
fn slice_rejects_non_boundary() {
    let text = strings_to_spans(&[Color::Red.paint("🙈a")]);
    assert!(text.slice(Bounds::up_to(1)).is_none());
    assert!(text.slice(Bounds::between(3, 2)).is_none());
    assert_eq!(text.slice(Bounds::up_to(4)).unwrap().raw(), "🙈");
}

#[test]
fn slice_after_push_gives_parts_back() {
    let mut text = strings_to_spans(&[Color::Red.paint("héllo")]);
    let more = strings_to_spans(&[Color::Blue.paint("wörld")]);
    text.push(&more);
    let cut = "héllo".len();
    assert_eq!(text.slice(Bounds::up_to(cut)).unwrap().raw(), "héllo");
    assert_eq!(text.slice(Bounds::starting_at(cut)).unwrap(), more);
}

#[test]
fn styled_regex_replace_gives_the_plain_text_replacement() {
    let text = strings_to_spans(&[Color::Red.paint("foo b"), Color::Blue.paint("ar fooo"), Color::Green.paint("!")]);
    let pattern = Pattern::new("fo+").unwrap();
    let styled = text.replace_regex(&pattern, "<$0>");
    let plain = Replaceable::<&String>::replace_regex(&text.raw_ref().to_string(), &pattern, &String::from("<$0>"));
    assert_eq!(styled.raw_ref(), plain.as_str());
    assert_eq!(plain, String::from("<foo> bar <fooo>!"));
}
