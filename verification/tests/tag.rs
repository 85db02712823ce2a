use stylish_stringlike::text::{Painter, Tag};

#[test]
fn tag_text() {
    let fmt_1 = Tag::new("<1>", "</1>");
    let fmt_2 = Tag::new("<2>", "</2>");
    let texts = vec![(&fmt_1, "foo"), (&fmt_2, "bar"), (&fmt_2, "baz")];
    assert_eq!(Tag::paint_many(&texts), String::from("<1>foo</1><2>barbaz</2>"));
}

#[test]
fn tag_empty() {
    let texts: Vec<(&Tag, &str)> = vec![];
    assert_eq!(Tag::paint_many(&texts), String::new());
}

#[test]
fn tag_paint_wraps_text() {
    let fmt = Tag::new("<b>", "</b>");
    assert_eq!(fmt.paint("bold"), String::from("<b>bold</b>"));
}

#[test]
fn tag_paint_many_one_group_is_paint() {
    let fmt = Tag::new("<i>", "</i>");
    let texts = vec![(&fmt, "x")];
    assert_eq!(Tag::paint_many(&texts), fmt.paint("x"));
}

#[test]
fn tag_paint_many_drops_empty_last_run() {
    let fmt_1 = Tag::new("<1>", "</1>");
    let fmt_2 = Tag::new("<2>", "</2>");
    let texts = vec![(&fmt_1, "a"), (&fmt_2, "")];
    assert_eq!(Tag::paint_many(&texts), String::from("<1>a</1>"));
}
