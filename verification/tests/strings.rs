use stylish_stringlike::text::{
    Pattern, Split, Splitable,
    BoundedWidth, Bounds, Expandable, HasWidth, Pushable, RawText, Replaceable, Sliceable, Width,
    WidthSliceable,
};

#[test]
fn test_string_replace() {
    let foo = String::from("foo");
    let bar = Replaceable::<&String>::replace(&foo, "foo", &String::from("bar"));
    assert_eq!(bar, String::from("bar"));
}

#[test]
fn test_string_regex_replace() {
    let foooo = String::from("foooo");
    let re = Pattern::new("fo+").unwrap();
    let bar = Replaceable::<&String>::replace_regex(&foooo, &re, &String::from("bar"));
    assert_eq!(bar, String::from("bar"));
}

#[test]
fn string_replace_keeps_text_without_occurrence() {
    let text = String::from("hello world");
    let same = Replaceable::<&String>::replace(&text, "xyz", &String::from("bar"));
    assert_eq!(same, text);
}

#[test]
fn string_replace_every_occurrence() {
    let text = String::from("a-b-c");
    let out = Replaceable::<&String>::replace(&text, "-", &String::from("+="));
    assert_eq!(out, String::from("a+=b+=c"));
}

#[test]
fn string_regex_replace_expands_groups() {
    let text = String::from("555,123 4567");
    let re = Pattern::new(r"(\d{3})[-. ,](\d{3})[-. ,](\d{4})").unwrap();
    let out = Replaceable::<&String>::replace_regex(&text, &re, &String::from("($1) $2-$3"));
    assert_eq!(out, String::from("(555) 123-4567"));
}

#[test]
fn string_expand() {
    let re = Pattern::new(r"(\d{3})[-. ,](\d{3})[-. ,](\d{4})").unwrap();
    let captures = re.captures("555,123 4567").unwrap();
    let target = String::from("($1) $2-$3");
    assert_eq!(target.expand(&captures), String::from("(555) 123-4567"));
}

#[test]
fn string_expand_without_reference_is_unchanged() {
    let re = Pattern::new(r"(a)").unwrap();
    let captures = re.captures("a").unwrap();
    let target = String::from("plain");
    assert_eq!(target.expand(&captures), target);
}

#[test]
fn string_push() {
    let mut foobar = String::from("foo");
    Pushable::<str>::push(&mut foobar, "bar");
    assert_eq!(foobar, String::from("foobar"));
}

#[test]
fn string_raw() {
    let foo = String::from("foobar");
    assert_eq!(foo.raw(), foo);
    assert_eq!(foo.raw_ref(), "foobar");
}

#[test]
fn str_slice_like_get() {
    let foo = "foobar";
    assert_eq!(foo.get(1..4), foo.slice(Bounds::between(1, 4)));
    assert_eq!(Some("foobar"), foo.slice(Bounds::full()));
    assert_eq!(None, "🙈".slice(Bounds::up_to(1)));
}

#[test]
fn string_slice_width() {
    let foo = String::from("foobar");
    assert_eq!(Some(String::from("oob")), foo.slice_width(Bounds::between(1, 4)));
    let bar = String::from("🙈🙉🙊");
    assert_eq!(None, bar.slice_width(Bounds::up_to(1)));
    assert_eq!(Some(String::from("🙈")), bar.slice_width(Bounds::up_to(2)));
    assert_eq!(None, bar.slice_width(Bounds::between(1, 3)));
}

#[test]
fn string_widths() {
    let foo = "foobar";
    assert_eq!(foo.width(), Width::Bounded(6));
    let bar = String::from("🙈🙉🙊");
    assert_eq!(bar.width(), Width::Bounded(6));
    assert_eq!(bar.bounded_width(), 6);
}

#[test]
fn pattern_keeps_its_text_and_rejects_invalid_expressions() {
    assert!(Pattern::new("(").is_none());
    let pattern = Pattern::new("a+").unwrap();
    assert_eq!(pattern.as_str(), "a+");
    assert!(pattern.captures("bbb").is_none());
    let text = String::from("bbb");
    let same = Replaceable::<&String>::replace_regex(&text, &pattern, &String::from("x"));
    assert_eq!(same, text);
}

#[test]
fn string_regex_replace_every_match() {
    let text = String::from("a1b22c333");
    let pattern = Pattern::new(r"\d+").unwrap();
    let out = Replaceable::<&String>::replace_regex(&text, &pattern, &String::from("<$0>"));
    assert_eq!(out, String::from("a<1>b<22>c<333>"));
}

#[test]
fn string_split_on_delimiter() {
    let text = String::from("a::b::");
    let parts = text.split_style("::");
    assert_eq!(
        parts,
        vec![
            Split { segment: Some(String::from("a")), delim: Some(String::from("::")) },
            Split { segment: Some(String::from("b")), delim: Some(String::from("::")) },
        ]
    );
    let text = String::from("::a");
    let parts = text.split_style("::");
    assert_eq!(
        parts,
        vec![
            Split { segment: None, delim: Some(String::from("::")) },
            Split { segment: Some(String::from("a")), delim: None },
        ]
    );
}
