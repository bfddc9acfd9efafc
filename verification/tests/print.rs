use formally::print::{braces, brackets, enclose, parens, quotes, Doc};

fn text(s: &str) -> Doc {
    Doc::as_string(s)
}

fn enclosed(inner: Doc, start: &str, end: &str) -> Doc {
    Doc::Append(
        Box::new(Doc::Append(
            Box::new(Doc::Text(start.to_string())),
            Box::new(Doc::Group(Box::new(Doc::Nest(
                1,
                Box::new(Doc::Append(
                    Box::new(Doc::Append(Box::new(Doc::SoftLineBreak), Box::new(inner))),
                    Box::new(Doc::SoftLineBreak),
                )),
            )))),
        )),
        Box::new(Doc::Text(end.to_string())),
    )
}

#[test]
fn quotes_wraps_in_double_quotes() {
    let doc = quotes(text("a"));
    let expected = Doc::Append(
        Box::new(Doc::Append(Box::new(Doc::Text("\"".to_string())), Box::new(text("a")))),
        Box::new(Doc::Text("\"".to_string())),
    );
    assert_eq!(doc, expected);
}

#[test]
fn enclose_breaks_inside_the_delimiters() {
    assert_eq!(enclose(text("x"), "<", ">"), enclosed(text("x"), "<", ">"));
    assert_eq!(parens(text("x")), enclosed(text("x"), "(", ")"));
    assert_eq!(brackets(text("x")), enclosed(text("x"), "[", "]"));
    assert_eq!(braces(text("x")), enclosed(text("x"), "{", "}"));
}

#[test]
fn builders_build_the_named_nodes() {
    assert_eq!(Doc::softline_(), Doc::SoftLineBreak);
    assert_eq!(text("a").append(text("b")), Doc::Append(Box::new(text("a")), Box::new(text("b"))));
    assert_eq!(text("a").nest(2), Doc::Nest(2, Box::new(text("a"))));
    assert_eq!(text("a").group(), Doc::Group(Box::new(text("a"))));
    assert_eq!(text("a"), Doc::Text("a".to_string()));
}
