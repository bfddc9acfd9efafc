//! Documents for pretty printing, and the usual ways of wrapping one in delimiters.
//!
//! A [Doc] describes text together with the places where a line may break; the layout for a
//! given width is computed when the document is rendered. Its model, [DocView], is what the
//! contracts speak of, and [flat] is the text a document shows when laid out on one line.

use vstd::prelude::*;

verus! {

/// A document: text, optional line breaks, and how they group and indent.
#[derive(PartialEq, Eq, Debug)]
pub enum Doc {
    /// The empty document.
    Nil,
    /// A piece of text.
    Text(String),
    /// A line break that disappears when its group fits on one line.
    SoftLineBreak,
    /// One document followed by another.
    Append(Box<Doc>, Box<Doc>),
    /// A document whose line breaks are indented by the given number of columns.
    Nest(isize, Box<Doc>),
    /// A document whose line breaks are all taken, or none of them.
    Group(Box<Doc>),
}

/// The model of a [Doc].
pub enum DocView {
    Nil,
    Text(Seq<char>),
    SoftLineBreak,
    Append(Box<DocView>, Box<DocView>),
    Nest(int, Box<DocView>),
    Group(Box<DocView>),
}

/// The model of a document.
pub open spec fn doc_view(d: Doc) -> DocView
    decreases d,
{
    match d {
        Doc::Nil => DocView::Nil,
        Doc::Text(s) => DocView::Text(s@),
        Doc::SoftLineBreak => DocView::SoftLineBreak,
        Doc::Append(a, b) => DocView::Append(Box::new(doc_view(*a)), Box::new(doc_view(*b))),
        Doc::Nest(i, a) => DocView::Nest(i as int, Box::new(doc_view(*a))),
        Doc::Group(a) => DocView::Group(Box::new(doc_view(*a))),
    }
}

impl View for Doc {
    type V = DocView;

    open spec fn view(&self) -> DocView {
        doc_view(*self)
    }
}

/// The text of a document laid out on a single line: every soft line break disappears.
pub open spec fn flat(d: DocView) -> Seq<char>
    decreases d,
{
    match d {
        DocView::Nil => Seq::empty(),
        DocView::Text(s) => s,
        DocView::SoftLineBreak => Seq::empty(),
        DocView::Append(a, b) => flat(*a) + flat(*b),
        DocView::Nest(_, a) => flat(*a),
        DocView::Group(a) => flat(*a),
    }
}

impl Doc {
    /// The document showing `s`.
    pub fn as_string(s: &str) -> (r: Doc)
        ensures
            r@ == DocView::Text(s@),
    {
        Doc::Text(s.to_owned())
    }

    /// A line break that disappears when its group fits on one line.
    pub fn softline_() -> (r: Doc)
        ensures
            r@ == DocView::SoftLineBreak,
    {
        Doc::SoftLineBreak
    }

    /// This document followed by `that`.
    pub fn append(self, that: Doc) -> (r: Doc)
        ensures
            r@ == DocView::Append(Box::new(self@), Box::new(that@)),
    {
        Doc::Append(Box::new(self), Box::new(that))
    }

    /// This document with its line breaks indented by `offset` more columns.
    pub fn nest(self, offset: isize) -> (r: Doc)
        ensures
            r@ == DocView::Nest(offset as int, Box::new(self@)),
    {
        Doc::Nest(offset, Box::new(self))
    }

    /// This document laid out on one line when it fits.
    pub fn group(self) -> (r: Doc)
        ensures
            r@ == DocView::Group(Box::new(self@)),
    {
        Doc::Group(Box::new(self))
    }
}

/// A value that can be laid out as a [Doc].
pub trait Pretty {
    /// The document of the value.
    fn pretty(&self) -> Doc;
}

/// `doc` between double quotes.
pub fn quotes(doc: Doc) -> (r: Doc)
    ensures
        r@ == DocView::Append(
            Box::new(DocView::Append(Box::new(DocView::Text(seq!['"'])), Box::new(doc@))),
            Box::new(DocView::Text(seq!['"'])),
        ),
        flat(r@) == seq!['"'] + flat(doc@) + seq!['"'],
{
    proof {
        reveal_strlit("\"");
        assert("\""@.len() == 1);
        assert("\""@[0] == '"');
        assert("\""@ =~= seq!['"']);
    }
    let r = Doc::as_string("\"").append(doc).append(Doc::as_string("\""));
    proof {
        reveal_with_fuel(flat, 3);
        assert(flat(r@) =~= seq!['"'] + flat(doc@) + seq!['"']);
    }
    r
}

/// `doc` between `start` and `end`, broken right inside the delimiters and indented by one
/// column when it does not fit on one line.
pub fn enclose(doc: Doc, start: &str, end: &str) -> (r: Doc)
    ensures
        r@ == DocView::Append(
            Box::new(
                DocView::Append(
                    Box::new(DocView::Text(start@)),
                    Box::new(
                        DocView::Group(
                            Box::new(
                                DocView::Nest(
                                    1,
                                    Box::new(
                                        DocView::Append(
                                            Box::new(
                                                DocView::Append(
                                                    Box::new(DocView::SoftLineBreak),
                                                    Box::new(doc@),
                                                ),
                                            ),
                                            Box::new(DocView::SoftLineBreak),
                                        ),
                                    ),
                                ),
                            ),
                        ),
                    ),
                ),
            ),
            Box::new(DocView::Text(end@)),
        ),
        flat(r@) == start@ + flat(doc@) + end@,
{
    let r = Doc::as_string(start).append(
        Doc::softline_().append(doc).append(Doc::softline_()).nest(1).group(),
    ).append(Doc::as_string(end));
    proof {
        reveal_with_fuel(flat, 7);
        assert(flat(r@) =~= start@ + flat(doc@) + end@);
    }
    r
}

/// `doc` in round brackets.
pub fn parens(doc: Doc) -> (r: Doc)
    ensures
        r@ == enclose_view(doc@, seq!['('], seq![')']),
        flat(r@) == seq!['('] + flat(doc@) + seq![')'],
{
    proof {
        reveal_strlit("(");
        reveal_strlit(")");
        assert("("@ =~= seq!['(']);
        assert(")"@ =~= seq![')']);
    }
    enclose(doc, "(", ")")
}

/// `doc` in square brackets.
pub fn brackets(doc: Doc) -> (r: Doc)
    ensures
        r@ == enclose_view(doc@, seq!['['], seq![']']),
        flat(r@) == seq!['['] + flat(doc@) + seq![']'],
{
    proof {
        reveal_strlit("[");
        reveal_strlit("]");
        assert("["@ =~= seq!['[']);
        assert("]"@ =~= seq![']']);
    }
    enclose(doc, "[", "]")
}

/// `doc` in curly braces.
pub fn braces(doc: Doc) -> (r: Doc)
    ensures
        r@ == enclose_view(doc@, seq!['{'], seq!['}']),
        flat(r@) == seq!['{'] + flat(doc@) + seq!['}'],
{
    proof {
        reveal_strlit("{");
        reveal_strlit("}");
        assert("{"@ =~= seq!['{']);
        assert("}"@ =~= seq!['}']);
    }
    enclose(doc, "{", "}")
}

/// The model of `d` enclosed between `start` and `end` as [enclose] builds it.
pub open spec fn enclose_view(d: DocView, start: Seq<char>, end: Seq<char>) -> DocView {
    DocView::Append(
        Box::new(
            DocView::Append(
                Box::new(DocView::Text(start)),
                Box::new(
                    DocView::Group(
                        Box::new(
                            DocView::Nest(
                                1,
                                Box::new(
                                    DocView::Append(
                                        Box::new(DocView::Append(Box::new(DocView::SoftLineBreak), Box::new(d))),
                                        Box::new(DocView::SoftLineBreak),
                                    ),
                                ),
                            ),
                        ),
                    ),
                ),
            ),
        ),
        Box::new(DocView::Text(end)),
    )
}

} // verus!
