//! Declarations of functions, constants and sorts.

use crate::span::Span;
use vstd::prelude::*;

verus! {

/// Associativity attribute of a primitive function: how a function declared on two arguments
/// accepts more of them.
#[derive(Clone, Copy, PartialEq, Eq, Structural, Hash, Debug)]
pub enum Associativity {
    /// `f a b c` means `f (f a b) c`.
    LeftAssoc,
    /// `f a b c` means `f a (f b c)`.
    RightAssoc,
    /// `f a b c` means `f a b` and `f b c`.
    Chainable,
    /// `f a b c` means `f` holds of every pair among `a`, `b` and `c`.
    Pairwise,
}

/// The declaration of a function: its name, the sorts of its arguments and the sort of its
/// result. A constant is a function without arguments.
#[derive(Clone, Debug, PartialEq, Eq, Hash)]
pub struct Declaration<D, R> {
    /// The name of the declared function.
    pub name: String,
    /// The domain of the declared function, i.e. the sorts of its arguments.
    pub domain: Vec<D>,
    /// The range of the declared function, i.e. its result sort.
    pub range: R,
    /// The optional source span the declaration comes from.
    pub span: Option<Span>,
}

impl<D, R> Declaration<D, R> {
    /// Declare a function named `name` from `domain` to `range`, with no source span.
    pub fn function(name: &str, domain: Vec<D>, range: R) -> (r: Declaration<D, R>)
        ensures
            r.name@ == name@,
            r.domain@ == domain@,
            r.range == range,
            r.span is None,
    {
        Declaration { name: name.to_owned(), domain, range, span: None }
    }

    /// The same declaration, coming from the source span `span`.
    pub fn over(self, span: Span) -> (r: Declaration<D, R>)
        ensures
            r.name@ == self.name@,
            r.domain@ == self.domain@,
            r.range == self.range,
            r.span == Some(span),
    {
        Declaration { span: Some(span), ..self }
    }
}

} // verus!
