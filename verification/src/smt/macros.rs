//! The pieces that the term-building macros assemble: numeric constants, heads of atoms and
//! quantifiers.

use vstd::prelude::*;

verus! {

/// A numeric constant as written in a term.
#[derive(Clone, Copy, PartialEq, Eq, Hash, Debug)]
pub enum Constant {
    /// An integer literal.
    Integer { value: u64 },
    /// A rational literal, in decimal notation.
    Rational { value: &'static str },
}

/// The head of an atom that names a function not yet resolved.
#[derive(Clone, PartialEq, Eq, Hash, Debug)]
pub struct UnboundHead {
    /// The name of the function.
    pub name: String,
}

/// A quantifier.
#[derive(Clone, Copy, PartialEq, Eq, Structural, Hash, Debug)]
pub enum Quantifier {
    /// Universal quantification.
    Forall,
    /// Existential quantification.
    Exists,
}

} // verus!
