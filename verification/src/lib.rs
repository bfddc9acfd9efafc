//! Formal methods building blocks: ordered binary decision diagrams, pretty-printing documents,
//! combinators that match sequences in a text, the names of parsers, and the declarations,
//! errors and logic requirements of an SMT front end, with the places in a source text they
//! point at.

pub mod combinators;
pub mod obdd;
pub mod parse;
pub mod print;
pub mod smt;
pub mod span;
