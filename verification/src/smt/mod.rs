//! Building blocks of the SMT front end: declarations, backend errors, logic requirements and
//! the constants and heads used when building terms.

pub mod backend;
pub mod decl;
pub mod macros;
pub mod requirements;
