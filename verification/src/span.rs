//! Places in a source text, which diagnostics point at.

use vstd::prelude::*;

verus! {

/// A place in a source text: its offset, and the line and column it stands at (both counted
/// from `0`).
#[derive(Clone, Copy, PartialEq, Eq, Structural, Hash, Debug, Default)]
pub struct Location {
    pub position: usize,
    pub line: usize,
    pub column: usize,
}

/// The stretch of a source text from `begin` up to `end`.
#[derive(Clone, Copy, PartialEq, Eq, Structural, Hash, Debug)]
pub struct Span {
    pub begin: Location,
    pub end: Location,
}

} // verus!
