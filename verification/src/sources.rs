//! Source locations, carried with values for diagnostics only.

use vstd::prelude::*;

verus! {

/// A stretch of one source file.
#[derive(Clone, Copy, Debug, PartialEq, Eq, Structural)]
pub struct CodeArea {
    /// Which source file, as the compiler numbers them.
    pub source: usize,
    /// Offset of the first character.
    pub start: usize,
    /// Offset after the last character.
    pub end: usize,
}

impl CodeArea {
    /// The area from `start` to `end` in `source`.
    pub fn new(source: usize, start: usize, end: usize) -> (r: CodeArea)
        ensures
            r == (CodeArea { source, start, end }),
    {
        CodeArea { source, start, end }
    }
}

} // verus!
