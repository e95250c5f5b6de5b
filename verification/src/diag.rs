//! Where a message points, and the message itself.

use vstd::prelude::*;

verus! {

/// A source position: line and column, both counted from one.
#[derive(Clone, Copy, Debug, PartialEq, Eq, Structural)]
pub struct Span {
    pub line: u32,
    pub col: u32,
}

impl Span {
    pub fn at(line: usize, col: usize) -> (s: Span)
        ensures
            s.line == line as u32,
            s.col == col as u32,
    {
        Span { line: line as u32, col: col as u32 }
    }
}

/// A compile error: which rule it is about, what it says, and where.
#[derive(Clone, Debug)]
pub struct Diagnostic {
    pub kind: String,
    pub message: String,
    pub span: Span,
}

impl Diagnostic {
    pub fn new(kind: &str, message: String, span: Span) -> (d: Diagnostic)
        ensures
            d.kind@ == kind@,
            d.message == message,
            d.span == span,
    {
        Diagnostic { kind: kind.to_string(), message, span }
    }
}

} // verus!
