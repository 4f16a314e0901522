//! Identifiers with their source spans, as produced by the upstream
//! lexer and parser.

use crate::error::{CompilationError, CompilationErrorKind};
use vstd::prelude::*;

verus! {

/// An identifier token: its lexeme together with the source span
/// (byte offset, line, column, width) it was read from.
#[derive(Debug, PartialEq, Eq)]
pub struct Name {
    pub offset: usize,
    pub line: usize,
    pub column: usize,
    pub length: usize,
    pub lexeme: String,
}

/// True when the error's span is exactly the token's span.
pub open spec fn error_at(e: CompilationError, t: Name) -> bool {
    e.offset == t.offset && e.line == t.line && e.column == t.column && e.width == t.length
}

impl Name {
    /// A fresh token with the same span and lexeme.
    pub fn duplicate(&self) -> (r: Name)
        ensures
            r == *self,
    {
        Name {
            offset: self.offset,
            line: self.line,
            column: self.column,
            length: self.length,
            lexeme: self.lexeme.clone(),
        }
    }

    /// An error anchored at this token's span.
    pub fn error(&self, kind: CompilationErrorKind) -> (r: CompilationError)
        ensures
            error_at(r, *self),
            r.kind == kind,
    {
        CompilationError {
            offset: self.offset,
            line: self.line,
            column: self.column,
            width: self.length,
            kind,
        }
    }
}

} // verus!
