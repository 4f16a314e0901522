//! Structured, span-anchored compile errors shared by the dependency
//! resolver and the expression validator.

use vstd::prelude::*;

verus! {

/// The payload of a compile error: which rule was broken, and the names
/// involved.
#[derive(Debug, PartialEq, Eq)]
pub enum CompilationErrorKind {
    /// A dependency chain revisits a recipe already being resolved.
    /// `circle` lists the names along the cycle, closed by repeating the
    /// entry point of the current resolution path.
    CircularRecipeDependency { recipe: String, circle: Vec<String> },
    /// A recipe depends on a recipe that declares parameters.
    DependencyHasParameters { recipe: String, dependency: String },
    /// A recipe depends on a name that no recipe defines.
    UnknownDependency { recipe: String, unknown: String },
    /// A variable reference that neither the assignment table nor the
    /// enclosing scope defines.
    UndefinedVariable { variable: String },
    /// A function reference whose name the builtin registry does not know.
    UnknownFunction { function: String },
    /// A known function called with an argument count outside its arity.
    FunctionArgumentCountMismatch {
        function: String,
        found: usize,
        expected_min: usize,
        expected_max: usize,
    },
}

/// A compile error carrying the exact source span of the offending token,
/// so a diagnostic can underline it in the original source.
#[derive(Debug, PartialEq, Eq)]
pub struct CompilationError {
    pub offset: usize,
    pub line: usize,
    pub column: usize,
    pub width: usize,
    pub kind: CompilationErrorKind,
}

} // verus!
