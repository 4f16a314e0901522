//! The boundary to the builtin-function registry: a table of known
//! functions with their arities, and the resolution check every function
//! reference must pass.

use crate::error::{CompilationError, CompilationErrorKind};
use crate::name::{error_at, Name};
use crate::table::{seq_has_key, Keyed, Table};
use vstd::prelude::*;

verus! {

/// A builtin function as the registry exposes it: its name and the range
/// of argument counts it accepts.
#[derive(Debug, PartialEq, Eq)]
pub struct Function {
    pub name: String,
    pub min_args: usize,
    pub max_args: usize,
}

impl Keyed for Function {
    open spec fn key_spec(&self) -> Seq<char> {
        self.name@
    }

    fn key(&self) -> (k: &String) {
        &self.name
    }
}

/// True when the registry knows a function of this name whose arity
/// admits `argc` arguments.
pub open spec fn function_known(fs: Seq<Function>, name: Seq<char>, argc: int) -> bool {
    exists|i: int|
        0 <= i < fs.len() && #[trigger] fs[i].name@ == name && fs[i].min_args <= argc
            <= fs[i].max_args
}

/// What a failed function resolution reports: an unknown name, or a
/// known name called with an argument count outside its arity.
pub open spec fn function_error_kind(
    fs: Seq<Function>,
    function: Name,
    argc: int,
    kind: CompilationErrorKind,
) -> bool {
    match kind {
        CompilationErrorKind::UnknownFunction { function: n } => {
            &&& n@ == function.lexeme@
            &&& !seq_has_key(fs, function.lexeme@)
        },
        CompilationErrorKind::FunctionArgumentCountMismatch {
            function: n,
            found,
            expected_min,
            expected_max,
        } => {
            &&& n@ == function.lexeme@
            &&& found == argc
            &&& exists|i: int|
                0 <= i < fs.len() && #[trigger] fs[i].name@ == function.lexeme@
                    && fs[i].min_args == expected_min && fs[i].max_args == expected_max
            &&& !(expected_min <= argc <= expected_max)
        },
        _ => false,
    }
}

impl Function {
    /// Resolves one function reference against the registry: the name
    /// must be known and the argument count within the declared arity.
    pub fn resolve(functions: &Table<Function>, function: &Name, argc: usize) -> (r: Result<
        (),
        CompilationError,
    >)
        requires
            functions.wf(),
        ensures
            r is Ok <==> function_known(functions@, function.lexeme@, argc as int),
            r matches Err(e) ==> error_at(e, *function) && function_error_kind(
                functions@,
                *function,
                argc as int,
                e.kind,
            ),
    {
        match functions.index_of(&function.lexeme) {
            Some(i) => {
                let f = functions.get_at(i);
                if argc < f.min_args || f.max_args < argc {
                    proof {
                        assert forall|j: int|
                            0 <= j < functions@.len() && #[trigger] functions@[j].name@
                                == function.lexeme@ implies j == i by {
                            if j < i {
                                assert(functions@[j].key_spec() != functions@[i as int].key_spec());
                            } else if i < j {
                                assert(functions@[i as int].key_spec() != functions@[j].key_spec());
                            }
                        }
                    }
                    Err(function.error(
                        CompilationErrorKind::FunctionArgumentCountMismatch {
                            function: function.lexeme.clone(),
                            found: argc,
                            expected_min: f.min_args,
                            expected_max: f.max_args,
                        },
                    ))
                } else {
                    proof {
                        assert(functions@[i as int].name@ == function.lexeme@);
                    }
                    Ok(())
                }
            },
            None => {
                proof {
                    assert forall|j: int| 0 <= j < functions@.len() implies #[trigger] functions@[j].name@
                        != function.lexeme@ by {
                        assert(functions@[j].key_spec() == functions@[j].name@);
                    }
                }
                Err(function.error(
                    CompilationErrorKind::UnknownFunction { function: function.lexeme.clone() },
                ))
            },
        }
    }
}

} // verus!
