//! The semantic-resolution pass: depth-first dependency linking with
//! cycle detection over a worklist of unresolved recipes, followed by a
//! validation pass over every variable and function reference embedded
//! in the resolved recipes.
//!
//! The central contract is on [`RecipeResolver::resolve_recipes`]: it
//! returns a resolved table exactly when the input is valid — every
//! dependency names a parameterless recipe, the dependency graph has no
//! cycle, and every embedded reference is defined — and otherwise an
//! error that names a genuine fault of the input.

use crate::error::{CompilationError, CompilationErrorKind};
use crate::function::{function_error_kind, function_known, Function};
use crate::name::{error_at, Name};
use crate::recipe::{Assignment, Dependency, Expression, Fragment, Line, Parameter, Recipe};
use crate::table::{seq_has_key, Keyed, Table};
use vstd::prelude::*;

verus! {

// ---------------------------------------------------------------------
// The input, mathematically: names, edges, cycles, reference validity.
// ---------------------------------------------------------------------

/// Some recipe of `rs` bears the name `n`.
pub open spec fn contains_recipe(rs: Seq<Recipe<Name>>, n: Seq<char>) -> bool {
    exists|i: int| 0 <= i < rs.len() && (#[trigger] rs[i].name.lexeme@) == n
}

/// The recipe named `a` declares a dependency on the name `b`.
pub open spec fn is_edge(rs: Seq<Recipe<Name>>, a: Seq<char>, b: Seq<char>) -> bool {
    exists|i: int, k: int|
        0 <= i < rs.len() && 0 <= k < rs[i].dependencies@.len() && rs[i].name.lexeme@ == a && (
        #[trigger] rs[i].dependencies@[k]).lexeme@ == b
}

/// A dependency path whose every step is an edge and whose last step
/// returns to its first name: a cycle.
pub open spec fn is_cycle(rs: Seq<Recipe<Name>>, p: Seq<Seq<char>>) -> bool {
    &&& p.len() >= 1
    &&& forall|i: int| 0 <= i < p.len() - 1 ==> is_edge(rs, #[trigger] p[i], p[i + 1])
    &&& is_edge(rs, p.last(), p[0])
}

/// No dependency path of `rs` returns to a name it started from.
pub open spec fn acyclic(rs: Seq<Recipe<Name>>) -> bool {
    forall|p: Seq<Seq<char>>| !(#[trigger] is_cycle(rs, p))
}

/// Every declared dependency names some recipe of the input.
pub open spec fn deps_known(rs: Seq<Recipe<Name>>) -> bool {
    forall|i: int, k: int|
        0 <= i < rs.len() && 0 <= k < rs[i].dependencies@.len() ==> contains_recipe(
            rs,
            (#[trigger] rs[i].dependencies@[k]).lexeme@,
        )
}

/// Every recipe that some recipe depends on declares no parameters.
pub open spec fn deps_parameterless(rs: Seq<Recipe<Name>>) -> bool {
    forall|i: int, k: int, j: int|
        0 <= i < rs.len() && 0 <= k < rs[i].dependencies@.len() && 0 <= j < rs.len() && (
        #[trigger] rs[i].dependencies@[k]).lexeme@ == (#[trigger] rs[j].name.lexeme@)
            ==> rs[j].parameters@.len() == 0
}

/// A variable is defined when the assignment table binds it or the
/// parameters in scope declare it.
pub open spec fn variable_defined(
    asgs: Seq<Assignment>,
    params: Seq<Parameter>,
    v: Seq<char>,
) -> bool {
    ||| seq_has_key(asgs, v)
    ||| exists|i: int| 0 <= i < params.len() && (#[trigger] params[i].name.lexeme@) == v
}

/// Every reference inside one expression is defined: functions resolve
/// against the registry, variables against the scope's parameters and
/// the assignment table.
pub open spec fn expr_ok(
    asgs: Seq<Assignment>,
    fs: Seq<Function>,
    params: Seq<Parameter>,
    ex: Expression,
) -> bool {
    &&& forall|i: int|
        0 <= i < ex.functions@.len() ==> function_known(
            fs,
            (#[trigger] ex.functions@[i]).name.lexeme@,
            ex.functions@[i].argc as int,
        )
    &&& forall|v: int|
        0 <= v < ex.variables@.len() ==> variable_defined(
            asgs,
            params,
            (#[trigger] ex.variables@[v]).lexeme@,
        )
}

/// Every reference inside a recipe with these parameters and this body
/// is defined. Parameter defaults see only the assignments — parameter
/// names are not visible to other parameters' defaults — while body
/// interpolations also see the recipe's own parameters.
pub open spec fn recipe_exprs_ok(
    asgs: Seq<Assignment>,
    fs: Seq<Function>,
    params: Seq<Parameter>,
    body: Seq<Line>,
) -> bool {
    &&& forall|p: int|
        0 <= p < params.len() && (#[trigger] params[p]).default is Some ==> expr_ok(
            asgs,
            fs,
            Seq::<Parameter>::empty(),
            params[p].default.unwrap(),
        )
    &&& forall|l: int, f: int|
        0 <= l < body.len() && 0 <= f < body[l].fragments@.len() && (
        #[trigger] body[l].fragments@[f]) is Interpolation ==> expr_ok(
            asgs,
            fs,
            params,
            body[l].fragments@[f]->expression,
        )
}

/// The whole input is valid: every dependency names a parameterless
/// recipe of the input, the dependency graph has no cycle, and every
/// embedded variable and function reference is defined.
pub open spec fn input_valid(
    rs: Seq<Recipe<Name>>,
    asgs: Seq<Assignment>,
    fs: Seq<Function>,
) -> bool {
    &&& deps_known(rs)
    &&& deps_parameterless(rs)
    &&& acyclic(rs)
    &&& forall|i: int|
        0 <= i < rs.len() ==> recipe_exprs_ok(
            asgs,
            fs,
            (#[trigger] rs[i]).parameters@,
            rs[i].body@,
        )
}

// ---------------------------------------------------------------------
// The output, mathematically.
// ---------------------------------------------------------------------

/// The resolved recipe `r` is the linked form of the unresolved `u`:
/// the same name, parameters and body, and one dependency link per
/// declared dependency, in declared order, each pointing at the entry
/// of `tbl` that bears the declared name — an entry without parameters.
pub open spec fn resolved_matches(
    u: Recipe<Name>,
    r: Recipe<Dependency>,
    tbl: Seq<Recipe<Dependency>>,
) -> bool {
    &&& r.name == u.name
    &&& r.parameters == u.parameters
    &&& r.body == u.body
    &&& r.dependencies@.len() == u.dependencies@.len()
    &&& forall|k: int|
        0 <= k < r.dependencies@.len() ==> {
            let d = (#[trigger] r.dependencies@[k]).recipe;
            &&& d < tbl.len()
            &&& tbl[d as int].name.lexeme@ == u.dependencies@[k].lexeme@
            &&& tbl[d as int].parameters@.len() == 0
        }
}

/// The input recipe at `j` has its linked form somewhere in `tbl`.
pub open spec fn input_recipe_linked(
    input: Seq<Recipe<Name>>,
    tbl: Seq<Recipe<Dependency>>,
    j: int,
) -> bool {
    exists|i: int| 0 <= i < tbl.len() && #[trigger] resolved_matches(input[j], tbl[i], tbl)
}

/// The resolved table `tbl` is the linked form of the whole input:
/// one entry per input recipe and nothing else, and every dependency
/// link points at an earlier entry, so the linked graph cannot cycle.
pub open spec fn table_resolves(input: Seq<Recipe<Name>>, tbl: Seq<Recipe<Dependency>>) -> bool {
    &&& tbl.len() == input.len()
    &&& forall|j: int| 0 <= j < input.len() ==> #[trigger] input_recipe_linked(input, tbl, j)
    &&& forall|i: int| 0 <= i < tbl.len() ==> #[trigger] entry_resolves(input, tbl, i)
    &&& forall|i: int, k: int|
        0 <= i < tbl.len() && 0 <= k < tbl[i].dependencies@.len() ==> (
        #[trigger] tbl[i].dependencies@[k]).recipe < i
}

// ---------------------------------------------------------------------
// What a returned error guarantees about the input.
// ---------------------------------------------------------------------

/// A reference fault inside one expression, at the reported span.
pub open spec fn expression_fault(
    asgs: Seq<Assignment>,
    fs: Seq<Function>,
    params: Seq<Parameter>,
    ex: Expression,
    e: CompilationError,
) -> bool {
    match e.kind {
        CompilationErrorKind::UndefinedVariable { variable } => exists|v: int|
            0 <= v < ex.variables@.len() && (#[trigger] ex.variables@[v]).lexeme@ == variable@
                && error_at(e, ex.variables@[v]) && !variable_defined(
                asgs,
                params,
                ex.variables@[v].lexeme@,
            ),
        CompilationErrorKind::UnknownFunction { .. } => exists|i: int|
            0 <= i < ex.functions@.len() && error_at(e, (#[trigger] ex.functions@[i]).name)
                && function_error_kind(
                fs,
                ex.functions@[i].name,
                ex.functions@[i].argc as int,
                e.kind,
            ),
        CompilationErrorKind::FunctionArgumentCountMismatch { .. } => exists|i: int|
            0 <= i < ex.functions@.len() && error_at(e, (#[trigger] ex.functions@[i]).name)
                && function_error_kind(
                fs,
                ex.functions@[i].name,
                ex.functions@[i].argc as int,
                e.kind,
            ),
        _ => false,
    }
}

/// A reference fault inside a recipe with these parameters and body:
/// in some parameter default (checked against the assignments alone) or
/// in some body interpolation (checked with the parameters in scope).
pub open spec fn recipe_expr_fault(
    asgs: Seq<Assignment>,
    fs: Seq<Function>,
    params: Seq<Parameter>,
    body: Seq<Line>,
    e: CompilationError,
) -> bool {
    ||| exists|p: int|
        0 <= p < params.len() && (#[trigger] params[p]).default is Some && expression_fault(
            asgs,
            fs,
            Seq::<Parameter>::empty(),
            params[p].default.unwrap(),
            e,
        )
    ||| exists|l: int, f: int|
        0 <= l < body.len() && 0 <= f < body[l].fragments@.len() && (
        #[trigger] body[l].fragments@[f]) is Interpolation && expression_fault(
            asgs,
            fs,
            params,
            body[l].fragments@[f]->expression,
            e,
        )
}

/// What each returned error guarantees about the input: the fault it
/// reports is genuinely present, at exactly the reported source span.
pub open spec fn error_sound(
    rs: Seq<Recipe<Name>>,
    asgs: Seq<Assignment>,
    fs: Seq<Function>,
    e: CompilationError,
) -> bool {
    match e.kind {
        CompilationErrorKind::CircularRecipeDependency { recipe, circle } => {
            let c = circle@.map_values(|s: String| s@);
            &&& c.len() >= 2
            &&& is_cycle(rs, c.take(c.len() - 1))
            &&& recipe@ == c[c.len() - 2]
        },
        CompilationErrorKind::UnknownDependency { recipe, unknown } => {
            &&& !contains_recipe(rs, unknown@)
            &&& exists|j: int, k: int|
                0 <= j < rs.len() && 0 <= k < rs[j].dependencies@.len() && rs[j].name.lexeme@
                    == recipe@ && (#[trigger] rs[j].dependencies@[k]).lexeme@ == unknown@
                    && error_at(e, rs[j].dependencies@[k])
        },
        CompilationErrorKind::DependencyHasParameters { recipe, dependency } => {
            &&& exists|j: int, k: int|
                0 <= j < rs.len() && 0 <= k < rs[j].dependencies@.len() && rs[j].name.lexeme@
                    == recipe@ && (#[trigger] rs[j].dependencies@[k]).lexeme@ == dependency@
                    && error_at(e, rs[j].dependencies@[k])
            &&& exists|m: int|
                0 <= m < rs.len() && (#[trigger] rs[m].name.lexeme@) == dependency@
                    && rs[m].parameters@.len() > 0
        },
        CompilationErrorKind::UndefinedVariable { .. } => exists|j: int|
            0 <= j < rs.len() && recipe_expr_fault(
                asgs,
                fs,
                (#[trigger] rs[j]).parameters@,
                rs[j].body@,
                e,
            ),
        CompilationErrorKind::UnknownFunction { .. } => exists|j: int|
            0 <= j < rs.len() && recipe_expr_fault(
                asgs,
                fs,
                (#[trigger] rs[j]).parameters@,
                rs[j].body@,
                e,
            ),
        CompilationErrorKind::FunctionArgumentCountMismatch { .. } => exists|j: int|
            0 <= j < rs.len() && recipe_expr_fault(
                asgs,
                fs,
                (#[trigger] rs[j]).parameters@,
                rs[j].body@,
                e,
            ),
    }
}

// ---------------------------------------------------------------------
// The resolver.
// ---------------------------------------------------------------------

/// The names on a resolution stack, as character sequences.
pub open spec fn stack_names(stack: Seq<String>) -> Seq<Seq<char>> {
    stack.map_values(|s: String| s@)
}

/// Whether one of the parameters is named `name`.
#[verifier::loop_isolation(false)]
fn params_declare(parameters: &Vec<Parameter>, name: &String) -> (r: bool)
    ensures
        r == exists|i: int|
            0 <= i < parameters@.len() && (#[trigger] parameters@[i].name.lexeme@) == name@,
{
    let n = parameters.len();
    let mut i: usize = 0;
    while i < n
        invariant
            i <= n,
            forall|j: int| 0 <= j < i ==> (#[trigger] parameters@[j].name.lexeme@) != name@,
        decreases n - i,
    {
        if parameters[i].name.lexeme == *name {
            return true;
        }
        i += 1;
    }
    false
}

/// The entry of `tbl` at `i` is the linked form of some input recipe.
pub open spec fn entry_resolves(
    input: Seq<Recipe<Name>>,
    tbl: Seq<Recipe<Dependency>>,
    i: int,
) -> bool {
    exists|j: int| 0 <= j < input.len() && #[trigger] resolved_matches(input[j], tbl[i], tbl)
}

/// Every entry of `tbl` is the linked form of some input recipe.
pub open spec fn resolved_entries_ok(
    input: Seq<Recipe<Name>>,
    tbl: Seq<Recipe<Dependency>>,
) -> bool {
    forall|i: int| 0 <= i < tbl.len() ==> #[trigger] entry_resolves(input, tbl, i)
}

/// The two-pass resolver: it owns the unresolved worklist and the
/// growing resolved table, and reads the assignment table and the
/// builtin-function registry.
pub struct RecipeResolver<'a> {
    unresolved_recipes: Table<Recipe<Name>>,
    resolved_recipes: Table<Recipe<Dependency>>,
    assignments: &'a Table<Assignment>,
    functions: &'a Table<Function>,
    /// The recipes originally handed in, which resolution consumes.
    input: Ghost<Seq<Recipe<Name>>>,
}

impl<'a> RecipeResolver<'a> {
    /// The resolver's invariant between steps. `stack` is the current
    /// dependency path: recipes being resolved, outermost first.
    ///
    /// Input names are unique; the unresolved entries are input recipes
    /// whose names are neither resolved nor on the stack; the resolved
    /// entries are linked forms of input recipes, each linking only
    /// earlier entries; and the stack is a dependency path of distinct
    /// input names, none of them in either table. Together with
    /// `covered`, every input recipe is in exactly one of the three
    /// places, which `sum` states arithmetically.
    spec fn inv(self, stack: Seq<Seq<char>>) -> bool {
        let input = self.input@;
        &&& self.unresolved_recipes.wf()
        &&& self.resolved_recipes.wf()
        &&& self.assignments.wf()
        &&& self.functions.wf()
        &&& forall|i: int, j: int|
            0 <= i < j < input.len() ==> (#[trigger] input[i].name.lexeme@) != (
            #[trigger] input[j].name.lexeme@)
        &&& forall|i: int|
            0 <= i < self.unresolved_recipes@.len() ==> {
                let u = #[trigger] self.unresolved_recipes@[i];
                &&& exists|j: int| 0 <= j < input.len() && input[j] == u
                &&& !seq_has_key(self.resolved_recipes@, u.name.lexeme@)
                &&& !stack.contains(u.name.lexeme@)
            }
        &&& resolved_entries_ok(input, self.resolved_recipes@)
        &&& forall|i: int, k: int|
            0 <= i < self.resolved_recipes@.len() && 0 <= k
                < self.resolved_recipes@[i].dependencies@.len() ==> (
            #[trigger] self.resolved_recipes@[i].dependencies@[k]).recipe < i
        &&& forall|i: int| 0 <= i < stack.len() ==> contains_recipe(input, #[trigger] stack[i])
        &&& forall|i: int, j: int|
            0 <= i < j < stack.len() ==> (#[trigger] stack[i]) != (#[trigger] stack[j])
        &&& forall|i: int|
            0 <= i < stack.len() - 1 ==> is_edge(input, #[trigger] stack[i], stack[i + 1])
        &&& forall|i: int|
            0 <= i < stack.len() ==> !seq_has_key(self.unresolved_recipes@, #[trigger] stack[i])
                && !seq_has_key(self.resolved_recipes@, stack[i])
    }

    /// Every input name is accounted for: still unresolved, already
    /// resolved, or on the current resolution path.
    spec fn covered(self, stack: Seq<Seq<char>>) -> bool {
        forall|n: Seq<char>|
            #[trigger] contains_recipe(self.input@, n) ==> seq_has_key(
                self.unresolved_recipes@,
                n,
            ) || seq_has_key(self.resolved_recipes@, n) || stack.contains(n)
    }

    /// How many input recipes the three places hold together.
    spec fn sum(self, stack: Seq<Seq<char>>) -> int {
        self.unresolved_recipes@.len() + self.resolved_recipes@.len() + stack.len() as int
    }

    /// Checks one variable reference: it must name an assignment or one
    /// of the parameters in scope.
    #[verifier::loop_isolation(false)]
    fn resolve_variable(&self, variable: &Name, parameters: &Vec<Parameter>) -> (r: Result<
        (),
        CompilationError,
    >)
        ensures
            r is Ok <==> variable_defined(self.assignments@, parameters@, variable.lexeme@),
            r matches Err(e) ==> {
                &&& e.kind == (CompilationErrorKind::UndefinedVariable {
                    variable: variable.lexeme,
                })
                &&& error_at(e, *variable)
            },
    {
        let undefined = !self.assignments.contains_key(&variable.lexeme) && !params_declare(
            parameters,
            &variable.lexeme,
        );
        if undefined {
            Err(variable.error(
                CompilationErrorKind::UndefinedVariable { variable: variable.lexeme.clone() },
            ))
        } else {
            Ok(())
        }
    }

    /// Checks every function and variable reference of one expression,
    /// against the parameters in scope.
    #[verifier::loop_isolation(false)]
    fn validate_expression(&self, expression: &Expression, parameters: &Vec<Parameter>) -> (r:
        Result<(), CompilationError>)
        requires
            self.functions.wf(),
        ensures
            r is Ok <==> expr_ok(self.assignments@, self.functions@, parameters@, *expression),
            r matches Err(e) ==> expression_fault(
                self.assignments@,
                self.functions@,
                parameters@,
                *expression,
                e,
            ),
    {
        let nf = expression.functions.len();
        let mut i: usize = 0;
        while i < nf
            invariant
                nf == expression.functions@.len(),
                i <= nf,
                forall|j: int|
                    0 <= j < i ==> function_known(
                        self.functions@,
                        (#[trigger] expression.functions@[j]).name.lexeme@,
                        expression.functions@[j].argc as int,
                    ),
            decreases nf - i,
        {
            let call = &expression.functions[i];
            match Function::resolve(self.functions, &call.name, call.argc) {
                Ok(_) => {},
                Err(e) => {
                    return Err(e);
                },
            }
            i += 1;
        }
        let nv = expression.variables.len();
        let mut v: usize = 0;
        while v < nv
            invariant
                nv == expression.variables@.len(),
                v <= nv,
                forall|j: int|
                    0 <= j < v ==> variable_defined(
                        self.assignments@,
                        parameters@,
                        (#[trigger] expression.variables@[j]).lexeme@,
                    ),
                forall|j: int|
                    0 <= j < expression.functions@.len() ==> function_known(
                        self.functions@,
                        (#[trigger] expression.functions@[j]).name.lexeme@,
                        expression.functions@[j].argc as int,
                    ),
            decreases nv - v,
        {
            match self.resolve_variable(&expression.variables[v], parameters) {
                Ok(_) => {},
                Err(e) => {
                    return Err(e);
                },
            }
            v += 1;
        }
        Ok(())
    }

    /// Checks every reference of one recipe: parameter defaults against
    /// the assignments alone, body interpolations with the recipe's own
    /// parameters in scope.
    #[verifier::loop_isolation(false)]
    fn validate_recipe(&self, parameters: &Vec<Parameter>, body: &Vec<Line>) -> (r: Result<
        (),
        CompilationError,
    >)
        requires
            self.functions.wf(),
        ensures
            r is Ok <==> recipe_exprs_ok(self.assignments@, self.functions@, parameters@, body@),
            r matches Err(e) ==> recipe_expr_fault(
                self.assignments@,
                self.functions@,
                parameters@,
                body@,
                e,
            ),
    {
        let no_params: Vec<Parameter> = Vec::new();
        let np = parameters.len();
        let mut p: usize = 0;
        while p < np
            invariant
                np == parameters@.len(),
                p <= np,
                no_params@ =~= Seq::<Parameter>::empty(),
                forall|j: int|
                    0 <= j < p && (#[trigger] parameters@[j]).default is Some ==> expr_ok(
                        self.assignments@,
                        self.functions@,
                        Seq::<Parameter>::empty(),
                        parameters@[j].default.unwrap(),
                    ),
            decreases np - p,
        {
            match &parameters[p].default {
                Some(expression) => {
                    match self.validate_expression(expression, &no_params) {
                        Ok(_) => {},
                        Err(e) => {
                            return Err(e);
                        },
                    }
                },
                None => {},
            }
            p += 1;
        }
        let nl = body.len();
        let mut l: usize = 0;
        while l < nl
            invariant
                nl == body@.len(),
                l <= nl,
                forall|j: int|
                    0 <= j < parameters@.len() && (#[trigger] parameters@[j]).default is Some
                        ==> expr_ok(
                        self.assignments@,
                        self.functions@,
                        Seq::<Parameter>::empty(),
                        parameters@[j].default.unwrap(),
                    ),
                forall|j: int, f: int|
                    0 <= j < l && 0 <= f < body@[j].fragments@.len() && (
                    #[trigger] body@[j].fragments@[f]) is Interpolation ==> expr_ok(
                        self.assignments@,
                        self.functions@,
                        parameters@,
                        body@[j].fragments@[f]->expression,
                    ),
            decreases nl - l,
        {
            let line = &body[l];
            let nf = line.fragments.len();
            let mut f: usize = 0;
            while f < nf
                invariant
                    nf == line.fragments@.len(),
                    f <= nf,
                    *line == body@[l as int],
                    l < body@.len(),
                    forall|g: int|
                        0 <= g < f && (#[trigger] line.fragments@[g]) is Interpolation
                            ==> expr_ok(
                            self.assignments@,
                            self.functions@,
                            parameters@,
                            line.fragments@[g]->expression,
                        ),
                decreases nf - f,
            {
                match &line.fragments[f] {
                    Fragment::Interpolation { expression } => {
                        match self.validate_expression(expression, parameters) {
                            Ok(_) => {},
                            Err(e) => {
                                return Err(e);
                            },
                        }
                    },
                    Fragment::Text { .. } => {},
                }
                f += 1;
            }
            l += 1;
        }
        Ok(())
    }

    /// Resolves one recipe depth-first: links each declared dependency,
    /// resolving not-yet-resolved ones recursively with this recipe on
    /// the path stack, and moves the linked recipe into the resolved
    /// table. Returns the position of the resolved recipe, or the first
    /// error found.
    #[verifier::loop_isolation(false)]
    #[verifier::rlimit(100)]
    #[verifier::spinoff_prover]
    fn resolve_recipe(&mut self, stack: &mut Vec<String>, recipe: Recipe<Name>) -> (r: Result<
        usize,
        CompilationError,
    >)
        requires
            old(self).inv(stack_names(old(stack)@)),
            old(self).sum(stack_names(old(stack)@)) == old(self).input@.len() - 1,
            exists|j: int| 0 <= j < old(self).input@.len() && old(self).input@[j] == recipe,
            !seq_has_key(old(self).unresolved_recipes@, recipe.name.lexeme@),
            !seq_has_key(old(self).resolved_recipes@, recipe.name.lexeme@),
            !stack_names(old(stack)@).contains(recipe.name.lexeme@),
            old(stack)@.len() > 0 ==> is_edge(
                old(self).input@,
                stack_names(old(stack)@).last(),
                recipe.name.lexeme@,
            ),
            forall|n: Seq<char>|
                #[trigger] contains_recipe(old(self).input@, n) ==> seq_has_key(
                    old(self).unresolved_recipes@,
                    n,
                ) || seq_has_key(old(self).resolved_recipes@, n) || stack_names(
                    old(stack)@,
                ).contains(n) || n == recipe.name.lexeme@,
        ensures
            final(self).input == old(self).input,
            final(self).assignments == old(self).assignments,
            final(self).functions == old(self).functions,
            final(self).unresolved_recipes@.len() <= old(self).unresolved_recipes@.len(),
            old(self).resolved_recipes@.len() <= final(self).resolved_recipes@.len(),
            forall|i: int|
                0 <= i < old(self).resolved_recipes@.len() ==> final(self).resolved_recipes@[i]
                    == old(self).resolved_recipes@[i],
            r matches Ok(idx) ==> {
                &&& final(stack)@ == old(stack)@
                &&& final(self).inv(stack_names(old(stack)@))
                &&& final(self).covered(stack_names(old(stack)@))
                &&& final(self).sum(stack_names(old(stack)@)) == old(self).input@.len()
                &&& (idx as int) < final(self).resolved_recipes@.len()
                &&& resolved_matches(
                    recipe,
                    final(self).resolved_recipes@[idx as int],
                    final(self).resolved_recipes@,
                )
            },
            r matches Err(e) ==> error_sound(
                old(self).input@,
                old(self).assignments@,
                old(self).functions@,
                e,
            ),
        decreases old(self).unresolved_recipes@.len(),
    {
        let ghost input = self.input@;
        let ghost stack0 = stack@;

        // Memoization: a recipe already resolved is returned as-is. The
        // ownership invariant — a name lives in at most one of the two
        // tables or the stack — makes this unreachable for a recipe just
        // taken out of the unresolved table, as every caller does.
        if let Some(memo) = self.resolved_recipes.index_of(&recipe.name.lexeme) {
            proof {
                assert(seq_has_key(self.resolved_recipes@, recipe.name.lexeme@));
            }
            return Ok(memo);
        }
        stack.push(recipe.name.lexeme.clone());
        proof {
            assert(stack@ =~= stack0.push(recipe.name.lexeme));
            assert(stack_names(stack@) =~= stack_names(stack0).push(recipe.name.lexeme@));
            let jr = choose|j: int| 0 <= j < input.len() && input[j] == recipe;
            assert(input[jr].name.lexeme@ == recipe.name.lexeme@);
            assert(contains_recipe(input, recipe.name.lexeme@));
        }
        let ghost snames = stack_names(stack@);
        proof {
            let sn0 = stack_names(stack0);
            assert(snames.len() == sn0.len() + 1);
            assert(snames.last() == recipe.name.lexeme@);
            assert forall|i: int| 0 <= i < sn0.len() implies #[trigger] snames[i] == sn0[i] by {}
            assert forall|i: int| 0 <= i < sn0.len() implies #[trigger] sn0[i]
                != recipe.name.lexeme@ by {
                if sn0[i] == recipe.name.lexeme@ {
                    assert(sn0.contains(recipe.name.lexeme@));
                }
            }
            assert forall|i: int| 0 <= i < snames.len() implies contains_recipe(
                input,
                #[trigger] snames[i],
            ) by {
                if i < sn0.len() {
                    assert(snames[i] == sn0[i]);
                }
            }
            assert forall|i: int| 0 <= i < snames.len() - 1 implies is_edge(
                input,
                #[trigger] snames[i],
                snames[i + 1],
            ) by {
                if i < sn0.len() - 1 {
                    assert(is_edge(input, sn0[i], sn0[i + 1]));
                } else {
                    assert(snames[i] == sn0.last());
                }
            }
            assert forall|i: int| 0 <= i < snames.len() implies !seq_has_key(
                self.unresolved_recipes@,
                #[trigger] snames[i],
            ) && !seq_has_key(self.resolved_recipes@, snames[i]) by {
                if i < sn0.len() {
                    assert(snames[i] == sn0[i]);
                }
            }
            assert forall|i: int| 0 <= i < self.unresolved_recipes@.len() implies !snames.contains(
                (#[trigger] self.unresolved_recipes@[i]).name.lexeme@,
            ) by {
                let u = self.unresolved_recipes@[i];
                assert(u.key_spec() == u.name.lexeme@);
                if snames.contains(u.name.lexeme@) {
                    let m = choose|m: int|
                        0 <= m < snames.len() && snames[m] == u.name.lexeme@;
                    if m < sn0.len() {
                        assert(sn0.contains(u.name.lexeme@));
                    } else {
                        assert(seq_has_key(self.unresolved_recipes@, recipe.name.lexeme@));
                    }
                }
            }
            assert(old(self).resolved_recipes@ == self.resolved_recipes@);
            assert(resolved_entries_ok(input, self.resolved_recipes@));
            assert(self.inv(snames));
            assert forall|n: Seq<char>| #[trigger] contains_recipe(input, n) implies seq_has_key(
                self.unresolved_recipes@,
                n,
            ) || seq_has_key(self.resolved_recipes@, n) || snames.contains(n) by {
                if n == recipe.name.lexeme@ {
                    assert(snames.last() == n);
                    assert(snames.contains(n));
                } else if stack_names(stack0).contains(n) {
                    let m = choose|m: int|
                        0 <= m < sn0.len() && sn0[m] == n;
                    assert(snames[m] == n);
                    assert(snames.contains(n));
                }
            }
            assert(self.covered(snames));
        }
        let mut dependencies: Vec<Dependency> = Vec::new();
        let n = recipe.dependencies.len();
        let mut k: usize = 0;
        while k < n
            invariant
                k <= n,
                dependencies@.len() == k,
                self.input == old(self).input,
                self.assignments == old(self).assignments,
                self.functions == old(self).functions,
                stack@ == stack0.push(recipe.name.lexeme),
                self.inv(snames),
                self.covered(snames),
                self.sum(snames) == input.len(),
                self.unresolved_recipes@.len() <= old(self).unresolved_recipes@.len(),
                old(self).resolved_recipes@.len() <= self.resolved_recipes@.len(),
                forall|i: int|
                    0 <= i < old(self).resolved_recipes@.len() ==> self.resolved_recipes@[i]
                        == old(self).resolved_recipes@[i],
                forall|m: int|
                    0 <= m < k ==> {
                        let d = (#[trigger] dependencies@[m]).recipe;
                        &&& d < self.resolved_recipes@.len()
                        &&& self.resolved_recipes@[d as int].name.lexeme@
                            == recipe.dependencies@[m].lexeme@
                        &&& self.resolved_recipes@[d as int].parameters@.len() == 0
                    },
            decreases n - k,
        {
            let dependency = &recipe.dependencies[k];
            let ghost jr = choose|j: int| 0 <= j < input.len() && input[j] == recipe;
            proof {
                assert(input[jr].dependencies@[k as int].lexeme@ == dependency.lexeme@);
            }
            if let Some(ri) = self.resolved_recipes.index_of(&dependency.lexeme) {
                // dependency already resolved
                let resolved = self.resolved_recipes.get_at(ri);
                proof {
                    assert(self.resolved_recipes@[ri as int].key_spec()
                        == self.resolved_recipes@[ri as int].name.lexeme@);
                }
                if resolved.parameters.len() > 0 {
                    proof {
                        let tblv = self.resolved_recipes@;
                        assert(entry_resolves(self.input@, tblv, ri as int));
                        let jd = choose|j: int|
                            0 <= j < self.input@.len() && #[trigger] resolved_matches(
                                self.input@[j],
                                tblv[ri as int],
                                tblv,
                            );
                        assert(self.input@ == input);
                        assert(input[jd].name.lexeme@ == dependency.lexeme@);
                        assert(input[jd].parameters@.len() > 0);
                    }
                    return Err(dependency.error(
                        CompilationErrorKind::DependencyHasParameters {
                            recipe: recipe.name.lexeme.clone(),
                            dependency: dependency.lexeme.clone(),
                        },
                    ));
                }
                dependencies.push(Dependency { recipe: ri });
            } else if let Some(pos) = stack_position(stack, &dependency.lexeme) {
                // the dependency is on the current path: a cycle
                let top = stack.len();
                let mut circle: Vec<String> = Vec::new();
                let mut i: usize = pos;
                while i < top
                    invariant
                        pos <= i <= top,
                        top == stack@.len(),
                        circle@.len() == i - pos,
                        forall|m: int|
                            0 <= m < circle@.len() ==> (#[trigger] circle@[m]) == stack@[pos + m],
                    decreases top - i,
                {
                    circle.push(stack[i].clone());
                    i += 1;
                }
                circle.push(stack[0].clone());
                proof {
                    let c = circle@.map_values(|s: String| s@);
                    let ct = c.take(c.len() - 1);
                    assert(c.len() == top - pos + 1);
                    assert forall|m: int| 0 <= m < c.len() - 1 implies #[trigger] ct[m]
                        == snames[pos + m] by {
                        assert(circle@[m] == stack@[pos + m]);
                    }
                    assert(ct.len() >= 1);
                    assert forall|m: int| 0 <= m < ct.len() - 1 implies is_edge(
                        input,
                        #[trigger] ct[m],
                        ct[m + 1],
                    ) by {
                        assert(is_edge(input, snames[pos + m], snames[pos + m + 1]));
                    }
                    // the closing edge: the stack's top is this recipe,
                    // whose dependency at hand names the stack entry the
                    // circle starts from
                    assert(ct.last() == snames[top - 1]);
                    assert(snames[top - 1] == recipe.name.lexeme@);
                    assert(ct[0] == snames[pos as int]);
                    assert(snames[pos as int] == stack@[pos as int]@);
                    assert(is_edge(input, ct.last(), ct[0]));
                    assert(is_cycle(input, ct));
                    assert(c[c.len() - 2] == recipe.name.lexeme@);
                }
                return Err(dependency.error(
                    CompilationErrorKind::CircularRecipeDependency {
                        recipe: recipe.name.lexeme.clone(),
                        circle,
                    },
                ));
            } else {
                let ghost un_before = self.unresolved_recipes@;
                let ghost res_snap = self.resolved_recipes@;
                match self.unresolved_recipes.remove(&dependency.lexeme) {
                    Some(unresolved) => {
                        // resolve the still-unresolved dependency first
                        let ghost u0 = unresolved;
                        proof {
                            assert(u0.key_spec() == u0.name.lexeme@);
                            assert(un_before.contains(u0)) by {
                                let iu = choose|iu: int|
                                    0 <= iu < un_before.len() && un_before[iu] == u0
                                        && self.unresolved_recipes@ == #[trigger] un_before.remove(
                                        iu,
                                    );
                                assert(un_before[iu] == u0);
                            }
                            let iu = choose|iu: int|
                                0 <= iu < un_before.len() && un_before[iu] == u0;
                            assert(exists|j: int| 0 <= j < input.len() && input[j] == u0);
                            let ju = choose|j: int| 0 <= j < input.len() && input[j] == u0;
                            assert(input[ju].name.lexeme@ == dependency.lexeme@);
                            // the shrunken worklist keeps the invariant
                            assert forall|i: int|
                                0 <= i < self.unresolved_recipes@.len() implies {
                                    let u = #[trigger] self.unresolved_recipes@[i];
                                    &&& exists|j: int| 0 <= j < input.len() && input[j] == u
                                    &&& !seq_has_key(self.resolved_recipes@, u.name.lexeme@)
                                    &&& !snames.contains(u.name.lexeme@)
                                } by {
                                assert(un_before.contains(self.unresolved_recipes@[i]));
                                let ix = choose|ix: int|
                                    0 <= ix < un_before.len() && un_before[ix]
                                        == self.unresolved_recipes@[i];
                                assert(un_before[ix] == self.unresolved_recipes@[i]);
                            }
                            assert forall|i: int| 0 <= i < snames.len() implies !seq_has_key(
                                self.unresolved_recipes@,
                                #[trigger] snames[i],
                            ) by {
                                if snames[i] == dependency.lexeme@ {
                                    assert(snames.contains(dependency.lexeme@));
                                }
                                assert(seq_has_key(self.unresolved_recipes@, snames[i])
                                    == seq_has_key(un_before, snames[i]));
                            }
                            assert(res_snap == self.resolved_recipes@);
                            assert(resolved_entries_ok(input, self.resolved_recipes@));
                            assert(self.unresolved_recipes.wf());
                            assert(self.resolved_recipes.wf());
                            assert(forall|i: int, j: int|
                                0 <= i < j < input.len() ==> (#[trigger] input[i].name.lexeme@)
                                    != (#[trigger] input[j].name.lexeme@));
                            assert(forall|i: int, kk: int|
                                0 <= i < self.resolved_recipes@.len() && 0 <= kk
                                    < self.resolved_recipes@[i].dependencies@.len() ==> (
                                #[trigger] self.resolved_recipes@[i].dependencies@[kk]).recipe
                                    < i);
                            assert(forall|i: int|
                                0 <= i < snames.len() ==> contains_recipe(
                                    input,
                                    #[trigger] snames[i],
                                ));
                            assert(forall|i: int|
                                0 <= i < snames.len() - 1 ==> is_edge(
                                    input,
                                    #[trigger] snames[i],
                                    snames[i + 1],
                                ));
                            assert forall|i: int| 0 <= i < snames.len() implies !seq_has_key(
                                self.resolved_recipes@,
                                #[trigger] snames[i],
                            ) by {
                                assert(seq_has_key(self.resolved_recipes@, snames[i])
                                    == seq_has_key(res_snap, snames[i]));
                            }
                            assert(self.assignments == old(self).assignments);
                            assert(self.assignments.wf());
                            assert(self.functions == old(self).functions);
                            assert(self.functions.wf());
                            assert(forall|i: int, j: int|
                                0 <= i < j < snames.len() ==> (#[trigger] snames[i]) != (
                                #[trigger] snames[j]));
                            assert(self.input@ == input);
                            assert forall|i: int|
                                0 <= i < self.unresolved_recipes@.len() implies {
                                    let u = #[trigger] self.unresolved_recipes@[i];
                                    &&& exists|j: int|
                                        0 <= j < self.input@.len() && self.input@[j] == u
                                    &&& !seq_has_key(self.resolved_recipes@, u.name.lexeme@)
                                    &&& !snames.contains(u.name.lexeme@)
                                } by {
                                assert(un_before.contains(self.unresolved_recipes@[i]));
                                let ix = choose|ix: int|
                                    0 <= ix < un_before.len() && un_before[ix]
                                        == self.unresolved_recipes@[i];
                                assert(un_before[ix] == self.unresolved_recipes@[i]);
                            }
                            assert(self.inv(snames));
                        }
                        if unresolved.parameters.len() > 0 {
                            return Err(dependency.error(
                                CompilationErrorKind::DependencyHasParameters {
                                    recipe: recipe.name.lexeme.clone(),
                                    dependency: dependency.lexeme.clone(),
                                },
                            ));
                        }
                        proof {
                            let ju = choose|j: int| 0 <= j < input.len() && input[j] == u0;
                            assert(input[jr].dependencies@[k as int].lexeme@ == u0.name.lexeme@);
                            assert(input[jr].name.lexeme@ == recipe.name.lexeme@);
                            assert(snames.last() == recipe.name.lexeme@);
                            assert(is_edge(input, snames.last(), u0.name.lexeme@));
                            assert forall|n: Seq<char>| #[trigger] contains_recipe(input, n)
                                implies seq_has_key(self.unresolved_recipes@, n) || seq_has_key(
                                self.resolved_recipes@,
                                n,
                            ) || snames.contains(n) || n == u0.name.lexeme@ by {
                                if n != u0.name.lexeme@ {
                                    assert(seq_has_key(self.unresolved_recipes@, n)
                                        == seq_has_key(un_before, n));
                                }
                            }
                        }
                        match self.resolve_recipe(stack, unresolved) {
                            Ok(ri) => {
                                proof {
                                    assert(self.resolved_recipes@[ri as int].name
                                        == u0.name);
                                }
                                dependencies.push(Dependency { recipe: ri });
                            },
                            Err(e) => {
                                return Err(e);
                            },
                        }
                    },
                    None => {
                        // the name is in neither table nor on the path:
                        // no recipe defines it
                        proof {
                            assert(!contains_recipe(input, dependency.lexeme@));
                        }
                        return Err(dependency.error(
                            CompilationErrorKind::UnknownDependency {
                                recipe: recipe.name.lexeme.clone(),
                                unknown: dependency.lexeme.clone(),
                            },
                        ));
                    },
                }
            }
            k += 1;
        }
        let ghost recipe0 = recipe;
        let ghost tbl0 = self.resolved_recipes@;
        let idx = self.resolved_recipes.len();
        let resolved = recipe.resolve(dependencies);
        proof {
            assert(resolved.key_spec() == recipe0.name.lexeme@);
            assert(snames.contains(recipe0.name.lexeme@));
            assert(!seq_has_key(self.resolved_recipes@, resolved.key_spec()));
        }
        self.resolved_recipes.insert(resolved);
        let _ = stack.pop();
        proof {
            let tbl = self.resolved_recipes@;
            assert(stack@ =~= stack0);
            assert(tbl =~= tbl0.push(resolved));
            // the fresh entry is the linked form of this recipe
            assert forall|m: int| 0 <= m < tbl[idx as int].dependencies@.len() implies {
                let d = (#[trigger] tbl[idx as int].dependencies@[m]).recipe;
                &&& d < tbl.len()
                &&& tbl[d as int].name.lexeme@ == recipe0.dependencies@[m].lexeme@
                &&& tbl[d as int].parameters@.len() == 0
                &&& d < idx
            } by {
                assert(tbl[idx as int].dependencies@[m] == dependencies@[m]);
                assert(tbl[dependencies@[m].recipe as int] == tbl0[dependencies@[m].recipe as int]);
            }
            assert(resolved_matches(recipe0, tbl[idx as int], tbl));
            // the older entries still match their input recipes
            let jr = choose|j: int| 0 <= j < input.len() && input[j] == recipe0;
            assert(resolved_matches(input[jr], tbl[idx as int], tbl));
            lemma_entries_ok_extend(input, tbl0, resolved, jr);
            assert(resolved_entries_ok(input, tbl));
            assert(self.input@ == input);
            let sn0 = stack_names(stack0);
            assert(snames =~= sn0.push(recipe0.name.lexeme@));
            assert forall|i: int| 0 <= i < sn0.len() implies #[trigger] sn0[i] == snames[i] by {}
            // key membership in the grown table
            assert forall|nn: Seq<char>| #[trigger] seq_has_key(tbl, nn) implies seq_has_key(
                tbl0,
                nn,
            ) || nn == recipe0.name.lexeme@ by {
                let m = choose|m: int| 0 <= m < tbl.len() && #[trigger] tbl[m].key_spec() == nn;
                if m < idx {
                    assert(tbl0[m].key_spec() == nn);
                } else {
                    assert(tbl[m] == resolved);
                }
            }
            assert forall|nn: Seq<char>| seq_has_key(tbl0, nn) implies #[trigger] seq_has_key(
                tbl,
                nn,
            ) by {
                let m = choose|m: int| 0 <= m < tbl0.len() && #[trigger] tbl0[m].key_spec() == nn;
                assert(tbl[m].key_spec() == nn);
            }
            assert(seq_has_key(tbl, recipe0.name.lexeme@)) by {
                assert(tbl[idx as int].key_spec() == recipe0.name.lexeme@);
            }
            // worklist entries against the caller's stack and grown table
            assert forall|i: int|
                0 <= i < self.unresolved_recipes@.len() implies {
                    let u = #[trigger] self.unresolved_recipes@[i];
                    &&& exists|j: int| 0 <= j < self.input@.len() && self.input@[j] == u
                    &&& !seq_has_key(tbl, u.name.lexeme@)
                    &&& !sn0.contains(u.name.lexeme@)
                } by {
                let u = self.unresolved_recipes@[i];
                assert(!snames.contains(u.name.lexeme@));
                assert(!seq_has_key(tbl0, u.name.lexeme@));
                if u.name.lexeme@ == recipe0.name.lexeme@ {
                    assert(snames.last() == u.name.lexeme@);
                    assert(snames.contains(u.name.lexeme@));
                }
                if sn0.contains(u.name.lexeme@) {
                    let m = choose|m: int| 0 <= m < sn0.len() && sn0[m] == u.name.lexeme@;
                    assert(snames[m] == u.name.lexeme@);
                    assert(snames.contains(u.name.lexeme@));
                }
            }
            // the caller's stack entries against the grown table
            assert forall|i: int|
                0 <= i < sn0.len() implies contains_recipe(self.input@, #[trigger] sn0[i])
                    && !seq_has_key(self.unresolved_recipes@, sn0[i]) && !seq_has_key(
                    tbl,
                    sn0[i],
                ) by {
                assert(sn0[i] == snames[i]);
                assert(contains_recipe(self.input@, snames[i]));
                assert(!seq_has_key(self.unresolved_recipes@, snames[i]));
                assert(!seq_has_key(tbl0, snames[i]));
                assert(snames[i] != snames.last());
            }
            assert(forall|i: int, j: int|
                0 <= i < j < sn0.len() ==> (#[trigger] sn0[i]) != (#[trigger] sn0[j]));
            assert(forall|i: int|
                0 <= i < sn0.len() - 1 ==> is_edge(self.input@, #[trigger] sn0[i], sn0[i + 1]));
            // every link of the grown table points at an earlier entry
            assert forall|i: int, kk: int|
                0 <= i < tbl.len() && 0 <= kk < tbl[i].dependencies@.len() implies (
                #[trigger] tbl[i].dependencies@[kk]).recipe < i by {
                if i < idx {
                    assert(tbl[i] == tbl0[i]);
                    assert(tbl0[i].dependencies@[kk].recipe < i);
                }
            }
            assert(self.inv(sn0));
            // covering at the caller's stack
            assert forall|n: Seq<char>| #[trigger] contains_recipe(self.input@, n)
                implies seq_has_key(self.unresolved_recipes@, n) || seq_has_key(tbl, n)
                || sn0.contains(n) by {
                if snames.contains(n) {
                    let m = choose|m: int| 0 <= m < snames.len() && snames[m] == n;
                    if m < sn0.len() {
                        assert(sn0[m] == n);
                        assert(sn0.contains(n));
                    } else {
                        assert(n == recipe0.name.lexeme@);
                    }
                }
            }
            assert(self.covered(sn0));
            assert(self.sum(sn0) == self.input@.len());
            assert(resolved_matches(recipe0, tbl[idx as int], tbl));
        }
        Ok(idx)
    }
    /// Runs the whole pass: repeatedly pops an unresolved recipe and
    /// resolves it depth-first, then validates every variable and
    /// function reference of every resolved recipe.
    ///
    /// Returns the resolved table exactly when the input is valid —
    /// every dependency names a parameterless recipe, the dependency
    /// graph has no cycle, and every embedded reference is defined.
    /// Otherwise the error names a genuine fault of the input, at the
    /// exact span of the offending token.
    #[verifier::loop_isolation(false)]
    #[verifier::rlimit(100)]
    #[verifier::spinoff_prover]
    pub fn resolve_recipes(
        unresolved_recipes: Table<Recipe<Name>>,
        assignments: &Table<Assignment>,
        functions: &Table<Function>,
    ) -> (r: Result<Table<Recipe<Dependency>>, CompilationError>)
        requires
            unresolved_recipes.wf(),
            assignments.wf(),
            functions.wf(),
        ensures
            r is Ok <==> input_valid(unresolved_recipes@, assignments@, functions@),
            r matches Ok(resolved) ==> {
                &&& resolved.wf()
                &&& table_resolves(unresolved_recipes@, resolved@)
                &&& forall|i: int|
                    0 <= i < resolved@.len() ==> recipe_exprs_ok(
                        assignments@,
                        functions@,
                        (#[trigger] resolved@[i]).parameters@,
                        resolved@[i].body@,
                    )
            },
            r matches Err(e) ==> error_sound(unresolved_recipes@, assignments@, functions@, e),
    {
        let ghost input = unresolved_recipes@;
        let mut resolver = RecipeResolver {
            resolved_recipes: Table::new(),
            unresolved_recipes,
            assignments,
            functions,
            input: Ghost(input),
        };
        let ghost no_stack: Seq<Seq<char>> = Seq::empty();
        proof {
            assert forall|i: int, j: int| 0 <= i < j < input.len() implies (
            #[trigger] input[i].name.lexeme@) != (#[trigger] input[j].name.lexeme@) by {
                assert(input[i].key_spec() == input[i].name.lexeme@);
                assert(input[j].key_spec() == input[j].name.lexeme@);
            }
            assert forall|i: int|
                0 <= i < resolver.unresolved_recipes@.len() implies {
                    let u = #[trigger] resolver.unresolved_recipes@[i];
                    &&& exists|j: int|
                        0 <= j < resolver.input@.len() && resolver.input@[j] == u
                    &&& !seq_has_key(resolver.resolved_recipes@, u.name.lexeme@)
                    &&& !no_stack.contains(u.name.lexeme@)
                } by {
                assert(resolver.input@[i] == resolver.unresolved_recipes@[i]);
            }
            assert(resolver.inv(no_stack));
            assert forall|n: Seq<char>| #[trigger] contains_recipe(resolver.input@, n)
                implies seq_has_key(resolver.unresolved_recipes@, n) || seq_has_key(
                resolver.resolved_recipes@,
                n,
            ) || no_stack.contains(n) by {
                let i = choose|i: int|
                    0 <= i < resolver.input@.len() && (#[trigger] resolver.input@[i].name.lexeme@)
                        == n;
                assert(resolver.unresolved_recipes@[i].key_spec() == n);
            }
            assert(resolver.covered(no_stack));
        }
        while !resolver.unresolved_recipes.is_empty()
            invariant
                resolver.inv(no_stack),
                resolver.covered(no_stack),
                resolver.sum(no_stack) == input.len(),
                resolver.input@ == input,
                resolver.assignments == assignments,
                resolver.functions == functions,
            decreases resolver.unresolved_recipes@.len(),
        {
            let ghost un_b4 = resolver.unresolved_recipes@;
            let ghost res_b4 = resolver.resolved_recipes@;
            proof {
                // record the worklist facts over the snapshot
                assert forall|i: int|
                    0 <= i < un_b4.len() implies {
                        let u = #[trigger] un_b4[i];
                        &&& exists|j: int| 0 <= j < input.len() && input[j] == u
                        &&& !seq_has_key(res_b4, u.name.lexeme@)
                    } by {
                    assert(resolver.unresolved_recipes@[i] == un_b4[i]);
                    assert(resolver.input@ == input);
                }
                assert forall|m: int, n: int| 0 <= m < n < un_b4.len() implies (
                #[trigger] un_b4[m].key_spec()) != (#[trigger] un_b4[n].key_spec()) by {
                    assert(resolver.unresolved_recipes@[m] == un_b4[m]);
                    assert(resolver.unresolved_recipes@[n] == un_b4[n]);
                }
            }
            let popped = resolver.unresolved_recipes.pop();
            match popped {
                Some(unresolved) => {
                    let ghost u0 = unresolved;
                    proof {
                        assert(u0 == un_b4[0]);
                        assert(u0.key_spec() == u0.name.lexeme@);
                        assert(res_b4 == resolver.resolved_recipes@);
                        assert(resolver.input@ == input);
                        assert forall|i: int|
                            0 <= i < resolver.unresolved_recipes@.len() implies {
                                let u = #[trigger] resolver.unresolved_recipes@[i];
                                &&& exists|j: int|
                                    0 <= j < resolver.input@.len() && resolver.input@[j] == u
                                &&& !seq_has_key(resolver.resolved_recipes@, u.name.lexeme@)
                                &&& !no_stack.contains(u.name.lexeme@)
                            } by {
                            assert(resolver.unresolved_recipes@[i] == un_b4[i + 1]);
                            assert(un_b4[i + 1] == un_b4[i + 1]);
                        }
                        assert(resolver.inv(no_stack));
                        assert forall|m: int|
                            0 <= m < resolver.unresolved_recipes@.len() implies (
                            #[trigger] resolver.unresolved_recipes@[m]).key_spec()
                                != u0.name.lexeme@ by {
                            assert(resolver.unresolved_recipes@[m] == un_b4[m + 1]);
                            assert(un_b4[0].key_spec() == u0.name.lexeme@);
                            assert(un_b4[m + 1].key_spec() != un_b4[0].key_spec());
                        }
                        assert(!seq_has_key(resolver.unresolved_recipes@, u0.name.lexeme@));
                        assert forall|n: Seq<char>| #[trigger] contains_recipe(resolver.input@, n)
                            implies seq_has_key(resolver.unresolved_recipes@, n) || seq_has_key(
                            resolver.resolved_recipes@,
                            n,
                        ) || no_stack.contains(n) || n == u0.name.lexeme@ by {
                            if seq_has_key(un_b4, n) && n != u0.name.lexeme@ {
                                let m = choose|m: int|
                                    0 <= m < un_b4.len() && #[trigger] un_b4[m].key_spec() == n;
                                assert(m != 0);
                                assert(resolver.unresolved_recipes@[m - 1].key_spec() == n);
                            }
                        }
                    }
                    let mut stack: Vec<String> = Vec::new();
                    proof {
                        assert(stack_names(stack@) =~= no_stack);
                    }
                    match resolver.resolve_recipe(&mut stack, unresolved) {
                        Ok(_) => {
                            proof {
                                assert(resolver.inv(no_stack));
                                assert(resolver.covered(no_stack));
                                assert(resolver.sum(no_stack) == input.len());
                            }
                        },
                        Err(e) => {
                            proof {
                                assert(error_sound(input, assignments@, functions@, e));
                                assert forall|a: int, b: int|
                                    0 <= a < b < functions@.len() implies (
                                    #[trigger] functions@[a].name@) != (
                                    #[trigger] functions@[b].name@) by {
                                    assert(functions@[a].key_spec() == functions@[a].name@);
                                    assert(functions@[b].key_spec() == functions@[b].name@);
                                }
                                lemma_error_sound_invalid(input, assignments@, functions@, e);
                            }
                            return Err(e);
                        },
                    }
                },
                None => {
                    proof {
                        assert(false);
                    }
                },
            }
        }
        // the worklist is consumed: every input recipe is resolved;
        // now check every embedded reference
        let total = resolver.resolved_recipes.len();
        let mut i: usize = 0;
        while i < total
            invariant
                i <= total,
                total == resolver.resolved_recipes@.len(),
                forall|m: int|
                    0 <= m < i ==> recipe_exprs_ok(
                        assignments@,
                        functions@,
                        (#[trigger] resolver.resolved_recipes@[m]).parameters@,
                        resolver.resolved_recipes@[m].body@,
                    ),
            decreases total - i,
        {
            let entry = resolver.resolved_recipes.get_at(i);
            match resolver.validate_recipe(&entry.parameters, &entry.body) {
                Ok(_) => {},
                Err(e) => {
                    proof {
                        let tbl = resolver.resolved_recipes@;
                        assert(entry_resolves(resolver.input@, tbl, i as int));
                        let j = choose|j: int|
                            0 <= j < resolver.input@.len() && #[trigger] resolved_matches(
                                resolver.input@[j],
                                tbl[i as int],
                                tbl,
                            );
                        assert(input[j].parameters@ == tbl[i as int].parameters@);
                        assert(input[j].body@ == tbl[i as int].body@);
                        assert(recipe_expr_fault(
                            assignments@,
                            functions@,
                            input[j].parameters@,
                            input[j].body@,
                            e,
                        ));
                        assert(error_sound(input, assignments@, functions@, e));
                        assert forall|a: int, b: int|
                            0 <= a < b < functions@.len() implies (#[trigger] functions@[a].name@)
                                != (#[trigger] functions@[b].name@) by {
                            assert(functions@[a].key_spec() == functions@[a].name@);
                            assert(functions@[b].key_spec() == functions@[b].name@);
                        }
                        lemma_error_sound_invalid(input, assignments@, functions@, e);
                    }
                    return Err(e);
                },
            }
            i += 1;
        }
        proof {
            let tbl = resolver.resolved_recipes@;
            assert(tbl.len() == input.len());
            assert forall|a: int, b: int| 0 <= a < b < tbl.len() implies (
            #[trigger] tbl[a].name.lexeme@) != (#[trigger] tbl[b].name.lexeme@) by {
                assert(tbl[a].key_spec() == tbl[a].name.lexeme@);
                assert(tbl[b].key_spec() == tbl[b].name.lexeme@);
            }
            assert forall|j: int| 0 <= j < input.len() implies #[trigger] input_recipe_linked(
                input,
                tbl,
                j,
            ) by {
                assert(contains_recipe(resolver.input@, input[j].name.lexeme@)) by {
                    assert(resolver.input@[j].name.lexeme@ == input[j].name.lexeme@);
                }
                assert(seq_has_key(tbl, input[j].name.lexeme@));
                let t = choose|t: int|
                    0 <= t < tbl.len() && #[trigger] tbl[t].key_spec() == input[j].name.lexeme@;
                assert(entry_resolves(resolver.input@, tbl, t));
                let j2 = choose|j2: int|
                    0 <= j2 < resolver.input@.len() && #[trigger] resolved_matches(
                        resolver.input@[j2],
                        tbl[t],
                        tbl,
                    );
                assert(input[j2].name.lexeme@ == tbl[t].name.lexeme@);
                assert(j2 == j);
                assert(resolved_matches(input[j], tbl[t], tbl));
                assert(input_recipe_linked(input, tbl, j));
            }
            assert forall|t: int| 0 <= t < tbl.len() implies #[trigger] entry_resolves(
                input,
                tbl,
                t,
            ) by {
                assert(entry_resolves(resolver.input@, tbl, t));
                assert(resolver.input@ == input);
            }
            assert forall|t: int, kk: int|
                0 <= t < tbl.len() && 0 <= kk < tbl[t].dependencies@.len() implies (
                #[trigger] tbl[t].dependencies@[kk]).recipe < t by {
                assert(resolver.resolved_recipes@[t].dependencies@[kk].recipe < t);
            }
            assert(table_resolves(input, tbl));
            lemma_resolution_valid(input, assignments@, functions@, tbl);
        }
        Ok(resolver.resolved_recipes)
    }
}

/// Appending the linked form of one more input recipe keeps every table
/// entry the linked form of some input recipe.
proof fn lemma_entries_ok_extend(
    input: Seq<Recipe<Name>>,
    tbl0: Seq<Recipe<Dependency>>,
    x: Recipe<Dependency>,
    jx: int,
)
    requires
        resolved_entries_ok(input, tbl0),
        0 <= jx < input.len(),
        resolved_matches(input[jx], x, tbl0.push(x)),
    ensures
        resolved_entries_ok(input, tbl0.push(x)),
{
    let tbl = tbl0.push(x);
    assert forall|i: int| 0 <= i < tbl.len() implies #[trigger] entry_resolves(input, tbl, i) by {
        if i < tbl0.len() {
            assert(tbl[i] == tbl0[i]);
            assert(entry_resolves(input, tbl0, i));
            let j = choose|j: int|
                0 <= j < input.len() && #[trigger] resolved_matches(input[j], tbl0[i], tbl0);
            lemma_matches_push(input[j], tbl0[i], tbl0, x);
            assert(resolved_matches(input[j], tbl[i], tbl));
        } else {
            assert(tbl[i] == x);
            assert(resolved_matches(input[jx], tbl[i], tbl));
        }
    }
}

/// Extending the table leaves the linked form of an older entry intact:
/// its links point below the old length, where nothing changed.
proof fn lemma_matches_push(
    u: Recipe<Name>,
    r: Recipe<Dependency>,
    tbl: Seq<Recipe<Dependency>>,
    x: Recipe<Dependency>,
)
    requires
        resolved_matches(u, r, tbl),
    ensures
        resolved_matches(u, r, tbl.push(x)),
{
    assert forall|k: int| 0 <= k < r.dependencies@.len() implies {
        let d = (#[trigger] r.dependencies@[k]).recipe;
        &&& d < tbl.push(x).len()
        &&& tbl.push(x)[d as int].name.lexeme@ == u.dependencies@[k].lexeme@
        &&& tbl.push(x)[d as int].parameters@.len() == 0
    } by {
        let d = r.dependencies@[k].recipe;
        assert(d < tbl.len());
        assert(tbl.push(x)[d as int] == tbl[d as int]);
    }
}

/// The position of a stack entry with the given name, if any.
#[verifier::loop_isolation(false)]
fn stack_position(stack: &Vec<String>, name: &String) -> (r: Option<usize>)
    ensures
        r is Some <==> stack_names(stack@).contains(name@),
        r matches Some(i) ==> i < stack@.len() && stack@[i as int]@ == name@,
{
    let n = stack.len();
    let mut i: usize = 0;
    while i < n
        invariant
            i <= n,
            forall|j: int| 0 <= j < i ==> (#[trigger] stack@[j])@ != name@,
        decreases n - i,
    {
        if stack[i] == *name {
            proof {
                assert(stack_names(stack@)[i as int] == name@);
            }
            return Some(i);
        }
        i += 1;
    }
    proof {
        assert forall|j: int| 0 <= j < stack_names(stack@).len() implies #[trigger] stack_names(
            stack@,
        )[j] != name@ by {
            assert(stack_names(stack@)[j] == stack@[j]@);
        }
    }
    None
}

// ---------------------------------------------------------------------
// From the resolved table back to the input: the proof that resolution
// succeeds exactly on valid inputs.
// ---------------------------------------------------------------------

/// Some entry of `tbl` bears the name `n`.
spec fn tbl_has_name(tbl: Seq<Recipe<Dependency>>, n: Seq<char>) -> bool {
    exists|i: int| 0 <= i < tbl.len() && (#[trigger] tbl[i].name.lexeme@) == n
}

/// No two entries of `tbl` share a name.
spec fn tbl_names_unique(tbl: Seq<Recipe<Dependency>>) -> bool {
    forall|i: int, j: int|
        0 <= i < j < tbl.len() ==> (#[trigger] tbl[i].name.lexeme@) != (
        #[trigger] tbl[j].name.lexeme@)
}

/// The position of the entry of `tbl` bearing the name `n`.
spec fn resolved_position(tbl: Seq<Recipe<Dependency>>, n: Seq<char>) -> int {
    choose|i: int| 0 <= i < tbl.len() && (#[trigger] tbl[i].name.lexeme@) == n
}

/// Along any dependency edge of the input, the position in the resolved
/// table strictly decreases: a recipe is linked only after its targets.
#[verifier::rlimit(100)]
proof fn lemma_edge_decreases(
    input: Seq<Recipe<Name>>,
    tbl: Seq<Recipe<Dependency>>,
    a: Seq<char>,
    b: Seq<char>,
)
    requires
        table_resolves(input, tbl),
        tbl_names_unique(tbl),
        is_edge(input, a, b),
    ensures
        tbl_has_name(tbl, a),
        tbl_has_name(tbl, b),
        0 <= resolved_position(tbl, b) < resolved_position(tbl, a) < tbl.len(),
{
    let (ie, ke) = choose|ie: int, ke: int|
        0 <= ie < input.len() && 0 <= ke < input[ie].dependencies@.len()
            && input[ie].name.lexeme@ == a && (#[trigger] input[ie].dependencies@[ke]).lexeme@
            == b;
    assert(input_recipe_linked(input, tbl, ie));
    let ti = choose|t: int|
        0 <= t < tbl.len() && #[trigger] resolved_matches(input[ie], tbl[t], tbl);
    assert(tbl[ti].name.lexeme@ == a);
    assert(tbl_has_name(tbl, a));
    let d = tbl[ti].dependencies@[ke].recipe;
    assert(tbl[d as int].name.lexeme@ == b);
    assert(tbl_has_name(tbl, b));
    assert(d < ti);
    let pa = resolved_position(tbl, a);
    let pb = resolved_position(tbl, b);
    assert(0 <= pa < tbl.len() && tbl[pa].name.lexeme@ == a);
    assert(0 <= pb < tbl.len() && tbl[pb].name.lexeme@ == b);
    assert(pa == ti);
    assert(pb == d);
}

/// Along a dependency path, the position of the last name lies strictly
/// below the position of the first.
#[verifier::rlimit(100)]
#[verifier::spinoff_prover]
proof fn lemma_path_decreases(
    input: Seq<Recipe<Name>>,
    tbl: Seq<Recipe<Dependency>>,
    p: Seq<Seq<char>>,
)
    requires
        table_resolves(input, tbl),
        tbl_names_unique(tbl),
        p.len() >= 1,
        forall|m: int| 0 <= m < p.len() - 1 ==> is_edge(input, #[trigger] p[m], p[m + 1]),
    ensures
        p.len() >= 2 ==> resolved_position(tbl, p.last()) < resolved_position(tbl, p[0]),
    decreases p.len(),
{
    if p.len() >= 2 {
        assert(is_edge(input, p[0], p[1]));
        lemma_edge_decreases(input, tbl, p[0], p[1]);
        let q = p.drop_first();
        assert forall|m: int| 0 <= m < q.len() - 1 implies is_edge(
            input,
            #[trigger] q[m],
            q[m + 1],
        ) by {
            assert(q[m] == p[m + 1]);
            assert(q[m + 1] == p[m + 2]);
            assert(is_edge(input, p[m + 1], p[m + 2]));
        }
        lemma_path_decreases(input, tbl, q);
        if p.len() >= 3 {
            assert(q.last() == p.last());
            assert(q[0] == p[1]);
        } else {
            assert(p.last() == p[1]);
        }
    }
}

/// A table whose links all point backwards can only come from an input
/// without dependency cycles.
proof fn lemma_acyclic(input: Seq<Recipe<Name>>, tbl: Seq<Recipe<Dependency>>)
    requires
        table_resolves(input, tbl),
        tbl_names_unique(tbl),
    ensures
        acyclic(input),
{
    assert forall|p: Seq<Seq<char>>| !(#[trigger] is_cycle(input, p)) by {
        if is_cycle(input, p) {
            if p.len() == 1 {
                assert(is_edge(input, p[0], p[0]));
                lemma_edge_decreases(input, tbl, p[0], p[0]);
            } else {
                lemma_path_decreases(input, tbl, p);
                assert(is_edge(input, p.last(), p[0]));
                lemma_edge_decreases(input, tbl, p.last(), p[0]);
            }
            assert(false);
        }
    }
}

/// A fully linked and fully validated table exists only for a valid
/// input: dependencies known and parameterless, no cycles, and every
/// embedded reference defined.
#[verifier::rlimit(100)]
proof fn lemma_resolution_valid(
    input: Seq<Recipe<Name>>,
    asgs: Seq<Assignment>,
    fs: Seq<Function>,
    tbl: Seq<Recipe<Dependency>>,
)
    requires
        table_resolves(input, tbl),
        tbl_names_unique(tbl),
        forall|i: int|
            0 <= i < tbl.len() ==> recipe_exprs_ok(
                asgs,
                fs,
                (#[trigger] tbl[i]).parameters@,
                tbl[i].body@,
            ),
    ensures
        input_valid(input, asgs, fs),
{
    assert forall|i: int, k: int|
        0 <= i < input.len() && 0 <= k < input[i].dependencies@.len() implies contains_recipe(
        input,
        (#[trigger] input[i].dependencies@[k]).lexeme@,
    ) && (forall|j: int|
        0 <= j < input.len() && (#[trigger] input[j].name.lexeme@)
            == input[i].dependencies@[k].lexeme@ ==> input[j].parameters@.len() == 0) by {
        assert(input_recipe_linked(input, tbl, i));
        let ti = choose|t: int|
            0 <= t < tbl.len() && #[trigger] resolved_matches(input[i], tbl[t], tbl);
        let d = tbl[ti].dependencies@[k].recipe;
        assert(tbl[d as int].name.lexeme@ == input[i].dependencies@[k].lexeme@);
        assert(tbl[d as int].parameters@.len() == 0);
        assert(entry_resolves(input, tbl, d as int));
        let jd = choose|j: int|
            0 <= j < input.len() && #[trigger] resolved_matches(input[j], tbl[d as int], tbl);
        assert(input[jd].name.lexeme@ == tbl[d as int].name.lexeme@);
        assert(contains_recipe(input, input[i].dependencies@[k].lexeme@));
        assert forall|j: int|
            0 <= j < input.len() && (#[trigger] input[j].name.lexeme@)
                == input[i].dependencies@[k].lexeme@ implies input[j].parameters@.len() == 0 by {
            assert(input_recipe_linked(input, tbl, j));
            let tj = choose|t: int|
                0 <= t < tbl.len() && #[trigger] resolved_matches(input[j], tbl[t], tbl);
            assert(tbl[tj].name.lexeme@ == input[j].name.lexeme@);
            assert(tj == d);
            assert(tbl[tj].parameters@ == input[j].parameters@);
        }
    }
    assert(deps_known(input));
    assert(deps_parameterless(input));
    lemma_acyclic(input, tbl);
    assert forall|i: int| 0 <= i < input.len() implies recipe_exprs_ok(
        asgs,
        fs,
        (#[trigger] input[i]).parameters@,
        input[i].body@,
    ) by {
        assert(input_recipe_linked(input, tbl, i));
        let ti = choose|t: int|
            0 <= t < tbl.len() && #[trigger] resolved_matches(input[i], tbl[t], tbl);
        assert(tbl[ti].parameters@ == input[i].parameters@);
        assert(tbl[ti].body@ == input[i].body@);
        assert(recipe_exprs_ok(asgs, fs, tbl[ti].parameters@, tbl[ti].body@));
    }
}

/// An expression with a reported reference fault cannot have passed
/// validation.
proof fn lemma_expression_fault_invalid(
    asgs: Seq<Assignment>,
    fs: Seq<Function>,
    params: Seq<Parameter>,
    ex: Expression,
    e: CompilationError,
)
    requires
        expression_fault(asgs, fs, params, ex, e),
        forall|i: int, j: int|
            0 <= i < j < fs.len() ==> (#[trigger] fs[i].name@) != (#[trigger] fs[j].name@),
    ensures
        !expr_ok(asgs, fs, params, ex),
{
    if !expr_ok(asgs, fs, params, ex) {
        return ;
    }
    match e.kind {
        CompilationErrorKind::UndefinedVariable { variable } => {
            let v = choose|v: int|
                0 <= v < ex.variables@.len() && (#[trigger] ex.variables@[v]).lexeme@ == variable@
                    && error_at(e, ex.variables@[v]) && !variable_defined(
                    asgs,
                    params,
                    ex.variables@[v].lexeme@,
                );
            assert(variable_defined(asgs, params, ex.variables@[v].lexeme@));
        },
        CompilationErrorKind::UnknownFunction { .. } => {
            let i = choose|i: int|
                0 <= i < ex.functions@.len() && error_at(e, (#[trigger] ex.functions@[i]).name)
                    && function_error_kind(
                    fs,
                    ex.functions@[i].name,
                    ex.functions@[i].argc as int,
                    e.kind,
                );
            assert(function_known(fs, ex.functions@[i].name.lexeme@, ex.functions@[i].argc as int));
            let m = choose|m: int|
                0 <= m < fs.len() && (#[trigger] fs[m].name@) == ex.functions@[i].name.lexeme@
                    && fs[m].min_args <= ex.functions@[i].argc as int <= fs[m].max_args;
            assert(fs[m].key_spec() == fs[m].name@);
            assert(seq_has_key(fs, ex.functions@[i].name.lexeme@));
        },
        CompilationErrorKind::FunctionArgumentCountMismatch { expected_min, expected_max, .. } => {
            let i = choose|i: int|
                0 <= i < ex.functions@.len() && error_at(e, (#[trigger] ex.functions@[i]).name)
                    && function_error_kind(
                    fs,
                    ex.functions@[i].name,
                    ex.functions@[i].argc as int,
                    e.kind,
                );
            assert(function_known(fs, ex.functions@[i].name.lexeme@, ex.functions@[i].argc as int));
            let m = choose|m: int|
                0 <= m < fs.len() && (#[trigger] fs[m].name@) == ex.functions@[i].name.lexeme@
                    && fs[m].min_args <= ex.functions@[i].argc as int <= fs[m].max_args;
            let m2 = choose|m2: int|
                0 <= m2 < fs.len() && (#[trigger] fs[m2].name@) == ex.functions@[i].name.lexeme@
                    && fs[m2].min_args == expected_min && fs[m2].max_args == expected_max;
            assert(m == m2);
        },
        _ => {
            assert(false);
        },
    }
}

/// An error is only ever reported for a genuine fault, so a valid input
/// is never rejected.
pub proof fn lemma_error_sound_invalid(
    rs: Seq<Recipe<Name>>,
    asgs: Seq<Assignment>,
    fs: Seq<Function>,
    e: CompilationError,
)
    requires
        error_sound(rs, asgs, fs, e),
        forall|i: int, j: int|
            0 <= i < j < fs.len() ==> (#[trigger] fs[i].name@) != (#[trigger] fs[j].name@),
    ensures
        !input_valid(rs, asgs, fs),
{
    if input_valid(rs, asgs, fs) {
        match e.kind {
            CompilationErrorKind::CircularRecipeDependency { recipe, circle } => {
                let c = circle@.map_values(|s: String| s@);
                assert(is_cycle(rs, c.take(c.len() - 1)));
            },
            CompilationErrorKind::UnknownDependency { recipe, unknown } => {
                let (j, k) = choose|j: int, k: int|
                    0 <= j < rs.len() && 0 <= k < rs[j].dependencies@.len() && rs[j].name.lexeme@
                        == recipe@ && (#[trigger] rs[j].dependencies@[k]).lexeme@ == unknown@
                        && error_at(e, rs[j].dependencies@[k]);
                assert(contains_recipe(rs, rs[j].dependencies@[k].lexeme@));
            },
            CompilationErrorKind::DependencyHasParameters { recipe, dependency } => {
                let (j, k) = choose|j: int, k: int|
                    0 <= j < rs.len() && 0 <= k < rs[j].dependencies@.len() && rs[j].name.lexeme@
                        == recipe@ && (#[trigger] rs[j].dependencies@[k]).lexeme@ == dependency@
                        && error_at(e, rs[j].dependencies@[k]);
                let m = choose|m: int|
                    0 <= m < rs.len() && (#[trigger] rs[m].name.lexeme@) == dependency@
                        && rs[m].parameters@.len() > 0;
                assert(rs[m].parameters@.len() == 0);
            },
            CompilationErrorKind::UndefinedVariable { .. } => {
                lemma_recipe_fault_invalid(rs, asgs, fs, e);
            },
            CompilationErrorKind::UnknownFunction { .. } => {
                lemma_recipe_fault_invalid(rs, asgs, fs, e);
            },
            CompilationErrorKind::FunctionArgumentCountMismatch { .. } => {
                lemma_recipe_fault_invalid(rs, asgs, fs, e);
            },
        }
        assert(false);
    }
}

/// A reported reference fault in some recipe means not every recipe of
/// the input has valid references.
proof fn lemma_recipe_fault_invalid(
    rs: Seq<Recipe<Name>>,
    asgs: Seq<Assignment>,
    fs: Seq<Function>,
    e: CompilationError,
)
    requires
        exists|j: int|
            0 <= j < rs.len() && recipe_expr_fault(
                asgs,
                fs,
                (#[trigger] rs[j]).parameters@,
                rs[j].body@,
                e,
            ),
        forall|i: int, j: int|
            0 <= i < j < fs.len() ==> (#[trigger] fs[i].name@) != (#[trigger] fs[j].name@),
    ensures
        !(forall|i: int|
            0 <= i < rs.len() ==> recipe_exprs_ok(
                asgs,
                fs,
                (#[trigger] rs[i]).parameters@,
                rs[i].body@,
            )),
{
    if !(forall|i: int|
        0 <= i < rs.len() ==> recipe_exprs_ok(
            asgs,
            fs,
            (#[trigger] rs[i]).parameters@,
            rs[i].body@,
        )) {
        return ;
    }
    let j = choose|j: int|
        0 <= j < rs.len() && recipe_expr_fault(
            asgs,
            fs,
            (#[trigger] rs[j]).parameters@,
            rs[j].body@,
            e,
        );
    let params = rs[j].parameters@;
    let body = rs[j].body@;
    assert(recipe_exprs_ok(asgs, fs, params, body));
    if exists|p: int|
        0 <= p < params.len() && (#[trigger] params[p]).default is Some && expression_fault(
            asgs,
            fs,
            Seq::<Parameter>::empty(),
            params[p].default.unwrap(),
            e,
        ) {
        let pp = choose|p: int|
            0 <= p < params.len() && (#[trigger] params[p]).default is Some && expression_fault(
                asgs,
                fs,
                Seq::<Parameter>::empty(),
                params[p].default.unwrap(),
                e,
            );
        assert(expr_ok(asgs, fs, Seq::<Parameter>::empty(), params[pp].default.unwrap()));
        lemma_expression_fault_invalid(
            asgs,
            fs,
            Seq::<Parameter>::empty(),
            params[pp].default.unwrap(),
            e,
        );
    } else {
        let (l, f) = choose|l: int, f: int|
            0 <= l < body.len() && 0 <= f < body[l].fragments@.len() && (
            #[trigger] body[l].fragments@[f]) is Interpolation && expression_fault(
                asgs,
                fs,
                params,
                body[l].fragments@[f]->expression,
                e,
            );
        assert(expr_ok(asgs, fs, params, body[l].fragments@[f]->expression));
        lemma_expression_fault_invalid(asgs, fs, params, body[l].fragments@[f]->expression, e);
    }
}

} // verus!
