//! The recipe data model: parameters, body fragments, embedded
//! expressions, and the recipe itself in its unresolved (dependencies as
//! bare name tokens) and resolved (dependencies linked) forms.

use crate::name::Name;
use crate::table::Keyed;
use vstd::prelude::*;

verus! {

/// A function reference inside an expression: the function's name token
/// and the number of arguments it is called with.
#[derive(Debug, PartialEq, Eq)]
pub struct FunctionCall {
    pub name: Name,
    pub argc: usize,
}

/// An embedded expression, seen through the two queries validation
/// needs: the function references and the variable references it
/// contains. Its parsing and evaluation live outside this pass.
#[derive(Debug, PartialEq, Eq)]
pub struct Expression {
    pub functions: Vec<FunctionCall>,
    pub variables: Vec<Name>,
}

/// A recipe parameter: its name and an optional default expression.
#[derive(Debug, PartialEq, Eq)]
pub struct Parameter {
    pub name: Name,
    pub default: Option<Expression>,
}

/// A piece of a body line: literal text, or an interpolation substituted
/// at execution time.
#[derive(Debug, PartialEq, Eq)]
pub enum Fragment {
    Text { text: String },
    Interpolation { expression: Expression },
}

/// One line of a recipe body, as an ordered list of fragments.
#[derive(Debug, PartialEq, Eq)]
pub struct Line {
    pub fragments: Vec<Fragment>,
}

/// A link to an already-resolved recipe: the position of the target in
/// the resolved table. Many recipes may share one target, and a target
/// always stands earlier in the table than the recipes that depend on it.
#[derive(Debug, PartialEq, Eq)]
pub struct Dependency {
    pub recipe: usize,
}

/// A named task with parameters, dependencies, and a command body.
///
/// `D` is `Name` while each dependency is still a bare token, and
/// `Dependency` once each has been linked to its resolved target.
#[derive(Debug, PartialEq, Eq)]
pub struct Recipe<D> {
    pub name: Name,
    pub parameters: Vec<Parameter>,
    pub dependencies: Vec<D>,
    pub body: Vec<Line>,
}

/// A top-level variable binding, defined outside any recipe. The table
/// of assignments is produced upstream and only queried here.
#[derive(Debug, PartialEq, Eq)]
pub struct Assignment {
    pub name: Name,
    pub value: Expression,
}

impl<D> Recipe<D> {
    /// The recipe's name, as text.
    pub fn name(&self) -> (r: &String)
        ensures
            r@ == self.name.lexeme@,
    {
        &self.name.lexeme
    }
}

impl Recipe<Name> {
    /// The resolved form of this recipe: the same name, parameters and
    /// body, with the dependency tokens replaced by the given links.
    pub fn resolve(self, dependencies: Vec<Dependency>) -> (r: Recipe<Dependency>)
        ensures
            r.name == self.name,
            r.parameters == self.parameters,
            r.body == self.body,
            r.dependencies == dependencies,
    {
        Recipe { name: self.name, parameters: self.parameters, dependencies, body: self.body }
    }
}

impl<D> Keyed for Recipe<D> {
    open spec fn key_spec(&self) -> Seq<char> {
        self.name.lexeme@
    }

    fn key(&self) -> (k: &String) {
        &self.name.lexeme
    }
}

impl Keyed for Assignment {
    open spec fn key_spec(&self) -> Seq<char> {
        self.name.lexeme@
    }

    fn key(&self) -> (k: &String) {
        &self.name.lexeme
    }
}

} // verus!
