use recipe_resolver::error::CompilationErrorKind;
use recipe_resolver::function::Function;
use recipe_resolver::name::Name;
use recipe_resolver::recipe::{Assignment, Expression, Fragment, Line, Parameter, Recipe};
use recipe_resolver::resolver::RecipeResolver;
use recipe_resolver::table::Table;

fn tok(lexeme: &str, offset: usize, line: usize, column: usize) -> Name {
    Name { offset, line, column, length: lexeme.len(), lexeme: lexeme.to_string() }
}

fn no_expr() -> Expression {
    Expression { functions: Vec::new(), variables: Vec::new() }
}

fn plain_recipe(name: Name, dependencies: Vec<Name>) -> Recipe<Name> {
    Recipe { name, parameters: Vec::new(), dependencies, body: Vec::new() }
}

fn recipe_table(recipes: Vec<Recipe<Name>>) -> Table<Recipe<Name>> {
    let mut t = Table::new();
    for r in recipes {
        t.insert(r);
    }
    t
}

fn assignment_table(names: Vec<Name>) -> Table<Assignment> {
    let mut t = Table::new();
    for name in names {
        t.insert(Assignment { name, value: no_expr() });
    }
    t
}

fn function_table(functions: Vec<Function>) -> Table<Function> {
    let mut t = Table::new();
    for f in functions {
        t.insert(f);
    }
    t
}

fn interpolation_line(expressions: Vec<Expression>) -> Line {
    Line {
        fragments: expressions
            .into_iter()
            .map(|expression| Fragment::Interpolation { expression })
            .collect(),
    }
}

#[test]
fn self_recipe_dependency() {
    // "a: a"
    let table = recipe_table(vec![plain_recipe(tok("a", 0, 0, 0), vec![tok("a", 3, 0, 3)])]);
    let err = RecipeResolver::resolve_recipes(table, &assignment_table(vec![]), &function_table(vec![]))
        .unwrap_err();
    assert_eq!(err.offset, 3);
    assert_eq!(err.line, 0);
    assert_eq!(err.column, 3);
    assert_eq!(err.width, 1);
    assert_eq!(
        err.kind,
        CompilationErrorKind::CircularRecipeDependency {
            recipe: "a".to_string(),
            circle: vec!["a".to_string(), "a".to_string()],
        }
    );
}

#[test]
fn circular_recipe_dependency() {
    // "a: b\nb: a"
    let table = recipe_table(vec![
        plain_recipe(tok("a", 0, 0, 0), vec![tok("b", 3, 0, 3)]),
        plain_recipe(tok("b", 5, 1, 0), vec![tok("a", 8, 1, 3)]),
    ]);
    let err = RecipeResolver::resolve_recipes(table, &assignment_table(vec![]), &function_table(vec![]))
        .unwrap_err();
    assert_eq!(err.offset, 8);
    assert_eq!(err.line, 1);
    assert_eq!(err.column, 3);
    assert_eq!(err.width, 1);
    assert_eq!(
        err.kind,
        CompilationErrorKind::CircularRecipeDependency {
            recipe: "b".to_string(),
            circle: vec!["a".to_string(), "b".to_string(), "a".to_string()],
        }
    );
}

#[test]
fn unknown_dependency() {
    // "a: b" with no recipe b
    let table = recipe_table(vec![plain_recipe(tok("a", 0, 0, 0), vec![tok("b", 3, 0, 3)])]);
    let err = RecipeResolver::resolve_recipes(table, &assignment_table(vec![]), &function_table(vec![]))
        .unwrap_err();
    assert_eq!(err.offset, 3);
    assert_eq!(err.line, 0);
    assert_eq!(err.column, 3);
    assert_eq!(err.width, 1);
    assert_eq!(
        err.kind,
        CompilationErrorKind::UnknownDependency { recipe: "a".to_string(), unknown: "b".to_string() }
    );
}

#[test]
fn unknown_interpolation_variable() {
    // "x:\n {{   hello}}"
    let expr = Expression { functions: Vec::new(), variables: vec![tok("hello", 9, 1, 6)] };
    let table = recipe_table(vec![Recipe {
        name: tok("x", 0, 0, 0),
        parameters: Vec::new(),
        dependencies: Vec::new(),
        body: vec![interpolation_line(vec![expr])],
    }]);
    let err = RecipeResolver::resolve_recipes(table, &assignment_table(vec![]), &function_table(vec![]))
        .unwrap_err();
    assert_eq!(err.offset, 9);
    assert_eq!(err.line, 1);
    assert_eq!(err.column, 6);
    assert_eq!(err.width, 5);
    assert_eq!(
        err.kind,
        CompilationErrorKind::UndefinedVariable { variable: "hello".to_string() }
    );
}

#[test]
fn unknown_second_interpolation_variable() {
    // "wtf=\"x\"\nx:\n echo\n foo {{wtf}} {{ lol }}"
    let first = Expression { functions: Vec::new(), variables: vec![tok("wtf", 24, 3, 7)] };
    let second = Expression { functions: Vec::new(), variables: vec![tok("lol", 33, 3, 16)] };
    let echo = Line { fragments: vec![Fragment::Text { text: "echo".to_string() }] };
    let foo = Line {
        fragments: vec![
            Fragment::Text { text: "foo ".to_string() },
            Fragment::Interpolation { expression: first },
            Fragment::Text { text: " ".to_string() },
            Fragment::Interpolation { expression: second },
        ],
    };
    let table = recipe_table(vec![Recipe {
        name: tok("x", 8, 1, 0),
        parameters: Vec::new(),
        dependencies: Vec::new(),
        body: vec![echo, foo],
    }]);
    let assignments = assignment_table(vec![tok("wtf", 0, 0, 0)]);
    let err = RecipeResolver::resolve_recipes(table, &assignments, &function_table(vec![]))
        .unwrap_err();
    assert_eq!(err.offset, 33);
    assert_eq!(err.line, 3);
    assert_eq!(err.column, 16);
    assert_eq!(err.width, 3);
    assert_eq!(
        err.kind,
        CompilationErrorKind::UndefinedVariable { variable: "lol".to_string() }
    );
}

#[test]
fn unknown_function_in_interpolation() {
    // "a:\n echo {{bar()}}"
    let expr = Expression {
        functions: vec![recipe_resolver::recipe::FunctionCall { name: tok("bar", 11, 1, 8), argc: 0 }],
        variables: Vec::new(),
    };
    let table = recipe_table(vec![Recipe {
        name: tok("a", 0, 0, 0),
        parameters: Vec::new(),
        dependencies: Vec::new(),
        body: vec![interpolation_line(vec![expr])],
    }]);
    let err = RecipeResolver::resolve_recipes(table, &assignment_table(vec![]), &function_table(vec![]))
        .unwrap_err();
    assert_eq!(err.offset, 11);
    assert_eq!(err.line, 1);
    assert_eq!(err.column, 8);
    assert_eq!(err.width, 3);
    assert_eq!(
        err.kind,
        CompilationErrorKind::UnknownFunction { function: "bar".to_string() }
    );
}

#[test]
fn unknown_function_in_default() {
    // "a f=baz():"
    let default = Expression {
        functions: vec![recipe_resolver::recipe::FunctionCall { name: tok("baz", 4, 0, 4), argc: 0 }],
        variables: Vec::new(),
    };
    let table = recipe_table(vec![Recipe {
        name: tok("a", 0, 0, 0),
        parameters: vec![Parameter { name: tok("f", 2, 0, 2), default: Some(default) }],
        dependencies: Vec::new(),
        body: Vec::new(),
    }]);
    let err = RecipeResolver::resolve_recipes(table, &assignment_table(vec![]), &function_table(vec![]))
        .unwrap_err();
    assert_eq!(err.offset, 4);
    assert_eq!(err.line, 0);
    assert_eq!(err.column, 4);
    assert_eq!(err.width, 3);
    assert_eq!(
        err.kind,
        CompilationErrorKind::UnknownFunction { function: "baz".to_string() }
    );
}

#[test]
fn unknown_variable_in_default() {
    // "a f=foo:" — defaults never see sibling parameters
    let default = Expression { functions: Vec::new(), variables: vec![tok("foo", 4, 0, 4)] };
    let table = recipe_table(vec![Recipe {
        name: tok("a", 0, 0, 0),
        parameters: vec![Parameter { name: tok("f", 2, 0, 2), default: Some(default) }],
        dependencies: Vec::new(),
        body: Vec::new(),
    }]);
    let err = RecipeResolver::resolve_recipes(table, &assignment_table(vec![]), &function_table(vec![]))
        .unwrap_err();
    assert_eq!(err.offset, 4);
    assert_eq!(err.line, 0);
    assert_eq!(err.column, 4);
    assert_eq!(err.width, 3);
    assert_eq!(
        err.kind,
        CompilationErrorKind::UndefinedVariable { variable: "foo".to_string() }
    );
}

#[test]
fn parameter_default_never_sees_sibling_parameter() {
    // a parameter default naming another parameter of the same recipe fails
    let default = Expression { functions: Vec::new(), variables: vec![tok("g", 6, 0, 6)] };
    let table = recipe_table(vec![Recipe {
        name: tok("a", 0, 0, 0),
        parameters: vec![
            Parameter { name: tok("g", 2, 0, 2), default: None },
            Parameter { name: tok("f", 4, 0, 4), default: Some(default) },
        ],
        dependencies: Vec::new(),
        body: Vec::new(),
    }]);
    let err = RecipeResolver::resolve_recipes(table, &assignment_table(vec![]), &function_table(vec![]))
        .unwrap_err();
    assert_eq!(
        err.kind,
        CompilationErrorKind::UndefinedVariable { variable: "g".to_string() }
    );
}

#[test]
fn parameter_visible_in_body() {
    let expr = Expression { functions: Vec::new(), variables: vec![tok("p", 10, 1, 8)] };
    let table = recipe_table(vec![Recipe {
        name: tok("a", 0, 0, 0),
        parameters: vec![Parameter { name: tok("p", 2, 0, 2), default: None }],
        dependencies: Vec::new(),
        body: vec![interpolation_line(vec![expr])],
    }]);
    let resolved = RecipeResolver::resolve_recipes(table, &assignment_table(vec![]), &function_table(vec![]))
        .unwrap();
    assert_eq!(resolved.values().len(), 1);
}

#[test]
fn dependency_has_parameters_when_already_resolved() {
    // recipe b (with a parameter) is popped and resolved first; a then
    // finds it already resolved and must still reject it
    let table = recipe_table(vec![
        Recipe {
            name: tok("b", 0, 0, 0),
            parameters: vec![Parameter { name: tok("p", 2, 0, 2), default: None }],
            dependencies: Vec::new(),
            body: Vec::new(),
        },
        plain_recipe(tok("a", 5, 1, 0), vec![tok("b", 8, 1, 3)]),
    ]);
    let err = RecipeResolver::resolve_recipes(table, &assignment_table(vec![]), &function_table(vec![]))
        .unwrap_err();
    assert_eq!(err.offset, 8);
    assert_eq!(
        err.kind,
        CompilationErrorKind::DependencyHasParameters {
            recipe: "a".to_string(),
            dependency: "b".to_string(),
        }
    );
}

#[test]
fn dependency_has_parameters_when_freshly_pulled() {
    // a is popped first and pulls b out of the unresolved set itself
    let table = recipe_table(vec![
        plain_recipe(tok("a", 0, 0, 0), vec![tok("b", 3, 0, 3)]),
        Recipe {
            name: tok("b", 5, 1, 0),
            parameters: vec![Parameter { name: tok("p", 7, 1, 2), default: None }],
            dependencies: Vec::new(),
            body: Vec::new(),
        },
    ]);
    let err = RecipeResolver::resolve_recipes(table, &assignment_table(vec![]), &function_table(vec![]))
        .unwrap_err();
    assert_eq!(err.offset, 3);
    assert_eq!(
        err.kind,
        CompilationErrorKind::DependencyHasParameters {
            recipe: "a".to_string(),
            dependency: "b".to_string(),
        }
    );
}

#[test]
fn diamond_resolves_with_declared_order() {
    // a: b c, b: d, c: d — acyclic fan-in; all four end up resolved and
    // each dependency list keeps its declared order
    let table = recipe_table(vec![
        plain_recipe(tok("a", 0, 0, 0), vec![tok("b", 3, 0, 3), tok("c", 5, 0, 5)]),
        plain_recipe(tok("b", 7, 1, 0), vec![tok("d", 10, 1, 3)]),
        plain_recipe(tok("c", 12, 2, 0), vec![tok("d", 15, 2, 3)]),
        plain_recipe(tok("d", 17, 3, 0), vec![]),
    ]);
    let resolved = RecipeResolver::resolve_recipes(table, &assignment_table(vec![]), &function_table(vec![]))
        .unwrap();
    let entries = resolved.values();
    assert_eq!(entries.len(), 4);
    let a = entries.iter().find(|r| r.name.lexeme == "a").unwrap();
    assert_eq!(a.dependencies.len(), 2);
    assert_eq!(entries[a.dependencies[0].recipe].name.lexeme, "b");
    assert_eq!(entries[a.dependencies[1].recipe].name.lexeme, "c");
    let b = entries.iter().find(|r| r.name.lexeme == "b").unwrap();
    let c = entries.iter().find(|r| r.name.lexeme == "c").unwrap();
    assert_eq!(entries[b.dependencies[0].recipe].name.lexeme, "d");
    assert_eq!(entries[c.dependencies[0].recipe].name.lexeme, "d");
    // the shared target is one and the same entry
    assert_eq!(b.dependencies[0].recipe, c.dependencies[0].recipe);
}

#[test]
fn long_cycle_is_reported_from_its_first_occurrence() {
    // a: b, b: c, c: b — the circle starts at b, closed by the path's head
    let table = recipe_table(vec![
        plain_recipe(tok("a", 0, 0, 0), vec![tok("b", 3, 0, 3)]),
        plain_recipe(tok("b", 5, 1, 0), vec![tok("c", 8, 1, 3)]),
        plain_recipe(tok("c", 10, 2, 0), vec![tok("b", 13, 2, 3)]),
    ]);
    let err = RecipeResolver::resolve_recipes(table, &assignment_table(vec![]), &function_table(vec![]))
        .unwrap_err();
    assert_eq!(err.offset, 13);
    assert_eq!(
        err.kind,
        CompilationErrorKind::CircularRecipeDependency {
            recipe: "c".to_string(),
            circle: vec!["b".to_string(), "c".to_string(), "a".to_string()],
        }
    );
}

#[test]
fn known_function_and_assignment_resolve() {
    let expr = Expression {
        functions: vec![recipe_resolver::recipe::FunctionCall { name: tok("env", 9, 1, 6), argc: 1 }],
        variables: vec![tok("greeting", 16, 1, 13)],
    };
    let table = recipe_table(vec![Recipe {
        name: tok("a", 0, 0, 0),
        parameters: Vec::new(),
        dependencies: Vec::new(),
        body: vec![interpolation_line(vec![expr])],
    }]);
    let assignments = assignment_table(vec![tok("greeting", 0, 0, 0)]);
    let functions = function_table(vec![Function { name: "env".to_string(), min_args: 1, max_args: 2 }]);
    let resolved = RecipeResolver::resolve_recipes(table, &assignments, &functions).unwrap();
    assert_eq!(resolved.values().len(), 1);
}

#[test]
fn function_argument_count_mismatch() {
    let expr = Expression {
        functions: vec![recipe_resolver::recipe::FunctionCall { name: tok("env", 9, 1, 6), argc: 0 }],
        variables: Vec::new(),
    };
    let table = recipe_table(vec![Recipe {
        name: tok("a", 0, 0, 0),
        parameters: Vec::new(),
        dependencies: Vec::new(),
        body: vec![interpolation_line(vec![expr])],
    }]);
    let functions = function_table(vec![Function { name: "env".to_string(), min_args: 1, max_args: 2 }]);
    let err = RecipeResolver::resolve_recipes(table, &assignment_table(vec![]), &functions)
        .unwrap_err();
    assert_eq!(err.offset, 9);
    assert_eq!(
        err.kind,
        CompilationErrorKind::FunctionArgumentCountMismatch {
            function: "env".to_string(),
            found: 0,
            expected_min: 1,
            expected_max: 2,
        }
    );
}

#[test]
fn empty_input_resolves_to_empty_table() {
    let table = recipe_table(vec![]);
    let resolved = RecipeResolver::resolve_recipes(table, &assignment_table(vec![]), &function_table(vec![]))
        .unwrap();
    assert_eq!(resolved.values().len(), 0);
}
