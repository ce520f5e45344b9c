use opacity_cli::bindings::{Binding, ScopedBindings};
use opacity_cli::has_call_to_function_visitor::HasCallToFunctionVisitor;
use opacity_cli::nodes::{
    Arguments, Block, Expression, FieldExpression, FunctionCall, IfBranch, IfStatement,
    LocalAssignStatement, Statement,
};

fn identifier(name: &str) -> Expression {
    Expression::Identifier(name.to_string())
}

fn call(prefix: Expression, arguments: Vec<Expression>) -> FunctionCall {
    FunctionCall { prefix, method: None, arguments: Arguments::Tuple(arguments) }
}

fn probe() -> Expression {
    Expression::Call(Box::new(call(identifier("probe"), vec![])))
}

fn field(prefix: Expression, name: &str) -> Expression {
    Expression::Field(Box::new(FieldExpression { prefix, field: name.to_string() }))
}

fn holds_call(expression: &Expression, name: &str, scope: &ScopedBindings) -> bool {
    let mut visitor = HasCallToFunctionVisitor::new(name.to_string(), scope);
    assert!(!visitor.has_call_to_function());
    visitor.visit_expression(expression);
    visitor.has_call_to_function()
}

#[test]
fn direct_call_is_found_wherever_it_stands() {
    let scope = ScopedBindings::new();
    assert!(holds_call(&probe(), "probe", &scope));
    assert!(holds_call(&Expression::Other(vec![identifier("x"), probe()]), "probe", &scope));
    assert!(holds_call(&field(probe(), "major"), "probe", &scope));
    let as_argument = Expression::Call(Box::new(call(identifier("tonumber"), vec![probe()])));
    assert!(holds_call(&as_argument, "probe", &scope));
    let as_callee = Expression::Call(Box::new(call(probe(), vec![])));
    assert!(holds_call(&as_callee, "probe", &scope));
    let in_table = Expression::Call(Box::new(FunctionCall {
        prefix: identifier("f"),
        method: None,
        arguments: Arguments::Table(vec![probe()]),
    }));
    assert!(holds_call(&in_table, "probe", &scope));
}

#[test]
fn other_calls_and_mentions_are_not_found() {
    let scope = ScopedBindings::new();
    assert!(!holds_call(&identifier("probe"), "probe", &scope));
    assert!(!holds_call(&Expression::String("probe".to_string()), "probe", &scope));
    assert!(!holds_call(&Expression::True, "probe", &scope));
    let other = Expression::Call(Box::new(call(identifier("other"), vec![identifier("probe")])));
    assert!(!holds_call(&other, "probe", &scope));
    let method = Expression::Call(Box::new(FunctionCall {
        prefix: identifier("probe"),
        method: Some("get".to_string()),
        arguments: Arguments::Tuple(vec![]),
    }));
    assert!(!holds_call(&method, "probe", &scope));
    let sugar = Expression::Call(Box::new(FunctionCall {
        prefix: identifier("other"),
        method: None,
        arguments: Arguments::String("probe".to_string()),
    }));
    assert!(!holds_call(&sugar, "probe", &scope));
}

#[test]
fn qualified_name_is_matched_whole() {
    let scope = ScopedBindings::new();
    let qualified = Expression::Call(Box::new(call(field(identifier("sdk"), "version"), vec![])));
    assert!(holds_call(&qualified, "sdk.version", &scope));
    assert!(!holds_call(&qualified, "version", &scope));
    assert!(!holds_call(&qualified, "sdk", &scope));
}

#[test]
fn variable_bound_to_the_result_of_the_call_is_found() {
    let mut scope = ScopedBindings::new();
    scope.push();
    scope.insert("version".to_string(), Binding::CallResult("probe".to_string()));
    scope.insert("alias".to_string(), Binding::Name("probe".to_string()));
    scope.insert("unknown".to_string(), Binding::Opaque);
    scope.insert("other".to_string(), Binding::CallResult("other".to_string()));
    assert!(holds_call(&identifier("version"), "probe", &scope));
    assert!(holds_call(
        &Expression::Other(vec![identifier("version"), Expression::Other(vec![])]),
        "probe",
        &scope
    ));
    assert!(!holds_call(&identifier("alias"), "probe", &scope));
    assert!(!holds_call(&identifier("unknown"), "probe", &scope));
    assert!(!holds_call(&identifier("other"), "probe", &scope));
    assert!(!holds_call(&identifier("unbound"), "probe", &scope));
}

#[test]
fn inner_binding_shadows_and_ends_with_its_scope() {
    let mut scope = ScopedBindings::new();
    scope.push();
    scope.insert("version".to_string(), Binding::CallResult("probe".to_string()));
    scope.push();
    assert!(holds_call(&identifier("version"), "probe", &scope));
    scope.insert("version".to_string(), Binding::Opaque);
    assert!(!holds_call(&identifier("version"), "probe", &scope));
    assert_eq!(scope.get(&"version".to_string()), Some(&Binding::Opaque));
    scope.pop();
    assert!(holds_call(&identifier("version"), "probe", &scope));
    assert_eq!(
        scope.get(&"version".to_string()),
        Some(&Binding::CallResult("probe".to_string()))
    );
    scope.pop();
    assert_eq!(scope.get(&"version".to_string()), None);
    scope.pop();
    assert_eq!(scope.get(&"version".to_string()), None);
}

#[test]
fn later_declaration_in_a_scope_replaces_the_earlier() {
    let mut scope = ScopedBindings::new();
    // with no scope open a declaration opens one
    scope.insert("x".to_string(), Binding::Name("a".to_string()));
    scope.insert("x".to_string(), Binding::Name("b".to_string()));
    assert_eq!(scope.get(&"x".to_string()), Some(&Binding::Name("b".to_string())));
    scope.pop();
    assert_eq!(scope.get(&"x".to_string()), None);
}

#[test]
fn call_inside_a_function_body_is_found() {
    let scope = ScopedBindings::new();
    let body = |statement: Statement| {
        Expression::Function(Box::new(Block { statements: vec![statement] }))
    };
    assert!(holds_call(
        &body(Statement::Call(call(identifier("probe"), vec![]))),
        "probe",
        &scope
    ));
    assert!(holds_call(&body(Statement::Other(vec![probe()])), "probe", &scope));
    assert!(holds_call(
        &body(Statement::LocalAssign(LocalAssignStatement {
            variables: vec!["v".to_string()],
            values: vec![probe()],
        })),
        "probe",
        &scope
    ));
    assert!(holds_call(
        &body(Statement::Nested {
            expressions: vec![],
            block: Block { statements: vec![Statement::Other(vec![probe()])] },
        }),
        "probe",
        &scope
    ));
    assert!(holds_call(
        &body(Statement::If(IfStatement {
            branches: vec![IfBranch {
                condition: Expression::True,
                block: Block { statements: vec![] },
            }],
            else_block: Some(Block { statements: vec![Statement::Other(vec![probe()])] }),
        })),
        "probe",
        &scope
    ));
    assert!(!holds_call(
        &body(Statement::If(IfStatement {
            branches: vec![IfBranch {
                condition: identifier("probe"),
                block: Block { statements: vec![] },
            }],
            else_block: None,
        })),
        "probe",
        &scope
    ));
}

#[test]
fn what_was_found_stays_found() {
    let scope = ScopedBindings::new();
    let mut visitor = HasCallToFunctionVisitor::new("probe".to_string(), &scope);
    visitor.process_function_call(&call(identifier("probe"), vec![]));
    assert!(visitor.has_call_to_function());
    visitor.process_function_call(&call(identifier("other"), vec![]));
    visitor.process_expression(&identifier("x"));
    visitor.visit_expression(&Expression::True);
    assert!(visitor.has_call_to_function());
}
