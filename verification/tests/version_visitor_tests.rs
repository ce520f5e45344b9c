use opacity_cli::nodes::{
    Arguments, Block, Expression, FieldExpression, FunctionCall, IfBranch, IfStatement,
    LocalAssignStatement, Statement,
};
use opacity_cli::sdk_version::SdkVersionOut;
use opacity_cli::version_visitor::{
    binding_of, clear_if_statement, FunctionMapping, VersionFile, VersionResolver,
};
use opacity_cli::bindings::Binding;

fn get_version_file() -> VersionFile {
    VersionFile {
        default_version: Some(10),
        function_mappings: vec![
            ("get_sdk_version".to_string(), FunctionMapping::new(13, None)),
            ("at_least_20".to_string(), FunctionMapping::new(20, None)),
            ("less_than_20".to_string(), FunctionMapping::new(16, Some(19))),
            ("global_function_15".to_string(), FunctionMapping::new(15, None)),
            ("sdk.net.fetch".to_string(), FunctionMapping::new(25, Some(40))),
        ],
        sdk_version_function: "get_sdk_version".to_string(),
    }
}

fn identifier(name: &str) -> Expression {
    Expression::Identifier(name.to_string())
}

fn number() -> Expression {
    Expression::Other(vec![])
}

fn call_of(prefix: Expression, arguments: Vec<Expression>) -> FunctionCall {
    FunctionCall { prefix, method: None, arguments: Arguments::Tuple(arguments) }
}

fn call(name: &str, arguments: Vec<Expression>) -> FunctionCall {
    call_of(identifier(name), arguments)
}

fn call_statement(name: &str) -> Statement {
    Statement::Call(call(name, vec![]))
}

fn call_expression(name: &str, arguments: Vec<Expression>) -> Expression {
    Expression::Call(Box::new(call(name, arguments)))
}

fn field(prefix: Expression, name: &str) -> Expression {
    Expression::Field(Box::new(FieldExpression { prefix, field: name.to_string() }))
}

fn local(name: &str, value: Expression) -> Statement {
    Statement::LocalAssign(LocalAssignStatement {
        variables: vec![name.to_string()],
        values: vec![value],
    })
}

fn block(statements: Vec<Statement>) -> Block {
    Block { statements }
}

fn at_least(left: Expression) -> Expression {
    Expression::Other(vec![left, number()])
}

fn if_else(condition: Expression, then: Vec<Statement>, otherwise: Option<Vec<Statement>>) -> Statement {
    Statement::If(IfStatement {
        branches: vec![IfBranch { condition, block: block(then) }],
        else_block: otherwise.map(block),
    })
}

fn neutral(with_else: bool) -> Statement {
    Statement::If(IfStatement {
        branches: vec![IfBranch { condition: Expression::True, block: block(vec![]) }],
        else_block: if with_else { Some(block(vec![])) } else { None },
    })
}

/// `function main() local x = 33 for i = 1, 10 do <body> end end`
fn main_with_loop(body: Vec<Statement>) -> Block {
    block(vec![Statement::Nested {
        expressions: vec![],
        block: block(vec![
            local("x", number()),
            Statement::Nested { expressions: vec![number(), number()], block: block(body) },
        ]),
    }])
}

fn own_interval(tree: &mut Block) -> SdkVersionOut {
    let version_file = get_version_file();
    let mut version_visitor = VersionResolver::new(&version_file);
    version_visitor.visit_block(tree);
    version_visitor.sdk_version()
}

#[test]
fn version_check_through_a_bound_variable_takes_the_union() {
    let mut block = main_with_loop(vec![
        local("sdk_version", call_expression("get_sdk_version", vec![])),
        if_else(
            at_least(identifier("sdk_version")),
            vec![call_statement("at_least_20")],
            Some(vec![call_statement("less_than_20")]),
        ),
    ]);

    let version_file = get_version_file();
    let mut version_visitor = VersionResolver::new(&version_file);
    version_visitor.visit_block(&mut block);

    assert!(version_visitor.sdk_version().min_sdk_version == 16)
}

#[test]
fn version_check_without_else_leaves_the_probe_call_only() {
    let mut block = main_with_loop(vec![
        local("sdk_version", call_expression("get_sdk_version", vec![])),
        if_else(at_least(identifier("sdk_version")), vec![call_statement("at_least_20")], None),
    ]);

    let version_file = get_version_file();
    let mut version_visitor = VersionResolver::new(&version_file);
    version_visitor.visit_block(&mut block);

    // check for the get_sdk_version min version
    assert!(version_visitor.sdk_version().min_sdk_version == 13)
}

#[test]
fn trapped_call_in_a_loop_registers() {
    let mut block = main_with_loop(vec![local(
        "my_test_call",
        call_expression("pcall", vec![identifier("global_function_15")]),
    )]);

    let version_file = get_version_file();
    let mut version_visitor = VersionResolver::new(&version_file);
    version_visitor.visit_block(&mut block);

    assert!(version_visitor.sdk_version().min_sdk_version == 15)
}

#[test]
fn module_without_gated_calls_has_the_default_interval() {
    let mut tree = block(vec![call_statement("print"), local("x", number())]);
    assert_eq!(own_interval(&mut tree), SdkVersionOut { min_sdk_version: 10, max_sdk_version: None });
}

#[test]
fn absent_default_version_counts_as_one() {
    let version_file = VersionFile {
        default_version: None,
        function_mappings: vec![],
        sdk_version_function: "probe".to_string(),
    };
    let mut tree = block(vec![call_statement("print")]);
    let mut resolver = VersionResolver::new(&version_file);
    assert_eq!(resolver.sdk_version(), SdkVersionOut { min_sdk_version: 1, max_sdk_version: None });
    resolver.visit_block(&mut tree);
    assert_eq!(resolver.sdk_version(), SdkVersionOut { min_sdk_version: 1, max_sdk_version: None });
}

#[test]
fn single_gated_call_raises_the_minimum() {
    let mut tree = block(vec![call_statement("at_least_20")]);
    assert_eq!(own_interval(&mut tree), SdkVersionOut { min_sdk_version: 20, max_sdk_version: None });
}

#[test]
fn gate_below_the_default_does_not_lower_the_minimum() {
    let version_file = VersionFile {
        default_version: Some(10),
        function_mappings: vec![("old".to_string(), FunctionMapping::new(5, Some(50)))],
        sdk_version_function: "probe".to_string(),
    };
    let mut tree = block(vec![call_statement("old")]);
    let mut resolver = VersionResolver::new(&version_file);
    resolver.visit_block(&mut tree);
    assert_eq!(
        resolver.sdk_version(),
        SdkVersionOut { min_sdk_version: 10, max_sdk_version: Some(50) }
    );
}

#[test]
fn sequential_gated_calls_intersect() {
    let mut tree = block(vec![call_statement("at_least_20"), call_statement("less_than_20")]);
    assert_eq!(
        own_interval(&mut tree),
        SdkVersionOut { min_sdk_version: 20, max_sdk_version: Some(19) }
    );
}

#[test]
fn first_mapping_of_a_name_counts() {
    let version_file = VersionFile {
        default_version: Some(1),
        function_mappings: vec![
            ("twice".to_string(), FunctionMapping::new(7, None)),
            ("twice".to_string(), FunctionMapping::new(9, None)),
        ],
        sdk_version_function: "probe".to_string(),
    };
    let mut tree = block(vec![call_statement("twice")]);
    let mut resolver = VersionResolver::new(&version_file);
    resolver.visit_block(&mut tree);
    assert_eq!(resolver.sdk_version().min_sdk_version, 7);
}

#[test]
fn version_check_takes_the_union_of_its_branches_and_is_neutralized() {
    let mut tree = block(vec![if_else(
        at_least(call_expression("get_sdk_version", vec![])),
        vec![call_statement("at_least_20")],
        Some(vec![call_statement("less_than_20")]),
    )]);
    let own = own_interval(&mut tree);
    assert_eq!(own, SdkVersionOut { min_sdk_version: 16, max_sdk_version: None });
    assert_eq!(tree, block(vec![neutral(true)]));
}

#[test]
fn version_check_without_else_is_neutralized_and_demands_nothing() {
    let mut tree = block(vec![if_else(
        at_least(call_expression("get_sdk_version", vec![])),
        vec![call_statement("at_least_20")],
        None,
    )]);
    let own = own_interval(&mut tree);
    assert_eq!(own, SdkVersionOut { min_sdk_version: 10, max_sdk_version: None });
    assert_eq!(tree, block(vec![neutral(false)]));
}

#[test]
fn conditional_without_probe_is_walked_and_left_alone() {
    let original = || {
        block(vec![if_else(
            at_least(identifier("x")),
            vec![call_statement("at_least_20")],
            Some(vec![call_statement("less_than_20")]),
        )])
    };
    let mut tree = original();
    let own = own_interval(&mut tree);
    assert_eq!(own, SdkVersionOut { min_sdk_version: 20, max_sdk_version: Some(19) });
    assert_eq!(tree, original());
}

#[test]
fn elseif_chain_is_left_alone_even_with_probe() {
    let original = || {
        block(vec![Statement::If(IfStatement {
            branches: vec![
                IfBranch {
                    condition: at_least(call_expression("get_sdk_version", vec![])),
                    block: block(vec![call_statement("at_least_20")]),
                },
                IfBranch {
                    condition: at_least(identifier("y")),
                    block: block(vec![call_statement("global_function_15")]),
                },
            ],
            else_block: Some(block(vec![call_statement("less_than_20")])),
        })])
    };
    let mut tree = original();
    let own = own_interval(&mut tree);
    // every call counts: 13 from the probe, 20, 15, and 16..19
    assert_eq!(own, SdkVersionOut { min_sdk_version: 20, max_sdk_version: Some(19) });
    assert_eq!(tree, original());
}

#[test]
fn branches_of_a_version_check_are_measured_from_the_default() {
    // the enclosing scope already demands 20..; the else branch alone is 16..19
    let mut tree = block(vec![
        call_statement("at_least_20"),
        if_else(
            at_least(call_expression("get_sdk_version", vec![])),
            vec![call_statement("print")],
            Some(vec![call_statement("less_than_20")]),
        ),
    ]);
    // union(10.., 16..19) = 10.. ; intersected into 20.. gives 20..
    assert_eq!(own_interval(&mut tree), SdkVersionOut { min_sdk_version: 20, max_sdk_version: None });
}

#[test]
fn nested_version_check_inside_function_expression_is_neutralized() {
    let inner = || {
        if_else(
            at_least(call_expression("get_sdk_version", vec![])),
            vec![call_statement("at_least_20")],
            Some(vec![call_statement("less_than_20")]),
        )
    };
    let mut tree = block(vec![local(
        "f",
        Expression::Function(Box::new(block(vec![inner()]))),
    )]);
    let own = own_interval(&mut tree);
    assert_eq!(own, SdkVersionOut { min_sdk_version: 16, max_sdk_version: None });
    assert_eq!(
        tree,
        block(vec![local("f", Expression::Function(Box::new(block(vec![neutral(true)]))))])
    );
}

#[test]
fn trapped_call_registers_like_a_direct_call() {
    let mut direct = block(vec![call_statement("global_function_15")]);
    let mut trapped = block(vec![Statement::Call(call(
        "pcall",
        vec![identifier("global_function_15")],
    ))]);
    let direct_interval = own_interval(&mut direct);
    assert_eq!(direct_interval, SdkVersionOut { min_sdk_version: 15, max_sdk_version: None });
    assert_eq!(own_interval(&mut trapped), direct_interval);
}

#[test]
fn trapped_field_chain_registers() {
    let chain = field(field(identifier("sdk"), "net"), "fetch");
    let mut tree = block(vec![Statement::Call(call("pcall", vec![chain, number()]))]);
    assert_eq!(
        own_interval(&mut tree),
        SdkVersionOut { min_sdk_version: 25, max_sdk_version: Some(40) }
    );
}

#[test]
fn trapped_variable_bound_to_a_name_registers() {
    let mut tree = block(vec![
        local("f", identifier("at_least_20")),
        Statement::Call(call("pcall", vec![identifier("f")])),
    ]);
    assert_eq!(own_interval(&mut tree), SdkVersionOut { min_sdk_version: 20, max_sdk_version: None });
}

#[test]
fn trapped_variable_with_opaque_binding_fails_closed() {
    let mut tree = block(vec![
        local("at_least_20", number()),
        Statement::Call(call("pcall", vec![identifier("at_least_20")])),
    ]);
    assert_eq!(own_interval(&mut tree), SdkVersionOut { min_sdk_version: 10, max_sdk_version: None });
}

#[test]
fn shadowing_ends_with_the_scope() {
    let mut tree = block(vec![
        Statement::Nested {
            expressions: vec![],
            block: block(vec![local("at_least_20", number())]),
        },
        Statement::Call(call("pcall", vec![identifier("at_least_20")])),
    ]);
    assert_eq!(own_interval(&mut tree), SdkVersionOut { min_sdk_version: 20, max_sdk_version: None });
}

#[test]
fn bindings_of_a_repeated_block_reach_its_condition_and_no_further() {
    let repeat = |condition: Expression| Statement::Repeat {
        block: block(vec![local("f", identifier("at_least_20"))]),
        condition,
    };
    let trapped = || call_expression("pcall", vec![identifier("f")]);
    let mut inside = block(vec![repeat(trapped())]);
    assert_eq!(own_interval(&mut inside), SdkVersionOut { min_sdk_version: 20, max_sdk_version: None });
    let mut after = block(vec![repeat(Expression::True), Statement::Other(vec![trapped()])]);
    assert_eq!(own_interval(&mut after), SdkVersionOut { min_sdk_version: 10, max_sdk_version: None });
}

#[test]
fn trapping_call_without_arguments_registers_nothing() {
    let mut tree = block(vec![
        Statement::Call(call("pcall", vec![])),
        Statement::Call(FunctionCall {
            prefix: identifier("pcall"),
            method: None,
            arguments: Arguments::String("at_least_20".to_string()),
        }),
    ]);
    assert_eq!(own_interval(&mut tree), SdkVersionOut { min_sdk_version: 10, max_sdk_version: None });
}

#[test]
fn method_call_and_indexed_callee_are_ignored() {
    let mut tree = block(vec![
        Statement::Call(FunctionCall {
            prefix: identifier("at_least_20"),
            method: Some("run".to_string()),
            arguments: Arguments::Tuple(vec![]),
        }),
        Statement::Call(call_of(
            field(Expression::Other(vec![identifier("sdk"), number()]), "fetch"),
            vec![],
        )),
    ]);
    assert_eq!(own_interval(&mut tree), SdkVersionOut { min_sdk_version: 10, max_sdk_version: None });
}

#[test]
fn gated_field_chain_registers() {
    let mut tree = block(vec![Statement::Call(call_of(
        field(field(identifier("sdk"), "net"), "fetch"),
        vec![],
    ))]);
    assert_eq!(
        own_interval(&mut tree),
        SdkVersionOut { min_sdk_version: 25, max_sdk_version: Some(40) }
    );
}

#[test]
fn calls_in_callee_and_arguments_register() {
    let mut tree = block(vec![Statement::Call(call_of(
        call_expression("at_least_20", vec![]),
        vec![Expression::Other(vec![call_expression("less_than_20", vec![])])],
    ))]);
    assert_eq!(
        own_interval(&mut tree),
        SdkVersionOut { min_sdk_version: 20, max_sdk_version: Some(19) }
    );
}

#[test]
fn process_statement_reports_whether_it_handled() {
    let version_file = get_version_file();
    let mut resolver = VersionResolver::new(&version_file);
    let mut check = if_else(
        at_least(call_expression("get_sdk_version", vec![])),
        vec![call_statement("at_least_20")],
        Some(vec![call_statement("less_than_20")]),
    );
    assert!(resolver.process_statement(&mut check));
    assert_eq!(check, neutral(true));
    // with no scope open the demand takes the place of the root
    assert_eq!(resolver.sdk_version(), SdkVersionOut { min_sdk_version: 16, max_sdk_version: None });
    let mut other = call_statement("at_least_20");
    assert!(!resolver.process_statement(&mut other));
    assert_eq!(other, call_statement("at_least_20"));
}

#[test]
fn scopes_merge_into_their_parent_on_pop() {
    let version_file = get_version_file();
    let mut resolver = VersionResolver::new(&version_file);
    resolver.push();
    resolver.push();
    resolver.process_function_call(&call("less_than_20", vec![]));
    assert_eq!(
        resolver.scope_stack,
        vec![
            SdkVersionOut { min_sdk_version: 10, max_sdk_version: None },
            SdkVersionOut { min_sdk_version: 16, max_sdk_version: Some(19) },
        ]
    );
    resolver.pop();
    assert_eq!(
        resolver.scope_stack,
        vec![SdkVersionOut { min_sdk_version: 16, max_sdk_version: Some(19) }]
    );
    resolver.process_function_call(&call("at_least_20", vec![]));
    resolver.pop();
    assert!(resolver.scope_stack.is_empty());
    assert_eq!(
        resolver.sdk_version(),
        SdkVersionOut { min_sdk_version: 20, max_sdk_version: Some(19) }
    );
    // popping with no scope open changes nothing
    resolver.pop();
    assert_eq!(
        resolver.sdk_version(),
        SdkVersionOut { min_sdk_version: 20, max_sdk_version: Some(19) }
    );
}

#[test]
fn insert_local_binds_for_the_trap() {
    let version_file = get_version_file();
    let mut resolver = VersionResolver::new(&version_file);
    resolver.push();
    resolver.insert_local(&"f".to_string(), Some(&identifier("at_least_20")));
    resolver.insert_local(&"g".to_string(), None);
    resolver.process_function_call(&call("pcall", vec![identifier("g")]));
    assert_eq!(
        resolver.scope_stack,
        vec![SdkVersionOut { min_sdk_version: 10, max_sdk_version: None }]
    );
    resolver.process_function_call(&call("pcall", vec![identifier("f")]));
    assert_eq!(
        resolver.scope_stack,
        vec![SdkVersionOut { min_sdk_version: 20, max_sdk_version: None }]
    );
}

#[test]
fn clear_if_statement_keeps_the_shape() {
    let mut conditional = IfStatement {
        branches: vec![
            IfBranch { condition: identifier("a"), block: block(vec![call_statement("f")]) },
            IfBranch { condition: identifier("b"), block: block(vec![call_statement("g")]) },
        ],
        else_block: Some(block(vec![call_statement("h")])),
    };
    clear_if_statement(&mut conditional);
    assert_eq!(
        conditional,
        IfStatement {
            branches: vec![
                IfBranch { condition: Expression::True, block: block(vec![]) },
                IfBranch { condition: Expression::True, block: block(vec![]) },
            ],
            else_block: Some(block(vec![])),
        }
    );
}

#[test]
fn binding_of_follows_names_and_calls_only() {
    assert_eq!(binding_of(&identifier("a")), Binding::Name("a".to_string()));
    assert_eq!(
        binding_of(&field(field(identifier("a"), "b"), "c")),
        Binding::Name("a.b.c".to_string())
    );
    assert_eq!(
        binding_of(&call_expression("probe", vec![number()])),
        Binding::CallResult("probe".to_string())
    );
    assert_eq!(binding_of(&number()), Binding::Opaque);
    assert_eq!(binding_of(&field(number(), "b")), Binding::Opaque);
}

#[test]
fn function_mapping_converts_to_its_interval() {
    let mapping = FunctionMapping::new(16, Some(19));
    assert_eq!(
        SdkVersionOut::from(&mapping),
        SdkVersionOut { min_sdk_version: 16, max_sdk_version: Some(19) }
    );
}
