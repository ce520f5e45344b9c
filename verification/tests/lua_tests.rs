use darklua_core::nodes as lua;
use darklua_core::Resources;
use opacity_cli::dependency_graph::VersionError;
use opacity_cli::dependency_visitor::{required_paths, RequireLocations};
use opacity_cli::nodes::{
    Arguments, Block, Expression, FieldExpression, FunctionCall, IfBranch, IfStatement,
    LocalAssignStatement, Statement,
};
use opacity_cli::require_path::{choose_existing, find_require_candidates};
use opacity_cli::resources::ModuleSource;
use opacity_cli::sdk_version::SdkVersionOut;
use opacity_cli::version::compute_version_for_flows;
use opacity_cli::version_visitor::{FunctionMapping, VersionFile, VersionResolver};


fn block(source: &lua::Block) -> Block {
    let mut statements: Vec<Statement> = source.iter_statements().map(statement).collect();
    if let Some(lua::LastStatement::Return(values)) = source.get_last_statement() {
        statements.push(Statement::Other(values.iter_expressions().map(expression).collect()));
    }
    Block { statements }
}

fn nested(expressions: Vec<Expression>, body: &lua::Block) -> Statement {
    Statement::Nested { expressions, block: block(body) }
}

fn statement(source: &lua::Statement) -> Statement {
    match source {
        lua::Statement::Assign(assign) => Statement::Other(
            assign
                .iter_variables()
                .map(variable)
                .chain(assign.iter_values().map(expression))
                .collect(),
        ),
        lua::Statement::Do(do_statement) => nested(Vec::new(), do_statement.get_block()),
        lua::Statement::Call(call) => Statement::Call(function_call(call)),
        lua::Statement::CompoundAssign(assign) => {
            Statement::Other(vec![variable(assign.get_variable()), expression(assign.get_value())])
        }
        lua::Statement::Function(function) => nested(Vec::new(), function.get_block()),
        lua::Statement::GenericFor(generic_for) => nested(
            generic_for.iter_expressions().map(expression).collect(),
            generic_for.get_block(),
        ),
        lua::Statement::If(if_statement) => Statement::If(IfStatement {
            branches: if_statement
                .iter_branches()
                .map(|branch| IfBranch {
                    condition: expression(branch.get_condition()),
                    block: block(branch.get_block()),
                })
                .collect(),
            else_block: if_statement.get_else_block().map(block),
        }),
        lua::Statement::LocalAssign(assign) => Statement::LocalAssign(LocalAssignStatement {
            variables: assign
                .iter_variables()
                .map(|variable| variable.get_identifier().get_name().clone())
                .collect(),
            values: assign.iter_values().map(expression).collect(),
        }),
        lua::Statement::LocalFunction(function) => nested(Vec::new(), function.get_block()),
        lua::Statement::NumericFor(numeric_for) => {
            let mut bounds =
                vec![expression(numeric_for.get_start()), expression(numeric_for.get_end())];
            if let Some(step) = numeric_for.get_step() {
                bounds.push(expression(step));
            }
            nested(bounds, numeric_for.get_block())
        }
        lua::Statement::Repeat(repeat) => Statement::Repeat {
            block: block(repeat.get_block()),
            condition: expression(repeat.get_condition()),
        },
        lua::Statement::While(while_statement) => nested(
            vec![expression(while_statement.get_condition())],
            while_statement.get_block(),
        ),
        lua::Statement::TypeDeclaration(_) => Statement::Other(Vec::new()),
        lua::Statement::TypeFunction(function) => nested(Vec::new(), function.get_block()),
    }
}

fn variable(source: &lua::Variable) -> Expression {
    match source {
        lua::Variable::Identifier(identifier) => Expression::Identifier(identifier.get_name().clone()),
        lua::Variable::Field(field) => field_expression(field),
        lua::Variable::Index(index) => index_expression(index),
    }
}

fn prefix(source: &lua::Prefix) -> Expression {
    match source {
        lua::Prefix::Call(call) => Expression::Call(Box::new(function_call(call))),
        lua::Prefix::Field(field) => field_expression(field),
        lua::Prefix::Identifier(identifier) => Expression::Identifier(identifier.get_name().clone()),
        lua::Prefix::Index(index) => index_expression(index),
        lua::Prefix::Parenthese(parenthese) => {
            Expression::Other(vec![expression(parenthese.inner_expression())])
        }
        lua::Prefix::TypeInstantiation(instantiation) => {
            Expression::Other(vec![prefix(instantiation.get_prefix())])
        }
    }
}

fn field_expression(source: &lua::FieldExpression) -> Expression {
    Expression::Field(Box::new(FieldExpression {
        prefix: prefix(source.get_prefix()),
        field: source.get_field().get_name().clone(),
    }))
}

fn index_expression(source: &lua::IndexExpression) -> Expression {
    Expression::Other(vec![prefix(source.get_prefix()), expression(source.get_index())])
}

fn text(source: &lua::StringExpression) -> String {
    String::from_utf8_lossy(source.get_value()).into_owned()
}

fn table(source: &lua::TableExpression) -> Vec<Expression> {
    let mut values = Vec::new();
    for entry in source.iter_entries() {
        match entry {
            lua::TableEntry::Field(entry) => values.push(expression(entry.get_value())),
            lua::TableEntry::Index(entry) => {
                values.push(expression(entry.get_key()));
                values.push(expression(entry.get_value()));
            }
            lua::TableEntry::Value(value) => values.push(expression(value)),
        }
    }
    values
}

fn function_call(source: &lua::FunctionCall) -> FunctionCall {
    FunctionCall {
        prefix: prefix(source.get_prefix()),
        method: source.get_method().map(|method| method.get_name().clone()),
        arguments: match source.get_arguments() {
            lua::Arguments::Tuple(tuple) => {
                Arguments::Tuple(tuple.iter_values().map(expression).collect())
            }
            lua::Arguments::String(string) => Arguments::String(text(string)),
            lua::Arguments::Table(entries) => Arguments::Table(table(entries)),
        },
    }
}

fn expression(source: &lua::Expression) -> Expression {
    match source {
        lua::Expression::Binary(binary) => {
            Expression::Other(vec![expression(binary.left()), expression(binary.right())])
        }
        lua::Expression::Call(call) => Expression::Call(Box::new(function_call(call))),
        lua::Expression::Field(field) => field_expression(field),
        lua::Expression::Function(function) => {
            Expression::Function(Box::new(block(function.get_block())))
        }
        lua::Expression::Identifier(identifier) => {
            Expression::Identifier(identifier.get_name().clone())
        }
        lua::Expression::If(if_expression) => {
            let mut parts = vec![
                expression(if_expression.get_condition()),
                expression(if_expression.get_result()),
            ];
            for branch in if_expression.iter_branches() {
                parts.push(expression(branch.get_condition()));
                parts.push(expression(branch.get_result()));
            }
            parts.push(expression(if_expression.get_else_result()));
            Expression::Other(parts)
        }
        lua::Expression::Index(index) => index_expression(index),
        lua::Expression::Parenthese(parenthese) => {
            Expression::Other(vec![expression(parenthese.inner_expression())])
        }
        lua::Expression::String(string) => Expression::String(text(string)),
        lua::Expression::InterpolatedString(string) => Expression::Other(
            string
                .iter_segments()
                .filter_map(|segment| match segment {
                    lua::InterpolationSegment::String(_) => None,
                    lua::InterpolationSegment::Value(value) => {
                        Some(expression(value.get_expression()))
                    }
                })
                .collect(),
        ),
        lua::Expression::Table(entries) => Expression::Other(table(entries)),
        lua::Expression::True(_) => Expression::True,
        lua::Expression::Unary(unary) => {
            Expression::Other(vec![expression(unary.get_expression())])
        }
        lua::Expression::TypeCast(cast) => Expression::Other(vec![expression(cast.get_expression())]),
        lua::Expression::TypeInstantiation(instantiation) => {
            Expression::Other(vec![prefix(instantiation.get_prefix())])
        }
        lua::Expression::False(_)
        | lua::Expression::Nil(_)
        | lua::Expression::Number(_)
        | lua::Expression::VariableArguments(_) => Expression::Other(Vec::new()),
    }
}

fn parse(code: &str) -> Block {
    block(&darklua_core::Parser::default().parse(code).unwrap())
}

fn get_version_file() -> VersionFile {
    VersionFile {
        default_version: Some(10),
        function_mappings: vec![
            ("get_sdk_version".to_string(), FunctionMapping::new(13, None)),
            ("at_least_20".to_string(), FunctionMapping::new(20, None)),
            ("less_than_20".to_string(), FunctionMapping::new(16, Some(19))),
            ("global_function_15".to_string(), FunctionMapping::new(15, None)),
        ],
        sdk_version_function: "get_sdk_version".to_string(),
    }
}

#[test]
fn test_version_visitor_with_if_else_statement() {
    let file = r#"
function main() 
    local x = 33
    for i = 1, 10 do
        local sdk_version = get_sdk_version()
        if sdk_version >= 20 then
            at_least_20()
        else
            less_than_20()
        end
    end
end
        "#;

    let mut block = parse(file);

    let version_file = get_version_file();
    let mut version_visitor = VersionResolver::new(&version_file);
    version_visitor.visit_block(&mut block);

    assert!(version_visitor.sdk_version().min_sdk_version == 16)
}

#[test]
fn test_version_visitor_with_if_statement() {
    let file = r#"
function main() 
    local x = 33
    for i = 1, 10 do
        local sdk_version = get_sdk_version()
        if sdk_version >= 20 then
            at_least_20()
        end
    end
end
        "#;

    let mut block = parse(file);

    let version_file = get_version_file();
    let mut version_visitor = VersionResolver::new(&version_file);
    version_visitor.visit_block(&mut block);

    // check for the get_sdk_version min version
    assert!(version_visitor.sdk_version().min_sdk_version == 13)
}

#[test]
fn test_version_visitor_with_pcall() {
    let file = r#"
function main() 
    local x = 33
    for i = 1, 10 do
        local my_test_call = pcall(global_function_15)
    end
end
        "#;

    let mut block = parse(file);

    let version_file = get_version_file();
    let mut version_visitor = VersionResolver::new(&version_file);
    version_visitor.visit_block(&mut block);

    assert!(version_visitor.sdk_version().min_sdk_version == 15)
}

fn own_interval(code: &str) -> SdkVersionOut {
    let mut tree = parse(code);
    let version_file = get_version_file();
    let mut resolver = VersionResolver::new(&version_file);
    resolver.visit_block(&mut tree);
    resolver.sdk_version()
}

#[test]
fn parsed_version_check_is_neutralized_in_the_tree() {
    let mut tree = parse(
        "if get_sdk_version() >= 20 then at_least_20() else less_than_20() end\nprint('done')",
    );
    let version_file = get_version_file();
    let mut resolver = VersionResolver::new(&version_file);
    resolver.visit_block(&mut tree);
    assert_eq!(resolver.sdk_version(), SdkVersionOut { min_sdk_version: 16, max_sdk_version: None });
    assert_eq!(tree, parse("if true then else end\nprint('done')"));
}

#[test]
fn parsed_constructs_register_their_calls() {
    assert_eq!(own_interval("while at_least_20() do end").min_sdk_version, 20);
    assert_eq!(own_interval("repeat local f = 1 until at_least_20()").min_sdk_version, 20);
    assert_eq!(own_interval("for k, v in at_least_20() do end").min_sdk_version, 20);
    assert_eq!(own_interval("for i = 1, at_least_20() do end").min_sdk_version, 20);
    assert_eq!(own_interval("local function f() at_least_20() end").min_sdk_version, 20);
    assert_eq!(own_interval("local f = function() return at_least_20() end").min_sdk_version, 20);
    assert_eq!(own_interval("x = { key = at_least_20() }").min_sdk_version, 20);
    assert_eq!(own_interval("x.y[at_least_20()] = 1").min_sdk_version, 20);
    assert_eq!(own_interval("return (at_least_20())").min_sdk_version, 20);
    assert_eq!(own_interval("do do at_least_20() end end").min_sdk_version, 20);
    assert_eq!(own_interval("print(`{at_least_20()}`)").min_sdk_version, 20);
    assert_eq!(own_interval("local x = if a then at_least_20() else 1").min_sdk_version, 20);
    assert_eq!(own_interval("local x = not at_least_20()").min_sdk_version, 20);
    assert_eq!(own_interval("at_least_20 'text'").min_sdk_version, 20);
    assert_eq!(own_interval("at_least_20 { 1 }").min_sdk_version, 20);
}

#[test]
fn condition_of_repeat_sees_what_the_block_declares() {
    assert_eq!(own_interval("repeat local f = at_least_20 until pcall(f)").min_sdk_version, 20);
    assert_eq!(own_interval("repeat local f = 1 until pcall(f)").min_sdk_version, 10);
    assert_eq!(own_interval("while pcall(f) do local f = at_least_20 end").min_sdk_version, 10);
    assert_eq!(
        own_interval("repeat local v = get_sdk_version() until done\nlocal f = v").min_sdk_version,
        13
    );
    let mut tree = parse(
        "repeat local v = get_sdk_version() until (function() if v > 1 then at_least_20() else less_than_20() end end)()",
    );
    let version_file = get_version_file();
    let mut resolver = VersionResolver::new(&version_file);
    resolver.visit_block(&mut tree);
    assert_eq!(resolver.sdk_version(), SdkVersionOut { min_sdk_version: 16, max_sdk_version: None });
    assert_eq!(
        tree,
        parse("repeat local v = get_sdk_version() until (function() if true then else end end)()")
    );
    let imports = parse("repeat require('./body') until require('./condition')");
    assert_eq!(required_paths(&imports), vec!["./condition".to_string(), "./body".to_string()]);
}

#[test]
fn parsed_constructs_that_register_nothing() {
    assert_eq!(own_interval("local x = at_least_20").min_sdk_version, 10);
    assert_eq!(own_interval("obj:at_least_20()").min_sdk_version, 10);
    assert_eq!(own_interval("t['at_least_20']()").min_sdk_version, 10);
    assert_eq!(own_interval("(at_least_20)()").min_sdk_version, 10);
    assert_eq!(own_interval("local s = 'at_least_20()'").min_sdk_version, 10);
    assert_eq!(own_interval("-- at_least_20()").min_sdk_version, 10);
}

#[test]
fn parsed_trapped_calls() {
    assert_eq!(own_interval("pcall(at_least_20)").min_sdk_version, 20);
    assert_eq!(own_interval("pcall(at_least_20, 1, 2)").min_sdk_version, 20);
    assert_eq!(own_interval("local f = at_least_20\npcall(f)").min_sdk_version, 20);
    assert_eq!(own_interval("local f = make()\npcall(f)").min_sdk_version, 10);
    assert_eq!(own_interval("local at_least_20 = 1\npcall(at_least_20)").min_sdk_version, 10);
    assert_eq!(own_interval("pcall()").min_sdk_version, 10);
    assert_eq!(own_interval("pcall(function() end)").min_sdk_version, 10);
}

#[test]
fn parsed_imports_are_found() {
    let tree = parse(
        "local a = require('./a')\nlocal b = require \"../b.luau\"\nrequire(name)\nlocal c = loader.require('./c')\nreturn require('./d/init')",
    );
    assert_eq!(
        required_paths(&tree),
        vec!["./a".to_string(), "../b.luau".to_string(), "./d/init".to_string()]
    );
}

/// What reading one file gave.
struct Loaded {
    path: String,
    script: Option<lua::Block>,
    located: Vec<(String, String)>,
}

fn load(resources: &Resources, path: &str) -> Loaded {
    let code = resources.get(path).unwrap();
    let script = darklua_core::Parser::default().parse(&code).ok();
    let mut located = Vec::new();
    if let Some(script) = &script {
        for literal in required_paths(&block(script)) {
            let candidates = find_require_candidates(&literal, path);
            let exists =
                candidates.iter().map(|file| resources.is_file(file).unwrap_or(false)).collect();
            if let Some(target) = choose_existing(&candidates, &exists) {
                located.push((literal, target));
            }
        }
    }
    Loaded { path: path.to_string(), script, located }
}

/// The versions of the flows at `flow_paths`, reading files as they are
/// asked for.
fn versions(
    resources: &Resources,
    flow_paths: &[&str],
) -> Result<Vec<(String, SdkVersionOut)>, VersionError> {
    let mut loaded: Vec<Loaded> = Vec::new();
    loop {
        let mut given = opacity_cli::resources::Resources::new();
        for file in &loaded {
            let source = match &file.script {
                Some(script) => {
                    let mut locations = RequireLocations::new();
                    for (literal, target) in &file.located {
                        locations.insert(literal.clone(), target.clone());
                    }
                    ModuleSource::Parsed { block: block(script), locations }
                }
                None => ModuleSource::Unparsable,
            };
            given.insert(file.path.clone(), source);
        }
        let paths = flow_paths.iter().map(|path| path.to_string()).collect();
        match compute_version_for_flows(given, paths, get_version_file()) {
            Ok(work) => return Ok(work.get_versions()),
            Err(VersionError::SourceNotLoaded { path })
                if resources.is_file(&path).unwrap_or(false)
                    && loaded.iter().all(|file| file.path != path) =>
            {
                loaded.push(load(resources, &path));
            }
            Err(error) => return Err(error),
        }
    }
}

fn project(files: &[(&str, &str)]) -> Resources {
    let resources = Resources::from_memory();
    for (path, code) in files {
        resources.write(path, code).unwrap();
    }
    resources
}

#[test]
fn flows_take_the_versions_of_what_they_import() {
    let resources = project(&[
        ("flows/a.luau", "local b = require('./lib/b')\nprint(b)"),
        ("flows/lib/b.luau", "local c = require('../shared')\nglobal_function_15()"),
        ("flows/shared/init.luau", "at_least_20()\nreturn {}"),
        ("flows/alone.luau", "less_than_20()"),
    ]);
    assert_eq!(
        versions(&resources, &["flows/a.luau", "./flows/alone.luau", "flows/lib/b.luau"]),
        Ok(vec![
            ("flows/a.luau".to_string(), SdkVersionOut { min_sdk_version: 20, max_sdk_version: None }),
            (
                "flows/alone.luau".to_string(),
                SdkVersionOut { min_sdk_version: 16, max_sdk_version: Some(19) }
            ),
            (
                "flows/lib/b.luau".to_string(),
                SdkVersionOut { min_sdk_version: 20, max_sdk_version: None }
            ),
        ])
    );
}

#[test]
fn flows_that_import_each_other_are_an_error() {
    let resources = project(&[
        ("flows/a.luau", "require('./b')"),
        ("flows/b.luau", "require('./a.luau')"),
    ]);
    let error = versions(&resources, &["flows/a.luau"]).unwrap_err();
    assert!(matches!(error, VersionError::CyclicDependency { .. }));
}

#[test]
fn import_of_a_missing_file_is_an_error() {
    let resources = project(&[("flows/a.luau", "require('./b')\nrequire('./c')"), ("flows/b.lua", "")]);
    assert_eq!(
        versions(&resources, &["flows/a.luau"]),
        Err(VersionError::UnresolvableImport {
            path: "flows/a.luau".to_string(),
            imports: vec!["./c".to_string()],
        })
    );
}

#[test]
fn file_that_does_not_parse_is_an_error() {
    let resources = project(&[
        ("flows/a.luau", "require('./b')"),
        ("flows/b.luau", "local = = nothing"),
    ]);
    assert_eq!(
        versions(&resources, &["flows/a.luau"]),
        Err(VersionError::ParseFailure { path: "flows/b.luau".to_string() })
    );
}

#[test]
fn flow_that_is_not_there_is_asked_for() {
    let resources = project(&[]);
    assert_eq!(
        versions(&resources, &["flows/a.luau"]),
        Err(VersionError::SourceNotLoaded { path: "flows/a.luau".to_string() })
    );
}
