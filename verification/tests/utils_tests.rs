use opacity_cli::nodes::{Arguments, Expression, FieldExpression, FunctionCall};
use opacity_cli::utils::{get_call_name, get_fqn, normalize_path, normalize_path_with_current_dir};

fn check(path: &str, dropped: &str, kept: &str) {
    assert_eq!(normalize_path(path), dropped, "normalize_path({:?})", path);
    assert_eq!(
        normalize_path_with_current_dir(path),
        kept,
        "normalize_path_with_current_dir({:?})",
        path
    );
}

#[test]
fn empty_path_stays_empty() {
    check("", "", "");
}

#[test]
fn plain_paths_stay() {
    check("a", "a", "a");
    check("a/b/c.luau", "a/b/c.luau", "a/b/c.luau");
    check("/", "/", "/");
    check("/a/b", "/a/b", "/a/b");
}

#[test]
fn leading_current_dir_is_kept_only_on_request() {
    check(".", ".", ".");
    check("./", ".", ".");
    check("./a", "a", "./a");
    check("./a/b", "a/b", "./a/b");
    check("././a", "a", "./a");
}

#[test]
fn inner_current_dir_is_dropped() {
    check("a/./b", "a/b", "a/b");
    check("a/b/.", "a/b", "a/b");
    check("/./a", "/a", "/a");
}

#[test]
fn repeated_and_trailing_separators_collapse() {
    check("a//b", "a/b", "a/b");
    check("a/b/", "a/b", "a/b");
    check("a///b//", "a/b", "a/b");
    check("//a", "/a", "/a");
}

#[test]
fn parent_dir_removes_the_component_before_it() {
    check("a/b/../c", "a/c", "a/c");
    check("a/b/../../c", "c", "c");
    check("./a/../b", "b", "./b");
    check("/a/../b", "/b", "/b");
}

#[test]
fn parent_dir_at_the_start_stays() {
    check("..", "..", "..");
    check("../a", "../a", "../a");
    check("../../a", "../../a", "../../a");
    check("a/../../b", "../b", "../b");
}

#[test]
fn parent_dir_takes_the_place_of_a_leading_current_dir() {
    check("./..", "..", "..");
    check("./../a", "../a", "../a");
}

#[test]
fn path_that_comes_to_nothing_is_the_current_dir() {
    check("a/..", ".", ".");
    check("a/b/../..", ".", ".");
    check("/..", ".", ".");
}

#[test]
fn parent_dir_above_the_root_leaves_a_relative_path() {
    check("/../a", "a", "a");
}

#[test]
fn dots_inside_names_are_names() {
    check("a/.../b", "a/.../b", "a/.../b");
    check(".hidden/..name", ".hidden/..name", ".hidden/..name");
    check("a.b/c.d", "a.b/c.d", "a.b/c.d");
}

#[test]
fn names_beyond_ascii_are_kept() {
    check("./flöws/ü/../é.luau", "flöws/é.luau", "./flöws/é.luau");
}

fn identifier(name: &str) -> Expression {
    Expression::Identifier(name.to_string())
}

fn field(prefix: Expression, name: &str) -> FieldExpression {
    FieldExpression { prefix, field: name.to_string() }
}

#[test]
fn fqn_of_a_chain_of_fields() {
    assert_eq!(get_fqn(&field(identifier("a"), "b")), Some("a.b".to_string()));
    let chain = field(
        Expression::Field(Box::new(field(
            Expression::Field(Box::new(field(identifier("member"), "expression"))),
            "inside",
        ))),
        "call",
    );
    assert_eq!(get_fqn(&chain), Some("member.expression.inside.call".to_string()));
}

#[test]
fn fqn_through_anything_else_is_none() {
    assert_eq!(get_fqn(&field(Expression::Other(vec![identifier("a")]), "b")), None);
    let through_call = field(
        Expression::Call(Box::new(FunctionCall {
            prefix: identifier("f"),
            method: None,
            arguments: Arguments::Tuple(vec![]),
        })),
        "b",
    );
    assert_eq!(get_fqn(&through_call), None);
    let nested = field(Expression::Field(Box::new(through_call)), "c");
    assert_eq!(get_fqn(&nested), None);
}

#[test]
fn call_name_of_identifier_field_chain_and_others() {
    let plain = FunctionCall {
        prefix: identifier("f"),
        method: None,
        arguments: Arguments::Tuple(vec![]),
    };
    assert_eq!(get_call_name(&plain), Some("f".to_string()));
    let chained = FunctionCall {
        prefix: Expression::Field(Box::new(field(identifier("a"), "b"))),
        method: None,
        arguments: Arguments::String("x".to_string()),
    };
    assert_eq!(get_call_name(&chained), Some("a.b".to_string()));
    let method = FunctionCall {
        prefix: identifier("f"),
        method: Some("m".to_string()),
        arguments: Arguments::Tuple(vec![]),
    };
    assert_eq!(get_call_name(&method), None);
    let indexed = FunctionCall {
        prefix: Expression::Other(vec![identifier("a"), identifier("i")]),
        method: None,
        arguments: Arguments::Tuple(vec![]),
    };
    assert_eq!(get_call_name(&indexed), None);
}
