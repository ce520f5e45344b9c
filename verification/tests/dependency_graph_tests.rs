use opacity_cli::dependency_graph::{DependencyGraphNode, State, VersionError, Work};
use opacity_cli::dependency_visitor::RequireLocations;
use opacity_cli::nodes::{
    Arguments, Block, Expression, FunctionCall, IfBranch, IfStatement, Statement,
};
use opacity_cli::resources::{ModuleSource, Resources};
use opacity_cli::sdk_version::SdkVersionOut;
use opacity_cli::version::compute_version_for_flows;
use opacity_cli::version_visitor::{FunctionMapping, VersionFile};

fn version_file() -> VersionFile {
    VersionFile {
        default_version: Some(1),
        function_mappings: vec![
            ("needs_3".to_string(), FunctionMapping::new(3, None)),
            ("needs_5".to_string(), FunctionMapping::new(5, None)),
            ("until_8".to_string(), FunctionMapping::new(2, Some(8))),
            ("until_6".to_string(), FunctionMapping::new(1, Some(6))),
            ("at_least_20".to_string(), FunctionMapping::new(20, None)),
            ("less_than_20".to_string(), FunctionMapping::new(16, Some(19))),
        ],
        sdk_version_function: "sdk_version".to_string(),
    }
}

fn call(name: &str, arguments: Vec<Expression>) -> Statement {
    Statement::Call(FunctionCall {
        prefix: Expression::Identifier(name.to_string()),
        method: None,
        arguments: Arguments::Tuple(arguments),
    })
}

fn require(literal: &str) -> Statement {
    call("require", vec![Expression::String(literal.to_string())])
}

/// A module that imports `imports` and calls `calls`, with each import
/// `./name` located at `name.luau`.
fn module(imports: &[&str], calls: &[&str]) -> ModuleSource {
    let mut statements = Vec::new();
    let mut locations = RequireLocations::new();
    for name in imports {
        statements.push(require(&format!("./{}", name)));
        locations.insert(format!("./{}", name), format!("{}.luau", name));
    }
    for name in calls {
        statements.push(call(name, vec![]));
    }
    ModuleSource::Parsed { block: Block { statements }, locations }
}

fn resources(modules: Vec<(&str, ModuleSource)>) -> Resources {
    let mut resources = Resources::new();
    for (path, source) in modules {
        resources.insert(path.to_string(), source);
    }
    resources
}

fn paths(names: &[&str]) -> Vec<String> {
    names.iter().map(|name| name.to_string()).collect()
}

fn from(min_sdk_version: u64) -> SdkVersionOut {
    SdkVersionOut { min_sdk_version, max_sdk_version: None }
}

#[test]
fn chain_of_three_takes_the_highest_minimum() {
    let given = resources(vec![
        ("a.luau", module(&["b"], &[])),
        ("b.luau", module(&["c"], &["needs_3"])),
        ("c.luau", module(&[], &["needs_5"])),
    ]);
    let work = compute_version_for_flows(
        given,
        paths(&["a.luau", "b.luau", "c.luau"]),
        version_file(),
    )
    .ok()
    .unwrap();
    assert_eq!(
        work.get_versions(),
        vec![
            ("a.luau".to_string(), from(5)),
            ("b.luau".to_string(), from(5)),
            ("c.luau".to_string(), from(5)),
        ]
    );
}

#[test]
fn only_entry_points_are_reported() {
    let given = resources(vec![
        ("a.luau", module(&["b"], &[])),
        ("b.luau", module(&["c"], &["needs_3"])),
        ("c.luau", module(&[], &["needs_5"])),
    ]);
    let work = compute_version_for_flows(given, paths(&["a.luau"]), version_file()).ok().unwrap();
    assert_eq!(work.get_versions(), vec![("a.luau".to_string(), from(5))]);
}

#[test]
fn dependency_does_not_inherit_from_its_dependents() {
    let given = resources(vec![
        ("a.luau", module(&["b"], &["needs_5"])),
        ("b.luau", module(&[], &["needs_3"])),
    ]);
    let work =
        compute_version_for_flows(given, paths(&["b.luau", "a.luau"]), version_file()).ok().unwrap();
    assert_eq!(
        work.get_versions(),
        vec![("b.luau".to_string(), from(3)), ("a.luau".to_string(), from(5))]
    );
}

#[test]
fn diamond_intersects_both_sides() {
    let given = resources(vec![
        ("top.luau", module(&["left", "right"], &[])),
        ("left.luau", module(&["base"], &["until_8"])),
        ("right.luau", module(&["base"], &["until_6"])),
        ("base.luau", module(&[], &["needs_3"])),
    ]);
    let work = compute_version_for_flows(
        given,
        paths(&["top.luau", "left.luau", "right.luau", "base.luau"]),
        version_file(),
    )
    .ok()
    .unwrap();
    assert_eq!(
        work.get_versions(),
        vec![
            ("top.luau".to_string(), SdkVersionOut { min_sdk_version: 3, max_sdk_version: Some(6) }),
            ("left.luau".to_string(), SdkVersionOut { min_sdk_version: 3, max_sdk_version: Some(8) }),
            ("right.luau".to_string(), SdkVersionOut { min_sdk_version: 3, max_sdk_version: Some(6) }),
            ("base.luau".to_string(), from(3)),
        ]
    );
}

#[test]
fn module_imported_twice_is_one_module() {
    let given = resources(vec![
        ("a.luau", module(&["b", "b"], &[])),
        ("b.luau", module(&[], &["needs_3"])),
    ]);
    let work = compute_version_for_flows(given, paths(&["a.luau"]), version_file()).ok().unwrap();
    assert_eq!(work.get_versions(), vec![("a.luau".to_string(), from(3))]);
}

#[test]
fn entry_points_are_normalized_and_counted_once() {
    let given = resources(vec![("flows/a.luau", module(&[], &["needs_3"]))]);
    let work = compute_version_for_flows(
        given,
        paths(&["./flows/x/../a.luau", "flows//a.luau"]),
        version_file(),
    )
    .ok()
    .unwrap();
    assert_eq!(work.get_versions(), vec![("flows/a.luau".to_string(), from(3))]);
}

#[test]
fn no_entry_points_no_versions() {
    let given = resources(vec![("a.luau", module(&[], &["needs_3"]))]);
    let work = compute_version_for_flows(given, vec![], version_file()).ok().unwrap();
    assert_eq!(work.get_versions(), vec![]);
}

#[test]
fn first_entry_for_a_path_counts() {
    let given = resources(vec![
        ("a.luau", module(&[], &["needs_3"])),
        ("a.luau", module(&[], &["needs_5"])),
    ]);
    let work = compute_version_for_flows(given, paths(&["a.luau"]), version_file()).ok().unwrap();
    assert_eq!(work.get_versions(), vec![("a.luau".to_string(), from(3))]);
}

#[test]
fn version_check_counts_by_the_union_of_its_branches() {
    let check = Statement::If(IfStatement {
        branches: vec![IfBranch {
            condition: Expression::Other(vec![
                Expression::Call(Box::new(FunctionCall {
                    prefix: Expression::Identifier("sdk_version".to_string()),
                    method: None,
                    arguments: Arguments::Tuple(vec![]),
                })),
                Expression::Other(vec![]),
            ]),
            block: Block { statements: vec![call("at_least_20", vec![])] },
        }],
        else_block: Some(Block { statements: vec![call("less_than_20", vec![])] }),
    });
    let given = resources(vec![(
        "a.luau",
        ModuleSource::Parsed {
            block: Block { statements: vec![check] },
            locations: RequireLocations::new(),
        },
    )]);
    let work = compute_version_for_flows(given, paths(&["a.luau"]), version_file()).ok().unwrap();
    assert_eq!(work.get_versions(), vec![("a.luau".to_string(), from(16))]);
}

#[test]
fn cycle_of_two_is_an_error() {
    let given = resources(vec![
        ("a.luau", module(&["b"], &["needs_3"])),
        ("b.luau", module(&["a"], &["needs_5"])),
    ]);
    let error = compute_version_for_flows(given, paths(&["a.luau"]), version_file()).err().unwrap();
    assert!(matches!(error, VersionError::CyclicDependency { .. }));
    if let VersionError::CyclicDependency { path } = error {
        assert!(path == "a.luau" || path == "b.luau");
    }
}

#[test]
fn module_that_imports_itself_is_an_error() {
    let given = resources(vec![("a.luau", module(&["a"], &[]))]);
    let error = compute_version_for_flows(given, paths(&["a.luau"]), version_file()).err().unwrap();
    assert_eq!(error, VersionError::CyclicDependency { path: "a.luau".to_string() });
}

#[test]
fn cycle_behind_an_entry_point_is_an_error() {
    let given = resources(vec![
        ("top.luau", module(&["a"], &[])),
        ("a.luau", module(&["b"], &[])),
        ("b.luau", module(&["c"], &[])),
        ("c.luau", module(&["a"], &[])),
    ]);
    let error = compute_version_for_flows(given, paths(&["top.luau"]), version_file()).err().unwrap();
    assert!(matches!(error, VersionError::CyclicDependency { .. }));
    if let VersionError::CyclicDependency { path } = error {
        assert!(path != "top.luau");
    }
}

#[test]
fn import_that_leads_nowhere_is_an_error() {
    let mut locations = RequireLocations::new();
    locations.insert("./b".to_string(), "b.luau".to_string());
    let given = resources(vec![
        (
            "a.luau",
            ModuleSource::Parsed {
                block: Block {
                    statements: vec![
                        require("./missing"),
                        require("./b"),
                        require("./gone/../lost"),
                    ],
                },
                locations,
            },
        ),
        ("b.luau", module(&[], &[])),
    ]);
    let error = compute_version_for_flows(given, paths(&["a.luau"]), version_file()).err().unwrap();
    assert_eq!(
        error,
        VersionError::UnresolvableImport {
            path: "a.luau".to_string(),
            imports: vec!["./missing".to_string(), "./lost".to_string()],
        }
    );
}

#[test]
fn import_that_leads_nowhere_in_a_dependency_is_an_error() {
    let given = resources(vec![
        ("a.luau", module(&["b"], &[])),
        (
            "b.luau",
            ModuleSource::Parsed {
                block: Block { statements: vec![require("./missing")] },
                locations: RequireLocations::new(),
            },
        ),
    ]);
    let error = compute_version_for_flows(given, paths(&["a.luau"]), version_file()).err().unwrap();
    assert_eq!(
        error,
        VersionError::UnresolvableImport {
            path: "b.luau".to_string(),
            imports: vec!["./missing".to_string()],
        }
    );
}

#[test]
fn nothing_behind_a_failed_scan_is_looked_at() {
    let mut locations = RequireLocations::new();
    locations.insert("./broken".to_string(), "broken.luau".to_string());
    locations.insert("./a".to_string(), "a.luau".to_string());
    let given = resources(vec![
        (
            "top.luau",
            ModuleSource::Parsed {
                block: Block {
                    statements: vec![require("./broken"), require("./a"), require("./missing")],
                },
                locations,
            },
        ),
        ("broken.luau", ModuleSource::Unparsable),
        ("a.luau", module(&["a"], &[])),
    ]);
    let error =
        compute_version_for_flows(given, paths(&["top.luau"]), version_file()).err().unwrap();
    assert_eq!(
        error,
        VersionError::UnresolvableImport {
            path: "top.luau".to_string(),
            imports: vec!["./missing".to_string()],
        }
    );
}

#[test]
fn unparsable_module_is_an_error() {
    let given =
        resources(vec![("a.luau", module(&["b"], &[])), ("b.luau", ModuleSource::Unparsable)]);
    let error = compute_version_for_flows(given, paths(&["a.luau"]), version_file()).err().unwrap();
    assert_eq!(error, VersionError::ParseFailure { path: "b.luau".to_string() });
}

#[test]
fn module_that_was_not_given_is_asked_for() {
    let given = resources(vec![("a.luau", module(&["b"], &[]))]);
    let error = compute_version_for_flows(given, paths(&["a.luau"]), version_file()).err().unwrap();
    assert_eq!(error, VersionError::SourceNotLoaded { path: "b.luau".to_string() });
}

#[test]
fn module_that_is_not_needed_may_be_broken() {
    let given = resources(vec![
        ("a.luau", module(&[], &["needs_3"])),
        ("unused.luau", ModuleSource::Unparsable),
    ]);
    let work = compute_version_for_flows(given, paths(&["a.luau"]), version_file()).ok().unwrap();
    assert_eq!(work.get_versions(), vec![("a.luau".to_string(), from(3))]);
}

#[test]
fn work_can_be_built_and_run_by_hand() {
    let given = resources(vec![("a.luau", module(&[], &["needs_5"]))]);
    let work = Work::new(given, paths(&["a.luau"]), version_file());
    assert_eq!(work.get_versions(), vec![]);
    let work = work.compute_dependency_graph().ok().unwrap();
    assert_eq!(work.get_versions(), vec![("a.luau".to_string(), from(5))]);
}

#[test]
fn new_node_is_not_done() {
    let node = DependencyGraphNode::new(true, "a.luau".to_string());
    assert!(!node.is_done());
    assert!(node.is_not_done());
    assert!(DependencyGraphNode::create_top_node("a.luau".to_string()).is_not_done());
    assert!(DependencyGraphNode::create_node("a.luau".to_string()).is_not_done());
    assert_eq!(State::default(), State::NotProcessed);
}
