use opacity_cli::dependency_visitor::RequireLocations;
use opacity_cli::nodes::Block;
use opacity_cli::resources::{ModuleSource, Resources};

fn parsed() -> ModuleSource {
    ModuleSource::Parsed { block: Block::empty(), locations: RequireLocations::new() }
}

#[test]
fn first_entry_of_a_path_counts() {
    let mut resources = Resources::new();
    assert_eq!(resources.len(), 0);
    assert_eq!(resources.get(&"a.luau".to_string()), None);
    resources.insert("a.luau".to_string(), ModuleSource::Unparsable);
    resources.insert("b.luau".to_string(), parsed());
    resources.insert("a.luau".to_string(), parsed());
    assert_eq!(resources.len(), 3);
    assert_eq!(resources.position(&"a.luau".to_string()), Some(0));
    assert_eq!(resources.position(&"b.luau".to_string()), Some(1));
    assert_eq!(resources.position(&"c.luau".to_string()), None);
    assert_eq!(resources.get(&"a.luau".to_string()), Some(&ModuleSource::Unparsable));
    assert_eq!(resources.get(&"b.luau".to_string()), Some(&parsed()));
}
