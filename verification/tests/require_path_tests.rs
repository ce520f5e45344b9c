use opacity_cli::require_path::{
    choose_existing, find_require_candidates, find_require_paths, is_require_relative,
    parent_directory,
};

fn owned(values: &[&str]) -> Vec<String> {
    values.iter().map(|value| value.to_string()).collect()
}

#[test]
fn path_with_a_script_extension_names_itself_only() {
    assert_eq!(find_require_paths("hello.lua"), owned(&["hello.lua"]));
    assert_eq!(find_require_paths("dir/hello.luau"), owned(&["dir/hello.luau"]));
    assert_eq!(find_require_paths("a.b.lua"), owned(&["a.b.lua"]));
}

#[test]
fn path_without_extension_may_name_a_script_or_a_directory() {
    assert_eq!(
        find_require_paths("dir/hello"),
        owned(&[
            "dir/hello",
            "dir/hello.luau",
            "dir/hello.lua",
            "dir/hello/init",
            "dir/hello/init.luau",
            "dir/hello/init.lua",
        ])
    );
}

#[test]
fn other_extensions_are_part_of_the_name() {
    assert_eq!(
        find_require_paths("data.json"),
        owned(&[
            "data.json",
            "data.json.luau",
            "data.json.lua",
            "data.json/init",
            "data.json/init.luau",
            "data.json/init.lua",
        ])
    );
    // a leading dot is no extension
    assert_eq!(
        find_require_paths(".lua"),
        owned(&[".lua", ".lua.luau", ".lua.lua", ".lua/init", ".lua/init.luau", ".lua/init.lua"])
    );
}

#[test]
fn path_that_ends_in_no_file_name_names_a_directory() {
    assert_eq!(find_require_paths(".."), owned(&["..", "../init", "../init.luau", "../init.lua"]));
    assert_eq!(find_require_paths("."), owned(&[".", "./init", "./init.luau", "./init.lua"]));
    assert_eq!(find_require_paths("/"), owned(&["/", "/init", "/init.luau", "/init.lua"]));
    assert_eq!(
        find_require_paths("../.."),
        owned(&["../..", "../../init", "../../init.luau", "../../init.lua"])
    );
}

#[test]
fn relative_means_starting_with_a_dot_component() {
    assert!(is_require_relative("./a"));
    assert!(is_require_relative("../a"));
    assert!(is_require_relative("."));
    assert!(is_require_relative(".."));
    assert!(!is_require_relative("a/./b"));
    assert!(!is_require_relative(".a"));
    assert!(!is_require_relative("..a/b"));
    assert!(!is_require_relative("/a"));
    assert!(!is_require_relative(""));
    assert!(!is_require_relative("@pkg/a"));
}

#[test]
fn directory_of_a_file() {
    assert_eq!(parent_directory("src/flows/a.luau"), "src/flows");
    assert_eq!(parent_directory("a.luau"), "");
    assert_eq!(parent_directory("/a.luau"), "/");
    assert_eq!(parent_directory("/"), "/");
    assert_eq!(parent_directory(""), "");
}

#[test]
fn import_is_looked_for_beside_the_importing_file() {
    assert_eq!(
        find_require_candidates("./util", "src/flows/a.luau"),
        owned(&[
            "src/flows/util",
            "src/flows/util.luau",
            "src/flows/util.lua",
            "src/flows/util/init",
            "src/flows/util/init.luau",
            "src/flows/util/init.lua",
        ])
    );
    assert_eq!(
        find_require_candidates("../shared/types.luau", "src/flows/a.luau"),
        owned(&["src/shared/types.luau"])
    );
    assert_eq!(
        find_require_candidates("./util", "a.luau"),
        owned(&[
            "./util",
            "./util.luau",
            "./util.lua",
            "./util/init",
            "./util/init.luau",
            "./util/init.lua",
        ])
    );
    assert_eq!(
        find_require_candidates("..", "src/flows/a.luau"),
        owned(&["src", "src.luau", "src.lua", "src/init", "src/init.luau", "src/init.lua"])
    );
}

#[test]
fn import_from_the_root_is_taken_as_it_is() {
    assert_eq!(find_require_candidates("/lib/x.lua", "src/a.luau"), owned(&["/lib/x.lua"]));
}

#[test]
fn import_by_another_name_has_no_candidates() {
    assert_eq!(find_require_candidates("@pkg/util", "src/a.luau"), Vec::<String>::new());
    assert_eq!(find_require_candidates("util", "src/a.luau"), Vec::<String>::new());
    assert_eq!(find_require_candidates("", "src/a.luau"), Vec::<String>::new());
}

#[test]
fn first_existing_candidate_is_chosen() {
    let files = owned(&["a", "a.luau", "a.lua"]);
    assert_eq!(choose_existing(&files, &vec![false, true, true]), Some("a.luau".to_string()));
    assert_eq!(choose_existing(&files, &vec![true, false, false]), Some("a".to_string()));
    assert_eq!(choose_existing(&files, &vec![false, false, false]), None);
    // what is not said to exist does not
    assert_eq!(choose_existing(&files, &vec![false]), None);
    assert_eq!(choose_existing(&files, &vec![]), None);
    assert_eq!(choose_existing(&vec![], &vec![true]), None);
}
