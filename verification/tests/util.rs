use argon::util::{
    file_name, file_stem, get_file_ext, get_file_name, get_file_stem, get_index, get_verbosity,
    get_verbosity_flag, get_yes, is_script, is_service, is_service_class, path_to_string, Desc, Verbosity,
};

#[test]
fn script_classes_are_scripts() {
    assert!(is_script("Script"));
    assert!(is_script("LocalScript"));
    assert!(is_script("ModuleScript"));
}

#[test]
fn other_classes_are_no_scripts() {
    assert!(!is_script("Folder"));
    assert!(!is_script("script"));
    assert!(!is_script(""));
    assert!(!is_script("ModuleScripts"));
}

#[test]
fn path_text_is_kept() {
    assert_eq!(path_to_string("src/init.server.luau"), "src/init.server.luau");
    assert_eq!(path_to_string(""), "");
}

#[test]
fn index_of_first_equal_element() {
    let items = [3u32, 5, 7, 5];
    assert_eq!(get_index(&items, &5), Some(1));
    assert_eq!(get_index(&items, &3), Some(0));
    assert_eq!(get_index(&items, &7), Some(2));
    assert_eq!(get_index(&items, &4), None);
    let empty: [u32; 0] = [];
    assert_eq!(get_index(&empty, &1), None);
}

#[test]
fn file_name_is_the_final_component() {
    assert_eq!(get_file_name("src/foo.luau"), "foo.luau");
    assert_eq!(get_file_name("src/shared"), "shared");
    assert_eq!(get_file_name("src/shared/"), "shared");
    assert_eq!(get_file_name("init.server.luau"), "init.server.luau");
    assert_eq!(file_name("a/b/c.txt"), Some("c.txt"));
}

#[test]
fn paths_without_a_final_component_have_no_file_name() {
    assert_eq!(file_name("src/.."), None);
    assert_eq!(file_name("/"), None);
    assert_eq!(file_name(""), None);
    assert_eq!(file_stem("src/..", false), None);
}

#[test]
fn stem_is_the_name_before_the_last_dot() {
    assert_eq!(get_file_stem("src/foo.luau", false), "foo");
    assert_eq!(get_file_stem("src/init.server.luau", false), "init.server");
    assert_eq!(get_file_stem("src/README", false), "README");
    assert_eq!(get_file_stem("src/.gitignore", false), ".gitignore");
    assert_eq!(get_file_stem("src/archive.", false), "archive");
    assert_eq!(file_stem("src/foo.luau", false), Some("foo"));
}

#[test]
fn stem_of_a_directory_is_its_whole_name() {
    assert_eq!(get_file_stem("src/my.folder", true), "my.folder");
    assert_eq!(file_stem("src/my.folder", true), Some("my.folder"));
}

#[test]
fn extension_is_the_name_after_the_last_dot() {
    assert_eq!(get_file_ext("src/foo.luau", false), "luau");
    assert_eq!(get_file_ext("src/init.server.luau", false), "luau");
    assert_eq!(get_file_ext("src/Part.meta.json", false), "json");
    assert_eq!(get_file_ext("src/archive.", false), "");
}

#[test]
fn extension_is_empty_where_there_is_none() {
    assert_eq!(get_file_ext("src/README", false), "");
    assert_eq!(get_file_ext("src/.gitignore", false), "");
    assert_eq!(get_file_ext("src/my.folder", true), "");
    assert_eq!(get_file_ext("src/..", false), "");
    assert_eq!(get_file_ext("", false), "");
}

#[test]
fn services_of_the_database_are_services() {
    assert!(is_service("Workspace"));
    assert!(is_service("ReplicatedStorage"));
    assert!(is_service("ServerScriptService"));
}

#[test]
fn starter_script_containers_are_services() {
    assert!(is_service("StarterPlayerScripts"));
    assert!(is_service("StarterCharacterScripts"));
}

#[test]
fn other_classes_are_no_services() {
    assert!(!is_service("Part"));
    assert!(!is_service("Folder"));
    assert!(!is_service("NoSuchClass"));
    assert!(!is_service(""));
}

#[test]
fn service_rule_on_given_tags() {
    assert!(is_service_class(Some(true), "Anything"));
    assert!(!is_service_class(Some(false), "Anything"));
    assert!(!is_service_class(None, "Anything"));
    assert!(is_service_class(None, "StarterPlayerScripts"));
    assert!(is_service_class(Some(false), "StarterCharacterScripts"));
}

#[test]
fn verbosity_follows_the_variable() {
    assert_eq!(get_verbosity(Some("OFF")), Verbosity::Off);
    assert_eq!(get_verbosity(Some("ERROR")), Verbosity::Error);
    assert_eq!(get_verbosity(Some("WARN")), Verbosity::Warn);
    assert_eq!(get_verbosity(Some("INFO")), Verbosity::Info);
    assert_eq!(get_verbosity(Some("DEBUG")), Verbosity::Debug);
    assert_eq!(get_verbosity(Some("TRACE")), Verbosity::Trace);
}

#[test]
fn verbosity_defaults_to_error() {
    assert_eq!(get_verbosity(None), Verbosity::Error);
    assert_eq!(get_verbosity(Some("loud")), Verbosity::Error);
    assert_eq!(get_verbosity(Some("warn")), Verbosity::Error);
    assert_eq!(get_verbosity(Some("")), Verbosity::Error);
}

#[test]
fn verbosity_flags() {
    assert_eq!(get_verbosity_flag(Some("OFF")), "-q");
    assert_eq!(get_verbosity_flag(Some("ERROR")), "");
    assert_eq!(get_verbosity_flag(Some("WARN")), "-v");
    assert_eq!(get_verbosity_flag(Some("INFO")), "-vv");
    assert_eq!(get_verbosity_flag(Some("DEBUG")), "-vvv");
    assert_eq!(get_verbosity_flag(Some("TRACE")), "-vvvv");
    assert_eq!(get_verbosity_flag(None), "");
    assert_eq!(get_verbosity_flag(Some("other")), "");
}

#[test]
fn yes_is_set_by_any_value() {
    assert!(get_yes(Some("1")));
    assert!(get_yes(Some("")));
    assert!(!get_yes(None));
}

#[test]
fn description_stands_before_the_error() {
    let failed: Result<u32, String> = Err(String::from("no such file"));
    assert_eq!(failed.desc("Failed to read project"), Err(String::from("Failed to read project: no such file")));
    let fine: Result<u32, String> = Ok(7);
    assert_eq!(fine.desc("Failed to read project"), Ok(7));
}
