use argon::meta::{Context, Meta, SyncRule};
use argon::middleware::dir::is_dir_data;
use argon::middleware::model::model_snapshot;
use argon::middleware::string_value::read_string_value;
use argon::middleware::{named_after, Middleware};
use argon::order::{name_comes_first, sort_names};
use argon::project::Project;
use argon::snapshot::Snapshot;
use argon::util::stem;
use argon::value::Variant;

fn names(list: &[&str]) -> Vec<String> {
    list.iter().map(|name| String::from(*name)).collect()
}

fn rule(pattern: &str, kind: Middleware) -> SyncRule {
    SyncRule { pattern: String::from(pattern), kind }
}

#[test]
fn names_in_order() {
    assert!(name_comes_first("", ""));
    assert!(name_comes_first("", "a"));
    assert!(!name_comes_first("a", ""));
    assert!(name_comes_first("a", "a"));
    assert!(name_comes_first("a", "b"));
    assert!(!name_comes_first("b", "a"));
    assert!(name_comes_first("a", "ab"));
    assert!(!name_comes_first("ab", "a"));
    assert!(name_comes_first("B", "a"));
    assert!(name_comes_first("ab", "b"));
    assert!(name_comes_first("z", "é"));
    assert!(!name_comes_first("é", "z"));
}

#[test]
fn sorting_orders_the_names() {
    let sorted = sort_names(names(&["b.luau", "a", "init.meta.json", "B", "a.luau", "", "a"]));
    assert_eq!(sorted, names(&["", "B", "a", "a", "a.luau", "b.luau", "init.meta.json"]));
    assert_eq!(sort_names(vec![]), names(&[]));
    assert_eq!(sort_names(names(&["x"])), names(&["x"]));
}

#[test]
fn sorting_does_not_depend_on_the_listing() {
    let listings = [
        names(&["c", "a", "b", "é", "Z"]),
        names(&["b", "é", "Z", "c", "a"]),
        names(&["é", "Z", "c", "b", "a"]),
        names(&["Z", "a", "b", "c", "é"]),
    ];
    for listing in &listings {
        let mut expected = listing.clone();
        expected.sort();
        assert_eq!(sort_names(listing.clone()), expected);
        assert_eq!(sort_names(listing.clone()), names(&["Z", "a", "b", "c", "é"]));
    }
}

#[test]
fn what_a_node_sets_goes_before_what_is_set_above() {
    let mut above = Meta::new();
    above.ignore_globs = Some(names(&["*.md"]));
    above.legacy_scripts = Some(true);
    above.project_name = Some(String::from("game"));
    let mut own = Meta::new();
    own.legacy_scripts = Some(false);
    own.sync_rules = Some(vec![rule("*.txt", Middleware::StringValue)]);
    let merged = own.inherit(&above);
    assert_eq!(merged.ignore_globs, Some(names(&["*.md"])));
    assert_eq!(merged.legacy_scripts, Some(false));
    assert_eq!(merged.project_name, Some(String::from("game")));
    assert_eq!(merged.sync_rules.as_ref().unwrap().len(), 1);
    assert_eq!(merged.sync_rules.as_ref().unwrap()[0].pattern, "*.txt");
    let same = Meta::new().inherit(&above);
    assert_eq!(same.ignore_globs, Some(names(&["*.md"])));
    assert_eq!(same.legacy_scripts, Some(true));
    assert!(same.sync_rules.is_none());
    let nothing = Meta::new().inherit(&Meta::new());
    assert!(nothing.ignore_globs.is_none());
    assert!(nothing.legacy_scripts.is_none());
    assert!(nothing.project_name.is_none());
}

#[test]
fn what_is_in_force() {
    let context = Context::from_meta(&Meta::new());
    assert!(!context.use_legacy_scripts());
    assert!(context.ignore_globs.is_empty());
    assert!(context.sync_rules.is_empty());
    let mut project = Project::new("game", "src");
    project.ignore_globs = Some(names(&["*.md"]));
    project.use_legacy_scripts = Some(true);
    let meta = Meta::from_project(&project);
    assert_eq!(meta.project_name, Some(String::from("game")));
    let context = Context::from_meta(&meta);
    assert!(context.use_legacy_scripts());
    assert!(context.is_ignored("README.md"));
    assert!(!context.is_ignored("README.txt"));
    let direct = Context::from_project(&project);
    assert!(direct.use_legacy_scripts());
    assert_eq!(direct.ignore_globs, names(&["*.md"]));
}

#[test]
fn kinds_by_rule_and_by_suffix() {
    let context = Context::new(false)
        .with_ignore_globs(names(&["*.md", "src/skip/*"]))
        .with_sync_rules(vec![
            rule("*.txt", Middleware::StringValue),
            rule("*.csv", Middleware::LocalizationTable),
            rule("src/special/*", Middleware::ModuleScript),
            rule("*.txt.luau", Middleware::ClientScript),
        ]);
    assert_eq!(context.kind_of_file("src/notes.txt", "notes.txt"), Some(Middleware::StringValue));
    assert_eq!(context.kind_of_file("src/table.csv", "table.csv"), Some(Middleware::LocalizationTable));
    assert_eq!(context.kind_of_file("src/special/a.server.luau", "a.server.luau"), Some(Middleware::ModuleScript));
    assert_eq!(context.kind_of_file("src/a.server.luau", "a.server.luau"), Some(Middleware::ServerScript));
    assert_eq!(context.kind_of_file("src/a.txt.luau", "a.txt.luau"), Some(Middleware::ClientScript));
    assert_eq!(context.kind_of_file("src/special/x.txt", "x.txt"), Some(Middleware::StringValue));
    assert_eq!(context.kind_of_file("src/README.md", "README.md"), None);
    assert_eq!(context.kind_of_file("src/skip/a.luau", "a.luau"), None);
    assert_eq!(context.kind_of_file("src/unknown.bin", "unknown.bin"), None);
    assert_eq!(Context::new(false).kind_of_file("src/notes.txt", "notes.txt"), None);
    assert_eq!(Context::new(false).kind_of_file("src/a.luau", "a.luau"), Some(Middleware::ModuleScript));
}

#[test]
fn a_file_read_as_a_string_value() {
    let snapshot = read_string_value(String::from("hello\n"));
    assert_eq!(snapshot.class, "StringValue");
    assert_eq!(snapshot.name, "");
    assert_eq!(snapshot.properties.len(), 1);
    assert!(matches!(snapshot.properties.get("Value"), Some(Variant::String(text)) if text == "hello\n"));
    assert!(snapshot.children.is_empty());
}

#[test]
fn rules_of_reading_files() {
    assert!(is_dir_data("init.meta.json"));
    assert!(!is_dir_data("Part.meta.json"));
    assert!(!is_dir_data("init.meta"));
    assert_eq!(named_after("foo.server.luau"), "foo");
    assert_eq!(named_after("notes.txt"), "notes");
    assert_eq!(named_after("README"), "README");
    assert_eq!(named_after(".hidden"), ".hidden");
    assert_eq!(stem("a.b.c"), "a.b");
    assert_eq!(stem(""), "");
    let leaf = |name: &str| Snapshot::new().with_name(name).with_class("Part");
    let one = model_snapshot(vec![leaf("a")]);
    assert_eq!(one.name, "a");
    assert_eq!(one.class, "Part");
    let two = model_snapshot(vec![leaf("a"), leaf("b")]);
    assert_eq!(two.class, "Folder");
    assert_eq!(two.children.len(), 2);
    assert_eq!(two.children[1].name, "b");
    let none = model_snapshot(vec![]);
    assert_eq!(none.class, "Folder");
    assert!(none.children.is_empty());
}
