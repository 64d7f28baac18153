use argon::changes::Change;
use argon::engine::Core;
use argon::meta::Context;
use argon::middleware::dir::snapshot_dir;
use argon::processor::Plan;
use argon::project::Project;
use argon::snapshot::{Ref, Snapshot};
use argon::util::{get_username, resolve_path};
use argon::value::{Properties, Variant};
use argon::vfs::{EchoFilter, FsEvent, FsEventKind};

fn leaf(name: &str, class: &str, paths: &[&str]) -> Snapshot {
    Snapshot::new().with_name(name).with_class(class).with_paths(paths.iter().map(|path| String::from(*path)).collect())
}

fn project() -> Core {
    let snapshot = leaf("src", "Folder", &["src"]).with_children(vec![
        leaf("foo", "ModuleScript", &["src/foo.luau"]),
        leaf("lib", "Folder", &["src/lib"]).with_children(vec![
            leaf("util", "ModuleScript", &["src/lib/util.luau"]),
            leaf("Part", "Part", &["src/lib/Part.meta.json", "src/other/Part.model.json"]),
        ]),
        leaf("libs", "Folder", &["src/libs"]),
    ]);
    Core::new(Project::new("game", "src"), &snapshot).unwrap()
}

fn event(kind: FsEventKind, path: &str) -> FsEvent {
    FsEvent { kind, path: String::from(path) }
}

fn recompute(plan: &Plan) -> Option<(&str, Ref)> {
    match plan {
        Plan::Recompute { path, id } => Some((path.as_str(), *id)),
        _ => None,
    }
}

#[test]
fn a_modified_path_is_read_anew_at_its_instance() {
    let engine = project();
    let context = Context::new(false);
    assert_eq!(recompute(&engine.plan(&context, "src/foo.luau")), Some(("src/foo.luau", Ref(1))));
    assert_eq!(recompute(&engine.plan(&context, "src/lib")), Some(("src/lib", Ref(2))));
    assert_eq!(recompute(&engine.plan(&context, "src")), Some(("src", Ref(0))));
}

#[test]
fn a_created_path_is_read_anew_at_the_nearest_path_above() {
    let engine = project();
    let context = Context::new(false);
    assert_eq!(recompute(&engine.plan(&context, "src/lib/new.luau")), Some(("src/lib", Ref(2))));
    assert_eq!(recompute(&engine.plan(&context, "src/lib/deep/er/new.luau")), Some(("src/lib", Ref(2))));
    assert_eq!(recompute(&engine.plan(&context, "src/bar.luau")), Some(("src", Ref(0))));
    assert_eq!(recompute(&engine.plan(&context, "elsewhere/bar.luau")), None);
    assert_eq!(recompute(&engine.plan(&context, "")), None);
}

#[test]
fn a_path_that_is_left_out_asks_for_nothing() {
    let engine = project();
    let context = Context::new(false).with_ignore_globs(vec![String::from("*.md")]);
    assert_eq!(recompute(&engine.plan(&context, "src/README.md")), None);
    assert_eq!(recompute(&engine.plan(&context, "src/README.txt")), Some(("src", Ref(0))));
    let mut engine = project();
    engine.subscribe(1, 0);
    let plan = engine.on_event(&context, &event(FsEventKind::Created, "src/README.md"));
    assert!(matches!(plan, Plan::Nothing));
    assert!(matches!(engine.on_event(&context, &event(FsEventKind::Removed, "src/none")), Plan::Done { changes: 0 }));
    assert!(matches!(
        engine.on_event(&context, &event(FsEventKind::Modified, "src/foo.luau")),
        Plan::Recompute { id: Ref(1), .. }
    ));
    assert!(engine.read(1, 1).unwrap().is_empty());
    assert!(engine.tree().get_ids("src/README.md").is_empty());
}

#[test]
fn a_removed_file_takes_its_instance_along() {
    let mut engine = project();
    engine.subscribe(1, 0);
    assert_eq!(engine.forget("src/foo.luau"), 1);
    assert!(engine.tree().get_instance(Ref(1)).is_none());
    assert!(engine.tree().get_ids("src/foo.luau").is_empty());
    assert_eq!(engine.tree().root().children(), &[Ref(2), Ref(5)]);
    let seen = engine.read(1, 1).unwrap();
    assert_eq!(seen.len(), 1);
    assert_eq!(seen[0].len(), 1);
    assert!(matches!(&seen[0].changes[0], Change::Removed { id } if *id == Ref(1)));
    assert_eq!(engine.forget("src/foo.luau"), 0);
    assert!(engine.read(1, 2).unwrap().is_empty());
}

#[test]
fn a_removed_directory_takes_what_was_made_from_it_alone() {
    let mut engine = project();
    engine.subscribe(1, 0);
    let plan = engine.on_event(&Context::new(false), &event(FsEventKind::Removed, "src/lib"));
    assert!(matches!(plan, Plan::Done { changes: 1 }));
    assert!(engine.tree().get_instance(Ref(2)).is_none());
    assert!(engine.tree().get_instance(Ref(3)).is_none());
    assert!(engine.tree().get_instance(Ref(4)).is_none());
    assert!(engine.tree().get_instance(Ref(5)).is_some());
    assert!(engine.tree().get_instance(Ref(1)).is_some());
    let seen = engine.read(1, 1).unwrap();
    assert_eq!(seen.len(), 1);
    assert_eq!(seen[0].len(), 1);
    assert!(matches!(&seen[0].changes[0], Change::Removed { id } if *id == Ref(2)));
}

#[test]
fn an_instance_made_from_other_paths_too_stays() {
    let snapshot = leaf("src", "Folder", &["src"]).with_children(vec![
        leaf("Part", "Part", &["src/lib/Part.meta.json", "src/other/Part.model.json"]),
        leaf("none", "Folder", &[]),
    ]);
    let mut engine = Core::new(Project::new("game", "src"), &snapshot).unwrap();
    assert_eq!(engine.forget("src/lib"), 0);
    assert!(engine.tree().get_instance(Ref(1)).is_some());
    assert!(engine.tree().get_instance(Ref(2)).is_some());
    assert_eq!(engine.forget("src"), 1);
    assert!(engine.tree().get_instance(Ref(0)).is_some());
    assert!(engine.tree().get_instance(Ref(1)).is_none());
    assert!(engine.tree().get_instance(Ref(2)).is_some());
}

#[test]
fn removal_goes_by_whole_components() {
    let mut engine = project();
    assert_eq!(engine.forget("src/lib"), 1);
    assert!(engine.tree().get_instance(Ref(5)).is_some());
    assert_eq!(engine.tree().get_instance(Ref(5)).unwrap().name(), "libs");
}

#[test]
fn the_echo_of_a_write_is_kept_out_once() {
    let mut filter = EchoFilter::new(250);
    filter.record("src/foo.luau", 77, 1000);
    assert_eq!(filter.len(), 1);
    assert!(!filter.suppress("src/foo.luau", 78, 1100));
    assert!(!filter.suppress("src/bar.luau", 77, 1100));
    assert!(filter.suppress("src/foo.luau", 77, 1100));
    assert_eq!(filter.len(), 0);
    assert!(!filter.suppress("src/foo.luau", 77, 1100));
}

#[test]
fn the_echo_counts_only_within_the_window() {
    let mut filter = EchoFilter::new(250);
    filter.record("src/foo.luau", 77, 1000);
    assert!(!filter.suppress("src/foo.luau", 77, 1251));
    assert!(!filter.suppress("src/foo.luau", 77, 999));
    assert!(filter.suppress("src/foo.luau", 77, 1250));
    filter.record("src/foo.luau", 77, 1000);
    assert!(filter.suppress("src/foo.luau", 77, 1000));
}

#[test]
fn old_writes_are_dropped() {
    let mut filter = EchoFilter::new(250);
    filter.record("a", 1, 1000);
    filter.record("b", 2, 1100);
    filter.record("c", 3, 1300);
    filter.prune(1300);
    assert_eq!(filter.len(), 2);
    assert!(!filter.suppress("a", 1, 1200));
    assert!(filter.suppress("b", 2, 1300));
    assert!(filter.suppress("c", 3, 1300));
    filter.record("d", 4, 2000);
    filter.prune(1999);
    assert_eq!(filter.len(), 0);
}

#[test]
fn snapshot_of_a_directory() {
    let children = vec![leaf("a", "Part", &["src/lib/a.model.json"]), leaf("b", "Part", &[])];
    let plain = snapshot_dir("lib", "src/lib", None, children);
    assert_eq!(plain.name, "lib");
    assert_eq!(plain.class, "Folder");
    assert_eq!(plain.properties.len(), 0);
    assert_eq!(plain.paths, vec![String::from("src/lib")]);
    assert_eq!(plain.children.len(), 2);
    assert_eq!(plain.children[0].name, "a");
    assert_eq!(plain.children[1].name, "b");
    assert!(plain.id.is_none());
    let empty = snapshot_dir("empty", "src/empty", None, vec![]);
    assert_eq!(empty.class, "Folder");
    assert_eq!(empty.name, "empty");
    assert!(empty.children.is_empty());
    let service = snapshot_dir("ReplicatedStorage", "src/ReplicatedStorage", None, vec![]);
    assert_eq!(service.class, "ReplicatedStorage");
    assert!(service.children.is_empty());
    let mut properties = Properties::new();
    properties.insert(String::from("Archivable"), Variant::Bool(false));
    let data = leaf("", "Model", &["src/Workspace/init.meta.json"]).with_properties(properties);
    let named = snapshot_dir("Workspace", "src/Workspace", Some(data), vec![]);
    assert_eq!(named.name, "Workspace");
    assert_eq!(named.class, "Model");
    assert!(matches!(named.properties.get("Archivable"), Some(Variant::Bool(false))));
    assert_eq!(named.paths, vec![String::from("src/Workspace"), String::from("src/Workspace/init.meta.json")]);
}

#[test]
fn paths_are_made_absolute() {
    assert_eq!(resolve_path(String::from("/projects/game"), "/home/user"), "/projects/game");
    assert_eq!(resolve_path(String::from("game"), "/home/user"), "/home/user/game");
    assert_eq!(resolve_path(String::from("a/b"), "/"), "/a/b");
}

#[test]
fn the_user_name_is_the_configured_one_without_white_space() {
    assert_eq!(get_username(Some("  Ada Lovelace\n"), "ada"), "Ada Lovelace");
    assert_eq!(get_username(Some("\n"), "ada"), "");
    assert_eq!(get_username(None, "ada"), "ada");
}

#[test]
fn what_is_written_back_for_a_script() {
    let mut properties = Properties::new();
    properties.insert(String::from("Source"), Variant::String(String::from("return 1")));
    properties.insert(String::from("Disabled"), Variant::Bool(true));
    let snapshot = leaf("src", "Folder", &["src"]).with_children(vec![
        leaf("foo", "ModuleScript", &["src/foo.meta.json", "src/foo.luau", "src/other.luau"])
            .with_properties(properties.duplicate()),
        leaf("bar", "ModuleScript", &["src/bar.luau"]).with_properties(properties.duplicate()),
        leaf("Part", "Part", &["src/Part.luau", "src/Part.meta.json"]).with_properties(properties.duplicate()),
        leaf("none", "Script", &["src/none"]).with_properties(properties.duplicate()),
    ]);
    let engine = Core::new(Project::new("game", "src"), &snapshot).unwrap();
    let plan = argon::processor::write_back(engine.tree(), Ref(1)).unwrap();
    let script = plan.script.unwrap();
    assert_eq!(script.path, "src/foo.luau");
    assert_eq!(script.source, "return 1");
    let data = plan.data.unwrap();
    assert_eq!(data.path, "src/foo.meta.json");
    assert_eq!(data.properties.len(), 1);
    assert!(matches!(data.properties.get("Disabled"), Some(Variant::Bool(true))));
    let plan = argon::processor::write_back(engine.tree(), Ref(2)).unwrap();
    assert_eq!(plan.script.unwrap().path, "src/bar.luau");
    assert!(plan.data.is_none());
    let plan = argon::processor::write_back(engine.tree(), Ref(3)).unwrap();
    assert!(plan.script.is_none());
    let data = plan.data.unwrap();
    assert_eq!(data.path, "src/Part.meta.json");
    assert_eq!(data.properties.len(), 2);
    let plan = argon::processor::write_back(engine.tree(), Ref(4)).unwrap();
    assert!(plan.script.is_none());
    assert!(plan.data.is_none());
    let plan = argon::processor::write_back(engine.tree(), Ref(0)).unwrap();
    assert!(plan.script.is_none() && plan.data.is_none());
    assert!(argon::processor::write_back(engine.tree(), Ref(9)).is_none());
}

#[test]
fn a_script_whose_source_is_no_string_is_not_written() {
    let mut properties = Properties::new();
    properties.insert(String::from("Source"), Variant::Bool(true));
    let snapshot = leaf("foo", "Script", &["src/foo.server.luau", "src/foo.meta.json"]).with_properties(properties);
    let engine = Core::new(Project::new("game", "src"), &snapshot).unwrap();
    let plan = argon::processor::write_back(engine.tree(), Ref(0)).unwrap();
    assert!(plan.script.is_none());
    let data = plan.data.unwrap();
    assert_eq!(data.path, "src/foo.meta.json");
    assert_eq!(data.properties.len(), 0);
}
