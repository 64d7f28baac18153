use argon::engine::Core;
use argon::project::Project;
use argon::snapshot::Snapshot;
use argon::sourcemap::SourcemapNode;

fn leaf(name: &str, class: &str, paths: &[&str]) -> Snapshot {
    Snapshot::new().with_name(name).with_class(class).with_paths(paths.iter().map(|path| String::from(*path)).collect())
}

fn core_of(snapshot: Snapshot) -> Core {
    Core::new(Project::new("game", "src"), &snapshot).unwrap()
}

fn names(nodes: &[SourcemapNode]) -> Vec<&str> {
    nodes.iter().map(|node| node.name.as_str()).collect()
}

#[test]
fn scripts_and_what_is_above_them() {
    let snapshot = leaf("src", "Folder", &["src"]).with_children(vec![
        leaf("init", "Script", &["src/init.server.luau"]),
        leaf("assets", "Folder", &["src/assets"]).with_children(vec![leaf("Part", "Part", &["src/assets/Part.meta.json"])]),
        leaf("lib", "Folder", &["src/lib"]).with_children(vec![leaf("util", "ModuleScript", &["src/lib/util.luau"])]),
    ]);
    let files = vec![
        String::from("src/init.server.luau"),
        String::from("src/assets/Part.meta.json"),
        String::from("src/lib/util.luau"),
    ];
    let map = core_of(snapshot).sourcemap(false, &files).unwrap();
    assert_eq!(map.name, "src");
    assert_eq!(map.class_name, "Folder");
    assert!(map.file_paths.is_empty());
    assert_eq!(names(&map.children), vec!["init", "lib"]);
    assert_eq!(map.children[0].class_name, "Script");
    assert_eq!(map.children[0].file_paths, vec![String::from("src/init.server.luau")]);
    assert!(map.children[0].children.is_empty());
    assert_eq!(names(&map.children[1].children), vec!["util"]);
    assert_eq!(map.children[1].children[0].file_paths, vec![String::from("src/lib/util.luau")]);
    assert!(map.children[1].file_paths.is_empty());
}

#[test]
fn every_instance_where_asked() {
    let snapshot = leaf("src", "Folder", &["src"]).with_children(vec![
        leaf("assets", "Folder", &["src/assets"]).with_children(vec![leaf("Part", "Part", &["src/assets/Part.meta.json"])]),
        leaf("empty", "Folder", &[]),
    ]);
    let files = vec![String::from("src/assets/Part.meta.json")];
    let map = core_of(snapshot).sourcemap(true, &files).unwrap();
    assert_eq!(names(&map.children), vec!["assets", "empty"]);
    assert_eq!(names(&map.children[0].children), vec!["Part"]);
    assert_eq!(map.children[0].children[0].file_paths, vec![String::from("src/assets/Part.meta.json")]);
}

#[test]
fn nothing_without_scripts() {
    let snapshot = leaf("src", "Folder", &["src"]).with_children(vec![leaf("Part", "Part", &["src/Part.meta.json"])]);
    assert!(core_of(snapshot).sourcemap(false, &vec![String::from("src/Part.meta.json")]).is_none());
    let script = leaf("src", "Script", &["src"]);
    let map = core_of(script).sourcemap(false, &vec![]).unwrap();
    assert_eq!(map.class_name, "Script");
    assert!(map.file_paths.is_empty());
    assert!(map.children.is_empty());
}

#[test]
fn file_paths_by_falling_length() {
    let snapshot = leaf(
        "init",
        "Script",
        &["src/a", "src/init.server.luau", "src/bb", "src/init.meta.json", "src/cc", "src/dir"],
    );
    let files = vec![
        String::from("src/a"),
        String::from("src/bb"),
        String::from("src/cc"),
        String::from("src/init.meta.json"),
        String::from("src/init.server.luau"),
    ];
    let map = core_of(snapshot).sourcemap(false, &files).unwrap();
    assert_eq!(
        map.file_paths,
        vec![
            String::from("src/init.server.luau"),
            String::from("src/init.meta.json"),
            String::from("src/bb"),
            String::from("src/cc"),
            String::from("src/a"),
        ]
    );
}

#[test]
fn length_is_counted_in_bytes() {
    let snapshot = leaf("init", "Script", &["src/ab", "src/é"]);
    let files = vec![String::from("src/ab"), String::from("src/é")];
    let map = core_of(snapshot).sourcemap(false, &files).unwrap();
    assert_eq!(map.file_paths, vec![String::from("src/ab"), String::from("src/é")]);
    let snapshot = leaf("init", "Script", &["src/a", "src/é"]);
    let files = vec![String::from("src/a"), String::from("src/é")];
    let map = core_of(snapshot).sourcemap(false, &files).unwrap();
    assert_eq!(map.file_paths, vec![String::from("src/é"), String::from("src/a")]);
}
