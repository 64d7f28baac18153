use argon::engine::Core;
use argon::diff::is_distinct;
use argon::json::{Json, Member, Number};
use argon::middleware::data::{schema_of, snapshot_document, unresolve, write_data, Schema};
use argon::middleware::dir::{attach, with_data};
use argon::middleware::{classify, instance_name, Middleware};
use argon::project::Project;
use argon::snapshot::{Ref, Snapshot};
use argon::value::{Properties, Variant};

fn part() -> Properties {
    let mut properties = Properties::new();
    properties.insert(String::from("Transparency"), Variant::Float32(0.5f64.to_bits()));
    properties.insert(String::from("Anchored"), Variant::Bool(true));
    properties.insert(String::from("Material"), Variant::Enum(256));
    properties.insert(String::from("Name"), Variant::String(String::from("Floor")));
    properties
}

fn keys(document: &Json) -> Vec<&str> {
    match document {
        Json::Object(members) => members.iter().map(|member| member.key.as_str()).collect(),
        _ => panic!("no object"),
    }
}

#[test]
fn kinds_of_files() {
    assert_eq!(classify("init.server.luau"), Some(Middleware::ServerScript));
    assert_eq!(classify("main.client.luau"), Some(Middleware::ClientScript));
    assert_eq!(classify("foo.luau"), Some(Middleware::ModuleScript));
    assert_eq!(classify("Part.meta.json"), Some(Middleware::Data));
    assert_eq!(classify("model.rbxm"), Some(Middleware::BinaryModel));
    assert_eq!(classify("model.rbxmx"), Some(Middleware::XmlModel));
    assert_eq!(classify(".luau"), Some(Middleware::ModuleScript));
    assert_eq!(classify("README.md"), None);
    assert_eq!(classify("foo.json"), None);
    assert_eq!(classify("luau"), None);
    assert_eq!(classify(""), None);
}

#[test]
fn names_of_instances() {
    assert_eq!(instance_name("init.server.luau"), Some("init"));
    assert_eq!(instance_name("main.client.luau"), Some("main"));
    assert_eq!(instance_name("foo.luau"), Some("foo"));
    assert_eq!(instance_name("foo.bar.luau"), Some("foo.bar"));
    assert_eq!(instance_name("Part.meta.json"), Some("Part"));
    assert_eq!(instance_name("model.rbxm"), Some("model"));
    assert_eq!(instance_name("model.rbxmx"), Some("model"));
    assert_eq!(instance_name(".luau"), Some(""));
    assert_eq!(instance_name("README.md"), None);
}

#[test]
fn values_as_they_are_written() {
    assert!(matches!(unresolve(&Variant::Bool(true)), Json::Bool(true)));
    assert!(matches!(unresolve(&Variant::String(String::from("x"))), Json::String(text) if text == "x"));
    assert!(matches!(unresolve(&Variant::Enum(7)), Json::Number(Number { integer: Some(7), double: None })));
    assert!(matches!(unresolve(&Variant::Int32(-7)), Json::Number(Number { integer: Some(-7), double: None })));
    assert!(matches!(unresolve(&Variant::Int64(1 << 40)), Json::Number(Number { integer: Some(n), double: None }) if n == 1 << 40));
    assert!(matches!(unresolve(&Variant::Float64(1.5f64.to_bits())), Json::Number(Number { integer: None, double: Some(bits) }) if bits == 1.5f64.to_bits()));
    assert!(matches!(unresolve(&Variant::Float32(0.5f64.to_bits())), Json::Number(Number { integer: None, double: Some(bits) }) if bits == 0.5f64.to_bits()));
    match unresolve(&Variant::Tags(vec![String::from("a"), String::from("b")])) {
        Json::Array(items) => {
            assert_eq!(items.len(), 2);
            assert!(matches!(&items[0], Json::String(text) if text == "a"));
            assert!(matches!(&items[1], Json::String(text) if text == "b"));
        },
        _ => panic!("no array"),
    }
}

#[test]
fn the_structured_document() {
    let document = write_data(Some("Part"), &part(), Schema::Structured);
    assert_eq!(keys(&document), vec!["className", "properties"]);
    assert!(matches!(document.get("className"), Some(Json::String(class)) if class == "Part"));
    let inner = document.get("properties").unwrap();
    assert_eq!(keys(inner), vec!["Transparency", "Anchored", "Material", "Name"]);
    assert_eq!(schema_of(&document), Schema::Structured);
    let bare = write_data(None, &part(), Schema::Structured);
    assert_eq!(keys(&bare), vec!["properties"]);
    assert_eq!(schema_of(&bare), Schema::Structured);
}

#[test]
fn the_flat_document() {
    let document = write_data(Some("Part"), &part(), Schema::Flat);
    assert_eq!(keys(&document), vec!["ClassName", "Transparency", "Anchored", "Material", "Name"]);
    assert_eq!(schema_of(&document), Schema::Flat);
    let bare = write_data(None, &Properties::new(), Schema::Flat);
    assert!(keys(&bare).is_empty());
    assert_eq!(schema_of(&bare), Schema::Flat);
}

#[test]
fn schema_by_the_keys() {
    let with = |key: &str| Json::Object(vec![Member { key: String::from(key), value: Json::Null }]);
    assert_eq!(schema_of(&with("className")), Schema::Structured);
    assert_eq!(schema_of(&with("properties")), Schema::Structured);
    assert_eq!(schema_of(&with("attributes")), Schema::Structured);
    assert_eq!(schema_of(&with("ignoreUnknownInstances")), Schema::Structured);
    assert_eq!(schema_of(&with("tags")), Schema::Structured);
    assert_eq!(schema_of(&with("ClassName")), Schema::Flat);
    assert_eq!(schema_of(&with("Tags")), Schema::Flat);
    assert_eq!(schema_of(&Json::Null), Schema::Flat);
}

#[test]
fn data_round_trip() {
    for schema in [Schema::Structured, Schema::Flat] {
        let document = write_data(Some("Part"), &part(), schema);
        let read = snapshot_document(&document, "src").unwrap();
        assert_eq!(read.class, "Part");
        assert!(read.properties.same(&part()));
        let again = write_data(Some("Part"), &read.properties, schema_of(&document));
        assert!(snapshot_document(&again, "src").unwrap().same(&read));
    }
}

#[test]
fn data_round_trip_without_a_class() {
    let mut properties = Properties::new();
    properties.insert(String::from("Name"), Variant::String(String::from("Shared")));
    for schema in [Schema::Structured, Schema::Flat] {
        let document = write_data(None, &properties, schema);
        let read = snapshot_document(&document, "ReplicatedStorage").unwrap();
        assert_eq!(read.class, "ReplicatedStorage");
        assert!(read.properties.same(&properties));
        let read = snapshot_document(&document, "src").unwrap();
        assert_eq!(read.class, "Folder");
        assert!(read.properties.same(&properties));
    }
}

#[test]
fn a_patched_property_is_written_into_the_data_file() {
    let mut properties = Properties::new();
    properties.insert(String::from("Transparency"), Variant::Float32(0.5f64.to_bits()));
    let document = write_data(None, &properties, Schema::Structured);
    assert_eq!(keys(&document), vec!["properties"]);
    let inner = document.get("properties").unwrap();
    assert_eq!(keys(inner), vec!["Transparency"]);
    assert!(matches!(inner.get("Transparency"), Some(Json::Number(Number { integer: None, double: Some(bits) })) if *bits == 0.5f64.to_bits()));
}

#[test]
fn siblings_of_the_same_name_and_class() {
    let leaf = |name: &str, class: &str| Snapshot::new().with_name(name).with_class(class);
    assert!(is_distinct(&leaf("a", "Part")));
    assert!(is_distinct(&leaf("src", "Folder").with_children(vec![leaf("a", "Part"), leaf("a", "Model"), leaf("b", "Part")])));
    assert!(!is_distinct(&leaf("src", "Folder").with_children(vec![leaf("a", "Part"), leaf("b", "Part"), leaf("a", "Part")])));
    let deep = leaf("src", "Folder").with_children(vec![leaf("x", "Folder").with_children(vec![leaf("a", "Part"), leaf("a", "Part")])]);
    assert!(!is_distinct(&deep));
}

#[test]
fn reconciling_makes_all_changes_between_distinct_trees() {
    let leaf = |name: &str, class: &str| Snapshot::new().with_name(name).with_class(class);
    let start = leaf("src", "Folder").with_children(vec![leaf("a", "Part"), leaf("b", "Part")]);
    let fresh = leaf("src", "Folder").with_children(vec![leaf("b", "Part"), leaf("c", "Part"), leaf("d", "Part")]);
    let mut engine = Core::new(Project::new("game", "src"), &start).unwrap();
    assert_eq!(engine.reconcile(Ref(0), &fresh), Ok(3));
    let result = engine.snapshot();
    let names: Vec<&str> = result.children.iter().map(|child| child.name.as_str()).collect();
    assert_eq!(names, vec!["b", "c", "d"]);
    assert!(is_distinct(&result));
}

#[test]
fn a_data_file_beside_an_instance_gives_it_its_properties() {
    let mut own = Properties::new();
    own.insert(String::from("Source"), Variant::String(String::from("return 1")));
    own.insert(String::from("Disabled"), Variant::Bool(false));
    let script = Snapshot::new().with_name("foo").with_class("ModuleScript").with_properties(own).with_paths(vec![String::from("src/foo.luau")]);
    let mut given = Properties::new();
    given.insert(String::from("Disabled"), Variant::Bool(true));
    given.insert(String::from("Archivable"), Variant::Bool(false));
    let data = Snapshot::new().with_name("foo").with_class("Folder").with_properties(given).with_paths(vec![String::from("src/foo.meta.json")]);
    let merged = with_data(script.duplicate(), data.duplicate());
    assert_eq!(merged.name, "foo");
    assert_eq!(merged.class, "ModuleScript");
    assert_eq!(merged.properties.len(), 3);
    assert!(matches!(merged.properties.get("Disabled"), Some(Variant::Bool(false))));
    assert!(matches!(merged.properties.get("Archivable"), Some(Variant::Bool(false))));
    assert!(matches!(merged.properties.get("Source"), Some(Variant::String(text)) if text == "return 1"));
    assert_eq!(merged.paths, vec![String::from("src/foo.luau"), String::from("src/foo.meta.json")]);
    let other = Snapshot::new().with_name("bar").with_class("Part");
    let all = attach(vec![other.duplicate(), script.duplicate(), script.duplicate()], data.duplicate());
    assert_eq!(all.len(), 3);
    assert!(all[0].same(&other));
    assert!(all[1].same(&merged));
    assert!(all[2].same(&script));
    let alone = attach(vec![other.duplicate()], data.duplicate());
    assert_eq!(alone.len(), 2);
    assert!(alone[0].same(&other));
    assert!(alone[1].same(&data));
    assert_eq!(attach(vec![], data.duplicate()).len(), 1);
}
