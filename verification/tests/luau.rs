use argon::meta::Context;
use argon::middleware::luau::{read_luau, write_luau, ScriptType};
use argon::middleware::Middleware;
use argon::snapshot::Snapshot;
use argon::value::{Properties, Variant};

fn read(legacy: bool, script_type: ScriptType) -> Snapshot {
    read_luau(String::from("print(\"hi\")"), &Context::new(legacy), script_type)
}

fn run_context(snapshot: &Snapshot) -> Option<u32> {
    match snapshot.properties.get("RunContext") {
        Some(Variant::Enum(item)) => Some(*item),
        Some(_) => panic!("run context is no enum"),
        None => None,
    }
}

fn source(snapshot: &Snapshot) -> String {
    match snapshot.properties.get("Source") {
        Some(Variant::String(text)) => text.clone(),
        _ => panic!("no source"),
    }
}

#[test]
fn script_types_of_the_script_kinds() {
    assert_eq!(ScriptType::from(Middleware::ServerScript), ScriptType::Server);
    assert_eq!(ScriptType::from(Middleware::ClientScript), ScriptType::Client);
    assert_eq!(ScriptType::from(Middleware::ModuleScript), ScriptType::Module);
    assert_eq!(ScriptType::try_from(Middleware::ServerScript), Some(ScriptType::Server));
    assert_eq!(ScriptType::try_from(Middleware::Dir), None);
    assert_eq!(ScriptType::try_from(Middleware::Data), None);
    assert_eq!(ScriptType::try_from(Middleware::BinaryModel), None);
}

#[test]
fn modern_server_script() {
    let snapshot = read(false, ScriptType::Server);
    assert_eq!(snapshot.class, "Script");
    assert_eq!(run_context(&snapshot), Some(1));
    assert_eq!(source(&snapshot), "print(\"hi\")");
    assert_eq!(snapshot.properties.len(), 2);
    assert_eq!(snapshot.name, "");
    assert!(snapshot.id.is_none());
    assert!(snapshot.children.is_empty());
    assert!(snapshot.paths.is_empty());
}

#[test]
fn modern_client_script() {
    let snapshot = read(false, ScriptType::Client);
    assert_eq!(snapshot.class, "Script");
    assert_eq!(run_context(&snapshot), Some(2));
    assert_eq!(snapshot.properties.len(), 2);
}

#[test]
fn legacy_server_script() {
    let snapshot = read(true, ScriptType::Server);
    assert_eq!(snapshot.class, "Script");
    assert_eq!(run_context(&snapshot), Some(0));
    assert_eq!(snapshot.properties.len(), 2);
}

#[test]
fn legacy_client_script() {
    let snapshot = read(true, ScriptType::Client);
    assert_eq!(snapshot.class, "LocalScript");
    assert_eq!(run_context(&snapshot), None);
    assert_eq!(source(&snapshot), "print(\"hi\")");
    assert_eq!(snapshot.properties.len(), 1);
}

#[test]
fn module_script_under_both_conventions() {
    for legacy in [false, true] {
        let snapshot = read(legacy, ScriptType::Module);
        assert_eq!(snapshot.class, "ModuleScript");
        assert_eq!(run_context(&snapshot), None);
        assert_eq!(source(&snapshot), "print(\"hi\")");
        assert_eq!(snapshot.properties.len(), 1);
    }
}

#[test]
fn writing_back_takes_the_source_out() {
    let mut properties = Properties::new();
    properties.insert(String::from("Source"), Variant::String(String::from("return 1")));
    properties.insert(String::from("Disabled"), Variant::Bool(true));
    let (written, rest) = write_luau(properties);
    assert_eq!(written, Some(String::from("return 1")));
    assert_eq!(rest.len(), 1);
    assert!(matches!(rest.get("Disabled"), Some(Variant::Bool(true))));
    assert!(rest.get("Source").is_none());
}

#[test]
fn writing_back_without_a_source_writes_nothing() {
    let mut properties = Properties::new();
    properties.insert(String::from("Disabled"), Variant::Bool(true));
    let (written, rest) = write_luau(properties);
    assert_eq!(written, None);
    assert_eq!(rest.len(), 1);
}

#[test]
fn a_source_that_is_no_string_is_dropped_and_not_written() {
    let mut properties = Properties::new();
    properties.insert(String::from("Source"), Variant::Bool(true));
    let (written, rest) = write_luau(properties);
    assert_eq!(written, None);
    assert_eq!(rest.len(), 0);
}

#[test]
fn script_round_trip() {
    for legacy in [false, true] {
        for script_type in [ScriptType::Server, ScriptType::Client, ScriptType::Module] {
            let context = Context::new(legacy);
            let first = read_luau(String::from("local x = 1\n"), &context, script_type);
            let (written, rest) = write_luau(first.properties.duplicate());
            assert_eq!(written, Some(String::from("local x = 1\n")));
            assert!(rest.get("Source").is_none());
            assert_eq!(rest.len(), first.properties.len() - 1);
            let second = read_luau(written.unwrap(), &context, script_type);
            assert!(second.same(&first));
        }
    }
}
