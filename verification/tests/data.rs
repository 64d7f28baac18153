use argon::json::{Json, Member, Number};
use argon::middleware::data::{snapshot_data, snapshot_document, DataError};
use argon::resolution::{coerce, find_type, resolve, PropertyResolution, PropertyType};
use argon::value::Variant;

#[test]
fn flat_schema_with_class_and_properties() {
    let text = r#"{"ClassName": "Part", "Anchored": true, "Transparency": 0.5, "Name": "Floor"}"#;
    let snapshot = snapshot_data(text, "src").unwrap();
    assert_eq!(snapshot.class, "Part");
    assert_eq!(snapshot.name, "");
    assert!(snapshot.id.is_none());
    assert!(snapshot.children.is_empty());
    assert!(matches!(snapshot.properties.get("Anchored"), Some(Variant::Bool(true))));
    assert!(
        matches!(snapshot.properties.get("Transparency"), Some(Variant::Float32(bits)) if *bits == 0.5f64.to_bits())
    );
    assert!(matches!(snapshot.properties.get("Name"), Some(Variant::String(name)) if name == "Floor"));
    assert!(snapshot.properties.get("ClassName").is_none());
    assert_eq!(snapshot.properties.len(), 3);
}

#[test]
fn structured_schema_with_class_properties_and_tags() {
    let text = r#"{
        "className": "Part",
        "properties": {"Anchored": false, "Material": "Plastic"},
        "tags": ["a", "b"],
        "ignoreUnknownInstances": true
    }"#;
    let snapshot = snapshot_data(text, "src").unwrap();
    assert_eq!(snapshot.class, "Part");
    assert!(matches!(snapshot.properties.get("Anchored"), Some(Variant::Bool(false))));
    assert!(matches!(snapshot.properties.get("Material"), Some(Variant::Enum(256))));
    assert!(
        matches!(snapshot.properties.get("Tags"), Some(Variant::Tags(tags)) if tags == &vec![String::from("a"), String::from("b")])
    );
    assert_eq!(snapshot.properties.len(), 3);
}

#[test]
fn structured_schema_reads_only_the_properties_member() {
    let text = r#"{"properties": {"Anchored": true}, "Transparency": 1}"#;
    let snapshot = snapshot_data(text, "src").unwrap();
    assert_eq!(snapshot.class, "Folder");
    assert_eq!(snapshot.properties.len(), 0);
    let text = r#"{"className": "Part", "properties": {"Anchored": true}, "Transparency": 1}"#;
    let snapshot = snapshot_data(text, "src").unwrap();
    assert_eq!(snapshot.properties.len(), 1);
    assert!(snapshot.properties.get("Transparency").is_none());
}

#[test]
fn class_defaults_to_folder() {
    let snapshot = snapshot_data("{}", "src").unwrap();
    assert_eq!(snapshot.class, "Folder");
    assert_eq!(snapshot.properties.len(), 0);
}

#[test]
fn class_is_the_name_of_a_parent_that_is_a_service() {
    assert_eq!(snapshot_data("{}", "Workspace").unwrap().class, "Workspace");
    assert_eq!(snapshot_data("{}", "ReplicatedStorage").unwrap().class, "ReplicatedStorage");
    assert_eq!(snapshot_data("{}", "StarterPlayerScripts").unwrap().class, "StarterPlayerScripts");
    assert_eq!(snapshot_data("{}", "Part").unwrap().class, "Folder");
}

#[test]
fn the_named_class_goes_before_the_parent() {
    assert_eq!(snapshot_data(r#"{"ClassName": "Model"}"#, "Workspace").unwrap().class, "Model");
    assert_eq!(snapshot_data(r#"{"className": "Model"}"#, "Workspace").unwrap().class, "Model");
    let both = r#"{"ClassName": "Part", "className": "Model"}"#;
    assert_eq!(snapshot_data(both, "Workspace").unwrap().class, "Part");
}

#[test]
fn a_text_that_is_no_json_is_refused() {
    assert_eq!(snapshot_data("{", "src").err(), Some(DataError::InvalidJson));
    assert_eq!(snapshot_data("", "src").err(), Some(DataError::InvalidJson));
    assert_eq!(snapshot_data("{\"a\": }", "src").err(), Some(DataError::InvalidJson));
}

#[test]
fn a_class_name_that_is_no_string_is_refused() {
    assert_eq!(snapshot_data(r#"{"ClassName": 5}"#, "src").err(), Some(DataError::ClassName));
    assert_eq!(snapshot_data(r#"{"className": ["Part"]}"#, "src").err(), Some(DataError::ClassName));
    assert_eq!(snapshot_data(r#"{"ClassName": null}"#, "src").err(), Some(DataError::ClassName));
}

#[test]
fn a_document_of_another_form_is_refused() {
    assert_eq!(snapshot_data("[1, 2]", "src").err(), Some(DataError::Malformed));
    assert_eq!(snapshot_data("3", "src").err(), Some(DataError::Malformed));
    assert_eq!(snapshot_data(r#"{"properties": 3}"#, "src").err(), Some(DataError::Malformed));
    assert_eq!(snapshot_data(r#"{"properties": {}, "tags": "a"}"#, "src").err(), Some(DataError::Malformed));
    assert_eq!(snapshot_data(r#"{"properties": {}, "tags": ["a", 1]}"#, "src").err(), Some(DataError::Malformed));
}

#[test]
fn null_members_count_as_absent() {
    let text = r#"{"className": "Part", "properties": null, "tags": null, "attributes": null}"#;
    let snapshot = snapshot_data(text, "src").unwrap();
    assert_eq!(snapshot.class, "Part");
    assert_eq!(snapshot.properties.len(), 0);
}

#[test]
fn values_that_do_not_resolve_are_dropped() {
    let text = r#"{"ClassName": "Part", "Anchored": "yes", "NoSuchProperty": 1, "Transparency": 0.25}"#;
    let snapshot = snapshot_data(text, "src").unwrap();
    assert_eq!(snapshot.properties.len(), 1);
    assert!(
        matches!(snapshot.properties.get("Transparency"), Some(Variant::Float32(bits)) if *bits == 0.25f64.to_bits())
    );
}

#[test]
fn a_document_built_by_hand() {
    let document = Json::Object(vec![
        Member { key: String::from("ClassName"), value: Json::String(String::from("Part")) },
        Member { key: String::from("Anchored"), value: Json::Bool(true) },
        Member { key: String::from("Anchored"), value: Json::Bool(false) },
    ]);
    let snapshot = snapshot_document(&document, "src").unwrap();
    assert_eq!(snapshot.class, "Part");
    assert_eq!(snapshot.properties.len(), 1);
    assert!(matches!(snapshot.properties.get("Anchored"), Some(Variant::Bool(false))));
    assert!(matches!(document.get("Anchored"), Some(Json::Bool(true))));
    assert!(document.get("Missing").is_none());
    assert!(Json::Null.get("Anchored").is_none());
}

#[test]
fn types_are_found_on_the_class_and_above_it() {
    assert!(matches!(find_type("Part", "Anchored"), Some(PropertyType::Bool)));
    assert!(matches!(find_type("Part", "Transparency"), Some(PropertyType::Float32)));
    assert!(matches!(find_type("Part", "Name"), Some(PropertyType::String)));
    assert!(matches!(find_type("Part", "Material"), Some(PropertyType::Enum(name)) if name == "Material"));
    assert!(matches!(find_type("Instance", "Name"), Some(PropertyType::String)));
    assert!(find_type("Instance", "Anchored").is_none());
    assert!(find_type("Part", "NoSuchProperty").is_none());
    assert!(find_type("NoSuchClass", "Name").is_none());
}

#[test]
fn resolution_of_values() {
    let number = |integer: Option<i64>, double: f64| Json::Number(Number { integer, double: Some(double.to_bits()) });
    assert!(matches!(resolve("Part", "Anchored", &Json::Bool(true)), Ok(Variant::Bool(true))));
    assert!(matches!(resolve("Part", "Material", &Json::String(String::from("Plastic"))), Ok(Variant::Enum(256))));
    assert!(matches!(resolve("Part", "Material", &number(Some(256), 256.0)), Ok(Variant::Enum(256))));
    assert_eq!(
        resolve("Part", "Material", &Json::String(String::from("NoSuchItem"))).err(),
        Some(PropertyResolution::Mismatch)
    );
    assert_eq!(resolve("Part", "Material", &number(Some(-1), -1.0)).err(), Some(PropertyResolution::Mismatch));
    assert_eq!(resolve("Part", "Anchored", &Json::Null).err(), Some(PropertyResolution::Mismatch));
    assert_eq!(resolve("Part", "Nope", &Json::Bool(true)).err(), Some(PropertyResolution::UnknownProperty));
    assert_eq!(resolve("Nope", "Anchored", &Json::Bool(true)).err(), Some(PropertyResolution::UnknownProperty));
}

#[test]
fn coercion_by_expected_type() {
    let number = |integer: Option<i64>, double: f64| Json::Number(Number { integer, double: Some(double.to_bits()) });
    assert!(matches!(coerce(&PropertyType::Int32, &number(Some(-7), -7.0)), Some(Variant::Int32(-7))));
    assert!(coerce(&PropertyType::Int32, &number(Some(1 << 31), 2147483648.0)).is_none());
    assert!(matches!(coerce(&PropertyType::Int32, &number(Some(i32::MAX as i64), 2147483647.0)), Some(Variant::Int32(i32::MAX))));
    assert!(matches!(coerce(&PropertyType::Int32, &number(Some(i32::MIN as i64), -2147483648.0)), Some(Variant::Int32(i32::MIN))));
    assert!(coerce(&PropertyType::Int32, &number(None, 1.5)).is_none());
    assert!(matches!(coerce(&PropertyType::Int64, &number(Some(1 << 40), 1099511627776.0)), Some(Variant::Int64(n)) if n == 1 << 40));
    assert!(matches!(coerce(&PropertyType::Float64, &number(None, 1.5)), Some(Variant::Float64(bits)) if bits == 1.5f64.to_bits()));
    assert!(matches!(coerce(&PropertyType::Float32, &number(Some(2), 2.0)), Some(Variant::Float32(bits)) if bits == 2.0f64.to_bits()));
    assert!(matches!(coerce(&PropertyType::String, &Json::String(String::from("x"))), Some(Variant::String(s)) if s == "x"));
    assert!(coerce(&PropertyType::String, &Json::Bool(true)).is_none());
    assert!(coerce(&PropertyType::Bool, &Json::String(String::from("true"))).is_none());
    assert!(matches!(
        coerce(&PropertyType::Other(String::from("Vector3")), &Json::Bool(true)),
        Some(Variant::Other { kind, value: Json::Bool(true) }) if kind == "Vector3"
    ));
    assert!(matches!(coerce(&PropertyType::Enum(String::from("Material")), &number(Some(u32::MAX as i64), 4294967295.0)), Some(Variant::Enum(u32::MAX))));
    assert!(coerce(&PropertyType::Enum(String::from("Material")), &number(Some(1 << 32), 4294967296.0)).is_none());
    let tags = Json::Array(vec![Json::String(String::from("a")), Json::String(String::from("b"))]);
    assert!(matches!(coerce(&PropertyType::Tags, &tags), Some(Variant::Tags(list)) if list == vec![String::from("a"), String::from("b")]));
    let mixed = Json::Array(vec![Json::String(String::from("a")), Json::Null]);
    assert!(coerce(&PropertyType::Tags, &mixed).is_none());
    assert!(matches!(coerce(&PropertyType::Tags, &Json::Array(vec![])), Some(Variant::Tags(list)) if list.is_empty()));
}

#[test]
fn a_document_with_tags_alone_is_of_the_structured_schema() {
    let snapshot = snapshot_data(r#"{"tags": ["a"]}"#, "foo").unwrap();
    assert_eq!(snapshot.class, "Folder");
    assert_eq!(snapshot.properties.len(), 1);
    assert!(matches!(snapshot.properties.get("Tags"), Some(Variant::Tags(tags)) if tags == &vec![String::from("a")]));
    assert_eq!(snapshot_data(r#"{"tags": "a"}"#, "foo").err(), Some(DataError::Malformed));
    assert_eq!(snapshot_data(r#"{"tags": null}"#, "foo").unwrap().properties.len(), 0);
}

#[test]
fn values_of_other_types_are_carried_through() {
    assert!(matches!(find_type("Part", "Size"), Some(PropertyType::Other(kind)) if kind == "Vector3"));
    let text = r#"{"className": "Part", "properties": {"Size": [1, 2, 3]}, "attributes": {"Speed": 5}}"#;
    let snapshot = snapshot_data(text, "src").unwrap();
    assert_eq!(snapshot.properties.len(), 2);
    match snapshot.properties.get("Size") {
        Some(Variant::Other { kind, value: Json::Array(items) }) => {
            assert_eq!(kind, "Vector3");
            assert_eq!(items.len(), 3);
            assert!(matches!(&items[1], Json::Number(Number { integer: Some(2), .. })));
        },
        _ => panic!("size is not carried"),
    }
    match snapshot.properties.get("Attributes") {
        Some(Variant::Other { kind, value }) => {
            assert_eq!(kind, "Attributes");
            assert!(matches!(value.get("Speed"), Some(Json::Number(Number { integer: Some(5), .. }))));
        },
        _ => panic!("attributes are not carried"),
    }
    let size = snapshot.properties.get("Size").unwrap();
    assert!(size.duplicate().same(size));
    assert!(!size.same(snapshot.properties.get("Attributes").unwrap()));
}

#[test]
fn documents_equal_by_value() {
    let object = |key: &str, value: Json| Json::Object(vec![Member { key: String::from(key), value }]);
    let nested = || object("a", Json::Array(vec![Json::Null, Json::Bool(true), Json::String(String::from("x"))]));
    assert!(nested().same(&nested()));
    assert!(nested().duplicate().same(&nested()));
    assert!(!nested().same(&object("b", Json::Array(vec![Json::Null, Json::Bool(true), Json::String(String::from("x"))]))));
    assert!(!nested().same(&object("a", Json::Array(vec![Json::Null, Json::Bool(false), Json::String(String::from("x"))]))));
    assert!(!nested().same(&object("a", Json::Array(vec![Json::Null, Json::Bool(true)]))));
    assert!(!Json::Null.same(&Json::Bool(false)));
    assert!(Json::Array(vec![]).same(&Json::Array(vec![])));
    assert!(!Json::Array(vec![]).same(&Json::Object(vec![])));
}
