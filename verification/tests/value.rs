use argon::changes::PropertyDelta;
use argon::value::{Properties, Variant};

fn text(value: &str) -> Variant {
    Variant::String(String::from(value))
}

fn is_text(found: Option<&Variant>, expected: &str) -> bool {
    matches!(found, Some(Variant::String(s)) if s == expected)
}

#[test]
fn variants_equal_by_type_and_data() {
    assert!(text("a").same(&text("a")));
    assert!(!text("a").same(&text("b")));
    assert!(Variant::Bool(true).same(&Variant::Bool(true)));
    assert!(!Variant::Bool(true).same(&Variant::Bool(false)));
    assert!(Variant::Enum(2).same(&Variant::Enum(2)));
    assert!(!Variant::Enum(2).same(&Variant::Int32(2)));
    assert!(!Variant::Int32(2).same(&Variant::Int64(2)));
    assert!(!Variant::Float32(1).same(&Variant::Float64(1)));
    assert!(Variant::Float64(0.5f64.to_bits()).same(&Variant::Float64(0.5f64.to_bits())));
    let tags = Variant::Tags(vec![String::from("a"), String::from("b")]);
    assert!(tags.same(&Variant::Tags(vec![String::from("a"), String::from("b")])));
    assert!(!tags.same(&Variant::Tags(vec![String::from("b"), String::from("a")])));
    assert!(!tags.same(&Variant::Tags(vec![String::from("a")])));
}

#[test]
fn variant_copy_is_equal() {
    let values = vec![
        text("abc"),
        Variant::Bool(false),
        Variant::Enum(7),
        Variant::Int32(-3),
        Variant::Int64(1 << 40),
        Variant::Float32(1.5f64.to_bits()),
        Variant::Float64(2.25f64.to_bits()),
        Variant::Tags(vec![String::from("x")]),
    ];
    for value in &values {
        assert!(value.duplicate().same(value));
    }
}

#[test]
fn properties_insert_get_and_replace() {
    let mut properties = Properties::new();
    assert_eq!(properties.len(), 0);
    assert!(properties.insert(String::from("Name"), text("a")).is_none());
    assert!(properties.insert(String::from("Other"), Variant::Bool(true)).is_none());
    assert_eq!(properties.len(), 2);
    assert!(is_text(properties.get("Name"), "a"));
    let before = properties.insert(String::from("Name"), text("b"));
    assert!(is_text(before.as_ref(), "a"));
    assert_eq!(properties.len(), 2);
    assert!(is_text(properties.get("Name"), "b"));
    assert!(properties.get("Missing").is_none());
    assert!(properties.contains_key("Other"));
    assert!(!properties.contains_key("other"));
    assert_eq!(properties.name_at(0), "Name");
    assert_eq!(properties.name_at(1), "Other");
    assert!(properties.value_at(1).same(&Variant::Bool(true)));
}

#[test]
fn properties_remove() {
    let mut properties = Properties::new();
    properties.insert(String::from("A"), Variant::Enum(1));
    properties.insert(String::from("B"), Variant::Enum(2));
    properties.insert(String::from("C"), Variant::Enum(3));
    let removed = properties.remove("B");
    assert!(matches!(removed, Some(Variant::Enum(2))));
    assert!(properties.remove("B").is_none());
    assert_eq!(properties.len(), 2);
    assert!(matches!(properties.get("A"), Some(Variant::Enum(1))));
    assert!(matches!(properties.get("C"), Some(Variant::Enum(3))));
    assert!(properties.get("B").is_none());
}

#[test]
fn properties_equal_whatever_the_order() {
    let mut first = Properties::new();
    first.insert(String::from("A"), Variant::Enum(1));
    first.insert(String::from("B"), text("x"));
    let mut second = Properties::new();
    second.insert(String::from("B"), text("x"));
    second.insert(String::from("A"), Variant::Enum(1));
    assert!(first.same(&second));
    assert!(second.same(&first));
    second.insert(String::from("A"), Variant::Enum(2));
    assert!(!first.same(&second));
    second.insert(String::from("A"), Variant::Enum(1));
    second.insert(String::from("C"), Variant::Bool(true));
    assert!(!first.same(&second));
    assert!(!second.same(&first));
    assert!(first.duplicate().same(&first));
}

#[test]
fn delta_between_maps() {
    let mut before = Properties::new();
    before.insert(String::from("Kept"), Variant::Enum(1));
    before.insert(String::from("Changed"), Variant::Enum(2));
    before.insert(String::from("Gone"), Variant::Enum(3));
    let mut after = Properties::new();
    after.insert(String::from("Kept"), Variant::Enum(1));
    after.insert(String::from("Changed"), Variant::Enum(20));
    after.insert(String::from("New"), Variant::Bool(true));
    let delta = PropertyDelta::between(&before, &after);
    assert!(!delta.is_empty());
    assert_eq!(delta.set.len(), 2);
    assert!(matches!(delta.set.get("Changed"), Some(Variant::Enum(20))));
    assert!(matches!(delta.set.get("New"), Some(Variant::Bool(true))));
    assert!(delta.set.get("Kept").is_none());
    assert_eq!(delta.removed, vec![String::from("Gone")]);
}

#[test]
fn delta_between_equal_maps_is_empty() {
    let mut before = Properties::new();
    before.insert(String::from("A"), Variant::Enum(1));
    let mut after = Properties::new();
    after.insert(String::from("A"), Variant::Enum(1));
    assert!(PropertyDelta::between(&before, &after).is_empty());
    assert!(PropertyDelta::new().is_empty());
    assert!(PropertyDelta::between(&Properties::new(), &Properties::new()).is_empty());
}

#[test]
fn applying_the_delta_gives_the_second_map() {
    let mut before = Properties::new();
    before.insert(String::from("Kept"), Variant::Enum(1));
    before.insert(String::from("Changed"), text("old"));
    before.insert(String::from("Gone"), Variant::Enum(3));
    let mut after = Properties::new();
    after.insert(String::from("Changed"), text("new"));
    after.insert(String::from("Kept"), Variant::Enum(1));
    after.insert(String::from("New"), Variant::Float32(0.5f64.to_bits()));
    let delta = PropertyDelta::between(&before, &after);
    let mut applied = before.duplicate();
    applied.apply(&delta);
    assert!(applied.same(&after));
    assert!(!applied.same(&before));
}

#[test]
fn a_name_that_is_set_and_removed_is_set() {
    let mut properties = Properties::new();
    properties.insert(String::from("A"), Variant::Enum(1));
    let mut delta = PropertyDelta::new();
    delta.set.insert(String::from("A"), Variant::Enum(2));
    delta.removed.push(String::from("A"));
    delta.removed.push(String::from("Missing"));
    properties.apply(&delta);
    assert_eq!(properties.len(), 1);
    assert!(matches!(properties.get("A"), Some(Variant::Enum(2))));
    assert!(delta.duplicate().set.same(&delta.set));
}
