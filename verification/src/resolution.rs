//! Type resolution: from a JSON value to the typed value that the reflection
//! database expects of a property.

use vstd::prelude::*;
use rbx_dom_weak::types::VariantType;
use rbx_reflection::DataType;
use crate::json::{Json, JsonView};
use crate::value::{Variant, VariantView};

verus! {

/// The mathematical value of a [`PropertyType`].
pub enum PropertyTypeView {
    String,
    Bool,
    Int32,
    Int64,
    Float32,
    Float64,
    Tags,
    Enum(Seq<char>),
    Other(Seq<char>),
}

/// The type that the reflection database gives to a property.
#[derive(Debug)]
pub enum PropertyType {
    String,
    Bool,
    Int32,
    Int64,
    Float32,
    Float64,
    Tags,
    /// An item of the enum of the given name.
    Enum(String),
    /// Another type, of the given name, whose values are carried as they
    /// are written.
    Other(String),
}

impl View for PropertyType {
    type V = PropertyTypeView;

    open spec fn view(&self) -> PropertyTypeView {
        match self {
            PropertyType::String => PropertyTypeView::String,
            PropertyType::Bool => PropertyTypeView::Bool,
            PropertyType::Int32 => PropertyTypeView::Int32,
            PropertyType::Int64 => PropertyTypeView::Int64,
            PropertyType::Float32 => PropertyTypeView::Float32,
            PropertyType::Float64 => PropertyTypeView::Float64,
            PropertyType::Tags => PropertyTypeView::Tags,
            PropertyType::Enum(name) => PropertyTypeView::Enum(name@),
            PropertyType::Other(name) => PropertyTypeView::Other(name@),
        }
    }
}

/// Why a value could not be resolved.
#[derive(Debug, Clone, Copy, PartialEq, Eq, Structural)]
pub enum PropertyResolution {
    /// Neither the class nor a class above it has the property.
    UnknownProperty,
    /// The value does not fit the type of the property.
    Mismatch,
}

/// The type that the class `class` itself gives to `property` in the
/// database that `rbx_reflection_database` bundles; nothing where the
/// database has no such class, or the class no such property.
pub uninterp spec fn reflected_type(class: Seq<char>, property: Seq<char>) -> Option<PropertyTypeView>;

/// The class that `class` descends from in the bundled database; nothing
/// where the database has no such class, or the class descends from none.
pub uninterp spec fn reflected_superclass(class: Seq<char>) -> Option<Seq<char>>;

/// The number of the item `item` of the enum `enumeration` in the bundled
/// database; nothing where the database has no such enum or item.
pub uninterp spec fn reflected_item(enumeration: Seq<char>, item: Seq<char>) -> Option<u32>;

/// The `data_type` of the descriptor that the database of
/// `rbx_reflection_database::get` holds for `property` under `class`, as a
/// `PropertyType`, a type without a variant of its own by the name that its
/// `Debug` form gives; `None` where it holds no such class or property.
#[verifier::external_body]
fn property_type(class: &str, property: &str) -> (found: Option<PropertyType>)
    ensures
        match found {
            Some(kind) => reflected_type(class@, property@) == Some(kind@),
            None => reflected_type(class@, property@) is None,
        },
{
    let descriptor = rbx_reflection_database::get().classes.get(class)?.properties.get(property)?;
    Some(match &descriptor.data_type {
        DataType::Enum(name) => PropertyType::Enum(name.to_string()),
        DataType::Value(VariantType::String) => PropertyType::String,
        DataType::Value(VariantType::Bool) => PropertyType::Bool,
        DataType::Value(VariantType::Int32) => PropertyType::Int32,
        DataType::Value(VariantType::Int64) => PropertyType::Int64,
        DataType::Value(VariantType::Float32) => PropertyType::Float32,
        DataType::Value(VariantType::Float64) => PropertyType::Float64,
        DataType::Value(VariantType::Tags) => PropertyType::Tags,
        DataType::Value(other) => PropertyType::Other(format!("{:?}", other)),
        _ => PropertyType::Other(String::new()),
    })
}

/// The `superclass` of the descriptor that the database of
/// `rbx_reflection_database::get` holds for `class`.
#[verifier::external_body]
fn superclass(class: &str) -> (above: Option<String>)
    ensures
        match above {
            Some(name) => reflected_superclass(class@) == Some(name@),
            None => reflected_superclass(class@) is None,
        },
{
    rbx_reflection_database::get().classes.get(class)?.superclass.as_ref().map(|name| name.to_string())
}

/// The value that the database of `rbx_reflection_database::get` holds for
/// the item `item` of the enum `enumeration`.
#[verifier::external_body]
fn enum_item(enumeration: &str, item: &str) -> (value: Option<u32>)
    ensures
        value == reflected_item(enumeration@, item@),
{
    rbx_reflection_database::get().enums.get(enumeration)?.items.get(item).copied()
}

/// How many classes above a class are searched for a property.
pub const SEARCH_DEPTH: usize = 64;

/// The type of `property` on `class`: the type that the class gives it, or
/// else the type on the class above, up to `depth` classes above.
pub open spec fn expected_type(class: Seq<char>, property: Seq<char>, depth: nat) -> Option<
    PropertyTypeView,
>
    decreases depth,
{
    match reflected_type(class, property) {
        Some(kind) => Some(kind),
        None => if depth == 0 {
            None
        } else {
            match reflected_superclass(class) {
                Some(above) => expected_type(above, property, (depth - 1) as nat),
                None => None,
            }
        },
    }
}

/// The strings of a list of JSON values, if all of them are strings.
pub open spec fn strings_of(items: Seq<JsonView>) -> Option<Seq<Seq<char>>> {
    if forall|i: int| 0 <= i < items.len() ==> #[trigger] items[i] is String {
        Some(Seq::new(items.len(), |i: int| items[i]->String_0))
    } else {
        None
    }
}

/// The typed value that a JSON value gives for a property of the type
/// `expected`: a string for a string, a boolean for a boolean, an integer
/// that fits for an integer, a number for a float, a list of strings for
/// tags, for an enum the name of an item or its number, and for any other
/// type the value as it is, carried with the name of the type.
pub open spec fn coerced(expected: PropertyTypeView, value: JsonView) -> Option<VariantView> {
    match (expected, value) {
        (PropertyTypeView::String, JsonView::String(text)) => Some(VariantView::String(text)),
        (PropertyTypeView::Bool, JsonView::Bool(b)) => Some(VariantView::Bool(b)),
        (PropertyTypeView::Enum(name), JsonView::String(item)) => match reflected_item(name, item) {
            Some(number) => Some(VariantView::Enum(number)),
            None => None,
        },
        (PropertyTypeView::Enum(_), JsonView::Number(n)) => match n.integer {
            Some(i) => if 0 <= i <= u32::MAX {
                Some(VariantView::Enum(i as u32))
            } else {
                None
            },
            None => None,
        },
        (PropertyTypeView::Int32, JsonView::Number(n)) => match n.integer {
            Some(i) => if i32::MIN <= i <= i32::MAX {
                Some(VariantView::Int32(i as i32))
            } else {
                None
            },
            None => None,
        },
        (PropertyTypeView::Int64, JsonView::Number(n)) => match n.integer {
            Some(i) => Some(VariantView::Int64(i)),
            None => None,
        },
        (PropertyTypeView::Float32, JsonView::Number(n)) => match n.double {
            Some(bits) => Some(VariantView::Float32(bits)),
            None => None,
        },
        (PropertyTypeView::Float64, JsonView::Number(n)) => match n.double {
            Some(bits) => Some(VariantView::Float64(bits)),
            None => None,
        },
        (PropertyTypeView::Tags, JsonView::Array(items)) => match strings_of(items) {
            Some(tags) => Some(VariantView::Tags(tags)),
            None => None,
        },
        (PropertyTypeView::Other(kind), value) => Some(VariantView::Other { kind, value }),
        _ => None,
    }
}

/// The typed value of `value` as the property `property` of the class `class`.
pub open spec fn resolved(class: Seq<char>, property: Seq<char>, value: JsonView) -> Option<VariantView> {
    match expected_type(class, property, SEARCH_DEPTH as nat) {
        Some(kind) => coerced(kind, value),
        None => None,
    }
}

/// The type of `property` on `class` or on one of the classes above it.
pub fn find_type(class: &str, property: &str) -> (found: Option<PropertyType>)
    ensures
        match found {
            Some(kind) => expected_type(class@, property@, SEARCH_DEPTH as nat) == Some(kind@),
            None => expected_type(class@, property@, SEARCH_DEPTH as nat) is None,
        },
{
    let mut current: String = class.to_owned();
    let mut depth: usize = SEARCH_DEPTH;
    loop
        invariant
            depth <= SEARCH_DEPTH,
            expected_type(class@, property@, SEARCH_DEPTH as nat) == expected_type(
                current@,
                property@,
                depth as nat,
            ),
        decreases depth,
    {
        match property_type(current.as_str(), property) {
            Some(kind) => {
                return Some(kind);
            },
            None => {},
        }
        if depth == 0 {
            return None;
        }
        match superclass(current.as_str()) {
            Some(above) => {
                current = above;
                depth -= 1;
            },
            None => {
                return None;
            },
        }
    }
}

/// The strings of a list of JSON values, if all of them are strings.
pub(crate) fn strings(items: &Vec<Json>) -> (list: Option<Vec<String>>)
    ensures
        match list {
            Some(tags) => strings_of(Seq::new(items@.len(), |i: int| items@[i]@)) == Some(
                tags.deep_view(),
            ),
            None => strings_of(Seq::new(items@.len(), |i: int| items@[i]@)) is None,
        },
{
    let ghost views = Seq::new(items@.len(), |i: int| items@[i]@);
    let mut list: Vec<String> = Vec::new();
    let mut i: usize = 0;
    while i < items.len()
        invariant
            i <= items@.len(),
            views == Seq::new(items@.len(), |i: int| items@[i]@),
            list@.len() == i,
            forall|j: int| 0 <= j < i ==> #[trigger] views[j] == JsonView::String(list@[j]@),
        decreases items@.len() - i,
    {
        match &items[i] {
            Json::String(text) => {
                list.push(text.clone());
            },
            _ => {
                assert(!(views[i as int] is String));
                return None;
            },
        }
        i += 1;
    }
    proof {
        assert(strings_of(views)->0 =~= list.deep_view());
    }
    Some(list)
}

/// The typed value that `value` gives for a property of the type `expected`.
pub fn coerce(expected: &PropertyType, value: &Json) -> (typed: Option<Variant>)
    ensures
        match typed {
            Some(variant) => coerced(expected@, value@) == Some(variant@),
            None => coerced(expected@, value@) is None,
        },
{
    proof {
        value.lemma_view();
    }
    match (expected, value) {
        (PropertyType::String, Json::String(text)) => Some(Variant::String(text.clone())),
        (PropertyType::Bool, Json::Bool(b)) => Some(Variant::Bool(*b)),
        (PropertyType::Enum(name), Json::String(item)) => match enum_item(name.as_str(), item.as_str()) {
            Some(number) => Some(Variant::Enum(number)),
            None => None,
        },
        (PropertyType::Enum(_), Json::Number(n)) => match n.integer {
            Some(i) => if 0 <= i && i <= 0xffff_ffff {
                Some(Variant::Enum(i as u32))
            } else {
                None
            },
            None => None,
        },
        (PropertyType::Int32, Json::Number(n)) => match n.integer {
            Some(i) => if -0x8000_0000 <= i && i <= 0x7fff_ffff {
                Some(Variant::Int32(i as i32))
            } else {
                None
            },
            None => None,
        },
        (PropertyType::Int64, Json::Number(n)) => match n.integer {
            Some(i) => Some(Variant::Int64(i)),
            None => None,
        },
        (PropertyType::Float32, Json::Number(n)) => match n.double {
            Some(bits) => Some(Variant::Float32(bits)),
            None => None,
        },
        (PropertyType::Float64, Json::Number(n)) => match n.double {
            Some(bits) => Some(Variant::Float64(bits)),
            None => None,
        },
        (PropertyType::Tags, Json::Array(items)) => match strings(items) {
            Some(tags) => Some(Variant::Tags(tags)),
            None => None,
        },
        (PropertyType::Other(kind), value) => Some(
            Variant::Other { kind: kind.clone(), value: value.duplicate() },
        ),
        _ => None,
    }
}

/// The typed value of `value` as the property `property` of the class
/// `class`, or why it has none.
pub fn resolve(class: &str, property: &str, value: &Json) -> (typed: Result<Variant, PropertyResolution>)
    ensures
        match typed {
            Ok(variant) => resolved(class@, property@, value@) == Some(variant@),
            Err(PropertyResolution::UnknownProperty) => expected_type(
                class@,
                property@,
                SEARCH_DEPTH as nat,
            ) is None,
            Err(PropertyResolution::Mismatch) => expected_type(class@, property@, SEARCH_DEPTH as nat)
                is Some && resolved(class@, property@, value@) is None,
        },
{
    match find_type(class, property) {
        Some(kind) => match coerce(&kind, value) {
            Some(variant) => Ok(variant),
            None => Err(PropertyResolution::Mismatch),
        },
        None => Err(PropertyResolution::UnknownProperty),
    }
}

} // verus!
