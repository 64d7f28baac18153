//! Data files: reading the JSON beside a directory or a script into the
//! class and the properties of an instance.

use vstd::prelude::*;
use crate::json::{from_str, lemma_member_found, member, member_at, parsed, Json, JsonView, Member, Number};
use crate::resolution::{resolve, resolved, strings, strings_of};
use crate::snapshot::{Snapshot, SnapshotView};
use crate::text::str_eq;
use crate::util::{is_service, service_class};
use crate::value::{Properties, Variant, VariantView};

verus! {

/// Why a data file gives no snapshot.
#[derive(Debug, Clone, Copy, PartialEq, Eq, Structural)]
pub enum DataError {
    /// The text is no JSON document.
    InvalidJson,
    /// The class name that the document gives is no string.
    ClassName,
    /// The document has not the form of a data file.
    Malformed,
}

/// The value that a document gives for the class: that of `ClassName`, or
/// else that of `className`.
pub open spec fn class_member(document: JsonView) -> Option<JsonView> {
    match member(document, "ClassName"@) {
        Some(value) => Some(value),
        None => member(document, "className"@),
    }
}

/// The class where the document names none: the name of the parent
/// directory where that is the class of a service, else `Folder`.
pub open spec fn default_class(parent: Seq<char>) -> Seq<char> {
    if service_class(parent) {
        parent
    } else {
        "Folder"@
    }
}

/// Whether the document is of the structured schema: it has one of the keys
/// `className`, `properties`, `attributes`, `tags` and
/// `ignoreUnknownInstances`.
pub open spec fn structured(document: JsonView) -> bool {
    member(document, "className"@) is Some || member(document, "properties"@) is Some || member(
        document,
        "attributes"@,
    ) is Some || member(document, "tags"@) is Some || member(document, "ignoreUnknownInstances"@)
        is Some
}

/// The properties that the first `count` members give: each member whose
/// value resolves for its key sets that property, a later one over an
/// earlier one; the key `skip` is passed over.
pub open spec fn resolved_members(
    class: Seq<char>,
    members: Seq<(Seq<char>, JsonView)>,
    skip: Option<Seq<char>>,
    count: nat,
) -> Map<Seq<char>, VariantView>
    decreases count,
{
    if count == 0 || count > members.len() {
        Map::empty()
    } else {
        let before = resolved_members(class, members, skip, (count - 1) as nat);
        let (key, value) = members[count - 1];
        if skip == Some(key) {
            before
        } else {
            match resolved(class, key, value) {
                Some(typed) => before.insert(key, typed),
                None => before,
            }
        }
    }
}

/// Whether a member is absent or null.
pub open spec fn unset(value: Option<JsonView>) -> bool {
    value is None || value == Some(JsonView::Null)
}

/// The properties of a document of the structured schema: those that the
/// members of `properties` give, then `Attributes` where `attributes`
/// resolves, then `Tags` where `tags` is set. Nothing where `properties` is
/// no object or `tags` is no list of strings.
pub open spec fn structured_properties(class: Seq<char>, document: JsonView) -> Option<
    Map<Seq<char>, VariantView>,
> {
    let properties = member(document, "properties"@);
    let attributes = member(document, "attributes"@);
    let tags = member(document, "tags"@);
    let first = if unset(properties) {
        Some(Map::<Seq<char>, VariantView>::empty())
    } else {
        match properties->0 {
            JsonView::Object(members) => Some(resolved_members(class, members, None, members.len())),
            _ => None,
        }
    };
    let tag_list = if unset(tags) {
        Some(None::<Seq<Seq<char>>>)
    } else {
        match tags->0 {
            JsonView::Array(items) => match strings_of(items) {
                Some(list) => Some(Some(list)),
                None => None,
            },
            _ => None,
        }
    };
    if first is None || tag_list is None {
        None
    } else {
        let second = if unset(attributes) {
            first->0
        } else {
            match resolved(class, "Attributes"@, attributes->0) {
                Some(typed) => first->0.insert("Attributes"@, typed),
                None => first->0,
            }
        };
        match tag_list->0 {
            Some(list) => Some(second.insert("Tags"@, VariantView::Tags(list))),
            None => Some(second),
        }
    }
}

/// The properties of a document of the flat schema: those that its members
/// give, but for `ClassName`. Nothing where the document is no object.
pub open spec fn flat_properties(class: Seq<char>, document: JsonView) -> Option<
    Map<Seq<char>, VariantView>,
> {
    match document {
        JsonView::Object(members) => Some(
            resolved_members(class, members, Some("ClassName"@), members.len()),
        ),
        _ => None,
    }
}

/// The snapshot that a document gives below a parent directory of the given
/// name, or why it gives none.
pub open spec fn document_snapshot(document: JsonView, parent: Seq<char>) -> Result<
    SnapshotView,
    DataError,
> {
    let named = class_member(document);
    if named is Some && !(named->0 is String) {
        Err(DataError::ClassName)
    } else {
        let class = if named is Some {
            named->0->String_0
        } else {
            default_class(parent)
        };
        let properties = if structured(document) {
            structured_properties(class, document)
        } else {
            flat_properties(class, document)
        };
        match properties {
            Some(map) => Ok(
                SnapshotView {
                    id: None,
                    name: Seq::empty(),
                    class,
                    properties: map,
                    children: Seq::empty(),
                    paths: Seq::empty(),
                },
            ),
            None => Err(DataError::Malformed),
        }
    }
}

/// The snapshot that the text of a data file gives, or why it gives none.
pub open spec fn data_snapshot(text: Seq<char>, parent: Seq<char>) -> Result<SnapshotView, DataError> {
    match parsed(text) {
        Some(document) => document_snapshot(document, parent),
        None => Err(DataError::InvalidJson),
    }
}

/// Sets in `properties` what the members give, but for the key `skip`.
fn resolve_members(
    properties: &mut Properties,
    class: &str,
    members: &Vec<Member>,
    skip: Option<&str>,
)
    requires
        old(properties).wf(),
        old(properties)@ == Map::<Seq<char>, VariantView>::empty(),
    ensures
        final(properties).wf(),
        final(properties)@ == resolved_members(
            class@,
            Seq::new(members@.len(), |i: int| (members@[i].key@, members@[i].value@)),
            match skip {
                Some(key) => Some(key@),
                None => None,
            },
            members@.len() as nat,
        ),
{
    let ghost list = Seq::new(members@.len(), |i: int| (members@[i].key@, members@[i].value@));
    let ghost skipped = match skip {
        Some(key) => Some(key@),
        None => None::<Seq<char>>,
    };
    let mut i: usize = 0;
    while i < members.len()
        invariant
            properties.wf(),
            i <= members@.len(),
            list == Seq::new(members@.len(), |i: int| (members@[i].key@, members@[i].value@)),
            skipped == match skip {
                Some(key) => Some(key@),
                None => None::<Seq<char>>,
            },
            properties@ == resolved_members(class@, list, skipped, i as nat),
        decreases members@.len() - i,
    {
        let entry = &members[i];
        assert(list[i as int] == (entry.key@, entry.value@));
        let passed = match skip {
            Some(key) => str_eq(entry.key.as_str(), key),
            None => false,
        };
        if !passed {
            match resolve(class, entry.key.as_str(), &entry.value) {
                Ok(typed) => {
                    properties.insert(entry.key.clone(), typed);
                },
                Err(_) => {},
            }
        }
        i += 1;
    }
}

/// Whether a member is absent or null.
fn is_unset(value: &Option<&Json>) -> (none: bool)
    ensures
        none == unset(
            match value {
                Some(json) => Some(json@),
                None => None,
            },
        ),
{
    match value {
        Some(Json::Null) => true,
        Some(_) => false,
        None => true,
    }
}

/// The snapshot that a document gives below a parent directory of the given
/// name: its class, and the properties that resolve for that class.
pub fn snapshot_document(document: &Json, parent: &str) -> (snapshot: Result<Snapshot, DataError>)
    ensures
        match snapshot {
            Ok(made) => made.wf() && document_snapshot(document@, parent@) == Ok::<
                SnapshotView,
                DataError,
            >(made@),
            Err(error) => document_snapshot(document@, parent@) == Err::<SnapshotView, DataError>(error),
        },
{
    let named = match document.get("ClassName") {
        Some(value) => Some(value),
        None => document.get("className"),
    };
    let class: String = match named {
        Some(Json::String(name)) => name.clone(),
        Some(_) => {
            return Err(DataError::ClassName);
        },
        None => {
            if is_service(parent) {
                parent.to_owned()
            } else {
                "Folder".to_owned()
            }
        },
    };
    let mut properties = Properties::new();
    let is_structured = document.get("className").is_some() || document.get("properties").is_some()
        || document.get("attributes").is_some() || document.get("tags").is_some() || document.get(
        "ignoreUnknownInstances",
    ).is_some();
    if is_structured {
        let tags = document.get("tags");
        let tag_list: Option<Vec<String>> = if is_unset(&tags) {
            None
        } else {
            match tags {
                Some(Json::Array(items)) => {
                    proof {
                        tags->0.lemma_view();
                    }
                    match strings(items) {
                        Some(list) => Some(list),
                        None => {
                            return Err(DataError::Malformed);
                        },
                    }
                },
                _ => {
                    return Err(DataError::Malformed);
                },
            }
        };
        let given = document.get("properties");
        if !is_unset(&given) {
            match given {
                Some(Json::Object(members)) => {
                    proof {
                        given->0.lemma_view();
                    }
                    resolve_members(&mut properties, class.as_str(), members, None);
                },
                _ => {
                    return Err(DataError::Malformed);
                },
            }
        }
        let attributes = document.get("attributes");
        if !is_unset(&attributes) {
            match attributes {
                Some(value) => match resolve(class.as_str(), "Attributes", value) {
                    Ok(typed) => {
                        properties.insert("Attributes".to_owned(), typed);
                    },
                    Err(_) => {},
                },
                None => {},
            }
        }
        match tag_list {
            Some(list) => {
                properties.insert("Tags".to_owned(), Variant::Tags(list));
            },
            None => {},
        }
    } else {
        match document {
            Json::Object(members) => {
                proof {
                    document.lemma_view();
                }
                resolve_members(&mut properties, class.as_str(), members, Some("ClassName"));
            },
            _ => {
                return Err(DataError::Malformed);
            },
        }
    }
    Ok(Snapshot::new().with_class(class.as_str()).with_properties(properties))
}

/// The snapshot that the text of a data file gives below a parent directory
/// of the given name.
pub fn snapshot_data(text: &str, parent: &str) -> (snapshot: Result<Snapshot, DataError>)
    ensures
        match snapshot {
            Ok(made) => made.wf() && data_snapshot(text@, parent@) == Ok::<SnapshotView, DataError>(made@),
            Err(error) => data_snapshot(text@, parent@) == Err::<SnapshotView, DataError>(error),
        },
{
    match from_str(text) {
        Ok(document) => snapshot_document(&document, parent),
        Err(_) => Err(DataError::InvalidJson),
    }
}

/// The two schemas of data files.
#[derive(Debug, Clone, Copy, PartialEq, Eq, Structural)]
pub enum Schema {
    /// The class under `className`, the properties under `properties`.
    Structured,
    /// The class under `ClassName`, the properties beside it.
    Flat,
}

/// The schema of a document.
pub fn schema_of(document: &Json) -> (schema: Schema)
    ensures
        schema == if structured(document@) {
            Schema::Structured
        } else {
            Schema::Flat
        },
{
    if document.get("className").is_some() || document.get("properties").is_some() || document.get(
        "attributes",
    ).is_some() || document.get("tags").is_some() || document.get("ignoreUnknownInstances").is_some() {
        Schema::Structured
    } else {
        Schema::Flat
    }
}

/// The JSON value that a typed value is written as: a string, a boolean, a
/// list of strings, a number, which is an integer for an integer and for
/// the item of an enum, and for a value of another type the JSON that it
/// carries.
pub open spec fn unresolved(value: VariantView) -> JsonView {
    match value {
        VariantView::String(text) => JsonView::String(text),
        VariantView::Bool(b) => JsonView::Bool(b),
        VariantView::Enum(item) => JsonView::Number(Number { integer: Some(item as i64), double: None }),
        VariantView::Int32(n) => JsonView::Number(Number { integer: Some(n as i64), double: None }),
        VariantView::Int64(n) => JsonView::Number(Number { integer: Some(n), double: None }),
        VariantView::Float32(bits) => JsonView::Number(Number { integer: None, double: Some(bits) }),
        VariantView::Float64(bits) => JsonView::Number(Number { integer: None, double: Some(bits) }),
        VariantView::Tags(tags) => JsonView::Array(Seq::new(tags.len(), |i: int| JsonView::String(tags[i]))),
        VariantView::Other { kind, value } => value,
    }
}

/// The members that the properties are written as, in the order of `names`.
pub open spec fn written_members(names: Seq<Seq<char>>, properties: Map<Seq<char>, VariantView>) -> Seq<
    (Seq<char>, JsonView),
> {
    Seq::new(names.len(), |i: int| (names[i], unresolved(properties[names[i]])))
}

/// The member that the class is written as, if a class is written.
pub open spec fn written_class(key: Seq<char>, class: Option<Seq<char>>) -> Seq<(Seq<char>, JsonView)> {
    match class {
        Some(name) => seq![(key, JsonView::String(name))],
        None => Seq::empty(),
    }
}

/// The document that a class and properties are written as in a schema.
pub open spec fn written_document(
    class: Option<Seq<char>>,
    names: Seq<Seq<char>>,
    properties: Map<Seq<char>, VariantView>,
    schema: Schema,
) -> JsonView {
    match schema {
        Schema::Structured => JsonView::Object(
            written_class("className"@, class).push(
                ("properties"@, JsonView::Object(written_members(names, properties))),
            ),
        ),
        Schema::Flat => JsonView::Object(
            written_class("ClassName"@, class) + written_members(names, properties),
        ),
    }
}

/// The JSON value that a typed value is written as.
pub fn unresolve(value: &Variant) -> (json: Json)
    ensures
        json@ == unresolved(value@),
{
    match value {
        Variant::String(text) => Json::String(text.clone()),
        Variant::Bool(b) => Json::Bool(*b),
        Variant::Enum(item) => Json::Number(Number { integer: Some(*item as i64), double: None }),
        Variant::Int32(n) => Json::Number(Number { integer: Some(*n as i64), double: None }),
        Variant::Int64(n) => Json::Number(Number { integer: Some(*n), double: None }),
        Variant::Float32(bits) => Json::Number(Number { integer: None, double: Some(*bits) }),
        Variant::Float64(bits) => Json::Number(Number { integer: None, double: Some(*bits) }),
        Variant::Other { kind, value } => value.duplicate(),
        Variant::Tags(tags) => {
            let mut items: Vec<Json> = Vec::new();
            let mut i: usize = 0;
            while i < tags.len()
                invariant
                    i <= tags@.len(),
                    items@.len() == i,
                    forall|k: int| 0 <= k < i ==> (#[trigger] items@[k])@ == JsonView::String(tags@[k]@),
                decreases tags@.len() - i,
            {
                items.push(Json::String(tags[i].clone()));
                i += 1;
            }
            let json = Json::Array(items);
            proof {
                json.lemma_view();
                assert(json@->Array_0 =~= Seq::new(
                    tags.deep_view().len(),
                    |i: int| JsonView::String(tags.deep_view()[i]),
                ));
            }
            json
        },
    }
}

/// The document that a class, if one is to be named, and properties are
/// written as in a schema, with the properties in the order in which they
/// are stored.
pub fn write_data(class: Option<&str>, properties: &Properties, schema: Schema) -> (document: Json)
    requires
        properties.wf(),
    ensures
        document@ == written_document(
            match class {
                Some(name) => Some(name@),
                None => None,
            },
            properties.names(),
            properties@,
            schema,
        ),
{
    let ghost names = properties.names();
    let ghost wanted = written_members(names, properties@);
    let mut members: Vec<Member> = Vec::new();
    let mut i: usize = 0;
    while i < properties.len()
        invariant
            properties.wf(),
            names == properties.names(),
            wanted == written_members(names, properties@),
            i <= names.len(),
            members@.len() == i,
            forall|k: int| 0 <= k < i ==> ((#[trigger] members@[k]).key@, members@[k].value@) == wanted[k],
        decreases names.len() - i,
    {
        let name = properties.name_at(i);
        let value = properties.value_at(i);
        members.push(Member { key: name.to_owned(), value: unresolve(value) });
        i += 1;
    }
    let ghost class_view = match class {
        Some(name) => Some(name@),
        None => None::<Seq<char>>,
    };
    match schema {
        Schema::Structured => {
            let inner = Json::Object(members);
            proof {
                inner.lemma_view();
                assert(inner@->Object_0 =~= wanted);
            }
            let mut outer: Vec<Member> = Vec::new();
            match class {
                Some(name) => {
                    outer.push(Member { key: "className".to_owned(), value: Json::String(name.to_owned()) });
                },
                None => {},
            }
            outer.push(Member { key: "properties".to_owned(), value: inner });
            let document = Json::Object(outer);
            proof {
                document.lemma_view();
                assert(document@->Object_0 =~= written_class("className"@, class_view).push(
                    ("properties"@, JsonView::Object(wanted)),
                ));
            }
            document
        },
        Schema::Flat => {
            let mut outer: Vec<Member> = Vec::new();
            match class {
                Some(name) => {
                    outer.push(Member { key: "ClassName".to_owned(), value: Json::String(name.to_owned()) });
                },
                None => {},
            }
            let ghost head = Seq::new(outer@.len(), |k: int| (outer@[k].key@, outer@[k].value@));
            assert(head =~= written_class("ClassName"@, class_view));
            outer.append(&mut members);
            let document = Json::Object(outer);
            proof {
                document.lemma_view();
                assert(document@->Object_0 =~= written_class("ClassName"@, class_view) + wanted);
            }
            document
        },
    }
}

/// Whether a name is one of the keys by which the schemas are told apart
/// or the class is named.
pub open spec fn reserved(name: Seq<char>) -> bool {
    name == "ClassName"@ || name == "className"@ || name == "properties"@ || name == "attributes"@
        || name == "tags"@ || name == "ignoreUnknownInstances"@
}

/// The keys of data files differ from each other.
proof fn lemma_keys_differ()
    ensures
        "ClassName"@ != "className"@,
        "ClassName"@ != "properties"@,
        "ClassName"@ != "attributes"@,
        "ClassName"@ != "ignoreUnknownInstances"@,
        "ClassName"@ != "tags"@,
        "className"@ != "properties"@,
        "className"@ != "attributes"@,
        "className"@ != "ignoreUnknownInstances"@,
        "className"@ != "tags"@,
        "properties"@ != "attributes"@,
        "properties"@ != "ignoreUnknownInstances"@,
        "properties"@ != "tags"@,
        "attributes"@ != "ignoreUnknownInstances"@,
        "attributes"@ != "tags"@,
        "ignoreUnknownInstances"@ != "tags"@,
{
    reveal_strlit("ClassName");
    reveal_strlit("className");
    reveal_strlit("properties");
    reveal_strlit("attributes");
    reveal_strlit("ignoreUnknownInstances");
    reveal_strlit("tags");
    assert("ClassName"@[0] != "className"@[0]);
    assert("properties"@[0] != "attributes"@[0]);
    assert("ClassName"@.len() == 9 && "className"@.len() == 9);
    assert("properties"@.len() == 10 && "attributes"@.len() == 10);
    assert("ignoreUnknownInstances"@.len() == 22);
    assert("tags"@.len() == 4);
}

/// A key that none of the first members has is not found among them.
proof fn lemma_member_absent(members: Seq<(Seq<char>, JsonView)>, key: Seq<char>, count: nat)
    requires
        count <= members.len(),
        forall|i: int| 0 <= i < count ==> (#[trigger] members[i]).0 != key,
    ensures
        member_at(members, key, count) is None,
    decreases count,
{
    if count > 0 {
        lemma_member_absent(members, key, (count - 1) as nat);
    }
}

/// Whether written properties are read back as they are: each is read
/// back from what it is written as, for the class that the document is
/// read with.
pub open spec fn reads_back(class: Seq<char>, names: Seq<Seq<char>>, properties: Map<Seq<char>, VariantView>) -> bool {
    &&& names.no_duplicates()
    &&& forall|name: Seq<char>| properties.contains_key(name) <==> names.contains(name)
    &&& forall|i: int|
        0 <= i < names.len() ==> resolved(class, #[trigger] names[i], unresolved(properties[names[i]]))
            == Some(properties[names[i]])
}

/// What the members that properties were written as give when they are read.
proof fn lemma_resolved_members(
    class: Seq<char>,
    list: Seq<(Seq<char>, JsonView)>,
    skip: Option<Seq<char>>,
    names: Seq<Seq<char>>,
    properties: Map<Seq<char>, VariantView>,
    lead: int,
    count: int,
)
    requires
        reads_back(class, names, properties),
        0 <= lead,
        lead + names.len() == list.len(),
        0 <= count <= names.len(),
        forall|i: int| 0 <= i < lead ==> skip == Some((#[trigger] list[i]).0),
        forall|i: int|
            0 <= i < names.len() ==> #[trigger] list[lead + i] == (names[i], unresolved(properties[names[i]]))
                && skip != Some(names[i]),
    ensures
        resolved_members(class, list, skip, (lead + count) as nat) == Map::new(
            |name: Seq<char>| names.take(count).contains(name),
            |name: Seq<char>| properties[name],
        ),
    decreases count,
{
    let goal = Map::new(|name: Seq<char>| names.take(count).contains(name), |name: Seq<char>| properties[name]);
    if count == 0 {
        lemma_skipped(class, list, skip, lead as nat);
        assert(goal =~= Map::<Seq<char>, VariantView>::empty());
    } else {
        lemma_resolved_members(class, list, skip, names, properties, lead, count - 1);
        let key = names[count - 1];
        assert(properties.contains_key(key)) by {
            assert(names.contains(key));
        }
        let value = unresolved(properties[key]);
        assert(list[lead + (count - 1)] == (key, value));
        assert(resolved(class, key, value) == Some(properties[key]));
        let before = resolved_members(class, list, skip, (lead + count - 1) as nat);
        let after = resolved_members(class, list, skip, (lead + count) as nat);
        assert(list[(lead + count) as nat - 1] == (key, value));
        assert(after == before.insert(key, properties[key]));
        let earlier = Map::new(
            |name: Seq<char>| names.take(count - 1).contains(name),
            |name: Seq<char>| properties[name],
        );
        assert(before == earlier);
        assert(names.take(count - 1 + 1) == names.take(count));
        assert forall|name: Seq<char>| goal.contains_key(name) <==> earlier.insert(
            key,
            properties[key],
        ).contains_key(name) by {
            let long = names.take(count);
            let short = names.take(count - 1);
            if long.contains(name) {
                let j = choose|j: int| 0 <= j < long.len() && long[j] == name;
                if j < count - 1 {
                    assert(short[j] == name);
                }
            }
            if short.contains(name) {
                let j = choose|j: int| 0 <= j < short.len() && short[j] == name;
                assert(long[j] == name);
            }
            if name == key {
                assert(long[count - 1] == name);
            }
        }
        assert(goal =~= earlier.insert(key, properties[key]));
    }
}

/// Members that are all passed over give no properties.
proof fn lemma_skipped(class: Seq<char>, list: Seq<(Seq<char>, JsonView)>, skip: Option<Seq<char>>, count: nat)
    requires
        count <= list.len(),
        forall|i: int| 0 <= i < count ==> skip == Some((#[trigger] list[i]).0),
    ensures
        resolved_members(class, list, skip, count) == Map::<Seq<char>, VariantView>::empty(),
    decreases count,
{
    if count > 0 {
        lemma_skipped(class, list, skip, (count - 1) as nat);
        assert(skip == Some(list[count - 1].0));
    }
}

/// Round trip of a data file. A class and properties that are written as a
/// document of one of the schemas are read back from that document as they
/// are, where each property is read back from what it is written as and, in
/// the flat schema, none has the name of a key of the schemas. Where no
/// class is written, the class that is read is the one that the name of the
/// parent directory gives.
pub proof fn lemma_data_round_trip(
    class: Option<Seq<char>>,
    names: Seq<Seq<char>>,
    properties: Map<Seq<char>, VariantView>,
    schema: Schema,
    parent: Seq<char>,
)
    requires
        reads_back(
            match class {
                Some(name) => name,
                None => default_class(parent),
            },
            names,
            properties,
        ),
        schema == Schema::Flat ==> forall|i: int| 0 <= i < names.len() ==> !reserved(#[trigger] names[i]),
    ensures
        document_snapshot(written_document(class, names, properties, schema), parent) == Ok::<
            SnapshotView,
            DataError,
        >(
            SnapshotView {
                id: None,
                name: Seq::empty(),
                class: match class {
                    Some(name) => name,
                    None => default_class(parent),
                },
                properties,
                children: Seq::empty(),
                paths: Seq::empty(),
            },
        ),
{
    lemma_keys_differ();
    let read_class = match class {
        Some(name) => name,
        None => default_class(parent),
    };
    let document = written_document(class, names, properties, schema);
    let written = written_members(names, properties);
    let whole = Map::new(
        |name: Seq<char>| names.take(names.len() as int).contains(name),
        |name: Seq<char>| properties[name],
    );
    assert(names.take(names.len() as int) =~= names);
    assert(whole =~= properties);
    match schema {
        Schema::Structured => {
            let head = written_class("className"@, class);
            let list = head.push(("properties"@, JsonView::Object(written)));
            let lead = head.len() as int;
            assert(document == JsonView::Object(list));
            lemma_member_absent(list, "ClassName"@, list.len());
            lemma_member_absent(list, "attributes"@, list.len());
            lemma_member_absent(list, "tags"@, list.len());
            lemma_member_absent(list, "properties"@, lead as nat);
            lemma_member_found(list, "properties"@, lead, list.len());
            if class is Some {
                lemma_member_absent(list, "className"@, 0);
                lemma_member_found(list, "className"@, 0, list.len());
            } else {
                lemma_member_absent(list, "className"@, list.len());
            }
            assert(member(document, "properties"@) == Some(JsonView::Object(written)));
            assert(class_member(document) == match class {
                Some(name) => Some(JsonView::String(name)),
                None => None,
            });
            lemma_resolved_members(read_class, written, None, names, properties, 0, names.len() as int);
            assert(structured(document));
            assert(structured_properties(read_class, document) == Some(properties));
        },
        Schema::Flat => {
            let head = written_class("ClassName"@, class);
            let list = head + written;
            let lead = head.len() as int;
            assert(document == JsonView::Object(list));
            assert forall|i: int| 0 <= i < names.len() implies #[trigger] list[lead + i] == (
                names[i],
                unresolved(properties[names[i]]),
            ) && Some("ClassName"@) != Some(names[i]) by {
                assert(!reserved(names[i]));
                assert(list[lead + i] == written[i]);
            }
            assert forall|i: int| 0 <= i < list.len() implies (#[trigger] list[i]).0 != "className"@
                && list[i].0 != "properties"@ && list[i].0 != "attributes"@ && list[i].0 != "tags"@
                && list[i].0 != "ignoreUnknownInstances"@ by {
                if i >= lead {
                    assert(list[lead + (i - lead)] == (
                        names[i - lead],
                        unresolved(properties[names[i - lead]]),
                    ));
                    assert(!reserved(names[i - lead]));
                }
            }
            lemma_member_absent(list, "className"@, list.len());
            lemma_member_absent(list, "properties"@, list.len());
            lemma_member_absent(list, "attributes"@, list.len());
            lemma_member_absent(list, "tags"@, list.len());
            lemma_member_absent(list, "ignoreUnknownInstances"@, list.len());
            if class is Some {
                lemma_member_absent(list, "ClassName"@, 0);
                lemma_member_found(list, "ClassName"@, 0, list.len());
            } else {
                assert forall|i: int| 0 <= i < list.len() implies (#[trigger] list[i]).0 != "ClassName"@ by {
                    assert(list[lead + (i - lead)] == (
                        names[i - lead],
                        unresolved(properties[names[i - lead]]),
                    ));
                    assert(!reserved(names[i - lead]));
                }
                lemma_member_absent(list, "ClassName"@, list.len());
            }
            assert(class_member(document) == match class {
                Some(name) => Some(JsonView::String(name)),
                None => None,
            });
            assert(!structured(document));
            lemma_resolved_members(
                read_class,
                list,
                Some("ClassName"@),
                names,
                properties,
                lead,
                names.len() as int,
            );
            assert(flat_properties(read_class, document) == Some(properties));
        },
    }
}

} // verus!
