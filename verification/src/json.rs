//! JSON documents, as `serde_json` reads them.

use vstd::prelude::*;
use crate::text::str_eq;

verus! {

/// A number of a JSON document.
#[derive(Debug, Clone, Copy, PartialEq, Eq, Structural)]
pub struct Number {
    /// The number, where it is an integer that fits.
    pub integer: Option<i64>,
    /// The bit pattern of the double-precision float that the number is read as.
    pub double: Option<u64>,
}

/// The mathematical value of a [`Json`] document.
pub enum JsonView {
    Null,
    Bool(bool),
    Number(Number),
    String(Seq<char>),
    Array(Seq<JsonView>),
    Object(Seq<(Seq<char>, JsonView)>),
}

/// A member of a JSON object.
#[derive(Debug)]
pub struct Member {
    pub key: String,
    pub value: Json,
}

/// A JSON document.
#[derive(Debug)]
pub enum Json {
    Null,
    Bool(bool),
    Number(Number),
    String(String),
    Array(Vec<Json>),
    /// An object, with its members in the order in which they are kept.
    Object(Vec<Member>),
}

impl View for Json {
    type V = JsonView;

    open spec fn view(&self) -> JsonView {
        self.model()
    }
}

impl Json {
    /// The value of the document.
    pub open spec fn model(&self) -> JsonView
        decreases self,
    {
        match self {
            Json::Null => JsonView::Null,
            Json::Bool(b) => JsonView::Bool(*b),
            Json::Number(n) => JsonView::Number(*n),
            Json::String(s) => JsonView::String(s@),
            Json::Array(items) => JsonView::Array(
                Seq::new(
                    items@.len(),
                    |i: int|
                        if 0 <= i < items@.len() {
                            items[i].model()
                        } else {
                            arbitrary()
                        },
                ),
            ),
            Json::Object(members) => JsonView::Object(
                Seq::new(
                    members@.len(),
                    |i: int|
                        if 0 <= i < members@.len() {
                            (members[i].key@, members[i].value.model())
                        } else {
                            arbitrary()
                        },
                ),
            ),
        }
    }

    /// What the view of an array or an object holds, item by item.
    pub proof fn lemma_view(&self)
        ensures
            self matches Json::Array(items) ==> self@ == JsonView::Array(
                Seq::new(items@.len(), |i: int| items@[i]@),
            ),
            self matches Json::Object(members) ==> self@ == JsonView::Object(
                Seq::new(members@.len(), |i: int| (members@[i].key@, members@[i].value@)),
            ),
    {
        match self {
            Json::Array(items) => {
                assert(self@->Array_0 =~= Seq::new(items@.len(), |i: int| items@[i]@));
            },
            Json::Object(members) => {
                assert(self@->Object_0 =~= Seq::new(
                    members@.len(),
                    |i: int| (members@[i].key@, members@[i].value@),
                ));
            },
            _ => {},
        }
    }
}

/// The position of the first of the first `count` members with the key `key`.
pub open spec fn member_at(members: Seq<(Seq<char>, JsonView)>, key: Seq<char>, count: nat) -> Option<int>
    decreases count,
{
    if count == 0 || count > members.len() {
        None
    } else {
        match member_at(members, key, (count - 1) as nat) {
            Some(i) => Some(i),
            None => if members[count - 1].0 == key {
                Some(count - 1)
            } else {
                None
            },
        }
    }
}

/// The value of the first member of an object with the key `key`; nothing
/// where the document is no object or has no such member.
pub open spec fn member(document: JsonView, key: Seq<char>) -> Option<JsonView> {
    match document {
        JsonView::Object(members) => match member_at(members, key, members.len()) {
            Some(i) => Some(members[i].1),
            None => None,
        },
        _ => None,
    }
}

impl Json {
    /// A copy of the document.
    pub fn duplicate(&self) -> (copy: Json)
        ensures
            copy@ == self@,
        decreases self,
    {
        proof {
            self.lemma_view();
        }
        match self {
            Json::Null => Json::Null,
            Json::Bool(b) => Json::Bool(*b),
            Json::Number(n) => Json::Number(*n),
            Json::String(s) => Json::String(s.clone()),
            Json::Array(items) => {
                let mut list: Vec<Json> = Vec::new();
                let mut i: usize = 0;
                while i < items.len()
                    invariant
                        self is Array,
                        self->Array_0 == *items,
                        i <= items@.len(),
                        list@.len() == i,
                        forall|k: int| 0 <= k < i ==> (#[trigger] list@[k])@ == items@[k]@,
                    decreases items@.len() - i,
                {
                    list.push(items[i].duplicate());
                    i += 1;
                }
                let copy = Json::Array(list);
                proof {
                    copy.lemma_view();
                    assert(copy@->Array_0 =~= self@->Array_0);
                }
                copy
            },
            Json::Object(members) => {
                let mut list: Vec<Member> = Vec::new();
                let mut i: usize = 0;
                while i < members.len()
                    invariant
                        self is Object,
                        self->Object_0 == *members,
                        i <= members@.len(),
                        list@.len() == i,
                        forall|k: int|
                            0 <= k < i ==> (#[trigger] list@[k]).key@ == members@[k].key@ && list@[k].value@
                                == members@[k].value@,
                    decreases members@.len() - i,
                {
                    list.push(Member { key: members[i].key.clone(), value: members[i].value.duplicate() });
                    i += 1;
                }
                let copy = Json::Object(list);
                proof {
                    copy.lemma_view();
                    assert(copy@->Object_0 =~= self@->Object_0);
                }
                copy
            },
        }
    }

    /// Whether two documents hold the same values, members in the same order.
    pub fn same(&self, other: &Json) -> (same: bool)
        ensures
            same == (self@ == other@),
        decreases self,
    {
        proof {
            self.lemma_view();
            other.lemma_view();
        }
        match (self, other) {
            (Json::Null, Json::Null) => true,
            (Json::Bool(a), Json::Bool(b)) => *a == *b,
            (Json::Number(a), Json::Number(b)) => *a == *b,
            (Json::String(a), Json::String(b)) => str_eq(a.as_str(), b.as_str()),
            (Json::Array(a), Json::Array(b)) => {
                let ghost left = self@->Array_0;
                let ghost right = other@->Array_0;
                if a.len() != b.len() {
                    assert(left.len() != right.len());
                    return false;
                }
                let mut i: usize = 0;
                while i < a.len()
                    invariant
                        self is Array,
                        self->Array_0 == *a,
                        self@ == JsonView::Array(left),
                        other@ == JsonView::Array(right),
                        i <= a@.len(),
                        a@.len() == b@.len(),
                        left == Seq::new(a@.len(), |i: int| a@[i]@),
                        right == Seq::new(b@.len(), |i: int| b@[i]@),
                        forall|k: int| 0 <= k < i ==> left[k] == right[k],
                    decreases a@.len() - i,
                {
                    if !a[i].same(&b[i]) {
                        assert(left[i as int] != right[i as int]);
                        return false;
                    }
                    i += 1;
                }
                assert(left =~= right);
                true
            },
            (Json::Object(a), Json::Object(b)) => {
                let ghost left = self@->Object_0;
                let ghost right = other@->Object_0;
                if a.len() != b.len() {
                    assert(left.len() != right.len());
                    return false;
                }
                let mut i: usize = 0;
                while i < a.len()
                    invariant
                        self is Object,
                        self->Object_0 == *a,
                        self@ == JsonView::Object(left),
                        other@ == JsonView::Object(right),
                        i <= a@.len(),
                        a@.len() == b@.len(),
                        left == Seq::new(a@.len(), |i: int| (a@[i].key@, a@[i].value@)),
                        right == Seq::new(b@.len(), |i: int| (b@[i].key@, b@[i].value@)),
                        forall|k: int| 0 <= k < i ==> left[k] == right[k],
                    decreases a@.len() - i,
                {
                    if !str_eq(a[i].key.as_str(), b[i].key.as_str()) || !a[i].value.same(&b[i].value) {
                        assert(left[i as int] != right[i as int]);
                        return false;
                    }
                    i += 1;
                }
                assert(left =~= right);
                true
            },
            _ => false,
        }
    }

    /// The value of the first member with the key `key`, if the document is
    /// an object and has one.
    pub fn get(&self, key: &str) -> (found: Option<&Json>)
        ensures
            match found {
                Some(value) => member(self@, key@) == Some(value@),
                None => member(self@, key@) is None,
            },
    {
        proof {
            self.lemma_view();
        }
        match self {
            Json::Object(members) => {
                let ghost list = self@->Object_0;
                let mut i: usize = 0;
                while i < members.len()
                    invariant
                        i <= members@.len(),
                        self@ == JsonView::Object(list),
                        list == Seq::new(members@.len(), |i: int| (members@[i].key@, members@[i].value@)),
                        member_at(list, key@, i as nat) is None,
                    decreases members@.len() - i,
                {
                    if str_eq(members[i].key.as_str(), key) {
                        proof {
                            assert(list[i as int] == (members@[i as int].key@, members@[i as int].value@));
                            lemma_member_found(list, key@, i as int, list.len());
                        }
                        return Some(&members[i].value);
                    }
                    i += 1;
                }
                None
            },
            _ => None,
        }
    }
}

/// Once the first member with a key is found, it stays the first.
pub(crate) proof fn lemma_member_found(members: Seq<(Seq<char>, JsonView)>, key: Seq<char>, at: int, count: nat)
    requires
        0 <= at < count <= members.len(),
        member_at(members, key, at as nat) is None,
        members[at].0 == key,
    ensures
        member_at(members, key, count) == Some(at),
    decreases count,
{
    if count > at + 1 {
        lemma_member_found(members, key, at, (count - 1) as nat);
    }
}

/// The document that `serde_json` reads from a text; nothing where the text
/// is no JSON document.
pub uninterp spec fn parsed(text: Seq<char>) -> Option<JsonView>;

#[verifier::external_type_specification]
#[verifier::external_body]
pub struct ExJsonError(serde_json::Error);

#[verifier::external_type_specification]
#[verifier::external_body]
pub struct ExJsonValue(serde_json::Value);

/// What a `serde_json::Value` holds.
pub uninterp spec fn document(value: serde_json::Value) -> JsonView;

/// `serde_json::from_str` to a `serde_json::Value`. The result depends on
/// the text alone; it is an error where the text is no JSON document.
#[verifier::external_body]
fn parse(text: &str) -> (value: Result<serde_json::Value, serde_json::Error>)
    ensures
        match value {
            Ok(read) => parsed(text@) == Some(document(read)),
            Err(_) => parsed(text@) is None,
        },
{
    serde_json::from_str(text)
}

/// A `serde_json::Value` as a `Json`, variant by variant: a number with
/// what `as_i64` and `as_f64` give for it, an array item by item, an object
/// with its members in the order in which `serde_json` holds them.
#[verifier::external_body]
fn from_value(value: serde_json::Value) -> (json: Json)
    ensures
        json@ == document(value),
{
    match value {
        serde_json::Value::Null => Json::Null,
        serde_json::Value::Bool(b) => Json::Bool(b),
        serde_json::Value::Number(n) => Json::Number(
            Number { integer: n.as_i64(), double: n.as_f64().map(|x| x.to_bits()) },
        ),
        serde_json::Value::String(s) => Json::String(s),
        serde_json::Value::Array(items) => Json::Array(items.into_iter().map(from_value).collect()),
        serde_json::Value::Object(members) => Json::Object(
            members.into_iter().map(|(key, value)| Member { key, value: from_value(value) }).collect(),
        ),
    }
}

/// The document that a text spells, or the error of `serde_json` where it
/// spells none.
pub fn from_str(text: &str) -> (read: Result<Json, serde_json::Error>)
    ensures
        match read {
            Ok(json) => parsed(text@) == Some(json@),
            Err(_) => parsed(text@) is None,
        },
{
    match parse(text) {
        Ok(value) => Ok(from_value(value)),
        Err(error) => Err(error),
    }
}

} // verus!
