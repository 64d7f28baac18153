//! Typed property values and the property map of an instance.

use vstd::prelude::*;
use crate::json::{Json, JsonView};
use crate::text::{clone_strings, same_strings, str_eq};

verus! {

/// The mathematical value of a [`Variant`].
pub enum VariantView {
    String(Seq<char>),
    Bool(bool),
    Enum(u32),
    Int32(i32),
    Int64(i64),
    Float32(u64),
    Float64(u64),
    Tags(Seq<Seq<char>>),
    Other { kind: Seq<char>, value: JsonView },
}

/// A typed property value. A value of a type without a variant of its own
/// is carried as `Other`. The two float variants hold the bit pattern of
/// the double-precision number that the value was read as, so that equal
/// values are equal bit for bit; a single-precision value is narrowed where
/// it leaves the library.
#[derive(Debug)]
pub enum Variant {
    String(String),
    Bool(bool),
    Enum(u32),
    Int32(i32),
    Int64(i64),
    Float32(u64),
    Float64(u64),
    Tags(Vec<String>),
    /// A value of a type that has no variant of its own: the name of its
    /// type, and the value as the JSON that it is written as.
    Other { kind: String, value: Json },
}

impl View for Variant {
    type V = VariantView;

    open spec fn view(&self) -> VariantView {
        match self {
            Variant::String(s) => VariantView::String(s@),
            Variant::Bool(b) => VariantView::Bool(*b),
            Variant::Enum(e) => VariantView::Enum(*e),
            Variant::Int32(n) => VariantView::Int32(*n),
            Variant::Int64(n) => VariantView::Int64(*n),
            Variant::Float32(bits) => VariantView::Float32(*bits),
            Variant::Float64(bits) => VariantView::Float64(*bits),
            Variant::Tags(tags) => VariantView::Tags(tags.deep_view()),
            Variant::Other { kind, value } => VariantView::Other { kind: kind@, value: value@ },
        }
    }
}

impl Variant {
    /// A copy of the value.
    pub fn duplicate(&self) -> (copy: Variant)
        ensures
            copy@ == self@,
    {
        match self {
            Variant::String(s) => Variant::String(s.clone()),
            Variant::Bool(b) => Variant::Bool(*b),
            Variant::Enum(e) => Variant::Enum(*e),
            Variant::Int32(n) => Variant::Int32(*n),
            Variant::Int64(n) => Variant::Int64(*n),
            Variant::Float32(bits) => Variant::Float32(*bits),
            Variant::Float64(bits) => Variant::Float64(*bits),
            Variant::Tags(tags) => Variant::Tags(clone_strings(tags)),
            Variant::Other { kind, value } => Variant::Other { kind: kind.clone(), value: value.duplicate() },
        }
    }

    /// Whether two values are of the same type and hold the same data.
    pub fn same(&self, other: &Variant) -> (same: bool)
        ensures
            same == (self@ == other@),
    {
        match (self, other) {
            (Variant::String(a), Variant::String(b)) => str_eq(a.as_str(), b.as_str()),
            (Variant::Bool(a), Variant::Bool(b)) => *a == *b,
            (Variant::Enum(a), Variant::Enum(b)) => *a == *b,
            (Variant::Int32(a), Variant::Int32(b)) => *a == *b,
            (Variant::Int64(a), Variant::Int64(b)) => *a == *b,
            (Variant::Float32(a), Variant::Float32(b)) => *a == *b,
            (Variant::Float64(a), Variant::Float64(b)) => *a == *b,
            (Variant::Tags(a), Variant::Tags(b)) => same_strings(a, b),
            (Variant::Other { kind: a, value: x }, Variant::Other { kind: b, value: y }) => str_eq(
                a.as_str(),
                b.as_str(),
            ) && x.same(y),
            _ => false,
        }
    }
}

/// The properties of an instance: a map from property name to value, with
/// each name held once.
#[derive(Debug)]
pub struct Properties {
    names: Vec<String>,
    values: Vec<Variant>,
}

impl View for Properties {
    type V = Map<Seq<char>, VariantView>;

    closed spec fn view(&self) -> Map<Seq<char>, VariantView> {
        Map::new(
            |name: Seq<char>| self.names.deep_view().contains(name),
            |name: Seq<char>| self.values@[self.names.deep_view().index_of(name)]@,
        )
    }
}

impl Properties {
    /// Every name has its value, and no name occurs twice.
    pub closed spec fn wf(&self) -> bool {
        &&& self.names@.len() == self.values@.len()
        &&& self.names.deep_view().no_duplicates()
    }

    /// The names in the order in which they are stored.
    pub closed spec fn names(&self) -> Seq<Seq<char>> {
        self.names.deep_view()
    }

    /// The stored names are exactly the keys of the map, each once.
    pub proof fn lemma_names(&self)
        requires
            self.wf(),
        ensures
            self.names().no_duplicates(),
            forall|name: Seq<char>| self@.contains_key(name) <==> self.names().contains(name),
            self@.dom() == self.names().to_set(),
            self@.dom().finite(),
            self@.dom().len() == self.names().len(),
    {
        assert(self@.dom() =~= self.names().to_set());
        self.names().unique_seq_to_set();
        vstd::seq_lib::seq_to_set_is_finite(self.names());
    }

    proof fn lemma_entry(&self, i: int)
        requires
            self.wf(),
            0 <= i < self.names@.len(),
        ensures
            self@.contains_key(self.names.deep_view()[i]),
            self@[self.names.deep_view()[i]] == self.values@[i]@,
    {
        let names = self.names.deep_view();
        assert(names.contains(names[i]));
        let j = names.index_of(names[i]);
        assert(0 <= j < names.len() && names[j] == names[i]);
    }

    /// The empty map.
    pub fn new() -> (empty: Properties)
        ensures
            empty.wf(),
            empty@ == Map::<Seq<char>, VariantView>::empty(),
    {
        let empty = Properties { names: Vec::new(), values: Vec::new() };
        assert(empty@ =~= Map::<Seq<char>, VariantView>::empty());
        empty
    }

    /// The number of properties.
    pub fn len(&self) -> (count: usize)
        requires
            self.wf(),
        ensures
            count == self.names().len(),
            count == self@.dom().len(),
    {
        proof {
            self.lemma_names();
        }
        self.names.len()
    }

    /// The name stored at position `i`.
    pub fn name_at(&self, i: usize) -> (name: &str)
        requires
            self.wf(),
            i < self.names().len(),
        ensures
            name@ == self.names()[i as int],
    {
        self.names[i].as_str()
    }

    /// The value stored at position `i`: the value of the name at `i`.
    pub fn value_at(&self, i: usize) -> (value: &Variant)
        requires
            self.wf(),
            i < self.names().len(),
        ensures
            self@.contains_key(self.names()[i as int]),
            value@ == self@[self.names()[i as int]],
    {
        proof {
            self.lemma_entry(i as int);
        }
        &self.values[i]
    }

    fn position(&self, name: &str) -> (found: Option<usize>)
        requires
            self.wf(),
        ensures
            match found {
                Some(i) => i < self.names@.len() && self.names.deep_view()[i as int] == name@,
                None => !self.names.deep_view().contains(name@),
            },
    {
        let mut i: usize = 0;
        while i < self.names.len()
            invariant
                i <= self.names@.len(),
                forall|j: int| 0 <= j < i ==> self.names.deep_view()[j] != name@,
            decreases self.names@.len() - i,
        {
            if str_eq(self.names[i].as_str(), name) {
                return Some(i);
            }
            i += 1;
        }
        None
    }

    /// Whether the map holds `name`.
    pub fn contains_key(&self, name: &str) -> (found: bool)
        requires
            self.wf(),
        ensures
            found == self@.contains_key(name@),
    {
        self.position(name).is_some()
    }

    /// The value of `name`, if the map holds it.
    pub fn get(&self, name: &str) -> (value: Option<&Variant>)
        requires
            self.wf(),
        ensures
            match value {
                Some(v) => self@.contains_key(name@) && self@[name@] == v@,
                None => !self@.contains_key(name@),
            },
    {
        match self.position(name) {
            Some(i) => {
                proof {
                    self.lemma_entry(i as int);
                }
                Some(&self.values[i])
            },
            None => None,
        }
    }

    /// Sets `name` to `value`, and returns the value that `name` had before.
    pub fn insert(&mut self, name: String, value: Variant) -> (before: Option<Variant>)
        requires
            old(self).wf(),
        ensures
            final(self).wf(),
            final(self)@ == old(self)@.insert(name@, value@),
            match before {
                Some(v) => old(self)@.contains_key(name@) && old(self)@[name@] == v@,
                None => !old(self)@.contains_key(name@),
            },
    {
        let ghost old_names = self.names.deep_view();
        let ghost old_values = self.values@;
        let ghost old_view = self@;
        match self.position(name.as_str()) {
            Some(i) => {
                proof {
                    self.lemma_entry(i as int);
                }
                let mut slot = value;
                std::mem::swap(&mut self.values[i], &mut slot);
                proof {
                    let names = self.names.deep_view();
                    assert(names =~= old_names);
                    assert forall|k: Seq<char>| #[trigger] self@.contains_key(k) implies self@[k]
                        == old_view.insert(name@, value@)[k] by {
                        let j = names.index_of(k);
                        assert(0 <= j < names.len() && names[j] == k);
                        if j != i as int {
                            assert(self.values@[j] == old_values[j]);
                        }
                    }
                    assert(self@ =~= old_view.insert(name@, value@));
                }
                Some(slot)
            },
            None => {
                self.names.push(name);
                self.values.push(value);
                proof {
                    let names = self.names.deep_view();
                    assert(names =~= old_names.push(name@));
                    assert forall|k: Seq<char>| names.contains(k) <==> (old_names.contains(k) || k
                        == name@) by {
                        if old_names.contains(k) {
                            let j = old_names.index_of(k);
                            assert(names[j] == k);
                        }
                        if k == name@ {
                            assert(names[names.len() - 1] == k);
                        }
                    }
                    assert forall|k: Seq<char>| #[trigger] self@.contains_key(k) implies self@[k]
                        == old_view.insert(name@, value@)[k] by {
                        let j = names.index_of(k);
                        assert(0 <= j < names.len() && names[j] == k);
                        if k != name@ {
                            let j0 = old_names.index_of(k);
                            assert(0 <= j0 < old_names.len() && old_names[j0] == k);
                            assert(names[j0] == k);
                            assert(j0 == j);
                        } else {
                            assert(j == names.len() - 1);
                        }
                    }
                    assert(self@ =~= old_view.insert(name@, value@));
                }
                None
            },
        }
    }

    /// Takes `name` out of the map, and returns the value that it had.
    pub fn remove(&mut self, name: &str) -> (before: Option<Variant>)
        requires
            old(self).wf(),
        ensures
            final(self).wf(),
            final(self)@ == old(self)@.remove(name@),
            match before {
                Some(v) => old(self)@.contains_key(name@) && old(self)@[name@] == v@,
                None => !old(self)@.contains_key(name@),
            },
    {
        let ghost old_names = self.names.deep_view();
        let ghost old_values = self.values@;
        let ghost old_view = self@;
        match self.position(name) {
            Some(i) => {
                proof {
                    self.lemma_entry(i as int);
                }
                self.names.remove(i);
                let value = self.values.remove(i);
                proof {
                    let names = self.names.deep_view();
                    assert(names =~= old_names.remove(i as int));
                    assert(self.values@ =~= old_values.remove(i as int));
                    assert forall|a: int, b: int| 0 <= a < b < names.len() implies names[a]
                        != names[b] by {
                        let a0 = if a < i { a } else { a + 1 };
                        let b0 = if b < i { b } else { b + 1 };
                        assert(names[a] == old_names[a0] && names[b] == old_names[b0]);
                    }
                    assert forall|k: Seq<char>| names.contains(k) <==> (old_names.contains(k) && k
                        != name@) by {
                        if names.contains(k) {
                            let j = names.index_of(k);
                            let j0 = if j < i { j } else { j + 1 };
                            assert(old_names[j0] == k);
                        }
                        if old_names.contains(k) && k != name@ {
                            let j0 = old_names.index_of(k);
                            let j = if j0 < i { j0 } else { j0 - 1 };
                            assert(names[j] == k);
                        }
                    }
                    assert forall|k: Seq<char>| #[trigger] self@.contains_key(k) implies self@[k]
                        == old_view[k] by {
                        let j = names.index_of(k);
                        assert(0 <= j < names.len() && names[j] == k);
                        let j0 = if j < i { j } else { j + 1 };
                        assert(old_names[j0] == k);
                        let j1 = old_names.index_of(k);
                        assert(0 <= j1 < old_names.len() && old_names[j1] == k);
                        assert(j1 == j0);
                    }
                    assert(self@ =~= old_view.remove(name@));
                }
                Some(value)
            },
            None => {
                assert(self@ =~= old_view.remove(name@));
                None
            },
        }
    }

    /// A copy of the map.
    pub fn duplicate(&self) -> (copy: Properties)
        requires
            self.wf(),
        ensures
            copy.wf(),
            copy@ == self@,
            copy.names() == self.names(),
    {
        let names = clone_strings(&self.names);
        let mut values: Vec<Variant> = Vec::new();
        let mut i: usize = 0;
        while i < self.values.len()
            invariant
                i <= self.values@.len(),
                values@.len() == i,
                forall|j: int| 0 <= j < i ==> values@[j]@ == self.values@[j]@,
            decreases self.values@.len() - i,
        {
            values.push(self.values[i].duplicate());
            i += 1;
        }
        let copy = Properties { names, values };
        assert(copy.names@.len() == copy.names.deep_view().len());
        assert(self.names@.len() == self.names.deep_view().len());
        assert(copy@ =~= self@);
        copy
    }

    /// Whether every property of `self` is a property of `other` with the same value.
    fn within(&self, other: &Properties) -> (all: bool)
        requires
            self.wf(),
            other.wf(),
        ensures
            all == self@.submap_of(other@),
    {
        let mut i: usize = 0;
        while i < self.names.len()
            invariant
                self.wf(),
                other.wf(),
                i <= self.names@.len(),
                forall|j: int|
                    0 <= j < i ==> other@.contains_key(#[trigger] self.names.deep_view()[j])
                        && other@[self.names.deep_view()[j]] == self.values@[j]@,
            decreases self.names@.len() - i,
        {
            proof {
                self.lemma_entry(i as int);
            }
            match other.get(self.names[i].as_str()) {
                Some(v) => {
                    if !self.values[i].same(v) {
                        return false;
                    }
                },
                None => {
                    return false;
                },
            }
            i += 1;
        }
        proof {
            assert forall|k: Seq<char>| #[trigger] self@.contains_key(k) implies other@.contains_key(k)
                && self@[k] == other@[k] by {
                let j = self.names.deep_view().index_of(k);
                assert(0 <= j < self.names@.len() && self.names.deep_view()[j] == k);
                self.lemma_entry(j);
            }
        }
        true
    }

    /// Whether two maps hold the same names with the same values.
    pub fn same(&self, other: &Properties) -> (same: bool)
        requires
            self.wf(),
            other.wf(),
        ensures
            same == (self@ == other@),
    {
        let same = self.within(other) && other.within(self);
        proof {
            if same {
                assert(self@ =~= other@);
            }
        }
        same
    }
}

} // verus!
