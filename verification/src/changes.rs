//! Structural changes to a tree: what was added, removed and updated.

use vstd::prelude::*;
use crate::snapshot::{Ref, Snapshot, SnapshotView};
use crate::text::{clone_strings, lemma_take_contains, lemma_take_fresh};
use crate::value::{Properties, VariantView};

verus! {

/// The properties that `delta` makes of `properties`: a name that `delta`
/// maps to a value gets that value, a name that it maps to `None` leaves, and
/// every other name stays as it is.
pub open spec fn apply_delta(
    properties: Map<Seq<char>, VariantView>,
    delta: Map<Seq<char>, Option<VariantView>>,
) -> Map<Seq<char>, VariantView> {
    Map::new(
        |name: Seq<char>|
            if delta.contains_key(name) {
                delta[name] is Some
            } else {
                properties.contains_key(name)
            },
        |name: Seq<char>|
            if delta.contains_key(name) {
                delta[name]->0
            } else {
                properties[name]
            },
    )
}

/// The delta from `before` to `after`: each name of `after` that `before`
/// lacks or holds with another value, with its value in `after`; and each name
/// of `before` that `after` lacks, marked as deleted.
pub open spec fn delta_between(
    before: Map<Seq<char>, VariantView>,
    after: Map<Seq<char>, VariantView>,
) -> Map<Seq<char>, Option<VariantView>> {
    Map::new(
        |name: Seq<char>|
            if after.contains_key(name) {
                !before.contains_key(name) || before[name] != after[name]
            } else {
                before.contains_key(name)
            },
        |name: Seq<char>|
            if after.contains_key(name) {
                Some(after[name])
            } else {
                None
            },
    )
}

/// Applying the delta between two property maps to the first gives the second.
pub proof fn lemma_delta_completes(
    before: Map<Seq<char>, VariantView>,
    after: Map<Seq<char>, VariantView>,
)
    ensures
        apply_delta(before, delta_between(before, after)) == after,
{
    assert(apply_delta(before, delta_between(before, after)) =~= after);
}

/// The delta between equal property maps is empty, and only that one.
pub proof fn lemma_delta_empty(
    before: Map<Seq<char>, VariantView>,
    after: Map<Seq<char>, VariantView>,
)
    ensures
        (delta_between(before, after) == Map::<Seq<char>, Option<VariantView>>::empty()) <==> before
            == after,
{
    let delta = delta_between(before, after);
    if before == after {
        assert(delta =~= Map::<Seq<char>, Option<VariantView>>::empty());
    }
    if delta == Map::<Seq<char>, Option<VariantView>>::empty() {
        assert forall|name: Seq<char>| before.contains_key(name) == after.contains_key(name) by {
            assert(!delta.contains_key(name));
        }
        assert forall|name: Seq<char>| before.contains_key(name) implies before[name] == after[name] by {
            assert(!delta.contains_key(name));
        }
        assert(before =~= after);
    }
}

/// A change to the properties of one instance: the values to set, and the
/// names to delete. A name that is in both is set.
#[derive(Debug)]
pub struct PropertyDelta {
    pub set: Properties,
    pub removed: Vec<String>,
}

impl View for PropertyDelta {
    type V = Map<Seq<char>, Option<VariantView>>;

    open spec fn view(&self) -> Map<Seq<char>, Option<VariantView>> {
        Map::new(
            |name: Seq<char>| self.set@.contains_key(name) || self.removed.deep_view().contains(name),
            |name: Seq<char>|
                if self.set@.contains_key(name) {
                    Some(self.set@[name])
                } else {
                    None
                },
        )
    }
}

impl PropertyDelta {
    /// The map of values to set is well formed.
    pub open spec fn wf(&self) -> bool {
        self.set.wf()
    }

    /// The delta that changes nothing.
    pub fn new() -> (delta: PropertyDelta)
        ensures
            delta.wf(),
            delta@ == Map::<Seq<char>, Option<VariantView>>::empty(),
    {
        let delta = PropertyDelta { set: Properties::new(), removed: Vec::new() };
        assert(delta@ =~= Map::<Seq<char>, Option<VariantView>>::empty());
        delta
    }

    /// Whether the delta changes nothing.
    pub fn is_empty(&self) -> (empty: bool)
        requires
            self.wf(),
        ensures
            empty == (self@ == Map::<Seq<char>, Option<VariantView>>::empty()),
    {
        let empty = self.set.len() == 0 && self.removed.len() == 0;
        proof {
            self.set.lemma_names();
            let nothing = Map::<Seq<char>, Option<VariantView>>::empty();
            if empty {
                assert forall|name: Seq<char>| !self@.contains_key(name) by {
                    if self.set.names().contains(name) {
                    }
                }
                assert(self@ =~= nothing);
            } else if self.set.names().len() > 0 {
                assert(self.set.names().contains(self.set.names()[0]));
                assert(self@.contains_key(self.set.names()[0]));
            } else {
                assert(self.removed.deep_view().contains(self.removed.deep_view()[0]));
                assert(self@.contains_key(self.removed.deep_view()[0]));
            }
        }
        empty
    }

    /// The delta from `before` to `after`.
    pub fn between(before: &Properties, after: &Properties) -> (delta: PropertyDelta)
        requires
            before.wf(),
            after.wf(),
        ensures
            delta.wf(),
            delta@ == delta_between(before@, after@),
    {
        let mut set = Properties::new();
        let mut i: usize = 0;
        while i < after.len()
            invariant
                before.wf(),
                after.wf(),
                set.wf(),
                i <= after.names().len(),
                forall|name: Seq<char>|
                    #![trigger set@.contains_key(name)]
                    #![trigger after.names().take(i as int).contains(name)]
                    set@.contains_key(name) <==> (after.names().take(i as int).contains(name) && (
                    !before@.contains_key(name) || before@[name] != after@[name])),
                forall|name: Seq<char>| #[trigger] set@.contains_key(name) ==> set@[name] == after@[name],
            decreases after.names().len() - i,
        {
            let name = after.name_at(i);
            let value = after.value_at(i);
            proof {
                lemma_take_contains(after.names(), i as int);
                after.lemma_names();
                lemma_take_fresh(after.names(), i as int);
            }
            let changed = match before.get(name) {
                Some(old) => !old.same(value),
                None => true,
            };
            if changed {
                set.insert(name.to_owned(), value.duplicate());
            }
            i += 1;
        }
        let mut removed: Vec<String> = Vec::new();
        let mut j: usize = 0;
        while j < before.len()
            invariant
                before.wf(),
                after.wf(),
                j <= before.names().len(),
                forall|name: Seq<char>|
                    #![trigger removed.deep_view().contains(name)]
                    #![trigger before.names().take(j as int).contains(name)]
                    removed.deep_view().contains(name) <==> (before.names().take(j as int).contains(name)
                        && !after@.contains_key(name)),
            decreases before.names().len() - j,
        {
            let name = before.name_at(j);
            proof {
                lemma_take_contains(before.names(), j as int);
            }
            if !after.contains_key(name) {
                let ghost old_removed = removed.deep_view();
                removed.push(name.to_owned());
                proof {
                    let now = removed.deep_view();
                    assert(now =~= old_removed.push(name@));
                    assert forall|k: Seq<char>| now.contains(k) <==> (old_removed.contains(k) || k
                        == name@) by {
                        if old_removed.contains(k) {
                            let x = choose|x: int| 0 <= x < old_removed.len() && old_removed[x] == k;
                            assert(now[x] == k);
                        }
                        if k == name@ {
                            assert(now[old_removed.len() as int] == k);
                        }
                        if now.contains(k) {
                            let x = choose|x: int| 0 <= x < now.len() && now[x] == k;
                            if x < old_removed.len() {
                                assert(old_removed[x] == k);
                            }
                        }
                    }
                }
            }
            j += 1;
        }
        let delta = PropertyDelta { set, removed };
        proof {
            after.lemma_names();
            before.lemma_names();
            assert(after.names().take(after.names().len() as int) =~= after.names());
            assert(before.names().take(before.names().len() as int) =~= before.names());
            assert forall|name: Seq<char>| delta@.contains_key(name) == delta_between(
                before@,
                after@,
            ).contains_key(name) by {
                if after@.contains_key(name) {
                    assert(after.names().contains(name));
                }
                if before@.contains_key(name) {
                    assert(before.names().contains(name));
                }
            }
            assert(delta@ =~= delta_between(before@, after@));
        }
        delta
    }

    /// A copy of the delta.
    pub fn duplicate(&self) -> (copy: PropertyDelta)
        requires
            self.wf(),
        ensures
            copy.wf(),
            copy@ == self@,
    {
        let copy = PropertyDelta { set: self.set.duplicate(), removed: clone_strings(&self.removed) };
        assert(copy@ =~= self@);
        copy
    }
}

impl Properties {
    /// Applies `delta`: deletes the names it deletes, and sets the values it sets.
    pub fn apply(&mut self, delta: &PropertyDelta)
        requires
            old(self).wf(),
            delta.wf(),
        ensures
            final(self).wf(),
            final(self)@ == apply_delta(old(self)@, delta@),
    {
        let ghost before = self@;
        let ghost gone = delta.removed.deep_view();
        let mut i: usize = 0;
        while i < delta.removed.len()
            invariant
                self.wf(),
                delta.wf(),
                gone == delta.removed.deep_view(),
                i <= gone.len(),
                self@ =~= Map::new(
                    |name: Seq<char>| before.contains_key(name) && !gone.take(i as int).contains(name),
                    |name: Seq<char>| before[name],
                ),
            decreases gone.len() - i,
        {
            proof {
                lemma_take_contains(gone, i as int);
            }
            self.remove(delta.removed[i].as_str());
            i += 1;
        }
        let ghost names = delta.set.names();
        let mut j: usize = 0;
        proof {
            delta.set.lemma_names();
            assert(gone.take(gone.len() as int) =~= gone);
        }
        while j < delta.set.len()
            invariant
                self.wf(),
                delta.wf(),
                gone == delta.removed.deep_view(),
                names == delta.set.names(),
                j <= names.len(),
                self@ =~= Map::new(
                    |name: Seq<char>|
                        names.take(j as int).contains(name) || (before.contains_key(name)
                            && !gone.contains(name)),
                    |name: Seq<char>|
                        if names.take(j as int).contains(name) {
                            delta.set@[name]
                        } else {
                            before[name]
                        },
                ),
            decreases names.len() - j,
        {
            proof {
                lemma_take_contains(names, j as int);
            }
            let name = delta.set.name_at(j);
            let value = delta.set.value_at(j);
            self.insert(name.to_owned(), value.duplicate());
            j += 1;
        }
        proof {
            delta.set.lemma_names();
            assert(names.take(names.len() as int) =~= names);
            assert(self@ =~= apply_delta(before, delta@));
        }
    }
}

/// The mathematical value of a [`Change`].
pub enum ChangeView {
    Added { parent: Ref, snapshot: SnapshotView },
    Removed { id: Ref },
    Updated { id: Ref, delta: Map<Seq<char>, Option<VariantView>>, paths: Option<Seq<Seq<char>>> },
}

/// One record of a change set.
#[derive(Debug)]
pub enum Change {
    /// A subtree was added as the last child of `parent`.
    Added { parent: Ref, snapshot: Snapshot },
    /// The instance `id` was removed, with all below it.
    Removed { id: Ref },
    /// The properties of the instance `id` changed by `delta`; where `paths`
    /// is given, the instance is now made from these paths.
    Updated { id: Ref, delta: PropertyDelta, paths: Option<Vec<String>> },
}

impl View for Change {
    type V = ChangeView;

    open spec fn view(&self) -> ChangeView {
        match self {
            Change::Added { parent, snapshot } => ChangeView::Added { parent: *parent, snapshot: snapshot@ },
            Change::Removed { id } => ChangeView::Removed { id: *id },
            Change::Updated { id, delta, paths } => ChangeView::Updated {
                id: *id,
                delta: delta@,
                paths: match paths {
                    Some(list) => Some(list.deep_view()),
                    None => None,
                },
            },
        }
    }
}

impl Change {
    /// The snapshot or the delta that the record holds is well formed.
    pub open spec fn wf(&self) -> bool {
        match self {
            Change::Added { parent, snapshot } => snapshot.wf(),
            Change::Removed { id } => true,
            Change::Updated { id, delta, paths } => delta.wf(),
        }
    }

    /// A copy of the record.
    pub fn duplicate(&self) -> (copy: Change)
        requires
            self.wf(),
        ensures
            copy.wf(),
            copy@ == self@,
    {
        match self {
            Change::Added { parent, snapshot } => Change::Added {
                parent: *parent,
                snapshot: snapshot.duplicate(),
            },
            Change::Removed { id } => Change::Removed { id: *id },
            Change::Updated { id, delta, paths } => Change::Updated {
                id: *id,
                delta: delta.duplicate(),
                paths: match paths {
                    Some(list) => Some(clone_strings(list)),
                    None => None,
                },
            },
        }
    }
}

/// An ordered batch of changes, delivered to subscribers as one.
#[derive(Debug)]
pub struct ChangeSet {
    pub changes: Vec<Change>,
}

impl View for ChangeSet {
    type V = Seq<ChangeView>;

    open spec fn view(&self) -> Seq<ChangeView> {
        Seq::new(self.changes@.len(), |i: int| self.changes@[i]@)
    }
}

impl ChangeSet {
    /// Every record is well formed.
    pub open spec fn wf(&self) -> bool {
        forall|i: int| 0 <= i < self.changes@.len() ==> (#[trigger] self.changes@[i]).wf()
    }

    /// The change set without records.
    pub fn new() -> (set: ChangeSet)
        ensures
            set.wf(),
            set@ == Seq::<ChangeView>::empty(),
    {
        let set = ChangeSet { changes: Vec::new() };
        assert(set@ =~= Seq::<ChangeView>::empty());
        set
    }

    /// Appends a record.
    pub fn push(&mut self, change: Change)
        requires
            old(self).wf(),
            change.wf(),
        ensures
            final(self).wf(),
            final(self)@ == old(self)@.push(change@),
    {
        self.changes.push(change);
        assert(self@ =~= old(self)@.push(change@));
    }

    /// Appends the records of `other`, in order.
    pub fn append(&mut self, other: ChangeSet)
        requires
            old(self).wf(),
            other.wf(),
        ensures
            final(self).wf(),
            final(self)@ == old(self)@ + other@,
    {
        let ghost added = other@;
        let ghost records = other.changes@;
        let mut other = other;
        self.changes.append(&mut other.changes);
        assert(self.changes@ =~= old(self).changes@ + records);
        assert(self@ =~= old(self)@ + added);
    }

    /// The number of records.
    pub fn len(&self) -> (count: usize)
        ensures
            count == self@.len(),
    {
        self.changes.len()
    }

    /// A copy of the first `count` records.
    pub fn prefix(&self, count: usize) -> (copy: ChangeSet)
        requires
            self.wf(),
            count <= self@.len(),
        ensures
            copy.wf(),
            copy@ == self@.take(count as int),
    {
        let mut changes: Vec<Change> = Vec::new();
        let mut i: usize = 0;
        while i < count
            invariant
                self.wf(),
                i <= count <= self.changes@.len(),
                changes@.len() == i,
                forall|j: int| 0 <= j < i ==> (#[trigger] changes@[j]).wf() && changes@[j]@ == self.changes@[j]@,
            decreases count - i,
        {
            changes.push(self.changes[i].duplicate());
            i += 1;
        }
        let copy = ChangeSet { changes };
        assert(copy@ =~= self@.take(count as int));
        copy
    }

    /// A copy of the change set.
    pub fn duplicate(&self) -> (copy: ChangeSet)
        requires
            self.wf(),
        ensures
            copy.wf(),
            copy@ == self@,
    {
        let mut changes: Vec<Change> = Vec::new();
        let mut i: usize = 0;
        while i < self.changes.len()
            invariant
                self.wf(),
                i <= self.changes@.len(),
                changes@.len() == i,
                forall|j: int| 0 <= j < i ==> (#[trigger] changes@[j]).wf() && changes@[j]@ == self.changes@[j]@,
            decreases self.changes@.len() - i,
        {
            changes.push(self.changes[i].duplicate());
            i += 1;
        }
        let copy = ChangeSet { changes };
        assert(copy@ =~= self@);
        copy
    }
}

} // verus!
