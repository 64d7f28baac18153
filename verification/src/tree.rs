//! The tree: the instance graph with its checked operations and its index
//! between paths and instances.

use vstd::prelude::*;
use crate::changes::{ChangeSet, ChangeView, PropertyDelta};
use crate::completeness::{lemma_inserted_shape, same_shape};
use crate::diff::{applied, apply_one, difference, distinct, is_distinct};
use crate::dom::{lemma_insert, lemma_remove, lemma_update, Dom, DomView, Instance, InstanceView};
use crate::snapshot::{node_count, Ref, Snapshot, SnapshotView};
use crate::text::contains_string;

verus! {

/// Why an operation on the tree was not made.
#[derive(Debug, Clone, Copy, PartialEq, Eq, Structural)]
pub enum TreeError {
    /// The parent to insert below is not in the tree.
    UnknownParent,
    /// The instance to change or remove is not in the tree.
    UnknownReferent,
    /// The instance to remove is the root.
    RootRemoval,
    /// The identifiers are used up.
    OutOfIdentifiers,
    /// The subtree to insert has the name and class of a sibling, or holds
    /// two siblings of one name and class.
    DuplicateSibling,
    /// The snapshot to bring an instance in line with has another name or
    /// class than the instance.
    Mismatch,
}

/// The graph of one instance, the root, that `snapshot` describes at its top.
pub open spec fn root_only(snapshot: SnapshotView) -> DomView {
    DomView {
        slots: seq![
            Some(
                InstanceView {
                    name: snapshot.name,
                    class: snapshot.class,
                    properties: snapshot.properties,
                    children: Seq::empty(),
                    parent: None,
                    paths: crate::text::once(snapshot.paths),
                },
            ),
        ],
        root: Ref(0),
    }
}

/// The instances that were made, in whole or in part, from `path`.
pub open spec fn refs_at(dom: DomView, path: Seq<char>) -> Set<Ref> {
    Set::new(|id: Ref| dom.live(id) && dom.node(id).paths.contains(path))
}

/// The tree of instances.
#[derive(Debug)]
pub struct Tree {
    dom: Dom,
}

impl View for Tree {
    type V = DomView;

    closed spec fn view(&self) -> DomView {
        self.dom@
    }
}

impl Tree {
    /// The graph of the tree is sound.
    pub closed spec fn wf(&self) -> bool {
        self.dom.wf()
    }

    /// A sound tree has a sound view, without twin siblings.
    pub proof fn lemma_wf(&self)
        requires
            self.wf(),
        ensures
            self@.wf(),
            self@.sound(),
    {
        self.dom.lemma_wf();
    }

    /// The tree that `snapshot` describes: its top is the root, with the
    /// identifier 0, and its children are inserted below in order. A snapshot
    /// with two siblings of one name and class is refused, and so is one of
    /// more instances than there are identifiers.
    pub fn new(snapshot: &Snapshot) -> (made: Result<Tree, TreeError>)
        requires
            snapshot.wf(),
        ensures
            match made {
                Ok(tree) => distinct(snapshot@) && node_count(snapshot@) <= usize::MAX && tree.wf() && tree@
                    == root_only(snapshot@).insert_children(Ref(0), snapshot@, snapshot@.children.len()),
                Err(TreeError::DuplicateSibling) => !distinct(snapshot@),
                Err(TreeError::OutOfIdentifiers) => distinct(snapshot@) && node_count(snapshot@)
                    > usize::MAX,
                Err(_) => false,
            },
    {
        if !is_distinct(snapshot) {
            return Err(TreeError::DuplicateSibling);
        }
        if snapshot.count().is_none() {
            return Err(TreeError::OutOfIdentifiers);
        }
        proof {
            snapshot.lemma_view();
        }
        let mut dom = Dom::new(
            snapshot.name.as_str(),
            snapshot.class.as_str(),
            snapshot.properties.duplicate(),
            crate::text::clone_strings(&snapshot.paths),
        );
        let ghost first = dom@;
        proof {
            dom.lemma_wf();
        }
        assert(first == root_only(snapshot@));
        let mut i: usize = 0;
        while i < snapshot.children.len()
            invariant
                dom.wf(),
                snapshot.wf(),
                distinct(snapshot@),
                first == root_only(snapshot@),
                first.wf(),
                node_count(snapshot@) <= usize::MAX,
                snapshot@.children == crate::snapshot::views(snapshot.children@),
                i <= snapshot.children@.len(),
                dom@ == first.insert_children(Ref(0), snapshot@, i as nat),
            decreases snapshot.children@.len() - i,
        {
            proof {
                crate::snapshot::lemma_children_count_grows(
                    snapshot@,
                    (i + 1) as nat,
                    snapshot@.children.len(),
                );
                crate::dom::lemma_insert_children(first, Ref(0), snapshot@, i as nat);
                crate::completeness::lemma_next_child_free(first, Ref(0), snapshot@, i as nat);
            }
            dom.insert(Ref(0), &snapshot.children[i]);
            i += 1;
        }
        Ok(Tree { dom })
    }

    /// The instance graph of the tree.
    pub fn inner(&self) -> (dom: &Dom)
        ensures
            dom@ == self@,
            self.wf() ==> dom.wf(),
    {
        &self.dom
    }

    /// The identifier of the root.
    pub fn root_ref(&self) -> (root: Ref)
        ensures
            root == self@.root,
    {
        self.dom.root_ref()
    }

    /// The root.
    pub fn root(&self) -> (root: &Instance)
        requires
            self.wf(),
        ensures
            root@ == self@.node(self@.root),
            root.id() == self@.root,
            root.wf(),
    {
        self.dom.root()
    }

    /// The roots of a place: the children of the root, in order.
    pub fn place_root_refs(&self) -> (roots: &[Ref])
        requires
            self.wf(),
        ensures
            roots@ == self@.node(self@.root).children,
    {
        self.dom.root().children()
    }

    /// The instance that `id` names, if it is in the tree.
    pub fn get_instance(&self, id: Ref) -> (found: Option<&Instance>)
        requires
            self.wf(),
        ensures
            match found {
                Some(instance) => self@.live(id) && instance@ == self@.node(id) && instance.id() == id
                    && instance.wf(),
                None => !self@.live(id),
            },
    {
        self.dom.get(id)
    }

    /// The paths that the instance `id` was made from, if it is in the tree.
    pub fn get_paths(&self, id: Ref) -> (paths: Option<&Vec<String>>)
        requires
            self.wf(),
        ensures
            match paths {
                Some(list) => self@.live(id) && list.deep_view() == self@.node(id).paths,
                None => !self@.live(id),
            },
    {
        match self.dom.get(id) {
            Some(instance) => Some(instance.paths()),
            None => None,
        }
    }

    /// The instances that were made from `path`, by rising identifier.
    pub fn get_ids(&self, path: &str) -> (ids: Vec<Ref>)
        requires
            self.wf(),
        ensures
            ids@.to_set() == refs_at(self@, path@),
            forall|i: int, j: int| 0 <= i < j < ids@.len() ==> ids@[i].0 < ids@[j].0,
    {
        let mut ids: Vec<Ref> = Vec::new();
        let mut i: usize = 0;
        while i < self.dom.allocated()
            invariant
                self.wf(),
                i <= self@.slots.len(),
                forall|a: int, b: int| 0 <= a < b < ids@.len() ==> ids@[a].0 < ids@[b].0,
                forall|a: int| 0 <= a < ids@.len() ==> (#[trigger] ids@[a]).0 < i,
                forall|id: Ref|
                    ids@.contains(id) <==> (id.0 < i && self@.live(id) && self@.node(id).paths.contains(
                        path@,
                    )),
            decreases self@.slots.len() - i,
        {
            let ghost before = ids@;
            let held = match self.dom.get(Ref(i)) {
                Some(instance) => contains_string(instance.paths(), path),
                None => false,
            };
            if held {
                ids.push(Ref(i));
                proof {
                    assert forall|id: Ref| ids@.contains(id) <==> (before.contains(id) || id == Ref(i)) by {
                        if before.contains(id) {
                            let a = choose|a: int| 0 <= a < before.len() && before[a] == id;
                            assert(ids@[a] == id);
                        }
                        if id == Ref(i) {
                            assert(ids@[before.len() as int] == id);
                        }
                        if ids@.contains(id) {
                            let a = choose|a: int| 0 <= a < ids@.len() && ids@[a] == id;
                            if a < before.len() {
                                assert(before[a] == id);
                            }
                        }
                    }
                }
            }
            proof {
                assert forall|id: Ref|
                    ids@.contains(id) <==> (id.0 < i + 1 && self@.live(id) && self@.node(id).paths.contains(
                        path@,
                    )) by {
                    if id.0 == i {
                        assert(id == Ref(i));
                    }
                    if before.contains(id) {
                    }
                }
            }
            i += 1;
        }
        proof {
            assert(ids@.to_set() =~= refs_at(self@, path@));
        }
        ids
    }

    /// Inserts the subtree that `snapshot` describes as the last child of
    /// `parent`, and returns the identifier of its root.
    pub fn insert(&mut self, parent: Ref, snapshot: &Snapshot) -> (inserted: Result<Ref, TreeError>)
        requires
            old(self).wf(),
            snapshot.wf(),
        ensures
            final(self).wf(),
            match inserted {
                Ok(id) => old(self)@.live(parent) && old(self)@.takes(parent, snapshot@) && old(self)@.slots.len() + node_count(snapshot@) <= usize::MAX && id == old(self)@.next()
                    && final(self)@ == old(self)@.insert(parent, snapshot@),
                Err(TreeError::UnknownParent) => !old(self)@.live(parent) && final(self)@ == old(self)@,
                Err(TreeError::DuplicateSibling) => old(self)@.live(parent) && !old(self)@.takes(
                    parent,
                    snapshot@,
                ) && final(self)@ == old(self)@,
                Err(TreeError::OutOfIdentifiers) => old(self)@.live(parent) && old(self)@.takes(
                    parent,
                    snapshot@,
                ) && old(self)@.slots.len() + node_count(snapshot@) > usize::MAX && final(self)@ == old(self)@,
                Err(_) => false,
            },
    {
        if !self.dom.contains(parent) {
            return Err(TreeError::UnknownParent);
        }
        proof {
            snapshot.lemma_view();
        }
        if !is_distinct(snapshot) || self.dom.child_named(
            parent,
            snapshot.name.as_str(),
            snapshot.class.as_str(),
        ).is_some() {
            return Err(TreeError::DuplicateSibling);
        }
        let room = match snapshot.count() {
            Some(n) => n <= usize::MAX - self.dom.allocated(),
            None => false,
        };
        if !room {
            return Err(TreeError::OutOfIdentifiers);
        }
        Ok(self.dom.insert(parent, snapshot))
    }

    /// Removes the instance `id` and all below it.
    pub fn remove(&mut self, id: Ref) -> (removed: Result<(), TreeError>)
        requires
            old(self).wf(),
        ensures
            final(self).wf(),
            match removed {
                Ok(_) => old(self)@.live(id) && id != old(self)@.root && final(self)@ == old(self)@.remove(
                    id,
                ),
                Err(TreeError::UnknownReferent) => !old(self)@.live(id) && final(self)@ == old(self)@,
                Err(TreeError::RootRemoval) => id == old(self)@.root && final(self)@ == old(self)@,
                Err(_) => false,
            },
    {
        proof {
            self.dom.lemma_wf();
        }
        if !self.dom.contains(id) {
            return Err(TreeError::UnknownReferent);
        }
        if id.0 == self.dom.root_ref().0 {
            return Err(TreeError::RootRemoval);
        }
        self.dom.remove(id);
        Ok(())
    }

    /// Changes the properties of the instance `id` by `delta`.
    pub fn update_properties(&mut self, id: Ref, delta: &PropertyDelta) -> (updated: Result<
        (),
        TreeError,
    >)
        requires
            old(self).wf(),
            delta.wf(),
        ensures
            final(self).wf(),
            match updated {
                Ok(_) => old(self)@.live(id) && final(self)@ == old(self)@.update(id, delta@),
                Err(TreeError::UnknownReferent) => !old(self)@.live(id) && final(self)@ == old(self)@,
                Err(_) => false,
            },
    {
        if !self.dom.contains(id) {
            return Err(TreeError::UnknownReferent);
        }
        self.dom.update_properties(id, delta);
        Ok(())
    }

    /// The snapshot of the subtree at `id`, if `id` is in the tree.
    pub fn snapshot_of(&self, id: Ref) -> (snapshot: Option<Snapshot>)
        requires
            self.wf(),
        ensures
            match snapshot {
                Some(s) => self@.live(id) && s.wf() && s@ == self@.snapshot(id) && distinct(s@),
                None => !self@.live(id),
            },
    {
        proof {
            self.dom.lemma_wf();
            if self@.live(id) {
                crate::completeness::lemma_distinct_snapshot(self@, id);
            }
        }
        if self.dom.contains(id) {
            Some(self.dom.snapshot(id))
        } else {
            None
        }
    }

    /// The changes that turn the subtree at `id` into what `new` describes,
    /// if `id` is in the tree.
    pub fn diff(&self, id: Ref, new: &Snapshot) -> (changes: Option<ChangeSet>)
        requires
            self.wf(),
            new.wf(),
        ensures
            match changes {
                Some(set) => self@.live(id) && set.wf() && set@ == difference(self@.snapshot(id), new@),
                None => !self@.live(id),
            },
    {
        if self.dom.contains(id) {
            Some(crate::diff::diff(&self.dom, id, new))
        } else {
            None
        }
    }

    /// Removes every instance that was made from `path` or from paths below
    /// it and from nothing else, and returns the records of the removals.
    pub fn forget(&mut self, path: &str) -> (changes: ChangeSet)
        requires
            old(self).wf(),
        ensures
            final(self).wf(),
            changes.wf(),
            (final(self)@, changes@) == crate::processor::forgotten(
                old(self)@,
                path@,
                old(self)@.slots.len(),
            ),
    {
        crate::processor::forget(&mut self.dom, path)
    }

    /// Makes the changes in order up to the first that cannot be made, and
    /// returns the number of changes made.
    pub fn apply(&mut self, changes: &ChangeSet) -> (done: usize)
        requires
            old(self).wf(),
            changes.wf(),
        ensures
            final(self).wf(),
            (final(self)@, done as nat) == applied(old(self)@, changes@),
    {
        crate::diff::apply(&mut self.dom, changes)
    }
}

/// The paths of the instance `id` after a change: those that an update
/// with paths gives it, each once, and else those it had.
pub open spec fn paths_after(dom: DomView, change: ChangeView, id: Ref) -> Seq<Seq<char>> {
    match change {
        ChangeView::Updated { id: updated, delta, paths: Some(list) } => if updated == id {
            crate::text::once(list)
        } else {
            dom.node(id).paths
        },
        _ => dom.node(id).paths,
    }
}

/// Consistency of the index between paths and instances. Whatever change is
/// made to a sound tree, the tree stays sound, no instance that was removed
/// comes back, and every instance that stays has the paths it had, but one
/// that is updated with paths, which is then made from those paths, each
/// once; the instances of an added subtree have, one by one, the paths of
/// the snapshot that they were made from, each once.
pub proof fn lemma_path_index(dom: DomView, change: ChangeView)
    requires
        dom.sound(),
        apply_one(dom, change) is Some,
    ensures
        apply_one(dom, change)->0.sound(),
        forall|id: Ref|
            dom.live(id) && (#[trigger] apply_one(dom, change)->0.live(id)) ==> apply_one(
                dom,
                change,
            )->0.node(id).paths == paths_after(dom, change, id),
        forall|id: Ref|
            id.0 < dom.slots.len() && !dom.live(id) ==> !(#[trigger] apply_one(dom, change)->0.live(id)),
        change matches ChangeView::Added { parent, snapshot } ==> same_shape(
            apply_one(dom, change)->0.snapshot(dom.next()),
            snapshot,
        ),
{
    let after = apply_one(dom, change)->0;
    match change {
        ChangeView::Added { parent, snapshot } => {
            lemma_insert(dom, parent, snapshot);
            lemma_inserted_shape(dom, parent, snapshot);
            crate::completeness::lemma_insert_distinct(dom, parent, snapshot);
        },
        ChangeView::Removed { id } => {
            lemma_remove(dom, id);
            crate::dom::lemma_remove_distinct(dom, id);
            assert(dom.node_wf(id));
            assert forall|other: Ref| dom.live(other) && #[trigger] after.live(other) implies after.node(
                other,
            ).paths == dom.node(other).paths by {
                if dom.node(id).parent != Some(other) {
                    assert(after.node(other) == dom.node(other));
                }
            }
        },
        ChangeView::Updated { id, delta, paths } => {
            lemma_update(dom, id, delta);
            crate::dom::lemma_update_distinct(dom, id, delta);
            match paths {
                Some(list) => {
                    crate::dom::lemma_repath(dom.update(id, delta), id, list);
                },
                None => {},
            }
        },
    }
}

} // verus!
