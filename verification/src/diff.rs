//! The structural difference between the subtree of a graph and a snapshot,
//! and the application of changes to a graph.

use vstd::prelude::*;
use crate::changes::{delta_between, Change, ChangeSet, ChangeView, PropertyDelta};
use crate::dom::{lemma_snapshot_children, Dom, DomView};
use crate::snapshot::{node_count, Ref, Snapshot, SnapshotView};
use crate::text::{clone_strings, once, same_strings, str_eq, unique_strings};
use crate::value::VariantView;

verus! {

/// Whether two snapshots have the same name and class: the key by which
/// siblings are paired.
pub open spec fn same_key(a: SnapshotView, b: SnapshotView) -> bool {
    a.name == b.name && a.class == b.class
}

/// Whether no two siblings have the same name and class, anywhere in the snapshot.
pub open spec fn distinct(snapshot: SnapshotView) -> bool
    decreases snapshot,
{
    &&& forall|i: int, j: int|
        0 <= i < j < snapshot.children.len() ==> !#[trigger] same_key(
            snapshot.children[i],
            snapshot.children[j],
        )
    &&& forall|i: int| 0 <= i < snapshot.children.len() ==> distinct(#[trigger] snapshot.children[i])
}

/// The position of the first of the first `count` snapshots of `list` that
/// has the key of `like`.
pub open spec fn find_key(list: Seq<SnapshotView>, like: SnapshotView, count: nat) -> Option<int>
    decreases count,
{
    if count == 0 || count > list.len() {
        None
    } else {
        match find_key(list, like, (count - 1) as nat) {
            Some(i) => Some(i),
            None => if same_key(list[count - 1], like) {
                Some(count - 1)
            } else {
                None
            },
        }
    }
}

/// The record that updates the properties of `old` to those of `new`, and
/// its paths to those of `new`, each once: no record where neither differs,
/// and no paths in the record where the paths do not differ.
pub open spec fn update_part(old: SnapshotView, new: SnapshotView) -> Seq<ChangeView> {
    if old.properties == new.properties && old.paths == once(new.paths) {
        Seq::empty()
    } else {
        seq![
            ChangeView::Updated {
                id: old.id->0,
                delta: delta_between(old.properties, new.properties),
                paths: if old.paths == once(new.paths) {
                    None
                } else {
                    Some(new.paths)
                },
            },
        ]
    }
}

/// The records that remove those of the first `count` children of `old`
/// whose key no child of `new` has, in the order of `old`.
pub open spec fn removals(old: SnapshotView, new: SnapshotView, count: nat) -> Seq<ChangeView>
    decreases count,
{
    if count == 0 || count > old.children.len() {
        Seq::empty()
    } else {
        let before = removals(old, new, (count - 1) as nat);
        if find_key(new.children, old.children[count - 1], new.children.len()) is None {
            before.push(ChangeView::Removed { id: old.children[count - 1].id->0 })
        } else {
            before
        }
    }
}

/// The records for the first `count` children of `new`, in the order of
/// `new`: for a child whose key a child of `old` has, the difference between
/// the two; for another, the record that adds it below `old`.
pub open spec fn pairings(old: SnapshotView, new: SnapshotView, count: nat) -> Seq<ChangeView>
    decreases new, count,
{
    if count == 0 || count > new.children.len() {
        Seq::empty()
    } else {
        let before = pairings(old, new, (count - 1) as nat);
        let child = new.children[count - 1];
        match find_key(old.children, child, old.children.len()) {
            Some(i) => before + difference(old.children[i], child),
            None => before.push(ChangeView::Added { parent: old.id->0, snapshot: child }),
        }
    }
}

/// The changes that turn the subtree `old`, whose instances carry their
/// identifiers, into what `new` describes: the update of the properties, then
/// the removal of the children without a partner, then, child by child of
/// `new`, the changes below a paired child or the addition of a new one.
pub open spec fn difference(old: SnapshotView, new: SnapshotView) -> Seq<ChangeView>
    decreases new, new.children.len() + 1,
{
    update_part(old, new) + removals(old, new, old.children.len()) + pairings(
        old,
        new,
        new.children.len(),
    )
}

/// What `find_key` returns is the first position with the key, if there is one.
pub(crate) proof fn lemma_find_key(list: Seq<SnapshotView>, like: SnapshotView, count: nat)
    requires
        count <= list.len(),
    ensures
        match find_key(list, like, count) {
            Some(i) => 0 <= i < count && same_key(list[i], like) && forall|j: int|
                0 <= j < i ==> !same_key(#[trigger] list[j], like),
            None => forall|j: int| 0 <= j < count ==> !same_key(#[trigger] list[j], like),
        },
    decreases count,
{
    if count > 0 {
        lemma_find_key(list, like, (count - 1) as nat);
    }
}

/// Whether one of `list` has the given name and class.
fn has_key(list: &Vec<Snapshot>, name: &str, class: &str) -> (found: bool)
    ensures
        found == exists|j: int|
            0 <= j < list@.len() && (#[trigger] list@[j])@.name == name@ && list@[j]@.class == class@,
{
    let mut i: usize = 0;
    while i < list.len()
        invariant
            i <= list@.len(),
            forall|j: int| 0 <= j < i ==> !((#[trigger] list@[j])@.name == name@ && list@[j]@.class == class@),
        decreases list@.len() - i,
    {
        proof {
            list@[i as int].lemma_view();
        }
        if str_eq(list[i].name.as_str(), name) && str_eq(list[i].class.as_str(), class) {
            return true;
        }
        i += 1;
    }
    false
}

/// Whether no two siblings have the same name and class, anywhere in the snapshot.
pub fn is_distinct(snapshot: &Snapshot) -> (fine: bool)
    ensures
        fine == distinct(snapshot@),
    decreases snapshot,
{
    proof {
        snapshot.lemma_view();
    }
    let kids = &snapshot.children;
    let mut j: usize = 0;
    while j < kids.len()
        invariant
            j <= kids@.len(),
            kids@ == snapshot.children@,
            snapshot@.children == crate::snapshot::views(snapshot.children@),
            forall|a: int, b: int|
                0 <= a < b < j ==> !#[trigger] same_key(snapshot@.children[a], snapshot@.children[b]),
            forall|a: int| 0 <= a < j ==> distinct(#[trigger] snapshot@.children[a]),
        decreases kids@.len() - j,
    {
        proof {
            kids@[j as int].lemma_view();
        }
        if !is_distinct(&kids[j]) {
            assert(!distinct(snapshot@.children[j as int]));
            return false;
        }
        let mut i: usize = 0;
        while i < j
            invariant
                i <= j < kids@.len(),
                kids@ == snapshot.children@,
                snapshot@.children == crate::snapshot::views(snapshot.children@),
                forall|a: int| 0 <= a < i ==> !#[trigger] same_key(snapshot@.children[a], snapshot@.children[j as int]),
            decreases j - i,
        {
            proof {
                kids@[i as int].lemma_view();
                kids@[j as int].lemma_view();
            }
            if str_eq(kids[i].name.as_str(), kids[j].name.as_str()) && str_eq(
                kids[i].class.as_str(),
                kids[j].class.as_str(),
            ) {
                assert(same_key(snapshot@.children[i as int], snapshot@.children[j as int]));
                return false;
            }
            i += 1;
        }
        j += 1;
    }
    true
}

/// The changes that turn the subtree at `id` into what `new` describes.
pub fn diff(dom: &Dom, id: Ref, new: &Snapshot) -> (changes: ChangeSet)
    requires
        dom.wf(),
        dom@.live(id),
        new.wf(),
    ensures
        changes.wf(),
        changes@ == difference(dom@.snapshot(id), new@),
    decreases new,
{
    let ghost old = dom@.snapshot(id);
    proof {
        dom.lemma_wf();
        assert(dom@.node_wf(id));
        lemma_snapshot_children(dom@, id);
        new.lemma_view();
    }
    let instance = dom.get(id).unwrap();
    let mut changes = ChangeSet::new();
    let delta = PropertyDelta::between(instance.properties(), &new.properties);
    let same_paths = same_strings(instance.paths(), &unique_strings(&new.paths));
    if !delta.is_empty() || !same_paths {
        let paths = if same_paths {
            None
        } else {
            Some(clone_strings(&new.paths))
        };
        changes.push(Change::Updated { id, delta, paths });
    }
    proof {
        crate::changes::lemma_delta_empty(old.properties, new@.properties);
        assert(changes@ =~= update_part(old, new@));
    }
    let children = instance.children();
    let mut i: usize = 0;
    while i < children.len()
        invariant
            dom.wf(),
            dom@.live(id),
            dom@.node_wf(id),
            new.wf(),
            changes.wf(),
            old == dom@.snapshot(id),
            children@ == dom@.node(id).children,
            old.children.len() == children@.len(),
            forall|k: int|
                0 <= k < children@.len() ==> #[trigger] old.children[k] == dom@.snapshot(children@[k]),
            new@.children == crate::snapshot::views(new.children@),
            i <= children@.len(),
            changes@ == update_part(old, new@) + removals(old, new@, i as nat),
        decreases children@.len() - i,
    {
        let child = dom.get(children[i]).unwrap();
        let kept = has_key(&new.children, child.name(), child.class());
        let ghost key = old.children[i as int];
        assert(key.name == child@.name && key.class == child@.class);
        proof {
            lemma_find_key(new@.children, old.children[i as int], new@.children.len());
            let found = find_key(new@.children, old.children[i as int], new@.children.len());
            if kept {
                let j = choose|j: int|
                    0 <= j < new.children@.len() && (#[trigger] new.children@[j])@.name == key.name
                        && new.children@[j]@.class == key.class;
                assert(same_key(new@.children[j], old.children[i as int]));
                assert(found is Some);
            } else {
                if found is Some {
                    let j = found->0;
                    assert(same_key(new@.children[j], old.children[i as int]));
                    assert(new.children@[j]@.name == key.name);
                }
            }
        }
        if !kept {
            changes.push(Change::Removed { id: children[i] });
        }
        proof {
            assert(changes@ =~= update_part(old, new@) + removals(old, new@, (i + 1) as nat));
        }
        i += 1;
    }
    let ghost prefix = update_part(old, new@) + removals(old, new@, old.children.len());
    let mut j: usize = 0;
    while j < new.children.len()
        invariant
            dom.wf(),
            dom@.live(id),
            dom@.node_wf(id),
            new.wf(),
            changes.wf(),
            old == dom@.snapshot(id),
            children@ == dom@.node(id).children,
            old.children.len() == children@.len(),
            forall|k: int|
                0 <= k < children@.len() ==> #[trigger] old.children[k] == dom@.snapshot(children@[k]),
            new@.children == crate::snapshot::views(new.children@),
            j <= new.children@.len(),
            changes@ == prefix + pairings(old, new@, j as nat),
        decreases new.children@.len() - j,
    {
        let child = &new.children[j];
        proof {
            child.lemma_view();
            lemma_find_key(old.children, new@.children[j as int], old.children.len());
        }
        let ghost found = find_key(old.children, new@.children[j as int], old.children.len());
        match dom.child_named(id, child.name.as_str(), child.class.as_str()) {
            Some(k) => {
                proof {
                    assert(same_key(old.children[k as int], new@.children[j as int]));
                    assert forall|m: int| 0 <= m < k implies !same_key(
                        #[trigger] old.children[m],
                        new@.children[j as int],
                    ) by {
                        assert(old.children[m] == dom@.snapshot(children@[m]));
                    }
                    assert(found == Some(k as int));
                }
                let below = diff(dom, children[k], child);
                changes.append(below);
            },
            None => {
                proof {
                    if found is Some {
                        let m = found->0;
                        assert(old.children[m] == dom@.snapshot(children@[m]));
                    }
                }
                changes.push(Change::Added { parent: id, snapshot: child.duplicate() });
            },
        }
        proof {
            assert(changes@ =~= prefix + pairings(old, new@, (j + 1) as nat));
        }
        j += 1;
    }
    changes
}

/// The graph after one change, where the change can be made: an addition
/// needs its parent, room for the identifiers, and a subtree without twin
/// siblings whose name and class no child of the parent has; a removal needs
/// an instance that is not the root; an update needs its instance.
pub open spec fn apply_one(dom: DomView, change: ChangeView) -> Option<DomView> {
    match change {
        ChangeView::Added { parent, snapshot } => if dom.live(parent) && dom.slots.len() + node_count(
            snapshot,
        ) <= usize::MAX && dom.takes(parent, snapshot) {
            Some(dom.insert(parent, snapshot))
        } else {
            None
        },
        ChangeView::Removed { id } => if dom.live(id) && id != dom.root {
            Some(dom.remove(id))
        } else {
            None
        },
        ChangeView::Updated { id, delta, paths } => if dom.live(id) {
            Some(dom.change(id, delta, paths))
        } else {
            None
        },
    }
}

/// The graph after the changes made in order up to the first that cannot be
/// made, and the number of changes made.
pub open spec fn applied(dom: DomView, changes: Seq<ChangeView>) -> (DomView, nat)
    decreases changes.len(),
{
    if changes.len() == 0 {
        (dom, 0)
    } else {
        let (before, done) = applied(dom, changes.drop_last());
        if done < changes.len() - 1 {
            (before, done)
        } else {
            match apply_one(before, changes.last()) {
                Some(after) => (after, done + 1),
                None => (before, done),
            }
        }
    }
}

/// Once a change could not be made, no later one is tried.
proof fn lemma_applied_stops(dom: DomView, changes: Seq<ChangeView>, count: int)
    requires
        0 <= count <= changes.len(),
        applied(dom, changes.take(count)).1 < count,
    ensures
        applied(dom, changes) == applied(dom, changes.take(count)),
    decreases changes.len() - count,
{
    if count < changes.len() {
        assert(changes.take(count + 1).drop_last() =~= changes.take(count));
        lemma_applied_stops(dom, changes, count + 1);
    } else {
        assert(changes.take(count) =~= changes);
    }
}

/// Makes the changes in order up to the first that cannot be made, and
/// returns the number of changes made.
pub fn apply(dom: &mut Dom, changes: &ChangeSet) -> (done: usize)
    requires
        old(dom).wf(),
        changes.wf(),
    ensures
        final(dom).wf(),
        (final(dom)@, done as nat) == applied(old(dom)@, changes@),
{
    let ghost start = dom@;
    let mut i: usize = 0;
    assert(changes@.take(0) =~= Seq::empty());
    while i < changes.changes.len()
        invariant
            dom.wf(),
            changes.wf(),
            i <= changes.changes@.len(),
            changes@.len() == changes.changes@.len(),
            start == old(dom)@,
            (dom@, i as nat) == applied(start, changes@.take(i as int)),
        decreases changes.changes@.len() - i,
    {
        let ghost before = dom@;
        proof {
            dom.lemma_wf();
            assert(changes@.take(i + 1).drop_last() =~= changes@.take(i as int));
            assert(changes@.take(i + 1).last() == changes.changes@[i as int]@);
            if let Change::Added { parent, snapshot } = changes.changes@[i as int] {
                snapshot.lemma_view();
            }
        }
        let made = match &changes.changes[i] {
            Change::Added { parent, snapshot } => {
                let room = match snapshot.count() {
                    Some(n) => n <= usize::MAX - dom.allocated(),
                    None => false,
                };
                if dom.contains(*parent) && room && is_distinct(snapshot) && dom.child_named(
                    *parent,
                    snapshot.name.as_str(),
                    snapshot.class.as_str(),
                ).is_none() {
                    dom.insert(*parent, snapshot);
                    true
                } else {
                    false
                }
            },
            Change::Removed { id } => {
                if dom.contains(*id) && id.0 != dom.root_ref().0 {
                    dom.remove(*id);
                    true
                } else {
                    false
                }
            },
            Change::Updated { id, delta, paths } => {
                if dom.contains(*id) {
                    dom.update_properties(*id, delta);
                    match paths {
                        Some(list) => {
                            proof {
                                dom.lemma_wf();
                            }
                            dom.set_paths(*id, list);
                        },
                        None => {},
                    }
                    true
                } else {
                    false
                }
            },
        };
        if !made {
            proof {
                assert(apply_one(before, changes.changes@[i as int]@) is None);
                assert(dom@ == before);
                assert(applied(start, changes@.take(i + 1)) == (before, i as nat));
                lemma_applied_stops(start, changes@, i + 1);
            }
            return i;
        }
        i += 1;
    }
    assert(changes@.take(i as int) =~= changes@);
    i
}

} // verus!
