//! The instance graph: an arena of instances, each with its parent and its
//! children in order.

use vstd::prelude::*;
use crate::changes::{apply_delta, PropertyDelta};
use crate::snapshot::{
    children_count, lemma_children_count_grows, node_count, Ref, Snapshot, SnapshotView,
};
use crate::diff::distinct;
use crate::text::str_eq;
use crate::text::{lemma_unique, lemma_without, once, unique_strings, without};
use crate::value::{Properties, VariantView};

verus! {

/// The mathematical value of an [`Instance`].
pub struct InstanceView {
    pub name: Seq<char>,
    pub class: Seq<char>,
    pub properties: Map<Seq<char>, VariantView>,
    pub children: Seq<Ref>,
    pub parent: Option<Ref>,
    /// The paths that the instance was made from.
    pub paths: Seq<Seq<char>>,
}

/// One instance of the graph.
#[derive(Debug)]
pub struct Instance {
    referent: Ref,
    name: String,
    class: String,
    properties: Properties,
    children: Vec<Ref>,
    parent: Option<Ref>,
    paths: Vec<String>,
}

impl View for Instance {
    type V = InstanceView;

    closed spec fn view(&self) -> InstanceView {
        InstanceView {
            name: self.name@,
            class: self.class@,
            properties: self.properties@,
            children: self.children@,
            parent: self.parent,
            paths: self.paths.deep_view(),
        }
    }
}

impl Instance {
    /// The identifier that the instance was made with.
    pub closed spec fn id(&self) -> Ref {
        self.referent
    }

    /// The property map of the instance is well formed.
    pub closed spec fn wf(&self) -> bool {
        self.properties.wf()
    }

    /// The name of the instance.
    pub fn name(&self) -> (name: &str)
        ensures
            name@ == self@.name,
    {
        self.name.as_str()
    }

    /// The class of the instance.
    pub fn class(&self) -> (class: &str)
        ensures
            class@ == self@.class,
    {
        self.class.as_str()
    }

    /// The properties of the instance.
    pub fn properties(&self) -> (properties: &Properties)
        ensures
            properties@ == self@.properties,
            self.wf() ==> properties.wf(),
    {
        &self.properties
    }

    /// The identifier of the instance.
    pub fn referent(&self) -> (id: Ref)
        ensures
            id == self.id(),
    {
        self.referent
    }

    /// The children of the instance, in order.
    pub fn children(&self) -> (children: &[Ref])
        ensures
            children@ == self@.children,
    {
        self.children.as_slice()
    }

    /// The paths that the instance was made from.
    pub fn paths(&self) -> (paths: &Vec<String>)
        ensures
            paths.deep_view() == self@.paths,
    {
        &self.paths
    }

    /// The parent of the instance; the root has none.
    pub fn parent(&self) -> (parent: Option<Ref>)
        ensures
            parent == self@.parent,
    {
        self.parent
    }
}

/// The mathematical value of a [`Dom`]: a slot for each identifier handed out
/// so far, empty where the instance was removed, and the root.
pub struct DomView {
    pub slots: Seq<Option<InstanceView>>,
    pub root: Ref,
}

impl DomView {
    /// Whether `id` names an instance of the graph.
    pub open spec fn live(self, id: Ref) -> bool {
        id.0 < self.slots.len() && self.slots[id.0 as int] is Some
    }

    /// The instance that `id` names.
    pub open spec fn node(self, id: Ref) -> InstanceView {
        self.slots[id.0 as int]->0
    }

    /// The identifier that the next instance gets.
    pub open spec fn next(self) -> Ref {
        Ref(self.slots.len() as usize)
    }

    /// The links of the instance `id` are sound: its children are distinct
    /// instances made after it that name it as their parent, and its parent,
    /// which only the root lacks, was made before it and lists it as a child.
    pub open spec fn node_wf(self, id: Ref) -> bool {
        let node = self.node(id);
        &&& node.children.no_duplicates()
        &&& forall|i: int|
            0 <= i < node.children.len() ==> id.0 < (#[trigger] node.children[i]).0 && self.live(
                node.children[i],
            ) && self.node(node.children[i]).parent == Some(id)
        &&& match node.parent {
            Some(parent) => parent.0 < id.0 && self.live(parent) && self.node(parent).children.contains(
                id,
            ),
            None => id == self.root,
        }
    }

    /// The root is an instance without a parent, and the links of every instance are sound.
    pub open spec fn wf(self) -> bool {
        &&& self.slots.len() <= usize::MAX
        &&& self.live(self.root)
        &&& self.node(self.root).parent is None
        &&& forall|id: Ref| self.live(id) ==> #[trigger] self.node_wf(id)
    }

    /// Whether the instances `a` and `b` have the same name and class.
    pub open spec fn twins(self, a: Ref, b: Ref) -> bool {
        self.node(a).name == self.node(b).name && self.node(a).class == self.node(b).class
    }

    /// Whether a new child of `parent` may bear the name `name` and the class
    /// `class`: no child of `parent` has both already.
    pub open spec fn free(self, parent: Ref, name: Seq<char>, class: Seq<char>) -> bool {
        forall|i: int|
            0 <= i < self.node(parent).children.len() ==> !(self.node(
                #[trigger] self.node(parent).children[i],
            ).name == name && self.node(self.node(parent).children[i]).class == class)
    }

    /// No two children of the instance `id` have the same name and class,
    /// and none of its paths occurs twice.
    pub open spec fn node_distinct(self, id: Ref) -> bool {
        &&& forall|i: int, j: int|
            0 <= i < j < self.node(id).children.len() ==> !#[trigger] self.twins(
                self.node(id).children[i],
                self.node(id).children[j],
            )
        &&& self.node(id).paths.no_duplicates()
    }

    /// No two siblings have the same name and class, and no instance has a path twice.
    pub open spec fn distinct(self) -> bool {
        forall|id: Ref| self.live(id) ==> #[trigger] self.node_distinct(id)
    }

    /// The graph is sound in its links, and it has no twin siblings and no
    /// path twice.
    pub open spec fn sound(self) -> bool {
        self.wf() && self.distinct()
    }

    /// Whether the subtree that `snapshot` describes can be inserted below
    /// `parent` without twins: no child of `parent` has its name and class,
    /// and it describes no twin siblings itself.
    pub open spec fn takes(self, parent: Ref, snapshot: SnapshotView) -> bool {
        distinct(snapshot) && self.free(parent, snapshot.name, snapshot.class)
    }

    /// The graph with a new instance without children as the last child of `parent`.
    pub open spec fn add_node(
        self,
        parent: Ref,
        name: Seq<char>,
        class: Seq<char>,
        properties: Map<Seq<char>, VariantView>,
        paths: Seq<Seq<char>>,
    ) -> DomView {
        let above = self.node(parent);
        DomView {
            slots: self.slots.update(
                parent.0 as int,
                Some(InstanceView { children: above.children.push(self.next()), ..above }),
            ).push(
                Some(
                    InstanceView {
                        name,
                        class,
                        properties,
                        children: Seq::empty(),
                        parent: Some(parent),
                        paths,
                    },
                ),
            ),
            root: self.root,
        }
    }

    /// The graph with the subtree that `snapshot` describes as the last child
    /// of `parent`. The subtree's root gets the next identifier, and the
    /// instances below it the following ones, each child's subtree in order
    /// before the next child. Each instance gets the paths of its snapshot,
    /// each path once.
    pub open spec fn insert(self, parent: Ref, snapshot: SnapshotView) -> DomView
        decreases snapshot, snapshot.children.len() + 1,
    {
        self.add_node(
            parent,
            snapshot.name,
            snapshot.class,
            snapshot.properties,
            once(snapshot.paths),
        ).insert_children(
            self.next(),
            snapshot,
            snapshot.children.len(),
        )
    }

    /// The graph with the first `count` children of `snapshot` inserted below `parent`.
    pub open spec fn insert_children(self, parent: Ref, snapshot: SnapshotView, count: nat) -> DomView
        decreases snapshot, count,
    {
        if count == 0 || count > snapshot.children.len() {
            self
        } else {
            self.insert_children(parent, snapshot, (count - 1) as nat).insert(
                parent,
                snapshot.children[count - 1],
            )
        }
    }

    /// The graph with the properties of `id` changed by `delta`.
    pub open spec fn update(self, id: Ref, delta: Map<Seq<char>, Option<VariantView>>) -> DomView {
        let node = self.node(id);
        DomView {
            slots: self.slots.update(
                id.0 as int,
                Some(InstanceView { properties: apply_delta(node.properties, delta), ..node }),
            ),
            root: self.root,
        }
    }

    /// The graph with the instance `id` made from `paths`, each once.
    pub open spec fn repath(self, id: Ref, paths: Seq<Seq<char>>) -> DomView {
        DomView {
            slots: self.slots.update(id.0 as int, Some(InstanceView { paths: once(paths), ..self.node(id) })),
            root: self.root,
        }
    }

    /// The graph with the properties of `id` changed by `delta` and, where
    /// paths are given, the instance made from them.
    pub open spec fn change(
        self,
        id: Ref,
        delta: Map<Seq<char>, Option<VariantView>>,
        paths: Option<Seq<Seq<char>>>,
    ) -> DomView {
        match paths {
            Some(list) => self.update(id, delta).repath(id, list),
            None => self.update(id, delta),
        }
    }

    /// Whether `id` is `top` or below it.
    pub open spec fn in_subtree(self, top: Ref, id: Ref) -> bool
        decreases id.0,
    {
        if id == top {
            true
        } else if self.live(id) {
            match self.node(id).parent {
                Some(parent) => parent.0 < id.0 && self.in_subtree(top, parent),
                None => false,
            }
        } else {
            false
        }
    }

    /// The snapshot of the subtree at `id`: every instance with its
    /// identifier, name, class, properties and paths, and its children in the
    /// order in which the graph holds them.
    pub open spec fn snapshot(self, id: Ref) -> SnapshotView
        decreases self.slots.len() - id.0,
    {
        let node = self.node(id);
        SnapshotView {
            id: Some(id),
            name: node.name,
            class: node.class,
            properties: node.properties,
            children: Seq::new(
                node.children.len(),
                |i: int|
                    if 0 <= i < node.children.len() && id.0 < node.children[i].0 < self.slots.len() {
                        self.snapshot(node.children[i])
                    } else {
                        arbitrary()
                    },
            ),
            paths: node.paths,
        }
    }

    /// The graph without `id` and all below it.
    pub open spec fn remove(self, id: Ref) -> DomView {
        DomView {
            slots: Seq::new(
                self.slots.len(),
                |i: int|
                    if self.slots[i] is None || self.in_subtree(id, Ref(i as usize)) {
                        None
                    } else if self.node(id).parent == Some(Ref(i as usize)) {
                        let node = self.slots[i]->0;
                        Some(InstanceView { children: without(node.children, id), ..node })
                    } else {
                        self.slots[i]
                    },
            ),
            root: self.root,
        }
    }
}

/// What adding an instance does to a sound graph: the graph stays sound, the
/// new instance gets the next identifier, and no other instance changes but
/// the parent, which gets one more child.
pub proof fn lemma_add_node(
    dom: DomView,
    parent: Ref,
    name: Seq<char>,
    class: Seq<char>,
    properties: Map<Seq<char>, VariantView>,
    paths: Seq<Seq<char>>,
)
    requires
        dom.wf(),
        dom.live(parent),
        dom.slots.len() < usize::MAX,
    ensures
        dom.add_node(parent, name, class, properties, paths).wf(),
        dom.add_node(parent, name, class, properties, paths).slots.len() == dom.slots.len() + 1,
        dom.add_node(parent, name, class, properties, paths).live(dom.next()),
        dom.add_node(parent, name, class, properties, paths).node(dom.next()) == (InstanceView {
            name,
            class,
            properties,
            children: Seq::empty(),
            parent: Some(parent),
            paths,
        }),
        forall|id: Ref| dom.live(id) ==> #[trigger] dom.add_node(parent, name, class, properties, paths).live(id),
        forall|id: Ref|
            dom.live(id) && id != parent ==> #[trigger] dom.add_node(parent, name, class, properties, paths).node(id) == dom.node(id),
        dom.add_node(parent, name, class, properties, paths).node(parent) == (InstanceView {
            children: dom.node(parent).children.push(dom.next()),
            ..dom.node(parent)
        }),
{
    let after = dom.add_node(parent, name, class, properties, paths);
    let fresh = dom.next();
    assert(fresh.0 == dom.slots.len());
    assert(dom.node_wf(parent));
    assert forall|id: Ref| after.live(id) implies #[trigger] after.node_wf(id) by {
        let node = after.node(id);
        if id == fresh {
            assert(after.node(parent).children.last() == fresh);
        } else {
            assert(dom.live(id));
            assert(dom.node_wf(id));
            let old_node = dom.node(id);
            if id == parent {
                assert forall|i: int, j: int| 0 <= i < j < node.children.len() implies node.children[i]
                    != node.children[j] by {
                    if j == node.children.len() - 1 {
                        assert(dom.live(old_node.children[i]));
                    }
                }
                assert forall|i: int| 0 <= i < node.children.len() implies id.0 < (
                #[trigger] node.children[i]).0 && after.live(node.children[i]) && after.node(
                    node.children[i],
                ).parent == Some(id) by {
                    if i < old_node.children.len() {
                        assert(dom.live(old_node.children[i]));
                    }
                }
            } else {
                assert forall|i: int| 0 <= i < node.children.len() implies id.0 < (
                #[trigger] node.children[i]).0 && after.live(node.children[i]) && after.node(
                    node.children[i],
                ).parent == Some(id) by {
                    assert(dom.live(old_node.children[i]));
                }
            }
            match old_node.parent {
                Some(above) => {
                    let k = choose|k: int|
                        0 <= k < dom.node(above).children.len() && dom.node(above).children[k] == id;
                    assert(after.node(above).children[k] == id);
                },
                None => {},
            }
        }
    }
}

/// Adding an instance whose name and class no child of the parent has, with
/// no path twice, makes no twins.
pub proof fn lemma_add_node_distinct(
    dom: DomView,
    parent: Ref,
    name: Seq<char>,
    class: Seq<char>,
    properties: Map<Seq<char>, VariantView>,
    paths: Seq<Seq<char>>,
)
    requires
        dom.sound(),
        dom.live(parent),
        dom.slots.len() < usize::MAX,
        dom.free(parent, name, class),
        paths.no_duplicates(),
    ensures
        dom.add_node(parent, name, class, properties, paths).distinct(),
{
    let after = dom.add_node(parent, name, class, properties, paths);
    let fresh = dom.next();
    lemma_add_node(dom, parent, name, class, properties, paths);
    assert(dom.node_wf(parent));
    assert forall|id: Ref| after.live(id) implies #[trigger] after.node_distinct(id) by {
        let kids = after.node(id).children;
        if id == fresh {
        } else {
            assert(dom.live(id));
            assert(dom.node_wf(id));
            assert(dom.node_distinct(id));
            let old_kids = dom.node(id).children;
            assert forall|i: int, j: int| 0 <= i < j < kids.len() implies !#[trigger] after.twins(
                kids[i],
                kids[j],
            ) by {
                assert(dom.live(old_kids[i]));
                assert(after.node(kids[i]).name == dom.node(old_kids[i]).name);
                assert(after.node(kids[i]).class == dom.node(old_kids[i]).class);
                if j < old_kids.len() {
                    assert(dom.live(old_kids[j]));
                    assert(after.node(kids[j]).name == dom.node(old_kids[j]).name);
                    assert(after.node(kids[j]).class == dom.node(old_kids[j]).class);
                    assert(!dom.twins(old_kids[i], old_kids[j]));
                } else {
                    assert(id == parent);
                    assert(kids[j] == fresh);
                }
            }
        }
    }
}

/// Changing the properties of an instance makes no twins.
pub proof fn lemma_update_distinct(dom: DomView, id: Ref, delta: Map<Seq<char>, Option<VariantView>>)
    requires
        dom.sound(),
        dom.live(id),
    ensures
        dom.update(id, delta).distinct(),
{
    let after = dom.update(id, delta);
    assert forall|other: Ref| after.live(other) implies #[trigger] after.node_distinct(other) by {
        assert(dom.live(other));
        assert(dom.node_wf(other));
        assert(dom.node_distinct(other));
        let kids = after.node(other).children;
        assert forall|i: int, j: int| 0 <= i < j < kids.len() implies !#[trigger] after.twins(
            kids[i],
            kids[j],
        ) by {
            assert(dom.live(kids[i]) && dom.live(kids[j]));
            assert(!dom.twins(kids[i], kids[j]));
        }
    }
}

/// What making an instance from other paths does to a sound graph: it stays
/// sound and without twins, and nothing else changes.
pub proof fn lemma_repath(dom: DomView, id: Ref, paths: Seq<Seq<char>>)
    requires
        dom.wf(),
        dom.live(id),
    ensures
        dom.repath(id, paths).wf(),
        dom.distinct() ==> dom.repath(id, paths).distinct(),
        forall|other: Ref| dom.live(other) <==> #[trigger] dom.repath(id, paths).live(other),
{
    let after = dom.repath(id, paths);
    lemma_unique(paths, paths.len());
    assert forall|other: Ref| after.live(other) implies #[trigger] after.node_wf(other) by {
        assert(dom.live(other));
        assert(dom.node_wf(other));
        let node = after.node(other);
        assert forall|i: int| 0 <= i < node.children.len() implies other.0 < (
        #[trigger] node.children[i]).0 && after.live(node.children[i]) && after.node(
            node.children[i],
        ).parent == Some(other) by {
            assert(dom.live(dom.node(other).children[i]));
        }
    }
    if dom.distinct() {
        assert forall|other: Ref| after.live(other) implies #[trigger] after.node_distinct(other) by {
            assert(dom.live(other));
            assert(dom.node_wf(other));
            assert(dom.node_distinct(other));
            let kids = after.node(other).children;
            assert forall|i: int, j: int| 0 <= i < j < kids.len() implies !#[trigger] after.twins(
                kids[i],
                kids[j],
            ) by {
                assert(dom.live(kids[i]) && dom.live(kids[j]));
                assert(!dom.twins(kids[i], kids[j]));
            }
        }
    }
}

/// What inserting a subtree does to a sound graph: the graph stays sound and
/// grows by the instances of the subtree, whose root gets the next
/// identifier; no instance that was there changes but the parent, which gets
/// one more child.
pub proof fn lemma_insert(dom: DomView, parent: Ref, snapshot: SnapshotView)
    requires
        dom.wf(),
        dom.live(parent),
        dom.slots.len() + node_count(snapshot) <= usize::MAX,
    ensures
        dom.insert(parent, snapshot).wf(),
        dom.insert(parent, snapshot).root == dom.root,
        dom.insert(parent, snapshot).slots.len() == dom.slots.len() + node_count(snapshot),
        dom.insert(parent, snapshot).live(dom.next()),
        forall|id: Ref| dom.live(id) ==> #[trigger] dom.insert(parent, snapshot).live(id),
        forall|id: Ref|
            id.0 < dom.slots.len() && !dom.live(id) ==> !(#[trigger] dom.insert(parent, snapshot).live(
                id,
            )),
        forall|id: Ref|
            dom.live(id) && id != parent ==> #[trigger] dom.insert(parent, snapshot).node(id)
                == dom.node(id),
        dom.insert(parent, snapshot).node(parent) == (InstanceView {
            children: dom.node(parent).children.push(dom.next()),
            ..dom.node(parent)
        }),
    decreases snapshot, snapshot.children.len() + 1,
{
    let first = dom.add_node(
        parent,
        snapshot.name,
        snapshot.class,
        snapshot.properties,
        once(snapshot.paths),
    );
    lemma_add_node(dom, parent, snapshot.name, snapshot.class, snapshot.properties, once(snapshot.paths));
    lemma_insert_children(first, dom.next(), snapshot, snapshot.children.len());
    let after = dom.insert(parent, snapshot);
    assert forall|id: Ref| dom.live(id) implies #[trigger] after.live(id) by {
        assert(first.live(id));
    }
    assert forall|id: Ref| dom.live(id) && id != parent implies #[trigger] after.node(id) == dom.node(
        id,
    ) by {
        assert(first.live(id));
        assert(first.node(id) == dom.node(id));
    }
    assert forall|id: Ref| id.0 < dom.slots.len() && !dom.live(id) implies !(#[trigger] after.live(
        id,
    )) by {
        assert(!first.live(id));
    }
}

/// What inserting the first `count` children of a snapshot below `parent`
/// does to a sound graph: as for one subtree, `count` times over.
pub proof fn lemma_insert_children(dom: DomView, parent: Ref, snapshot: SnapshotView, count: nat)
    requires
        dom.wf(),
        dom.live(parent),
        count <= snapshot.children.len(),
        dom.slots.len() + children_count(snapshot, count) <= usize::MAX,
    ensures
        dom.insert_children(parent, snapshot, count).wf(),
        dom.insert_children(parent, snapshot, count).root == dom.root,
        dom.insert_children(parent, snapshot, count).slots.len() == dom.slots.len() + children_count(
            snapshot,
            count,
        ),
        forall|id: Ref| dom.live(id) ==> #[trigger] dom.insert_children(parent, snapshot, count).live(id),
        forall|id: Ref|
            id.0 < dom.slots.len() && !dom.live(id) ==> !(#[trigger] dom.insert_children(
                parent,
                snapshot,
                count,
            ).live(id)),
        forall|id: Ref|
            dom.live(id) && id != parent ==> #[trigger] dom.insert_children(parent, snapshot, count).node(
                id,
            ) == dom.node(id),
        dom.insert_children(parent, snapshot, count).node(parent).name == dom.node(parent).name,
        dom.insert_children(parent, snapshot, count).node(parent).class == dom.node(parent).class,
        dom.insert_children(parent, snapshot, count).node(parent).properties == dom.node(
            parent,
        ).properties,
        dom.insert_children(parent, snapshot, count).node(parent).parent == dom.node(parent).parent,
        dom.insert_children(parent, snapshot, count).node(parent).paths == dom.node(parent).paths,
        dom.insert_children(parent, snapshot, count).node(parent).children.len() == dom.node(
            parent,
        ).children.len() + count,
    decreases snapshot, count,
{
    if count > 0 {
        let before = dom.insert_children(parent, snapshot, (count - 1) as nat);
        lemma_insert_children(dom, parent, snapshot, (count - 1) as nat);
        assert(before.live(parent));
        lemma_insert(before, parent, snapshot.children[count - 1]);
        let after = dom.insert_children(parent, snapshot, count);
        assert forall|id: Ref| dom.live(id) implies #[trigger] after.live(id) by {
            assert(before.live(id));
        }
        assert forall|id: Ref| dom.live(id) && id != parent implies #[trigger] after.node(id)
            == dom.node(id) by {
            assert(before.live(id));
            assert(before.node(id) == dom.node(id));
        }
        assert forall|id: Ref| id.0 < dom.slots.len() && !dom.live(id) implies !(
        #[trigger] after.live(id)) by {
            assert(!before.live(id));
        }
    }
}

/// What changing the properties of an instance does to a sound graph: it
/// stays sound, and nothing else changes.
pub proof fn lemma_update(dom: DomView, id: Ref, delta: Map<Seq<char>, Option<VariantView>>)
    requires
        dom.wf(),
        dom.live(id),
    ensures
        dom.update(id, delta).wf(),
        forall|other: Ref| dom.live(other) <==> #[trigger] dom.update(id, delta).live(other),
{
    let after = dom.update(id, delta);
    assert forall|other: Ref| after.live(other) implies #[trigger] after.node_wf(other) by {
        assert(dom.live(other));
        assert(dom.node_wf(other));
        let node = after.node(other);
        assert forall|i: int| 0 <= i < node.children.len() implies other.0 < (
        #[trigger] node.children[i]).0 && after.live(node.children[i]) && after.node(
            node.children[i],
        ).parent == Some(other) by {
            assert(dom.live(dom.node(other).children[i]));
        }
    }
}

/// An instance at or below `top` was made no earlier than `top`.
pub proof fn lemma_subtree_later(dom: DomView, top: Ref, id: Ref)
    requires
        dom.in_subtree(top, id),
    ensures
        top.0 <= id.0,
    decreases id.0,
{
    if id != top {
        lemma_subtree_later(dom, top, dom.node(id).parent->0);
    }
}

/// Every instance of a sound graph is the root or below it, by the one chain
/// of its parents.
pub proof fn lemma_reachable(dom: DomView, id: Ref)
    requires
        dom.wf(),
        dom.live(id),
    ensures
        dom.in_subtree(dom.root, id),
    decreases id.0,
{
    assert(dom.node_wf(id));
    match dom.node(id).parent {
        Some(above) => {
            lemma_reachable(dom, above);
        },
        None => {},
    }
}

/// What removing an instance other than the root does to a sound graph: the
/// graph stays sound; the instances at and below the removed one are gone,
/// and the others are as they were, but that the parent lost one child.
pub proof fn lemma_remove(dom: DomView, id: Ref)
    requires
        dom.wf(),
        dom.live(id),
        id != dom.root,
    ensures
        dom.remove(id).wf(),
        dom.remove(id).slots.len() == dom.slots.len(),
        forall|other: Ref|
            #[trigger] dom.remove(id).live(other) <==> (dom.live(other) && !dom.in_subtree(id, other)),
        forall|other: Ref|
            dom.remove(id).live(other) && dom.node(id).parent != Some(other) ==> #[trigger] dom.remove(
                id,
            ).node(other) == dom.node(other),
        dom.node(id).parent matches Some(parent) && dom.remove(id).live(parent) && dom.remove(id).node(
            parent,
        ) == (InstanceView { children: without(dom.node(parent).children, id), ..dom.node(parent) }),
{
    let after = dom.remove(id);
    assert(dom.node_wf(id));
    let parent = dom.node(id).parent->0;
    assert(dom.node_wf(parent));
    lemma_without(dom.node(parent).children, id);
    assert(!dom.in_subtree(id, parent)) by {
        if dom.in_subtree(id, parent) {
            lemma_subtree_later(dom, id, parent);
        }
    }
    assert(!dom.in_subtree(id, dom.root)) by {
        if dom.in_subtree(id, dom.root) {
            assert(dom.root == id);
        }
    }
    assert forall|other: Ref| #[trigger] after.live(other) <==> (dom.live(other) && !dom.in_subtree(
        id,
        other,
    )) by {
        if other.0 < dom.slots.len() {
            assert(Ref(other.0 as int as usize) == other);
        }
    }
    assert forall|other: Ref|
        after.live(other) && dom.node(id).parent != Some(other) implies #[trigger] after.node(other)
        == dom.node(other) by {
        assert(Ref(other.0 as int as usize) == other);
    }
    assert(Ref(parent.0 as int as usize) == parent);
    assert forall|x: Ref| after.live(x) implies #[trigger] after.node_wf(x) by {
        assert(dom.live(x) && !dom.in_subtree(id, x));
        assert(dom.node_wf(x));
        assert(Ref(x.0 as int as usize) == x);
        let node = after.node(x);
        let old_node = dom.node(x);
        assert forall|i: int| 0 <= i < node.children.len() implies x.0 < (#[trigger] node.children[i]).0
            && after.live(node.children[i]) && after.node(node.children[i]).parent == Some(x) by {
            let c = node.children[i];
            assert(old_node.children.contains(c)) by {
                if x == parent {
                    assert(node.children.contains(c));
                } else {
                    assert(old_node.children[i] == c);
                }
            }
            let k = choose|k: int| 0 <= k < old_node.children.len() && old_node.children[k] == c;
            assert(dom.live(old_node.children[k]));
            assert(c != id) by {
                if x == parent {
                    assert(node.children.contains(c));
                }
            }
            assert(!dom.in_subtree(id, c));
            assert(Ref(c.0 as int as usize) == c);
        }
        match old_node.parent {
            Some(above) => {
                assert(!dom.in_subtree(id, above));
                assert(Ref(above.0 as int as usize) == above);
                assert(x != id);
                if above == parent {
                    assert(after.node(above).children.contains(x));
                }
            },
            None => {},
        }
    }
}

/// Removing an instance makes no twins.
pub proof fn lemma_remove_distinct(dom: DomView, id: Ref)
    requires
        dom.sound(),
        dom.live(id),
        id != dom.root,
    ensures
        dom.remove(id).distinct(),
{
    let after = dom.remove(id);
    lemma_remove(dom, id);
    assert(dom.node_wf(id));
    let parent = dom.node(id).parent->0;
    assert(dom.node_wf(parent));
    lemma_without(dom.node(parent).children, id);
    assert forall|x: Ref| after.live(x) implies #[trigger] after.node_distinct(x) by {
        assert(dom.live(x));
        assert(dom.node_wf(x));
        assert(dom.node_distinct(x));
        assert(after.node_wf(x));
        let kids = after.node(x).children;
        let old_kids = dom.node(x).children;
        assert forall|i: int, j: int| 0 <= i < j < kids.len() implies !#[trigger] after.twins(
            kids[i],
            kids[j],
        ) by {
            let at = old_kids.index_of(id);
            let i0 = if x == parent && i >= at { i + 1 } else { i };
            let j0 = if x == parent && j >= at { j + 1 } else { j };
            assert(kids[i] == old_kids[i0] && kids[j] == old_kids[j0]);
            assert(after.live(kids[i]) && after.live(kids[j]));
            assert(after.node(kids[i]).name == dom.node(kids[i]).name);
            assert(after.node(kids[i]).class == dom.node(kids[i]).class);
            assert(after.node(kids[j]).name == dom.node(kids[j]).name);
            assert(after.node(kids[j]).class == dom.node(kids[j]).class);
            assert(!dom.twins(old_kids[i0], old_kids[j0]));
        }
    }
}

/// The instance graph.
#[derive(Debug)]
pub struct Dom {
    nodes: Vec<Option<Instance>>,
    root: Ref,
}

impl View for Dom {
    type V = DomView;

    closed spec fn view(&self) -> DomView {
        DomView {
            slots: Seq::new(
                self.nodes@.len(),
                |i: int|
                    match self.nodes@[i] {
                        Some(instance) => Some(instance@),
                        None => None,
                    },
            ),
            root: self.root,
        }
    }
}

impl Dom {
    /// The graph is sound and without twin siblings, and every instance sits
    /// in the slot of its identifier with a well-formed property map.
    pub closed spec fn wf(&self) -> bool {
        &&& self@.sound()
        &&& forall|i: int|
            0 <= i < self.nodes@.len() ==> match #[trigger] self.nodes@[i] {
                Some(instance) => instance.wf() && instance.referent == Ref(i as usize),
                None => true,
            }
    }

    /// A sound graph has a sound view.
    pub proof fn lemma_wf(&self)
        requires
            self.wf(),
        ensures
            self@.wf(),
            self@.distinct(),
            self@.sound(),
    {
    }

    /// A graph of one instance, the root, with the identifier 0, made from
    /// the given paths, each once.
    pub fn new(name: &str, class: &str, properties: Properties, paths: Vec<String>) -> (dom: Dom)
        requires
            properties.wf(),
        ensures
            dom.wf(),
            dom@.root == Ref(0),
            dom@.slots == seq![
                Some(
                    InstanceView {
                        name: name@,
                        class: class@,
                        properties: properties@,
                        children: Seq::empty(),
                        parent: None,
                        paths: once(paths.deep_view()),
                    },
                ),
            ],
    {
        let ghost given = paths.deep_view();
        let paths = unique_strings(&paths);
        proof {
            lemma_unique(given, given.len());
        }
        let root = Instance {
            referent: Ref(0),
            name: name.to_owned(),
            class: class.to_owned(),
            properties,
            children: Vec::new(),
            parent: None,
            paths,
        };
        let mut nodes: Vec<Option<Instance>> = Vec::new();
        nodes.push(Some(root));
        let dom = Dom { nodes, root: Ref(0) };
        proof {
            assert(dom@.slots =~= seq![
                Some(
                    InstanceView {
                        name: name@,
                        class: class@,
                        properties: properties@,
                        children: Seq::empty(),
                        parent: None,
                        paths: once(given),
                    },
                ),
            ]);
            assert forall|id: Ref| dom@.live(id) implies #[trigger] dom@.node_wf(id) by {
                assert(id.0 == 0);
            }
            assert forall|id: Ref| dom@.live(id) implies #[trigger] dom@.node_distinct(id) by {
                assert(id.0 == 0);
            }
        }
        dom
    }

    /// The number of identifiers handed out so far.
    pub fn allocated(&self) -> (count: usize)
        ensures
            count == self@.slots.len(),
    {
        self.nodes.len()
    }

    /// The identifier of the root.
    pub fn root_ref(&self) -> (root: Ref)
        ensures
            root == self@.root,
    {
        self.root
    }

    /// Whether `id` names an instance of the graph.
    pub fn contains(&self, id: Ref) -> (live: bool)
        ensures
            live == self@.live(id),
    {
        id.0 < self.nodes.len() && self.nodes[id.0].is_some()
    }

    /// The instance that `id` names, if there is one.
    pub fn get(&self, id: Ref) -> (found: Option<&Instance>)
        requires
            self.wf(),
        ensures
            match found {
                Some(instance) => self@.live(id) && instance@ == self@.node(id) && instance.id() == id
                    && instance.wf(),
                None => !self@.live(id),
            },
    {
        if id.0 < self.nodes.len() {
            self.nodes[id.0].as_ref()
        } else {
            None
        }
    }

    /// The root.
    pub fn root(&self) -> (root: &Instance)
        requires
            self.wf(),
        ensures
            root@ == self@.node(self@.root),
            root.id() == self@.root,
            root.wf(),
    {
        self.nodes[self.root.0].as_ref().unwrap()
    }

    fn add_node(
        &mut self,
        parent: Ref,
        name: &str,
        class: &str,
        properties: Properties,
        paths: Vec<String>,
    ) -> (id: Ref)
        requires
            old(self).wf(),
            old(self)@.live(parent),
            properties.wf(),
            old(self)@.slots.len() < usize::MAX,
            old(self)@.free(parent, name@, class@),
            paths.deep_view().no_duplicates(),
        ensures
            final(self).wf(),
            id == old(self)@.next(),
            final(self)@ == old(self)@.add_node(
                parent,
                name@,
                class@,
                properties@,
                paths.deep_view(),
            ),
    {
        let ghost before = self@;
        let ghost old_nodes = self.nodes@;
        let id = Ref(self.nodes.len());
        let ghost path_list = paths.deep_view();
        let fresh = Instance {
            referent: id,
            name: name.to_owned(),
            class: class.to_owned(),
            properties,
            children: Vec::new(),
            parent: Some(parent),
            paths,
        };
        match &mut self.nodes[parent.0] {
            Some(above) => {
                above.children.push(id);
            },
            None => {},
        }
        self.nodes.push(Some(fresh));
        proof {
            lemma_add_node(before, parent, name@, class@, properties@, path_list);
            lemma_add_node_distinct(before, parent, name@, class@, properties@, path_list);
            assert(self@.slots =~= before.add_node(parent, name@, class@, properties@, path_list).slots);
            assert forall|i: int| 0 <= i < self.nodes@.len() implies match #[trigger] self.nodes@[i] {
                Some(instance) => instance.wf() && instance.referent == Ref(i as usize),
                None => true,
            } by {
                if i < old_nodes.len() && i != parent.0 {
                    assert(self.nodes@[i] == old_nodes[i]);
                }
            }
        }
        id
    }

    /// Inserts the subtree that `snapshot` describes as the last child of
    /// `parent`, and returns the identifier of the subtree's root.
    pub fn insert(&mut self, parent: Ref, snapshot: &Snapshot) -> (id: Ref)
        requires
            old(self).wf(),
            old(self)@.live(parent),
            snapshot.wf(),
            old(self)@.slots.len() + node_count(snapshot@) <= usize::MAX,
            old(self)@.takes(parent, snapshot@),
        ensures
            final(self).wf(),
            id == old(self)@.next(),
            final(self)@ == old(self)@.insert(parent, snapshot@),
        decreases snapshot,
    {
        proof {
            snapshot.lemma_view();
            lemma_unique(snapshot@.paths, snapshot@.paths.len());
        }
        let ghost before = self@;
        let id = self.add_node(
            parent,
            snapshot.name.as_str(),
            snapshot.class.as_str(),
            snapshot.properties.duplicate(),
            unique_strings(&snapshot.paths),
        );
        let ghost first = self@;
        proof {
            lemma_add_node(
                before,
                parent,
                snapshot@.name,
                snapshot@.class,
                snapshot@.properties,
                once(snapshot@.paths),
            );
        }
        let mut i: usize = 0;
        while i < snapshot.children.len()
            invariant
                self.wf(),
                snapshot.wf(),
                first.wf(),
                first.live(id),
                first.node(id).children.len() == 0,
                distinct(snapshot@),
                first.slots.len() + children_count(snapshot@, snapshot@.children.len()) <= usize::MAX,
                snapshot@.children == crate::snapshot::views(snapshot.children@),
                i <= snapshot.children@.len(),
                self@ == first.insert_children(id, snapshot@, i as nat),
            decreases snapshot.children@.len() - i,
        {
            proof {
                lemma_children_count_grows(snapshot@, (i + 1) as nat, snapshot@.children.len());
                lemma_insert_children(first, id, snapshot@, i as nat);
                crate::completeness::lemma_next_child_free(first, id, snapshot@, i as nat);
            }
            self.insert(id, &snapshot.children[i]);
            i += 1;
        }
        id
    }

    /// Changes the properties of `id` by `delta`.
    pub fn update_properties(&mut self, id: Ref, delta: &PropertyDelta)
        requires
            old(self).wf(),
            old(self)@.live(id),
            delta.wf(),
        ensures
            final(self).wf(),
            final(self)@ == old(self)@.update(id, delta@),
    {
        let ghost before = self@;
        let ghost old_nodes = self.nodes@;
        match &mut self.nodes[id.0] {
            Some(instance) => {
                instance.properties.apply(delta);
            },
            None => {},
        }
        proof {
            lemma_update(before, id, delta@);
            lemma_update_distinct(before, id, delta@);
            assert(self@.slots =~= before.update(id, delta@).slots);
            assert forall|i: int| 0 <= i < self.nodes@.len() implies match #[trigger] self.nodes@[i] {
                Some(instance) => instance.wf() && instance.referent == Ref(i as usize),
                None => true,
            } by {
                if i != id.0 {
                    assert(self.nodes@[i] == old_nodes[i]);
                }
            }
        }
    }
}

/// Sibling order is kept: the children of the snapshot of an instance are the
/// snapshots of its children, in the order in which the graph holds them.
pub proof fn lemma_snapshot_children(dom: DomView, id: Ref)
    requires
        dom.wf(),
        dom.live(id),
    ensures
        dom.snapshot(id).children.len() == dom.node(id).children.len(),
        forall|i: int|
            0 <= i < dom.node(id).children.len() ==> #[trigger] dom.snapshot(id).children[i]
                == dom.snapshot(dom.node(id).children[i]),
{
    assert(dom.node_wf(id));
}

impl Dom {
    /// The snapshot of the subtree at `id`.
    pub fn snapshot(&self, id: Ref) -> (snapshot: Snapshot)
        requires
            self.wf(),
            self@.live(id),
        ensures
            snapshot.wf(),
            snapshot@ == self@.snapshot(id),
        decreases self@.slots.len() - id.0,
    {
        proof {
            assert(self@.node_wf(id));
            lemma_snapshot_children(self@, id);
        }
        let instance = self.nodes[id.0].as_ref().unwrap();
        let mut children: Vec<Snapshot> = Vec::new();
        let mut i: usize = 0;
        while i < instance.children.len()
            invariant
                self.wf(),
                self@.live(id),
                self@.node_wf(id),
                instance@ == self@.node(id),
                i <= instance.children@.len(),
                children@.len() == i,
                forall|j: int|
                    0 <= j < i ==> (#[trigger] children@[j]).wf() && children@[j]@ == self@.snapshot(
                        instance.children@[j],
                    ),
            decreases instance.children@.len() - i,
        {
            let child = self.snapshot(instance.children[i]);
            children.push(child);
            i += 1;
        }
        let snapshot = Snapshot {
            id: Some(id),
            name: instance.name.clone(),
            class: instance.class.clone(),
            properties: instance.properties.duplicate(),
            children,
            paths: crate::text::clone_strings(&instance.paths),
        };
        proof {
            snapshot.lemma_view();
            assert(snapshot@.children =~= self@.snapshot(id).children);
        }
        snapshot
    }

    /// Makes the instance `id` one made from `paths`, each once.
    pub fn set_paths(&mut self, id: Ref, paths: &Vec<String>)
        requires
            old(self).wf(),
            old(self)@.live(id),
        ensures
            final(self).wf(),
            final(self)@ == old(self)@.repath(id, paths.deep_view()),
    {
        let ghost before = self@;
        let ghost old_nodes = self.nodes@;
        let list = unique_strings(paths);
        match &mut self.nodes[id.0] {
            Some(instance) => {
                instance.paths = list;
            },
            None => {},
        }
        proof {
            lemma_repath(before, id, paths.deep_view());
            assert(self@.slots =~= before.repath(id, paths.deep_view()).slots);
            assert forall|i: int| 0 <= i < self.nodes@.len() implies match #[trigger] self.nodes@[i] {
                Some(instance) => instance.wf() && instance.referent == Ref(i as usize),
                None => true,
            } by {
                if i != id.0 {
                    assert(self.nodes@[i] == old_nodes[i]);
                }
            }
        }
    }

    /// The position of the first child of `id` with the given name and class.
    pub fn child_named(&self, id: Ref, name: &str, class: &str) -> (found: Option<usize>)
        requires
            self.wf(),
            self@.live(id),
        ensures
            match found {
                Some(i) => i < self@.node(id).children.len() && self@.node(self@.node(id).children[i as int]).name
                    == name@ && self@.node(self@.node(id).children[i as int]).class == class@ && forall|j: int|
                    0 <= j < i ==> !(self@.node(#[trigger] self@.node(id).children[j]).name == name@
                        && self@.node(self@.node(id).children[j]).class == class@),
                None => forall|j: int|
                    0 <= j < self@.node(id).children.len() ==> !(self@.node(
                        #[trigger] self@.node(id).children[j],
                    ).name == name@ && self@.node(self@.node(id).children[j]).class == class@),
            },
    {
        proof {
            self.lemma_wf();
            assert(self@.node_wf(id));
        }
        let instance = self.get(id).unwrap();
        let children = instance.children();
        let mut i: usize = 0;
        while i < children.len()
            invariant
                self.wf(),
                self@.live(id),
                self@.node_wf(id),
                children@ == self@.node(id).children,
                i <= children@.len(),
                forall|j: int|
                    0 <= j < i ==> !(self@.node(#[trigger] self@.node(id).children[j]).name == name@
                        && self@.node(self@.node(id).children[j]).class == class@),
            decreases children@.len() - i,
        {
            let child = self.get(children[i]).unwrap();
            if str_eq(child.name(), name) && str_eq(child.class(), class) {
                return Some(i);
            }
            i += 1;
        }
        None
    }

    /// Removes the instance `id`, which is not the root, and all below it.
    pub fn remove(&mut self, id: Ref)
        requires
            old(self).wf(),
            old(self)@.live(id),
            id != old(self)@.root,
        ensures
            final(self).wf(),
            final(self)@ == old(self)@.remove(id),
    {
        let ghost before = self@;
        let ghost old_nodes = self.nodes@;
        let ghost goal = before.remove(id);
        proof {
            lemma_remove(before, id);
            lemma_remove_distinct(before, id);
            assert(before.node_wf(id));
        }
        let parent = match &self.nodes[id.0] {
            Some(instance) => instance.parent,
            None => None,
        };
        let parent = match parent {
            Some(parent) => parent,
            None => id,
        };
        assert(before.node(id).parent == Some(parent));
        assert(before.node_wf(parent));
        match &mut self.nodes[parent.0] {
            Some(above) => {
                let mut k: usize = 0;
                while k < above.children.len() && above.children[k] != id
                    invariant
                        k <= above.children@.len(),
                        above.children@.contains(id),
                        forall|j: int| 0 <= j < k ==> above.children@[j] != id,
                    decreases above.children@.len() - k,
                {
                    k += 1;
                }
                proof {
                    lemma_without(above.children@, id);
                }
                above.children.remove(k);
            },
            None => {},
        }
        self.nodes.set(id.0, None);
        proof {
            assert(self.nodes@[parent.0 as int] matches Some(above) && above@ == goal.node(parent));
            assert forall|j: int| 0 <= j <= id.0 implies (match #[trigger] self.nodes@[j] {
                Some(instance) => Some(instance@),
                None => None,
            }) == goal.slots[j] by {
                if j != id.0 && j != parent.0 {
                    assert(self.nodes@[j] == old_nodes[j]);
                    if before.in_subtree(id, Ref(j as usize)) {
                        lemma_subtree_later(before, id, Ref(j as usize));
                    }
                }
            }
        }
        let mut i: usize = id.0 + 1;
        while i < self.nodes.len()
            invariant
                before.wf(),
                before.live(id),
                old_nodes.len() == before.slots.len(),
                forall|j: int|
                    0 <= j < old_nodes.len() ==> (match #[trigger] old_nodes[j] {
                        Some(instance) => Some(instance@) == before.slots[j] && instance.wf()
                            && instance.referent == Ref(j as usize),
                        None => before.slots[j] is None,
                    }),
                goal == before.remove(id),
                self.root == before.root,
                self.nodes@.len() == old_nodes.len(),
                id.0 < i <= self.nodes@.len(),
                forall|j: int|
                    0 <= j < i ==> (match #[trigger] self.nodes@[j] {
                        Some(instance) => Some(instance@) == goal.slots[j] && instance.wf()
                            && instance.referent == Ref(j as usize),
                        None => goal.slots[j] is None,
                    }),
                forall|j: int| i <= j < self.nodes@.len() ==> #[trigger] self.nodes@[j] == old_nodes[j],
            decreases self.nodes@.len() - i,
        {
            let ghost here = Ref(i);
            let above = match &self.nodes[i] {
                Some(instance) => instance.parent,
                None => None,
            };
            let orphan = match above {
                Some(above) => above.0 < self.nodes.len() && self.nodes[above.0].is_none(),
                None => false,
            };
            proof {
                assert(self.nodes@[i as int] == old_nodes[i as int]);
                if before.live(here) {
                    assert(before.node_wf(here));
                    match before.node(here).parent {
                        Some(q) => {
                            assert(before.live(q));
                            assert(Ref(q.0 as int as usize) == q);
                            assert(orphan == before.in_subtree(id, q));
                            assert(orphan == before.in_subtree(id, here));
                        },
                        None => {
                            assert(!before.in_subtree(id, here));
                        },
                    }
                    assert(before.node(id).parent != Some(here)) by {
                        assert(before.node_wf(id));
                    }
                }
            }
            if orphan {
                self.nodes.set(i, None);
            }
            i += 1;
        }
        proof {
            assert(self@.slots =~= goal.slots);
        }
    }
}

} // verus!
