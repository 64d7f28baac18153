//! Snapshots: transient descriptions of a subtree of instances.

use vstd::prelude::*;
use crate::text::{clone_strings, same_strings, str_eq};
use crate::value::{Properties, VariantView};

verus! {

/// The identifier of an instance in a tree: unique among the instances that
/// the tree ever held.
#[derive(Debug, Clone, Copy, PartialEq, Eq, Structural)]
pub struct Ref(pub usize);

/// The mathematical value of a [`Snapshot`].
pub struct SnapshotView {
    pub id: Option<Ref>,
    pub name: Seq<char>,
    pub class: Seq<char>,
    pub properties: Map<Seq<char>, VariantView>,
    pub children: Seq<SnapshotView>,
    pub paths: Seq<Seq<char>>,
}

/// A description of a subtree: an instance with its properties, the paths it
/// was made from, and its children in order.
#[derive(Debug)]
pub struct Snapshot {
    pub id: Option<Ref>,
    pub name: String,
    pub class: String,
    pub properties: Properties,
    pub children: Vec<Snapshot>,
    pub paths: Vec<String>,
}

/// The values of a list of snapshots, in order.
pub open spec fn views(list: Seq<Snapshot>) -> Seq<SnapshotView> {
    Seq::new(list.len(), |i: int| list[i]@)
}

impl View for Snapshot {
    type V = SnapshotView;

    open spec fn view(&self) -> SnapshotView {
        self.model()
    }
}

impl Snapshot {
    /// The value of the snapshot: its own fields, and the values of its children in order.
    pub open spec fn model(&self) -> SnapshotView
        decreases self,
    {
        SnapshotView {
            id: self.id,
            name: self.name@,
            class: self.class@,
            properties: self.properties@,
            children: Seq::new(
                self.children@.len(),
                |i: int|
                    if 0 <= i < self.children@.len() {
                        self.children[i].model()
                    } else {
                        arbitrary()
                    },
            ),
            paths: self.paths.deep_view(),
        }
    }

    /// The property maps of the snapshot and of all its descendants are well formed.
    pub open spec fn wf(&self) -> bool
        decreases self,
    {
        &&& self.properties.wf()
        &&& forall|i: int| 0 <= i < self.children@.len() ==> (#[trigger] self.children[i]).wf()
    }

    /// What the view of a snapshot holds, field by field.
    pub proof fn lemma_view(&self)
        ensures
            self@.id == self.id,
            self@.name == self.name@,
            self@.class == self.class@,
            self@.properties == self.properties@,
            self@.paths == self.paths.deep_view(),
            self@.children.len() == self.children@.len(),
            self@.children == views(self.children@),
    {
        assert(self@.children =~= views(self.children@));
    }

    /// A snapshot of class `Folder` with an empty name, no identifier, no
    /// properties, no paths and no children.
    pub fn new() -> (snapshot: Snapshot)
        ensures
            snapshot.wf(),
            snapshot@ == (SnapshotView {
                id: None,
                name: Seq::empty(),
                class: "Folder"@,
                properties: Map::empty(),
                children: Seq::empty(),
                paths: Seq::empty(),
            }),
    {
        let snapshot = Snapshot {
            id: None,
            name: String::new(),
            class: "Folder".to_owned(),
            properties: Properties::new(),
            children: Vec::new(),
            paths: Vec::new(),
        };
        assert(snapshot@.children =~= Seq::empty());
        assert(snapshot@.paths =~= Seq::empty());
        snapshot
    }

    /// The snapshot with its identifier set to `id`.
    pub fn with_id(self, id: Ref) -> (snapshot: Snapshot)
        ensures
            snapshot@ == (SnapshotView { id: Some(id), ..self@ }),
            self.wf() ==> snapshot.wf(),
    {
        let mut snapshot = self;
        snapshot.id = Some(id);
        snapshot
    }

    /// The snapshot with its name set to `name`.
    pub fn with_name(self, name: &str) -> (snapshot: Snapshot)
        ensures
            snapshot@ == (SnapshotView { name: name@, ..self@ }),
            self.wf() ==> snapshot.wf(),
    {
        let mut snapshot = self;
        snapshot.name = name.to_owned();
        snapshot
    }

    /// The snapshot with its class set to `class`.
    pub fn with_class(self, class: &str) -> (snapshot: Snapshot)
        ensures
            snapshot@ == (SnapshotView { class: class@, ..self@ }),
            self.wf() ==> snapshot.wf(),
    {
        let mut snapshot = self;
        snapshot.class = class.to_owned();
        snapshot
    }

    /// The snapshot with its properties replaced by `properties`.
    pub fn with_properties(self, properties: Properties) -> (snapshot: Snapshot)
        ensures
            snapshot@ == (SnapshotView { properties: properties@, ..self@ }),
            self.wf() && properties.wf() ==> snapshot.wf(),
    {
        let mut snapshot = self;
        snapshot.properties = properties;
        snapshot
    }

    /// The snapshot with its children replaced by `children`.
    pub fn with_children(self, children: Vec<Snapshot>) -> (snapshot: Snapshot)
        ensures
            snapshot@ == (SnapshotView { children: views(children@), ..self@ }),
            self.wf() && (forall|i: int| 0 <= i < children@.len() ==> (#[trigger] children@[i]).wf())
                ==> snapshot.wf(),
    {
        let mut snapshot = self;
        snapshot.children = children;
        assert(snapshot@.children =~= views(snapshot.children@));
        snapshot
    }

    /// The snapshot with its paths replaced by `paths`.
    pub fn with_paths(self, paths: Vec<String>) -> (snapshot: Snapshot)
        ensures
            snapshot@ == (SnapshotView { paths: paths.deep_view(), ..self@ }),
            self.wf() ==> snapshot.wf(),
    {
        let mut snapshot = self;
        snapshot.paths = paths;
        snapshot
    }

    /// Replaces the properties of the snapshot.
    pub fn set_properties(&mut self, properties: Properties)
        ensures
            final(self)@ == (SnapshotView { properties: properties@, ..old(self)@ }),
            old(self).wf() && properties.wf() ==> final(self).wf(),
    {
        self.properties = properties;
    }

    /// A copy of the snapshot and of all below it.
    pub fn duplicate(&self) -> (copy: Snapshot)
        requires
            self.wf(),
        ensures
            copy.wf(),
            copy@ == self@,
        decreases self,
    {
        let mut children: Vec<Snapshot> = Vec::new();
        let mut i: usize = 0;
        while i < self.children.len()
            invariant
                self.wf(),
                i <= self.children@.len(),
                children@.len() == i,
                forall|j: int| 0 <= j < i ==> (#[trigger] children@[j]).wf() && children@[j]@ == self.children@[j]@,
            decreases self.children@.len() - i,
        {
            let child = self.children[i].duplicate();
            children.push(child);
            i += 1;
        }
        let copy = Snapshot {
            id: self.id,
            name: self.name.clone(),
            class: self.class.clone(),
            properties: self.properties.duplicate(),
            children,
            paths: clone_strings(&self.paths),
        };
        assert(copy@.children =~= self@.children);
        copy
    }

    /// Whether two snapshots describe the same subtree: the same identifiers,
    /// names, classes, properties and paths, with the children in the same order.
    pub fn same(&self, other: &Snapshot) -> (same: bool)
        requires
            self.wf(),
            other.wf(),
        ensures
            same == (self@ == other@),
        decreases self,
    {
        if self.id != other.id || !str_eq(self.name.as_str(), other.name.as_str()) || !str_eq(
            self.class.as_str(),
            other.class.as_str(),
        ) || !self.properties.same(&other.properties) || !same_strings(&self.paths, &other.paths)
            || self.children.len() != other.children.len() {
            assert(self@.children.len() == self.children@.len());
            assert(other@.children.len() == other.children@.len());
            return false;
        }
        let mut i: usize = 0;
        while i < self.children.len()
            invariant
                self.wf(),
                other.wf(),
                self.children@.len() == other.children@.len(),
                i <= self.children@.len(),
                forall|j: int| 0 <= j < i ==> self.children@[j]@ == other.children@[j]@,
            decreases self.children@.len() - i,
        {
            if !self.children[i].same(&other.children[i]) {
                assert(self@.children[i as int] == self.children@[i as int]@);
                assert(other@.children[i as int] == other.children@[i as int]@);
                return false;
            }
            i += 1;
        }
        assert(self@.children =~= other@.children);
        true
    }
}

/// The number of instances that a snapshot describes.
pub open spec fn node_count(snapshot: SnapshotView) -> nat
    decreases snapshot, snapshot.children.len() + 1,
{
    1 + children_count(snapshot, snapshot.children.len())
}

/// The number of instances that the first `count` children of a snapshot describe.
pub open spec fn children_count(snapshot: SnapshotView, count: nat) -> nat
    decreases snapshot, count,
{
    if count == 0 || count > snapshot.children.len() {
        0
    } else {
        children_count(snapshot, (count - 1) as nat) + node_count(snapshot.children[count - 1])
    }
}

/// The first children of a snapshot describe no more instances than more of them do.
pub proof fn lemma_children_count_grows(snapshot: SnapshotView, few: nat, many: nat)
    requires
        few <= many <= snapshot.children.len(),
    ensures
        children_count(snapshot, few) <= children_count(snapshot, many),
        few > 0 ==> children_count(snapshot, few) == children_count(snapshot, (few - 1) as nat)
            + node_count(snapshot.children[few - 1]),
    decreases many - few,
{
    if few < many {
        lemma_children_count_grows(snapshot, few + 1, many);
    }
}

impl Snapshot {
    /// The number of instances that the snapshot describes, if it fits.
    pub fn count(&self) -> (count: Option<usize>)
        ensures
            match count {
                Some(n) => n == node_count(self@),
                None => node_count(self@) > usize::MAX,
            },
        decreases self,
    {
        proof {
            self.lemma_view();
        }
        let mut total: usize = 1;
        let mut i: usize = 0;
        while i < self.children.len()
            invariant
                self@.children == views(self.children@),
                i <= self.children@.len(),
                total == 1 + children_count(self@, i as nat),
            decreases self.children@.len() - i,
        {
            proof {
                lemma_children_count_grows(self@, (i + 1) as nat, self@.children.len());
            }
            let below = match self.children[i].count() {
                Some(n) => n,
                None => {
                    return None;
                },
            };
            total = match total.checked_add(below) {
                Some(sum) => sum,
                None => {
                    return None;
                },
            };
            i += 1;
        }
        Some(total)
    }
}

} // verus!
