//! Model files: the instances that a file holds, as they are.

use vstd::prelude::*;
use crate::snapshot::{views, Snapshot, SnapshotView};

verus! {

/// The snapshot of a model file that holds the instances `roots` at its
/// top: the one instance where it holds one, else a folder of them.
pub open spec fn model_of(roots: Seq<SnapshotView>) -> SnapshotView {
    if roots.len() == 1 {
        roots[0]
    } else {
        SnapshotView {
            id: None,
            name: Seq::empty(),
            class: "Folder"@,
            properties: Map::empty(),
            children: roots,
            paths: Seq::empty(),
        }
    }
}

/// The snapshot of a model file that holds the instances `roots` at its top.
pub fn model_snapshot(roots: Vec<Snapshot>) -> (snapshot: Snapshot)
    requires
        forall|i: int| 0 <= i < roots@.len() ==> (#[trigger] roots@[i]).wf(),
    ensures
        snapshot.wf(),
        snapshot@ == model_of(views(roots@)),
{
    let mut roots = roots;
    if roots.len() == 1 {
        roots.remove(0)
    } else {
        Snapshot::new().with_children(roots)
    }
}

} // verus!
