//! Completeness of the difference: making the changes between a subtree and
//! a snapshot turns the subtree into what the snapshot describes.

use vstd::prelude::*;
use crate::changes::{lemma_delta_completes, ChangeView};
use crate::diff::{
    applied, apply_one, difference, distinct, find_key, lemma_find_key, pairings, removals, same_key,
    update_part,
};
use crate::dom::{
    lemma_add_node, lemma_insert, lemma_insert_children, lemma_remove, lemma_snapshot_children,
    lemma_subtree_later, lemma_update, DomView, InstanceView,
};
use crate::snapshot::{children_count, lemma_children_count_grows, node_count, Ref, SnapshotView};
use crate::text::{lemma_without, without};

verus! {

/// Whether every instance but `id` is in `next` as it is in `now`.
#[verifier::opaque]
spec fn others_same(now: DomView, next: DomView, id: Ref) -> bool {
    forall|y: Ref| now.live(y) && y != id ==> #[trigger] next.live(y) && next.node(y) == now.node(y)
}

/// Whether every instance but `id` and what is at or below `touched` is in
/// `next` as it is in `now`.
#[verifier::opaque]
spec fn siblings_same(now: DomView, next: DomView, id: Ref, touched: Ref) -> bool {
    forall|y: Ref|
        now.live(y) && y != id && !now.in_subtree(touched, y) ==> #[trigger] next.live(y) && next.node(y)
            == now.node(y)
}

/// What is below an instance of a subtree is in the subtree.
#[verifier::spinoff_prover]
proof fn lemma_subtree_trans(dom: DomView, top: Ref, middle: Ref, id: Ref)
    requires
        dom.in_subtree(top, middle),
        dom.in_subtree(middle, id),
    ensures
        dom.in_subtree(top, id),
    decreases id.0,
{
    if id != middle && id != top {
        lemma_subtree_trans(dom, top, middle, dom.node(id).parent->0);
    }
}

/// The subtrees of two children of one instance share no instance.
#[verifier::spinoff_prover]
proof fn lemma_disjoint(dom: DomView, parent: Ref, a: Ref, b: Ref, id: Ref)
    requires
        dom.wf(),
        a != b,
        dom.live(a),
        dom.live(b),
        dom.node(a).parent == Some(parent),
        dom.node(b).parent == Some(parent),
        dom.in_subtree(a, id),
    ensures
        !dom.in_subtree(b, id),
    decreases id.0,
{
    assert(dom.node_wf(a));
    assert(dom.node_wf(b));
    if id == a {
        if dom.in_subtree(b, parent) {
            lemma_subtree_later(dom, b, parent);
        }
    } else if id == b {
        if dom.in_subtree(a, parent) {
            lemma_subtree_later(dom, a, parent);
        }
    } else {
        lemma_disjoint(dom, parent, a, b, dom.node(id).parent->0);
    }
}

/// Whether the instances at and below `top` in `before` are in `after` as they were.
#[verifier::opaque]
pub open spec fn kept(before: DomView, after: DomView, top: Ref) -> bool {
    forall|id: Ref|
        before.in_subtree(top, id) && before.live(id) ==> #[trigger] after.live(id) && after.node(id)
            == before.node(id)
}

/// A subtree that was kept is a subtree of the later graph too.
#[verifier::spinoff_prover]
proof fn lemma_kept_subtree(before: DomView, after: DomView, top: Ref, id: Ref)
    requires
        kept(before, after, top),
        before.live(top),
        before.in_subtree(top, id),
    ensures
        after.in_subtree(top, id),
        before.live(id),
        after.live(id),
        after.node(id) == before.node(id),
    decreases id.0,
{
    reveal(kept);
    if id != top {
        let above = before.node(id).parent->0;
        lemma_kept_subtree(before, after, top, above);
    }
    assert(after.live(id));
}

/// A subtree that was kept has the snapshot that it had.
#[verifier::spinoff_prover]
proof fn lemma_kept_snapshot(before: DomView, after: DomView, top: Ref)
    requires
        before.wf(),
        before.live(top),
        kept(before, after, top),
    ensures
        after.snapshot(top) == before.snapshot(top),
    decreases before.slots.len() - top.0,
{
    reveal(kept);
    assert(before.node_wf(top));
    assert(after.live(top));
    let node = before.node(top);
    assert forall|i: int| 0 <= i < node.children.len() implies #[trigger] after.snapshot(top).children[i]
        == before.snapshot(top).children[i] by {
        let child = node.children[i];
        assert(before.live(child));
        assert(before.in_subtree(top, top));
        assert(before.in_subtree(top, child));
        assert(after.live(child));
        assert forall|id: Ref| before.in_subtree(child, id) && before.live(id) implies #[trigger] after.live(
            id,
        ) && after.node(id) == before.node(id) by {
            lemma_subtree_trans(before, top, child, id);
        }
        lemma_kept_snapshot(before, after, child);
    }
    assert(after.snapshot(top).children =~= before.snapshot(top).children);
}

/// A subtree that was kept twice was kept.
#[verifier::spinoff_prover]
proof fn lemma_kept_trans(first: DomView, second: DomView, third: DomView, top: Ref)
    requires
        first.live(top),
        kept(first, second, top),
        kept(second, third, top),
    ensures
        kept(first, third, top),
{
    reveal(kept);
    assert forall|id: Ref| first.in_subtree(top, id) && first.live(id) implies #[trigger] third.live(id)
        && third.node(id) == first.node(id) by {
        lemma_kept_subtree(first, second, top, id);
        lemma_kept_subtree(second, third, top, id);
    }
}

/// Making the changes of two lists one after the other is making the changes of the joined list.
#[verifier::spinoff_prover]
proof fn lemma_applied_concat(dom: DomView, first: Seq<ChangeView>, second: Seq<ChangeView>)
    ensures
        applied(dom, first + second) == if applied(dom, first).1 == first.len() {
            (
                applied(applied(dom, first).0, second).0,
                first.len() + applied(applied(dom, first).0, second).1,
            )
        } else {
            applied(dom, first)
        },
        applied(dom, first).1 <= first.len(),
    decreases second.len(),
{
    lemma_applied_bound(dom, first);
    if second.len() == 0 {
        assert(first + second =~= first);
    } else {
        assert((first + second).drop_last() =~= first + second.drop_last());
        assert((first + second).last() == second.last());
        lemma_applied_concat(dom, first, second.drop_last());
        lemma_applied_bound(applied(dom, first).0, second.drop_last());
    }
}

/// No more changes are made than there are.
#[verifier::spinoff_prover]
pub(crate) proof fn lemma_applied_bound(dom: DomView, changes: Seq<ChangeView>)
    ensures
        applied(dom, changes).1 <= changes.len(),
    decreases changes.len(),
{
    if changes.len() > 0 {
        lemma_applied_bound(dom, changes.drop_last());
    }
}

/// Whether one of `list` has the name and class of `like`.
pub open spec fn has_key(list: Seq<SnapshotView>, like: SnapshotView) -> bool {
    exists|j: int| 0 <= j < list.len() && #[trigger] same_key(list[j], like)
}

/// Whether one of `list` is what `snapshot` describes.
pub open spec fn described(list: Seq<SnapshotView>, snapshot: SnapshotView) -> bool
    decreases snapshot, 1nat,
{
    exists|i: int| 0 <= i < list.len() && same_tree(#[trigger] list[i], snapshot)
}

/// Whether `tree` is what `snapshot` describes, whatever the identifiers
/// and the order of siblings: the two have the same name, class and
/// properties, `tree` is made from the paths of `snapshot`, each once,
/// every child of `snapshot` is described by a child of `tree`,
/// and every child of `tree` has the name and class of a child of `snapshot`.
/// Between trees without siblings of the same name and class this pairs the
/// children one to one.
pub open spec fn same_tree(tree: SnapshotView, snapshot: SnapshotView) -> bool
    decreases snapshot, 0nat,
{
    &&& same_key(tree, snapshot)
    &&& tree.properties == snapshot.properties
    &&& tree.paths == crate::text::once(snapshot.paths)
    &&& forall|j: int|
        0 <= j < snapshot.children.len() ==> described(tree.children, #[trigger] snapshot.children[j])
    &&& forall|i: int|
        0 <= i < tree.children.len() ==> has_key(snapshot.children, #[trigger] tree.children[i])
}

/// Whether `tree` holds the instances that `snapshot` describes, made from
/// the paths of `snapshot`, each once, in the same order, whatever the
/// identifiers.
pub open spec fn same_shape(tree: SnapshotView, snapshot: SnapshotView) -> bool
    decreases snapshot,
{
    &&& same_key(tree, snapshot)
    &&& tree.properties == snapshot.properties
    &&& tree.paths == crate::text::once(snapshot.paths)
    &&& tree.children.len() == snapshot.children.len()
    &&& forall|i: int|
        0 <= i < snapshot.children.len() ==> same_shape(
            #[trigger] tree.children[i],
            snapshot.children[i],
        )
}

/// Snapshots of the same shape describe the same tree.
#[verifier::spinoff_prover]
proof fn lemma_shape(tree: SnapshotView, snapshot: SnapshotView)
    requires
        same_shape(tree, snapshot),
    ensures
        same_tree(tree, snapshot),
    decreases snapshot,
{
    assert forall|j: int| 0 <= j < snapshot.children.len() implies described(
        tree.children,
        #[trigger] snapshot.children[j],
    ) by {
        assert(same_shape(tree.children[j], snapshot.children[j]));
        lemma_shape(tree.children[j], snapshot.children[j]);
    }
    assert forall|i: int| 0 <= i < tree.children.len() implies has_key(
        snapshot.children,
        #[trigger] tree.children[i],
    ) by {
        assert(same_shape(tree.children[i], snapshot.children[i]));
        assert(same_key(snapshot.children[i], tree.children[i]));
    }
}

/// A snapshot of the shape of one with distinct siblings has distinct siblings.
#[verifier::spinoff_prover]
proof fn lemma_shape_distinct(tree: SnapshotView, snapshot: SnapshotView)
    requires
        same_shape(tree, snapshot),
        distinct(snapshot),
    ensures
        distinct(tree),
    decreases snapshot,
{
    assert forall|i: int, j: int| 0 <= i < j < tree.children.len() implies !#[trigger] same_key(
        tree.children[i],
        tree.children[j],
    ) by {
        assert(same_shape(tree.children[i], snapshot.children[i]));
        assert(same_shape(tree.children[j], snapshot.children[j]));
        assert(!same_key(snapshot.children[i], snapshot.children[j]));
    }
    assert forall|i: int| 0 <= i < tree.children.len() implies distinct(#[trigger] tree.children[i]) by {
        assert(same_shape(tree.children[i], snapshot.children[i]));
        assert(distinct(snapshot.children[i]));
        lemma_shape_distinct(tree.children[i], snapshot.children[i]);
    }
}

/// An inserted subtree has the shape of the snapshot that it was made from.
#[verifier::spinoff_prover]
pub(crate) proof fn lemma_inserted_shape(dom: DomView, parent: Ref, snapshot: SnapshotView)
    requires
        dom.wf(),
        dom.live(parent),
        dom.slots.len() + node_count(snapshot) <= usize::MAX,
    ensures
        same_shape(dom.insert(parent, snapshot).snapshot(dom.next()), snapshot),
    decreases snapshot, snapshot.children.len() + 1,
{
    let first = dom.add_node(
        parent,
        snapshot.name,
        snapshot.class,
        snapshot.properties,
        crate::text::once(snapshot.paths),
    );
    let fresh = dom.next();
    lemma_add_node(
        dom,
        parent,
        snapshot.name,
        snapshot.class,
        snapshot.properties,
        crate::text::once(snapshot.paths),
    );
    lemma_insert_children(first, fresh, snapshot, snapshot.children.len());
    lemma_inserted_children(first, fresh, snapshot, snapshot.children.len());
    let after = dom.insert(parent, snapshot);
    lemma_snapshot_children(after, fresh);
    assert forall|i: int| 0 <= i < snapshot.children.len() implies same_shape(
        #[trigger] after.snapshot(fresh).children[i],
        snapshot.children[i],
    ) by {
        assert(after.snapshot(fresh).children[i] == after.snapshot(after.node(fresh).children[i]));
    }
}

/// The first `count` children inserted below an instance without children
/// have the shapes of the first `count` children of the snapshot, in order.
#[verifier::spinoff_prover]
proof fn lemma_inserted_children(dom: DomView, parent: Ref, snapshot: SnapshotView, count: nat)
    requires
        dom.wf(),
        dom.live(parent),
        dom.node(parent).children.len() == 0,
        count <= snapshot.children.len(),
        dom.slots.len() + children_count(snapshot, count) <= usize::MAX,
    ensures
        dom.insert_children(parent, snapshot, count).node(parent).children.len() == count,
        forall|m: int|
            0 <= m < count ==> same_shape(
                dom.insert_children(parent, snapshot, count).snapshot(
                    #[trigger] dom.insert_children(parent, snapshot, count).node(parent).children[m],
                ),
                snapshot.children[m],
            ),
    decreases snapshot, count,
{
    reveal(kept);
    lemma_insert_children(dom, parent, snapshot, count);
    if count > 0 {
        let before = dom.insert_children(parent, snapshot, (count - 1) as nat);
        let after = dom.insert_children(parent, snapshot, count);
        let child = snapshot.children[count - 1];
        lemma_children_count_grows(snapshot, count, count);
        lemma_insert_children(dom, parent, snapshot, (count - 1) as nat);
        lemma_inserted_children(dom, parent, snapshot, (count - 1) as nat);
        lemma_insert(before, parent, child);
        lemma_inserted_shape(before, parent, child);
        assert(before.node_wf(parent));
        assert forall|m: int| 0 <= m < count implies same_shape(
            after.snapshot(#[trigger] after.node(parent).children[m]),
            snapshot.children[m],
        ) by {
            if m < count - 1 {
                let c = before.node(parent).children[m];
                assert(after.node(parent).children[m] == c);
                assert(before.live(c));
                assert forall|id: Ref| before.in_subtree(c, id) && before.live(id) implies #[trigger] after.live(
                    id,
                ) && after.node(id) == before.node(id) by {
                    lemma_subtree_later(before, c, id);
                }
                lemma_kept_snapshot(before, after, c);
            } else {
                assert(after.node(parent).children[m] == before.next());
            }
        }
    }
}

/// Before the next child of a snapshot is inserted below an instance that
/// had no children, no child has its name and class, where the snapshot
/// describes no twin siblings.
#[verifier::spinoff_prover]
pub(crate) proof fn lemma_next_child_free(dom: DomView, parent: Ref, snapshot: SnapshotView, count: nat)
    requires
        dom.wf(),
        dom.live(parent),
        dom.node(parent).children.len() == 0,
        count < snapshot.children.len(),
        distinct(snapshot),
        dom.slots.len() + children_count(snapshot, count) <= usize::MAX,
    ensures
        dom.insert_children(parent, snapshot, count).takes(parent, snapshot.children[count as int]),
{
    let now = dom.insert_children(parent, snapshot, count);
    lemma_insert_children(dom, parent, snapshot, count);
    lemma_inserted_children(dom, parent, snapshot, count);
    let child = snapshot.children[count as int];
    assert(distinct(child));
    assert forall|i: int| 0 <= i < now.node(parent).children.len() implies !(now.node(
        #[trigger] now.node(parent).children[i],
    ).name == child.name && now.node(now.node(parent).children[i]).class == child.class) by {
        let c = now.node(parent).children[i];
        assert(same_shape(now.snapshot(c), snapshot.children[i]));
        assert(!same_key(snapshot.children[i], snapshot.children[count as int]));
    }
}

/// In a graph without twin siblings, the snapshot of a subtree describes no
/// twin siblings.
#[verifier::spinoff_prover]
pub proof fn lemma_distinct_snapshot(dom: DomView, id: Ref)
    requires
        dom.sound(),
        dom.live(id),
    ensures
        distinct(dom.snapshot(id)),
    decreases dom.slots.len() - id.0,
{
    let tree = dom.snapshot(id);
    let kids = dom.node(id).children;
    assert(dom.node_wf(id));
    assert(dom.node_distinct(id));
    lemma_snapshot_children(dom, id);
    assert forall|i: int, j: int| 0 <= i < j < tree.children.len() implies !#[trigger] same_key(
        tree.children[i],
        tree.children[j],
    ) by {
        assert(tree.children[i] == dom.snapshot(kids[i]));
        assert(tree.children[j] == dom.snapshot(kids[j]));
        assert(!dom.twins(kids[i], kids[j]));
    }
    assert forall|i: int| 0 <= i < tree.children.len() implies distinct(#[trigger] tree.children[i]) by {
        assert(tree.children[i] == dom.snapshot(kids[i]));
        assert(dom.live(kids[i]));
        lemma_distinct_snapshot(dom, kids[i]);
    }
}

/// Inserting a subtree without twin siblings, whose name and class no child
/// of the parent has, makes no twins.
#[verifier::spinoff_prover]
pub proof fn lemma_insert_distinct(dom: DomView, parent: Ref, snapshot: SnapshotView)
    requires
        dom.sound(),
        dom.live(parent),
        dom.slots.len() + node_count(snapshot) <= usize::MAX,
        dom.takes(parent, snapshot),
    ensures
        dom.insert(parent, snapshot).distinct(),
    decreases snapshot, snapshot.children.len() + 1,
{
    let paths = crate::text::once(snapshot.paths);
    let first = dom.add_node(parent, snapshot.name, snapshot.class, snapshot.properties, paths);
    crate::text::lemma_unique(snapshot.paths, snapshot.paths.len());
    lemma_add_node(dom, parent, snapshot.name, snapshot.class, snapshot.properties, paths);
    crate::dom::lemma_add_node_distinct(
        dom,
        parent,
        snapshot.name,
        snapshot.class,
        snapshot.properties,
        paths,
    );
    lemma_insert_children_distinct(first, dom.next(), snapshot, snapshot.children.len());
}

/// Inserting the first children of a snapshot without twin siblings below an
/// instance that had no children makes no twins.
#[verifier::spinoff_prover]
proof fn lemma_insert_children_distinct(dom: DomView, parent: Ref, snapshot: SnapshotView, count: nat)
    requires
        dom.sound(),
        dom.live(parent),
        dom.node(parent).children.len() == 0,
        count <= snapshot.children.len(),
        distinct(snapshot),
        dom.slots.len() + children_count(snapshot, count) <= usize::MAX,
    ensures
        dom.insert_children(parent, snapshot, count).distinct(),
    decreases snapshot, count,
{
    if count > 0 {
        let before = dom.insert_children(parent, snapshot, (count - 1) as nat);
        lemma_children_count_grows(snapshot, count, count);
        lemma_insert_children(dom, parent, snapshot, (count - 1) as nat);
        lemma_insert_children_distinct(dom, parent, snapshot, (count - 1) as nat);
        lemma_next_child_free(dom, parent, snapshot, (count - 1) as nat);
        lemma_insert_distinct(before, parent, snapshot.children[count - 1]);
    }
}

/// What the completeness of the difference is stated of: a sound graph, an
/// instance of it, and a snapshot of the same name and class, both without
/// siblings of the same name and class, and room for the identifiers of the
/// instances that the snapshot describes.
pub open spec fn comparable(dom: DomView, id: Ref, new: SnapshotView) -> bool {
    &&& dom.wf()
    &&& dom.live(id)
    &&& distinct(dom.snapshot(id))
    &&& distinct(new)
    &&& same_key(dom.snapshot(id), new)
    &&& dom.slots.len() + node_count(new) <= usize::MAX
}

/// Whether the child `k` of the instance still waits for its turn, after the
/// first `r` children were looked at for removal and the first `n` children
/// of the snapshot were paired or added.
spec fn pending(dom: DomView, id: Ref, new: SnapshotView, k: int, r: nat, n: nat) -> bool {
    match find_key(new.children, dom.snapshot(id).children[k], new.children.len()) {
        Some(p) => p >= n,
        None => k >= r,
    }
}

/// Whether the child `c` is either an old child that still waits, or has the
/// name and class of one of the first `n` children of the snapshot.
spec fn settled(dom: DomView, now: DomView, id: Ref, new: SnapshotView, r: nat, n: nat, c: Ref) -> bool {
    ||| exists|k: int|
        0 <= k < dom.node(id).children.len() && pending(dom, id, new, k, r, n)
            && #[trigger] dom.node(id).children[k] == c
    ||| exists|m: int|
        0 <= m < n && #[trigger] same_key(now.snapshot(c), new.children[m]) && distinct(now.snapshot(c))
}

/// Whether a child of the instance is what `target` describes.
spec fn made(now: DomView, id: Ref, target: SnapshotView) -> bool {
    exists|i: int|
        0 <= i < now.node(id).children.len() && same_tree(
            now.snapshot(#[trigger] now.node(id).children[i]),
            target,
        ) && distinct(now.snapshot(now.node(id).children[i]))
}

/// What is outside the subtree is as it was.
#[verifier::opaque]
spec fn p_frame(dom: DomView, now: DomView, id: Ref) -> bool {
    forall|x: Ref|
        dom.live(x) && !dom.in_subtree(id, x) ==> #[trigger] now.live(x) && now.node(x) == dom.node(x)
}

/// The old children that still wait are children, with their subtrees as they were.
#[verifier::opaque]
spec fn p_pending(dom: DomView, now: DomView, id: Ref, new: SnapshotView, r: nat, n: nat) -> bool {
    forall|k: int|
        0 <= k < dom.node(id).children.len() && pending(dom, id, new, k, r, n) ==> now.node(
            id,
        ).children.contains(#[trigger] dom.node(id).children[k]) && kept(dom, now, dom.node(id).children[k])
}

/// Every child is settled.
#[verifier::opaque]
spec fn p_settled(dom: DomView, now: DomView, id: Ref, new: SnapshotView, r: nat, n: nat) -> bool {
    forall|i: int|
        0 <= i < now.node(id).children.len() ==> settled(
            dom,
            now,
            id,
            new,
            r,
            n,
            #[trigger] now.node(id).children[i],
        )
}

/// Each of the first `n` children of the snapshot is made.
#[verifier::opaque]
spec fn p_made(now: DomView, id: Ref, new: SnapshotView, n: nat) -> bool {
    forall|m: int| 0 <= m < n ==> made(now, id, #[trigger] new.children[m])
}

/// No two children have the same name and class.
#[verifier::opaque]
spec fn p_keys(now: DomView, id: Ref) -> bool {
    forall|i: int, j: int|
        0 <= i < j < now.node(id).children.len() ==> !#[trigger] same_key(
            now.snapshot(now.node(id).children[i]),
            now.snapshot(now.node(id).children[j]),
        )
}

/// The instance itself is in place, with the properties of the snapshot.
spec fn p_basic(dom: DomView, now: DomView, id: Ref, new: SnapshotView, n: nat) -> bool {
    &&& now.wf()
    &&& now.live(id)
    &&& now.root == dom.root
    &&& now.node(id).name == new.name
    &&& now.node(id).class == new.class
    &&& now.node(id).properties == new.properties
    &&& now.node(id).paths == crate::text::once(new.paths)
    &&& now.node(id).parent == dom.node(id).parent
    &&& dom.slots.len() <= now.slots.len() <= dom.slots.len() + children_count(new, n)
}

/// What holds of the graph `now` on the way from `dom` to the snapshot.
spec fn progress(dom: DomView, now: DomView, id: Ref, new: SnapshotView, r: nat, n: nat) -> bool {
    &&& p_basic(dom, now, id, new, n)
    &&& p_frame(dom, now, id)
    &&& p_pending(dom, now, id, new, r, n)
    &&& p_settled(dom, now, id, new, r, n)
    &&& p_made(now, id, new, n)
    &&& p_keys(now, id)
}

#[verifier::spinoff_prover]
proof fn lemma_use_frame(dom: DomView, now: DomView, id: Ref, x: Ref)
    requires
        p_frame(dom, now, id),
        dom.live(x),
        !dom.in_subtree(id, x),
    ensures
        now.live(x),
        now.node(x) == dom.node(x),
{
    reveal(p_frame);
    assert(now.live(x));
}

#[verifier::spinoff_prover]
proof fn lemma_use_settled(dom: DomView, now: DomView, id: Ref, new: SnapshotView, r: nat, n: nat, i: int)
    requires
        p_settled(dom, now, id, new, r, n),
        0 <= i < now.node(id).children.len(),
    ensures
        settled(dom, now, id, new, r, n, now.node(id).children[i]),
{
    reveal(p_settled);
}

#[verifier::spinoff_prover]
proof fn lemma_use_made(now: DomView, id: Ref, new: SnapshotView, n: nat, m: int)
    requires
        p_made(now, id, new, n),
        0 <= m < n,
    ensures
        made(now, id, new.children[m]),
{
    reveal(p_made);
}

#[verifier::spinoff_prover]
proof fn lemma_use_keys(now: DomView, id: Ref, i: int, j: int)
    requires
        p_keys(now, id),
        0 <= i < now.node(id).children.len(),
        0 <= j < now.node(id).children.len(),
        i != j,
    ensures
        !same_key(now.snapshot(now.node(id).children[i]), now.snapshot(now.node(id).children[j])),
{
    reveal(p_keys);
    if i < j {
        assert(!same_key(now.snapshot(now.node(id).children[i]), now.snapshot(now.node(id).children[j])));
    } else {
        assert(!same_key(now.snapshot(now.node(id).children[j]), now.snapshot(now.node(id).children[i])));
    }
}

/// No instance at or below a child of an instance is that instance.
#[verifier::spinoff_prover]
proof fn lemma_below_child(dom: DomView, id: Ref, child: Ref, x: Ref)
    requires
        dom.wf(),
        dom.live(id),
        dom.node(id).children.contains(child),
        dom.in_subtree(child, x),
    ensures
        x != id,
        id.0 < child.0 <= x.0,
        dom.in_subtree(id, x),
        dom.live(child),
        dom.node(child).parent == Some(id),
{
    assert(dom.node_wf(id));
    let i = choose|i: int| 0 <= i < dom.node(id).children.len() && dom.node(id).children[i] == child;
    assert(dom.live(dom.node(id).children[i]));
    lemma_subtree_later(dom, child, x);
    assert(dom.in_subtree(id, id));
    assert(dom.in_subtree(id, child));
    lemma_subtree_trans(dom, id, child, x);
}

/// The snapshots of the children of an instance are the children of its snapshot.
#[verifier::spinoff_prover]
proof fn lemma_old_children(dom: DomView, id: Ref)
    requires
        dom.wf(),
        dom.live(id),
    ensures
        dom.snapshot(id).children.len() == dom.node(id).children.len(),
        dom.snapshot(id).name == dom.node(id).name,
        dom.snapshot(id).class == dom.node(id).class,
        dom.snapshot(id).properties == dom.node(id).properties,
        dom.snapshot(id).id == Some(id),
        dom.node(id).children.no_duplicates(),
        forall|k: int|
            0 <= k < dom.node(id).children.len() ==> #[trigger] dom.snapshot(id).children[k]
                == dom.snapshot(dom.node(id).children[k]) && dom.live(dom.node(id).children[k])
                && dom.node(dom.node(id).children[k]).parent == Some(id) && dom.node(id).children.contains(
                dom.node(id).children[k],
            ) && dom.snapshot(dom.node(id).children[k]).id == Some(dom.node(id).children[k]),
{
    assert(dom.node_wf(id));
    lemma_snapshot_children(dom, id);
    assert forall|k: int| 0 <= k < dom.node(id).children.len() implies dom.live(
        #[trigger] dom.node(id).children[k],
    ) by {}
}

/// The progress after the update of the properties.
#[verifier::spinoff_prover]
proof fn lemma_start(dom: DomView, id: Ref, new: SnapshotView)
    requires
        comparable(dom, id, new),
    ensures
        applied(dom, update_part(dom.snapshot(id), new)).1 == update_part(dom.snapshot(id), new).len(),
        progress(dom, applied(dom, update_part(dom.snapshot(id), new)).0, id, new, 0, 0),
{
    reveal(kept);
    reveal(p_frame);
    reveal(p_pending);
    reveal(p_settled);
    reveal(p_made);
    reveal(p_keys);
    let old = dom.snapshot(id);
    let changes = update_part(old, new);
    let now = applied(dom, changes).0;
    lemma_old_children(dom, id);
    assert(dom.node_wf(id));
    assert(dom.in_subtree(id, id));
    if old.properties == new.properties && old.paths == crate::text::once(new.paths) {
        assert(now == dom);
    } else {
        let delta = crate::changes::delta_between(old.properties, new.properties);
        let paths = if old.paths == crate::text::once(new.paths) {
            None
        } else {
            Some(new.paths)
        };
        lemma_delta_completes(old.properties, new.properties);
        lemma_update(dom, id, delta);
        if paths is Some {
            crate::dom::lemma_repath(dom.update(id, delta), id, new.paths);
        }
        assert(changes.drop_last() =~= Seq::<ChangeView>::empty());
        assert(applied(dom, changes.drop_last()) == (dom, 0nat));
        assert(apply_one(dom, changes.last()) == Some(dom.change(id, delta, paths)));
        assert(now == dom.change(id, delta, paths));
    }
    let kids = now.node(id).children;
    assert(kids == dom.node(id).children);
    assert forall|k: int| 0 <= k < kids.len() implies kept(dom, now, #[trigger] kids[k]) by {
        assert forall|x: Ref| dom.in_subtree(kids[k], x) && dom.live(x) implies #[trigger] now.live(x)
            && now.node(x) == dom.node(x) by {
            lemma_below_child(dom, id, kids[k], x);
        }
    }
    assert forall|i: int| 0 <= i < kids.len() implies settled(dom, now, id, new, 0, 0, #[trigger] kids[i]) by {
        assert(pending(dom, id, new, i, 0, 0)) by {
            lemma_find_key(new.children, old.children[i], new.children.len());
        }
        assert(dom.node(id).children[i] == kids[i]);
    }
    assert forall|i: int, j: int| 0 <= i < j < kids.len() implies !#[trigger] same_key(
        now.snapshot(kids[i]),
        now.snapshot(kids[j]),
    ) by {
        lemma_kept_snapshot(dom, now, kids[i]);
        lemma_kept_snapshot(dom, now, kids[j]);
        assert(!same_key(old.children[i], old.children[j]));
    }
}

/// At the end of the progress the subtree is what the snapshot describes.
#[verifier::spinoff_prover]
proof fn lemma_finish(dom: DomView, now: DomView, id: Ref, new: SnapshotView)
    requires
        comparable(dom, id, new),
        progress(dom, now, id, new, dom.node(id).children.len(), new.children.len()),
    ensures
        same_tree(now.snapshot(id), new),
        distinct(now.snapshot(id)),
{
    reveal(p_frame);
    reveal(p_pending);
    reveal(p_settled);
    reveal(p_made);
    reveal(p_keys);
    let kids = now.node(id).children;
    let tree = now.snapshot(id);
    let r = dom.node(id).children.len();
    let n = new.children.len();
    lemma_old_children(now, id);
    lemma_old_children(dom, id);
    assert forall|k: int| 0 <= k < r implies !pending(dom, id, new, k, r, n) by {
        lemma_find_key(new.children, dom.snapshot(id).children[k], n);
    }
    assert forall|j: int| 0 <= j < n implies described(tree.children, #[trigger] new.children[j]) by {
        assert(made(now, id, new.children[j]));
        let i = choose|i: int|
            0 <= i < kids.len() && same_tree(now.snapshot(#[trigger] kids[i]), new.children[j])
                && distinct(now.snapshot(kids[i]));
        assert(tree.children[i] == now.snapshot(kids[i]));
    }
    assert forall|i: int| 0 <= i < tree.children.len() implies has_key(new.children, #[trigger] tree.children[i])
        && distinct(tree.children[i]) by {
        assert(settled(dom, now, id, new, r, n, kids[i]));
        assert(tree.children[i] == now.snapshot(kids[i]));
        let m = choose|m: int|
            0 <= m < n && #[trigger] same_key(now.snapshot(kids[i]), new.children[m]) && distinct(
                now.snapshot(kids[i]),
            );
        assert(same_key(new.children[m], tree.children[i]));
    }
    assert forall|i: int, j: int| 0 <= i < j < tree.children.len() implies !#[trigger] same_key(
        tree.children[i],
        tree.children[j],
    ) by {
        assert(tree.children[i] == now.snapshot(kids[i]));
        assert(tree.children[j] == now.snapshot(kids[j]));
        assert(!same_key(now.snapshot(kids[i]), now.snapshot(kids[j])));
    }
}

/// An instance outside the subtree of `id` stays outside it while the
/// instances outside stay as they are.
#[verifier::spinoff_prover]
proof fn lemma_outside(dom: DomView, now: DomView, id: Ref, x: Ref)
    requires
        dom.wf(),
        forall|y: Ref|
            dom.live(y) && !dom.in_subtree(id, y) ==> #[trigger] now.live(y) && now.node(y) == dom.node(y),
        dom.live(x),
        !dom.in_subtree(id, x),
    ensures
        !now.in_subtree(id, x),
    decreases x.0,
{
    assert(dom.node_wf(x));
    assert(now.live(x));
    match dom.node(x).parent {
        Some(above) => {
            lemma_outside(dom, now, id, above);
        },
        None => {},
    }
}

/// An instance outside the subtree of `id` is not below a child of `id`.
#[verifier::spinoff_prover]
proof fn lemma_outside_child(dom: DomView, now: DomView, id: Ref, child: Ref, x: Ref)
    requires
        dom.wf(),
        now.wf(),
        now.live(id),
        now.node(id).children.contains(child),
        forall|y: Ref|
            dom.live(y) && !dom.in_subtree(id, y) ==> #[trigger] now.live(y) && now.node(y) == dom.node(y),
        dom.live(x),
        !dom.in_subtree(id, x),
    ensures
        !now.in_subtree(child, x),
        x != id,
{
    assert(dom.in_subtree(id, id));
    lemma_outside(dom, now, id, x);
    if now.in_subtree(child, x) {
        lemma_below_child(now, id, child, x);
    }
}

/// The subtree of another child of `id` is kept by a step that leaves alone
/// what is neither `id` nor at or below the child `touched`.
#[verifier::spinoff_prover]
proof fn lemma_sibling_kept(now: DomView, next: DomView, id: Ref, touched: Ref, other: Ref)
    requires
        now.wf(),
        now.live(id),
        now.node(id).children.contains(other),
        now.node(id).children.contains(touched),
        other != touched,
        siblings_same(now, next, id, touched),
    ensures
        kept(now, next, other),
        next.snapshot(other) == now.snapshot(other),
        now.live(other),
{
    reveal(siblings_same);
    reveal(kept);
    assert(now.in_subtree(other, other));
    lemma_below_child(now, id, other, other);
    assert(now.in_subtree(touched, touched));
    lemma_below_child(now, id, touched, touched);
    assert forall|x: Ref| now.in_subtree(other, x) && now.live(x) implies #[trigger] next.live(x)
        && next.node(x) == now.node(x) by {
        lemma_below_child(now, id, other, x);
        lemma_disjoint(now, id, other, touched, x);
        assert(x != id);
        assert(!now.in_subtree(touched, x));
        assert(next.live(x));
        assert(next.node(x) == now.node(x));
    }
    assert(kept(now, next, other));
    lemma_kept_snapshot(now, next, other);
}

/// The subtree of a child of `id` is kept by a step that leaves alone what is not `id`.
#[verifier::spinoff_prover]
proof fn lemma_child_kept(now: DomView, next: DomView, id: Ref, other: Ref)
    requires
        now.wf(),
        now.live(id),
        now.node(id).children.contains(other),
        others_same(now, next, id),
    ensures
        kept(now, next, other),
        next.snapshot(other) == now.snapshot(other),
        now.live(other),
{
    reveal(others_same);
    reveal(kept);
    assert(now.in_subtree(other, other));
    lemma_below_child(now, id, other, other);
    assert forall|x: Ref| now.in_subtree(other, x) && now.live(x) implies #[trigger] next.live(x)
        && next.node(x) == now.node(x) by {
        lemma_below_child(now, id, other, x);
    }
    lemma_kept_snapshot(now, next, other);
}

/// A child that still waits is a child of the instance as it was at the start.
#[verifier::spinoff_prover]
proof fn lemma_pending_child(dom: DomView, now: DomView, id: Ref, new: SnapshotView, r: nat, n: nat, k: int)
    requires
        comparable(dom, id, new),
        progress(dom, now, id, new, r, n),
        0 <= k < dom.node(id).children.len(),
        pending(dom, id, new, k, r, n),
    ensures
        now.node(id).children.contains(dom.node(id).children[k]),
        kept(dom, now, dom.node(id).children[k]),
        now.live(dom.node(id).children[k]),
        now.snapshot(dom.node(id).children[k]) == dom.snapshot(id).children[k],
        now.node(dom.node(id).children[k]).parent == Some(id),
        dom.node(id).children[k] != now.root,
{
    reveal(p_pending);
    let c = dom.node(id).children[k];
    lemma_old_children(dom, id);
    assert(now.node(id).children.contains(c) && kept(dom, now, c));
    lemma_kept_snapshot(dom, now, c);
    assert(dom.in_subtree(c, c));
    lemma_kept_subtree(dom, now, c, c);
    assert(now.node_wf(now.root));
}

/// The progress after a child with a partner was looked at for removal.
#[verifier::spinoff_prover]
proof fn lemma_step_skip(dom: DomView, now: DomView, id: Ref, new: SnapshotView, r: nat)
    requires
        comparable(dom, id, new),
        progress(dom, now, id, new, r, 0),
        r < dom.node(id).children.len(),
        find_key(new.children, dom.snapshot(id).children[r as int], new.children.len()) is Some,
    ensures
        progress(dom, now, id, new, r + 1, 0),
{
    reveal(p_frame);
    reveal(p_pending);
    reveal(p_settled);
    reveal(p_made);
    reveal(p_keys);
    let kids = now.node(id).children;
    assert forall|k: int| 0 <= k < dom.node(id).children.len() implies (pending(dom, id, new, k, r + 1, 0)
        <==> pending(dom, id, new, k, r, 0)) by {
        lemma_find_key(new.children, dom.snapshot(id).children[k], new.children.len());
    }
    assert forall|i: int| 0 <= i < kids.len() implies settled(dom, now, id, new, r + 1, 0, #[trigger] kids[i]) by {
        assert(settled(dom, now, id, new, r, 0, kids[i]));
        let k = choose|k: int|
            0 <= k < dom.node(id).children.len() && pending(dom, id, new, k, r, 0)
                && #[trigger] dom.node(id).children[k] == kids[i];
        assert(pending(dom, id, new, k, r + 1, 0));
    }
}

/// The progress after a child without a partner was removed.
#[verifier::spinoff_prover]
proof fn lemma_step_remove(dom: DomView, now: DomView, id: Ref, new: SnapshotView, r: nat)
    requires
        comparable(dom, id, new),
        progress(dom, now, id, new, r, 0),
        r < dom.node(id).children.len(),
        find_key(new.children, dom.snapshot(id).children[r as int], new.children.len()) is None,
    ensures
        now.live(dom.node(id).children[r as int]),
        dom.node(id).children[r as int] != now.root,
        progress(dom, now.remove(dom.node(id).children[r as int]), id, new, r + 1, 0),
{
    reveal(p_frame);
    reveal(p_pending);
    reveal(p_settled);
    reveal(p_made);
    reveal(p_keys);
    let c = dom.node(id).children[r as int];
    let kids = now.node(id).children;
    let next = now.remove(c);
    lemma_old_children(dom, id);
    assert(pending(dom, id, new, r as int, r, 0));
    lemma_pending_child(dom, now, id, new, r, 0, r as int);
    lemma_remove(now, c);
    assert(now.node_wf(id));
    lemma_without(kids, c);
    assert(now.in_subtree(c, c));
    lemma_below_child(now, id, c, c);
    assert(!now.in_subtree(c, id)) by {
        if now.in_subtree(c, id) {
            lemma_subtree_later(now, c, id);
        }
    }
    assert(next.live(id));
    let kids2 = next.node(id).children;
    assert(kids2 == without(kids, c));
    assert(siblings_same(now, next, id, c)) by {
        reveal(siblings_same);
        assert forall|y: Ref| now.live(y) && y != id && !now.in_subtree(c, y) implies #[trigger] next.live(
            y,
        ) && next.node(y) == now.node(y) by {}
    }
    assert forall|x: Ref| dom.live(x) && !dom.in_subtree(id, x) implies #[trigger] next.live(x)
        && next.node(x) == dom.node(x) by {
        assert(now.live(x));
        lemma_outside_child(dom, now, id, c, x);
    }
    assert forall|k: int|
        0 <= k < dom.node(id).children.len() && pending(dom, id, new, k, r + 1, 0) implies kids2.contains(
        #[trigger] dom.node(id).children[k],
    ) && kept(dom, next, dom.node(id).children[k]) by {
        let c2 = dom.node(id).children[k];
        assert(pending(dom, id, new, k, r, 0));
        assert(k != r);
        assert(c2 != c);
        lemma_pending_child(dom, now, id, new, r, 0, k);
        lemma_sibling_kept(now, next, id, c, c2);
        lemma_kept_trans(dom, now, next, c2);
    }
    assert forall|i: int| 0 <= i < kids2.len() implies settled(dom, next, id, new, r + 1, 0, #[trigger] kids2[i]) by {
        let c2 = kids2[i];
        assert(kids2.contains(c2));
        assert(kids.contains(c2) && c2 != c);
        let i0 = choose|i0: int| 0 <= i0 < kids.len() && kids[i0] == c2;
        assert(settled(dom, now, id, new, r, 0, kids[i0]));
        let k = choose|k: int|
            0 <= k < dom.node(id).children.len() && pending(dom, id, new, k, r, 0)
                && #[trigger] dom.node(id).children[k] == c2;
        assert(k != r);
        assert(pending(dom, id, new, k, r + 1, 0));
    }
    assert forall|i: int, j: int| 0 <= i < j < kids2.len() implies !#[trigger] same_key(
        next.snapshot(kids2[i]),
        next.snapshot(kids2[j]),
    ) by {
        let at = kids.index_of(c);
        let i0 = if i < at { i } else { i + 1 };
        let j0 = if j < at { j } else { j + 1 };
        assert(kids2[i] == kids[i0] && kids2[j] == kids[j0]);
        assert(kids2.contains(kids2[i]) && kids2.contains(kids2[j]));
        lemma_sibling_kept(now, next, id, c, kids[i0]);
        lemma_sibling_kept(now, next, id, c, kids[j0]);
        assert(!same_key(now.snapshot(kids[i0]), now.snapshot(kids[j0])));
    }
}

/// The progress after the removals among the first `r` children.
#[verifier::spinoff_prover]
proof fn lemma_removals(dom: DomView, start: DomView, id: Ref, new: SnapshotView, r: nat)
    requires
        comparable(dom, id, new),
        progress(dom, start, id, new, 0, 0),
        r <= dom.node(id).children.len(),
    ensures
        applied(start, removals(dom.snapshot(id), new, r)).1 == removals(dom.snapshot(id), new, r).len(),
        progress(dom, applied(start, removals(dom.snapshot(id), new, r)).0, id, new, r, 0),
    decreases r,
{
    let old = dom.snapshot(id);
    lemma_old_children(dom, id);
    if r > 0 {
        let before = removals(old, new, (r - 1) as nat);
        let now = applied(start, before).0;
        lemma_removals(dom, start, id, new, (r - 1) as nat);
        if find_key(new.children, old.children[r - 1], new.children.len()) is None {
            lemma_step_remove(dom, now, id, new, (r - 1) as nat);
            let changes = removals(old, new, r);
            assert(changes.drop_last() =~= before);
            assert(changes.last() == ChangeView::Removed { id: dom.node(id).children[r - 1] });
        } else {
            lemma_step_skip(dom, now, id, new, (r - 1) as nat);
        }
    }
}

/// The room that is left while the children of the snapshot are gone through.
#[verifier::spinoff_prover]
proof fn lemma_room(dom: DomView, now: DomView, id: Ref, new: SnapshotView, r: nat, n: nat)
    requires
        comparable(dom, id, new),
        p_basic(dom, now, id, new, n),
        n < new.children.len(),
    ensures
        now.slots.len() + node_count(new.children[n as int]) <= dom.slots.len() + children_count(
            new,
            n + 1,
        ),
        dom.slots.len() + children_count(new, n + 1) <= usize::MAX,
{
    lemma_children_count_grows(new, n + 1, new.children.len());
}

/// What inserting a subtree below `id` does, seen from `id`.
#[verifier::spinoff_prover]
proof fn lemma_add_effects(now: DomView, id: Ref, child: SnapshotView)
    requires
        now.wf(),
        now.live(id),
        now.slots.len() + node_count(child) <= usize::MAX,
    ensures
        now.insert(id, child).wf(),
        now.insert(id, child).root == now.root,
        now.insert(id, child).live(id),
        now.insert(id, child).slots.len() == now.slots.len() + node_count(child),
        now.insert(id, child).node(id) == (InstanceView {
            children: now.node(id).children.push(now.next()),
            ..now.node(id)
        }),
        others_same(now, now.insert(id, child), id),
        same_tree(now.insert(id, child).snapshot(now.next()), child),
        same_key(now.insert(id, child).snapshot(now.next()), child),
        distinct(child) ==> distinct(now.insert(id, child).snapshot(now.next())),
{
    let next = now.insert(id, child);
    lemma_insert(now, id, child);
    lemma_inserted_shape(now, id, child);
    lemma_shape(next.snapshot(now.next()), child);
    if distinct(child) {
        lemma_shape_distinct(next.snapshot(now.next()), child);
    }
    assert(others_same(now, next, id)) by {
        reveal(others_same);
        assert forall|y: Ref| now.live(y) && y != id implies #[trigger] next.live(y) && next.node(y)
            == now.node(y) by {}
    }
}

/// What a step that adds a child of the snapshot starts from.
spec fn add_ready(dom: DomView, now: DomView, id: Ref, new: SnapshotView, n: nat) -> bool {
    &&& comparable(dom, id, new)
    &&& progress(dom, now, id, new, dom.node(id).children.len(), n)
    &&& n < new.children.len()
    &&& find_key(dom.snapshot(id).children, new.children[n as int], dom.node(id).children.len()) is None
}

#[verifier::spinoff_prover]
proof fn lemma_add_basic(dom: DomView, now: DomView, id: Ref, new: SnapshotView, n: nat)
    requires
        add_ready(dom, now, id, new, n),
    ensures
        now.live(id),
        now.slots.len() + node_count(new.children[n as int]) <= usize::MAX,
        p_basic(dom, now.insert(id, new.children[n as int]), id, new, n + 1),
        p_frame(dom, now.insert(id, new.children[n as int]), id),
{
    reveal(others_same);
    let r = dom.node(id).children.len();
    let child = new.children[n as int];
    let next = now.insert(id, child);
    lemma_room(dom, now, id, new, r, n);
    lemma_add_effects(now, id, child);
    assert(dom.in_subtree(id, id));
    assert forall|x: Ref| dom.live(x) && !dom.in_subtree(id, x) implies #[trigger] next.live(x)
        && next.node(x) == dom.node(x) by {
        lemma_use_frame(dom, now, id, x);
    }
    reveal(p_frame);
}

/// In a step that adds a child of the snapshot, what waited still waits.
#[verifier::spinoff_prover]
proof fn lemma_add_waits(dom: DomView, id: Ref, new: SnapshotView, n: nat, k: int)
    requires
        comparable(dom, id, new),
        n < new.children.len(),
        find_key(dom.snapshot(id).children, new.children[n as int], dom.node(id).children.len()) is None,
        0 <= k < dom.node(id).children.len(),
    ensures
        pending(dom, id, new, k, dom.node(id).children.len(), n + 1) == pending(
            dom,
            id,
            new,
            k,
            dom.node(id).children.len(),
            n,
        ),
        !same_key(dom.snapshot(id).children[k], new.children[n as int]),
{
    let old = dom.snapshot(id);
    lemma_old_children(dom, id);
    lemma_find_key(old.children, new.children[n as int], dom.node(id).children.len());
    lemma_find_key(new.children, old.children[k], new.children.len());
    if find_key(new.children, old.children[k], new.children.len()) == Some(n as int) {
        assert(same_key(old.children[k], new.children[n as int]));
    }
}

#[verifier::spinoff_prover]
proof fn lemma_add_pending(dom: DomView, now: DomView, id: Ref, new: SnapshotView, n: nat)
    requires
        add_ready(dom, now, id, new, n),
    ensures
        p_pending(dom, now.insert(id, new.children[n as int]), id, new, dom.node(id).children.len(), n + 1),
{
    let r = dom.node(id).children.len();
    let child = new.children[n as int];
    let next = now.insert(id, child);
    let kids = now.node(id).children;
    lemma_room(dom, now, id, new, r, n);
    lemma_add_effects(now, id, child);
    assert forall|k: int| 0 <= k < r && pending(dom, id, new, k, r, n + 1) implies next.node(
        id,
    ).children.contains(#[trigger] dom.node(id).children[k]) && kept(dom, next, dom.node(id).children[k]) by {
        let c2 = dom.node(id).children[k];
        lemma_add_waits(dom, id, new, n, k);
        lemma_pending_child(dom, now, id, new, r, n, k);
        lemma_old_children(dom, id);
        let i0 = choose|i0: int| 0 <= i0 < kids.len() && kids[i0] == c2;
        assert(next.node(id).children[i0] == c2);
        lemma_child_kept(now, next, id, c2);
        lemma_kept_trans(dom, now, next, c2);
    }
    reveal(p_pending);
}

#[verifier::spinoff_prover]
proof fn lemma_add_settled(dom: DomView, now: DomView, id: Ref, new: SnapshotView, n: nat)
    requires
        add_ready(dom, now, id, new, n),
    ensures
        p_settled(dom, now.insert(id, new.children[n as int]), id, new, dom.node(id).children.len(), n + 1),
{
    let r = dom.node(id).children.len();
    let child = new.children[n as int];
    let next = now.insert(id, child);
    let kids = now.node(id).children;
    let kids2 = next.node(id).children;
    lemma_room(dom, now, id, new, r, n);
    lemma_add_effects(now, id, child);
    assert forall|i: int| 0 <= i < kids2.len() implies settled(dom, next, id, new, r, n + 1, #[trigger] kids2[i]) by {
        let c2 = kids2[i];
        if i == kids.len() {
            assert(same_key(next.snapshot(c2), new.children[n as int]));
        } else {
            assert(kids[i] == c2);
            assert(kids.contains(c2));
            lemma_child_kept(now, next, id, c2);
            lemma_use_settled(dom, now, id, new, r, n, i);
            if exists|k: int|
                0 <= k < r && pending(dom, id, new, k, r, n) && #[trigger] dom.node(id).children[k] == c2 {
                let k = choose|k: int|
                    0 <= k < r && pending(dom, id, new, k, r, n) && #[trigger] dom.node(id).children[k]
                        == c2;
                lemma_add_waits(dom, id, new, n, k);
            } else {
                let m = choose|m: int|
                    0 <= m < n && #[trigger] same_key(now.snapshot(c2), new.children[m]) && distinct(
                        now.snapshot(c2),
                    );
                assert(same_key(next.snapshot(c2), new.children[m]));
            }
        }
    }
    reveal(p_settled);
}

#[verifier::spinoff_prover]
proof fn lemma_add_made(dom: DomView, now: DomView, id: Ref, new: SnapshotView, n: nat)
    requires
        add_ready(dom, now, id, new, n),
    ensures
        p_made(now.insert(id, new.children[n as int]), id, new, n + 1),
{
    let r = dom.node(id).children.len();
    let child = new.children[n as int];
    let next = now.insert(id, child);
    let kids = now.node(id).children;
    let kids2 = next.node(id).children;
    lemma_room(dom, now, id, new, r, n);
    lemma_add_effects(now, id, child);
    assert forall|m: int| 0 <= m < n + 1 implies made(next, id, #[trigger] new.children[m]) by {
        if m == n {
            assert(kids2[kids.len() as int] == now.next());
        } else {
            lemma_use_made(now, id, new, n, m);
            let i = choose|i: int|
                0 <= i < kids.len() && same_tree(now.snapshot(#[trigger] kids[i]), new.children[m])
                    && distinct(now.snapshot(kids[i]));
            assert(kids.contains(kids[i]));
            lemma_child_kept(now, next, id, kids[i]);
            assert(kids2[i] == kids[i]);
        }
    }
    reveal(p_made);
}

#[verifier::spinoff_prover]
proof fn lemma_add_keys(dom: DomView, now: DomView, id: Ref, new: SnapshotView, n: nat)
    requires
        add_ready(dom, now, id, new, n),
    ensures
        p_keys(now.insert(id, new.children[n as int]), id),
{
    let r = dom.node(id).children.len();
    let old = dom.snapshot(id);
    let child = new.children[n as int];
    let next = now.insert(id, child);
    let kids = now.node(id).children;
    let kids2 = next.node(id).children;
    lemma_room(dom, now, id, new, r, n);
    lemma_add_effects(now, id, child);
    assert forall|i: int, j: int| 0 <= i < j < kids2.len() implies !#[trigger] same_key(
        next.snapshot(kids2[i]),
        next.snapshot(kids2[j]),
    ) by {
        assert(kids.contains(kids[i]));
        lemma_child_kept(now, next, id, kids[i]);
        if j == kids.len() {
            let c2 = kids[i];
            lemma_use_settled(dom, now, id, new, r, n, i);
            if exists|k: int|
                0 <= k < r && pending(dom, id, new, k, r, n) && #[trigger] dom.node(id).children[k] == c2 {
                let k = choose|k: int|
                    0 <= k < r && pending(dom, id, new, k, r, n) && #[trigger] dom.node(id).children[k]
                        == c2;
                lemma_pending_child(dom, now, id, new, r, n, k);
                lemma_add_waits(dom, id, new, n, k);
            } else {
                let m = choose|m: int|
                    0 <= m < n && #[trigger] same_key(now.snapshot(c2), new.children[m]) && distinct(
                        now.snapshot(c2),
                    );
                assert(!same_key(new.children[m], new.children[n as int]));
            }
        } else {
            assert(kids.contains(kids[j]));
            lemma_child_kept(now, next, id, kids[j]);
            lemma_use_keys(now, id, i, j);
        }
    }
    reveal(p_keys);
}

/// A child of the snapshot without a partner can be added: no child has
/// its name and class.
#[verifier::spinoff_prover]
proof fn lemma_add_takes(dom: DomView, now: DomView, id: Ref, new: SnapshotView, n: nat)
    requires
        add_ready(dom, now, id, new, n),
    ensures
        now.takes(id, new.children[n as int]),
{
    let r = dom.node(id).children.len();
    let old = dom.snapshot(id);
    let child = new.children[n as int];
    let kids = now.node(id).children;
    assert(distinct(child));
    assert forall|i: int| 0 <= i < kids.len() implies !(now.node(#[trigger] kids[i]).name == child.name
        && now.node(kids[i]).class == child.class) by {
        let c2 = kids[i];
        lemma_use_settled(dom, now, id, new, r, n, i);
        if exists|k: int|
            0 <= k < r && pending(dom, id, new, k, r, n) && #[trigger] dom.node(id).children[k] == c2 {
            let k = choose|k: int|
                0 <= k < r && pending(dom, id, new, k, r, n) && #[trigger] dom.node(id).children[k] == c2;
            lemma_pending_child(dom, now, id, new, r, n, k);
            lemma_add_waits(dom, id, new, n, k);
            assert(now.snapshot(c2).name == now.node(c2).name);
            assert(now.snapshot(c2).class == now.node(c2).class);
        } else {
            let m = choose|m: int|
                0 <= m < n && #[trigger] same_key(now.snapshot(c2), new.children[m]) && distinct(
                    now.snapshot(c2),
                );
            assert(!same_key(new.children[m], new.children[n as int]));
            assert(now.snapshot(c2).name == now.node(c2).name);
            assert(now.snapshot(c2).class == now.node(c2).class);
        }
    }
}

/// The progress after a child of the snapshot without a partner was added.
#[verifier::spinoff_prover]
proof fn lemma_step_add(dom: DomView, now: DomView, id: Ref, new: SnapshotView, n: nat)
    requires
        add_ready(dom, now, id, new, n),
    ensures
        now.live(id),
        now.slots.len() + node_count(new.children[n as int]) <= usize::MAX,
        progress(dom, now.insert(id, new.children[n as int]), id, new, dom.node(id).children.len(), n + 1),
{
    lemma_add_basic(dom, now, id, new, n);
    lemma_add_pending(dom, now, id, new, n);
    lemma_add_settled(dom, now, id, new, n);
    lemma_add_made(dom, now, id, new, n);
    lemma_add_keys(dom, now, id, new, n);
}

/// What is known of the partner of a child of the snapshot before the changes below it are made.
#[verifier::spinoff_prover]
proof fn lemma_pair_ready(dom: DomView, now: DomView, id: Ref, new: SnapshotView, n: nat, k: int)
    requires
        comparable(dom, id, new),
        progress(dom, now, id, new, dom.node(id).children.len(), n),
        n < new.children.len(),
        find_key(dom.snapshot(id).children, new.children[n as int], dom.node(id).children.len()) == Some(
            k,
        ),
    ensures
        0 <= k < dom.node(id).children.len(),
        same_key(dom.snapshot(id).children[k], new.children[n as int]),
        pending(dom, id, new, k, dom.node(id).children.len(), n),
        find_key(new.children, dom.snapshot(id).children[k], new.children.len()) == Some(n as int),
        now.snapshot(dom.node(id).children[k]) == dom.snapshot(id).children[k],
        now.node(id).children.contains(dom.node(id).children[k]),
        comparable(now, dom.node(id).children[k], new.children[n as int]),
{
    let r = dom.node(id).children.len();
    let old = dom.snapshot(id);
    let child = new.children[n as int];
    lemma_old_children(dom, id);
    lemma_find_key(old.children, child, r);
    lemma_find_key(new.children, old.children[k], new.children.len());
    let back = find_key(new.children, old.children[k], new.children.len());
    assert(same_key(new.children[n as int], old.children[k]));
    assert(back is Some);
    if back->0 != n {
        assert(same_key(new.children[back->0], new.children[n as int]));
    }
    lemma_pending_child(dom, now, id, new, r, n, k);
    lemma_room(dom, now, id, new, r, n);
}

/// What a step that pairs a child of the snapshot has made.
spec fn pair_done(dom: DomView, now: DomView, next: DomView, id: Ref, new: SnapshotView, n: nat, k: int) -> bool {
    &&& comparable(dom, id, new)
    &&& progress(dom, now, id, new, dom.node(id).children.len(), n)
    &&& n < new.children.len()
    &&& find_key(dom.snapshot(id).children, new.children[n as int], dom.node(id).children.len()) == Some(k)
    &&& next.wf()
    &&& next.root == now.root
    &&& same_tree(next.snapshot(dom.node(id).children[k]), new.children[n as int])
    &&& distinct(next.snapshot(dom.node(id).children[k]))
    &&& left_alone(now, next, dom.node(id).children[k])
    &&& now.slots.len() <= next.slots.len() <= now.slots.len() + node_count(new.children[n as int])
}

/// Whether what is not at or below `top` is in `next` as it is in `now`.
#[verifier::opaque]
spec fn left_alone(now: DomView, next: DomView, top: Ref) -> bool {
    forall|x: Ref|
        now.live(x) && !now.in_subtree(top, x) ==> #[trigger] next.live(x) && next.node(x) == now.node(x)
}

/// What making changes below the child `c` of `id` does, seen from `id`.
#[verifier::spinoff_prover]
proof fn lemma_pair_effects(now: DomView, next: DomView, id: Ref, c: Ref)
    requires
        now.wf(),
        now.live(id),
        now.node(id).children.contains(c),
        left_alone(now, next, c),
    ensures
        next.live(id),
        next.node(id) == now.node(id),
        siblings_same(now, next, id, c),
{
    reveal(left_alone);
    reveal(siblings_same);
    assert(now.in_subtree(c, c));
    lemma_below_child(now, id, c, c);
    assert(!now.in_subtree(c, id)) by {
        if now.in_subtree(c, id) {
            lemma_subtree_later(now, c, id);
        }
    }
    assert(next.live(id));
}

#[verifier::spinoff_prover]
proof fn lemma_pair_basic(dom: DomView, now: DomView, next: DomView, id: Ref, new: SnapshotView, n: nat, k: int)
    requires
        pair_done(dom, now, next, id, new, n, k),
    ensures
        p_basic(dom, next, id, new, n + 1),
        p_frame(dom, next, id),
{
    reveal(siblings_same);
    let r = dom.node(id).children.len();
    let c = dom.node(id).children[k];
    lemma_pair_ready(dom, now, id, new, n, k);
    lemma_room(dom, now, id, new, r, n);
    lemma_pair_effects(now, next, id, c);
    assert forall|x: Ref| dom.live(x) && !dom.in_subtree(id, x) implies #[trigger] next.live(x)
        && next.node(x) == dom.node(x) by {
        lemma_use_frame(dom, now, id, x);
        reveal(p_frame);
        lemma_outside_child(dom, now, id, c, x);
        assert(next.live(x));
    }
    reveal(p_frame);
}

/// In a step that pairs a child of the snapshot, what waited still waits, but the partner.
#[verifier::spinoff_prover]
proof fn lemma_pair_waits(dom: DomView, id: Ref, new: SnapshotView, n: nat, k: int, k2: int)
    requires
        comparable(dom, id, new),
        n < new.children.len(),
        find_key(dom.snapshot(id).children, new.children[n as int], dom.node(id).children.len()) == Some(
            k,
        ),
        0 <= k2 < dom.node(id).children.len(),
    ensures
        k2 != k ==> pending(dom, id, new, k2, dom.node(id).children.len(), n + 1) == pending(
            dom,
            id,
            new,
            k2,
            dom.node(id).children.len(),
            n,
        ),
        k2 != k ==> dom.node(id).children[k2] != dom.node(id).children[k],
        !pending(dom, id, new, k, dom.node(id).children.len(), n + 1),
{
    let old = dom.snapshot(id);
    let r = dom.node(id).children.len();
    lemma_old_children(dom, id);
    lemma_find_key(old.children, new.children[n as int], r);
    lemma_find_key(new.children, old.children[k2], new.children.len());
    lemma_find_key(new.children, old.children[k], new.children.len());
    let back = find_key(new.children, old.children[k], new.children.len());
    assert(same_key(new.children[n as int], old.children[k]));
    if back->0 != n {
        assert(same_key(new.children[back->0], new.children[n as int]));
    }
    if k2 != k && find_key(new.children, old.children[k2], new.children.len()) == Some(n as int) {
        assert(same_key(old.children[k2], new.children[n as int]));
        if k2 < k {
            assert(!same_key(old.children[k2], old.children[k]));
        } else {
            assert(!same_key(old.children[k], old.children[k2]));
        }
    }
}

#[verifier::spinoff_prover]
proof fn lemma_pair_pending(dom: DomView, now: DomView, next: DomView, id: Ref, new: SnapshotView, n: nat, k: int)
    requires
        pair_done(dom, now, next, id, new, n, k),
    ensures
        p_pending(dom, next, id, new, dom.node(id).children.len(), n + 1),
{
    let r = dom.node(id).children.len();
    let c = dom.node(id).children[k];
    let kids = now.node(id).children;
    lemma_pair_ready(dom, now, id, new, n, k);
    lemma_pair_effects(now, next, id, c);
    assert forall|k2: int| 0 <= k2 < r && pending(dom, id, new, k2, r, n + 1) implies next.node(
        id,
    ).children.contains(#[trigger] dom.node(id).children[k2]) && kept(
        dom,
        next,
        dom.node(id).children[k2],
    ) by {
        let c2 = dom.node(id).children[k2];
        lemma_pair_waits(dom, id, new, n, k, k2);
        lemma_pending_child(dom, now, id, new, r, n, k2);
        lemma_old_children(dom, id);
        lemma_sibling_kept(now, next, id, c, c2);
        lemma_kept_trans(dom, now, next, c2);
    }
    reveal(p_pending);
}

#[verifier::spinoff_prover]
proof fn lemma_pair_settled(dom: DomView, now: DomView, next: DomView, id: Ref, new: SnapshotView, n: nat, k: int)
    requires
        pair_done(dom, now, next, id, new, n, k),
    ensures
        p_settled(dom, next, id, new, dom.node(id).children.len(), n + 1),
{
    let r = dom.node(id).children.len();
    let c = dom.node(id).children[k];
    let kids = now.node(id).children;
    lemma_pair_ready(dom, now, id, new, n, k);
    lemma_pair_effects(now, next, id, c);
    assert forall|i: int| 0 <= i < kids.len() implies settled(dom, next, id, new, r, n + 1, #[trigger] kids[i]) by {
        let c2 = kids[i];
        assert(kids.contains(c2));
        if c2 == c {
            assert(same_key(next.snapshot(c2), new.children[n as int]));
        } else {
            lemma_sibling_kept(now, next, id, c, c2);
            lemma_use_settled(dom, now, id, new, r, n, i);
            if exists|k2: int|
                0 <= k2 < r && pending(dom, id, new, k2, r, n) && #[trigger] dom.node(id).children[k2]
                    == c2 {
                let k2 = choose|k2: int|
                    0 <= k2 < r && pending(dom, id, new, k2, r, n) && #[trigger] dom.node(
                        id,
                    ).children[k2] == c2;
                lemma_pair_waits(dom, id, new, n, k, k2);
            } else {
                let m = choose|m: int|
                    0 <= m < n && #[trigger] same_key(now.snapshot(c2), new.children[m]) && distinct(
                        now.snapshot(c2),
                    );
                assert(same_key(next.snapshot(c2), new.children[m]));
            }
        }
    }
    reveal(p_settled);
}

#[verifier::spinoff_prover]
proof fn lemma_pair_made(dom: DomView, now: DomView, next: DomView, id: Ref, new: SnapshotView, n: nat, k: int)
    requires
        pair_done(dom, now, next, id, new, n, k),
    ensures
        p_made(next, id, new, n + 1),
{
    let r = dom.node(id).children.len();
    let old = dom.snapshot(id);
    let c = dom.node(id).children[k];
    let kids = now.node(id).children;
    lemma_pair_ready(dom, now, id, new, n, k);
    lemma_pair_effects(now, next, id, c);
    assert forall|m: int| 0 <= m < n + 1 implies made(next, id, #[trigger] new.children[m]) by {
        if m == n {
            let i = choose|i: int| 0 <= i < kids.len() && kids[i] == c;
            assert(next.node(id).children[i] == c);
        } else {
            lemma_use_made(now, id, new, n, m);
            let i = choose|i: int|
                0 <= i < kids.len() && same_tree(now.snapshot(#[trigger] kids[i]), new.children[m])
                    && distinct(now.snapshot(kids[i]));
            assert(kids.contains(kids[i]));
            if kids[i] == c {
                assert(same_key(old.children[k], new.children[m]));
                assert(same_key(new.children[m], new.children[n as int]));
                assert(!same_key(new.children[m], new.children[n as int]));
            }
            lemma_sibling_kept(now, next, id, c, kids[i]);
        }
    }
    reveal(p_made);
}

#[verifier::spinoff_prover]
proof fn lemma_pair_keys(dom: DomView, now: DomView, next: DomView, id: Ref, new: SnapshotView, n: nat, k: int)
    requires
        pair_done(dom, now, next, id, new, n, k),
    ensures
        p_keys(next, id),
{
    let c = dom.node(id).children[k];
    let kids = now.node(id).children;
    lemma_pair_ready(dom, now, id, new, n, k);
    lemma_pair_effects(now, next, id, c);
    assert forall|i: int, j: int| 0 <= i < j < kids.len() implies !#[trigger] same_key(
        next.snapshot(kids[i]),
        next.snapshot(kids[j]),
    ) by {
        assert(kids.contains(kids[i]) && kids.contains(kids[j]));
        assert(now.node_wf(id));
        assert(kids[i] != kids[j]);
        lemma_use_keys(now, id, i, j);
        if kids[i] != c {
            lemma_sibling_kept(now, next, id, c, kids[i]);
        }
        if kids[j] != c {
            lemma_sibling_kept(now, next, id, c, kids[j]);
        }
    }
    reveal(p_keys);
}

/// The progress after the changes below the partner of a child of the snapshot were made.
#[verifier::spinoff_prover]
proof fn lemma_step_pair(dom: DomView, now: DomView, next: DomView, id: Ref, new: SnapshotView, n: nat, k: int)
    requires
        pair_done(dom, now, next, id, new, n, k),
    ensures
        progress(dom, next, id, new, dom.node(id).children.len(), n + 1),
{
    lemma_pair_basic(dom, now, next, id, new, n, k);
    lemma_pair_pending(dom, now, next, id, new, n, k);
    lemma_pair_settled(dom, now, next, id, new, n, k);
    lemma_pair_made(dom, now, next, id, new, n, k);
    lemma_pair_keys(dom, now, next, id, new, n, k);
}

/// The progress after the first `n` children of the snapshot were paired or added.
#[verifier::spinoff_prover]
proof fn lemma_pairings(dom: DomView, start: DomView, id: Ref, new: SnapshotView, n: nat)
    requires
        comparable(dom, id, new),
        progress(dom, start, id, new, dom.node(id).children.len(), 0),
        n <= new.children.len(),
    ensures
        applied(start, pairings(dom.snapshot(id), new, n)).1 == pairings(dom.snapshot(id), new, n).len(),
        progress(
            dom,
            applied(start, pairings(dom.snapshot(id), new, n)).0,
            id,
            new,
            dom.node(id).children.len(),
            n,
        ),
    decreases new, 0nat, n,
{
    let old = dom.snapshot(id);
    let r = dom.node(id).children.len();
    lemma_old_children(dom, id);
    if n > 0 {
        let before = pairings(old, new, (n - 1) as nat);
        let now = applied(start, before).0;
        let child = new.children[n - 1];
        lemma_pairings(dom, start, id, new, (n - 1) as nat);
        match find_key(old.children, child, r) {
            Some(k) => {
                let c = dom.node(id).children[k];
                lemma_pair_ready(dom, now, id, new, (n - 1) as nat, k);
                let below = difference(now.snapshot(c), child);
                assert(below == difference(old.children[k], child));
                lemma_difference(now, c, child);
                lemma_applied_concat(start, before, below);
                lemma_step_pair(dom, now, applied(now, below).0, id, new, (n - 1) as nat, k);
            },
            None => {
                lemma_step_add(dom, now, id, new, (n - 1) as nat);
                lemma_add_takes(dom, now, id, new, (n - 1) as nat);
                let changes = pairings(old, new, n);
                assert(changes.drop_last() =~= before);
                assert(changes.last() == ChangeView::Added { parent: id, snapshot: child });
            },
        }
    }
}

/// Completeness of the difference, with what it leaves alone.
#[verifier::spinoff_prover]
proof fn lemma_difference(dom: DomView, id: Ref, new: SnapshotView)
    requires
        comparable(dom, id, new),
    ensures
        applied(dom, difference(dom.snapshot(id), new)).1 == difference(dom.snapshot(id), new).len(),
        applied(dom, difference(dom.snapshot(id), new)).0.wf(),
        applied(dom, difference(dom.snapshot(id), new)).0.root == dom.root,
        applied(dom, difference(dom.snapshot(id), new)).0.live(id),
        same_tree(applied(dom, difference(dom.snapshot(id), new)).0.snapshot(id), new),
        distinct(applied(dom, difference(dom.snapshot(id), new)).0.snapshot(id)),
        left_alone(dom, applied(dom, difference(dom.snapshot(id), new)).0, id),
        dom.slots.len() <= applied(dom, difference(dom.snapshot(id), new)).0.slots.len()
            <= dom.slots.len() + node_count(new),
    decreases new, 1nat, 0nat,
{
    let old = dom.snapshot(id);
    let first = update_part(old, new);
    let second = removals(old, new, old.children.len());
    let third = pairings(old, new, new.children.len());
    lemma_old_children(dom, id);
    lemma_start(dom, id, new);
    let one = applied(dom, first).0;
    lemma_removals(dom, one, id, new, old.children.len());
    let two = applied(one, second).0;
    lemma_pairings(dom, two, id, new, new.children.len());
    let three = applied(two, third).0;
    lemma_applied_concat(dom, first, second);
    lemma_applied_concat(dom, first + second, third);
    lemma_finish(dom, three, id, new);
    assert(left_alone(dom, three, id)) by {
        reveal(left_alone);
        reveal(p_frame);
    }
}

/// Completeness of the difference. Take a sound graph with an instance, and
/// a snapshot of the same name and class, neither with two siblings of the
/// same name and class. Then all the changes between the instance's subtree
/// and the snapshot can be made, they leave the graph sound, and after them
/// the subtree is what the snapshot describes, in names, classes,
/// properties and paths, whatever the identifiers and the order of siblings,
/// again without two siblings of the same name and class.
#[verifier::spinoff_prover]
pub proof fn lemma_diff_completes(dom: DomView, id: Ref, new: SnapshotView)
    requires
        comparable(dom, id, new),
    ensures
        applied(dom, difference(dom.snapshot(id), new)).1 == difference(dom.snapshot(id), new).len(),
        applied(dom, difference(dom.snapshot(id), new)).0.wf(),
        applied(dom, difference(dom.snapshot(id), new)).0.live(id),
        same_tree(applied(dom, difference(dom.snapshot(id), new)).0.snapshot(id), new),
        distinct(applied(dom, difference(dom.snapshot(id), new)).0.snapshot(id)),
{
    lemma_difference(dom, id, new);
}

/// No child of a snapshot of itself is removed.
#[verifier::spinoff_prover]
proof fn lemma_self_removals(tree: SnapshotView, count: nat)
    requires
        count <= tree.children.len(),
    ensures
        removals(tree, tree, count) == Seq::<ChangeView>::empty(),
    decreases count,
{
    if count > 0 {
        lemma_self_removals(tree, (count - 1) as nat);
        lemma_find_key(tree.children, tree.children[count - 1], tree.children.len());
        assert(same_key(tree.children[count - 1], tree.children[count - 1]));
    }
}

/// No change is paired or added between a subtree and its own snapshot.
#[verifier::spinoff_prover]
proof fn lemma_self_pairings(dom: DomView, id: Ref, count: nat)
    requires
        dom.sound(),
        dom.live(id),
        count <= dom.node(id).children.len(),
    ensures
        pairings(dom.snapshot(id), dom.snapshot(id), count) == Seq::<ChangeView>::empty(),
    decreases dom.slots.len() - id.0, count,
{
    let tree = dom.snapshot(id);
    lemma_old_children(dom, id);
    if count > 0 {
        let child = tree.children[count - 1];
        let kid = dom.node(id).children[count - 1];
        lemma_self_pairings(dom, id, (count - 1) as nat);
        lemma_distinct_snapshot(dom, id);
        lemma_find_key(tree.children, child, tree.children.len());
        let found = find_key(tree.children, child, tree.children.len());
        assert(same_key(tree.children[count - 1], child));
        assert(found is Some);
        if found->0 != count - 1 {
            assert(!same_key(tree.children[found->0], tree.children[count - 1]));
        }
        assert(dom.node_wf(id));
        assert(child == dom.snapshot(kid));
        lemma_diff_of_itself(dom, kid);
        assert(pairings(tree, tree, count) =~= Seq::<ChangeView>::empty());
    }
}

/// There is nothing to change between a subtree and its own snapshot: the
/// difference of the two is empty.
#[verifier::spinoff_prover]
pub proof fn lemma_diff_of_itself(dom: DomView, id: Ref)
    requires
        dom.sound(),
        dom.live(id),
    ensures
        difference(dom.snapshot(id), dom.snapshot(id)) == Seq::<ChangeView>::empty(),
        applied(dom, difference(dom.snapshot(id), dom.snapshot(id))) == (dom, 0nat),
    decreases dom.slots.len() - id.0, dom.node(id).children.len() + 1,
{
    let tree = dom.snapshot(id);
    lemma_old_children(dom, id);
    assert(dom.node_distinct(id));
    crate::text::lemma_once_same(tree.paths, tree.paths.len());
    lemma_self_removals(tree, tree.children.len());
    lemma_self_pairings(dom, id, tree.children.len());
    assert(difference(tree, tree) =~= Seq::<ChangeView>::empty());
}

} // verus!
