//! What the events of the file system ask for: which instance is to be
//! read anew, and which instances go with a path that was removed.

use vstd::prelude::*;
use crate::changes::{Change, ChangeSet, ChangeView};
use crate::dom::InstanceView;
use crate::middleware::luau::{write_luau, written_source};
use crate::middleware::{classify, kind_of, Middleware};
use crate::sourcemap::script_class;
use crate::util::{file_name, is_script, path_file_name};
use crate::value::{Properties, VariantView};
use crate::diff::{applied, apply_one};
use crate::dom::{lemma_remove, Dom, DomView};
use crate::glob::any_matches;
use crate::meta::Context;
use crate::snapshot::Ref;
use crate::text::byte_length;
use crate::tree::{refs_at, Tree};
use crate::util::{is_under, parent_of, path_parent, path_under};

verus! {

/// Whether `id` is the earliest of the instances that were made from `path`.
pub open spec fn is_first(dom: DomView, path: Seq<char>, id: Ref) -> bool {
    refs_at(dom, path).contains(id) && forall|other: Ref|
        refs_at(dom, path).contains(other) ==> id.0 <= other.0
}

/// The earliest of the instances that were made from `path`, if there is one.
pub open spec fn first_at(dom: DomView, path: Seq<char>) -> Option<Ref> {
    if exists|id: Ref| is_first(dom, path, id) {
        Some(choose|id: Ref| is_first(dom, path, id))
    } else {
        None
    }
}

/// The anchor of a path: the path itself or the nearest path above it, up
/// to `depth` steps above, from which an instance was made, with the
/// earliest such instance.
pub open spec fn anchor_of(dom: DomView, path: Seq<char>, depth: nat) -> Option<(Seq<char>, Ref)>
    decreases depth,
{
    match first_at(dom, path) {
        Some(id) => Some((path, id)),
        None => if depth == 0 {
            None
        } else {
            match path_parent(path) {
                Some(above) => anchor_of(dom, above, (depth - 1) as nat),
                None => None,
            }
        },
    }
}

/// What is to be done about a path that was created or modified.
#[derive(Debug)]
pub enum Plan {
    /// Nothing: the path is left out, or no instance was made from it or
    /// from a path above it.
    Nothing,
    /// What is at `path` is to be read anew, and the instance `id` brought
    /// in line with it.
    Recompute { path: String, id: Ref },
    /// The event is dealt with: so many changes were made and announced.
    Done { changes: usize },
}

/// The mathematical value of a [`Plan`].
pub enum PlanView {
    Nothing,
    Recompute { path: Seq<char>, id: Ref },
    Done { changes: usize },
}

impl View for Plan {
    type V = PlanView;

    open spec fn view(&self) -> PlanView {
        match self {
            Plan::Nothing => PlanView::Nothing,
            Plan::Recompute { path, id } => PlanView::Recompute { path: path@, id: *id },
            Plan::Done { changes } => PlanView::Done { changes: *changes },
        }
    }
}

/// The plan for a path that was created or modified: nothing for a path
/// that a pattern leaves out; else to read the anchor of the path anew.
pub open spec fn planned(dom: DomView, globs: Seq<Seq<char>>, path: Seq<char>) -> PlanView {
    if any_matches(globs, path) {
        PlanView::Nothing
    } else {
        match anchor_of(dom, path, vstd::utf8::encode_utf8(path).len()) {
            Some((anchor, id)) => PlanView::Recompute { path: anchor, id },
            None => PlanView::Nothing,
        }
    }
}

/// The earliest of the instances that were made from `path`.
fn first_instance(tree: &Tree, path: &str) -> (first: Option<Ref>)
    requires
        tree.wf(),
    ensures
        first == first_at(tree@, path@),
{
    let ids = tree.get_ids(path);
    if ids.len() == 0 {
        proof {
            assert forall|id: Ref| !is_first(tree@, path@, id) by {
                if refs_at(tree@, path@).contains(id) {
                    assert(ids@.to_set().contains(id));
                    assert(ids@.contains(id));
                }
            }
        }
        None
    } else {
        let first = ids[0];
        proof {
            assert(ids@.contains(ids@[0]));
            assert(ids@.to_set().contains(first));
            assert forall|other: Ref| refs_at(tree@, path@).contains(other) implies first.0
                <= other.0 by {
                assert(ids@.to_set().contains(other));
                let k = choose|k: int| 0 <= k < ids@.len() && ids@[k] == other;
                if k > 0 {
                    assert(ids@[0].0 < ids@[k].0);
                }
            }
            assert(is_first(tree@, path@, first));
            let chosen = choose|id: Ref| is_first(tree@, path@, id);
            assert(chosen.0 == first.0);
        }
        Some(first)
    }
}

/// The plan for a path that was created or modified.
pub fn plan(tree: &Tree, context: &Context, path: &str) -> (plan: Plan)
    requires
        tree.wf(),
    ensures
        plan@ == planned(tree@, context.ignore_globs.deep_view(), path@),
{
    if context.is_ignored(path) {
        return Plan::Nothing;
    }
    let mut current: String = path.to_owned();
    let mut depth: usize = byte_length(path);
    loop
        invariant
            tree.wf(),
            !any_matches(context.ignore_globs.deep_view(), path@),
            anchor_of(tree@, path@, vstd::utf8::encode_utf8(path@).len()) == anchor_of(
                tree@,
                current@,
                depth as nat,
            ),
        decreases depth,
    {
        match first_instance(tree, current.as_str()) {
            Some(id) => {
                return Plan::Recompute { path: current, id };
            },
            None => {},
        }
        if depth == 0 {
            return Plan::Nothing;
        }
        match parent_of(current.as_str()) {
            Some(above) => {
                let next = above.to_owned();
                current = next;
                depth -= 1;
            },
            None => {
                return Plan::Nothing;
            },
        }
    }
}

/// Whether the instance `id` goes with `path`: it is not the root, it was
/// made from paths, and all of them are `path` or below it.
pub open spec fn stale(dom: DomView, id: Ref, path: Seq<char>) -> bool {
    &&& dom.live(id)
    &&& id != dom.root
    &&& dom.node(id).paths.len() > 0
    &&& forall|k: int|
        0 <= k < dom.node(id).paths.len() ==> path_under(#[trigger] dom.node(id).paths[k], path)
}

/// The graph and the records after the first `count` identifiers were gone
/// through in order, and each instance that went with `path` and was still
/// there was removed.
pub open spec fn forgotten(dom: DomView, path: Seq<char>, count: nat) -> (DomView, Seq<ChangeView>)
    decreases count,
{
    if count == 0 {
        (dom, Seq::empty())
    } else {
        let (before, records) = forgotten(dom, path, (count - 1) as nat);
        let id = Ref((count - 1) as usize);
        if stale(before, id, path) {
            (before.remove(id), records.push(ChangeView::Removed { id }))
        } else {
            (before, records)
        }
    }
}

/// Whether a record removes an instance that goes with `path`.
pub open spec fn removes_stale(dom: DomView, path: Seq<char>, change: ChangeView) -> bool {
    match change {
        ChangeView::Removed { id } => stale(dom, id, path),
        _ => false,
    }
}

/// What removing the instances that go with a path comes to. The records
/// are those of a change set that can be made in full on the graph as it
/// was, and that leaves the graph as it is; each removes an instance that
/// went with the path; and afterwards no instance goes with the path.
pub proof fn lemma_forgotten(dom: DomView, path: Seq<char>, count: nat)
    requires
        dom.wf(),
        count <= dom.slots.len(),
    ensures
        forgotten(dom, path, count).0.wf(),
        forgotten(dom, path, count).0.root == dom.root,
        forgotten(dom, path, count).0.slots.len() == dom.slots.len(),
        applied(dom, forgotten(dom, path, count).1) == (
            forgotten(dom, path, count).0,
            forgotten(dom, path, count).1.len(),
        ),
        forall|id: Ref| #[trigger]
            forgotten(dom, path, count).0.live(id) ==> dom.live(id) && forgotten(dom, path, count).0.node(
                id,
            ).paths == dom.node(id).paths,
        forall|id: Ref| id.0 < count ==> !#[trigger] stale(forgotten(dom, path, count).0, id, path),
        forall|k: int|
            0 <= k < forgotten(dom, path, count).1.len() ==> removes_stale(
                dom,
                path,
                #[trigger] forgotten(dom, path, count).1[k],
            ),
    decreases count,
{
    if count > 0 {
        let (before, records) = forgotten(dom, path, (count - 1) as nat);
        let (after, all) = forgotten(dom, path, count);
        let id = Ref((count - 1) as usize);
        lemma_forgotten(dom, path, (count - 1) as nat);
        if stale(before, id, path) {
            lemma_remove(before, id);
            assert(before.node_wf(id));
            assert(all.drop_last() =~= records);
            assert(apply_one(before, all.last()) == Some(after));
            assert forall|other: Ref| #[trigger] after.live(other) implies dom.live(other)
                && after.node(other).paths == dom.node(other).paths by {
                assert(before.live(other));
                if before.node(id).parent != Some(other) {
                    assert(after.node(other) == before.node(other));
                }
            }
            assert forall|other: Ref| other.0 < count implies !#[trigger] stale(after, other, path) by {
                if other.0 < count - 1 {
                    assert(!stale(before, other, path));
                    if after.live(other) {
                        assert(before.live(other));
                    }
                } else {
                    assert(other == id);
                    assert(before.in_subtree(id, id));
                }
            }
            assert forall|k: int| 0 <= k < all.len() implies removes_stale(dom, path, #[trigger] all[k]) by {
                if k < records.len() {
                    assert(all[k] == records[k]);
                } else {
                    assert(before.live(id));
                }
            }
        } else {
            assert forall|other: Ref| other.0 < count implies !#[trigger] stale(after, other, path) by {
                if other.0 == count - 1 {
                    assert(other == id);
                }
            }
        }
    }
}

/// Whether the instance `id` goes with `path`.
fn is_stale(dom: &Dom, id: Ref, path: &str) -> (gone: bool)
    requires
        dom.wf(),
    ensures
        gone == stale(dom@, id, path@),
{
    match dom.get(id) {
        Some(instance) => {
            let paths = instance.paths();
            if id.0 == dom.root_ref().0 || paths.len() == 0 {
                return false;
            }
            let mut k: usize = 0;
            while k < paths.len()
                invariant
                    k <= paths@.len(),
                    paths.deep_view() == dom@.node(id).paths,
                    forall|m: int| 0 <= m < k ==> path_under(#[trigger] dom@.node(id).paths[m], path@),
                decreases paths@.len() - k,
            {
                assert(paths.deep_view()[k as int] == paths@[k as int]@);
                if !is_under(paths[k].as_str(), path) {
                    return false;
                }
                k += 1;
            }
            true
        },
        None => false,
    }
}

/// Removes every instance that goes with `path`, and returns the records of
/// the removals, by rising identifier.
pub fn forget(dom: &mut Dom, path: &str) -> (changes: ChangeSet)
    requires
        old(dom).wf(),
    ensures
        final(dom).wf(),
        changes.wf(),
        (final(dom)@, changes@) == forgotten(old(dom)@, path@, old(dom)@.slots.len()),
{
    let ghost start = dom@;
    proof {
        dom.lemma_wf();
    }
    let total = dom.allocated();
    let mut changes = ChangeSet::new();
    let mut i: usize = 0;
    while i < total
        invariant
            dom.wf(),
            changes.wf(),
            start == old(dom)@,
            start.wf(),
            total == start.slots.len(),
            i <= total,
            (dom@, changes@) == forgotten(start, path@, i as nat),
        decreases total - i,
    {
        proof {
            lemma_forgotten(start, path@, i as nat);
        }
        if is_stale(dom, Ref(i), path) {
            dom.remove(Ref(i));
            changes.push(Change::Removed { id: Ref(i) });
        }
        i += 1;
    }
    changes
}

/// The kind of the file at a path, by its name.
pub open spec fn path_kind(path: Seq<char>) -> Option<Middleware> {
    match path_file_name(path) {
        Some(name) => kind_of(name),
        None => None,
    }
}

/// Whether a kind is one of the three kinds of script file.
pub open spec fn script_kind(kind: Option<Middleware>) -> bool {
    kind == Some(Middleware::ServerScript) || kind == Some(Middleware::ClientScript) || kind == Some(
        Middleware::ModuleScript,
    )
}

/// Whether the file at a path is what is looked for: a script file, or a data file.
pub open spec fn wanted(path: Seq<char>, script: bool) -> bool {
    if script {
        script_kind(path_kind(path))
    } else {
        path_kind(path) == Some(Middleware::Data)
    }
}

/// The position of the first of the first `count` paths at which a script
/// file, or a data file, stands.
pub open spec fn path_of_kind(paths: Seq<Seq<char>>, script: bool, count: nat) -> Option<int>
    decreases count,
{
    if count == 0 || count > paths.len() {
        None
    } else {
        match path_of_kind(paths, script, (count - 1) as nat) {
            Some(i) => Some(i),
            None => if wanted(paths[count - 1], script) {
                Some(count - 1)
            } else {
                None
            },
        }
    }
}

/// Once the first path of a kind is found, it stays the first.
proof fn lemma_path_of_kind(paths: Seq<Seq<char>>, script: bool, at: int, count: nat)
    requires
        0 <= at < count <= paths.len(),
        path_of_kind(paths, script, at as nat) is None,
        wanted(paths[at], script),
    ensures
        path_of_kind(paths, script, count) == Some(at),
    decreases count,
{
    if count > at + 1 {
        lemma_path_of_kind(paths, script, at, (count - 1) as nat);
    }
}

/// The mathematical value of a [`WriteBack`].
pub struct WriteBackView {
    pub script: Option<(Seq<char>, Seq<char>)>,
    pub data: Option<(Seq<char>, Map<Seq<char>, VariantView>)>,
}

/// What is to be written to a script file.
#[derive(Debug)]
pub struct ScriptWrite {
    pub path: String,
    pub source: String,
}

/// What is to be written to a data file.
#[derive(Debug)]
pub struct DataWrite {
    pub path: String,
    pub properties: Properties,
}

/// What is to be written to disk for an instance that changed.
#[derive(Debug)]
pub struct WriteBack {
    pub script: Option<ScriptWrite>,
    pub data: Option<DataWrite>,
}

impl View for WriteBack {
    type V = WriteBackView;

    open spec fn view(&self) -> WriteBackView {
        WriteBackView {
            script: match self.script {
                Some(write) => Some((write.path@, write.source@)),
                None => None,
            },
            data: match self.data {
                Some(write) => Some((write.path@, write.properties@)),
                None => None,
            },
        }
    }
}

/// What is written back for an instance. A script that was made from a
/// script file gets its source, where that is a string, written to the first
/// such file, and is left with its other properties. What the instance is
/// left with goes to the first data file that it was made from, if there is
/// one.
pub open spec fn written_back(node: InstanceView) -> WriteBackView {
    let script_at = path_of_kind(node.paths, true, node.paths.len());
    let data_at = path_of_kind(node.paths, false, node.paths.len());
    let scripted = script_class(node.class) && script_at is Some;
    let rest = if scripted {
        node.properties.remove("Source"@)
    } else {
        node.properties
    };
    WriteBackView {
        script: if scripted && written_source(node.properties) is Some {
            Some((node.paths[script_at->0], written_source(node.properties)->0))
        } else {
            None
        },
        data: match data_at {
            Some(i) => Some((node.paths[i], rest)),
            None => None,
        },
    }
}

/// The first of the paths at which a script file, or a data file, stands.
fn find_path(paths: &Vec<String>, script: bool) -> (found: Option<usize>)
    ensures
        match found {
            Some(i) => path_of_kind(paths.deep_view(), script, paths.deep_view().len()) == Some(i as int)
                && i < paths@.len(),
            None => path_of_kind(paths.deep_view(), script, paths.deep_view().len()) is None,
        },
{
    let ghost list = paths.deep_view();
    let mut i: usize = 0;
    while i < paths.len()
        invariant
            i <= paths@.len(),
            list == paths.deep_view(),
            list.len() == paths@.len(),
            path_of_kind(list, script, i as nat) is None,
        decreases paths@.len() - i,
    {
        assert(list[i as int] == paths@[i as int]@);
        let kind = match file_name(paths[i].as_str()) {
            Some(name) => classify(name),
            None => None,
        };
        let fits = if script {
            match kind {
                Some(Middleware::ServerScript) | Some(Middleware::ClientScript) | Some(
                    Middleware::ModuleScript,
                ) => true,
                _ => false,
            }
        } else {
            match kind {
                Some(Middleware::Data) => true,
                _ => false,
            }
        };
        if fits {
            proof {
                lemma_path_of_kind(list, script, i as int, list.len());
            }
            return Some(i);
        }
        i += 1;
    }
    None
}

/// What is to be written to disk for the instance `id`, if it is in the tree.
pub fn write_back(tree: &Tree, id: Ref) -> (plan: Option<WriteBack>)
    requires
        tree.wf(),
    ensures
        match plan {
            Some(write) => tree@.live(id) && write@ == written_back(tree@.node(id)) && (
            write.data matches Some(data) ==> data.properties.wf()),
            None => !tree@.live(id),
        },
{
    let instance = match tree.get_instance(id) {
        Some(instance) => instance,
        None => {
            return None;
        },
    };
    let paths = instance.paths();
    let script_at = find_path(paths, true);
    let data_at = find_path(paths, false);
    let properties = instance.properties().duplicate();
    let (script, rest) = match script_at {
        Some(i) => {
            if is_script(instance.class()) {
                assert(paths.deep_view()[i as int] == paths@[i as int]@);
                let (source, rest) = write_luau(properties);
                match source {
                    Some(text) => (Some(ScriptWrite { path: paths[i].clone(), source: text }), rest),
                    None => (None, rest),
                }
            } else {
                (None, properties)
            }
        },
        None => (None, properties),
    };
    let data = match data_at {
        Some(i) => {
            assert(paths.deep_view()[i as int] == paths@[i as int]@);
            Some(DataWrite { path: paths[i].clone(), properties: rest })
        },
        None => None,
    };
    Some(WriteBack { script, data })
}

} // verus!
