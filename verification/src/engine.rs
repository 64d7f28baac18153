//! The core: a project with its tree of instances and its queue of changes.

use vstd::prelude::*;
use crate::changes::{ChangeSet, ChangeView};
use crate::diff::{applied, difference};
use crate::dom::DomView;
use crate::project::Project;
use crate::queue::{step, Queue, QueueOp, SubscriberView};
use crate::snapshot::{node_count, Ref, Snapshot};
use crate::sourcemap::{sourcemap, SourcemapNode};
use crate::text::str_eq;
use crate::tree::{root_only, Tree, TreeError};

verus! {

/// A project that is being synchronised.
#[derive(Debug)]
pub struct Core {
    project: Project,
    tree: Tree,
    queue: Queue,
}

/// The queue after a change set of which `done` changes were made was
/// announced: the changes that were made are pushed for every subscriber but
/// the author, and nothing is pushed where none was made.
pub open spec fn announced(
    queue: Map<u64, SubscriberView>,
    changes: Seq<ChangeView>,
    done: nat,
    author: Option<u64>,
) -> Map<u64, SubscriberView> {
    if done == 0 {
        queue
    } else {
        step(queue, QueueOp::Push { message: changes.take(done as int), except: author })
    }
}

/// Whether the subtree at `id` can be brought in line with `new`, or why
/// not: the instance is to be in the tree and of the name and class of
/// `new`, `new` is to describe no two siblings of one name and class, and
/// the identifiers are to suffice for the instances that `new` describes.
pub open spec fn reconcilable(dom: DomView, id: Ref, new: crate::snapshot::SnapshotView) -> Result<
    (),
    TreeError,
> {
    if !dom.live(id) {
        Err(TreeError::UnknownReferent)
    } else if !(dom.node(id).name == new.name && dom.node(id).class == new.class) {
        Err(TreeError::Mismatch)
    } else if !crate::diff::distinct(new) {
        Err(TreeError::DuplicateSibling)
    } else if dom.slots.len() + node_count(new) > usize::MAX {
        Err(TreeError::OutOfIdentifiers)
    } else {
        Ok(())
    }
}

impl Core {
    /// The tree and the queue are well formed.
    pub closed spec fn wf(&self) -> bool {
        self.tree.wf() && self.queue.wf()
    }

    /// The project of the core.
    pub closed spec fn project_view(&self) -> Project {
        self.project
    }

    /// The instance graph of the core.
    pub closed spec fn tree_view(&self) -> DomView {
        self.tree@
    }

    /// The queue of the core.
    pub closed spec fn queue_view(&self) -> Map<u64, SubscriberView> {
        self.queue@
    }

    /// The core of `project`, with the tree that `snapshot` describes and no
    /// subscribers. A snapshot with two siblings of one name and class is
    /// refused, and so is one of more instances than there are identifiers.
    pub fn new(project: Project, snapshot: &Snapshot) -> (made: Result<Core, TreeError>)
        requires
            snapshot.wf(),
        ensures
            match made {
                Ok(core) => crate::diff::distinct(snapshot@) && node_count(snapshot@) <= usize::MAX
                    && core.wf() && core.project_view() == project && core.tree_view() == root_only(
                    snapshot@,
                ).insert_children(Ref(0), snapshot@, snapshot@.children.len()) && core.queue_view()
                    == Map::<u64, SubscriberView>::empty(),
                Err(TreeError::DuplicateSibling) => !crate::diff::distinct(snapshot@),
                Err(TreeError::OutOfIdentifiers) => crate::diff::distinct(snapshot@) && node_count(
                    snapshot@,
                ) > usize::MAX,
                Err(_) => false,
            },
    {
        match Tree::new(snapshot) {
            Ok(tree) => Ok(Core { project, tree, queue: Queue::new() }),
            Err(error) => Err(error),
        }
    }

    /// The name of the project.
    pub fn name(&self) -> (name: String)
        ensures
            name@ == self.project_view().name@,
    {
        self.project.name.clone()
    }

    /// The host that the project is served on, if the project names one.
    pub fn host(&self) -> (host: Option<String>)
        ensures
            match host {
                Some(text) => self.project_view().host matches Some(given) && text@ == given@,
                None => self.project_view().host is None,
            },
    {
        match &self.project.host {
            Some(host) => Some(host.clone()),
            None => None,
        }
    }

    /// The port that the project is served on, if the project names one.
    pub fn port(&self) -> (port: Option<u16>)
        ensures
            port == self.project_view().port,
    {
        self.project.port
    }

    /// The identifier of the project's game, if the project names one.
    pub fn game_id(&self) -> (game_id: Option<u64>)
        ensures
            game_id == self.project_view().game_id,
    {
        self.project.game_id
    }

    /// The identifiers of the project's places, if the project names any.
    pub fn place_ids(&self) -> (place_ids: Option<Vec<u64>>)
        ensures
            match place_ids {
                Some(list) => self.project_view().place_ids matches Some(given) && list@ == given@,
                None => self.project_view().place_ids is None,
            },
    {
        match &self.project.place_ids {
            Some(ids) => {
                let mut list: Vec<u64> = Vec::new();
                let mut i: usize = 0;
                while i < ids.len()
                    invariant
                        i <= ids@.len(),
                        list@ == ids@.take(i as int),
                    decreases ids@.len() - i,
                {
                    list.push(ids[i]);
                    assert(list@ =~= ids@.take(i + 1));
                    i += 1;
                }
                assert(ids@.take(ids@.len() as int) =~= ids@);
                Some(list)
            },
            None => None,
        }
    }

    /// The queue of the core.
    pub fn queue(&self) -> (queue: &Queue)
        ensures
            queue@ == self.queue_view(),
            self.wf() ==> queue.wf(),
    {
        &self.queue
    }

    /// The tree of the core.
    pub fn tree(&self) -> (tree: &Tree)
        ensures
            tree@ == self.tree_view(),
            self.wf() ==> tree.wf(),
    {
        &self.tree
    }

    /// Gives `client` an empty backlog.
    pub fn subscribe(&mut self, client: u64, now: u64)
        requires
            old(self).wf(),
        ensures
            final(self).wf(),
            final(self).project_view() == old(self).project_view(),
            final(self).tree_view() == old(self).tree_view(),
            final(self).queue_view() == step(old(self).queue_view(), QueueOp::Subscribe { client, now }),
    {
        self.queue.subscribe(client, now);
    }

    /// Ends the subscription of `client`, and says whether there was one.
    pub fn unsubscribe(&mut self, client: &u64) -> (existed: bool)
        requires
            old(self).wf(),
        ensures
            final(self).wf(),
            final(self).project_view() == old(self).project_view(),
            final(self).tree_view() == old(self).tree_view(),
            existed == old(self).queue_view().contains_key(*client),
            final(self).queue_view() == step(
                old(self).queue_view(),
                QueueOp::Unsubscribe { client: *client },
            ),
    {
        self.queue.unsubscribe(client)
    }

    /// Takes the backlog of `client`; `None` if it is not subscribed.
    pub fn read(&mut self, client: u64, now: u64) -> (backlog: Option<Vec<ChangeSet>>)
        requires
            old(self).wf(),
        ensures
            final(self).wf(),
            final(self).project_view() == old(self).project_view(),
            final(self).tree_view() == old(self).tree_view(),
            final(self).queue_view() == step(old(self).queue_view(), QueueOp::Drain { client, now }),
            match backlog {
                Some(list) => old(self).queue_view().contains_key(client) && old(self).queue_view()[client].backlog
                    == Seq::new(list@.len(), |i: int| list@[i]@) && forall|i: int|
                    0 <= i < list@.len() ==> (#[trigger] list@[i]).wf(),
                None => !old(self).queue_view().contains_key(client),
            },
    {
        self.queue.drain(client, now)
    }

    /// The snapshot of the whole tree: every instance with its identifier,
    /// siblings in the order of the tree, no two of them of one name and class.
    pub fn snapshot(&self) -> (snapshot: Snapshot)
        requires
            self.wf(),
        ensures
            snapshot.wf(),
            snapshot@ == self.tree_view().snapshot(self.tree_view().root),
            crate::diff::distinct(snapshot@),
    {
        proof {
            self.tree.lemma_wf();
            crate::completeness::lemma_distinct_snapshot(self.tree_view(), self.tree_view().root);
        }
        self.tree.snapshot_of(self.tree.root_ref()).unwrap()
    }

    /// Whether the project is a place: whether the root is a `DataModel`.
    pub fn is_place(&self) -> (place: bool)
        requires
            self.wf(),
        ensures
            place == (self.tree_view().node(self.tree_view().root).class == "DataModel"@),
    {
        str_eq(self.tree.root().class(), "DataModel")
    }

    /// The roots of what is built into a model file: the children of the
    /// root for a place, the root itself for a model.
    pub fn build_roots(&self) -> (roots: Vec<Ref>)
        requires
            self.wf(),
        ensures
            roots@ == if self.tree_view().node(self.tree_view().root).class == "DataModel"@ {
                self.tree_view().node(self.tree_view().root).children
            } else {
                seq![self.tree_view().root]
            },
    {
        let mut roots: Vec<Ref> = Vec::new();
        if self.is_place() {
            let kids = self.tree.place_root_refs();
            let mut i: usize = 0;
            while i < kids.len()
                invariant
                    i <= kids@.len(),
                    roots@ == kids@.take(i as int),
                decreases kids@.len() - i,
            {
                roots.push(kids[i]);
                assert(roots@ =~= kids@.take(i + 1));
                i += 1;
            }
            assert(kids@.take(kids@.len() as int) =~= kids@);
        } else {
            roots.push(self.tree.root_ref());
            assert(roots@ =~= seq![self.tree_view().root]);
        }
        roots
    }

    /// The sourcemap of the tree. `files` holds the paths at which a file
    /// stands; `non_scripts` asks for every instance.
    pub fn sourcemap(&self, non_scripts: bool, files: &Vec<String>) -> (map: Option<SourcemapNode>)
        requires
            self.wf(),
        ensures
            match map {
                Some(found) => Some(found@) == sourcemap(
                    self.tree_view(),
                    self.tree_view().root,
                    non_scripts,
                    files.deep_view(),
                ),
                None => sourcemap(self.tree_view(), self.tree_view().root, non_scripts, files.deep_view())
                    is None,
            },
    {
        proof {
            self.tree.lemma_wf();
        }
        crate::sourcemap::walk(self.tree.inner(), self.tree.root_ref(), non_scripts, files)
    }

    /// Takes a patch from the client `author`: makes its changes in order up
    /// to the first that cannot be made, announces those that were made to
    /// the other subscribers, and returns their number.
    pub fn write(&mut self, patch: &ChangeSet, author: Option<u64>) -> (done: usize)
        requires
            old(self).wf(),
            patch.wf(),
        ensures
            final(self).wf(),
            final(self).project_view() == old(self).project_view(),
            (final(self).tree_view(), done as nat) == applied(old(self).tree_view(), patch@),
            final(self).queue_view() == announced(old(self).queue_view(), patch@, done as nat, author),
    {
        let done = self.tree.apply(patch);
        proof {
            crate::completeness::lemma_applied_bound(old(self).tree_view(), patch@);
        }
        if done > 0 {
            let made = patch.prefix(done);
            self.queue.push(&made, author);
        }
        done
    }

    /// Brings the subtree at `id` in line with `new`, a fresh snapshot of
    /// what the instance was made from: makes all the changes between the
    /// two, announces them to every subscriber, and returns their number.
    /// Afterwards the subtree is what `new` describes. Nothing is changed
    /// where `id` is not in the tree, where `new` has another name or class
    /// than the instance, where `new` describes two siblings of one name
    /// and class, or where the identifiers would not suffice.
    pub fn reconcile(&mut self, id: Ref, new: &Snapshot) -> (done: Result<usize, TreeError>)
        requires
            old(self).wf(),
            new.wf(),
        ensures
            final(self).wf(),
            final(self).project_view() == old(self).project_view(),
            match done {
                Ok(count) => reconcilable(old(self).tree_view(), id, new@) is Ok && count == difference(
                    old(self).tree_view().snapshot(id),
                    new@,
                ).len() && final(self).tree_view() == applied(
                    old(self).tree_view(),
                    difference(old(self).tree_view().snapshot(id), new@),
                ).0 && crate::completeness::same_tree(final(self).tree_view().snapshot(id), new@)
                    && final(self).queue_view() == announced(
                    old(self).queue_view(),
                    difference(old(self).tree_view().snapshot(id), new@),
                    count as nat,
                    None,
                ),
                Err(error) => reconcilable(old(self).tree_view(), id, new@) == Err::<(), TreeError>(error)
                    && final(self).tree_view() == old(self).tree_view() && final(self).queue_view()
                    == old(self).queue_view(),
            },
    {
        proof {
            self.tree.lemma_wf();
            new.lemma_view();
        }
        let instance = match self.tree.get_instance(id) {
            Some(instance) => instance,
            None => {
                return Err(TreeError::UnknownReferent);
            },
        };
        if !str_eq(instance.name(), new.name.as_str()) || !str_eq(instance.class(), new.class.as_str()) {
            return Err(TreeError::Mismatch);
        }
        if !crate::diff::is_distinct(new) {
            return Err(TreeError::DuplicateSibling);
        }
        let room = match new.count() {
            Some(n) => n <= usize::MAX - self.tree.inner().allocated(),
            None => false,
        };
        if !room {
            return Err(TreeError::OutOfIdentifiers);
        }
        proof {
            crate::completeness::lemma_distinct_snapshot(self.tree_view(), id);
            crate::completeness::lemma_diff_completes(self.tree_view(), id, new@);
        }
        let changes = self.tree.diff(id, new).unwrap();
        Ok(self.write(&changes, None))
    }

    /// The plan for a path that was created or modified.
    pub fn plan(&self, context: &crate::meta::Context, path: &str) -> (plan: crate::processor::Plan)
        requires
            self.wf(),
        ensures
            plan@ == crate::processor::planned(self.tree_view(), context.ignore_globs.deep_view(), path@),
    {
        crate::processor::plan(&self.tree, context, path)
    }

    /// Takes note that `path` was removed: removes the instances that were
    /// made from it or from paths below it and from nothing else, announces
    /// the removals to every subscriber, and returns their number.
    pub fn forget(&mut self, path: &str) -> (done: usize)
        requires
            old(self).wf(),
        ensures
            final(self).wf(),
            final(self).project_view() == old(self).project_view(),
            final(self).tree_view() == crate::processor::forgotten(
                old(self).tree_view(),
                path@,
                old(self).tree_view().slots.len(),
            ).0,
            done == crate::processor::forgotten(
                old(self).tree_view(),
                path@,
                old(self).tree_view().slots.len(),
            ).1.len(),
            final(self).queue_view() == announced(
                old(self).queue_view(),
                crate::processor::forgotten(
                    old(self).tree_view(),
                    path@,
                    old(self).tree_view().slots.len(),
                ).1,
                done as nat,
                None,
            ),
    {
        let changes = self.tree.forget(path);
        let done = changes.len();
        if done > 0 {
            assert(changes@.take(done as int) =~= changes@);
            self.queue.push(&changes, None);
        }
        done
    }

    /// Takes note of an event of the file system. A removal is dealt with
    /// at once, as by `forget`, and the plan says how many removals were
    /// made; for a creation or a modification the plan says what is to be
    /// read anew, and nothing changes yet.
    pub fn on_event(&mut self, context: &crate::meta::Context, event: &crate::vfs::FsEvent) -> (plan:
        crate::processor::Plan)
        requires
            old(self).wf(),
        ensures
            final(self).wf(),
            final(self).project_view() == old(self).project_view(),
            match event.kind {
                crate::vfs::FsEventKind::Removed => plan@ == (crate::processor::PlanView::Done {
                    changes: crate::processor::forgotten(
                        old(self).tree_view(),
                        event.path@,
                        old(self).tree_view().slots.len(),
                    ).1.len() as usize,
                }) && final(self).tree_view()
                    == crate::processor::forgotten(
                    old(self).tree_view(),
                    event.path@,
                    old(self).tree_view().slots.len(),
                ).0 && final(self).queue_view() == announced(
                    old(self).queue_view(),
                    crate::processor::forgotten(
                        old(self).tree_view(),
                        event.path@,
                        old(self).tree_view().slots.len(),
                    ).1,
                    crate::processor::forgotten(
                        old(self).tree_view(),
                        event.path@,
                        old(self).tree_view().slots.len(),
                    ).1.len(),
                    None,
                ),
                _ => plan@ == crate::processor::planned(
                    old(self).tree_view(),
                    context.ignore_globs.deep_view(),
                    event.path@,
                ) && final(self).tree_view() == old(self).tree_view() && final(self).queue_view() == old(self).queue_view(),
            },
    {
        match event.kind {
            crate::vfs::FsEventKind::Removed => {
                let changes = self.forget(event.path.as_str());
                crate::processor::Plan::Done { changes }
            },
            _ => self.plan(context, event.path.as_str()),
        }
    }
}

} // verus!
