//! The sourcemap: the names and classes of the instances that lead to
//! scripts, with the files that each was made from.

use vstd::prelude::*;
use crate::dom::{Dom, DomView};
use crate::snapshot::Ref;
use crate::text::{byte_length, contains_string};
use crate::util::is_script;

verus! {

/// The mathematical value of a [`SourcemapNode`].
pub struct SourcemapNodeView {
    pub name: Seq<char>,
    pub class_name: Seq<char>,
    pub file_paths: Seq<Seq<char>>,
    pub children: Seq<SourcemapNodeView>,
}

/// One instance in the sourcemap.
#[derive(Debug)]
pub struct SourcemapNode {
    pub name: String,
    pub class_name: String,
    pub file_paths: Vec<String>,
    pub children: Vec<SourcemapNode>,
}

/// The values of a list of sourcemap nodes, in order.
pub open spec fn node_views(list: Seq<SourcemapNode>) -> Seq<SourcemapNodeView> {
    Seq::new(list.len(), |i: int| list[i]@)
}

impl View for SourcemapNode {
    type V = SourcemapNodeView;

    open spec fn view(&self) -> SourcemapNodeView {
        self.model()
    }
}

impl SourcemapNode {
    /// The value of the node: its own fields, and the values of its children in order.
    pub open spec fn model(&self) -> SourcemapNodeView
        decreases self,
    {
        SourcemapNodeView {
            name: self.name@,
            class_name: self.class_name@,
            file_paths: self.file_paths.deep_view(),
            children: Seq::new(
                self.children@.len(),
                |i: int|
                    if 0 <= i < self.children@.len() {
                        self.children[i].model()
                    } else {
                        arbitrary()
                    },
            ),
        }
    }

    /// What the view of a node holds, field by field.
    pub proof fn lemma_view(&self)
        ensures
            self@.name == self.name@,
            self@.class_name == self.class_name@,
            self@.file_paths == self.file_paths.deep_view(),
            self@.children == node_views(self.children@),
    {
        assert(self@.children =~= node_views(self.children@));
    }
}

/// The length of a path in bytes.
pub open spec fn byte_len(path: Seq<char>) -> nat {
    vstd::utf8::encode_utf8(path).len()
}

/// Whether `class` is one of the three script classes.
pub open spec fn script_class(class: Seq<char>) -> bool {
    class == "Script"@ || class == "LocalScript"@ || class == "ModuleScript"@
}

/// Those of the first `count` paths that are among `files`, in order.
pub open spec fn file_paths(paths: Seq<Seq<char>>, files: Seq<Seq<char>>, count: nat) -> Seq<Seq<char>>
    decreases count,
{
    if count == 0 || count > paths.len() {
        Seq::empty()
    } else if files.contains(paths[count - 1]) {
        file_paths(paths, files, (count - 1) as nat).push(paths[count - 1])
    } else {
        file_paths(paths, files, (count - 1) as nat)
    }
}

/// Where `path` goes among the first `count` of `sorted`: behind the last
/// path that is at least as long.
pub open spec fn place_of(sorted: Seq<Seq<char>>, path: Seq<char>, count: nat) -> int
    decreases count,
{
    if count == 0 || count > sorted.len() {
        0
    } else if byte_len(sorted[count - 1]) >= byte_len(path) {
        count as int
    } else {
        place_of(sorted, path, (count - 1) as nat)
    }
}

/// The first `count` paths by falling length, paths of one length in the
/// order in which they stood.
pub open spec fn by_length(paths: Seq<Seq<char>>, count: nat) -> Seq<Seq<char>>
    decreases count,
{
    if count == 0 || count > paths.len() {
        Seq::empty()
    } else {
        let before = by_length(paths, (count - 1) as nat);
        before.insert(place_of(before, paths[count - 1], before.len()), paths[count - 1])
    }
}

/// Whether the paths stand by falling length.
pub open spec fn falling(paths: Seq<Seq<char>>) -> bool {
    forall|i: int, j: int| 0 <= i < j < paths.len() ==> byte_len(#[trigger] paths[i]) >= byte_len(
        #[trigger] paths[j],
    )
}

/// Where a path is placed, the paths before it are at least as long and
/// those behind it are shorter.
proof fn lemma_place_of(sorted: Seq<Seq<char>>, path: Seq<char>, count: nat)
    requires
        count <= sorted.len(),
        falling(sorted),
    ensures
        0 <= place_of(sorted, path, count) <= count,
        forall|i: int| 0 <= i < place_of(sorted, path, count) ==> byte_len(#[trigger] sorted[i]) >= byte_len(path),
        forall|i: int|
            place_of(sorted, path, count) <= i < count ==> byte_len(#[trigger] sorted[i]) < byte_len(path),
    decreases count,
{
    if count > 0 && byte_len(sorted[count - 1]) < byte_len(path) {
        lemma_place_of(sorted, path, (count - 1) as nat);
    }
}

/// The sorted paths stand by falling length, and are as many as were given.
pub proof fn lemma_by_length(paths: Seq<Seq<char>>, count: nat)
    requires
        count <= paths.len(),
    ensures
        falling(by_length(paths, count)),
        by_length(paths, count).len() == count,
    decreases count,
{
    if count > 0 {
        let before = by_length(paths, (count - 1) as nat);
        let path = paths[count - 1];
        lemma_by_length(paths, (count - 1) as nat);
        lemma_place_of(before, path, before.len());
        let at = place_of(before, path, before.len());
        let after = before.insert(at, path);
        assert forall|i: int, j: int| 0 <= i < j < after.len() implies byte_len(#[trigger] after[i])
            >= byte_len(#[trigger] after[j]) by {
            let i0 = if i < at { i } else { i - 1 };
            let j0 = if j < at { j } else { j - 1 };
            if i != at {
                assert(after[i] == before[i0]);
            }
            if j != at {
                assert(after[j] == before[j0]);
            }
        }
    }
}

/// What is kept of the first paths is what of them is among `files`, and
/// none of it twice where none of the paths occurs twice.
pub proof fn lemma_file_paths(paths: Seq<Seq<char>>, files: Seq<Seq<char>>, count: nat)
    requires
        count <= paths.len(),
    ensures
        forall|path: Seq<char>|
            #[trigger] file_paths(paths, files, count).contains(path) <==> (paths.take(
                count as int,
            ).contains(path) && files.contains(path)),
        paths.no_duplicates() ==> file_paths(paths, files, count).no_duplicates(),
    decreases count,
{
    let after = file_paths(paths, files, count);
    if count > 0 {
        let before = file_paths(paths, files, (count - 1) as nat);
        let last = paths[count - 1];
        lemma_file_paths(paths, files, (count - 1) as nat);
        assert forall|path: Seq<char>| #[trigger] after.contains(path) <==> (paths.take(
            count as int,
        ).contains(path) && files.contains(path)) by {
            crate::text::lemma_take_has(paths, count - 1, path);
            assert(before.contains(path) <==> (paths.take(count - 1).contains(path) && files.contains(
                path,
            )));
            if files.contains(last) {
                if before.contains(path) {
                    let j = choose|j: int| 0 <= j < before.len() && before[j] == path;
                    assert(after[j] == path);
                }
                if path == last {
                    assert(after[before.len() as int] == path);
                }
                if after.contains(path) {
                    let j = choose|j: int| 0 <= j < after.len() && after[j] == path;
                    if j < before.len() {
                        assert(before[j] == path);
                    }
                }
            }
        }
        if paths.no_duplicates() && files.contains(last) {
            crate::text::lemma_take_fresh(paths, count - 1);
            assert(!before.contains(last));
            assert forall|a: int, b: int| 0 <= a < b < after.len() implies after[a] != after[b] by {
                if b == before.len() {
                    assert(before[a] == after[a]);
                    assert(before.contains(after[a]));
                } else {
                    assert(before[a] == after[a] && before[b] == after[b]);
                }
            }
        }
    } else {
        assert(paths.take(0) =~= Seq::<Seq<char>>::empty());
    }
}

/// Sorting by length keeps the paths: each that was there is there, and none
/// twice where none was there twice.
pub proof fn lemma_by_length_keeps(paths: Seq<Seq<char>>, count: nat)
    requires
        count <= paths.len(),
    ensures
        forall|path: Seq<char>|
            #[trigger] by_length(paths, count).contains(path) <==> paths.take(count as int).contains(path),
        paths.no_duplicates() ==> by_length(paths, count).no_duplicates(),
    decreases count,
{
    if count > 0 {
        let before = by_length(paths, (count - 1) as nat);
        let last = paths[count - 1];
        let at = place_of(before, last, before.len());
        let after = before.insert(at, last);
        lemma_by_length_keeps(paths, (count - 1) as nat);
        lemma_by_length(paths, (count - 1) as nat);
        lemma_place_of(before, last, before.len());
        assert(after == by_length(paths, count));
        assert forall|path: Seq<char>| #[trigger] after.contains(path) <==> paths.take(
            count as int,
        ).contains(path) by {
            crate::text::lemma_take_has(paths, count - 1, path);
            assert(before.contains(path) <==> paths.take(count - 1).contains(path));
            if before.contains(path) {
                let j = choose|j: int| 0 <= j < before.len() && before[j] == path;
                let j2 = if j < at { j } else { j + 1 };
                assert(after[j2] == path);
            }
            if path == last {
                assert(after[at] == path);
            }
            if after.contains(path) {
                let j = choose|j: int| 0 <= j < after.len() && after[j] == path;
                if j != at {
                    let j0 = if j < at { j } else { j - 1 };
                    assert(before[j0] == path);
                }
            }
        }
        if paths.no_duplicates() {
            crate::text::lemma_take_fresh(paths, count - 1);
            assert(!before.contains(last));
            assert forall|a: int, b: int| 0 <= a < b < after.len() implies after[a] != after[b] by {
                let a0 = if a < at { a } else { a - 1 };
                let b0 = if b < at { b } else { b - 1 };
                if a == at {
                    assert(after[b] == before[b0]);
                    assert(before.contains(before[b0]));
                } else if b == at {
                    assert(after[a] == before[a0]);
                    assert(before.contains(before[a0]));
                } else {
                    assert(after[a] == before[a0] && after[b] == before[b0]);
                }
            }
        }
    } else {
        assert(paths.take(0) =~= Seq::<Seq<char>>::empty());
    }
}

/// The file paths of a node of the sourcemap. In a sound graph, the node of
/// an instance holds exactly those of the instance's paths that are among
/// `files`, each once.
pub proof fn lemma_sourcemap_paths(dom: DomView, id: Ref, non_scripts: bool, files: Seq<Seq<char>>)
    requires
        dom.sound(),
        dom.live(id),
        sourcemap(dom, id, non_scripts, files) is Some,
    ensures
        sourcemap(dom, id, non_scripts, files)->0.file_paths.no_duplicates(),
        forall|path: Seq<char>|
            sourcemap(dom, id, non_scripts, files)->0.file_paths.contains(path) <==> (dom.node(
                id,
            ).paths.contains(path) && files.contains(path)),
{
    let paths = dom.node(id).paths;
    let kept = file_paths(paths, files, paths.len());
    assert(dom.node_distinct(id));
    lemma_file_paths(paths, files, paths.len());
    lemma_by_length_keeps(kept, kept.len());
    assert(paths.take(paths.len() as int) =~= paths);
    assert(kept.take(kept.len() as int) =~= kept);
    let sorted = by_length(kept, kept.len());
    assert(sourcemap(dom, id, non_scripts, files)->0.file_paths == sorted);
    assert forall|path: Seq<char>| sorted.contains(path) <==> (paths.contains(path) && files.contains(
        path,
    )) by {
        assert(sorted.contains(path) <==> kept.take(kept.len() as int).contains(path));
        assert(kept.contains(path) <==> (paths.take(paths.len() as int).contains(path) && files.contains(
            path,
        )));
    }
}

/// The sourcemap of the subtree at `id`: nothing where the instance is
/// neither a script nor above one and only scripts are asked for; else its
/// name and class, those of its paths that are among `files`, by falling
/// length, and the sourcemaps of its children, in order.
pub open spec fn sourcemap(dom: DomView, id: Ref, non_scripts: bool, files: Seq<Seq<char>>) -> Option<
    SourcemapNodeView,
>
    decreases dom.slots.len() - id.0, dom.node(id).children.len() + 1,
{
    let node = dom.node(id);
    let children = sourcemap_children(dom, id, non_scripts, files, node.children.len());
    if children.len() == 0 && !non_scripts && !script_class(node.class) {
        None
    } else {
        Some(
            SourcemapNodeView {
                name: node.name,
                class_name: node.class,
                file_paths: by_length(
                    file_paths(node.paths, files, node.paths.len()),
                    file_paths(node.paths, files, node.paths.len()).len(),
                ),
                children,
            },
        )
    }
}

/// The sourcemaps of those of the first `count` children of `id` that have one, in order.
pub open spec fn sourcemap_children(
    dom: DomView,
    id: Ref,
    non_scripts: bool,
    files: Seq<Seq<char>>,
    count: nat,
) -> Seq<SourcemapNodeView>
    decreases dom.slots.len() - id.0, count,
{
    let node = dom.node(id);
    if count == 0 || count > node.children.len() {
        Seq::empty()
    } else {
        let before = sourcemap_children(dom, id, non_scripts, files, (count - 1) as nat);
        let child = node.children[count - 1];
        if id.0 < child.0 < dom.slots.len() {
            match sourcemap(dom, child, non_scripts, files) {
                Some(below) => before.push(below),
                None => before,
            }
        } else {
            before
        }
    }
}

/// Those of `paths` that are among `files`, in order.
fn keep_files(paths: &Vec<String>, files: &Vec<String>) -> (kept: Vec<String>)
    ensures
        kept.deep_view() == file_paths(paths.deep_view(), files.deep_view(), paths.deep_view().len()),
{
    let mut kept: Vec<String> = Vec::new();
    let mut i: usize = 0;
    assert(kept.deep_view() =~= Seq::<Seq<char>>::empty());
    while i < paths.len()
        invariant
            i <= paths@.len(),
            paths@.len() == paths.deep_view().len(),
            kept.deep_view() == file_paths(paths.deep_view(), files.deep_view(), i as nat),
        decreases paths@.len() - i,
    {
        let ghost before = kept.deep_view();
        assert(paths.deep_view()[i as int] == paths@[i as int]@);
        if contains_string(files, paths[i].as_str()) {
            kept.push(paths[i].clone());
            assert(kept.deep_view() =~= before.push(paths@[i as int]@));
        }
        i += 1;
    }
    kept
}

/// The paths by falling length, paths of one length in the order in which they stood.
fn sort_by_length(paths: Vec<String>) -> (sorted: Vec<String>)
    ensures
        sorted.deep_view() == by_length(paths.deep_view(), paths.deep_view().len()),
{
    let mut sorted: Vec<String> = Vec::new();
    let mut i: usize = 0;
    assert(sorted.deep_view() =~= Seq::<Seq<char>>::empty());
    while i < paths.len()
        invariant
            i <= paths@.len(),
            paths@.len() == paths.deep_view().len(),
            sorted.deep_view() == by_length(paths.deep_view(), i as nat),
            sorted@.len() == i,
        decreases paths@.len() - i,
    {
        let ghost before = sorted.deep_view();
        let path = paths[i].clone();
        assert(path@ == paths.deep_view()[i as int]);
        let mut at: usize = sorted.len();
        while at > 0 && byte_length(sorted[at - 1].as_str()) < byte_length(path.as_str())
            invariant
                at <= sorted@.len(),
                before == sorted.deep_view(),
                place_of(before, path@, before.len()) == place_of(before, path@, at as nat),
            decreases at,
        {
            assert(before[at - 1] == sorted@[at - 1]@);
            at -= 1;
        }
        proof {
            if at > 0 {
                assert(before[at - 1] == sorted@[at - 1]@);
            }
            assert(place_of(before, path@, before.len()) == at);
        }
        sorted.insert(at, path);
        proof {
            assert(sorted.deep_view() =~= before.insert(at as int, path@));
        }
        i += 1;
    }
    sorted
}

/// The sourcemap of the subtree at `id`. `files` holds the paths at which a
/// file stands; `non_scripts` asks for every instance, not only for scripts
/// and what is above them.
pub fn walk(dom: &Dom, id: Ref, non_scripts: bool, files: &Vec<String>) -> (node: Option<SourcemapNode>)
    requires
        dom.wf(),
        dom@.live(id),
    ensures
        match node {
            Some(found) => Some(found@) == sourcemap(dom@, id, non_scripts, files.deep_view()),
            None => sourcemap(dom@, id, non_scripts, files.deep_view()) is None,
        },
    decreases dom@.slots.len() - id.0,
{
    proof {
        dom.lemma_wf();
        assert(dom@.node_wf(id));
    }
    let instance = dom.get(id).unwrap();
    let kids = instance.children();
    let mut children: Vec<SourcemapNode> = Vec::new();
    let mut i: usize = 0;
    assert(node_views(children@) =~= Seq::<SourcemapNodeView>::empty());
    while i < kids.len()
        invariant
            dom.wf(),
            dom@.live(id),
            dom@.node_wf(id),
            kids@ == dom@.node(id).children,
            i <= kids@.len(),
            node_views(children@) == sourcemap_children(dom@, id, non_scripts, files.deep_view(), i as nat),
        decreases kids@.len() - i,
    {
        let ghost before = node_views(children@);
        assert(dom@.live(kids@[i as int]));
        match walk(dom, kids[i], non_scripts, files) {
            Some(below) => {
                children.push(below);
                assert(node_views(children@) =~= before.push(below@));
            },
            None => {},
        }
        i += 1;
    }
    if children.len() == 0 && !non_scripts && !is_script(instance.class()) {
        return None;
    }
    let node = SourcemapNode {
        name: instance.name().to_owned(),
        class_name: instance.class().to_owned(),
        file_paths: sort_by_length(keep_files(instance.paths(), files)),
        children,
    };
    proof {
        node.lemma_view();
    }
    Some(node)
}

} // verus!
