//! Directories: a container for what the directory holds.

use vstd::prelude::*;
use crate::middleware::data::default_class;
use crate::snapshot::{views, Snapshot, SnapshotView};
use crate::text::{lemma_take_contains, str_eq};
use crate::value::VariantView;
use crate::util::is_service;
use crate::value::Properties;

verus! {

/// Whether a file of the given name is the data file that speaks for the
/// directory that holds it.
pub fn is_dir_data(name: &str) -> (data: bool)
    ensures
        data == (name@ == "init.meta.json"@),
{
    str_eq(name, "init.meta.json")
}

/// The snapshot of a directory: an instance of the directory's name, made
/// from the directory's path, with the class and the properties that the
/// data file in the directory gives, or else the class that the name gives
/// and no properties, above the snapshots of what the directory holds.
pub open spec fn dir_snapshot(
    name: Seq<char>,
    path: Seq<char>,
    data: Option<SnapshotView>,
    children: Seq<SnapshotView>,
) -> SnapshotView {
    SnapshotView {
        id: None,
        name,
        class: match data {
            Some(given) => given.class,
            None => default_class(name),
        },
        properties: match data {
            Some(given) => given.properties,
            None => Map::empty(),
        },
        children,
        paths: seq![path] + match data {
            Some(given) => given.paths,
            None => Seq::empty(),
        },
    }
}

/// The snapshot of the directory at `path`, of the name `name`. `data` is
/// the snapshot of the data file in it, if it holds one, and `children` are
/// the snapshots of what else it holds.
pub fn snapshot_dir(name: &str, path: &str, data: Option<Snapshot>, children: Vec<Snapshot>) -> (snapshot:
    Snapshot)
    requires
        data matches Some(given) ==> given.wf(),
        forall|i: int| 0 <= i < children@.len() ==> (#[trigger] children@[i]).wf(),
    ensures
        snapshot.wf(),
        snapshot@ == dir_snapshot(
            name@,
            path@,
            match data {
                Some(given) => Some(given@),
                None => None,
            },
            views(children@),
        ),
{
    let mut paths: Vec<String> = Vec::new();
    paths.push(path.to_owned());
    let (class, properties) = match data {
        Some(given) => {
            proof {
                given.lemma_view();
            }
            let ghost before = paths.deep_view();
            let mut extra = given.paths;
            let ghost added = extra.deep_view();
            paths.append(&mut extra);
            assert(paths.deep_view() =~= before + added);
            (given.class, given.properties)
        },
        None => {
            let class = if is_service(name) {
                name.to_owned()
            } else {
                "Folder".to_owned()
            };
            (class, Properties::new())
        },
    };
    assert(paths.deep_view() =~= seq![path@] + match data {
        Some(given) => given@.paths,
        None => Seq::<Seq<char>>::empty(),
    });
    Snapshot::new().with_name(name).with_class(class.as_str()).with_properties(properties).with_children(
        children,
    ).with_paths(paths)
}

/// The properties of an instance with those of its data file: those of
/// the data file, and over them the instance's own.
pub open spec fn with_properties_of(
    own: Map<Seq<char>, VariantView>,
    data: Map<Seq<char>, VariantView>,
) -> Map<Seq<char>, VariantView> {
    Map::new(
        |name: Seq<char>| own.contains_key(name) || data.contains_key(name),
        |name: Seq<char>|
            if own.contains_key(name) {
                own[name]
            } else {
                data[name]
            },
    )
}

/// The snapshot of an instance with what the data file beside it gives: the
/// properties of the data file beside its own, and the path of the data file
/// behind its own.
pub open spec fn with_data_of(snapshot: SnapshotView, data: SnapshotView) -> SnapshotView {
    SnapshotView {
        properties: with_properties_of(snapshot.properties, data.properties),
        paths: snapshot.paths + data.paths,
        ..snapshot
    }
}

/// The position of the first of the first `count` snapshots with the name `name`.
pub open spec fn first_named(list: Seq<SnapshotView>, name: Seq<char>, count: nat) -> Option<int>
    decreases count,
{
    if count == 0 || count > list.len() {
        None
    } else {
        match first_named(list, name, (count - 1) as nat) {
            Some(i) => Some(i),
            None => if list[count - 1].name == name {
                Some(count - 1)
            } else {
                None
            },
        }
    }
}

/// What a directory holds, with a data file that is named after an
/// instance: the first instance of that name gets the data, and where there
/// is none, the data file is an instance of its own, behind the others.
pub open spec fn attached(list: Seq<SnapshotView>, data: SnapshotView) -> Seq<SnapshotView> {
    match first_named(list, data.name, list.len()) {
        Some(i) => list.update(i, with_data_of(list[i], data)),
        None => list.push(data),
    }
}

proof fn lemma_first_named(list: Seq<SnapshotView>, name: Seq<char>, at: int, count: nat)
    requires
        0 <= at < count <= list.len(),
        first_named(list, name, at as nat) is None,
        list[at].name == name,
    ensures
        first_named(list, name, count) == Some(at),
    decreases count,
{
    if count > at + 1 {
        lemma_first_named(list, name, at, (count - 1) as nat);
    }
}

/// The snapshot of an instance with what the data file beside it gives.
pub fn with_data(snapshot: Snapshot, data: Snapshot) -> (merged: Snapshot)
    requires
        snapshot.wf(),
        data.wf(),
    ensures
        merged.wf(),
        merged@ == with_data_of(snapshot@, data@),
{
    proof {
        snapshot.lemma_view();
        data.lemma_view();
    }
    let ghost before = snapshot@;
    let ghost given = data@;
    let mut merged = snapshot;
    let mut properties = data.properties;
    let mut i: usize = 0;
    let ghost names = merged.properties.names();
    proof {
        merged.properties.lemma_names();
    }
    while i < merged.properties.len()
        invariant
            merged.properties.wf(),
            properties.wf(),
            merged.properties@ == before.properties,
            names == merged.properties.names(),
            i <= names.len(),
            properties@ =~= Map::new(
                |name: Seq<char>| names.take(i as int).contains(name) || given.properties.contains_key(name),
                |name: Seq<char>|
                    if names.take(i as int).contains(name) {
                        before.properties[name]
                    } else {
                        given.properties[name]
                    },
            ),
        decreases names.len() - i,
    {
        proof {
            lemma_take_contains(names, i as int);
        }
        let name = merged.properties.name_at(i);
        let value = merged.properties.value_at(i);
        properties.insert(name.to_owned(), value.duplicate());
        i += 1;
    }
    proof {
        merged.properties.lemma_names();
        assert(names.take(names.len() as int) =~= names);
        assert(properties@ =~= with_properties_of(before.properties, given.properties));
    }
    let ghost own_paths = merged.paths.deep_view();
    let mut extra = data.paths;
    let ghost added = extra.deep_view();
    merged.paths.append(&mut extra);
    assert(merged.paths.deep_view() =~= own_paths + added);
    merged.properties = properties;
    proof {
        merged.lemma_view();
        assert(merged@.children == before.children);
    }
    merged
}

/// What a directory holds, with a data file that is named after an instance.
pub fn attach(list: Vec<Snapshot>, data: Snapshot) -> (all: Vec<Snapshot>)
    requires
        data.wf(),
        forall|i: int| 0 <= i < list@.len() ==> (#[trigger] list@[i]).wf(),
    ensures
        views(all@) == attached(views(list@), data@),
        forall|i: int| 0 <= i < all@.len() ==> (#[trigger] all@[i]).wf(),
{
    proof {
        data.lemma_view();
    }
    let ghost before = views(list@);
    let ghost old_list = list@;
    let mut all = list;
    let mut i: usize = 0;
    while i < all.len()
        invariant
            data.wf(),
            all@ == old_list,
            old_list == list@,
            forall|k: int| 0 <= k < old_list.len() ==> (#[trigger] old_list[k]).wf(),
            before == views(old_list),
            i <= all@.len(),
            first_named(before, data@.name, i as nat) is None,
        decreases all@.len() - i,
    {
        proof {
            all@[i as int].lemma_view();
        }
        if str_eq(all[i].name.as_str(), data.name.as_str()) {
            proof {
                lemma_first_named(before, data@.name, i as int, before.len());
            }
            let child = all.remove(i);
            let merged = with_data(child, data);
            all.insert(i, merged);
            proof {
                assert(views(all@) =~= before.update(i as int, with_data_of(before[i as int], data@)));
                assert forall|k: int| 0 <= k < all@.len() implies (#[trigger] all@[k]).wf() by {
                    if k != i {
                        assert(all@[k] == old_list[k]);
                        assert(old_list[k].wf());
                    }
                }
            }
            return all;
        }
        i += 1;
    }
    let ghost given = data@;
    all.push(data);
    proof {
        assert(views(all@) =~= before.push(given));
        assert forall|k: int| 0 <= k < all@.len() implies (#[trigger] all@[k]).wf() by {
            if k < old_list.len() {
                assert(all@[k] == old_list[k]);
            }
        }
    }
    all
}

} // verus!
