use argon::changes::{Change, ChangeSet, PropertyDelta};
use argon::snapshot::{Ref, Snapshot};
use argon::tree::{Tree, TreeError};
use argon::value::{Properties, Variant};

fn leaf(name: &str, class: &str) -> Snapshot {
    Snapshot::new().with_name(name).with_class(class)
}

fn node(name: &str, class: &str, children: Vec<Snapshot>) -> Snapshot {
    leaf(name, class).with_children(children)
}

fn with_source(snapshot: Snapshot, source: &str) -> Snapshot {
    let mut properties = Properties::new();
    properties.insert(String::from("Source"), Variant::String(String::from(source)));
    snapshot.with_properties(properties)
}

fn sample() -> Tree {
    Tree::new(&node(
        "game",
        "DataModel",
        vec![
            node(
                "Workspace",
                "Workspace",
                vec![leaf("Floor", "Part"), leaf("Wall", "Part")],
            ),
            node("ReplicatedStorage", "ReplicatedStorage", vec![leaf("Shared", "ModuleScript")]),
        ],
    )).unwrap()
}

fn names(tree: &Tree, ids: &[Ref]) -> Vec<String> {
    ids.iter().map(|id| String::from(tree.get_instance(*id).unwrap().name())).collect()
}

#[test]
fn identifiers_go_by_the_order_of_the_snapshot() {
    let tree = sample();
    assert_eq!(tree.root_ref(), Ref(0));
    assert_eq!(tree.root().name(), "game");
    assert_eq!(tree.root().class(), "DataModel");
    assert_eq!(tree.root().referent(), Ref(0));
    assert_eq!(tree.root().parent(), None);
    assert_eq!(tree.root().children(), &[Ref(1), Ref(4)]);
    assert_eq!(tree.place_root_refs(), &[Ref(1), Ref(4)]);
    let workspace = tree.get_instance(Ref(1)).unwrap();
    assert_eq!(workspace.name(), "Workspace");
    assert_eq!(workspace.children(), &[Ref(2), Ref(3)]);
    assert_eq!(workspace.parent(), Some(Ref(0)));
    assert_eq!(names(&tree, &[Ref(2), Ref(3), Ref(4), Ref(5)]), vec!["Floor", "Wall", "ReplicatedStorage", "Shared"]);
    assert_eq!(tree.get_instance(Ref(5)).unwrap().parent(), Some(Ref(4)));
    assert!(tree.get_instance(Ref(6)).is_none());
    assert_eq!(tree.inner().allocated(), 6);
}

#[test]
fn insert_appends_below_the_parent() {
    let mut tree = sample();
    let inserted = tree.insert(Ref(1), &node("Model", "Model", vec![leaf("Inner", "Part")]));
    assert_eq!(inserted, Ok(Ref(6)));
    assert_eq!(tree.get_instance(Ref(1)).unwrap().children(), &[Ref(2), Ref(3), Ref(6)]);
    assert_eq!(tree.get_instance(Ref(6)).unwrap().name(), "Model");
    assert_eq!(tree.get_instance(Ref(6)).unwrap().children(), &[Ref(7)]);
    assert_eq!(tree.get_instance(Ref(7)).unwrap().name(), "Inner");
    assert_eq!(tree.get_instance(Ref(7)).unwrap().parent(), Some(Ref(6)));
}

#[test]
fn insert_below_an_unknown_parent_fails() {
    let mut tree = sample();
    assert_eq!(tree.insert(Ref(17), &leaf("x", "Part")), Err(TreeError::UnknownParent));
    assert_eq!(tree.inner().allocated(), 6);
    tree.remove(Ref(2)).unwrap();
    assert_eq!(tree.insert(Ref(2), &leaf("x", "Part")), Err(TreeError::UnknownParent));
}

#[test]
fn remove_takes_the_subtree_out() {
    let mut tree = sample();
    assert_eq!(tree.remove(Ref(1)), Ok(()));
    assert!(tree.get_instance(Ref(1)).is_none());
    assert!(tree.get_instance(Ref(2)).is_none());
    assert!(tree.get_instance(Ref(3)).is_none());
    assert!(tree.get_instance(Ref(4)).is_some());
    assert!(tree.get_instance(Ref(5)).is_some());
    assert_eq!(tree.root().children(), &[Ref(4)]);
    assert_eq!(tree.insert(Ref(4), &leaf("New", "Part")), Ok(Ref(6)));
}

#[test]
fn remove_of_the_root_or_of_an_unknown_instance_fails() {
    let mut tree = sample();
    assert_eq!(tree.remove(Ref(0)), Err(TreeError::RootRemoval));
    assert_eq!(tree.remove(Ref(9)), Err(TreeError::UnknownReferent));
    tree.remove(Ref(3)).unwrap();
    assert_eq!(tree.remove(Ref(3)), Err(TreeError::UnknownReferent));
    assert_eq!(tree.get_instance(Ref(1)).unwrap().children(), &[Ref(2)]);
}

#[test]
fn update_changes_the_properties_of_one_instance() {
    let mut tree = sample();
    let mut delta = PropertyDelta::new();
    delta.set.insert(String::from("Anchored"), Variant::Bool(true));
    assert_eq!(tree.update_properties(Ref(2), &delta), Ok(()));
    assert!(matches!(tree.get_instance(Ref(2)).unwrap().properties().get("Anchored"), Some(Variant::Bool(true))));
    assert_eq!(tree.get_instance(Ref(3)).unwrap().properties().len(), 0);
    let mut removal = PropertyDelta::new();
    removal.removed.push(String::from("Anchored"));
    assert_eq!(tree.update_properties(Ref(2), &removal), Ok(()));
    assert_eq!(tree.get_instance(Ref(2)).unwrap().properties().len(), 0);
    assert_eq!(tree.update_properties(Ref(9), &delta), Err(TreeError::UnknownReferent));
}

#[test]
fn paths_of_instances_and_instances_at_paths() {
    let snapshot = node(
        "src",
        "Folder",
        vec![
            leaf("foo", "ModuleScript").with_paths(vec![String::from("src/foo.luau")]),
            leaf("Part", "Part").with_paths(vec![String::from("src/Part"), String::from("src/Part/init.meta.json")]),
        ],
    )
    .with_paths(vec![String::from("src")]);
    let mut tree = Tree::new(&snapshot).unwrap();
    assert_eq!(tree.get_paths(Ref(0)), Some(&vec![String::from("src")]));
    assert_eq!(tree.get_paths(Ref(1)), Some(&vec![String::from("src/foo.luau")]));
    assert_eq!(tree.get_paths(Ref(2)).unwrap().len(), 2);
    assert_eq!(tree.get_paths(Ref(3)), None);
    assert_eq!(tree.get_ids("src"), vec![Ref(0)]);
    assert_eq!(tree.get_ids("src/foo.luau"), vec![Ref(1)]);
    assert_eq!(tree.get_ids("src/Part/init.meta.json"), vec![Ref(2)]);
    assert_eq!(tree.get_ids("src/none"), vec![]);
    let added = leaf("again", "Folder").with_paths(vec![String::from("src/Part")]);
    assert_eq!(tree.insert(Ref(0), &added), Ok(Ref(3)));
    assert_eq!(tree.get_ids("src/Part"), vec![Ref(2), Ref(3)]);
    tree.remove(Ref(2)).unwrap();
    assert_eq!(tree.get_ids("src/Part"), vec![Ref(3)]);
    assert_eq!(tree.get_ids("src/Part/init.meta.json"), vec![]);
    assert_eq!(tree.get_paths(Ref(2)), None);
}

#[test]
fn renaming_a_file_removes_one_instance_and_adds_another() {
    let snapshot = node(
        "src",
        "Folder",
        vec![with_source(leaf("foo", "ModuleScript"), "return 1").with_paths(vec![String::from("src/foo.luau")])],
    )
    .with_paths(vec![String::from("src")]);
    let mut tree = Tree::new(&snapshot).unwrap();
    let renamed = node(
        "src",
        "Folder",
        vec![with_source(leaf("bar", "ModuleScript"), "return 1").with_paths(vec![String::from("src/bar.luau")])],
    )
    .with_paths(vec![String::from("src")]);
    let changes = tree.diff(Ref(0), &renamed).unwrap();
    assert_eq!(changes.len(), 2);
    assert!(matches!(&changes.changes[0], Change::Removed { id } if *id == Ref(1)));
    match &changes.changes[1] {
        Change::Added { parent, snapshot } => {
            assert_eq!(*parent, Ref(0));
            assert_eq!(snapshot.name, "bar");
            assert_eq!(snapshot.class, "ModuleScript");
            assert!(matches!(snapshot.properties.get("Source"), Some(Variant::String(s)) if s == "return 1"));
        },
        _ => panic!("not an addition"),
    }
    assert_eq!(tree.apply(&changes), 2);
    assert_eq!(tree.get_ids("src/foo.luau"), vec![]);
    assert_eq!(tree.get_ids("src/bar.luau"), vec![Ref(2)]);
    assert_eq!(tree.root().children(), &[Ref(2)]);
    assert!(tree.diff(Ref(7), &renamed).is_none());
}

#[test]
fn snapshot_keeps_the_order_of_siblings() {
    let tree = sample();
    let snapshot = tree.snapshot_of(Ref(0)).unwrap();
    assert_eq!(snapshot.id, Some(Ref(0)));
    assert_eq!(snapshot.name, "game");
    let first: Vec<&str> = snapshot.children.iter().map(|child| child.name.as_str()).collect();
    assert_eq!(first, vec!["Workspace", "ReplicatedStorage"]);
    let below: Vec<&str> = snapshot.children[0].children.iter().map(|child| child.name.as_str()).collect();
    assert_eq!(below, vec!["Floor", "Wall"]);
    assert_eq!(snapshot.children[0].children[1].id, Some(Ref(3)));
    assert!(tree.snapshot_of(Ref(0)).unwrap().same(&snapshot));
    assert!(tree.snapshot_of(Ref(6)).is_none());
    assert_eq!(snapshot.count(), Some(6));
}

#[test]
fn apply_stops_at_the_first_change_that_cannot_be_made() {
    let mut tree = sample();
    let mut changes = ChangeSet::new();
    changes.push(Change::Removed { id: Ref(2) });
    changes.push(Change::Removed { id: Ref(2) });
    changes.push(Change::Removed { id: Ref(3) });
    assert_eq!(tree.apply(&changes), 1);
    assert!(tree.get_instance(Ref(2)).is_none());
    assert!(tree.get_instance(Ref(3)).is_some());
    let mut more = ChangeSet::new();
    more.push(Change::Added { parent: Ref(9), snapshot: leaf("x", "Part") });
    assert_eq!(tree.apply(&more), 0);
    let mut root = ChangeSet::new();
    root.push(Change::Removed { id: Ref(0) });
    assert_eq!(tree.apply(&root), 0);
    let mut update = ChangeSet::new();
    update.push(Change::Updated { id: Ref(9), delta: PropertyDelta::new(), paths: None });
    assert_eq!(tree.apply(&update), 0);
    assert_eq!(tree.apply(&ChangeSet::new()), 0);
}

#[test]
fn twin_siblings_are_refused() {
    let mut tree = sample();
    assert_eq!(tree.insert(Ref(1), &leaf("Floor", "Part")), Err(TreeError::DuplicateSibling));
    assert_eq!(tree.insert(Ref(1), &leaf("Floor", "Model")), Ok(Ref(6)));
    assert_eq!(tree.insert(Ref(1), &leaf("Floor", "Model")), Err(TreeError::DuplicateSibling));
    assert_eq!(tree.insert(Ref(4), &leaf("Floor", "Part")), Ok(Ref(7)));
    let twins = node("x", "Folder", vec![leaf("a", "Part"), leaf("a", "Part")]);
    assert_eq!(tree.insert(Ref(4), &twins), Err(TreeError::DuplicateSibling));
    assert_eq!(tree.inner().allocated(), 8);
    assert_eq!(Tree::new(&twins).err(), Some(TreeError::DuplicateSibling));
    let mut empty = Tree::new(&Snapshot::new()).unwrap();
    assert_eq!(empty.insert(Ref(0), &Snapshot::new()), Ok(Ref(1)));
    assert_eq!(empty.insert(Ref(0), &Snapshot::new()), Err(TreeError::DuplicateSibling));
    let mut changes = ChangeSet::new();
    changes.push(Change::Added { parent: Ref(0), snapshot: Snapshot::new() });
    assert_eq!(empty.apply(&changes), 0);
    tree.remove(Ref(2)).unwrap();
    assert_eq!(tree.insert(Ref(1), &leaf("Floor", "Part")), Ok(Ref(8)));
}

#[test]
fn each_path_of_an_instance_is_kept_once() {
    let snapshot = leaf("src", "Folder").with_paths(vec![String::from("src"), String::from("src/init.meta.json"), String::from("src")]);
    let mut tree = Tree::new(&snapshot).unwrap();
    assert_eq!(tree.get_paths(Ref(0)), Some(&vec![String::from("src"), String::from("src/init.meta.json")]));
    let child = leaf("a", "Part").with_paths(vec![String::from("x"), String::from("x"), String::from("y"), String::from("x")]);
    assert_eq!(tree.insert(Ref(0), &child), Ok(Ref(1)));
    assert_eq!(tree.get_paths(Ref(1)), Some(&vec![String::from("x"), String::from("y")]));
    assert_eq!(tree.get_ids("x"), vec![Ref(1)]);
}
