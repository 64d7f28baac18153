use argon::changes::Change;
use argon::snapshot::{Ref, Snapshot};
use argon::tree::Tree;
use argon::value::{Properties, Variant};

fn leaf(name: &str, class: &str) -> Snapshot {
    Snapshot::new().with_name(name).with_class(class)
}

fn node(name: &str, class: &str, children: Vec<Snapshot>) -> Snapshot {
    leaf(name, class).with_children(children)
}

fn with(snapshot: Snapshot, name: &str, value: Variant) -> Snapshot {
    let mut properties = snapshot.properties.duplicate();
    properties.insert(String::from(name), value);
    snapshot.with_properties(properties)
}

/// Whether `tree` is what `snapshot` describes, whatever the identifiers,
/// the paths and the order of siblings.
fn same_tree(tree: &Snapshot, snapshot: &Snapshot) -> bool {
    tree.name == snapshot.name
        && tree.class == snapshot.class
        && tree.properties.same(&snapshot.properties)
        && tree.children.len() == snapshot.children.len()
        && snapshot.children.iter().all(|wanted| tree.children.iter().any(|child| same_tree(child, wanted)))
}

fn before() -> Snapshot {
    node(
        "src",
        "Folder",
        vec![
            with(leaf("a", "ModuleScript"), "Source", Variant::String(String::from("return 1"))),
            node("b", "Folder", vec![leaf("deep", "Part"), leaf("gone", "Part")]),
            leaf("c", "Part"),
        ],
    )
}

fn after() -> Snapshot {
    with(
        node(
            "src",
            "Folder",
            vec![
                node("b", "Folder", vec![with(leaf("deep", "Part"), "Anchored", Variant::Bool(true)), leaf("new", "Model")]),
                with(leaf("a", "ModuleScript"), "Source", Variant::String(String::from("return 2"))),
                node("d", "Folder", vec![leaf("inner", "Part")]),
                leaf("a", "Script"),
            ],
        ),
        "Tag",
        Variant::Enum(3),
    )
}

#[test]
fn the_changes_between_a_tree_and_a_snapshot() {
    let tree = Tree::new(&before()).unwrap();
    let changes = tree.diff(Ref(0), &after()).unwrap();
    let summary: Vec<String> = changes
        .changes
        .iter()
        .map(|change| match change {
            Change::Added { parent, snapshot } => format!("add {} below {}", snapshot.name, parent.0),
            Change::Removed { id } => format!("remove {}", id.0),
            Change::Updated { id, delta, .. } => format!("update {} set {} remove {}", id.0, delta.set.len(), delta.removed.len()),
        })
        .collect();
    assert_eq!(
        summary,
        vec![
            "update 0 set 1 remove 0",
            "remove 5",
            "remove 4",
            "update 3 set 1 remove 0",
            "add new below 2",
            "update 1 set 1 remove 0",
            "add d below 0",
            "add a below 0",
        ]
    );
}

#[test]
fn making_the_changes_gives_what_the_snapshot_describes() {
    let mut tree = Tree::new(&before()).unwrap();
    let changes = tree.diff(Ref(0), &after()).unwrap();
    assert_eq!(tree.apply(&changes), changes.len());
    let result = tree.snapshot_of(Ref(0)).unwrap();
    assert!(same_tree(&result, &after()));
    assert!(!same_tree(&result, &before()));
    assert_eq!(tree.diff(Ref(0), &after()).unwrap().len(), 0);
}

#[test]
fn no_changes_between_a_tree_and_its_own_snapshot() {
    let tree = Tree::new(&before()).unwrap();
    let own = tree.snapshot_of(Ref(0)).unwrap();
    assert_eq!(tree.diff(Ref(0), &own).unwrap().len(), 0);
    assert_eq!(tree.diff(Ref(0), &before()).unwrap().len(), 0);
}

#[test]
fn the_changes_below_an_instance_leave_the_rest_alone() {
    let mut tree = Tree::new(&before()).unwrap();
    let wanted = node("b", "Folder", vec![leaf("other", "Part")]);
    let changes = tree.diff(Ref(2), &wanted).unwrap();
    assert_eq!(tree.apply(&changes), changes.len());
    assert!(same_tree(&tree.snapshot_of(Ref(2)).unwrap(), &wanted));
    assert_eq!(tree.get_instance(Ref(1)).unwrap().name(), "a");
    assert_eq!(tree.get_instance(Ref(5)).unwrap().name(), "c");
    assert_eq!(tree.root().children(), &[Ref(1), Ref(2), Ref(5)]);
    assert!(tree.get_instance(Ref(3)).is_none());
    assert!(tree.get_instance(Ref(4)).is_none());
    assert_eq!(tree.get_instance(Ref(2)).unwrap().children(), &[Ref(6)]);
}

#[test]
fn a_removed_property_is_in_the_difference() {
    let start = with(with(leaf("p", "Part"), "Anchored", Variant::Bool(true)), "Name", Variant::String(String::from("p")));
    let mut tree = Tree::new(&start).unwrap();
    let wanted = with(leaf("p", "Part"), "Name", Variant::String(String::from("p")));
    let changes = tree.diff(Ref(0), &wanted).unwrap();
    assert_eq!(changes.len(), 1);
    match &changes.changes[0] {
        Change::Updated { id, delta, paths } => {
            assert!(paths.is_none());
            assert_eq!(*id, Ref(0));
            assert_eq!(delta.set.len(), 0);
            assert_eq!(delta.removed, vec![String::from("Anchored")]);
        },
        _ => panic!("not an update"),
    }
    assert_eq!(tree.apply(&changes), 1);
    let mut expected = Properties::new();
    expected.insert(String::from("Name"), Variant::String(String::from("p")));
    assert!(tree.root().properties().same(&expected));
}

#[test]
fn other_paths_are_in_the_difference() {
    let start = node("src", "Folder", vec![leaf("a", "Part").with_paths(vec![String::from("src/a.meta.json")])])
        .with_paths(vec![String::from("src")]);
    let mut tree = Tree::new(&start).unwrap();
    let wanted = node(
        "src",
        "Folder",
        vec![leaf("a", "Part").with_paths(vec![String::from("src/a.meta.json"), String::from("src/a.rbxm"), String::from("src/a.rbxm")])],
    )
    .with_paths(vec![String::from("src")]);
    let changes = tree.diff(Ref(0), &wanted).unwrap();
    assert_eq!(changes.len(), 1);
    match &changes.changes[0] {
        Change::Updated { id, delta, paths } => {
            assert_eq!(*id, Ref(1));
            assert!(delta.is_empty());
            assert_eq!(paths.as_ref().unwrap().len(), 3);
        },
        _ => panic!("not an update"),
    }
    assert_eq!(tree.apply(&changes), 1);
    assert_eq!(tree.get_paths(Ref(1)), Some(&vec![String::from("src/a.meta.json"), String::from("src/a.rbxm")]));
    assert_eq!(tree.get_ids("src/a.rbxm"), vec![Ref(1)]);
    assert_eq!(tree.diff(Ref(0), &wanted).unwrap().len(), 0);
}
