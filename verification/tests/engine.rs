use argon::changes::{Change, ChangeSet, PropertyDelta};
use argon::engine::Core;
use argon::meta::Context;
use argon::project::Project;
use argon::snapshot::{Ref, Snapshot};
use argon::tree::TreeError;
use argon::value::Variant;

fn leaf(name: &str, class: &str) -> Snapshot {
    Snapshot::new().with_name(name).with_class(class)
}

fn place() -> Core {
    let mut project = Project::new("game", "/projects/game");
    project.host = Some(String::from("localhost"));
    project.port = Some(8000);
    project.game_id = Some(42);
    project.place_ids = Some(vec![1, 2, 3]);
    let snapshot = leaf("game", "DataModel").with_children(vec![
        leaf("Workspace", "Workspace").with_children(vec![leaf("Part", "Part")]),
        leaf("Lighting", "Lighting"),
    ]);
    Core::new(project, &snapshot).unwrap()
}

#[test]
fn project_settings() {
    let engine = place();
    assert_eq!(engine.name(), "game");
    assert_eq!(engine.host(), Some(String::from("localhost")));
    assert_eq!(engine.port(), Some(8000));
    assert_eq!(engine.game_id(), Some(42));
    assert_eq!(engine.place_ids(), Some(vec![1, 2, 3]));
    let bare = Core::new(Project::new("model", "src"), &leaf("model", "Model")).unwrap();
    assert_eq!(bare.name(), "model");
    assert_eq!(bare.host(), None);
    assert_eq!(bare.port(), None);
    assert_eq!(bare.game_id(), None);
    assert_eq!(bare.place_ids(), None);
}

#[test]
fn context_of_a_project() {
    let mut project = Project::new("game", "src");
    assert!(!Context::from_project(&project).use_legacy_scripts());
    project.use_legacy_scripts = Some(true);
    assert!(Context::from_project(&project).use_legacy_scripts());
    project.use_legacy_scripts = Some(false);
    assert!(!Context::from_project(&project).use_legacy_scripts());
}

#[test]
fn a_place_is_built_from_the_children_of_the_root() {
    let engine = place();
    assert!(engine.is_place());
    assert_eq!(engine.build_roots(), vec![Ref(1), Ref(3)]);
}

#[test]
fn a_model_is_built_from_the_root() {
    let engine = Core::new(Project::new("model", "src"), &leaf("model", "Model").with_children(vec![leaf("Part", "Part")])).unwrap();
    assert!(!engine.is_place());
    assert_eq!(engine.build_roots(), vec![Ref(0)]);
}

#[test]
fn snapshot_of_the_whole_tree() {
    let engine = place();
    let snapshot = engine.snapshot();
    assert_eq!(snapshot.id, Some(Ref(0)));
    assert_eq!(snapshot.name, "game");
    assert_eq!(snapshot.class, "DataModel");
    assert_eq!(snapshot.children.len(), 2);
    assert_eq!(snapshot.children[0].name, "Workspace");
    assert_eq!(snapshot.children[0].children[0].id, Some(Ref(2)));
    assert_eq!(snapshot.children[1].name, "Lighting");
    assert!(engine.snapshot().same(&snapshot));
}

#[test]
fn subscribers_of_the_core() {
    let mut engine = place();
    assert!(!engine.unsubscribe(&1));
    engine.subscribe(1, 0);
    assert!(engine.queue().is_subscribed(1));
    assert!(engine.read(1, 1).unwrap().is_empty());
    assert!(engine.read(2, 1).is_none());
    assert!(engine.unsubscribe(&1));
    assert!(!engine.unsubscribe(&1));
    assert!(!engine.queue().is_subscribed(1));
}

#[test]
fn a_patch_changes_the_tree_and_reaches_the_other_subscribers() {
    let mut engine = place();
    engine.subscribe(1, 0);
    engine.subscribe(2, 0);
    let mut delta = PropertyDelta::new();
    delta.set.insert(String::from("Transparency"), Variant::Float32(0.5f64.to_bits()));
    let mut patch = ChangeSet::new();
    patch.push(Change::Updated { id: Ref(2), delta, paths: None });
    assert_eq!(engine.write(&patch, Some(1)), 1);
    let part = engine.tree().get_instance(Ref(2)).unwrap();
    assert!(matches!(part.properties().get("Transparency"), Some(Variant::Float32(bits)) if *bits == 0.5f64.to_bits()));
    assert!(engine.read(1, 1).unwrap().is_empty());
    let seen = engine.read(2, 1).unwrap();
    assert_eq!(seen.len(), 1);
    assert_eq!(seen[0].len(), 1);
    assert!(matches!(&seen[0].changes[0], Change::Updated { id, .. } if *id == Ref(2)));
}

#[test]
fn of_a_patch_only_what_was_made_is_announced() {
    let mut engine = place();
    engine.subscribe(1, 0);
    let mut patch = ChangeSet::new();
    patch.push(Change::Removed { id: Ref(3) });
    patch.push(Change::Removed { id: Ref(9) });
    patch.push(Change::Removed { id: Ref(2) });
    assert_eq!(engine.write(&patch, None), 1);
    assert!(engine.tree().get_instance(Ref(3)).is_none());
    assert!(engine.tree().get_instance(Ref(2)).is_some());
    let seen = engine.read(1, 1).unwrap();
    assert_eq!(seen.len(), 1);
    assert_eq!(seen[0].len(), 1);
    let mut refused = ChangeSet::new();
    refused.push(Change::Removed { id: Ref(9) });
    assert_eq!(engine.write(&refused, None), 0);
    assert!(engine.read(1, 2).unwrap().is_empty());
}

#[test]
fn reconciling_with_a_fresh_snapshot() {
    let mut engine = place();
    engine.subscribe(1, 0);
    let fresh = leaf("Workspace", "Workspace").with_children(vec![leaf("Part", "Part"), leaf("Model", "Model")]);
    assert_eq!(engine.reconcile(Ref(1), &fresh), Ok(1));
    assert_eq!(engine.tree().get_instance(Ref(1)).unwrap().children(), &[Ref(2), Ref(4)]);
    let seen = engine.read(1, 1).unwrap();
    assert_eq!(seen.len(), 1);
    assert!(matches!(&seen[0].changes[0], Change::Added { parent, snapshot } if *parent == Ref(1) && snapshot.name == "Model"));
    assert_eq!(engine.reconcile(Ref(1), &fresh), Ok(0));
    assert!(engine.read(1, 2).unwrap().is_empty());
    assert_eq!(engine.reconcile(Ref(9), &fresh), Err(TreeError::UnknownReferent));
}

#[test]
fn reconciling_is_refused_where_it_cannot_be_done() {
    let mut engine = place();
    engine.subscribe(1, 0);
    assert_eq!(engine.reconcile(Ref(1), &leaf("Workspace", "Model")), Err(TreeError::Mismatch));
    assert_eq!(engine.reconcile(Ref(1), &leaf("Other", "Workspace")), Err(TreeError::Mismatch));
    let twins = leaf("Workspace", "Workspace").with_children(vec![leaf("a", "Part"), leaf("a", "Part")]);
    assert_eq!(engine.reconcile(Ref(1), &twins), Err(TreeError::DuplicateSibling));
    assert_eq!(engine.reconcile(Ref(7), &twins), Err(TreeError::UnknownReferent));
    assert_eq!(engine.tree().get_instance(Ref(1)).unwrap().children(), &[Ref(2)]);
    assert!(engine.read(1, 1).unwrap().is_empty());
}

#[test]
fn reconciling_brings_the_paths_in_line() {
    let start = leaf("src", "Folder").with_paths(vec![String::from("src")]).with_children(vec![
        leaf("a", "Part").with_paths(vec![String::from("src/a")]),
    ]);
    let mut engine = Core::new(Project::new("game", "src"), &start).unwrap();
    let fresh = leaf("src", "Folder")
        .with_paths(vec![String::from("src"), String::from("src/init.meta.json")])
        .with_children(vec![leaf("a", "Part").with_paths(vec![String::from("src/a"), String::from("src/a/init.meta.json")])]);
    assert_eq!(engine.reconcile(Ref(0), &fresh), Ok(2));
    assert_eq!(engine.tree().get_paths(Ref(0)), Some(&vec![String::from("src"), String::from("src/init.meta.json")]));
    assert_eq!(engine.tree().get_ids("src/a/init.meta.json"), vec![Ref(1)]);
    assert_eq!(engine.tree().get_ids("src/init.meta.json"), vec![Ref(0)]);
    assert_eq!(engine.reconcile(Ref(0), &fresh), Ok(0));
    assert_eq!(engine.reconcile(Ref(0), &start), Ok(2));
    assert!(engine.tree().get_ids("src/init.meta.json").is_empty());
}

#[test]
fn a_core_of_twin_siblings_is_refused() {
    let twins = leaf("game", "DataModel").with_children(vec![leaf("a", "Part"), leaf("a", "Part")]);
    assert_eq!(Core::new(Project::new("game", "src"), &twins).err(), Some(TreeError::DuplicateSibling));
}

#[test]
fn reconciling_with_the_own_snapshot_changes_nothing() {
    let mut engine = place();
    engine.subscribe(1, 0);
    let before = engine.snapshot();
    assert_eq!(engine.reconcile(Ref(0), &before), Ok(0));
    assert_eq!(engine.reconcile(Ref(1), &engine.tree().snapshot_of(Ref(1)).unwrap()), Ok(0));
    assert!(engine.snapshot().same(&before));
    assert!(engine.read(1, 1).unwrap().is_empty());
    assert_eq!(engine.tree().diff(Ref(0), &before).unwrap().len(), 0);
}
