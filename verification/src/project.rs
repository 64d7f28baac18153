//! The project: what is synchronised, and where it is served.

use vstd::prelude::*;
use crate::meta::{Context, Meta, MetaView};

verus! {

/// The settings of a project, as its project file gives them.
#[derive(Debug)]
pub struct Project {
    pub name: String,
    pub host: Option<String>,
    pub port: Option<u16>,
    pub game_id: Option<u64>,
    pub place_ids: Option<Vec<u64>>,
    /// The path of the project's root on disk.
    pub path: String,
    pub ignore_globs: Option<Vec<String>>,
    pub use_legacy_scripts: Option<bool>,
}

impl Project {
    /// A project of the given name and root path, with nothing else set.
    pub fn new(name: &str, path: &str) -> (project: Project)
        ensures
            project.name@ == name@,
            project.path@ == path@,
            project.host is None,
            project.port is None,
            project.game_id is None,
            project.place_ids is None,
            project.ignore_globs is None,
            project.use_legacy_scripts is None,
    {
        Project {
            name: name.to_owned(),
            host: None,
            port: None,
            game_id: None,
            place_ids: None,
            path: path.to_owned(),
            ignore_globs: None,
            use_legacy_scripts: None,
        }
    }

    /// Whether the project's scripts follow the legacy convention: what the
    /// project file says, and the modern convention where it says nothing.
    pub open spec fn legacy_scripts(&self) -> bool {
        self.use_legacy_scripts == Some(true)
    }
}

impl Meta {
    /// The configuration that a project sets for its root: its patterns of
    /// paths to leave out, its script convention and its name.
    pub fn from_project(project: &Project) -> (meta: Meta)
        ensures
            meta@ == (MetaView {
                ignore_globs: match project.ignore_globs {
                    Some(globs) => Some(globs.deep_view()),
                    None => None,
                },
                sync_rules: None,
                legacy_scripts: project.use_legacy_scripts,
                project_name: Some(project.name@),
            }),
    {
        Meta {
            ignore_globs: match &project.ignore_globs {
                Some(globs) => Some(crate::text::clone_strings(globs)),
                None => None,
            },
            sync_rules: None,
            legacy_scripts: project.use_legacy_scripts,
            project_name: Some(project.name.clone()),
        }
    }
}

impl Context {
    /// The configuration that the root of a project is read with.
    pub fn from_project(project: &Project) -> (context: Context)
        ensures
            context.legacy_scripts == project.legacy_scripts(),
            context.ignore_globs.deep_view() == match project.ignore_globs {
                Some(globs) => globs.deep_view(),
                None => Seq::<Seq<char>>::empty(),
            },
            context.sync_rules@ == Seq::<crate::meta::SyncRule>::empty(),
    {
        let legacy = match project.use_legacy_scripts {
            Some(legacy) => legacy,
            None => false,
        };
        let globs = match &project.ignore_globs {
            Some(globs) => crate::text::clone_strings(globs),
            None => Vec::new(),
        };
        assert(project.ignore_globs is None ==> globs.deep_view() =~= Seq::<Seq<char>>::empty());
        Context::new(legacy).with_ignore_globs(globs)
    }
}

} // verus!
