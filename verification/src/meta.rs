//! Configuration that a subtree is read with: what each node may set, and
//! what is in force where a path is read.

use vstd::prelude::*;
use crate::glob::{any_matches, glob_matches, matches_any, matches_glob};
use crate::middleware::{classify, kind_of, Middleware};
use crate::text::clone_strings;

verus! {

/// A rule that reads the paths of a pattern as files of a kind.
#[derive(Debug)]
pub struct SyncRule {
    pub pattern: String,
    pub kind: Middleware,
}

/// The mathematical value of a [`SyncRule`].
pub struct SyncRuleView {
    pub pattern: Seq<char>,
    pub kind: Middleware,
}

impl View for SyncRule {
    type V = SyncRuleView;

    open spec fn view(&self) -> SyncRuleView {
        SyncRuleView { pattern: self.pattern@, kind: self.kind }
    }
}

/// The values of a list of rules, in order.
pub open spec fn rule_views(rules: Seq<SyncRule>) -> Seq<SyncRuleView> {
    Seq::new(rules.len(), |i: int| rules[i]@)
}

/// A copy of a list of rules.
pub fn clone_rules(rules: &Vec<SyncRule>) -> (copy: Vec<SyncRule>)
    ensures
        rule_views(copy@) == rule_views(rules@),
{
    let mut copy: Vec<SyncRule> = Vec::new();
    let mut i: usize = 0;
    while i < rules.len()
        invariant
            i <= rules@.len(),
            copy@.len() == i,
            forall|k: int| 0 <= k < i ==> (#[trigger] copy@[k])@ == rules@[k]@,
        decreases rules@.len() - i,
    {
        copy.push(SyncRule { pattern: rules[i].pattern.clone(), kind: rules[i].kind });
        i += 1;
    }
    assert(rule_views(copy@) =~= rule_views(rules@));
    copy
}

/// The mathematical value of a [`Meta`].
pub struct MetaView {
    pub ignore_globs: Option<Seq<Seq<char>>>,
    pub sync_rules: Option<Seq<SyncRuleView>>,
    pub legacy_scripts: Option<bool>,
    pub project_name: Option<Seq<char>>,
}

/// What a node of the project sets of the configuration of its subtree.
/// What it leaves unset is as it is above it.
#[derive(Debug)]
pub struct Meta {
    /// The patterns of the paths that are left out.
    pub ignore_globs: Option<Vec<String>>,
    /// The rules that assign kinds to paths.
    pub sync_rules: Option<Vec<SyncRule>>,
    /// Whether client and server scripts are told apart by their class.
    pub legacy_scripts: Option<bool>,
    /// The name of the project that the subtree belongs to.
    pub project_name: Option<String>,
}

impl View for Meta {
    type V = MetaView;

    open spec fn view(&self) -> MetaView {
        MetaView {
            ignore_globs: match self.ignore_globs {
                Some(globs) => Some(globs.deep_view()),
                None => None,
            },
            sync_rules: match self.sync_rules {
                Some(rules) => Some(rule_views(rules@)),
                None => None,
            },
            legacy_scripts: self.legacy_scripts,
            project_name: match self.project_name {
                Some(name) => Some(name@),
                None => None,
            },
        }
    }
}

/// The configuration of a node below one with the configuration `above`:
/// what the node sets, and what is set above it where the node sets nothing.
pub open spec fn inherited(own: MetaView, above: MetaView) -> MetaView {
    MetaView {
        ignore_globs: if own.ignore_globs is Some {
            own.ignore_globs
        } else {
            above.ignore_globs
        },
        sync_rules: if own.sync_rules is Some {
            own.sync_rules
        } else {
            above.sync_rules
        },
        legacy_scripts: if own.legacy_scripts is Some {
            own.legacy_scripts
        } else {
            above.legacy_scripts
        },
        project_name: if own.project_name is Some {
            own.project_name
        } else {
            above.project_name
        },
    }
}

impl Meta {
    /// The configuration that sets nothing.
    pub fn new() -> (meta: Meta)
        ensures
            meta@ == (MetaView {
                ignore_globs: None,
                sync_rules: None,
                legacy_scripts: None,
                project_name: None,
            }),
    {
        Meta { ignore_globs: None, sync_rules: None, legacy_scripts: None, project_name: None }
    }

    /// The configuration of this node below a node with the configuration `above`.
    pub fn inherit(&self, above: &Meta) -> (meta: Meta)
        ensures
            meta@ == inherited(self@, above@),
    {
        let ignore_globs = match (&self.ignore_globs, &above.ignore_globs) {
            (Some(globs), _) => Some(clone_strings(globs)),
            (None, Some(globs)) => Some(clone_strings(globs)),
            (None, None) => None,
        };
        let sync_rules = match (&self.sync_rules, &above.sync_rules) {
            (Some(rules), _) => Some(clone_rules(rules)),
            (None, Some(rules)) => Some(clone_rules(rules)),
            (None, None) => None,
        };
        let legacy_scripts = match self.legacy_scripts {
            Some(legacy) => Some(legacy),
            None => above.legacy_scripts,
        };
        let project_name = match (&self.project_name, &above.project_name) {
            (Some(name), _) => Some(name.clone()),
            (None, Some(name)) => Some(name.clone()),
            (None, None) => None,
        };
        Meta { ignore_globs, sync_rules, legacy_scripts, project_name }
    }
}

/// The configuration in force where a path is read.
#[derive(Debug)]
pub struct Context {
    /// Whether client and server scripts are told apart by their class
    /// rather than by a `RunContext` property.
    pub legacy_scripts: bool,
    /// The patterns of the paths that are left out.
    pub ignore_globs: Vec<String>,
    /// The rules that assign kinds to paths, the first that matches first.
    pub sync_rules: Vec<SyncRule>,
}

/// The kind that the first of the first `count` rules whose pattern matches
/// the path assigns.
pub open spec fn ruled_kind(rules: Seq<SyncRuleView>, path: Seq<char>, count: nat) -> Option<Middleware>
    decreases count,
{
    if count == 0 || count > rules.len() {
        None
    } else {
        match ruled_kind(rules, path, (count - 1) as nat) {
            Some(kind) => Some(kind),
            None => if glob_matches(rules[count - 1].pattern, path) {
                Some(rules[count - 1].kind)
            } else {
                None
            },
        }
    }
}

/// The kind of the file at `path`, of the name `name`: none for a path that
/// is left out; else the kind that the first matching rule assigns; else the
/// kind that the suffix of the name gives.
pub open spec fn file_kind(
    globs: Seq<Seq<char>>,
    rules: Seq<SyncRuleView>,
    path: Seq<char>,
    name: Seq<char>,
) -> Option<Middleware> {
    if any_matches(globs, path) {
        None
    } else {
        match ruled_kind(rules, path, rules.len()) {
            Some(kind) => Some(kind),
            None => kind_of(name),
        }
    }
}

/// Once the first rule that matches is found, it stays the first.
proof fn lemma_ruled_kind(rules: Seq<SyncRuleView>, path: Seq<char>, at: int, count: nat)
    requires
        0 <= at < count <= rules.len(),
        ruled_kind(rules, path, at as nat) is None,
        glob_matches(rules[at].pattern, path),
    ensures
        ruled_kind(rules, path, count) == Some(rules[at].kind),
    decreases count,
{
    if count > at + 1 {
        lemma_ruled_kind(rules, path, at, (count - 1) as nat);
    }
}

impl Context {
    /// The configuration of a project that uses, or does not use, the legacy
    /// script classes, leaves no path out and has no rules.
    pub fn new(legacy_scripts: bool) -> (context: Context)
        ensures
            context.legacy_scripts == legacy_scripts,
            context.ignore_globs@ == Seq::<String>::empty(),
            context.sync_rules@ == Seq::<SyncRule>::empty(),
    {
        Context { legacy_scripts, ignore_globs: Vec::new(), sync_rules: Vec::new() }
    }

    /// What is in force where `meta` is the configuration: what it sets, the
    /// modern script convention where it sets none, and nothing left out and
    /// no rules where it sets none.
    pub fn from_meta(meta: &Meta) -> (context: Context)
        ensures
            context.legacy_scripts == (meta@.legacy_scripts == Some(true)),
            context.ignore_globs.deep_view() == match meta@.ignore_globs {
                Some(globs) => globs,
                None => Seq::empty(),
            },
            rule_views(context.sync_rules@) == match meta@.sync_rules {
                Some(rules) => rules,
                None => Seq::empty(),
            },
    {
        let legacy_scripts = match meta.legacy_scripts {
            Some(legacy) => legacy,
            None => false,
        };
        let ignore_globs = match &meta.ignore_globs {
            Some(globs) => clone_strings(globs),
            None => Vec::new(),
        };
        let sync_rules = match &meta.sync_rules {
            Some(rules) => clone_rules(rules),
            None => Vec::new(),
        };
        assert(meta.ignore_globs is None ==> ignore_globs.deep_view() =~= Seq::<Seq<char>>::empty());
        assert(meta.sync_rules is None ==> rule_views(sync_rules@) =~= Seq::<SyncRuleView>::empty());
        Context { legacy_scripts, ignore_globs, sync_rules }
    }

    /// The configuration with the patterns of the paths to leave out replaced.
    pub fn with_ignore_globs(self, ignore_globs: Vec<String>) -> (context: Context)
        ensures
            context.legacy_scripts == self.legacy_scripts,
            context.ignore_globs == ignore_globs,
            context.sync_rules == self.sync_rules,
    {
        Context { legacy_scripts: self.legacy_scripts, ignore_globs, sync_rules: self.sync_rules }
    }

    /// The configuration with the rules replaced.
    pub fn with_sync_rules(self, sync_rules: Vec<SyncRule>) -> (context: Context)
        ensures
            context.legacy_scripts == self.legacy_scripts,
            context.ignore_globs == self.ignore_globs,
            context.sync_rules == sync_rules,
    {
        Context { legacy_scripts: self.legacy_scripts, ignore_globs: self.ignore_globs, sync_rules }
    }

    /// Whether scripts follow the legacy convention.
    pub fn use_legacy_scripts(&self) -> (legacy: bool)
        ensures
            legacy == self.legacy_scripts,
    {
        self.legacy_scripts
    }

    /// Whether `path` is left out: whether one of the patterns matches it.
    pub fn is_ignored(&self, path: &str) -> (ignored: bool)
        ensures
            ignored == any_matches(self.ignore_globs.deep_view(), path@),
    {
        matches_any(&self.ignore_globs, path)
    }

    /// The kind of the file at `path`, of the name `name`, if it is read.
    pub fn kind_of_file(&self, path: &str, name: &str) -> (kind: Option<Middleware>)
        ensures
            kind == file_kind(self.ignore_globs.deep_view(), rule_views(self.sync_rules@), path@, name@),
    {
        if self.is_ignored(path) {
            return None;
        }
        let ghost rules = rule_views(self.sync_rules@);
        let mut i: usize = 0;
        while i < self.sync_rules.len()
            invariant
                i <= self.sync_rules@.len(),
                !any_matches(self.ignore_globs.deep_view(), path@),
                rules == rule_views(self.sync_rules@),
                ruled_kind(rules, path@, i as nat) is None,
            decreases self.sync_rules@.len() - i,
        {
            assert(rules[i as int] == self.sync_rules@[i as int]@);
            if matches_glob(self.sync_rules[i].pattern.as_str(), path) {
                proof {
                    lemma_ruled_kind(rules, path@, i as int, rules.len());
                }
                return Some(self.sync_rules[i].kind);
            }
            i += 1;
        }
        classify(name)
    }
}

} // verus!
