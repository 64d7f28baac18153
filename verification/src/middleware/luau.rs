//! Script files: reading a source text into a script instance, and taking
//! the source back out of an instance's properties.

use vstd::prelude::*;
use crate::meta::Context;
use crate::middleware::Middleware;
use crate::snapshot::{Snapshot, SnapshotView};
use crate::value::{Properties, Variant, VariantView};

verus! {

/// Where a script runs.
#[derive(Debug, Clone, Copy, PartialEq, Eq, Structural)]
pub enum ScriptType {
    Server,
    Client,
    Module,
}

impl ScriptType {
    /// The script type that a kind of script file stands for.
    pub open spec fn of(middleware: Middleware) -> Option<ScriptType> {
        match middleware {
            Middleware::ServerScript => Some(ScriptType::Server),
            Middleware::ClientScript => Some(ScriptType::Client),
            Middleware::ModuleScript => Some(ScriptType::Module),
            _ => None,
        }
    }

    /// The script type of one of the three kinds of script file.
    pub fn from(middleware: Middleware) -> (script_type: ScriptType)
        requires
            ScriptType::of(middleware) is Some,
        ensures
            Some(script_type) == ScriptType::of(middleware),
    {
        match middleware {
            Middleware::ServerScript => ScriptType::Server,
            Middleware::ClientScript => ScriptType::Client,
            _ => ScriptType::Module,
        }
    }

    /// The script type of a kind of file, if it is a kind of script file.
    pub fn try_from(middleware: Middleware) -> (script_type: Option<ScriptType>)
        ensures
            script_type == ScriptType::of(middleware),
    {
        match middleware {
            Middleware::ServerScript | Middleware::ClientScript | Middleware::ModuleScript => Some(
                ScriptType::from(middleware),
            ),
            _ => None,
        }
    }
}

/// The class of a script of type `script_type`, under the legacy convention or the modern one.
pub open spec fn script_class(legacy: bool, script_type: ScriptType) -> Seq<char> {
    match script_type {
        ScriptType::Server => "Script"@,
        ScriptType::Client => if legacy {
            "LocalScript"@
        } else {
            "Script"@
        },
        ScriptType::Module => "ModuleScript"@,
    }
}

/// The number of the `RunContext` enum item that a script gets, if it gets one.
pub open spec fn script_run_context(legacy: bool, script_type: ScriptType) -> Option<u32> {
    match script_type {
        ScriptType::Server => if legacy {
            Some(0u32)
        } else {
            Some(1u32)
        },
        ScriptType::Client => if legacy {
            None
        } else {
            Some(2u32)
        },
        ScriptType::Module => None,
    }
}

/// The properties of a script read from `source`: the source, and the run
/// context where the script gets one.
pub open spec fn script_properties(legacy: bool, script_type: ScriptType, source: Seq<char>) -> Map<
    Seq<char>,
    VariantView,
> {
    let with_source = map!["Source"@ => VariantView::String(source)];
    match script_run_context(legacy, script_type) {
        Some(item) => with_source.insert("RunContext"@, VariantView::Enum(item)),
        None => with_source,
    }
}

/// The snapshot of a script read from `source`: its class and properties,
/// with nothing else set.
pub open spec fn script_snapshot(legacy: bool, script_type: ScriptType, source: Seq<char>) -> SnapshotView {
    SnapshotView {
        id: None,
        name: Seq::empty(),
        class: script_class(legacy, script_type),
        properties: script_properties(legacy, script_type, source),
        children: Seq::empty(),
        paths: Seq::empty(),
    }
}

/// The source that writing `properties` back puts into the script file: the
/// `Source` property, where it is a string.
pub open spec fn written_source(properties: Map<Seq<char>, VariantView>) -> Option<Seq<char>> {
    if properties.contains_key("Source"@) {
        match properties["Source"@] {
            VariantView::String(source) => Some(source),
            _ => None,
        }
    } else {
        None
    }
}

/// The snapshot of the script whose text is `source`.
pub fn read_luau(source: String, context: &Context, script_type: ScriptType) -> (snapshot: Snapshot)
    ensures
        snapshot.wf(),
        snapshot@ == script_snapshot(context.legacy_scripts, script_type, source@),
{
    let legacy = context.use_legacy_scripts();
    let (class_name, run_context) = match script_type {
        ScriptType::Server => ("Script", if legacy {
            Some(Variant::Enum(0))
        } else {
            Some(Variant::Enum(1))
        }),
        ScriptType::Client => if legacy {
            ("LocalScript", None)
        } else {
            ("Script", Some(Variant::Enum(2)))
        },
        ScriptType::Module => ("ModuleScript", None),
    };
    let mut snapshot = Snapshot::new().with_class(class_name);
    let mut properties = Properties::new();
    if let Some(run_context) = run_context {
        properties.insert("RunContext".to_owned(), run_context);
    }
    let ghost text = source@;
    properties.insert("Source".to_owned(), Variant::String(source));
    proof {
        lemma_names_differ();
        assert(properties@ =~= script_properties(legacy, script_type, text));
    }
    snapshot.set_properties(properties);
    snapshot
}

/// Takes the source out of the properties of a script. The source is to be
/// written to the script's file, where the `Source` property was a string;
/// the other properties are returned for the data file beside it.
pub fn write_luau(properties: Properties) -> (written: (Option<String>, Properties))
    requires
        properties.wf(),
    ensures
        written.1.wf(),
        written.1@ == properties@.remove("Source"@),
        match written.0 {
            Some(source) => written_source(properties@) == Some(source@),
            None => written_source(properties@) is None,
        },
{
    let mut properties = properties;
    match properties.remove("Source") {
        Some(Variant::String(value)) => (Some(value), properties),
        _ => (None, properties),
    }
}

/// The names of the two properties of a script differ.
pub proof fn lemma_names_differ()
    ensures
        "Source"@ != "RunContext"@,
{
    reveal_strlit("Source");
    reveal_strlit("RunContext");
    assert("Source"@.len() != "RunContext"@.len());
}

/// Round trip of a script. Writing back the properties of a script that was
/// read from `source` gives `source` to write, leaves no other property than
/// the run context for the data file, and reading what was written gives the
/// snapshot that was written back.
pub proof fn lemma_script_round_trip(legacy: bool, script_type: ScriptType, source: Seq<char>)
    ensures
        written_source(script_properties(legacy, script_type, source)) == Some(source),
        script_snapshot(
            legacy,
            script_type,
            written_source(script_properties(legacy, script_type, source))->0,
        ) == script_snapshot(legacy, script_type, source),
        script_properties(legacy, script_type, source).remove("Source"@) == match script_run_context(
            legacy,
            script_type,
        ) {
            Some(item) => map!["RunContext"@ => VariantView::Enum(item)],
            None => Map::<Seq<char>, VariantView>::empty(),
        },
{
    lemma_names_differ();
    let properties = script_properties(legacy, script_type, source);
    assert(properties.contains_key("Source"@));
    assert(properties["Source"@] == VariantView::String(source));
    match script_run_context(legacy, script_type) {
        Some(item) => {
            assert(properties.remove("Source"@) =~= map!["RunContext"@ => VariantView::Enum(item)]);
        },
        None => {
            assert(properties.remove("Source"@) =~= Map::<Seq<char>, VariantView>::empty());
        },
    }
}

} // verus!
