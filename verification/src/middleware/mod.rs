//! Reading paths into snapshots, and writing instances back, by file kind.

use vstd::prelude::*;
use crate::text::{ends_with, has_suffix, strip_suffix};
use crate::util::{stem, stem_of};

pub mod data;
pub mod dir;
pub mod luau;
pub mod model;
pub mod string_value;

verus! {

/// The kinds of path that are read into instances.
#[derive(Debug, Clone, Copy, PartialEq, Eq, Structural)]
pub enum Middleware {
    /// A directory: a container of what it holds.
    Dir,
    /// A script that runs on the server.
    ServerScript,
    /// A script that runs on the client.
    ClientScript,
    /// A script that other scripts load.
    ModuleScript,
    /// A data file beside a directory or a script, with class and properties.
    Data,
    /// A model file in the binary format.
    BinaryModel,
    /// A model file in the XML format.
    XmlModel,
    /// A localization table.
    LocalizationTable,
    /// A file whose text becomes a `StringValue`.
    StringValue,
}

impl Middleware {
    /// The suffix by which a file of this kind is known; a directory and the
    /// kinds that only a sync rule assigns have none.
    pub open spec fn suffix(self) -> Option<Seq<char>> {
        match self {
            Middleware::ServerScript => Some(".server.luau"@),
            Middleware::ClientScript => Some(".client.luau"@),
            Middleware::ModuleScript => Some(".luau"@),
            Middleware::Data => Some(".meta.json"@),
            Middleware::XmlModel => Some(".rbxmx"@),
            Middleware::BinaryModel => Some(".rbxm"@),
            _ => None,
        }
    }
}

/// The kind of the file of the given name: the first, of server script,
/// client script, module script, data file, XML model and binary model, with
/// whose suffix the name ends.
pub open spec fn kind_of(name: Seq<char>) -> Option<Middleware> {
    if has_suffix(name, ".server.luau"@) {
        Some(Middleware::ServerScript)
    } else if has_suffix(name, ".client.luau"@) {
        Some(Middleware::ClientScript)
    } else if has_suffix(name, ".luau"@) {
        Some(Middleware::ModuleScript)
    } else if has_suffix(name, ".meta.json"@) {
        Some(Middleware::Data)
    } else if has_suffix(name, ".rbxmx"@) {
        Some(Middleware::XmlModel)
    } else if has_suffix(name, ".rbxm"@) {
        Some(Middleware::BinaryModel)
    } else {
        None
    }
}

/// The name of the instance that the file of the given name is read into:
/// the name of the file without the suffix of its kind.
pub open spec fn instance_name_of(name: Seq<char>) -> Option<Seq<char>> {
    match kind_of(name) {
        Some(kind) => Some(name.subrange(0, name.len() - kind.suffix()->0.len())),
        None => None,
    }
}

/// The kind of the file of the given name, if it is of a kind that is read.
pub fn classify(name: &str) -> (kind: Option<Middleware>)
    ensures
        kind == kind_of(name@),
{
    if ends_with(name, ".server.luau") {
        Some(Middleware::ServerScript)
    } else if ends_with(name, ".client.luau") {
        Some(Middleware::ClientScript)
    } else if ends_with(name, ".luau") {
        Some(Middleware::ModuleScript)
    } else if ends_with(name, ".meta.json") {
        Some(Middleware::Data)
    } else if ends_with(name, ".rbxmx") {
        Some(Middleware::XmlModel)
    } else if ends_with(name, ".rbxm") {
        Some(Middleware::BinaryModel)
    } else {
        None
    }
}

/// The name of the instance that the file of the given name is read into,
/// if the file is of a kind that is read.
pub fn instance_name(name: &str) -> (instance: Option<&str>)
    ensures
        match instance {
            Some(stem) => instance_name_of(name@) == Some(stem@),
            None => instance_name_of(name@) is None,
        },
{
    let suffix = match classify(name) {
        Some(Middleware::ServerScript) => ".server.luau",
        Some(Middleware::ClientScript) => ".client.luau",
        Some(Middleware::ModuleScript) => ".luau",
        Some(Middleware::Data) => ".meta.json",
        Some(Middleware::XmlModel) => ".rbxmx",
        Some(Middleware::BinaryModel) => ".rbxm",
        _ => {
            return None;
        },
    };
    strip_suffix(name, suffix)
}

/// The name of the instance that a file is read into, whatever its kind:
/// the name of the file without the suffix of its kind, or else its stem.
pub fn named_after(name: &str) -> (instance: &str)
    ensures
        instance@ == match instance_name_of(name@) {
            Some(short) => short,
            None => stem_of(name@),
        },
{
    match instance_name(name) {
        Some(short) => short,
        None => stem(name),
    }
}

} // verus!
