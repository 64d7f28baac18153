//! Small helpers on paths, class names and slices.

use vstd::prelude::*;
use vstd::std_specs::cmp::PartialEqSpec;
use vstd::string::StringExecFns;
use vstd::string::StrSliceExecFns;
use crate::text::str_eq;

verus! {

/// Whether `class` names one of the three script classes.
pub fn is_script(class: &str) -> (script: bool)
    ensures
        script == (class@ == "Script"@ || class@ == "LocalScript"@ || class@ == "ModuleScript"@),
{
    str_eq(class, "Script") || str_eq(class, "LocalScript") || str_eq(class, "ModuleScript")
}


/// The text of a path, owned.
pub fn path_to_string(path: &str) -> (text: String)
    ensures
        text@ == path@,
{
    path.to_owned()
}

/// The position of the first element of `slice` that equals `item`, for an
/// element type whose `==` is the one its specification gives.
pub fn get_index<T: PartialEq>(slice: &[T], item: &T) -> (index: Option<usize>)
    ensures
        T::obeys_eq_spec() ==> match index {
            Some(k) => k < slice@.len() && slice@[k as int].eq_spec(item)
                && forall|j: int| 0 <= j < k ==> !(#[trigger] slice@[j]).eq_spec(item),
            None => forall|j: int| 0 <= j < slice@.len() ==> !(#[trigger] slice@[j]).eq_spec(item),
        },
{
    let mut i: usize = 0;
    while i < slice.len()
        invariant
            i <= slice@.len(),
            T::obeys_eq_spec() ==> forall|j: int| 0 <= j < i ==> !(#[trigger] slice@[j]).eq_spec(item),
        decreases slice@.len() - i,
    {
        if slice[i] == *item {
            return Some(i);
        }
        i += 1;
    }
    None
}

/// The final component of a path, as `std::path::Path::file_name` gives it
/// on the platform that the library is built for; `None` where the path has
/// none, as when it ends in `..`.
pub uninterp spec fn path_file_name(path: Seq<char>) -> Option<Seq<char>>;

/// `std::path::Path::file_name` on the path that `path` spells. The result is
/// the final component of the path; it is a function of the text alone.
#[verifier::external_body]
fn file_name_of(path: &str) -> (name: Option<&str>)
    ensures
        match name {
            Some(n) => path_file_name(path@) == Some(n@),
            None => path_file_name(path@) is None,
        },
{
    std::path::Path::new(path).file_name().and_then(|name| name.to_str())
}

/// The path without its final component, as `std::path::Path::parent` gives
/// it on the platform that the library is built for; `None` where the path
/// ends in a root or is empty.
pub uninterp spec fn path_parent(path: Seq<char>) -> Option<Seq<char>>;

/// Whether `base` is a prefix of `path` by whole components, as
/// `std::path::Path::starts_with` decides it.
pub uninterp spec fn path_under(path: Seq<char>, base: Seq<char>) -> bool;

/// Whether a path is absolute, as `std::path::Path::is_absolute` decides it
/// on the platform that the library is built for.
pub uninterp spec fn path_absolute(path: Seq<char>) -> bool;

/// The path `relative` below `base`, as `std::path::Path::join` gives it.
pub uninterp spec fn path_joined(base: Seq<char>, relative: Seq<char>) -> Seq<char>;

/// A text without the white space at its start and end, as `str::trim` gives it.
pub uninterp spec fn trimmed(text: Seq<char>) -> Seq<char>;

/// `std::path::Path::parent` on the path that `path` spells: the path
/// without its final component, if there is one.
#[verifier::external_body]
pub(crate) fn parent_of(path: &str) -> (parent: Option<&str>)
    ensures
        match parent {
            Some(above) => path_parent(path@) == Some(above@),
            None => path_parent(path@) is None,
        },
{
    std::path::Path::new(path).parent().and_then(|above| above.to_str())
}

/// `std::path::Path::starts_with` on the paths that the two texts spell.
#[verifier::external_body]
pub(crate) fn is_under(path: &str, base: &str) -> (under: bool)
    ensures
        under == path_under(path@, base@),
{
    std::path::Path::new(path).starts_with(base)
}

/// `std::path::Path::is_absolute` on the path that `path` spells.
#[verifier::external_body]
fn is_absolute(path: &str) -> (absolute: bool)
    ensures
        absolute == path_absolute(path@),
{
    std::path::Path::new(path).is_absolute()
}

/// `std::path::Path::join` on the paths that the two texts spell. A path
/// made of two texts is a text.
#[verifier::external_body]
fn join(base: &str, relative: &str) -> (joined: String)
    ensures
        joined@ == path_joined(base@, relative@),
{
    std::path::Path::new(base).join(relative).to_string_lossy().into_owned()
}

/// `str::trim`: the text without leading and trailing white space.
#[verifier::external_body]
fn trim(text: &str) -> (inner: &str)
    ensures
        inner@ == trimmed(text@),
{
    text.trim()
}

/// The path made absolute: itself where it is absolute, else the path below
/// the current directory.
pub fn resolve_path(path: String, current_dir: &str) -> (resolved: String)
    ensures
        resolved@ == if path_absolute(path@) {
            path@
        } else {
            path_joined(current_dir@, path@)
        },
{
    if is_absolute(path.as_str()) {
        path
    } else {
        join(current_dir, path.as_str())
    }
}

/// The name of the user: what the version control system gave as the name,
/// without the white space around it, where it gave anything; else the name
/// that the system has for the user.
pub fn get_username(configured: Option<&str>, system: &str) -> (name: String)
    ensures
        name@ == match configured {
            Some(output) => trimmed(output@),
            None => system@,
        },
{
    match configured {
        Some(output) => trim(output).to_owned(),
        None => system.to_owned(),
    }
}

/// The position of the last dot among the first `count` characters of `name`.
pub open spec fn last_dot(name: Seq<char>, count: nat) -> Option<int>
    decreases count,
{
    if count == 0 || count > name.len() {
        None
    } else if name[count - 1] == '.' {
        Some(count - 1)
    } else {
        last_dot(name, (count - 1) as nat)
    }
}

/// The stem of a file name: the part before the last dot, or the whole name
/// where it has no dot or only one at its start.
pub open spec fn stem_of(name: Seq<char>) -> Seq<char> {
    match last_dot(name, name.len()) {
        Some(dot) => if dot == 0 {
            name
        } else {
            name.subrange(0, dot)
        },
        None => name,
    }
}

/// The extension of a file name: the part after the last dot, if there is a
/// dot that is not at the start of the name.
pub open spec fn extension_of(name: Seq<char>) -> Option<Seq<char>> {
    match last_dot(name, name.len()) {
        Some(dot) => if dot == 0 {
            None
        } else {
            Some(name.subrange(dot + 1, name.len() as int))
        },
        None => None,
    }
}

/// The stem of what is at a path: the whole name of a directory, the stem of
/// the name of anything else.
pub open spec fn file_stem_of(path: Seq<char>, is_dir: bool) -> Option<Seq<char>> {
    match path_file_name(path) {
        Some(name) => if is_dir {
            Some(name)
        } else {
            Some(stem_of(name))
        },
        None => None,
    }
}

/// The extension of what is at a path, empty where it has none: a directory
/// has none, a path without a final component has none.
pub open spec fn file_ext_of(path: Seq<char>, is_dir: bool) -> Seq<char> {
    if is_dir {
        Seq::empty()
    } else {
        match path_file_name(path) {
            Some(name) => match extension_of(name) {
                Some(extension) => extension,
                None => Seq::empty(),
            },
            None => Seq::empty(),
        }
    }
}

/// The position of the last dot of `name`.
fn find_last_dot(name: &str) -> (dot: Option<usize>)
    ensures
        match dot {
            Some(i) => last_dot(name@, name@.len()) == Some(i as int) && i < name@.len(),
            None => last_dot(name@, name@.len()) is None,
        },
{
    let mut i: usize = name.unicode_len();
    while i > 0
        invariant
            i <= name@.len(),
            last_dot(name@, name@.len()) == last_dot(name@, i as nat),
        decreases i,
    {
        if name.get_char(i - 1) == '.' {
            return Some(i - 1);
        }
        i -= 1;
    }
    None
}

/// The stem of a file name.
pub fn stem(name: &str) -> (stem: &str)
    ensures
        stem@ == stem_of(name@),
{
    match find_last_dot(name) {
        Some(dot) => if dot == 0 {
            name
        } else {
            name.substring_char(0, dot)
        },
        None => name,
    }
}

/// The final component of a path, if it has one.
pub fn file_name(path: &str) -> (name: Option<&str>)
    ensures
        match name {
            Some(n) => path_file_name(path@) == Some(n@),
            None => path_file_name(path@) is None,
        },
{
    match file_name_of(path) {
        Some(_) => Some(get_file_name(path)),
        None => None,
    }
}

/// The final component of a path that has one.
pub fn get_file_name(path: &str) -> (name: &str)
    requires
        path_file_name(path@) is Some,
    ensures
        Some(name@) == path_file_name(path@),
{
    match file_name_of(path) {
        Some(name) => name,
        None => path,
    }
}

/// The stem of what is at a path, if the path has a final component.
pub fn file_stem(path: &str, is_dir: bool) -> (stem: Option<&str>)
    ensures
        match stem {
            Some(s) => file_stem_of(path@, is_dir) == Some(s@),
            None => file_stem_of(path@, is_dir) is None,
        },
{
    match file_name_of(path) {
        Some(_) => Some(get_file_stem(path, is_dir)),
        None => None,
    }
}

/// The stem of what is at a path that has a final component. `is_dir` says
/// whether a directory is at the path.
pub fn get_file_stem(path: &str, is_dir: bool) -> (stem: &str)
    requires
        path_file_name(path@) is Some,
    ensures
        Some(stem@) == file_stem_of(path@, is_dir),
{
    let name = get_file_name(path);
    if is_dir {
        name
    } else {
        stem(name)
    }
}

/// The extension of what is at a path, empty where it has none. `is_dir`
/// says whether a directory is at the path.
pub fn get_file_ext(path: &str, is_dir: bool) -> (extension: &str)
    ensures
        extension@ == file_ext_of(path@, is_dir),
{
    proof {
        reveal_strlit("");
    }
    assert(""@ =~= Seq::<char>::empty());
    if is_dir {
        return "";
    }
    match file_name_of(path) {
        Some(name) => {
            let length = name.unicode_len();
            match find_last_dot(name) {
                Some(dot) => if dot == 0 {
                    ""
                } else {
                    name.substring_char(dot + 1, length)
                },
                None => "",
            }
        },
        None => "",
    }
}

/// Whether the reflection database that `rbx_reflection_database` bundles
/// tags the class `class` as a service; `None` where it has no such class.
pub uninterp spec fn reflected_service(class: Seq<char>) -> Option<bool>;

/// Looks `class` up in the database of `rbx_reflection_database::get` and
/// says whether its tags hold `ClassTag::Service`; `None` where the database
/// has no such class. The database is fixed when the crate is built.
#[verifier::external_body]
fn service_tag(class: &str) -> (tagged: Option<bool>)
    ensures
        tagged == reflected_service(class@),
{
    let descriptor = rbx_reflection_database::get().classes.get(class)?;
    Some(descriptor.tags.contains(&rbx_reflection::ClassTag::Service))
}

/// Whether `class` is the class of a service: the bundled database tags it
/// so, or it is one of the two containers of starter scripts.
pub open spec fn service_class(class: Seq<char>) -> bool {
    reflected_service(class) == Some(true) || class == "StarterPlayerScripts"@ || class
        == "StarterCharacterScripts"@
}

/// Whether a class with the given tag, or lack of one, counts as a service:
/// it is tagged so, or it is one of the two containers of starter scripts.
pub fn is_service_class(tagged: Option<bool>, class: &str) -> (service: bool)
    ensures
        service == (tagged == Some(true) || class@ == "StarterPlayerScripts"@ || class@
            == "StarterCharacterScripts"@),
{
    let has_tag = match tagged {
        Some(tag) => tag,
        None => false,
    };
    has_tag || str_eq(class, "StarterPlayerScripts") || str_eq(class, "StarterCharacterScripts")
}

/// Whether `class` is the class of a service.
pub fn is_service(class: &str) -> (service: bool)
    ensures
        service == service_class(class@),
{
    is_service_class(service_tag(class), class)
}

/// How much is logged.
#[derive(Debug, Clone, Copy, PartialEq, Eq, Structural)]
pub enum Verbosity {
    Off,
    Error,
    Warn,
    Info,
    Debug,
    Trace,
}

/// The verbosity that the value of the verbosity variable asks for: the one
/// it names, and `Error` where it is not set or names none.
pub open spec fn verbosity_of(value: Option<Seq<char>>) -> Verbosity {
    match value {
        Some(text) => if text == "OFF"@ {
            Verbosity::Off
        } else if text == "WARN"@ {
            Verbosity::Warn
        } else if text == "INFO"@ {
            Verbosity::Info
        } else if text == "DEBUG"@ {
            Verbosity::Debug
        } else if text == "TRACE"@ {
            Verbosity::Trace
        } else {
            Verbosity::Error
        },
        None => Verbosity::Error,
    }
}

/// The command-line flag that asks for a verbosity.
pub open spec fn flag_of(verbosity: Verbosity) -> Seq<char> {
    match verbosity {
        Verbosity::Off => "-q"@,
        Verbosity::Error => ""@,
        Verbosity::Warn => "-v"@,
        Verbosity::Info => "-vv"@,
        Verbosity::Debug => "-vvv"@,
        Verbosity::Trace => "-vvvv"@,
    }
}

/// The verbosity that the value of the verbosity variable asks for.
pub fn get_verbosity(value: Option<&str>) -> (verbosity: Verbosity)
    ensures
        verbosity == verbosity_of(
            match value {
                Some(text) => Some(text@),
                None => None,
            },
        ),
{
    match value {
        Some(text) => {
            if str_eq(text, "OFF") {
                Verbosity::Off
            } else if str_eq(text, "WARN") {
                Verbosity::Warn
            } else if str_eq(text, "INFO") {
                Verbosity::Info
            } else if str_eq(text, "DEBUG") {
                Verbosity::Debug
            } else if str_eq(text, "TRACE") {
                Verbosity::Trace
            } else {
                Verbosity::Error
            }
        },
        None => Verbosity::Error,
    }
}

/// The command-line flag for the verbosity that the value of the verbosity
/// variable asks for.
pub fn get_verbosity_flag(value: Option<&str>) -> (flag: String)
    ensures
        flag@ == flag_of(
            verbosity_of(
                match value {
                    Some(text) => Some(text@),
                    None => None,
                },
            ),
        ),
{
    let flag = match get_verbosity(value) {
        Verbosity::Off => "-q",
        Verbosity::Error => "",
        Verbosity::Warn => "-v",
        Verbosity::Info => "-vv",
        Verbosity::Debug => "-vvv",
        Verbosity::Trace => "-vvvv",
    };
    String::from_str(flag)
}

/// Whether questions are answered with yes without asking: whether the
/// variable for it is set.
pub fn get_yes(value: Option<&str>) -> (yes: bool)
    ensures
        yes == value.is_some(),
{
    value.is_some()
}

/// An error message with the description of what failed before it.
pub open spec fn described(description: Seq<char>, error: Seq<char>) -> Seq<char> {
    description + ": "@ + error
}

/// Puts a description before the messages of errors.
pub trait Desc<T> {
    /// The result with `description` before the message of its error.
    fn desc(self, description: &str) -> (result: Result<T, String>);
}

impl<T> Desc<T> for Result<T, String> {
    fn desc(self, description: &str) -> (result: Result<T, String>)
        ensures
            match (self, result) {
                (Ok(before), Ok(after)) => before == after,
                (Err(before), Err(after)) => after@ == described(description@, before@),
                _ => false,
            },
    {
        match self {
            Ok(value) => Ok(value),
            Err(error) => {
                let mut message = String::from_str(description);
                message.append(": ");
                message.append(error.as_str());
                Err(message)
            },
        }
    }
}

} // verus!
