//! Plain files that a rule reads as string values.

use vstd::prelude::*;
use crate::snapshot::{Snapshot, SnapshotView};
use crate::value::{Properties, Variant, VariantView};

verus! {

/// The snapshot of a file that is read as a string value: an instance of
/// the class `StringValue` whose `Value` is the text of the file.
pub open spec fn string_value_snapshot(text: Seq<char>) -> SnapshotView {
    SnapshotView {
        id: None,
        name: Seq::empty(),
        class: "StringValue"@,
        properties: map!["Value"@ => VariantView::String(text)],
        children: Seq::empty(),
        paths: Seq::empty(),
    }
}

/// The snapshot of the file with the text `text`, read as a string value.
pub fn read_string_value(text: String) -> (snapshot: Snapshot)
    ensures
        snapshot.wf(),
        snapshot@ == string_value_snapshot(text@),
{
    let ghost content = text@;
    let mut properties = Properties::new();
    properties.insert("Value".to_owned(), Variant::String(text));
    assert(properties@ =~= map!["Value"@ => VariantView::String(content)]);
    Snapshot::new().with_class("StringValue").with_properties(properties)
}

} // verus!
