//! The ways in which an edit can fail.

use vstd::prelude::*;

verus! {

/// Why an edit was refused. A refused edit leaves the imports and exports
/// of the graph as they were.
#[derive(Clone, Copy, Debug, PartialEq, Eq, Structural)]
pub enum EditError {
    /// The package, or the donor, could not be opened. Told by the caller
    /// that reads packages; no function of this crate returns it.
    InputNotFound,
    /// The package could not be read as a package. Told by the caller.
    CodecParseError,
    /// The package could not be written. Told by the caller.
    CodecWriteError,
    /// No import carries the name that was to be renamed.
    ImportNotFound,
    /// The selected property list holds no property of the wanted name and kind.
    PropertyNotFound,
    /// The struct segment of a property path names no struct property.
    StructNotFound,
    /// The graph has no level export named `PersistentLevel`.
    LevelRootNotFound,
    /// A property edit is not of the form `index.field[.field]=value`.
    MalformedExpression,
    /// A subgraph holds a property of a kind that cannot be carried over.
    UnsupportedPropertyKind,
    /// The table of old and new indices cannot be built or applied.
    RemapConsistencyError,
    /// A selector names no export.
    AmbiguousRootSelector,
}

impl EditError {
    /// Whether the error ends a run of edits. A renaming that finds no
    /// import is told and passed over; every other error ends the run before
    /// anything is written.
    pub open spec fn spec_is_fatal(&self) -> bool {
        !(self is ImportNotFound)
    }

    /// Whether the error ends a run of edits.
    pub fn is_fatal(&self) -> (fatal: bool)
        ensures
            fatal == self.spec_is_fatal(),
    {
        match self {
            EditError::ImportNotFound => false,
            _ => true,
        }
    }

    /// A short sentence for each error.
    pub fn message(&self) -> (text: &'static str)
        ensures
            text@ == self.spec_message()@,
    {
        match self {
            EditError::InputNotFound => "input not found or unreadable",
            EditError::CodecParseError => "package could not be read",
            EditError::CodecWriteError => "package could not be written",
            EditError::ImportNotFound => "import not found",
            EditError::PropertyNotFound => "property not found",
            EditError::StructNotFound => "struct property not found",
            EditError::LevelRootNotFound => "level root not found",
            EditError::MalformedExpression => "malformed expression",
            EditError::UnsupportedPropertyKind => "unsupported property kind",
            EditError::RemapConsistencyError => "inconsistent index remap",
            EditError::AmbiguousRootSelector => "selector matches no export",
        }
    }

    /// The sentence that [`EditError::message`] returns.
    pub open spec fn spec_message(&self) -> &'static str {
        match self {
            EditError::InputNotFound => "input not found or unreadable",
            EditError::CodecParseError => "package could not be read",
            EditError::CodecWriteError => "package could not be written",
            EditError::ImportNotFound => "import not found",
            EditError::PropertyNotFound => "property not found",
            EditError::StructNotFound => "struct property not found",
            EditError::LevelRootNotFound => "level root not found",
            EditError::MalformedExpression => "malformed expression",
            EditError::UnsupportedPropertyKind => "unsupported property kind",
            EditError::RemapConsistencyError => "inconsistent index remap",
            EditError::AmbiguousRootSelector => "selector matches no export",
        }
    }
}

} // verus!
