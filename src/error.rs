//! Why an operation fails.

use vstd::prelude::*;

verus! {

/// The rule of the entity grammar that a name breaks first.
#[derive(Debug, Clone, Copy, PartialEq, Eq, Structural)]
pub enum Violation {
    /// The name is shorter than its code.
    TooShort,
    /// A digit is missing where the code needs one.
    BadDigit,
    /// An area range does not start at a multiple of ten (`a0`).
    BadRangeStart,
    /// The code lacks its separator (`-` for areas, `.` for ids).
    MissingSeparator,
    /// An area range does not end at `a9` for the same leading digit.
    BadRangeEnd,
    /// The code is not followed by a title.
    MissingTitle,
    /// No space separates the code from the title.
    MissingSpace,
    /// The title is not safe as a file name.
    UnsafeTitle,
}

/// Why an operation on entities, an index or a system failed.
#[derive(Debug, Clone, Copy, PartialEq, Eq, Structural)]
pub enum Error {
    /// A name does not follow the entity grammar.
    Grammar(Violation),
    /// An index line is neither an area, a category nor an id.
    Unrecognized,
    /// The code is already present.
    Duplicate,
    /// A category without its area, or an id without its category.
    Orphan,
    /// The code to remove is not present.
    NotFound,
    /// The index file and the directory tree disagree.
    Desync,
    /// The file system refused an operation.
    Io,
}

} // verus!
