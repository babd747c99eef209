//! The ways in which settings fail to load or to save.

use vstd::prelude::*;

verus! {

/// Why settings could not be loaded or saved.
#[derive(Clone, Copy, Debug, PartialEq, Eq, Structural)]
pub enum ConfError {
    /// The document does not have the shape that the schema describes: a
    /// field is missing, or holds a value that its kind does not admit.
    DeserializationError,
    /// The document could not be opened, read or written.
    FileError,
}

} // verus!
