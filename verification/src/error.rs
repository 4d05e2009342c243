//! The ways in which an operation on a layer fails.
use vstd::prelude::*;

verus! {

/// Why an operation on a layer failed.
#[derive(Clone, Copy, Debug, PartialEq, Eq, Structural)]
pub enum LayerError {
    /// The storage under the layer failed or ended early. The operation may
    /// be tried again.
    Io,
    /// The bytes of the file are no image layer, or not the one expected.
    /// The file should be set aside.
    Format,
    /// A writer was given a key outside the key range it was made for.
    OutOfRange,
    /// A file name does not have the form of an image layer's name.
    Parse,
}

} // verus!
