use vstd::prelude::*;

verus! {

/// What the storage core reports instead of a result.
#[derive(Clone, Copy, Debug, PartialEq, Eq, Structural)]
pub enum Error {
    /// The arena had no room for a new node.
    ArenaOutOfSpace,
    /// The key to put is empty.
    EmptyKey,
    /// An equal key already holds a different value.
    PutConflict,
    /// A table's footer or index region cannot be read.
    MalformedSst,
}

} // verus!
