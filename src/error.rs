use vstd::prelude::*;

verus! {

/// Why a keymap was refused, or why a request against it was dropped.
#[derive(Clone, Copy, Debug, PartialEq, Eq, Structural)]
pub enum Error {
    /// A layer's length differs from the number of source keys.
    LayerLengthMismatch,
    /// A source key is declared twice.
    DuplicateSourceKey,
    /// A `HoldTap` holds another `HoldTap`.
    InvalidAction,
    /// The keymap has no layers, so there is no base layer.
    MissingBaseLayer,
    /// A source key that the keymap does not map.
    UnmappedKey,
    /// A layer index past the last layer.
    LayerOutOfRange,
}

} // verus!
