use vstd::prelude::*;

verus! {

/// A physical key, identified by its platform key code.
#[derive(Clone, Copy, Debug, PartialEq, Eq, Structural, Hash)]
pub struct SourceCode(pub u16);

/// A key code emitted on the virtual output device.
#[derive(Clone, Copy, Debug, PartialEq, Eq, Structural, Hash)]
pub struct OutputCode(pub u16);

} // verus!
