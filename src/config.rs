use vstd::prelude::*;
use crate::keys::SourceCode;

verus! {

/// The platform code of the `A` key.
pub const KEY_A: u16 = 30;

/// What the configuration declares about the source keys.
pub struct Cfg {
    /// The keys the engine intercepts; events of any other key go to the
    /// operating system untouched. Each key is listed once.
    pub mapped_keys: Vec<SourceCode>,
    /// The declared source keys, in the order that fixes their indices.
    pub src_keymap: Vec<SourceCode>,
}

impl Cfg {
    /// A configuration that intercepts the `A` key and declares no source keys yet.
    pub fn new() -> (r: Cfg)
        ensures
            r.mapped_keys@ == seq![SourceCode(KEY_A)],
            r.src_keymap@.len() == 0,
    {
        let mut mapped_keys: Vec<SourceCode> = Vec::new();
        mapped_keys.push(SourceCode(KEY_A));
        let src_keymap: Vec<SourceCode> = Vec::new();
        Cfg { mapped_keys, src_keymap }
    }
}

} // verus!
