use vstd::prelude::*;
use crate::action::{Action, valid_action};
use crate::error::Error;
use crate::keys::SourceCode;

verus! {

/// A validated, immutable table of layers over a fixed sequence of source keys.
pub struct Keymap {
    src: Vec<SourceCode>,
    layers: Vec<Vec<Action>>,
}

pub open spec fn no_duplicates(s: Seq<SourceCode>) -> bool {
    forall|i: int, j: int| 0 <= i < s.len() && 0 <= j < s.len() && i != j ==> s[i] != s[j]
}

pub open spec fn layers_sized(layers: Seq<Seq<Action>>, n: nat) -> bool {
    forall|l: int| 0 <= l < layers.len() ==> (#[trigger] layers[l]).len() == n
}

pub open spec fn actions_valid(layers: Seq<Seq<Action>>) -> bool {
    forall|l: int, i: int|
        0 <= l < layers.len() && 0 <= i < layers[l].len() ==> valid_action(#[trigger] layers[l][i])
}

/// The outcome of building a keymap: the first rule broken, in this order,
/// or success.
pub open spec fn config_outcome(src: Seq<SourceCode>, layers: Seq<Seq<Action>>) -> Result<(), Error> {
    if !no_duplicates(src) {
        Err(Error::DuplicateSourceKey)
    } else if layers.len() == 0 {
        Err(Error::MissingBaseLayer)
    } else if !layers_sized(layers, src.len()) {
        Err(Error::LayerLengthMismatch)
    } else if !actions_valid(layers) {
        Err(Error::InvalidAction)
    } else {
        Ok(())
    }
}

pub open spec fn layers_view(layers: Seq<Vec<Action>>) -> Seq<Seq<Action>> {
    layers.map_values(|l: Vec<Action>| l@)
}

/// The mathematical content of a keymap.
pub struct KeymapView {
    pub src: Seq<SourceCode>,
    pub layers: Seq<Seq<Action>>,
}

impl KeymapView {
    pub open spec fn wf(self) -> bool {
        &&& self.src.len() <= usize::MAX
        &&& config_outcome(self.src, self.layers) == Ok::<(), Error>(())
    }

    /// Whether `c` is one of the mapped source keys.
    pub open spec fn is_mapped(self, c: SourceCode) -> bool {
        self.src.contains(c)
    }

    /// The action of source index `i` on layer `l`.
    pub open spec fn action(self, l: int, i: int) -> Action {
        self.layers[l][i]
    }
}

impl View for Keymap {
    type V = KeymapView;

    closed spec fn view(&self) -> KeymapView {
        KeymapView { src: self.src@, layers: layers_view(self.layers@) }
    }
}

impl Keymap {
    pub open spec fn wf(&self) -> bool {
        self@.wf()
    }

    /// Builds a keymap from the source keys, which fix the index of each key,
    /// and the layers, base layer first.
    pub fn new(src: Vec<SourceCode>, layers: Vec<Vec<Action>>) -> (r: Result<Keymap, Error>)
        ensures
            match r {
                Ok(k) => config_outcome(src@, layers_view(layers@)) == Ok::<(), Error>(())
                    && k@ == (KeymapView { src: src@, layers: layers_view(layers@) }),
                Err(e) => config_outcome(src@, layers_view(layers@)) == Err::<(), Error>(e),
            },
    {
        let ghost lv = layers_view(layers@);
        let n = src.len();
        let mut i: usize = 0;
        while i < n
            invariant
                n == src@.len(),
                forall|a: int, b: int| 0 <= a < i && 0 <= b < n && a != b ==> src@[a] != src@[b],
            decreases n - i,
        {
            let mut j: usize = 0;
            while j < n
                invariant
                    i < n,
                    n == src@.len(),
                    forall|a: int, b: int| 0 <= a < i && 0 <= b < n && a != b ==> src@[a] != src@[b],
                    forall|b: int| 0 <= b < j && i != b ==> src@[i as int] != src@[b],
                decreases n - j,
            {
                if j != i && src[i] == src[j] {
                    assert(!no_duplicates(src@));
                    return Err(Error::DuplicateSourceKey);
                }
                j += 1;
            }
            i += 1;
        }
        if layers.len() == 0 {
            return Err(Error::MissingBaseLayer);
        }
        let mut l: usize = 0;
        while l < layers.len()
            invariant
                lv == layers_view(layers@),
                no_duplicates(src@),
                n == src@.len(),
                lv.len() > 0,
                forall|a: int| 0 <= a < l ==> (#[trigger] lv[a]).len() == n,
            decreases layers.len() - l,
        {
            assert(lv[l as int] == layers@[l as int]@);
            if layers[l].len() != n {
                assert(!layers_sized(lv, n as nat));
                return Err(Error::LayerLengthMismatch);
            }
            l += 1;
        }
        l = 0;
        while l < layers.len()
            invariant
                lv == layers_view(layers@),
                no_duplicates(src@),
                n == src@.len(),
                lv.len() > 0,
                layers_sized(lv, n as nat),
                forall|a: int, b: int| 0 <= a < l && 0 <= b < lv[a].len() ==> valid_action(#[trigger] lv[a][b]),
            decreases layers.len() - l,
        {
            let mut x: usize = 0;
            while x < n
                invariant
                    l < layers.len(),
                    lv == layers_view(layers@),
                    no_duplicates(src@),
                    n == src@.len(),
                    lv.len() > 0,
                    layers_sized(lv, n as nat),
                    forall|a: int, b: int| 0 <= a < l && 0 <= b < lv[a].len() ==> valid_action(#[trigger] lv[a][b]),
                    forall|b: int| 0 <= b < x ==> valid_action(#[trigger] lv[l as int][b]),
                decreases n - x,
            {
                assert(lv[l as int] == layers@[l as int]@);
                if !layers[l][x].is_valid() {
                    assert(!actions_valid(lv));
                    return Err(Error::InvalidAction);
                }
                x += 1;
            }
            l += 1;
        }
        Ok(Keymap { src, layers })
    }

    /// The number of source keys.
    pub fn len(&self) -> (r: usize)
        ensures
            r == self@.src.len(),
    {
        self.src.len()
    }

    /// The number of layers.
    pub fn layer_count(&self) -> (r: usize)
        ensures
            r == self@.layers.len(),
    {
        self.layers.len()
    }

    /// The source keys, in index order.
    pub fn source_keys(&self) -> (r: &Vec<SourceCode>)
        ensures
            r@ == self@.src,
    {
        &self.src
    }

    /// The dense index of a source key.
    pub fn index_of(&self, code: SourceCode) -> (r: Result<usize, Error>)
        requires
            self.wf(),
        ensures
            match r {
                Ok(i) => i < self@.src.len() && self@.src[i as int] == code,
                Err(e) => e == Error::UnmappedKey && !self@.is_mapped(code),
            },
    {
        let mut i: usize = 0;
        while i < self.src.len()
            invariant
                forall|a: int| 0 <= a < i ==> self.src@[a] != code,
            decreases self.src.len() - i,
        {
            if self.src[i] == code {
                return Ok(i);
            }
            i += 1;
        }
        Err(Error::UnmappedKey)
    }

    /// Whether the engine intercepts `code`.
    pub fn is_mapped(&self, code: SourceCode) -> (r: bool)
        requires
            self.wf(),
        ensures
            r == self@.is_mapped(code),
    {
        match self.index_of(code) {
            Ok(_) => true,
            Err(_) => false,
        }
    }

    /// The layer at `l`.
    pub fn layer_for(&self, l: usize) -> (r: Result<&Vec<Action>, Error>)
        ensures
            match r {
                Ok(v) => l < self@.layers.len() && v@ == self@.layers[l as int],
                Err(e) => e == Error::LayerOutOfRange && l >= self@.layers.len(),
            },
    {
        if l < self.layers.len() {
            Ok(&self.layers[l])
        } else {
            Err(Error::LayerOutOfRange)
        }
    }

    /// The action of source index `i` on layer `l`.
    pub fn action_at(&self, l: usize, i: usize) -> (r: Result<&Action, Error>)
        requires
            self.wf(),
        ensures
            match r {
                Ok(a) => l < self@.layers.len() && i < self@.src.len() && *a == self@.action(l as int, i as int),
                Err(e) => (e == Error::LayerOutOfRange && l >= self@.layers.len())
                    || (e == Error::UnmappedKey && l < self@.layers.len() && i >= self@.src.len()),
            },
    {
        let layer = self.layer_for(l)?;
        if i < layer.len() {
            Ok(&layer[i])
        } else {
            Err(Error::UnmappedKey)
        }
    }
}

} // verus!
