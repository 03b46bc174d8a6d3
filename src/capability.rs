use vstd::prelude::*;
use crate::action::{Action, emits};
use crate::keymap::{Keymap, KeymapView};
use crate::keys::{OutputCode, SourceCode};

verus! {

/// For each source index, every output code the index could ever emit, in
/// the order first met: layers in order, and a `HoldTap`'s tap before its hold.
pub type KeyOutputs = Vec<Vec<OutputCode>>;

/// `s` with `c` appended, unless `s` already holds it.
pub open spec fn add_unique(s: Seq<OutputCode>, c: OutputCode) -> Seq<OutputCode> {
    if s.contains(c) {
        s
    } else {
        s.push(c)
    }
}

/// `acc` extended with every code that `a` could emit.
pub open spec fn add_action(acc: Seq<OutputCode>, a: Action) -> Seq<OutputCode>
    decreases a,
{
    match a {
        Action::NoOp => acc,
        Action::Output(c) => add_unique(acc, c),
        Action::HoldTap { tap, hold, .. } => add_action(add_action(acc, *tap), *hold),
    }
}

/// The codes of source index `i` collected over the first `k` layers.
pub open spec fn caps_upto(layers: Seq<Seq<Action>>, i: int, k: nat) -> Seq<OutputCode>
    decreases k,
{
    if k == 0 {
        Seq::empty()
    } else {
        add_action(caps_upto(layers, i, (k - 1) as nat), layers[k - 1][i])
    }
}

/// The output capability map of a keymap.
pub open spec fn capabilities(k: KeymapView) -> Seq<Seq<OutputCode>> {
    Seq::new(k.src.len(), |i: int| caps_upto(k.layers, i, k.layers.len()))
}

/// Whether some layer's action at source index `i` could emit `c`.
pub open spec fn emits_at(k: KeymapView, i: int, c: OutputCode) -> bool {
    exists|l: int| 0 <= l < k.layers.len() && #[trigger] emits(k.layers[l][i], c)
}

proof fn lemma_add_action(acc: Seq<OutputCode>, a: Action)
    requires
        acc.no_duplicates(),
    ensures
        add_action(acc, a).no_duplicates(),
        forall|c: OutputCode| #[trigger] add_action(acc, a).contains(c) <==> acc.contains(c) || emits(a, c),
    decreases a,
{
    match a {
        Action::NoOp => {},
        Action::Output(x) => {
            if !acc.contains(x) {
                assert forall|c: OutputCode| #[trigger] acc.push(x).contains(c) <==> acc.contains(c) || c == x by {
                    if acc.push(x).contains(c) {
                        let j = choose|j: int| 0 <= j < acc.push(x).len() && acc.push(x)[j] == c;
                        if j < acc.len() {
                            assert(acc[j] == c);
                        }
                    }
                    if c == x {
                        assert(acc.push(x)[acc.len() as int] == x);
                    }
                    if acc.contains(c) {
                        let j = choose|j: int| 0 <= j < acc.len() && acc[j] == c;
                        assert(acc.push(x)[j] == c);
                    }
                }
            }
        },
        Action::HoldTap { tap, hold, .. } => {
            lemma_add_action(acc, *tap);
            lemma_add_action(add_action(acc, *tap), *hold);
        },
    }
}

proof fn lemma_caps_upto(layers: Seq<Seq<Action>>, i: int, k: nat)
    requires
        k <= layers.len(),
    ensures
        caps_upto(layers, i, k).no_duplicates(),
        forall|c: OutputCode| #[trigger] caps_upto(layers, i, k).contains(c)
            <==> exists|l: int| 0 <= l < k && #[trigger] emits(layers[l][i], c),
    decreases k,
{
    if k > 0 {
        let prev = caps_upto(layers, i, (k - 1) as nat);
        lemma_caps_upto(layers, i, (k - 1) as nat);
        lemma_add_action(prev, layers[k - 1][i]);
        assert forall|c: OutputCode| #[trigger] caps_upto(layers, i, k).contains(c)
            <==> exists|l: int| 0 <= l < k && #[trigger] emits(layers[l][i], c) by {
            if emits(layers[k - 1][i], c) {
                assert(0 <= k - 1 < k);
            }
            if exists|l: int| 0 <= l < k && #[trigger] emits(layers[l][i], c) {
                let l = choose|l: int| 0 <= l < k && #[trigger] emits(layers[l][i], c);
                if l < k - 1 {
                    assert(prev.contains(c));
                }
            }
        }
    }
}

/// The capability map is exact: a code is listed for a source index if and
/// only if some action at that index, on some layer and along some branch,
/// could emit it; and no code is listed twice.
pub proof fn lemma_capabilities_exact(k: KeymapView, i: int, c: OutputCode)
    requires
        0 <= i < k.src.len(),
    ensures
        capabilities(k)[i].no_duplicates(),
        capabilities(k)[i].contains(c) <==> emits_at(k, i, c),
{
    lemma_caps_upto(k.layers, i, k.layers.len());
}

/// Computing the capability map twice from one keymap gives the same map.
pub proof fn lemma_capabilities_idempotent(k1: KeymapView, k2: KeymapView)
    requires
        k1 == k2,
    ensures
        capabilities(k1) == capabilities(k2),
{
}

/// Adds `kc` to the outputs of one source index, unless it is there already.
fn add_kc_output(outs: &mut Vec<OutputCode>, kc: OutputCode)
    ensures
        final(outs)@ == add_unique(old(outs)@, kc),
{
    let mut j: usize = 0;
    while j < outs.len()
        invariant
            forall|a: int| 0 <= a < j ==> outs@[a] != kc,
        decreases outs.len() - j,
    {
        if outs[j] == kc {
            assert(outs@.contains(kc));
            return;
        }
        j += 1;
    }
    outs.push(kc);
}

/// Adds every code that `a` could emit to the outputs of one source index.
fn add_action_outputs(a: &Action, outs: &mut Vec<OutputCode>)
    ensures
        final(outs)@ == add_action(old(outs)@, *a),
    decreases a,
{
    match a {
        Action::NoOp => {},
        Action::Output(c) => add_kc_output(outs, *c),
        Action::HoldTap { tap, hold, .. } => {
            add_action_outputs(&**tap, outs);
            add_action_outputs(&**hold, outs);
        },
    }
}

/// Computes the output capability map: for each source index, the codes that
/// any layer's action at that index could emit, along either branch of a
/// `HoldTap`. An index with none gets an empty list.
pub fn create_key_outputs(keymap: &Keymap) -> (r: KeyOutputs)
    requires
        keymap.wf(),
    ensures
        r@.len() == capabilities(keymap@).len(),
        forall|i: int| 0 <= i < r@.len() ==> (#[trigger] r@[i])@ == capabilities(keymap@)[i],
{
    let n = keymap.len();
    let layer_count = keymap.layer_count();
    let mut outs: KeyOutputs = Vec::new();
    let mut i: usize = 0;
    while i < n
        invariant
            keymap.wf(),
            n == keymap@.src.len(),
            layer_count == keymap@.layers.len(),
            i <= n,
            outs@.len() == i,
            forall|a: int| 0 <= a < i ==> (#[trigger] outs@[a])@ == capabilities(keymap@)[a],
        decreases n - i,
    {
        let mut set: Vec<OutputCode> = Vec::new();
        let mut l: usize = 0;
        while l < layer_count
            invariant
                keymap.wf(),
                i < n,
                n == keymap@.src.len(),
                layer_count == keymap@.layers.len(),
                l <= layer_count,
                set@ == caps_upto(keymap@.layers, i as int, l as nat),
            decreases layer_count - l,
        {
            match keymap.action_at(l, i) {
                Ok(a) => add_action_outputs(a, &mut set),
                Err(_) => {},
            }
            l += 1;
        }
        outs.push(set);
        i += 1;
    }
    assert(capabilities(keymap@).len() == n);
    outs
}

/// Whether some source key has code `c`.
pub open spec fn has_code(src: Seq<SourceCode>, c: int) -> bool {
    exists|j: int| 0 <= j < src.len() && src[j].0 == c
}

/// A table, indexed by key code, of the keys that the keymap maps. It is just
/// long enough to hold the largest mapped code.
pub fn create_mapped_keys(keymap: &Keymap) -> (r: Vec<bool>)
    ensures
        forall|j: int| 0 <= j < keymap@.src.len() ==> (#[trigger] keymap@.src[j]).0 < r@.len(),
        r@.len() == 0 || has_code(keymap@.src, r@.len() - 1),
        forall|c: int| 0 <= c < r@.len() ==> (#[trigger] r@[c] <==> has_code(keymap@.src, c)),
{
    let src = keymap.source_keys();
    let mut len: usize = 0;
    let mut j: usize = 0;
    while j < src.len()
        invariant
            len <= 65536,
            forall|a: int| 0 <= a < j ==> (#[trigger] src@[a]).0 < len,
            len == 0 || has_code(src@, len - 1),
        decreases src.len() - j,
    {
        if src[j].0 as usize >= len {
            len = src[j].0 as usize + 1;
        }
        j += 1;
    }
    let mut table: Vec<bool> = Vec::new();
    while table.len() < len
        invariant
            table@.len() <= len,
            forall|c: int| 0 <= c < table@.len() ==> !#[trigger] table@[c],
        decreases len - table.len(),
    {
        table.push(false);
    }
    j = 0;
    while j < src.len()
        invariant
            j <= src@.len(),
            table@.len() == len,
            forall|a: int| 0 <= a < src@.len() ==> (#[trigger] src@[a]).0 < len,
            forall|c: int| 0 <= c < len ==> (#[trigger] table@[c] <==> exists|a: int| 0 <= a < j && src@[a].0 == c),
        decreases src.len() - j,
    {
        let c = src[j].0 as usize;
        table.set(c, true);
        assert forall|x: int| 0 <= x < len implies (#[trigger] table@[x] <==> exists|a: int| 0 <= a < j + 1 && src@[a].0 == x) by {
            if x == c {
                assert(src@[j as int].0 == x);
            }
        }
        j += 1;
    }
    assert forall|c: int| 0 <= c < table@.len() implies (#[trigger] table@[c] <==> has_code(keymap@.src, c)) by {
        if has_code(src@, c) {
            let a = choose|a: int| 0 <= a < src@.len() && src@[a].0 == c;
            assert(0 <= a < j && src@[a].0 == c);
        }
    }
    table
}

} // verus!
