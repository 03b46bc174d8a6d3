use vstd::prelude::*;
use crate::action::{Action, emits, immediate, resolve_immediate};
use crate::capability::{emits_at, capabilities, lemma_capabilities_exact};
use crate::error::Error;
use crate::keymap::{Keymap, KeymapView};
use crate::keys::{OutputCode, SourceCode};

verus! {

/// The resolution state of one source key.
#[derive(Clone, Copy, Debug, PartialEq, Eq)]
pub enum KeyState {
    /// Not pressed.
    Idle,
    /// Pressed on a `HoldTap`, not yet resolved. `tap` and `hold` are the
    /// codes of the two branches; the key resolves as hold at `deadline`.
    Pending { tap: Option<OutputCode>, hold: Option<OutputCode>, deadline: u64 },
    /// Pressed and resolved; the code that went down, if any.
    Held(Option<OutputCode>),
}

/// One emitted transition of an output code, caused by source key `source`
/// at time `time`.
#[derive(Clone, Copy, Debug, PartialEq, Eq, Structural)]
pub struct OutputEvent {
    pub source: SourceCode,
    pub code: OutputCode,
    pub pressed: bool,
    pub time: u64,
}

/// One thing that can happen to the engine.
#[derive(Clone, Copy, Debug, PartialEq, Eq)]
pub enum Input {
    /// A physical transition of a source key at `time` (milliseconds).
    Key { code: SourceCode, pressed: bool, time: u64 },
    /// The clock reached `time`: fires a due hold timer.
    Tick { time: u64 },
    /// Activates layer `l` on top of the stack.
    PushLayer(usize),
    /// Deactivates the top layer; the base layer stays.
    PopLayer,
}

/// The state of an engine: the active layer stack, bottom first, the state of
/// each source index, and the index of the key awaiting hold/tap resolution.
pub struct EngineView {
    pub stack: Seq<usize>,
    pub states: Seq<KeyState>,
    pub pending: Option<usize>,
}

/// The event for `code`, if any.
pub open spec fn emit(source: SourceCode, code: Option<OutputCode>, pressed: bool, time: u64) -> Seq<OutputEvent> {
    match code {
        Some(c) => seq![OutputEvent { source, code: c, pressed, time }],
        None => Seq::empty(),
    }
}

/// Whether `st` holds, or may come to emit, the code `c`.
pub open spec fn state_has(st: KeyState, c: OutputCode) -> bool {
    match st {
        KeyState::Idle => false,
        KeyState::Pending { tap, hold, .. } => tap == Some(c) || hold == Some(c),
        KeyState::Held(x) => x == Some(c),
    }
}

/// The layer that actions are looked up in.
pub open spec fn top_layer(s: EngineView) -> int {
    s.stack.last() as int
}

pub open spec fn wf(k: KeymapView, s: EngineView) -> bool {
    &&& k.wf()
    &&& s.states.len() == k.src.len()
    &&& s.stack.len() >= 1
    &&& s.stack[0] == 0
    &&& forall|j: int| 0 <= j < s.stack.len() ==> #[trigger] s.stack[j] < k.layers.len()
    &&& match s.pending {
        Some(p) => p < s.states.len() && s.states[p as int] is Pending,
        None => true,
    }
    &&& s.states.len() <= usize::MAX
    &&& forall|i: int| 0 <= i < s.states.len() && (#[trigger] s.states[i]) is Pending ==> pending_is(s, i)
    &&& forall|i: int, c: OutputCode| 0 <= i < s.states.len() && #[trigger] state_has(s.states[i], c) ==> emits_at(k, i, c)
}

/// Whether `i` is the pending key.
pub open spec fn pending_is(s: EngineView, i: int) -> bool {
    match s.pending {
        Some(p) => p as int == i,
        None => false,
    }
}

/// The engine before any input: only the base layer active, every key idle.
pub open spec fn initial(k: KeymapView) -> EngineView {
    EngineView { stack: seq![0usize], states: Seq::new(k.src.len(), |i: int| KeyState::Idle), pending: None }
}

/// Resolves the pending key `p` as hold at `time`.
pub open spec fn resolve_hold(k: KeymapView, s: EngineView, p: int, time: u64) -> (EngineView, Seq<OutputEvent>) {
    let hold = s.states[p]->hold;
    (
        EngineView { states: s.states.update(p, KeyState::Held(hold)), pending: None, ..s },
        emit(k.src[p], hold, true, time),
    )
}

/// Fires the hold timer of the pending key if it is due at `now`; the hold
/// goes down at the deadline itself.
pub open spec fn fire(k: KeymapView, s: EngineView, now: u64) -> (EngineView, Seq<OutputEvent>) {
    match s.pending {
        Some(p) => if s.states[p as int] is Pending && s.states[p as int]->deadline <= now {
            resolve_hold(k, s, p as int, s.states[p as int]->deadline)
        } else {
            (s, Seq::empty())
        },
        None => (s, Seq::empty()),
    }
}

/// A press of key `i` resolves any other pending key as hold, at once.
pub open spec fn eager(k: KeymapView, s: EngineView, i: int, now: u64) -> (EngineView, Seq<OutputEvent>) {
    match s.pending {
        Some(p) => if p != i && s.states[p as int] is Pending {
            resolve_hold(k, s, p as int, now)
        } else {
            (s, Seq::empty())
        },
        None => (s, Seq::empty()),
    }
}

pub open spec fn deadline_after(now: u64, timeout: u64) -> u64 {
    if now + timeout > u64::MAX {
        u64::MAX
    } else {
        (now + timeout) as u64
    }
}

/// A press of key `i`: an idle key takes the action of the top layer.
pub open spec fn press(k: KeymapView, s: EngineView, i: int, now: u64) -> (EngineView, Seq<OutputEvent>) {
    if s.states[i] is Idle {
        match k.layers[top_layer(s)][i] {
            Action::NoOp => (EngineView { states: s.states.update(i, KeyState::Held(None)), ..s }, Seq::empty()),
            Action::Output(c) => (
                EngineView { states: s.states.update(i, KeyState::Held(Some(c))), ..s },
                emit(k.src[i], Some(c), true, now),
            ),
            Action::HoldTap { tap, hold, timeout } => (
                EngineView {
                    states: s.states.update(i, KeyState::Pending {
                        tap: immediate(*tap),
                        hold: immediate(*hold),
                        deadline: deadline_after(now, timeout),
                    }),
                    pending: Some(i as usize),
                    ..s
                },
                Seq::empty(),
            ),
        }
    } else {
        (s, Seq::empty())
    }
}

/// A release of key `i`: a held key lets its code go; a pending key
/// resolves as tap, down and up at once.
pub open spec fn release(k: KeymapView, s: EngineView, i: int, now: u64) -> (EngineView, Seq<OutputEvent>) {
    match s.states[i] {
        KeyState::Held(c) => (
            EngineView { states: s.states.update(i, KeyState::Idle), ..s },
            emit(k.src[i], c, false, now),
        ),
        KeyState::Pending { tap, .. } => (
            EngineView { states: s.states.update(i, KeyState::Idle), pending: None, ..s },
            emit(k.src[i], tap, true, now) + emit(k.src[i], tap, false, now),
        ),
        KeyState::Idle => (s, Seq::empty()),
    }
}

/// The index of a mapped source key.
pub open spec fn index_of(k: KeymapView, code: SourceCode) -> int {
    choose|i: int| 0 <= i < k.src.len() && k.src[i] == code
}

/// What one input does: the next state, and the events emitted or the error.
pub open spec fn step(k: KeymapView, s: EngineView, input: Input) -> (EngineView, Result<Seq<OutputEvent>, Error>) {
    match input {
        Input::Key { code, pressed, time } => if !k.is_mapped(code) {
            (s, Err(Error::UnmappedKey))
        } else {
            let i = index_of(k, code);
            let r1 = fire(k, s, time);
            if pressed {
                let r2 = eager(k, r1.0, i, time);
                let r3 = press(k, r2.0, i, time);
                (r3.0, Ok(r1.1 + r2.1 + r3.1))
            } else {
                let r2 = release(k, r1.0, i, time);
                (r2.0, Ok(r1.1 + r2.1))
            }
        },
        Input::Tick { time } => {
            let r = fire(k, s, time);
            (r.0, Ok(r.1))
        },
        Input::PushLayer(l) => if l < k.layers.len() {
            (EngineView { stack: s.stack.push(l), ..s }, Ok(Seq::empty()))
        } else {
            (s, Err(Error::LayerOutOfRange))
        },
        Input::PopLayer => if s.stack.len() > 1 {
            (EngineView { stack: s.stack.drop_last(), ..s }, Ok(Seq::empty()))
        } else {
            (s, Ok(Seq::empty()))
        },
    }
}

/// The events of a step; none where it failed.
pub open spec fn events_of(r: Result<Seq<OutputEvent>, Error>) -> Seq<OutputEvent> {
    match r {
        Ok(e) => e,
        Err(_) => Seq::empty(),
    }
}

/// The state reached and all events emitted, from the initial state, over a log.
pub open spec fn run(k: KeymapView, log: Seq<Input>) -> (EngineView, Seq<OutputEvent>)
    decreases log.len(),
{
    if log.len() == 0 {
        (initial(k), Seq::empty())
    } else {
        let prev = run(k, log.drop_last());
        let r = step(k, prev.0, log.last());
        (r.0, prev.1 + events_of(r.1))
    }
}

/// Whether `e` came from a mapped key and carries a code in that key's
/// capabilities.
pub open spec fn event_sound(k: KeymapView, e: OutputEvent) -> bool {
    exists|j: int| 0 <= j < k.src.len() && k.src[j] == e.source && #[trigger] emits_at(k, j, e.code)
}

pub open spec fn all_sound(k: KeymapView, evs: Seq<OutputEvent>) -> bool {
    forall|x: int| 0 <= x < evs.len() ==> event_sound(k, #[trigger] evs[x])
}

proof fn lemma_emit_sound(k: KeymapView, i: int, code: Option<OutputCode>, pressed: bool, time: u64)
    requires
        0 <= i < k.src.len(),
        forall|c: OutputCode| code == Some(c) ==> emits_at(k, i, c),
    ensures
        all_sound(k, emit(k.src[i], code, pressed, time)),
{
    if let Some(c) = code {
        assert(emits_at(k, i, c));
        let e = OutputEvent { source: k.src[i], code: c, pressed, time };
        assert(emit(k.src[i], code, pressed, time) =~= seq![e]);
        assert(0 <= i < k.src.len() && k.src[i] == e.source && emits_at(k, i, e.code));
        assert(event_sound(k, e));
    }
}

proof fn lemma_sound_concat(k: KeymapView, a: Seq<OutputEvent>, b: Seq<OutputEvent>)
    requires
        all_sound(k, a),
        all_sound(k, b),
    ensures
        all_sound(k, a + b),
{
    assert forall|x: int| 0 <= x < (a + b).len() implies event_sound(k, #[trigger] (a + b)[x]) by {
        if x < a.len() {
            assert((a + b)[x] == a[x]);
        } else {
            assert((a + b)[x] == b[x - a.len()]);
        }
    }
}

proof fn lemma_immediate_emits(a: Action, c: OutputCode)
    requires
        immediate(a) == Some(c),
    ensures
        emits(a, c),
{
}

proof fn lemma_resolve_hold_wf(k: KeymapView, s: EngineView, p: int, time: u64)
    requires
        wf(k, s),
        0 <= p < s.states.len(),
        pending_is(s, p),
    ensures
        wf(k, resolve_hold(k, s, p, time).0),
        all_sound(k, resolve_hold(k, s, p, time).1),
{
    let r = resolve_hold(k, s, p, time);
    assert forall|i: int, c: OutputCode| 0 <= i < r.0.states.len() && #[trigger] state_has(r.0.states[i], c) implies emits_at(k, i, c) by {
        if i == p {
            assert(state_has(s.states[p], c));
        } else {
            assert(state_has(s.states[i], c));
        }
    }
    assert forall|i: int| 0 <= i < r.0.states.len() && (#[trigger] r.0.states[i]) is Pending implies pending_is(r.0, i) by {
        assert(s.states[i] is Pending);
    }
    let hold = s.states[p]->hold;
    assert forall|c: OutputCode| hold == Some(c) implies emits_at(k, p, c) by {
        assert(state_has(s.states[p], c));
    }
    lemma_emit_sound(k, p, hold, true, time);
}

pub(crate) proof fn lemma_fire_wf(k: KeymapView, s: EngineView, now: u64)
    requires
        wf(k, s),
    ensures
        wf(k, fire(k, s, now).0),
        all_sound(k, fire(k, s, now).1),
        fire(k, s, now).0.stack == s.stack,
{
    if let Some(p) = s.pending {
        if s.states[p as int] is Pending && s.states[p as int]->deadline <= now {
            lemma_resolve_hold_wf(k, s, p as int, s.states[p as int]->deadline);
        }
    }
}

pub(crate) proof fn lemma_eager_wf(k: KeymapView, s: EngineView, i: int, now: u64)
    requires
        wf(k, s),
    ensures
        wf(k, eager(k, s, i, now).0),
        all_sound(k, eager(k, s, i, now).1),
        eager(k, s, i, now).0.pending is None || pending_is(eager(k, s, i, now).0, i),
{
    if let Some(p) = s.pending {
        if p != i && s.states[p as int] is Pending {
            lemma_resolve_hold_wf(k, s, p as int, now);
        }
    }
}

proof fn lemma_press_wf(k: KeymapView, s: EngineView, i: int, now: u64)
    requires
        wf(k, s),
        0 <= i < s.states.len(),
        s.pending is None || pending_is(s, i),
    ensures
        wf(k, press(k, s, i, now).0),
        all_sound(k, press(k, s, i, now).1),
{
    let r = press(k, s, i, now);
    if s.states[i] is Idle {
        let t = top_layer(s);
        assert(s.stack[s.stack.len() - 1] < k.layers.len());
        let a = k.layers[t][i];
        assert forall|x: int, c: OutputCode| 0 <= x < r.0.states.len() && #[trigger] state_has(r.0.states[x], c) implies emits_at(k, x, c) by {
            if x == i {
                match a {
                    Action::HoldTap { tap, hold, .. } => {
                        if immediate(*tap) == Some(c) {
                            lemma_immediate_emits(*tap, c);
                        } else {
                            lemma_immediate_emits(*hold, c);
                        }
                    },
                    _ => {},
                }
                assert(emits(k.layers[t][i], c));
            } else {
                assert(state_has(s.states[x], c));
            }
        }
        assert forall|x: int| 0 <= x < r.0.states.len() && (#[trigger] r.0.states[x]) is Pending implies pending_is(r.0, x) by {
            if x != i {
                assert(s.states[x] is Pending);
            }
        }
        if let Action::Output(c) = a {
            assert(emits(k.layers[t][i], c));
            lemma_emit_sound(k, i, Some(c), true, now);
        }
        assert(r.0.states.len() == k.src.len());
        assert(r.0.stack == s.stack);
        match r.0.pending {
            Some(p) => {
                assert(p < r.0.states.len());
                assert(r.0.states[p as int] is Pending);
            },
            None => {},
        }
    }
}

proof fn lemma_release_wf(k: KeymapView, s: EngineView, i: int, now: u64)
    requires
        wf(k, s),
        0 <= i < s.states.len(),
    ensures
        wf(k, release(k, s, i, now).0),
        all_sound(k, release(k, s, i, now).1),
{
    let r = release(k, s, i, now);
    if s.states[i] is Pending {
        assert(pending_is(s, i));
    }
    assert forall|x: int, c: OutputCode| 0 <= x < r.0.states.len() && #[trigger] state_has(r.0.states[x], c) implies emits_at(k, x, c) by {
        assert(x != i);
        assert(state_has(s.states[x], c));
    }
    assert forall|x: int| 0 <= x < r.0.states.len() && (#[trigger] r.0.states[x]) is Pending implies pending_is(r.0, x) by {
        assert(s.states[x] is Pending);
    }
    match s.states[i] {
        KeyState::Held(code) => {
            assert forall|c: OutputCode| code == Some(c) implies emits_at(k, i, c) by {
                assert(state_has(s.states[i], c));
            }
            lemma_emit_sound(k, i, code, false, now);
        },
        KeyState::Pending { tap, .. } => {
            assert forall|c: OutputCode| tap == Some(c) implies emits_at(k, i, c) by {
                assert(state_has(s.states[i], c));
            }
            lemma_emit_sound(k, i, tap, true, now);
            lemma_emit_sound(k, i, tap, false, now);
            lemma_sound_concat(k, emit(k.src[i], tap, true, now), emit(k.src[i], tap, false, now));
        },
        KeyState::Idle => {},
    }
}

proof fn lemma_index_of(k: KeymapView, code: SourceCode, i: int)
    requires
        k.wf(),
        0 <= i < k.src.len(),
        k.src[i] == code,
    ensures
        index_of(k, code) == i,
{
    let j = index_of(k, code);
    assert(0 <= j < k.src.len() && k.src[j] == code);
}

/// One input keeps the engine well formed, and every event it emits comes
/// from a mapped key and carries a code in that key's capabilities.
pub proof fn lemma_step_wf(k: KeymapView, s: EngineView, input: Input)
    requires
        wf(k, s),
    ensures
        wf(k, step(k, s, input).0),
        all_sound(k, events_of(step(k, s, input).1)),
{
    match input {
        Input::Key { code, pressed, time } => {
            if k.is_mapped(code) {
                let i = index_of(k, code);
                let r1 = fire(k, s, time);
                lemma_fire_wf(k, s, time);
                if pressed {
                    let r2 = eager(k, r1.0, i, time);
                    lemma_eager_wf(k, r1.0, i, time);
                    lemma_press_wf(k, r2.0, i, time);
                    lemma_sound_concat(k, r1.1, r2.1);
                    lemma_sound_concat(k, r1.1 + r2.1, press(k, r2.0, i, time).1);
                } else {
                    lemma_release_wf(k, r1.0, i, time);
                    lemma_sound_concat(k, r1.1, release(k, r1.0, i, time).1);
                }
            }
        },
        Input::Tick { time } => {
            lemma_fire_wf(k, s, time);
        },
        Input::PushLayer(l) => {
            if l < k.layers.len() {
                let t = step(k, s, input).0;
                assert forall|j: int| 0 <= j < t.stack.len() implies #[trigger] t.stack[j] < k.layers.len() by {
                    if j < s.stack.len() {
                        assert(t.stack[j] == s.stack[j]);
                    }
                }
            }
        },
        Input::PopLayer => {
            let t = step(k, s, input).0;
            assert forall|j: int| 0 <= j < t.stack.len() implies #[trigger] t.stack[j] < k.layers.len() by {
                assert(t.stack[j] == s.stack[j]);
            }
        },
    }
}

/// Over any log, the engine stays well formed and every event it emits
/// comes from a mapped key and carries a code in that key's capabilities.
pub proof fn lemma_run_wf(k: KeymapView, log: Seq<Input>)
    requires
        k.wf(),
    ensures
        wf(k, run(k, log).0),
        all_sound(k, run(k, log).1),
    decreases log.len(),
{
    if log.len() == 0 {
        let s = initial(k);
        assert forall|i: int, c: OutputCode| 0 <= i < s.states.len() && #[trigger] state_has(s.states[i], c) implies emits_at(k, i, c) by {}
    } else {
        let prev = run(k, log.drop_last());
        lemma_run_wf(k, log.drop_last());
        lemma_step_wf(k, prev.0, log.last());
        lemma_sound_concat(k, prev.1, events_of(step(k, prev.0, log.last()).1));
    }
}

/// Every code the engine emits for a source key is in that key's entry of
/// the output capability map.
pub proof fn lemma_output_in_capabilities(k: KeymapView, log: Seq<Input>, x: int)
    requires
        k.wf(),
        0 <= x < run(k, log).1.len(),
    ensures
        exists|j: int| 0 <= j < k.src.len() && k.src[j] == run(k, log).1[x].source
            && #[trigger] capabilities(k)[j].contains(run(k, log).1[x].code),
{
    lemma_run_wf(k, log);
    let e = run(k, log).1[x];
    assert(event_sound(k, e));
    let j = choose|j: int| 0 <= j < k.src.len() && k.src[j] == e.source && #[trigger] emits_at(k, j, e.code);
    lemma_capabilities_exact(k, j, e.code);
}

/// A source key that the keymap does not map never appears in an emitted event.
pub proof fn lemma_passthrough(k: KeymapView, log: Seq<Input>, c: SourceCode)
    requires
        k.wf(),
        !k.is_mapped(c),
    ensures
        forall|x: int| 0 <= x < run(k, log).1.len() ==> (#[trigger] run(k, log).1[x]).source != c,
{
    lemma_run_wf(k, log);
    assert forall|x: int| 0 <= x < run(k, log).1.len() implies (#[trigger] run(k, log).1[x]).source != c by {
        assert(event_sound(k, run(k, log).1[x]));
    }
}

/// Replaying one log against one keymap always gives the same state and the
/// same events.
pub proof fn lemma_replay_deterministic(k1: KeymapView, k2: KeymapView, log1: Seq<Input>, log2: Seq<Input>)
    requires
        k1 == k2,
        log1 == log2,
    ensures
        run(k1, log1) == run(k2, log2),
{
}

/// The resolution engine over one keymap.
pub struct Engine {
    keymap: Keymap,
    stack: Vec<usize>,
    states: Vec<KeyState>,
    pending: Option<usize>,
}

impl View for Engine {
    type V = EngineView;

    closed spec fn view(&self) -> EngineView {
        EngineView { stack: self.stack@, states: self.states@, pending: self.pending }
    }
}

fn push_emit(out: &mut Vec<OutputEvent>, source: SourceCode, code: Option<OutputCode>, pressed: bool, time: u64)
    ensures
        final(out)@ == old(out)@ + emit(source, code, pressed, time),
{
    match code {
        Some(c) => {
            out.push(OutputEvent { source, code: c, pressed, time });
        },
        None => {
            assert(old(out)@ + emit(source, code, pressed, time) =~= old(out)@);
        },
    }
    proof {
        assert(final(out)@ =~= old(out)@ + emit(source, code, pressed, time));
    }
}

impl Engine {
    /// The keymap the engine runs on.
    pub closed spec fn keymap_view(&self) -> KeymapView {
        self.keymap@
    }

    pub open spec fn wf(&self) -> bool {
        wf(self.keymap_view(), self@)
    }

    /// Starts an engine with every key idle and only the base layer active.
    pub fn new(keymap: Keymap) -> (r: Engine)
        requires
            keymap.wf(),
        ensures
            r.wf(),
            r.keymap_view() == keymap@,
            r@ == initial(keymap@),
    {
        let n = keymap.len();
        let mut states: Vec<KeyState> = Vec::new();
        while states.len() < n
            invariant
                states@.len() <= n,
                forall|i: int| 0 <= i < states@.len() ==> #[trigger] states@[i] == KeyState::Idle,
            decreases n - states.len(),
        {
            states.push(KeyState::Idle);
        }
        let stack = vec![0usize];
        let r = Engine { keymap, stack, states, pending: None };
        assert(r@.states =~= initial(keymap@).states);
        assert(r@.stack =~= initial(keymap@).stack);
        r
    }

    /// The state of source index `i`.
    pub fn key_state(&self, i: usize) -> (r: KeyState)
        requires
            i < self@.states.len(),
        ensures
            r == self@.states[i as int],
    {
        self.states[i]
    }

    /// The active layers, base layer first.
    pub fn layer_stack(&self) -> (r: &Vec<usize>)
        ensures
            r@ == self@.stack,
    {
        &self.stack
    }

    /// When the pending key, if any, resolves as hold.
    pub fn next_deadline(&self) -> (r: Option<u64>)
        requires
            self.wf(),
        ensures
            r == match self@.pending {
                Some(p) => Some(self@.states[p as int]->deadline),
                None => None::<u64>,
            },
    {
        match self.pending {
            Some(p) => match self.states[p] {
                KeyState::Pending { deadline, .. } => Some(deadline),
                _ => None,
            },
            None => None,
        }
    }

    fn resolve_hold(&mut self, p: usize, time: u64, out: &mut Vec<OutputEvent>)
        requires
            old(self).wf(),
            old(self)@.pending == Some(p),
        ensures
            final(self).keymap_view() == old(self).keymap_view(),
            final(self)@ == resolve_hold(old(self).keymap_view(), old(self)@, p as int, time).0,
            final(out)@ == old(out)@ + resolve_hold(old(self).keymap_view(), old(self)@, p as int, time).1,
    {
        let hold = match self.states[p] {
            KeyState::Pending { hold, .. } => hold,
            _ => None,
        };
        self.states.set(p, KeyState::Held(hold));
        self.pending = None;
        let source = self.keymap.source_keys()[p];
        push_emit(out, source, hold, true, time);
    }

    fn fire(&mut self, now: u64, out: &mut Vec<OutputEvent>)
        requires
            old(self).wf(),
        ensures
            final(self).keymap_view() == old(self).keymap_view(),
            final(self)@ == fire(old(self).keymap_view(), old(self)@, now).0,
            final(out)@ == old(out)@ + fire(old(self).keymap_view(), old(self)@, now).1,
    {
        if let Some(p) = self.pending {
            if let KeyState::Pending { deadline, .. } = self.states[p] {
                if deadline <= now {
                    self.resolve_hold(p, deadline, out);
                    return;
                }
            }
        }
        assert(out@ =~= out@ + Seq::<OutputEvent>::empty());
    }

    fn eager(&mut self, i: usize, now: u64, out: &mut Vec<OutputEvent>)
        requires
            old(self).wf(),
        ensures
            final(self).keymap_view() == old(self).keymap_view(),
            final(self)@ == eager(old(self).keymap_view(), old(self)@, i as int, now).0,
            final(out)@ == old(out)@ + eager(old(self).keymap_view(), old(self)@, i as int, now).1,
    {
        if let Some(p) = self.pending {
            if p != i {
                self.resolve_hold(p, now, out);
                return;
            }
        }
        assert(out@ =~= out@ + Seq::<OutputEvent>::empty());
    }

    fn press(&mut self, i: usize, now: u64, out: &mut Vec<OutputEvent>)
        requires
            old(self).wf(),
            i < old(self)@.states.len(),
        ensures
            final(self).keymap_view() == old(self).keymap_view(),
            final(self)@ == press(old(self).keymap_view(), old(self)@, i as int, now).0,
            final(out)@ == old(out)@ + press(old(self).keymap_view(), old(self)@, i as int, now).1,
    {
        if !matches!(self.states[i], KeyState::Idle) {
            assert(out@ =~= out@ + Seq::<OutputEvent>::empty());
            return;
        }
        let top = self.stack[self.stack.len() - 1];
        let (st, code, now_pending) = match self.keymap.action_at(top, i) {
            Ok(Action::NoOp) => (KeyState::Held(None), None, false),
            Ok(Action::Output(c)) => (KeyState::Held(Some(*c)), Some(*c), false),
            Ok(Action::HoldTap { tap, hold, timeout }) => {
                let deadline = if *timeout > u64::MAX - now { u64::MAX } else { now + *timeout };
                (KeyState::Pending {
                    tap: resolve_immediate(&**tap),
                    hold: resolve_immediate(&**hold),
                    deadline,
                }, None, true)
            },
            Err(_) => {
                proof {
                    assert(self.stack@[self.stack@.len() - 1] < self.keymap_view().layers.len());
                    assert(false);
                }
                (KeyState::Idle, None, false)
            },
        };
        self.states.set(i, st);
        if now_pending {
            self.pending = Some(i);
        }
        let source = self.keymap.source_keys()[i];
        push_emit(out, source, code, true, now);
    }

    fn release(&mut self, i: usize, now: u64, out: &mut Vec<OutputEvent>)
        requires
            old(self).wf(),
            i < old(self)@.states.len(),
        ensures
            final(self).keymap_view() == old(self).keymap_view(),
            final(self)@ == release(old(self).keymap_view(), old(self)@, i as int, now).0,
            final(out)@ == old(out)@ + release(old(self).keymap_view(), old(self)@, i as int, now).1,
    {
        let source = self.keymap.source_keys()[i];
        match self.states[i] {
            KeyState::Held(c) => {
                self.states.set(i, KeyState::Idle);
                push_emit(out, source, c, false, now);
            },
            KeyState::Pending { tap, .. } => {
                self.states.set(i, KeyState::Idle);
                self.pending = None;
                let ghost before = out@;
                push_emit(out, source, tap, true, now);
                push_emit(out, source, tap, false, now);
                assert(out@ =~= before + (emit(source, tap, true, now) + emit(source, tap, false, now)));
            },
            KeyState::Idle => {
                assert(out@ =~= out@ + Seq::<OutputEvent>::empty());
            },
        }
    }

    /// Processes one input. An unmapped key gives `UnmappedKey` and a push of a
    /// layer past the last gives `LayerOutOfRange`; both leave the engine as
    /// it was. Otherwise the events emitted are returned, in order.
    pub fn handle(&mut self, input: Input) -> (r: Result<Vec<OutputEvent>, Error>)
        requires
            old(self).wf(),
        ensures
            final(self).wf(),
            final(self).keymap_view() == old(self).keymap_view(),
            final(self)@ == step(old(self).keymap_view(), old(self)@, input).0,
            match r {
                Ok(v) => step(old(self).keymap_view(), old(self)@, input).1 == Ok::<Seq<OutputEvent>, Error>(v@),
                Err(e) => step(old(self).keymap_view(), old(self)@, input).1 == Err::<Seq<OutputEvent>, Error>(e),
            },
    {
        let ghost k = self.keymap_view();
        let ghost s0 = self@;
        proof {
            lemma_step_wf(k, s0, input);
        }
        let mut out: Vec<OutputEvent> = Vec::new();
        match input {
            Input::Key { code, pressed, time } => {
                let i = match self.keymap.index_of(code) {
                    Ok(i) => i,
                    Err(e) => {
                        return Err(e);
                    },
                };
                proof {
                    lemma_index_of(k, code, i as int);
                    lemma_fire_wf(k, s0, time);
                }
                self.fire(time, &mut out);
                let ghost e1 = out@;
                if pressed {
                    let ghost s1 = self@;
                    proof {
                        lemma_eager_wf(k, s1, i as int, time);
                    }
                    self.eager(i, time, &mut out);
                    let ghost e2 = out@;
                    self.press(i, time, &mut out);
                    assert(out@ =~= e1 + (e2.subrange(e1.len() as int, e2.len() as int)) + out@.subrange(e2.len() as int, out@.len() as int));
                } else {
                    self.release(i, time, &mut out);
                }
                assert(out@ =~= Seq::<OutputEvent>::empty() + out@);
            },
            Input::Tick { time } => {
                self.fire(time, &mut out);
                assert(out@ =~= Seq::<OutputEvent>::empty() + out@);
            },
            Input::PushLayer(l) => {
                if l < self.keymap.layer_count() {
                    self.stack.push(l);
                } else {
                    return Err(Error::LayerOutOfRange);
                }
            },
            Input::PopLayer => {
                if self.stack.len() > 1 {
                    self.stack.pop();
                }
            },
        }
        Ok(out)
    }
}

/// Runs a fresh engine over a log of inputs and collects every event it
/// emits, in order. Inputs that fail are dropped.
pub fn replay(keymap: Keymap, log: &Vec<Input>) -> (r: Vec<OutputEvent>)
    requires
        keymap.wf(),
    ensures
        r@ == run(keymap@, log@).1,
{
    let ghost k = keymap@;
    let mut engine = Engine::new(keymap);
    let mut out: Vec<OutputEvent> = Vec::new();
    let mut j: usize = 0;
    while j < log.len()
        invariant
            engine.wf(),
            engine.keymap_view() == k,
            j <= log@.len(),
            engine@ == run(k, log@.take(j as int)).0,
            out@ == run(k, log@.take(j as int)).1,
        decreases log.len() - j,
    {
        proof {
            assert(log@.take(j + 1).drop_last() =~= log@.take(j as int));
            assert(log@.take(j + 1).last() == log@[j as int]);
        }
        let ghost before = out@;
        match engine.handle(log[j]) {
            Ok(evs) => {
                let mut x: usize = 0;
                while x < evs.len()
                    invariant
                        x <= evs@.len(),
                        out@ == before + evs@.take(x as int),
                    decreases evs.len() - x,
                {
                    out.push(evs[x]);
                    proof {
                        assert(evs@.take(x + 1) =~= evs@.take(x as int).push(evs@[x as int]));
                    }
                    x += 1;
                }
                assert(evs@.take(evs@.len() as int) =~= evs@);
            },
            Err(_) => {
                assert(before + Seq::<OutputEvent>::empty() =~= before);
            },
        }
        j += 1;
    }
    assert(log@.take(log@.len() as int) =~= log@);
    out
}

} // verus!
