use vstd::prelude::*;
use crate::action::{Action, emits};
use crate::capability::emits_at;
use crate::engine::{
    EngineView, Input, KeyState, OutputEvent, eager, events_of, fire, index_of, initial,
    lemma_eager_wf, lemma_fire_wf, lemma_passthrough, lemma_run_wf, pending_is, press, release, resolve_hold, run,
    state_has, step, top_layer, wf,
};
use crate::keymap::KeymapView;
use crate::keys::{OutputCode, SourceCode};

verus! {

/// Whether `c` is down after the events `evs`.
pub open spec fn is_down(evs: Seq<OutputEvent>, c: OutputCode) -> bool
    decreases evs.len(),
{
    if evs.len() == 0 {
        false
    } else if evs.last().code == c {
        evs.last().pressed
    } else {
        is_down(evs.drop_last(), c)
    }
}

/// Whether the events for `c` in `evs` alternate down, up, down, ..., starting
/// with down.
pub open spec fn alternates(evs: Seq<OutputEvent>, c: OutputCode) -> bool
    decreases evs.len(),
{
    if evs.len() == 0 {
        true
    } else {
        alternates(evs.drop_last(), c) && (evs.last().code == c ==> evs.last().pressed != is_down(evs.drop_last(), c))
    }
}

/// No output code can be emitted by two different source keys.
pub open spec fn disjoint_outputs(k: KeymapView) -> bool {
    forall|i: int, j: int, c: OutputCode|
        0 <= i < k.src.len() && 0 <= j < k.src.len() && #[trigger] emits_at(k, i, c) && #[trigger] emits_at(k, j, c) ==> i == j
}

/// Whether some key holds `c` down.
pub open spec fn held_in(states: Seq<KeyState>, c: OutputCode) -> bool {
    exists|i: int| 0 <= i < states.len() && states[i] == KeyState::Held(Some(c))
}

pub open spec fn paired_at(states: Seq<KeyState>, out: Seq<OutputEvent>, c: OutputCode) -> bool {
    alternates(out, c) && is_down(out, c) == held_in(states, c)
}

pub open spec fn paired(states: Seq<KeyState>, out: Seq<OutputEvent>) -> bool {
    forall|c: OutputCode| #[trigger] paired_at(states, out, c)
}

proof fn lemma_push(evs: Seq<OutputEvent>, e: OutputEvent, c: OutputCode)
    ensures
        is_down(evs.push(e), c) == (if e.code == c { e.pressed } else { is_down(evs, c) }),
        alternates(evs.push(e), c) == (alternates(evs, c) && (e.code == c ==> e.pressed != is_down(evs, c))),
{
    assert(evs.push(e).drop_last() =~= evs);
}

proof fn lemma_held_update(st: Seq<KeyState>, i: int, x: KeyState, c: OutputCode)
    requires
        0 <= i < st.len(),
        st[i] != KeyState::Held(Some(c)),
        x != KeyState::Held(Some(c)),
    ensures
        held_in(st.update(i, x), c) == held_in(st, c),
{
    if held_in(st, c) {
        let j = choose|j: int| 0 <= j < st.len() && st[j] == KeyState::Held(Some(c));
        assert(st.update(i, x)[j] == KeyState::Held(Some(c)));
    }
    if held_in(st.update(i, x), c) {
        let j = choose|j: int| 0 <= j < st.len() && st.update(i, x)[j] == KeyState::Held(Some(c));
        assert(st[j] == KeyState::Held(Some(c)));
    }
}

/// Only key `i` may hold `c` when `i` can emit `c`; here key `i` itself does not.
proof fn lemma_not_held(k: KeymapView, s: EngineView, i: int, c: OutputCode)
    requires
        wf(k, s),
        disjoint_outputs(k),
        0 <= i < s.states.len(),
        emits_at(k, i, c),
        s.states[i] != KeyState::Held(Some(c)),
    ensures
        !held_in(s.states, c),
{
    if held_in(s.states, c) {
        let j = choose|j: int| 0 <= j < s.states.len() && s.states[j] == KeyState::Held(Some(c));
        assert(state_has(s.states[j], c));
        assert(emits_at(k, j, c));
    }
}

proof fn lemma_resolve_hold_paired(k: KeymapView, s: EngineView, p: int, time: u64, out: Seq<OutputEvent>)
    requires
        wf(k, s),
        disjoint_outputs(k),
        0 <= p < s.states.len(),
        pending_is(s, p),
        paired(s.states, out),
    ensures
        paired(resolve_hold(k, s, p, time).0.states, out + resolve_hold(k, s, p, time).1),
{
    let r = resolve_hold(k, s, p, time);
    let hold = s.states[p]->hold;
    match hold {
        None => {
            assert(out + r.1 =~= out);
            assert forall|c: OutputCode| #[trigger] paired_at(r.0.states, out + r.1, c) by {
                assert(paired_at(s.states, out, c));
                lemma_held_update(s.states, p, KeyState::Held(None), c);
            }
        },
        Some(h) => {
            let e = OutputEvent { source: k.src[p], code: h, pressed: true, time };
            assert(out + r.1 =~= out.push(e));
            assert(state_has(s.states[p], h));
            lemma_not_held(k, s, p, h);
            assert forall|c: OutputCode| #[trigger] paired_at(r.0.states, out + r.1, c) by {
                assert(paired_at(s.states, out, c));
                lemma_push(out, e, c);
                if c == h {
                    assert(r.0.states[p] == KeyState::Held(Some(c)));
                } else {
                    lemma_held_update(s.states, p, KeyState::Held(hold), c);
                }
            }
        },
    }
}

proof fn lemma_fire_paired(k: KeymapView, s: EngineView, now: u64, out: Seq<OutputEvent>)
    requires
        wf(k, s),
        disjoint_outputs(k),
        paired(s.states, out),
    ensures
        paired(fire(k, s, now).0.states, out + fire(k, s, now).1),
{
    if let Some(p) = s.pending {
        if s.states[p as int] is Pending && s.states[p as int]->deadline <= now {
            lemma_resolve_hold_paired(k, s, p as int, s.states[p as int]->deadline, out);
            return;
        }
    }
    assert(out + fire(k, s, now).1 =~= out);
}

proof fn lemma_eager_paired(k: KeymapView, s: EngineView, i: int, now: u64, out: Seq<OutputEvent>)
    requires
        wf(k, s),
        disjoint_outputs(k),
        paired(s.states, out),
    ensures
        paired(eager(k, s, i, now).0.states, out + eager(k, s, i, now).1),
{
    if let Some(p) = s.pending {
        if p != i && s.states[p as int] is Pending {
            lemma_resolve_hold_paired(k, s, p as int, now, out);
            return;
        }
    }
    assert(out + eager(k, s, i, now).1 =~= out);
}

proof fn lemma_press_paired(k: KeymapView, s: EngineView, i: int, now: u64, out: Seq<OutputEvent>)
    requires
        wf(k, s),
        disjoint_outputs(k),
        0 <= i < s.states.len(),
        paired(s.states, out),
    ensures
        paired(press(k, s, i, now).0.states, out + press(k, s, i, now).1),
{
    let r = press(k, s, i, now);
    if s.states[i] is Idle {
        let t = top_layer(s);
        assert(s.stack[s.stack.len() - 1] < k.layers.len());
        let a = k.layers[t][i];
        match a {
            Action::Output(c0) => {
                let e = OutputEvent { source: k.src[i], code: c0, pressed: true, time: now };
                assert(out + r.1 =~= out.push(e));
                assert(emits(k.layers[t][i], c0));
                lemma_not_held(k, s, i, c0);
                assert forall|c: OutputCode| #[trigger] paired_at(r.0.states, out + r.1, c) by {
                    assert(paired_at(s.states, out, c));
                    lemma_push(out, e, c);
                    if c == c0 {
                        assert(r.0.states[i] == KeyState::Held(Some(c)));
                    } else {
                        lemma_held_update(s.states, i, r.0.states[i], c);
                    }
                }
            },
            _ => {
                assert(out + r.1 =~= out);
                assert forall|c: OutputCode| #[trigger] paired_at(r.0.states, out + r.1, c) by {
                    assert(paired_at(s.states, out, c));
                    lemma_held_update(s.states, i, r.0.states[i], c);
                }
            },
        }
    } else {
        assert(out + r.1 =~= out);
    }
}

proof fn lemma_release_paired(k: KeymapView, s: EngineView, i: int, now: u64, out: Seq<OutputEvent>)
    requires
        wf(k, s),
        disjoint_outputs(k),
        0 <= i < s.states.len(),
        paired(s.states, out),
    ensures
        paired(release(k, s, i, now).0.states, out + release(k, s, i, now).1),
{
    let r = release(k, s, i, now);
    match s.states[i] {
        KeyState::Held(Some(c0)) => {
            let e = OutputEvent { source: k.src[i], code: c0, pressed: false, time: now };
            assert(out + r.1 =~= out.push(e));
            assert(state_has(s.states[i], c0));
            assert(held_in(s.states, c0));
            assert forall|c: OutputCode| #[trigger] paired_at(r.0.states, out + r.1, c) by {
                assert(paired_at(s.states, out, c));
                lemma_push(out, e, c);
                if c == c0 {
                    let s2 = EngineView { states: r.0.states, ..s };
                    assert(wf(k, s2)) by {
                        assert forall|x: int, d: OutputCode| 0 <= x < s2.states.len() && #[trigger] state_has(s2.states[x], d) implies emits_at(k, x, d) by {
                            assert(state_has(s.states[x], d));
                        }
                        assert forall|x: int| 0 <= x < s2.states.len() && (#[trigger] s2.states[x]) is Pending implies pending_is(s2, x) by {
                            assert(s.states[x] is Pending);
                        }
                    }
                    lemma_not_held(k, s2, i, c0);
                } else {
                    lemma_held_update(s.states, i, KeyState::Idle, c);
                }
            }
        },
        KeyState::Pending { tap, .. } => {
            match tap {
                Some(t) => {
                    let d = OutputEvent { source: k.src[i], code: t, pressed: true, time: now };
                    let u = OutputEvent { source: k.src[i], code: t, pressed: false, time: now };
                    assert(out + r.1 =~= out.push(d).push(u));
                    assert(state_has(s.states[i], t));
                    lemma_not_held(k, s, i, t);
                    assert forall|c: OutputCode| #[trigger] paired_at(r.0.states, out + r.1, c) by {
                        assert(paired_at(s.states, out, c));
                        lemma_push(out, d, c);
                        lemma_push(out.push(d), u, c);
                        lemma_held_update(s.states, i, KeyState::Idle, c);
                    }
                },
                None => {
                    assert(out + r.1 =~= out);
                    assert forall|c: OutputCode| #[trigger] paired_at(r.0.states, out + r.1, c) by {
                        assert(paired_at(s.states, out, c));
                        lemma_held_update(s.states, i, KeyState::Idle, c);
                    }
                },
            }
        },
        _ => {
            assert forall|c: OutputCode| #[trigger] paired_at(r.0.states, out + r.1, c) by {
                assert(paired_at(s.states, out, c));
                if s.states[i] == KeyState::Held(None) {
                    lemma_held_update(s.states, i, KeyState::Idle, c);
                }
            }
            assert(out + r.1 =~= out);
        },
    }
}

proof fn lemma_step_paired(k: KeymapView, s: EngineView, input: Input, out: Seq<OutputEvent>)
    requires
        wf(k, s),
        disjoint_outputs(k),
        paired(s.states, out),
    ensures
        paired(step(k, s, input).0.states, out + events_of(step(k, s, input).1)),
{
    let r = step(k, s, input);
    match input {
        Input::Key { code, pressed, time } => {
            if k.is_mapped(code) {
                let i = index_of(k, code);
                let r1 = fire(k, s, time);
                lemma_fire_wf(k, s, time);
                lemma_fire_paired(k, s, time, out);
                if pressed {
                    let r2 = eager(k, r1.0, i, time);
                    lemma_eager_wf(k, r1.0, i, time);
                    lemma_eager_paired(k, r1.0, i, time, out + r1.1);
                    let r3 = press(k, r2.0, i, time);
                    lemma_press_paired(k, r2.0, i, time, out + r1.1 + r2.1);
                    assert(out + r1.1 + r2.1 + r3.1 =~= out + (r1.1 + r2.1 + r3.1));
                } else {
                    let r2 = release(k, r1.0, i, time);
                    lemma_release_paired(k, r1.0, i, time, out + r1.1);
                    assert(out + r1.1 + r2.1 =~= out + (r1.1 + r2.1));
                }
            } else {
                assert(out + events_of(r.1) =~= out);
            }
        },
        Input::Tick { time } => {
            lemma_fire_paired(k, s, time, out);
        },
        _ => {
            assert(out + events_of(r.1) =~= out);
            assert(r.0.states == s.states);
        },
    }
}

proof fn lemma_run_paired(k: KeymapView, log: Seq<Input>)
    requires
        k.wf(),
        disjoint_outputs(k),
    ensures
        paired(run(k, log).0.states, run(k, log).1),
    decreases log.len(),
{
    if log.len() == 0 {
        let s = initial(k);
        assert forall|c: OutputCode| #[trigger] paired_at(s.states, Seq::<OutputEvent>::empty(), c) by {
            assert(!held_in(s.states, c));
        }
    } else {
        let prev = run(k, log.drop_last());
        lemma_run_paired(k, log.drop_last());
        lemma_run_wf(k, log.drop_last());
        lemma_step_paired(k, prev.0, log.last(), prev.1);
    }
}

/// Where no output code can come from two different source keys, the events
/// the engine emits for any one code alternate down, up, down, ..., starting
/// with down: no release without a press, and no second press before a
/// release.
pub proof fn lemma_pairing(k: KeymapView, log: Seq<Input>, c: OutputCode)
    requires
        k.wf(),
        disjoint_outputs(k),
    ensures
        alternates(run(k, log).1, c),
{
    lemma_run_paired(k, log);
    assert(paired_at(run(k, log).0.states, run(k, log).1, c));
}

/// The code that source key `s` has down after `evs`, if any.
pub open spec fn source_down(evs: Seq<OutputEvent>, s: SourceCode) -> Option<OutputCode>
    decreases evs.len(),
{
    if evs.len() == 0 {
        None
    } else if evs.last().source == s {
        if evs.last().pressed {
            Some(evs.last().code)
        } else {
            None
        }
    } else {
        source_down(evs.drop_last(), s)
    }
}

/// Whether the events of source key `s` in `evs` alternate press and
/// release, starting with a press, each release carrying the code of the
/// press before it.
pub open spec fn source_paired(evs: Seq<OutputEvent>, s: SourceCode) -> bool
    decreases evs.len(),
{
    if evs.len() == 0 {
        true
    } else {
        source_paired(evs.drop_last(), s) && (evs.last().source == s ==> if evs.last().pressed {
            source_down(evs.drop_last(), s) is None
        } else {
            source_down(evs.drop_last(), s) == Some(evs.last().code)
        })
    }
}

/// The code a key state holds down.
pub open spec fn held_code(st: KeyState) -> Option<OutputCode> {
    match st {
        KeyState::Held(c) => c,
        _ => None,
    }
}

pub open spec fn source_paired_at(k: KeymapView, states: Seq<KeyState>, out: Seq<OutputEvent>, j: int) -> bool {
    source_paired(out, k.src[j]) && source_down(out, k.src[j]) == held_code(states[j])
}

pub open spec fn sources_paired(k: KeymapView, states: Seq<KeyState>, out: Seq<OutputEvent>) -> bool {
    forall|j: int| 0 <= j < k.src.len() ==> #[trigger] source_paired_at(k, states, out, j)
}

proof fn lemma_source_push(evs: Seq<OutputEvent>, e: OutputEvent, s: SourceCode)
    ensures
        source_down(evs.push(e), s) == (if e.source == s {
            if e.pressed { Some(e.code) } else { None::<OutputCode> }
        } else {
            source_down(evs, s)
        }),
        source_paired(evs.push(e), s) == (source_paired(evs, s) && (e.source == s ==> if e.pressed {
            source_down(evs, s) is None
        } else {
            source_down(evs, s) == Some(e.code)
        })),
{
    assert(evs.push(e).drop_last() =~= evs);
}

/// Key `i` changes from `old_st` to `new_st` and emits `evs`, all of its own;
/// every other key keeps its state.
proof fn lemma_one_key_paired(
    k: KeymapView,
    states: Seq<KeyState>,
    out: Seq<OutputEvent>,
    i: int,
    new_st: KeyState,
    evs: Seq<OutputEvent>,
)
    requires
        k.wf(),
        states.len() == k.src.len(),
        0 <= i < k.src.len(),
        sources_paired(k, states, out),
        forall|x: int| 0 <= x < evs.len() ==> (#[trigger] evs[x]).source == k.src[i],
        source_paired_at(k, states.update(i, new_st), out + evs, i),
    ensures
        sources_paired(k, states.update(i, new_st), out + evs),
{
    if evs.len() == 0 {
        assert(out + evs =~= out);
        assert forall|j: int| 0 <= j < k.src.len() implies #[trigger] source_paired_at(k, states.update(i, new_st), out + evs, j) by {
            assert(source_paired_at(k, states, out, j));
        }
    } else {
        let front = evs.drop_last();
        let e = evs.last();
        assert(out + evs =~= (out + front).push(e));
        assert forall|j: int| 0 <= j < k.src.len() && j != i implies #[trigger] source_paired_at(k, states.update(i, new_st), out + evs, j) by {
            assert(source_paired_at(k, states, out, j));
            assert(k.src[j] != k.src[i]);
            assert(e == evs[evs.len() - 1]);
            lemma_source_push(out + front, e, k.src[j]);
            lemma_other_source(out, front, k.src[j], k.src[i]);
        }
    }
}

/// Appending events of another source changes nothing for `s`.
proof fn lemma_other_source(out: Seq<OutputEvent>, evs: Seq<OutputEvent>, s: SourceCode, t: SourceCode)
    requires
        s != t,
        forall|x: int| 0 <= x < evs.len() ==> (#[trigger] evs[x]).source == t,
    ensures
        source_down(out + evs, s) == source_down(out, s),
        source_paired(out + evs, s) == source_paired(out, s),
    decreases evs.len(),
{
    if evs.len() == 0 {
        assert(out + evs =~= out);
    } else {
        let front = evs.drop_last();
        assert(out + evs =~= (out + front).push(evs.last()));
        assert(evs.last() == evs[evs.len() - 1]);
        lemma_source_push(out + front, evs.last(), s);
        lemma_other_source(out, front, s, t);
    }
}

proof fn lemma_resolve_hold_sources(k: KeymapView, s: EngineView, p: int, time: u64, out: Seq<OutputEvent>)
    requires
        wf(k, s),
        0 <= p < s.states.len(),
        pending_is(s, p),
        sources_paired(k, s.states, out),
    ensures
        sources_paired(k, resolve_hold(k, s, p, time).0.states, out + resolve_hold(k, s, p, time).1),
{
    let r = resolve_hold(k, s, p, time);
    let hold = s.states[p]->hold;
    assert(source_paired_at(k, s.states, out, p));
    match hold {
        Some(h) => {
            let e = OutputEvent { source: k.src[p], code: h, pressed: true, time };
            assert(r.1 =~= seq![e]);
            assert(out + r.1 =~= out.push(e));
            lemma_source_push(out, e, k.src[p]);
        },
        None => {
            assert(out + r.1 =~= out);
        },
    }
    lemma_one_key_paired(k, s.states, out, p, KeyState::Held(hold), r.1);
}

proof fn lemma_fire_sources(k: KeymapView, s: EngineView, now: u64, out: Seq<OutputEvent>)
    requires
        wf(k, s),
        sources_paired(k, s.states, out),
    ensures
        sources_paired(k, fire(k, s, now).0.states, out + fire(k, s, now).1),
{
    if let Some(p) = s.pending {
        if s.states[p as int] is Pending && s.states[p as int]->deadline <= now {
            lemma_resolve_hold_sources(k, s, p as int, s.states[p as int]->deadline, out);
            return;
        }
    }
    assert(out + fire(k, s, now).1 =~= out);
}

proof fn lemma_eager_sources(k: KeymapView, s: EngineView, i: int, now: u64, out: Seq<OutputEvent>)
    requires
        wf(k, s),
        sources_paired(k, s.states, out),
    ensures
        sources_paired(k, eager(k, s, i, now).0.states, out + eager(k, s, i, now).1),
{
    if let Some(p) = s.pending {
        if p != i && s.states[p as int] is Pending {
            lemma_resolve_hold_sources(k, s, p as int, now, out);
            return;
        }
    }
    assert(out + eager(k, s, i, now).1 =~= out);
}

proof fn lemma_press_sources(k: KeymapView, s: EngineView, i: int, now: u64, out: Seq<OutputEvent>)
    requires
        wf(k, s),
        0 <= i < s.states.len(),
        sources_paired(k, s.states, out),
    ensures
        sources_paired(k, press(k, s, i, now).0.states, out + press(k, s, i, now).1),
{
    let r = press(k, s, i, now);
    assert(source_paired_at(k, s.states, out, i));
    if s.states[i] is Idle {
        let a = k.layers[top_layer(s)][i];
        match a {
            Action::Output(c) => {
                let e = OutputEvent { source: k.src[i], code: c, pressed: true, time: now };
                assert(r.1 =~= seq![e]);
                assert(out + r.1 =~= out.push(e));
                lemma_source_push(out, e, k.src[i]);
            },
            _ => {
                assert(out + r.1 =~= out);
            },
        }
        assert(r.0.states == s.states.update(i, r.0.states[i]));
        lemma_one_key_paired(k, s.states, out, i, r.0.states[i], r.1);
    } else {
        assert(out + r.1 =~= out);
    }
}

proof fn lemma_release_sources(k: KeymapView, s: EngineView, i: int, now: u64, out: Seq<OutputEvent>)
    requires
        wf(k, s),
        0 <= i < s.states.len(),
        sources_paired(k, s.states, out),
    ensures
        sources_paired(k, release(k, s, i, now).0.states, out + release(k, s, i, now).1),
{
    let r = release(k, s, i, now);
    assert(source_paired_at(k, s.states, out, i));
    match s.states[i] {
        KeyState::Held(Some(c)) => {
            let e = OutputEvent { source: k.src[i], code: c, pressed: false, time: now };
            assert(r.1 =~= seq![e]);
            assert(out + r.1 =~= out.push(e));
            lemma_source_push(out, e, k.src[i]);
            lemma_one_key_paired(k, s.states, out, i, KeyState::Idle, r.1);
        },
        KeyState::Pending { tap: Some(t), .. } => {
            let d = OutputEvent { source: k.src[i], code: t, pressed: true, time: now };
            let u = OutputEvent { source: k.src[i], code: t, pressed: false, time: now };
            assert(r.1 =~= seq![d, u]);
            assert(out + r.1 =~= out.push(d).push(u));
            lemma_source_push(out, d, k.src[i]);
            lemma_source_push(out.push(d), u, k.src[i]);
            lemma_one_key_paired(k, s.states, out, i, KeyState::Idle, r.1);
        },
        KeyState::Idle => {
            assert(out + r.1 =~= out);
        },
        _ => {
            assert(out + r.1 =~= out);
            lemma_one_key_paired(k, s.states, out, i, KeyState::Idle, r.1);
        },
    }
}

proof fn lemma_step_sources(k: KeymapView, s: EngineView, input: Input, out: Seq<OutputEvent>)
    requires
        wf(k, s),
        sources_paired(k, s.states, out),
    ensures
        sources_paired(k, step(k, s, input).0.states, out + events_of(step(k, s, input).1)),
{
    let r = step(k, s, input);
    match input {
        Input::Key { code, pressed, time } => {
            if k.is_mapped(code) {
                let i = index_of(k, code);
                let r1 = fire(k, s, time);
                lemma_fire_wf(k, s, time);
                lemma_fire_sources(k, s, time, out);
                if pressed {
                    let r2 = eager(k, r1.0, i, time);
                    lemma_eager_wf(k, r1.0, i, time);
                    lemma_eager_sources(k, r1.0, i, time, out + r1.1);
                    let r3 = press(k, r2.0, i, time);
                    lemma_press_sources(k, r2.0, i, time, out + r1.1 + r2.1);
                    assert(out + r1.1 + r2.1 + r3.1 =~= out + (r1.1 + r2.1 + r3.1));
                } else {
                    let r2 = release(k, r1.0, i, time);
                    lemma_release_sources(k, r1.0, i, time, out + r1.1);
                    assert(out + r1.1 + r2.1 =~= out + (r1.1 + r2.1));
                }
            } else {
                assert(out + events_of(r.1) =~= out);
            }
        },
        Input::Tick { time } => {
            lemma_fire_sources(k, s, time, out);
        },
        _ => {
            assert(out + events_of(r.1) =~= out);
            assert(r.0.states == s.states);
        },
    }
}

proof fn lemma_run_sources(k: KeymapView, log: Seq<Input>)
    requires
        k.wf(),
    ensures
        sources_paired(k, run(k, log).0.states, run(k, log).1),
    decreases log.len(),
{
    if log.len() == 0 {
        let s = initial(k);
        assert forall|j: int| 0 <= j < k.src.len() implies #[trigger] source_paired_at(k, s.states, Seq::<OutputEvent>::empty(), j) by {}
    } else {
        let prev = run(k, log.drop_last());
        lemma_run_sources(k, log.drop_last());
        lemma_run_wf(k, log.drop_last());
        lemma_step_sources(k, prev.0, log.last(), prev.1);
    }
}

/// Whatever the keymap, the events the engine emits for any one source key
/// alternate press and release, starting with a press, and each release
/// lets go of the code its press sent: a key never sends a second press
/// before the first is released.
pub proof fn lemma_source_pairing(k: KeymapView, log: Seq<Input>, src: SourceCode)
    requires
        k.wf(),
    ensures
        source_paired(run(k, log).1, src),
{
    lemma_run_sources(k, log);
    if k.is_mapped(src) {
        let j = choose|j: int| 0 <= j < k.src.len() && k.src[j] == src;
        assert(source_paired_at(k, run(k, log).0.states, run(k, log).1, j));
    } else {
        lemma_unmapped_paired(k, log, src);
    }
}

proof fn lemma_unmapped_paired(k: KeymapView, log: Seq<Input>, src: SourceCode)
    requires
        k.wf(),
        !k.is_mapped(src),
    ensures
        source_paired(run(k, log).1, src),
{
    lemma_passthrough(k, log, src);
    lemma_absent_source(run(k, log).1, src);
}

proof fn lemma_absent_source(evs: Seq<OutputEvent>, s: SourceCode)
    requires
        forall|x: int| 0 <= x < evs.len() ==> (#[trigger] evs[x]).source != s,
    ensures
        source_paired(evs, s),
    decreases evs.len(),
{
    if evs.len() > 0 {
        assert(evs.last() == evs[evs.len() - 1]);
        lemma_absent_source(evs.drop_last(), s);
    }
}

} // verus!
