use ktrl::action::Action;
use ktrl::engine::{replay, Engine, Input, KeyState, OutputEvent};
use ktrl::error::Error;
use ktrl::keymap::Keymap;
use ktrl::keys::{OutputCode, SourceCode};

const T: u16 = 20;
const H: u16 = 42;
const X: u16 = 45;

fn out(c: u16) -> Action {
    Action::Output(OutputCode(c))
}

fn hold_tap(tap: Action, hold: Action, timeout: u64) -> Action {
    Action::HoldTap { tap: Box::new(tap), hold: Box::new(hold), timeout }
}

/// Key 1 holds/taps, key 2 emits `X`, key 3 does nothing.
fn keymap() -> Keymap {
    let layers = vec![vec![hold_tap(out(T), out(H), 200), out(X), Action::NoOp]];
    Keymap::new(vec![SourceCode(1), SourceCode(2), SourceCode(3)], layers).unwrap()
}

fn key(code: u16, pressed: bool, time: u64) -> Input {
    Input::Key { code: SourceCode(code), pressed, time }
}

fn ev(source: u16, code: u16, pressed: bool, time: u64) -> OutputEvent {
    OutputEvent { source: SourceCode(source), code: OutputCode(code), pressed, time }
}

#[test]
fn tap_before_timeout_emits_tap_pair() {
    let mut e = Engine::new(keymap());
    assert_eq!(e.handle(key(1, true, 0)), Ok(vec![]));
    assert!(matches!(e.key_state(0), KeyState::Pending { deadline: 200, .. }));
    assert_eq!(e.next_deadline(), Some(200));
    assert_eq!(e.handle(key(1, false, 50)), Ok(vec![ev(1, T, true, 50), ev(1, T, false, 50)]));
    assert_eq!(e.key_state(0), KeyState::Idle);
    assert_eq!(e.next_deadline(), None);
}

#[test]
fn hold_resolves_at_timeout() {
    let mut e = Engine::new(keymap());
    assert_eq!(e.handle(key(1, true, 0)), Ok(vec![]));
    assert_eq!(e.handle(Input::Tick { time: 150 }), Ok(vec![]));
    assert_eq!(e.handle(Input::Tick { time: 250 }), Ok(vec![ev(1, H, true, 200)]));
    assert_eq!(e.key_state(0), KeyState::Held(Some(OutputCode(H))));
    assert_eq!(e.handle(key(1, false, 300)), Ok(vec![ev(1, H, false, 300)]));
}

#[test]
fn late_release_without_tick_still_holds() {
    let log = vec![key(1, true, 0), key(1, false, 250)];
    assert_eq!(replay(keymap(), &log), vec![ev(1, H, true, 200), ev(1, H, false, 250)]);
}

#[test]
fn release_exactly_at_timeout_holds() {
    let log = vec![key(1, true, 100), key(1, false, 300)];
    assert_eq!(replay(keymap(), &log), vec![ev(1, H, true, 300), ev(1, H, false, 300)]);
}

#[test]
fn other_key_press_resolves_pending_as_hold() {
    let log = vec![key(1, true, 0), key(2, true, 10), key(2, false, 20), key(1, false, 30)];
    let expected = vec![ev(1, H, true, 10), ev(2, X, true, 10), ev(2, X, false, 20), ev(1, H, false, 30)];
    assert_eq!(replay(keymap(), &log), expected);
}

#[test]
fn other_key_release_leaves_pending_alone() {
    let log = vec![key(2, true, 0), key(1, true, 5), key(2, false, 10), key(1, false, 20)];
    let expected = vec![ev(2, X, true, 0), ev(2, X, false, 10), ev(1, T, true, 20), ev(1, T, false, 20)];
    assert_eq!(replay(keymap(), &log), expected);
}

#[test]
fn noop_key_emits_nothing() {
    let log = vec![key(3, true, 0), key(3, false, 10)];
    assert_eq!(replay(keymap(), &log), vec![]);
}

#[test]
fn repeated_press_is_ignored() {
    let log = vec![key(2, true, 0), key(2, true, 5), key(2, false, 10), key(2, false, 15)];
    assert_eq!(replay(keymap(), &log), vec![ev(2, X, true, 0), ev(2, X, false, 10)]);
}

#[test]
fn unmapped_key_is_refused_and_changes_nothing() {
    let mut e = Engine::new(keymap());
    assert_eq!(e.handle(key(1, true, 0)), Ok(vec![]));
    assert_eq!(e.handle(key(9, true, 500)), Err(Error::UnmappedKey));
    assert!(matches!(e.key_state(0), KeyState::Pending { .. }));
    let log = vec![key(9, true, 0), key(9, false, 1)];
    assert!(replay(keymap(), &log).is_empty());
}

#[test]
fn layers_push_and_pop() {
    let layers = vec![vec![out(X)], vec![out(T)]];
    let k = Keymap::new(vec![SourceCode(1)], layers).unwrap();
    let mut e = Engine::new(k);
    assert_eq!(e.handle(Input::PushLayer(2)), Err(Error::LayerOutOfRange));
    assert_eq!(e.handle(Input::PushLayer(1)), Ok(vec![]));
    assert_eq!(e.layer_stack(), &vec![0, 1]);
    assert_eq!(e.handle(key(1, true, 0)), Ok(vec![ev(1, T, true, 0)]));
    assert_eq!(e.handle(Input::PopLayer), Ok(vec![]));
    assert_eq!(e.handle(key(1, false, 5)), Ok(vec![ev(1, T, false, 5)]));
    assert_eq!(e.handle(Input::PopLayer), Ok(vec![]));
    assert_eq!(e.layer_stack(), &vec![0]);
    assert_eq!(e.handle(key(1, true, 10)), Ok(vec![ev(1, X, true, 10)]));
}

#[test]
fn replay_is_deterministic() {
    let log = vec![key(1, true, 0), key(2, true, 10), key(1, false, 30), Input::Tick { time: 40 }, key(2, false, 50)];
    assert_eq!(replay(keymap(), &log), replay(keymap(), &log));
}

#[test]
fn outputs_pair_per_code() {
    let log = vec![key(1, true, 0), key(1, false, 10), key(1, true, 20), Input::Tick { time: 400 }, key(2, true, 410), key(1, false, 420), key(2, false, 430)];
    let evs = replay(keymap(), &log);
    for code in [T, H, X] {
        let mut down = false;
        for e in evs.iter().filter(|e| e.code == OutputCode(code)) {
            assert_ne!(e.pressed, down);
            down = e.pressed;
        }
        assert!(!down);
    }
}

#[test]
fn deadline_saturates() {
    let layers = vec![vec![hold_tap(out(T), out(H), u64::MAX)]];
    let k = Keymap::new(vec![SourceCode(1)], layers).unwrap();
    let mut e = Engine::new(k);
    assert_eq!(e.handle(key(1, true, 10)), Ok(vec![]));
    assert_eq!(e.next_deadline(), Some(u64::MAX));
}

#[test]
fn shared_code_pairs_per_source_key() {
    let layers = vec![vec![out(X), out(X)]];
    let k = Keymap::new(vec![SourceCode(1), SourceCode(2)], layers).unwrap();
    let log = vec![key(1, true, 0), key(2, true, 5), key(1, false, 10), key(2, false, 15)];
    let expected = vec![ev(1, X, true, 0), ev(2, X, true, 5), ev(1, X, false, 10), ev(2, X, false, 15)];
    assert_eq!(replay(k, &log), expected);
}
