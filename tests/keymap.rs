use ktrl::action::{resolve_immediate, Action};
use ktrl::capability::{create_key_outputs, create_mapped_keys};
use ktrl::config::{Cfg, KEY_A};
use ktrl::error::Error;
use ktrl::keymap::Keymap;
use ktrl::keys::{OutputCode, SourceCode};

const ESC: u16 = 1;
const A: u16 = 30;
const S: u16 = 31;
const D: u16 = 32;
const F: u16 = 33;
const O: u16 = 24;
const E: u16 = 18;
const U: u16 = 22;

fn out(c: u16) -> Action {
    Action::Output(OutputCode(c))
}

fn hold_tap(tap: Action, hold: Action, timeout: u64) -> Action {
    Action::HoldTap { tap: Box::new(tap), hold: Box::new(hold), timeout }
}

fn src(codes: &[u16]) -> Vec<SourceCode> {
    codes.iter().map(|c| SourceCode(*c)).collect()
}

fn two_layers() -> Keymap {
    let layers = vec![
        vec![out(ESC), out(A), out(S), out(D), out(F)],
        vec![out(ESC), out(A), out(O), out(E), out(U)],
    ];
    Keymap::new(src(&[1, 2, 3, 4, 5]), layers).unwrap()
}

fn codes(v: &[u16]) -> Vec<OutputCode> {
    v.iter().map(|c| OutputCode(*c)).collect()
}

#[test]
fn cfg_new_maps_key_a() {
    let cfg = Cfg::new();
    assert_eq!(cfg.mapped_keys, vec![SourceCode(KEY_A)]);
    assert!(cfg.src_keymap.is_empty());
}

#[test]
fn key_outputs_of_two_layers() {
    let outs = create_key_outputs(&two_layers());
    assert_eq!(outs.len(), 5);
    assert_eq!(outs[0], codes(&[ESC]));
    assert_eq!(outs[1], codes(&[A]));
    assert_eq!(outs[2], codes(&[S, O]));
    assert_eq!(outs[3], codes(&[D, E]));
    assert_eq!(outs[4], codes(&[F, U]));
}

#[test]
fn key_outputs_cover_both_branches() {
    let layers = vec![vec![hold_tap(out(7), out(8), 200), Action::NoOp]];
    let k = Keymap::new(src(&[10, 11]), layers).unwrap();
    let outs = create_key_outputs(&k);
    assert_eq!(outs[0], codes(&[7, 8]));
    assert!(outs[1].is_empty());
}

#[test]
fn key_outputs_list_each_code_once() {
    let layers = vec![vec![hold_tap(out(7), out(7), 100)], vec![out(7)], vec![hold_tap(Action::NoOp, out(9), 5)]];
    let k = Keymap::new(src(&[10]), layers).unwrap();
    assert_eq!(create_key_outputs(&k)[0], codes(&[7, 9]));
}

#[test]
fn key_outputs_are_idempotent() {
    let k = two_layers();
    assert_eq!(create_key_outputs(&k), create_key_outputs(&k));
}

#[test]
fn key_outputs_of_empty_keymap() {
    let k = Keymap::new(Vec::new(), vec![Vec::new()]).unwrap();
    assert!(create_key_outputs(&k).is_empty());
}

#[test]
fn mapped_keys_table() {
    let table = create_mapped_keys(&two_layers());
    assert_eq!(table, vec![false, true, true, true, true, true]);
}

#[test]
fn mapped_keys_table_of_empty_keymap() {
    let k = Keymap::new(Vec::new(), vec![Vec::new()]).unwrap();
    assert!(create_mapped_keys(&k).is_empty());
}

#[test]
fn duplicate_source_key_is_refused() {
    let r = Keymap::new(src(&[1, 2, 1]), vec![vec![Action::NoOp, Action::NoOp, Action::NoOp]]);
    assert!(matches!(r, Err(Error::DuplicateSourceKey)));
}

#[test]
fn missing_base_layer_is_refused() {
    let r = Keymap::new(src(&[1]), Vec::new());
    assert!(matches!(r, Err(Error::MissingBaseLayer)));
}

#[test]
fn layer_length_mismatch_is_refused() {
    let r = Keymap::new(src(&[1, 2]), vec![vec![out(A), out(S)], vec![out(A)]]);
    assert!(matches!(r, Err(Error::LayerLengthMismatch)));
}

#[test]
fn nested_hold_tap_is_refused() {
    let inner = hold_tap(out(A), out(S), 10);
    let r = Keymap::new(src(&[1]), vec![vec![hold_tap(inner, out(D), 200)]]);
    assert!(matches!(r, Err(Error::InvalidAction)));
}

#[test]
fn index_of_mapped_and_unmapped() {
    let k = two_layers();
    assert_eq!(k.index_of(SourceCode(4)), Ok(3));
    assert_eq!(k.index_of(SourceCode(9)), Err(Error::UnmappedKey));
}

#[test]
fn layer_and_action_lookup() {
    let k = two_layers();
    assert_eq!(k.layer_for(1).unwrap().len(), 5);
    assert!(matches!(k.layer_for(2), Err(Error::LayerOutOfRange)));
    assert!(matches!(k.action_at(1, 2), Ok(Action::Output(OutputCode(24)))));
    assert!(matches!(k.action_at(3, 0), Err(Error::LayerOutOfRange)));
    assert!(matches!(k.action_at(0, 5), Err(Error::UnmappedKey)));
}

#[test]
fn immediate_resolution() {
    assert_eq!(resolve_immediate(&Action::NoOp), None);
    assert_eq!(resolve_immediate(&out(A)), Some(OutputCode(A)));
    assert_eq!(resolve_immediate(&hold_tap(out(A), out(S), 200)), None);
}

#[test]
fn is_mapped_follows_source_keys() {
    let k = two_layers();
    assert!(k.is_mapped(SourceCode(1)));
    assert!(k.is_mapped(SourceCode(5)));
    assert!(!k.is_mapped(SourceCode(6)));
    assert!(!k.is_mapped(SourceCode(KEY_A)));
}

#[test]
fn action_copy_is_equal_in_shape() {
    let a = hold_tap(out(A), Action::NoOp, 150);
    match a.copy() {
        Action::HoldTap { tap, hold, timeout } => {
            assert!(matches!(*tap, Action::Output(OutputCode(30))));
            assert!(matches!(*hold, Action::NoOp));
            assert_eq!(timeout, 150);
        }
        _ => panic!("copy changed the variant"),
    }
}
