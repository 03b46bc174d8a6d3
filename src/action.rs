use vstd::prelude::*;
use crate::keys::OutputCode;

verus! {

/// What pressing a key means.
#[derive(Debug)]
pub enum Action {
    /// Absorb the event and emit nothing.
    NoOp,
    /// Emit the given code for as long as the key is held.
    Output(OutputCode),
    /// Emit `tap` if the key is released before `timeout` milliseconds have
    /// elapsed, `hold` otherwise. Neither branch may itself be a `HoldTap`.
    HoldTap { tap: Box<Action>, hold: Box<Action>, timeout: u64 },
}

/// Whether `a` could ever emit `c`, along any branch.
pub open spec fn emits(a: Action, c: OutputCode) -> bool
    decreases a,
{
    match a {
        Action::NoOp => false,
        Action::Output(x) => x == c,
        Action::HoldTap { tap, hold, .. } => emits(*tap, c) || emits(*hold, c),
    }
}

/// An action is valid when no `HoldTap` nests inside another.
pub open spec fn is_simple(a: Action) -> bool {
    !(a is HoldTap)
}

pub open spec fn valid_action(a: Action) -> bool {
    match a {
        Action::HoldTap { tap, hold, .. } => is_simple(*tap) && is_simple(*hold),
        _ => true,
    }
}

/// The code emitted at once by an action that needs no disambiguation.
pub open spec fn immediate(a: Action) -> Option<OutputCode> {
    match a {
        Action::Output(c) => Some(c),
        _ => None,
    }
}

impl Action {
    /// A copy of the action.
    pub fn copy(&self) -> (r: Action)
        ensures
            r == *self,
        decreases self,
    {
        match self {
            Action::NoOp => Action::NoOp,
            Action::Output(c) => Action::Output(*c),
            Action::HoldTap { tap, hold, timeout } => Action::HoldTap {
                tap: Box::new((**tap).copy()),
                hold: Box::new((**hold).copy()),
                timeout: *timeout,
            },
        }
    }

    /// Whether no `HoldTap` nests inside another.
    pub fn is_valid(&self) -> (r: bool)
        ensures
            r == valid_action(*self),
    {
        match self {
            Action::HoldTap { tap, hold, .. } => {
                !matches!(**tap, Action::HoldTap { .. }) && !matches!(**hold, Action::HoldTap { .. })
            },
            _ => true,
        }
    }
}

/// The code to emit for an action that needs no disambiguation: none for
/// `NoOp`, `c` for `Output(c)`. A `HoldTap` is never resolved immediately,
/// so it gives none here as well.
pub fn resolve_immediate(a: &Action) -> (r: Option<OutputCode>)
    ensures
        r == immediate(*a),
{
    match a {
        Action::Output(c) => Some(*c),
        _ => None,
    }
}

} // verus!
