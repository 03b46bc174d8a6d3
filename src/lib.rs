//! Layered key remapping: keymaps of actions, the per-key output capability
//! map, and the event resolution engine with its hold/tap state machine.

pub mod config;
pub mod keys;
pub mod action;
pub mod error;
pub mod keymap;
pub mod capability;
pub mod engine;
pub mod pairing;
