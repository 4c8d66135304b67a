//! Classification of input-device events.
//!
//! A companion watcher reads raw events from the keyboard's event device
//! and reacts only to the ambient-light-sensor toggle key being pressed.
//! The reader and the device discovery live outside the crate; the
//! decision of which events count is here.

use vstd::prelude::*;

verus! {

/// The event type of a key event on a Linux input device.
pub const EVENT_TYPE_KEY: u16 = 1;

/// The key code of the ambient-light-sensor toggle key.
pub const KEY_ALS_TOGGLE: u16 = 560;

/// A raw input-device event, as plain values: its timestamp in seconds
/// and microseconds, its type, its code and its value.
#[derive(Clone, Copy)]
pub struct InputEvent {
    pub sec: i64,
    pub usec: i64,
    pub event_type: u16,
    pub code: u16,
    pub value: i32,
}

/// An event asks for a sensor toggle exactly when it is a key-press of
/// the ambient-light-sensor toggle key.
pub open spec fn spec_is_als_toggle(e: InputEvent) -> bool {
    e.event_type == EVENT_TYPE_KEY && e.code == KEY_ALS_TOGGLE && e.value == 1
}

/// Decides whether an event is a press of the ambient-light-sensor
/// toggle key.
pub fn is_als_toggle(e: &InputEvent) -> (r: bool)
    ensures
        r == spec_is_als_toggle(*e),
{
    e.event_type == EVENT_TYPE_KEY && e.code == KEY_ALS_TOGGLE && e.value == 1
}

} // verus!
