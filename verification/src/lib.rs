//! Ambient-light-driven backlight control.
//!
//! The crate holds the decision logic of a small daemon that samples an
//! illuminance sensor, maps the reading to a target brightness, and walks
//! the display backlight toward that target through a smoothed transition:
//!
//! - [`transform`]: the piecewise-linear illuminance-to-brightness mapping,
//! - [`easing`]: the fixed-point logistic easing curve,
//! - [`transition`]: the bounded, non-restartable transition generator,
//! - [`lifecycle`]: the single-instance guard protocol,
//! - [`sensor`]: parsing of raw sensor readings,
//! - [`control`]: the per-iteration orchestration of the loop,
//! - [`brightness`]: normalized levels and the actuator's device range,
//! - [`hotkey`]: classification of the sensor-toggle hotkey's events.
//!
//! Brightness is represented in fixed point: an integer count of
//! thousandths of full scale. All file, device and signal handling lives
//! outside this crate; it hands plain values in and takes plain values out.

pub mod brightness;
pub mod easing;
pub mod transform;
pub mod transition;
pub mod lifecycle;
pub mod control;
pub mod sensor;
pub mod hotkey;

pub use brightness::Backlight;
