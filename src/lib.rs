//! Turns a timestamped per-driver position log into a fixed-size, time-ordered
//! animation buffer for an LED track display.
//!
//! Rows `timestamp, led position, driver number` are read by `record`,
//! collapsed into one group per instant keeping the first update of each
//! driver by `group`, and laid out by `frames` as `FRAME_COUNT` frames of
//! `SLOT_COUNT` slots. Offsets are measured from the earliest instant of the
//! log, and groups are taken in order of offset, so the kept instants are the
//! earliest ones. `codec` writes a buffer as text and reads it back; `laws`
//! states what holds of every buffer.
pub mod instant;
pub mod text;
pub mod record;
pub mod group;
pub mod frames;
pub mod pipeline;
pub mod laws;
pub mod codec;

pub use instant::UtcInstant;
pub use record::{DriverData, DriverDataWithTimestamp};
pub use frames::{UpdateFrame, VisualizationData};
