//! A tick-indexed schedule of payload groups.
//!
//! A host simulation loop schedules batches of payloads ("actors") at a tick
//! relative to the tracker's baseline, drops everything that has become due,
//! compacts groups that share a tick, and reads the payloads still held.
//!
//! `model` holds the mathematical description of a schedule and the laws it
//! obeys; `tracking` holds the executable tracker, whose contracts are stated
//! over that model.

pub mod model;
pub mod tracking;

pub use tracking::{ActorsData, ActorsTracker, TrackerError};
