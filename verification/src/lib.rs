//! Alignment and tabular export of lap telemetry.
//!
//! A run is a list of laps, and each lap a list of channels: named, unit-tagged
//! series of samples, every channel on a time grid of its own. The crate brings the
//! channels of a lap onto one row axis, lays the rows out as a table of text cells
//! and encodes the table as delimited text.
//!
//! Time is fixed-point throughout: an instant is a signed count of microseconds.

pub mod instant;
pub mod nearest;
pub mod channel;
pub mod align;
pub mod axis;
pub mod text;
pub mod columns;
pub mod table;
pub mod delimited;
pub mod error;
pub mod export;
pub mod select;
