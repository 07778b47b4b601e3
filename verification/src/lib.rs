//! A column store for telemetry samples and its binary codec.
//!
//! A store holds named columns, each a growing array of one element kind
//! with a bounded retention window, and is written to and read from a
//! compact little-endian byte layout.
//!
//! - `model`: what a store is, and what appending and replacing do to it;
//! - `tgph_format`: the store itself;
//! - `layout`: the byte layout, as functions on byte sequences;
//! - `codec`: writing a store to bytes and reading it back;
//! - `laws`: what holds of all of these, for every store;
//! - `wire`: little-endian integers;
//! - `gzip`: the gzip wrapping of a stored file;
//! - `sensor`: the report of the CO2 sensor.

pub mod codec;
pub mod gzip;
pub mod laws;
pub mod layout;
pub mod model;
pub mod sensor;
pub mod tgph_format;
pub mod wire;
