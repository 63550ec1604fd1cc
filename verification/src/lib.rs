//! The logic of a SENEC v3 telemetry collector, verified with Verus.
//!
//! A SENEC v3 home battery answers a JSON POST with hex-typed strings, one per key it was asked
//! for. This crate holds what turns those answers into samples, and what decides which keys to
//! ask for:
//!
//! - [`decode`] reads the typed tokens (`fl_`, `u1_`, `i3_`, ...) a value string holds;
//! - [`model`] holds the key list a device is polled with and the classification of refusals;
//! - [`profile`] cleans a key list before it is polled;
//! - [`query`] cuts a request into POST bodies and merges the replies;
//! - [`poll`] turns merged answers into samples and the two power readings;
//! - [`scan`], [`discovery`] and [`candidates`] find object and key names in the device's web UI
//!   and keep the ones the device answers for;
//! - [`text`] and [`order`] are the character and ordering helpers underneath.
//!
//! HTTP, files, the metrics registry and the floating-point economics live in the program
//! around this crate.
pub mod text;
pub mod order;
pub mod model;
pub mod decode;
pub mod profile;
pub mod scan;
pub mod query;
pub mod discovery;
pub mod candidates;
pub mod poll;
