//! Core of a reverse proxy: route resolution, round-robin server selection,
//! rate limiting, circuit breaking and metrics, with machine-checked contracts.
//!
//! Time enters the library as plain numbers. An instant is a count of
//! nanoseconds on a monotonic clock that the caller reads; a span of time is a
//! count of nanoseconds unless a field's name gives another unit.

pub mod clock;
pub mod config;
pub mod error;
pub mod features;
pub mod headers;
pub mod keyed;
pub mod proxy;
pub mod server;
pub mod text;
