//! Core of a volume limiter for audio render endpoints.
//!
//! The crate keeps an in-memory cache of the currently known render
//! endpoints, stores a global volume ceiling together with per-device
//! overrides, and lowers a device's volume whenever it exceeds the
//! effective ceiling.  The OS-level device API is reached only through
//! the capability traits in [`audio`]; the persisted configuration
//! record is read and written through the codec in [`data`].

pub mod audio;
pub mod controller;
pub mod data;
pub mod handles;
pub mod order;
pub mod sim;
pub mod volume;
