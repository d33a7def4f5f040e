//! An asynchronous asset cache.
//!
//! A [`Manager`] maps paths to lazily decoded, reference-counted assets of one type.
//! Requests to load travel to a shared [`Loader`], which has the bytes fetched from a
//! [`Source`] and sends them back; [`Manager::maintain`] picks them up, decodes them
//! through the [`Asset`] contract and applies the eviction policy. A [`Builder`] wires
//! any number of managers to one loader.

pub mod asset;
pub mod builder;
pub mod channel;
pub mod laws;
pub mod loader;
pub mod manager;
pub mod model;
pub mod sources;
pub mod status;

pub use asset::{Asset, AssetHandle};
pub use builder::Builder;
pub use loader::{Delivery, Idle, Intake, Loader};
pub use manager::Manager;
pub use sources::Source;
pub use status::{DecodeError, LoadError, LoadStatus, SourceError};
