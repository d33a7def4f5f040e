use vstd::prelude::*;

verus! {

/// Where an entry stands in its load cycle.
#[derive(Copy, Clone, Debug, PartialEq, Eq, Structural, PartialOrd, Ord)]
pub enum LoadStatus {
    /// No payload is held and none has been requested.
    NotLoaded,
    /// A request is on its way; no payload is held yet.
    Loading,
    /// The decoded payload is held.
    Loaded,
}

/// Why [`crate::Manager::load`] refused or failed.
#[derive(Copy, Clone, Debug, PartialEq, Eq, Structural)]
pub enum LoadError {
    /// The path was never inserted into this manager, or has been dropped.
    NotFound,
    /// The source cannot resolve the path right now.
    SourceUnavailable,
    /// The loader is gone: nothing reads the request channel any more.
    ChannelClosed,
}

/// Why decoding a payload failed.
#[derive(Copy, Clone, Debug, PartialEq, Eq, Structural)]
pub enum DecodeError {
    /// The bytes do not describe a value of the asset's type.
    InvalidData,
}

/// Why a source could not hand out the bytes behind a path.
#[derive(Copy, Clone, Debug, PartialEq, Eq, Structural)]
pub enum SourceError {
    /// Nothing is stored under the path.
    NotFound,
    /// Something is stored under the path, but reading it failed.
    IoFailure,
}

} // verus!
