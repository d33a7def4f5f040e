use crate::status::SourceError;
use vstd::prelude::*;

verus! {

/// A medium that holds raw bytes under paths: a disk, a blob in memory, a network share.
///
/// Both functions are stateless and may be called for different paths at the same time.
/// What they return depends on the medium at the time of the call, so neither promises
/// anything about its result here; an implementation may (see [`resolves_to`]).
pub trait Source {
    /// Whether `path` resolves on this medium right now.
    fn resolves(path: &str) -> bool;

    /// Reads the bytes stored under `path`.
    fn load(path: &str) -> Result<Vec<u8>, SourceError>;
}

/// `resolves` is an answer that `S::resolves` may give for `path`.
pub open spec fn resolves_to<S: Source>(path: &str, resolves: bool) -> bool {
    S::resolves.ensures((path,), resolves)
}

} // verus!
