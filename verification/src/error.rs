//! The crate's own error type for the game-data loading paths.

use vstd::prelude::*;

verus! {

/// Error raised by the game-data loading paths built on top of the loader.
///
/// There is deliberately no error variant for an individual asset that fails
/// to load: the loader treats a failed load as a normally resolved request,
/// and the caller decides what a failed handle means. Callers that decode
/// game data collapse their I/O and decoding failures to `LoadLevels`.
#[derive(Debug, Copy, Clone, PartialEq, Eq, Structural)]
pub enum Error {
    LoadLevels,
}

} // verus!
