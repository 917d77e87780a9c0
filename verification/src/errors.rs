//! Error types reported by the tile matrix set engine.

use vstd::prelude::*;

verus! {

/// Errors raised by tile and quadkey computations.
#[derive(Debug, PartialEq, Eq, Structural)]
pub enum MorecantileError {
    /// Invalid TileMatrixSet identifier.
    InvalidIdentifier,
    /// Raised when math errors occur beyond ~85 degrees N or S.
    InvalidLatitudeError,
    /// Raised when errors occur in parsing a function's tile arg(s).
    TileArgParsingError,
    /// Point is outside TMS bounds.
    PointOutsideTMSBounds,
    /// Raised when a custom TileMatrixSet doesn't support quadkeys.
    NoQuadkeySupport,
    /// Raised when errors occur in computing or parsing quad keys.
    QuadKeyError,
    /// TileMatrix not found for a level.
    InvalidZoomError(u16),
}

/// Errors raised when building or querying a tile matrix set engine.
#[derive(Debug, PartialEq, Eq)]
pub enum TmsError {
    /// A tile matrix identifier does not parse as a zoom level.
    InvalidZoomId(String),
    /// A zoom selection strategy other than lower|upper|auto was requested.
    InvalidZoomLevelStrategy(String),
    /// A zoom level violates the parent/child zoom ordering.
    InvalidZoom(u8),
    /// A tile matrix has a zero width, height, tile width or tile height.
    NonZeroError,
}

/// Errors raised by a registry of tile matrix sets.
#[derive(Debug, PartialEq, Eq)]
pub enum RegistryError {
    /// No tile matrix set is registered under the name.
    TmsNotFound(String),
    /// The name is already registered and overwriting was not requested.
    TmsAlreadyRegistered(String),
    /// Building the engine from the registered definition failed.
    TmsError(TmsError),
}

} // verus!
