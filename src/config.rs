//! Construction-time configuration errors.
use vstd::prelude::*;

verus! {

/// A configuration that no engine can be built from.
#[derive(Clone, Copy, Debug, PartialEq, Eq, Structural)]
pub enum ConfigError {
    /// The agent capacity is zero.
    ZeroCapacity,
    /// The grid cell size is zero.
    ZeroCellSize,
    /// A squared interaction threshold is zero.
    ZeroThreshold,
}

} // verus!
