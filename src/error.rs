//! The ways a simulation step can fail.
use vstd::prelude::*;

verus! {

#[derive(Clone, Copy, Debug, PartialEq, Eq, Structural)]
pub enum SimError {
    /// Missing topology, empty start or end sets, a profile without schemas,
    /// an uplink interval of zero, or a malformed rule or event id.
    ConfigError,
    /// No path joins two vertices that a movement needs joined.
    TopologyError,
    /// An uplink payload does not read `name:value,...`.
    PayloadFormatError,
    /// A sensor type names a device profile that is not registered.
    ProfileLookupError,
}

} // verus!
