//! The error taxonomy of the registry: configuration errors (the persisted
//! file is absent or malformed), lookup errors (no device under the given
//! name), and network errors (the device's MAC address was not seen on the
//! network). Malformed neighbor-table lines are not errors at this level:
//! the parser drops them silently.

use vstd::prelude::*;

verus! {

/// Why a registry operation failed.
#[derive(Debug, Clone, Copy, PartialEq, Eq, Structural)]
pub enum Error {
    /// The registry file does not exist; the user must initialize one.
    ConfigMissing,
    /// The registry file exists but its contents do not parse.
    ConfigMalformed,
    /// No device with the requested name is in the registry.
    DeviceNotFound,
    /// The device's MAC address was not found in the neighbor table.
    NotFoundOnNetwork,
}

impl Error {
    /// A human-readable account of the error, for the layer that reports it.
    pub fn describe(&self) -> (r: &'static str)
        ensures
            *self is ConfigMissing ==> r@ == "Failed to load config. Must run \"init\" to set up."@,
            *self is ConfigMalformed ==> r@ == "Config file is malformed."@,
            *self is DeviceNotFound ==> r@ == "Device not found"@,
            *self is NotFoundOnNetwork ==> r@ == "Device not found on the network"@,
    {
        match self {
            Error::ConfigMissing => "Failed to load config. Must run \"init\" to set up.",
            Error::ConfigMalformed => "Config file is malformed.",
            Error::DeviceNotFound => "Device not found",
            Error::NotFoundOnNetwork => "Device not found on the network",
        }
    }
}

} // verus!
