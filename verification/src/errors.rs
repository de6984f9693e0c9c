use vstd::prelude::*;

verus! {

/// Failure of the bridge transport layer.
///
/// `DeviceNotFound`, `PermissionDenied` and `ProtocolMismatch` can only
/// arise while connecting; `Timeout`, `TransportError` and `Disconnected`
/// arise on individual bus transactions. A `TransportError` is fatal to the
/// bridge: every later call surfaces `Disconnected`.
#[derive(Clone, Copy, Debug, PartialEq, Eq, Structural)]
pub enum BridgeError {
    DeviceNotFound,
    PermissionDenied,
    ProtocolMismatch,
    Timeout,
    TransportError,
    Disconnected,
}

/// Failure of a debug-module operation.
#[derive(Clone, Copy, Debug, PartialEq, Eq, Structural)]
pub enum DebugError {
    /// The target did not reach the requested run state within the poll budget.
    Timeout,
    /// An abstract command stayed busy or in error after the bounded retries.
    CommandError,
    /// A register, memory or breakpoint operation was issued while the hart
    /// was not halted.
    NotHalted,
    /// The target does not implement the requested facility
    /// (e.g. hardware breakpoints without trigger support).
    Unsupported,
    /// The underlying bus transaction failed.
    Bus(BridgeError),
}

impl DebugError {
    /// Numeric code carried in a GDB `E<code>` error reply, following the
    /// usual errno conventions: fault, invalid, access, unsupported, I/O.
    pub open spec fn spec_code(self) -> u8 {
        match self {
            DebugError::Timeout => 14u8,
            DebugError::CommandError => 22u8,
            DebugError::NotHalted => 13u8,
            DebugError::Unsupported => 95u8,
            DebugError::Bus(_) => 5u8,
        }
    }

    /// Numeric code carried in a GDB `E<code>` error reply.
    pub fn code(&self) -> (r: u8)
        ensures
            r == self.spec_code(),
    {
        match self {
            DebugError::Timeout => 14u8,
            DebugError::CommandError => 22u8,
            DebugError::NotHalted => 13u8,
            DebugError::Unsupported => 95u8,
            DebugError::Bus(_) => 5u8,
        }
    }
}

/// Invalid startup configuration; fatal before any server starts.
#[derive(Clone, Copy, Debug, PartialEq, Eq, Structural)]
pub enum ConfigError {
    /// A numeric parameter could not be parsed.
    NumberParseError,
    /// No server kind and no address operation was selected.
    NoOperationSpecified,
    /// A resolved or translated address falls outside the mappable range.
    AddressOutOfRange,
    /// A descriptor (register map, transport parameters) is malformed.
    InvalidConfig,
}

} // verus!
