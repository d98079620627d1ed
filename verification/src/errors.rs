use vstd::prelude::*;

verus! {

/// Why a byte buffer could not be decoded as a typed registry value.
#[derive(Debug, Clone, Copy, PartialEq, Eq, Structural)]
pub enum CodecError {
    /// The buffer length does not match the fixed width the tag demands.
    LengthMismatch,
    /// The buffer is not well-formed text.
    InvalidText,
}

/// The failure taxonomy of the bridge core.
///
/// OS-call failures are wrapped into one of these kinds; the ones that
/// originate in an OS call carry the underlying OS error code for
/// diagnostics.
#[derive(Debug, Clone, PartialEq, Eq)]
pub enum BridgeError {
    /// A key or value that was asked for is absent.
    NotFound,
    /// A key path is malformed (empty, or with an empty segment).
    InvalidPath,
    /// A symbolic hive name matched none of the five well-known roots;
    /// carries the offending text.
    UnknownHive(String),
    /// The OS refused the operation for lack of rights.
    PermissionDenied(u32),
    /// A typed value could not be decoded from or encoded to bytes.
    Codec(CodecError),
    /// The operation was refused by this layer (writing a value with no
    /// defined wire encoding).
    Rejected,
    /// Process creation failed.
    SpawnFailed(u32),
    /// Any other OS-handle failure, with the OS error code.
    OsFailure(u32),
}

} // verus!
