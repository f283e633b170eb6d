//! One small, copyable, allocation-free error.

use vstd::prelude::*;

verus! {

/// What can go wrong anywhere in the library.
#[derive(Debug, Clone, Copy, PartialEq, Eq, Structural)]
pub enum Error {
    /// The format, rate, geometry or feature is not supported here.
    Unsupported,
    /// A caller-supplied buffer is too small; `needed` is the size that would
    /// have succeeded.
    BufferTooSmall {
        /// Bytes required.
        needed: usize,
    },
    /// Lengths, channel counts or sample alignment do not agree.
    InvalidGeometry,
    /// A value violates the contract of an encoding (bad tag, overlong field).
    InvalidFormat,
    /// The peripheral, transport or storage reported a fault.
    Hardware,
    /// The operation did not complete in time.
    Timeout,
    /// The resource is held by someone else right now.
    Busy,
    /// A signature, key or proof failed to verify.
    Crypto,
    /// The caller holds no capability that permits this.
    Denied,
    /// Stored data failed integrity checks.
    Corrupt,
}

/// Shorthand used throughout.
pub type Result<T> = core::result::Result<T, Error>;

} // verus!
