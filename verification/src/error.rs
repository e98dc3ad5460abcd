//! What can go wrong while choosing or switching the default device.

use vstd::prelude::*;

verus! {

/// How a request to the audio server can fail.
#[derive(Clone, Copy, Debug, PartialEq, Eq, Structural)]
pub enum DirectoryError {
    /// The audio server could not be reached.
    Connection,
    /// The server refused the request: it knows no device of that name, or
    /// no such stream.
    Rejected,
    /// The answer handed over does not belong to the request that was made.
    Mismatch,
}

/// Why a device could not be chosen or made the default.
#[derive(Clone, Copy, Debug, PartialEq, Eq, Structural)]
pub enum SwitchError {
    /// A request to the audio server failed before anything was moved. The
    /// server's own failure is handed up unchanged.
    Directory(DirectoryError),
    /// No device has this identifier.
    NotFound { index: u32 },
    /// The device with this identifier has no name, and only a name can be
    /// made the default.
    Validation { index: u32 },
    /// Moving this stream failed. The default was already changed and the
    /// streams before this one were already moved; nothing is undone.
    Migration { stream: u32, cause: DirectoryError },
}

} // verus!
