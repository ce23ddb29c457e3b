//! The ways in which scanning a directory tree or opening a file can fail.

use vstd::prelude::*;

verus! {

/// What the operating system reported when an operation on the file system
/// failed, as far as the library tells failures apart.
#[derive(Clone, Copy, Debug, PartialEq, Eq, Structural)]
pub enum IoFault {
    /// The path does not exist.
    NotFound,
    /// The caller may not read the path.
    PermissionDenied,
    /// What was read is not valid UTF-8.
    InvalidData,
    /// Any other failure.
    Other,
}

/// Why a scan produced no tree.
#[derive(Clone, Copy, Debug, PartialEq, Eq, Structural)]
pub enum ScanFailure {
    NotFound,
    PermissionDenied,
    Io,
}

/// Why a file could not be opened as text.
#[derive(Clone, Copy, Debug, PartialEq, Eq, Structural)]
pub enum ReadFailure {
    NotFound,
    PermissionDenied,
    InvalidEncoding,
}

impl ScanFailure {
    /// The scan failure that a fault of the file system amounts to: a missing
    /// path and a refused one keep their kind, everything else is `Io`.
    pub fn from_fault(fault: IoFault) -> (r: ScanFailure)
        ensures
            r == match fault {
                IoFault::NotFound => ScanFailure::NotFound,
                IoFault::PermissionDenied => ScanFailure::PermissionDenied,
                IoFault::InvalidData => ScanFailure::Io,
                IoFault::Other => ScanFailure::Io,
            },
    {
        match fault {
            IoFault::NotFound => ScanFailure::NotFound,
            IoFault::PermissionDenied => ScanFailure::PermissionDenied,
            _ => ScanFailure::Io,
        }
    }
}

impl ReadFailure {
    /// The read failure that a fault of the file system amounts to: a missing
    /// path and a refused one keep their kind; in every other case the file
    /// gave no text, which is `InvalidEncoding`.
    pub fn from_fault(fault: IoFault) -> (r: ReadFailure)
        ensures
            r == match fault {
                IoFault::NotFound => ReadFailure::NotFound,
                IoFault::PermissionDenied => ReadFailure::PermissionDenied,
                IoFault::InvalidData => ReadFailure::InvalidEncoding,
                IoFault::Other => ReadFailure::InvalidEncoding,
            },
    {
        match fault {
            IoFault::NotFound => ReadFailure::NotFound,
            IoFault::PermissionDenied => ReadFailure::PermissionDenied,
            _ => ReadFailure::InvalidEncoding,
        }
    }
}

} // verus!
