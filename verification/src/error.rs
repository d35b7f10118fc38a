//! Errors.
use vstd::prelude::*;

use crate::disk::FileId;
use crate::path::RelPath;

verus! {

/// What went wrong in a filesystem call.
#[derive(Clone, Copy, Debug, PartialEq, Eq, Structural)]
pub enum IoErrorKind {
    NotFound,
    AlreadyExists,
    NotADirectory,
    IsADirectory,
    DirectoryNotEmpty,
    InvalidInput,
    Unsupported,
    /// A parent directory is not the one the caller named.
    ParentMismatch,
    Other,
}

/// A failed filesystem call.
#[derive(Clone, Debug)]
pub struct IoError {
    pub kind: IoErrorKind,
    /// Text for people; no decision depends on it.
    pub message: String,
}

impl IoError {
    /// An error of the given kind with a fixed text.
    pub fn new(kind: IoErrorKind, message: &str) -> (r: IoError)
        ensures
            r.kind == kind,
            r.message@ == message@,
    {
        IoError { kind, message: message.to_owned() }
    }
}

/// Result of a filesystem call.
pub type IoResult<T> = core::result::Result<T, IoError>;

/// Why a plan or journal is rejected, or why a tree cannot be interpreted.
#[derive(Clone, Debug, PartialEq, Eq)]
pub enum Reason {
    UnknownToken,
    BeyondLastLocation,
    MovedTwice,
    /// Two steps of this wave overlap at these paths.
    Overlap { wave: usize, first: RelPath, second: RelPath },
    /// This token has no step from this location.
    MissingStep { token: usize, from: usize },
    /// This token's steps are not in strictly increasing waves.
    WavesNotIncreasing { token: usize },
    NotAtSource { wave: usize, token: usize },
    Occupied { wave: usize, path: RelPath, token: usize },
    ParentNotInPlace { wave: usize, path: RelPath },
    ParentIdentity { wave: usize, parent: RelPath },
    NotFinal { token: usize },
    SameFinal { path: RelPath },
    NoChecksum,
    TornChecksum,
    ChecksumMismatch,
    /// The journal is not a journal; the text says why.
    DoesNotParse { message: String },
    UnknownFormat { format: u32 },
    OtherTransaction,
    OtherRoot,
    TooFewLocations,
    RootLocation,
    /// A location inside the private area that belongs to another transaction.
    ForeignLocation { path: RelPath },
    UnknownEntry { path: RelPath },
    /// The token is at none of its locations.
    TokenLost { id: FileId },
    /// The token is at several of its locations.
    TokenSeveral { id: FileId, hits: Vec<usize> },
    /// Two waves are both partly applied.
    TwoPartialWaves { first: usize, second: usize },
    NoSuchWave,
    NotUndone { wave: usize },
    NotApplied { wave: usize },
    CommittedAndRolledBack,
    NoJournal,
}

/// Every error a transaction can return.
#[derive(Debug)]
#[non_exhaustive]
pub enum Error {
    /// The path is not a valid transaction path (absolute, `..`, NUL, reserved `.fstx`, ...).
    InvalidPath { path: Vec<u8>, reason: &'static str },
    NotFound(RelPath),
    AlreadyExists(RelPath),
    NotADirectory(RelPath),
    IsADirectory(RelPath),
    DirectoryNotEmpty(RelPath),
    /// Symlinks, FIFOs, sockets and devices cannot be the target of an operation.
    UnsupportedFileType(RelPath),
    /// A directory cannot be moved into itself.
    InvalidMove { from: RelPath, to: RelPath },
    /// On a case-insensitive filesystem the name collides with an existing sibling.
    CaseCollision { path: RelPath, existing: RelPath },
    /// An entry changed on disk between the operation and commit (an outside writer).
    Conflict(RelPath),
    /// The filesystem failed a required capability probe.
    UnsupportedFilesystem { missing: Vec<&'static str> },
    /// There is no backend for this platform.
    UnsupportedPlatform,
    /// Recovery found a state it cannot interpret. Nothing was touched.
    RecoveryRequired { tx: String, reason: Reason },
    /// Writing or syncing the COMMITTED marker failed. The transaction is either fully
    /// applied or will be rolled back by the next recovery; which one is unknown.
    CommitOutcomeUnknown { tx: String, source: IoError },
    /// The commit failed and the in-process rollback failed too.
    RollbackFailed { cause: Box<Error>, rollback: Box<Error> },
    Io(IoError),
}

/// Result alias used throughout the crate.
pub type Result<T> = core::result::Result<T, Error>;

} // verus!
