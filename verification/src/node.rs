//! What the Node.js bindings make of transactions: stable error codes, options, and reports in
//! plain values.
use vstd::prelude::*;

use crate::error::{Error, Result};
use crate::inspect::{Inspection, RecoveryAction, TxInspection};
use crate::messages::{error_text, reason_text};
use crate::recover::RecoveryReport;
use crate::transaction::wrote;
use crate::transaction::{Options, Transaction};
use crate::vfs::Vfs;

verus! {

/// The stable code of an error.
pub open spec fn code_text(e: Error) -> Seq<char> {
    match e {
        Error::InvalidPath { .. } => "INVALID_PATH"@,
        Error::NotFound(_) => "NOT_FOUND"@,
        Error::AlreadyExists(_) => "ALREADY_EXISTS"@,
        Error::NotADirectory(_) => "NOT_A_DIRECTORY"@,
        Error::IsADirectory(_) => "IS_A_DIRECTORY"@,
        Error::DirectoryNotEmpty(_) => "DIRECTORY_NOT_EMPTY"@,
        Error::UnsupportedFileType(_) => "UNSUPPORTED_FILE_TYPE"@,
        Error::InvalidMove { .. } => "INVALID_MOVE"@,
        Error::CaseCollision { .. } => "CASE_COLLISION"@,
        Error::Conflict(_) => "CONFLICT"@,
        Error::UnsupportedFilesystem { .. } => "UNSUPPORTED_FILESYSTEM"@,
        Error::UnsupportedPlatform => "UNSUPPORTED_PLATFORM"@,
        Error::RecoveryRequired { .. } => "RECOVERY_REQUIRED"@,
        Error::CommitOutcomeUnknown { .. } => "COMMIT_OUTCOME_UNKNOWN"@,
        Error::RollbackFailed { .. } => "ROLLBACK_FAILED"@,
        Error::Io(_) => "IO"@,
    }
}

/// The stable code of an error.
pub fn code_of(e: &Error) -> (r: &'static str)
    ensures
        r@ == code_text(*e),
{
    match e {
        Error::InvalidPath { .. } => "INVALID_PATH",
        Error::NotFound(_) => "NOT_FOUND",
        Error::AlreadyExists(_) => "ALREADY_EXISTS",
        Error::NotADirectory(_) => "NOT_A_DIRECTORY",
        Error::IsADirectory(_) => "IS_A_DIRECTORY",
        Error::DirectoryNotEmpty(_) => "DIRECTORY_NOT_EMPTY",
        Error::UnsupportedFileType(_) => "UNSUPPORTED_FILE_TYPE",
        Error::InvalidMove { .. } => "INVALID_MOVE",
        Error::CaseCollision { .. } => "CASE_COLLISION",
        Error::Conflict(_) => "CONFLICT",
        Error::UnsupportedFilesystem { .. } => "UNSUPPORTED_FILESYSTEM",
        Error::UnsupportedPlatform => "UNSUPPORTED_PLATFORM",
        Error::RecoveryRequired { .. } => "RECOVERY_REQUIRED",
        Error::CommitOutcomeUnknown { .. } => "COMMIT_OUTCOME_UNKNOWN",
        Error::RollbackFailed { .. } => "ROLLBACK_FAILED",
        Error::Io(_) => "IO",
    }
}

/// The message that a script sees for an error: its code in brackets, then the text.
pub fn js_err(e: &Error) -> (r: String)
    ensures
        r@ == "["@ + code_text(*e) + "] "@ + error_text(*e),
{
    String::from_str("[").concat(code_of(e)).concat("] ").concat(e.text().as_str())
}

/// What is said of a transaction that is over.
pub open spec fn finished_text() -> Seq<char> {
    "this transaction was already committed or discarded"@
}

/// The message that a script sees when it uses a transaction that is over.
pub fn finished() -> (r: String)
    ensures
        r@ == "[TRANSACTION_FINISHED] "@ + finished_text(),
{
    String::from_str("[TRANSACTION_FINISHED] ").concat("this transaction was already committed or discarded")
}

/// Options for starting a transaction.
#[derive(Clone, Copy, Debug)]
pub struct BeginOptions {
    /// Allow network and FUSE filesystems (outside the tested crash contract).
    pub allow_untested_fs: Option<bool>,
}

impl Default for BeginOptions {
    fn default() -> (r: Self)
        ensures
            r.allow_untested_fs is None,
    {
        BeginOptions { allow_untested_fs: None }
    }
}

/// Options for a write.
#[derive(Clone, Copy, Debug)]
pub struct WriteOptions {
    /// Exact permission bits, e.g. 0o755.
    pub mode: Option<u32>,
}

/// The options that a script asks for; what it leaves out is the default.
pub fn opts(o: Option<BeginOptions>) -> (r: Options)
    ensures
        r.allows() == (o matches Some(x) && x.allow_untested_fs == Some(true)),
{
    let yes = match o {
        Some(x) => match x.allow_untested_fs {
            Some(b) => b,
            None => false,
        },
        None => false,
    };
    Options::new().allow_untested_fs(yes)
}

/// The permission bits that a script asks for.
pub open spec fn bits_asked(options: Option<WriteOptions>) -> Option<u32> {
    match options {
        Some(o) => match o.mode {
            Some(m) => Some(m & 0o7777),
            None => None,
        },
        None => None,
    }
}

/// Creates or replaces a file.
pub fn write<'a, V: Vfs>(
    tx: &mut Transaction<'a, V>,
    path: &str,
    data: &[u8],
    options: Option<WriteOptions>,
) -> (r: Result<()>)
    requires
        old(tx).well_formed(),
    ensures
        *final(final(tx).vfs) == *final(old(tx).vfs),
        old(tx).goes_on(*final(tx)),
        wrote(*old(tx), *final(tx), vstd::utf8::encode_utf8(path@), data@, bits_asked(options), r),
{
    let mode = match options {
        Some(o) => o.mode,
        None => None,
    };
    match mode {
        Some(m) => tx.write_with_mode(path.as_bytes(), data, m),
        None => tx.write(path.as_bytes(), data),
    }
}

/// What became of a commit, in plain values.
#[derive(Debug)]
pub struct CommitOutcome {
    pub ok: bool,
    pub code: Option<String>,
    pub message: Option<String>,
}

/// Tells what became of a commit; `None` stands for a transaction that was over already.
pub fn commit_outcome(r: Option<Result<()>>) -> (out: CommitOutcome)
    ensures
        match r {
            None => !out.ok && (out.code matches Some(c) && c@ == "TRANSACTION_FINISHED"@) && (
            out.message matches Some(m) && m@ == finished_text()),
            Some(Ok(_)) => out.ok && out.code is None && out.message is None,
            Some(Err(e)) => !out.ok && (out.code matches Some(c) && c@ == code_text(e)) && (
            out.message matches Some(m) && m@ == error_text(e)),
        },
{
    match r {
        None => CommitOutcome {
            ok: false,
            code: Some(String::from_str("TRANSACTION_FINISHED")),
            message: Some(String::from_str("this transaction was already committed or discarded")),
        },
        Some(Ok(_)) => CommitOutcome { ok: true, code: None, message: None },
        Some(Err(e)) => CommitOutcome {
            ok: false,
            code: Some(String::from_str(code_of(&e))),
            message: Some(e.text()),
        },
    }
}

/// What recovery did, with the count cut to the width that scripts get.
pub fn garbage_count(r: &RecoveryReport) -> (n: u32)
    ensures
        n == r.garbage_removed as u32,
{
    #[verifier::truncate] (r.garbage_removed as u32)
}

/// The name of a recovery action.
pub open spec fn action_text(a: RecoveryAction) -> Seq<char> {
    match a {
        RecoveryAction::Discard => "Discard"@,
        RecoveryAction::CleanUpCommitted => "CleanUpCommitted"@,
        RecoveryAction::CleanUpRolledBack => "CleanUpRolledBack"@,
        RecoveryAction::RollBack => "RollBack"@,
        RecoveryAction::RecoveryRequired => "RecoveryRequired"@,
    }
}

/// The name of a recovery action.
pub fn action_name(a: RecoveryAction) -> (r: &'static str)
    ensures
        r@ == action_text(a),
{
    match a {
        RecoveryAction::Discard => "Discard",
        RecoveryAction::CleanUpCommitted => "CleanUpCommitted",
        RecoveryAction::CleanUpRolledBack => "CleanUpRolledBack",
        RecoveryAction::RollBack => "RollBack",
        RecoveryAction::RecoveryRequired => "RecoveryRequired",
    }
}

/// What is known of a transaction, in plain values.
#[derive(Debug)]
pub struct TxSummary {
    pub name: String,
    /// The name of the recovery action.
    pub action: String,
    pub reason: Option<String>,
    /// Number of entries the transaction moves.
    pub entries: usize,
}

/// The summary is right.
pub open spec fn summarizes(t: TxInspection, s: TxSummary) -> bool {
    &&& s.name@ == t.name@
    &&& s.action@ == action_text(t.action)
    &&& match t.reason {
        Some(e) => s.reason matches Some(x) && x@ == reason_text(e),
        None => s.reason is None,
    }
    &&& s.entries == t.tokens@.len()
}

/// Tells what is known of interrupted transactions in plain values.
pub fn summaries(i: &Inspection) -> (r: Vec<TxSummary>)
    ensures
        r@.len() == i.transactions@.len(),
        forall|k: int| 0 <= k < r@.len() ==> summarizes(i.transactions@[k], #[trigger] r@[k]),
{
    let n = i.transactions.len();
    let mut out: Vec<TxSummary> = Vec::new();
    let mut k: usize = 0;
    while k < n
        invariant
            k <= n,
            n == i.transactions@.len(),
            out@.len() == k,
            forall|j: int| 0 <= j < k ==> summarizes(i.transactions@[j], #[trigger] out@[j]),
        decreases n - k,
    {
        let t = &i.transactions[k];
        let reason = match &t.reason {
            Some(e) => Some(e.text()),
            None => None,
        };
        out.push(
            TxSummary {
                name: t.name.clone(),
                action: String::from_str(action_name(t.action)),
                reason,
                entries: t.tokens.len(),
            },
        );
        k = k + 1;
    }
    out
}

} // verus!
