//! The change-set format and how it is applied inside one transaction.
use vstd::prelude::*;
use vstd::utf8::{decode_utf8, encode_utf8, valid_utf8};

use base64::Engine;
use sha2::{Digest, Sha256};

use crate::bytes::{bytes_eq, name_before, to_lower};
use crate::bytes::{folded, lemma_name_lt_irreflexive, lemma_name_lt_transitive, name_lt, Name};
use crate::edits::{count_matches, parse_mode, replace_all};
use crate::edits::{mode_in, occurrences, replaced};
use crate::error::{Error, Result};
use crate::messages::{error_text, number_text};
use crate::overlay::{reports, Fault, Look};
use crate::path::{user_parts, user_path_fault};
use crate::text::lossy_text;
use crate::text::{lossy, utf8_string};
use crate::transaction::Transaction;
use crate::transaction::{changed, holds_file, made_dirs, refuses_path, wrote};
use crate::vfs::Vfs;

verus! {

/// The SHA-256 digest: the name for what `sha2::Sha256::digest` returns.
pub uninterp spec fn sha256_of(data: Seq<u8>) -> Seq<u8>;

/// Calls `sha2::Sha256::digest`: the digest is a function of the bytes, and has 32 of them.
#[verifier::external_body]
fn sha256(data: &[u8]) -> (r: Vec<u8>)
    ensures
        r@ == sha256_of(data@),
        r@.len() == 32,
{
    Sha256::digest(data).to_vec()
}

/// What standard base64 decodes to, or why it does not: the name for what
/// `base64::engine::general_purpose::STANDARD.decode` returns, with its error in words.
pub uninterp spec fn base64_decoded(text: Seq<char>) -> core::result::Result<Seq<u8>, Seq<char>>;

/// Calls `base64::engine::general_purpose::STANDARD.decode`: the bytes, or the error in words,
/// are a function of the text.
#[verifier::external_body]
fn decode_base64(text: &str) -> (r: core::result::Result<Vec<u8>, String>)
    ensures
        match r {
            Ok(data) => base64_decoded(text@) == Ok::<Seq<u8>, Seq<char>>(data@),
            Err(e) => base64_decoded(text@) == Err::<Seq<u8>, Seq<char>>(e@),
        },
{
    base64::engine::general_purpose::STANDARD.decode(text).map_err(|e| e.to_string())
}

/// The digest in lower-case hex.
pub open spec fn sha256_text(data: Seq<u8>) -> Seq<u8> {
    crate::hex::hex_text(sha256_of(data))
}

/// The SHA-256 digest of the data in lower-case hex.
pub fn sha256_hex(data: &[u8]) -> (r: String)
    ensures
        encode_utf8(r@) == sha256_text(data@),
{
    crate::hex::hex(&sha256(data))
}

/// A list of changes applied all-or-nothing.
#[derive(Debug)]
pub struct ChangeSet {
    /// Preconditions on the tree before any op runs, by path.
    pub expect: Vec<(String, Expect)>,
    pub ops: Vec<Op>,
}

/// A precondition on a path.
#[derive(Debug)]
pub struct Expect {
    /// The path must (or must not) exist.
    pub exists_there: Option<bool>,
    /// The file's SHA-256, as lower-case or upper-case hex.
    pub sha256: Option<String>,
}

/// A file that an op copies its content from.
#[derive(Debug)]
pub struct FromFile {
    /// The file's name, for messages.
    pub name: String,
    /// What reading it gave: its content, or what went wrong.
    pub content: core::result::Result<Vec<u8>, String>,
}

/// One change.
#[derive(Debug)]
pub enum Op {
    /// Create or replace a file. Exactly one of `content`, `content_base64`, `from_file`.
    Write {
        path: String,
        content: Option<String>,
        content_base64: Option<String>,
        /// A file to copy the content from.
        from_file: Option<FromFile>,
        /// Octal permission bits, e.g. "755". Default: keep the replaced file's, or the umask.
        mode: Option<String>,
    },
    /// Replace text in a UTF-8 file. `find` must occur exactly `count` times.
    Replace { path: String, find: String, replace: String, count: usize },
    Mkdir { path: String },
    Rename { from: String, to: String },
    /// Remove a file or an empty directory.
    Remove { path: String },
    /// Remove a directory and everything in it.
    RemoveAll { path: String },
}

/// One applied (or, in a dry run, staged) change, for reporting.
#[derive(Debug)]
pub struct Done {
    pub op: &'static str,
    pub path: String,
    pub to: Option<String>,
}

/// What kind of failure it is.
#[derive(Debug, Clone, Copy, PartialEq, Eq, Structural)]
pub enum FailKind {
    /// The input is malformed.
    InvalidInput,
    /// The change set is well-formed but cannot be applied.
    Refused,
    /// An I/O or recovery problem.
    Io,
}

impl FailKind {
    /// The exit code of the program for this kind.
    pub fn exit_code(self) -> (r: i32)
        ensures
            r == (match self {
                FailKind::Refused => 1i32,
                FailKind::InvalidInput => 2i32,
                FailKind::Io => 3i32,
            }),
    {
        match self {
            FailKind::Refused => 1,
            FailKind::InvalidInput => 2,
            FailKind::Io => 3,
        }
    }
}

/// Why a change set was not applied.
#[derive(Debug)]
pub struct Failure {
    pub kind: FailKind,
    /// Index of the op that failed, if any.
    pub op: Option<usize>,
    pub message: String,
}

/// The kind of failure that an error is.
pub open spec fn kind_of(e: Error) -> FailKind {
    match e {
        Error::Io(_)
        | Error::RecoveryRequired { .. }
        | Error::CommitOutcomeUnknown { .. }
        | Error::RollbackFailed { .. }
        | Error::UnsupportedFilesystem { .. }
        | Error::UnsupportedPlatform => FailKind::Io,
        _ => FailKind::Refused,
    }
}

/// The failure tells of the error.
pub open spec fn tells(f: Failure, op: Option<usize>, e: Error) -> bool {
    f.kind == kind_of(e) && f.op == op && f.message@ == error_text(e)
}

impl Failure {
    /// A failure.
    pub fn new(kind: FailKind, op: Option<usize>, message: String) -> (r: Failure)
        ensures
            r.kind == kind,
            r.op == op,
            r.message@ == message@,
    {
        Failure { kind, op, message }
    }

    /// The failure that tells of an error.
    pub fn from_fstx(op: Option<usize>, e: Error) -> (r: Failure)
        ensures
            tells(r, op, e),
    {
        let kind = match &e {
            Error::Io(_) => FailKind::Io,
            Error::RecoveryRequired { .. } => FailKind::Io,
            Error::CommitOutcomeUnknown { .. } => FailKind::Io,
            Error::RollbackFailed { .. } => FailKind::Io,
            Error::UnsupportedFilesystem { .. } => FailKind::Io,
            Error::UnsupportedPlatform => FailKind::Io,
            _ => FailKind::Refused,
        };
        Failure::new(kind, op, e.text())
    }
}

/// Whether a digest in hex is the expected one, whatever the case.
pub fn digest_matches(got: &[u8], want: &[u8]) -> (r: bool)
    ensures
        r == (folded(got@) == folded(want@)),
{
    bytes_eq(&to_lower(got), &to_lower(want))
}

/// The path as bytes.
pub open spec fn path_bytes(path: String) -> Name {
    encode_utf8(path@)
}

/// What the transaction finds at a path: whether something is there.
pub open spec fn finds<'a, V: Vfs>(tx: Transaction<'a, V>, path: Name, there: bool) -> bool {
    user_path_fault(path) is None && match tx.staging().look(tx.disk(), user_parts(path)) {
        Look::Found(_) => there,
        Look::Nothing => !there,
        Look::Clash(_) => false,
    }
}

/// What the transaction reads at a path.
pub open spec fn reads<'a, V: Vfs>(tx: Transaction<'a, V>, path: Name, data: Seq<u8>) -> bool {
    user_path_fault(path) is None && (tx.sees(user_parts(path)) matches Ok(q) && holds_file(tx.disk(), q, data))
}

/// The precondition holds.
pub open spec fn meets<'a, V: Vfs>(tx: Transaction<'a, V>, path: Name, e: Expect) -> bool {
    exists|there: bool| #[trigger]
        finds(tx, path, there) && (e.exists_there matches Some(want) ==> want == there) && (e.sha256 matches Some(want)
            ==> there && digest_is(tx, path, encode_utf8(want@)))
}

/// The file at the path has this digest.
pub open spec fn digest_is<'a, V: Vfs>(tx: Transaction<'a, V>, path: Name, want: Name) -> bool {
    exists|data: Seq<u8>| #[trigger] reads(tx, path, data) && folded(sha256_text(data)) == folded(want)
}

/// The error is right about looking at a path.
pub open spec fn cannot_find<'a, V: Vfs>(tx: Transaction<'a, V>, path: Name, e: Error) -> bool {
    match user_path_fault(path) {
        Some(why) => e matches Error::InvalidPath { path: p, reason } && p@ == path && reason@ == why,
        None => e is Io || (tx.staging().look(tx.disk(), user_parts(path)) matches Look::Clash(b) && reports(
            e,
            Fault::Clash(b),
        )),
    }
}

/// The error is right about reading a path.
pub open spec fn cannot_read<'a, V: Vfs>(tx: Transaction<'a, V>, path: Name, e: Error) -> bool {
    match user_path_fault(path) {
        Some(why) => e matches Error::InvalidPath { path: p, reason } && p@ == path && reason@ == why,
        None => e is Io || (tx.sees(user_parts(path)) matches Err(f) && reports(e, f)),
    }
}

/// The text that tells of a precondition that does not hold.
pub open spec fn expect_text(path: Seq<char>, why: Seq<char>) -> Seq<char> {
    "expect "@ + path + ": "@ + why
}

/// Why the path is not there, or is, against what was expected.
pub open spec fn presence_text(want: bool) -> Seq<char> {
    if want {
        "does not exist"@
    } else {
        "exists"@
    }
}

/// The message tells why the precondition does not hold, where something is `there` or not: that
/// is against what was expected; or the file has another digest.
pub open spec fn tells_unmet_by<'a, V: Vfs>(
    tx: Transaction<'a, V>,
    path: String,
    x: Expect,
    there: bool,
    message: Seq<char>,
) -> bool {
    let p = path_bytes(path);
    &&& finds(tx, p, there)
    &&& if x.exists_there is Some && x.exists_there->0 != there {
        message == expect_text(path@, presence_text(x.exists_there->0))
    } else if !there {
        x.sha256 is Some && message == expect_text(path@, presence_text(true))
    } else {
        x.sha256 is Some && exists|data: Seq<u8>, got: Seq<char>| #[trigger]
            tells_digest(tx, path, data, got, x.sha256->0@, message)
    }
}

/// The message tells that the file has the digest `got` and not the one that was expected.
pub open spec fn tells_digest<'a, V: Vfs>(
    tx: Transaction<'a, V>,
    path: String,
    data: Seq<u8>,
    got: Seq<char>,
    want: Seq<char>,
    message: Seq<char>,
) -> bool {
    &&& reads(tx, path_bytes(path), data)
    &&& encode_utf8(got) == sha256_text(data)
    &&& folded(sha256_text(data)) != folded(encode_utf8(want))
    &&& message == expect_text(path@, "sha256 is "@ + got + ", expected "@ + want)
}

/// The message tells why the precondition does not hold.
pub open spec fn tells_unmet<'a, V: Vfs>(tx: Transaction<'a, V>, path: String, x: Expect, message: Seq<char>) -> bool {
    exists|there: bool| #[trigger] tells_unmet_by(tx, path, x, there, message)
}

/// The failure is right about a precondition: the path cannot be looked at; or, where its digest
/// matters, it cannot be read; or the precondition does not hold.
pub open spec fn fails_expectation<'a, V: Vfs>(tx: Transaction<'a, V>, path: String, x: Expect, f: Failure) -> bool {
    &&& f.op is None
    &&& {
        ||| exists|e: Error| #[trigger] tells(f, None, e) && cannot_find(tx, path_bytes(path), e)
        ||| x.sha256 is Some && finds(tx, path_bytes(path), true) && exists|e: Error| #[trigger]
            tells(f, None, e) && cannot_read(tx, path_bytes(path), e)
        ||| f.kind == FailKind::Refused && !meets(tx, path_bytes(path), x) && tells_unmet(tx, path, x, f.message@)
    }
}

/// A refusal of a precondition.
fn refused(path: &String, why: String) -> (r: Failure)
    ensures
        r.kind == FailKind::Refused,
        r.op is None,
        r.message@ == expect_text(path@, why@),
{
    let message = String::from_str("expect ").concat(path.as_str()).concat(": ").concat(why.as_str());
    Failure::new(FailKind::Refused, None, message)
}

/// Checks one precondition.
fn check_expectation<'a, V: Vfs>(tx: &Transaction<'a, V>, path: &String, x: &Expect) -> (r: core::result::Result<
    (),
    Failure,
>)
    requires
        tx.well_formed(),
    ensures
        match r {
            Ok(_) => meets(*tx, path_bytes(*path), *x),
            Err(f) => fails_expectation(*tx, *path, *x, f) && (meets(*tx, path_bytes(*path), *x) ==> f.kind == FailKind::Io),
        },
        tx.ready() ==> (r matches Err(f) ==> f.kind != FailKind::Io),
{
    let name = path.as_str().as_bytes();
    let there = match tx.path_exists(name) {
        Ok(b) => b,
        Err(e) => {
            let ghost g = e;
            let f = Failure::from_fstx(None, e);
            assert(tells(f, None, g));
            assert(cannot_find(*tx, name@, g));
            return Err(f);
        },
    };
    assert(finds(*tx, name@, there));
    if let Some(want) = x.exists_there {
        if want != there {
            proof {
                assert(!meets(*tx, name@, *x)) by {
                    if meets(*tx, name@, *x) {
                        let y = choose|y: bool| #[trigger]
                            finds(*tx, name@, y) && (x.exists_there matches Some(w) ==> w == y) && (
                            x.sha256 matches Some(w) ==> y && digest_is(*tx, name@, encode_utf8(w@)));
                        assert(y == there);
                    }
                }
            }
            let why = if want {
                String::from_str("does not exist")
            } else {
                String::from_str("exists")
            };
            assert(why@ == presence_text(want));
            let f = refused(path, why);
            assert(tells_unmet_by(*tx, *path, *x, there, f.message@));
            return Err(f);
        }
    }
    if let Some(want) = &x.sha256 {
        if !there {
            proof {
                assert(!meets(*tx, name@, *x)) by {
                    if meets(*tx, name@, *x) {
                        let y = choose|y: bool| #[trigger]
                            finds(*tx, name@, y) && (x.exists_there matches Some(w) ==> w == y) && (
                            x.sha256 matches Some(w) ==> y && digest_is(*tx, name@, encode_utf8(w@)));
                        assert(y == there);
                    }
                }
            }
            let f = refused(path, String::from_str("does not exist"));
            assert(tells_unmet_by(*tx, *path, *x, there, f.message@));
            return Err(f);
        }
        let data = match tx.read(name) {
            Ok(d) => d,
            Err(e) => {
                let ghost g = e;
                let f = Failure::from_fstx(None, e);
                proof {
                    assert(tells(f, None, g));
                    assert(cannot_read(*tx, name@, g));
                    if meets(*tx, name@, *x) {
                        assert(digest_is(*tx, name@, encode_utf8(want@)));
                    }
                }
                return Err(f);
            },
        };
        assert(reads(*tx, name@, data@));
        let got = sha256_hex(&data);
        if !digest_matches(got.as_str().as_bytes(), want.as_str().as_bytes()) {
            proof {
                assert(!digest_is(*tx, name@, encode_utf8(want@))) by {
                    if digest_is(*tx, name@, encode_utf8(want@)) {
                        let other = choose|other: Seq<u8>| #[trigger]
                            reads(*tx, name@, other) && folded(sha256_text(other)) == folded(encode_utf8(want@));
                        assert(other == data@);
                    }
                }
                assert(reads(*tx, name@, data@) && encode_utf8(got@) == sha256_text(data@));
            }
            let why = String::from_str("sha256 is ").concat(got.as_str()).concat(", expected ").concat(want.as_str());
            assert(why@ == "sha256 is "@ + got@ + ", expected "@ + want@);
            let f = refused(path, why);
            proof {
                assert(tells_digest(*tx, *path, data@, got@, want@, f.message@));
                assert(tells_unmet_by(*tx, *path, *x, there, f.message@));
            }
            return Err(f);
        }
        assert(digest_is(*tx, name@, encode_utf8(want@)));
    }
    Ok(())
}

/// Checks every precondition against the tree as the transaction sees it (before any op). The
/// first that fails decides.
pub fn check_expectations<'a, V: Vfs>(tx: &Transaction<'a, V>, expect: &Vec<(String, Expect)>) -> (r: core::result::Result<
    (),
    Failure,
>)
    requires
        tx.well_formed(),
    ensures
        match r {
            Ok(_) => forall|i: int|
                0 <= i < expect@.len() ==> meets(*tx, path_bytes((#[trigger] expect@[i]).0), expect@[i].1),
            Err(f) => exists|i: int|
                0 <= i < expect@.len() && fails_expectation(*tx, (#[trigger] expect@[i]).0, expect@[i].1, f) && forall|j: int|
                    0 <= j < i ==> meets(*tx, path_bytes((#[trigger] expect@[j]).0), expect@[j].1),
        },
        (forall|i: int| 0 <= i < expect@.len() ==> meets(*tx, path_bytes((#[trigger] expect@[i]).0), expect@[i].1)) ==> (
        r matches Err(f) ==> f.kind == FailKind::Io),
        tx.ready() ==> (r matches Err(f) ==> f.kind != FailKind::Io),
{
    let n = expect.len();
    let mut i: usize = 0;
    while i < n
        invariant
            i <= n,
            n == expect@.len(),
            tx.well_formed(),
            forall|j: int| 0 <= j < i ==> meets(*tx, path_bytes((#[trigger] expect@[j]).0), expect@[j].1),
        decreases n - i,
    {
        match check_expectation(tx, &expect[i].0, &expect[i].1) {
            Ok(_) => {},
            Err(f) => {
                assert(fails_expectation(*tx, expect@[i as int].0, expect@[i as int].1, f));
                return Err(f);
            },
        }
        i = i + 1;
    }
    Ok(())
}

/// The data that a write op brings, or that the input is malformed, or that a file could not
/// be read, with the message.
pub enum SourceView {
    Data(Seq<u8>),
    Malformed(Seq<char>),
    Unreadable(Seq<char>),
}

/// The data that a write op brings.
pub open spec fn source_of(content: Option<String>, content_base64: Option<String>, from_file: Option<FromFile>) -> SourceView {
    match (content, content_base64, from_file) {
        (Some(c), None, None) => SourceView::Data(encode_utf8(c@)),
        (None, Some(b), None) => match base64_decoded(b@) {
            Ok(data) => SourceView::Data(data),
            Err(e) => SourceView::Malformed("content_base64: "@ + e),
        },
        (None, None, Some(f)) => match f.content {
            Ok(data) => SourceView::Data(data@),
            Err(e) => SourceView::Unreadable("from_file "@ + f.name@ + ": "@ + e@),
        },
        _ => SourceView::Malformed("write needs exactly one of content, content_base64, from_file"@),
    }
}

/// A malformed op.
fn malformed(i: usize, message: &str) -> (r: Failure)
    ensures
        r.kind == FailKind::InvalidInput,
        r.op == Some(i),
        r.message@ == message@,
{
    Failure::new(FailKind::InvalidInput, Some(i), String::from_str(message))
}

/// Gathers the data that a write op brings.
pub fn gather(
    i: usize,
    content: &Option<String>,
    content_base64: &Option<String>,
    from_file: &Option<FromFile>,
) -> (r: core::result::Result<Vec<u8>, Failure>)
    ensures
        match source_of(*content, *content_base64, *from_file) {
            SourceView::Data(data) => r matches Ok(v) && v@ == data,
            SourceView::Malformed(m) => r matches Err(f) && f.kind == FailKind::InvalidInput && f.op == Some(i)
                && f.message@ == m,
            SourceView::Unreadable(m) => r matches Err(f) && f.kind == FailKind::Refused && f.op == Some(i)
                && f.message@ == m,
        },
{
    match (content, content_base64, from_file) {
        (Some(c), None, None) => Ok(crate::text::string_bytes(c.as_str())),
        (None, Some(b), None) => match decode_base64(b.as_str()) {
            Ok(data) => Ok(data),
            Err(e) => Err(malformed(i, String::from_str("content_base64: ").concat(e.as_str()).as_str())),
        },
        (None, None, Some(f)) => match &f.content {
            Ok(data) => Ok(data.clone()),
            Err(e) => {
                let message = String::from_str("from_file ").concat(f.name.as_str()).concat(": ").concat(e.as_str());
                Err(Failure::new(FailKind::Refused, Some(i), message))
            },
        },
        _ => Err(malformed(i, "write needs exactly one of content, content_base64, from_file")),
    }
}

/// The permission bits that a write op asks for: none, or some, or malformed.
pub open spec fn mode_asked(mode: Option<String>) -> core::result::Result<Option<u32>, ()> {
    match mode {
        None => Ok(None),
        Some(m) => match mode_in(encode_utf8(m@)) {
            Some(x) => Ok(Some(x & 0o7777)),
            None => Err(()),
        },
    }
}

/// A failed op left the transaction as it was, because the input is malformed.
pub open spec fn rejected<'a, V: Vfs>(
    a: Transaction<'a, V>,
    b: Transaction<'a, V>,
    i: usize,
    message: Seq<char>,
    f: Failure,
) -> bool {
    b == a && f.kind == FailKind::InvalidInput && f.op == Some(i) && f.message@ == message
}

/// A failed op left the transaction as it was, because it cannot be applied.
pub open spec fn turned_down<'a, V: Vfs>(
    a: Transaction<'a, V>,
    b: Transaction<'a, V>,
    i: usize,
    message: Seq<char>,
    f: Failure,
) -> bool {
    b == a && f.kind == FailKind::Refused && f.op == Some(i) && f.message@ == message
}

/// The message for permission bits that are malformed.
pub open spec fn bad_mode() -> Seq<char> {
    "mode must be octal, e.g. \"644\""@
}

/// The failure tells of the error with which a write failed.
pub open spec fn write_failed<'a, V: Vfs>(
    a: Transaction<'a, V>,
    b: Transaction<'a, V>,
    path: Name,
    data: Seq<u8>,
    mode: Option<u32>,
    i: usize,
    f: Failure,
) -> bool {
    exists|e: Error| #[trigger] tells(f, Some(i), e) && wrote(a, b, path, data, mode, Err::<(), Error>(e))
}

/// What a write op comes to.
pub open spec fn write_outcome<'a, V: Vfs>(
    a: Transaction<'a, V>,
    b: Transaction<'a, V>,
    i: usize,
    path: Name,
    source: SourceView,
    mode: core::result::Result<Option<u32>, ()>,
    r: core::result::Result<(), Failure>,
) -> bool {
    match source {
        SourceView::Malformed(m) => r matches Err(f) && rejected(a, b, i, m, f),
        SourceView::Unreadable(m) => r matches Err(f) && turned_down(a, b, i, m, f),
        SourceView::Data(data) => match mode {
            Err(_) => r matches Err(f) && rejected(a, b, i, bad_mode(), f),
            Ok(bits) => match r {
                Ok(_) => wrote(a, b, path, data, bits, Ok::<(), Error>(())),
                Err(f) => write_failed(a, b, path, data, bits, i, f),
            },
        },
    }
}

/// A file is replaced by its text with every occurrence replaced.
pub open spec fn text_replaced<'a, V: Vfs>(
    a: Transaction<'a, V>,
    b: Transaction<'a, V>,
    path: Name,
    find: Name,
    with: Name,
    count: usize,
) -> bool {
    exists|text: Seq<u8>| #[trigger]
        reads(a, path, text) && valid_utf8(text) && occurrences(text, find, 0) == count && wrote(
            a,
            b,
            path,
            replaced(text, find, with, 0),
            None,
            Ok::<(), Error>(()),
        )
}

/// The message for a wrong number of occurrences.
pub open spec fn count_text(path: Seq<char>, found: nat, count: nat) -> Seq<char> {
    "replace in "@ + path + ": found "@ + number_text(found) + " occurrence(s) of the text, expected "@ + number_text(count)
}

/// A text is not to be replaced: it is not text, or the count is wrong, and the message says so.
pub open spec fn text_unfit<'a, V: Vfs>(
    a: Transaction<'a, V>,
    path: String,
    find: Name,
    count: usize,
    message: Seq<char>,
) -> bool {
    exists|text: Seq<u8>| #[trigger]
        reads(a, path_bytes(path), text) && if !valid_utf8(text) {
            message == path@ + " is not UTF-8 text"@
        } else {
            occurrences(text, find, 0) != count && message == count_text(
                path@,
                occurrences(text, find, 0) as nat,
                count as nat,
            )
        }
}

/// Writing the replaced text failed.
pub open spec fn replacing_failed<'a, V: Vfs>(
    a: Transaction<'a, V>,
    b: Transaction<'a, V>,
    path: Name,
    find: Name,
    with: Name,
    count: usize,
    i: usize,
    f: Failure,
) -> bool {
    exists|text: Seq<u8>| #[trigger]
        reads(a, path, text) && valid_utf8(text) && occurrences(text, find, 0) == count && write_failed(a, b, path, replaced(text, find, with, 0), None, i, f)
}

/// What a replace op comes to.
pub open spec fn replace_outcome<'a, V: Vfs>(
    a: Transaction<'a, V>,
    b: Transaction<'a, V>,
    i: usize,
    path: String,
    find: Name,
    with: Name,
    count: usize,
    r: core::result::Result<(), Failure>,
) -> bool {
    if find.len() == 0 {
        r matches Err(f) && rejected(a, b, i, "replace: find must not be empty"@, f)
    } else {
        match r {
            Ok(_) => text_replaced(a, b, path_bytes(path), find, with, count),
            Err(f) => {
                ||| b == a && exists|e: Error| #[trigger] tells(f, Some(i), e) && cannot_read(a, path_bytes(path), e)
                ||| turned_down(a, b, i, f.message@, f) && text_unfit(a, path, find, count, f.message@)
                ||| replacing_failed(a, b, path_bytes(path), find, with, count, i, f)
            },
        }
    }
}

/// What an op that only changes what is staged comes to: `step` says for a result what it did.
pub open spec fn staged_outcome(
    i: usize,
    r: core::result::Result<(), Failure>,
    step: spec_fn(Result<()>) -> bool,
) -> bool {
    match r {
        Ok(_) => step(Ok::<(), Error>(())),
        Err(f) => exists|e: Error| #[trigger] tells(f, Some(i), e) && step(Err::<(), Error>(e)),
    }
}

/// The directories were made, or not.
pub open spec fn mkdir_step<'a, V: Vfs>(a: Transaction<'a, V>, b: Transaction<'a, V>, path: Name, r: Result<()>) -> bool {
    b.disk() == a.disk() && match user_path_fault(path) {
        Some(why) => refuses_path(r, path, why) && b.staging() == a.staging(),
        None => made_dirs(a.staging(), b.staging(), a.disk(), user_parts(path), r),
    }
}

/// The entry was moved, or not.
pub open spec fn rename_step<'a, V: Vfs>(
    a: Transaction<'a, V>,
    b: Transaction<'a, V>,
    from: Name,
    to: Name,
    r: Result<()>,
) -> bool {
    b.disk() == a.disk() && match (user_path_fault(from), user_path_fault(to)) {
        (Some(why), _) => refuses_path(r, from, why) && b.staging() == a.staging(),
        (None, Some(why)) => refuses_path(r, to, why) && b.staging() == a.staging(),
        (None, None) => changed(
            a.staging(),
            b.staging(),
            a.staging().rename(a.disk(), user_parts(from), user_parts(to)),
            r,
        ),
    }
}

/// The entry was removed, or not.
pub open spec fn remove_step<'a, V: Vfs>(
    a: Transaction<'a, V>,
    b: Transaction<'a, V>,
    path: Name,
    all: bool,
    r: Result<()>,
) -> bool {
    b.disk() == a.disk() && match user_path_fault(path) {
        Some(why) => refuses_path(r, path, why) && b.staging() == a.staging(),
        None => changed(
            a.staging(),
            b.staging(),
            if all {
                a.staging().remove_dir_all(a.disk(), user_parts(path))
            } else {
                a.staging().remove(a.disk(), user_parts(path))
            },
            r,
        ),
    }
}

/// What the `i`-th op comes to.
pub open spec fn op_outcome<'a, V: Vfs>(
    a: Transaction<'a, V>,
    b: Transaction<'a, V>,
    i: usize,
    op: Op,
    r: core::result::Result<(), Failure>,
) -> bool {
    match op {
        Op::Write { path, content, content_base64, from_file, mode } => write_outcome(
            a,
            b,
            i,
            path_bytes(path),
            source_of(content, content_base64, from_file),
            mode_asked(mode),
            r,
        ),
        Op::Replace { path, find, replace, count } => replace_outcome(
            a,
            b,
            i,
            path,
            encode_utf8(find@),
            encode_utf8(replace@),
            count,
            r,
        ),
        Op::Mkdir { path } => staged_outcome(i, r, |x: Result<()>| mkdir_step(a, b, path_bytes(path), x)),
        Op::Rename { from, to } => staged_outcome(
            i,
            r,
            |x: Result<()>| rename_step(a, b, path_bytes(from), path_bytes(to), x),
        ),
        Op::Remove { path } => staged_outcome(i, r, |x: Result<()>| remove_step(a, b, path_bytes(path), false, x)),
        Op::RemoveAll { path } => staged_outcome(i, r, |x: Result<()>| remove_step(a, b, path_bytes(path), true, x)),
    }
}

/// How many directories an op may make.
pub open spec fn dirs_asked(op: Op) -> nat {
    match op {
        Op::Mkdir { path } => user_parts(path_bytes(path)).len(),
        _ => 0,
    }
}

/// How many directories the first `n` ops may make.
pub open spec fn all_dirs_asked(ops: Seq<Op>, n: int) -> nat
    decreases n,
{
    if n <= 0 {
        0
    } else {
        all_dirs_asked(ops, n - 1) + dirs_asked(ops[n - 1])
    }
}

impl<'a, V: Vfs> Transaction<'a, V> {
    /// There is room, and there are numbers, for `files` more files and `dirs` more directories.
    pub open spec fn has_means(self, files: nat, dirs: nat) -> bool {
        self.ready() && self.room() >= files && self.stage.next() + files <= u64::MAX && self.staging().next_dir + dirs
            <= u64::MAX
    }

    /// Going on to `b` took at most `files` files and `dirs` directories; and where there were
    /// the means for that, the filesystem did not fail.
    pub open spec fn afford<T>(self, b: Self, files: nat, dirs: nat, r: core::result::Result<T, Failure>) -> bool {
        &&& self.ready() ==> b.ready() && b.room() + files >= self.room()
        &&& b.stage.next() <= self.stage.next() + files
        &&& b.staging().next_dir <= self.staging().next_dir + dirs
        &&& self.has_means(files, dirs) ==> (r matches Err(f) ==> f.kind != FailKind::Io)
    }
}

/// Stages a write op.
fn stage_write<'a, V: Vfs>(
    tx: &mut Transaction<'a, V>,
    i: usize,
    path: &String,
    data: &[u8],
    mode: &Option<String>,
) -> (r: core::result::Result<(), Failure>)
    requires
        old(tx).well_formed(),
    ensures
        *final(final(tx).vfs) == *final(old(tx).vfs),
        old(tx).goes_on(*final(tx)),
        write_outcome(*old(tx), *final(tx), i, path_bytes(*path), SourceView::Data(data@), mode_asked(*mode), r),
        old(tx).afford(*final(tx), 1, 0, r),
{
    let name = path.as_str().as_bytes();
    let done = match mode {
        Some(m) => match parse_mode(m.as_str().as_bytes()) {
            Some(bits) => tx.write_with_mode(name, data, bits),
            None => return Err(malformed(i, "mode must be octal, e.g. \"644\"")),
        },
        None => tx.write(name, data),
    };
    match done {
        Ok(_) => Ok(()),
        Err(e) => {
            let ghost g = e;
            let f = Failure::from_fstx(Some(i), e);
            assert(tells(f, Some(i), g));
            Err(f)
        },
    }
}

/// Stages a replace op.
fn stage_replace<'a, V: Vfs>(
    tx: &mut Transaction<'a, V>,
    i: usize,
    path: &String,
    find: &String,
    replace: &String,
    count: usize,
) -> (r: core::result::Result<(), Failure>)
    requires
        old(tx).well_formed(),
    ensures
        *final(final(tx).vfs) == *final(old(tx).vfs),
        old(tx).goes_on(*final(tx)),
        replace_outcome(
            *old(tx),
            *final(tx),
            i,
            *path,
            encode_utf8(find@),
            encode_utf8(replace@),
            count,
            r,
        ),
        old(tx).afford(*final(tx), 1, 0, r),
{
    let name = path.as_str().as_bytes();
    let find = find.as_str().as_bytes();
    let with = replace.as_str().as_bytes();
    if find.len() == 0 {
        return Err(malformed(i, "replace: find must not be empty"));
    }
    let text = match tx.read(name) {
        Ok(x) => x,
        Err(e) => {
            let ghost g = e;
            let f = Failure::from_fstx(Some(i), e);
            assert(tells(f, Some(i), g));
            assert(cannot_read(*tx, name@, g));
            return Err(f);
        },
    };
    assert(reads(*tx, name@, text@));
    if utf8_string(text.clone()).is_none() {
        let message = path.clone().concat(" is not UTF-8 text");
        return Err(Failure::new(FailKind::Refused, Some(i), message));
    }
    let found = count_matches(&text, find);
    if found != count {
        let message = String::from_str("replace in ").concat(path.as_str()).concat(": found ").concat(
            crate::messages::number(found as u64).as_str(),
        ).concat(" occurrence(s) of the text, expected ").concat(crate::messages::number(count as u64).as_str());
        return Err(Failure::new(FailKind::Refused, Some(i), message));
    }
    let new = replace_all(&text, find, with);
    match tx.write(name, &new) {
        Ok(_) => Ok(()),
        Err(e) => {
            let ghost g = e;
            let f = Failure::from_fstx(Some(i), e);
            assert(tells(f, Some(i), g));
            assert(write_failed(*old(tx), *tx, name@, new@, None, i, f));
            Err(f)
        },
    }
}

/// Turns an error into the failure of an op.
fn op_failure(i: usize, r: Result<()>) -> (out: core::result::Result<(), Failure>)
    ensures
        match r {
            Ok(_) => out is Ok,
            Err(e) => out matches Err(f) && tells(f, Some(i), e),
        },
{
    match r {
        Ok(_) => Ok(()),
        Err(e) => Err(Failure::from_fstx(Some(i), e)),
    }
}

/// Stages one op.
pub fn stage_op<'a, V: Vfs>(tx: &mut Transaction<'a, V>, i: usize, op: &Op) -> (r: core::result::Result<(), Failure>)
    requires
        old(tx).well_formed(),
    ensures
        *final(final(tx).vfs) == *final(old(tx).vfs),
        old(tx).goes_on(*final(tx)),
        op_outcome(*old(tx), *final(tx), i, *op, r),
        old(tx).afford(*final(tx), 1, dirs_asked(*op), r),
{
    match op {
        Op::Write { path, content, content_base64, from_file, mode } => {
            let data = match gather(i, content, content_base64, from_file) {
                Ok(x) => x,
                Err(f) => return Err(f),
            };
            stage_write(tx, i, path, &data, mode)
        },
        Op::Replace { path, find, replace, count } => stage_replace(tx, i, path, find, replace, *count),
        Op::Mkdir { path } => {
            let done = tx.create_dir_all(path.as_str().as_bytes());
            assert(mkdir_step(*old(tx), *tx, path_bytes(*path), done));
            op_failure(i, done)
        },
        Op::Rename { from, to } => {
            let done = tx.rename(from.as_str().as_bytes(), to.as_str().as_bytes());
            assert(rename_step(*old(tx), *tx, path_bytes(*from), path_bytes(*to), done));
            op_failure(i, done)
        },
        Op::Remove { path } => {
            let done = tx.remove(path.as_str().as_bytes());
            assert(remove_step(*old(tx), *tx, path_bytes(*path), false, done));
            op_failure(i, done)
        },
        Op::RemoveAll { path } => {
            let done = tx.remove_dir_all(path.as_str().as_bytes());
            assert(remove_step(*old(tx), *tx, path_bytes(*path), true, done));
            op_failure(i, done)
        },
    }
}

/// The report of an op is right.
pub open spec fn reported(op: Op, d: Done) -> bool {
    match op {
        Op::Write { path, .. } => d.op@ == "write"@ && d.path@ == path@ && d.to is None,
        Op::Replace { path, .. } => d.op@ == "replace"@ && d.path@ == path@ && d.to is None,
        Op::Mkdir { path } => d.op@ == "mkdir"@ && d.path@ == path@ && d.to is None,
        Op::Rename { from, to } => d.op@ == "rename"@ && d.path@ == from@ && (d.to matches Some(t) && t@ == to@),
        Op::Remove { path } => d.op@ == "remove"@ && d.path@ == path@ && d.to is None,
        Op::RemoveAll { path } => d.op@ == "remove_all"@ && d.path@ == path@ && d.to is None,
    }
}

/// The report of an op.
pub fn report_op(op: &Op) -> (r: Done)
    ensures
        reported(*op, r),
{
    match op {
        Op::Write { path, .. } => Done { op: "write", path: path.clone(), to: None },
        Op::Replace { path, .. } => Done { op: "replace", path: path.clone(), to: None },
        Op::Mkdir { path } => Done { op: "mkdir", path: path.clone(), to: None },
        Op::Rename { from, to } => Done { op: "rename", path: from.clone(), to: Some(to.clone()) },
        Op::Remove { path } => Done { op: "remove", path: path.clone(), to: None },
        Op::RemoveAll { path } => Done { op: "remove_all", path: path.clone(), to: None },
    }
}

/// The first `n` ops were staged one after the other, through the states `trace`.
pub open spec fn staged_through<'a, V: Vfs>(trace: Seq<Transaction<'a, V>>, ops: Seq<Op>, n: int) -> bool {
    &&& 0 <= n <= ops.len()
    &&& trace.len() == n + 1
    &&& forall|i: int|
        0 <= i < n ==> op_outcome(#[trigger] trace[i], trace[i + 1], i as usize, ops[i], Ok::<(), Failure>(()))
}

/// What staging a change set comes to.
pub open spec fn stage_outcome<'a, V: Vfs>(
    a: Transaction<'a, V>,
    b: Transaction<'a, V>,
    cs: ChangeSet,
    r: core::result::Result<Vec<Done>, Failure>,
) -> bool {
    match r {
        Ok(done) => {
            &&& forall|i: int|
                0 <= i < cs.expect@.len() ==> meets(a, path_bytes((#[trigger] cs.expect@[i]).0), cs.expect@[i].1)
            &&& done@.len() == cs.ops@.len()
            &&& forall|i: int| 0 <= i < done@.len() ==> reported(cs.ops@[i], #[trigger] done@[i])
            &&& exists|trace: Seq<Transaction<'a, V>>| #[trigger]
                staged_through(trace, cs.ops@, cs.ops@.len() as int) && trace[0] == a && trace.last() == b
        },
        Err(f) => match f.op {
            None => b == a && exists|i: int|
                0 <= i < cs.expect@.len() && fails_expectation(
                    a,
                    (#[trigger] cs.expect@[i]).0,
                    cs.expect@[i].1,
                    f,
                ) && forall|j: int|
                    0 <= j < i ==> meets(a, path_bytes((#[trigger] cs.expect@[j]).0), cs.expect@[j].1),
            Some(i) => i < cs.ops@.len() && exists|trace: Seq<Transaction<'a, V>>| #[trigger]
                staged_through(trace, cs.ops@, i as int) && trace[0] == a && op_outcome(
                    trace.last(),
                    b,
                    i,
                    cs.ops@[i as int],
                    Err::<(), Failure>(f),
                ),
        },
    }
}

/// More ops may make more directories.
proof fn lemma_dirs_asked_grow(ops: Seq<Op>, m: int, n: int)
    requires
        m <= n,
    ensures
        all_dirs_asked(ops, m) <= all_dirs_asked(ops, n),
    decreases n - m,
{
    if m < n {
        lemma_dirs_asked_grow(ops, m, n - 1);
    }
}

/// A failed op is named in its failure.
proof fn lemma_failure_names_op<'a, V: Vfs>(
    a: Transaction<'a, V>,
    b: Transaction<'a, V>,
    i: usize,
    op: Op,
    f: Failure,
)
    requires
        op_outcome(a, b, i, op, Err::<(), Failure>(f)),
    ensures
        f.op == Some(i),
{
}

/// Checks the preconditions, then stages every op in order.
pub fn stage<'a, V: Vfs>(tx: &mut Transaction<'a, V>, cs: &ChangeSet) -> (r: core::result::Result<Vec<Done>, Failure>)
    requires
        old(tx).well_formed(),
    ensures
        *final(final(tx).vfs) == *final(old(tx).vfs),
        old(tx).goes_on(*final(tx)),
        stage_outcome(*old(tx), *final(tx), *cs, r),
        old(tx).afford(*final(tx), cs.ops@.len(), all_dirs_asked(cs.ops@, cs.ops@.len() as int), r),
{
    let ghost start = *tx;
    match check_expectations(tx, &cs.expect) {
        Ok(_) => {},
        Err(f) => return Err(f),
    }
    let n = cs.ops.len();
    let mut done: Vec<Done> = Vec::new();
    let ghost mut trace: Seq<Transaction<'a, V>> = seq![*tx];
    let mut i: usize = 0;
    while i < n
        invariant
            i <= n,
            n == cs.ops@.len(),
            tx.well_formed(),
            start == *old(tx),
            *final(tx.vfs) == *final(start.vfs),
            start.goes_on(*tx),
            done@.len() == i,
            forall|k: int| 0 <= k < i ==> reported(cs.ops@[k], #[trigger] done@[k]),
            staged_through(trace, cs.ops@, i as int),
            trace[0] == start,
            trace.last() == *tx,
            start.afford(*tx, i as nat, all_dirs_asked(cs.ops@, i as int), Ok::<(), Failure>(())),
        decreases n - i,
    {
        let ghost before = *tx;
        proof {
            lemma_dirs_asked_grow(cs.ops@, i + 1, n as int);
        }
        let r = stage_op(tx, i, &cs.ops[i]);
        match r {
            Ok(_) => {
                proof {
                    let more = trace.push(*tx);
                    assert forall|k: int| 0 <= k < i + 1 implies op_outcome(
                        #[trigger] more[k],
                        more[k + 1],
                        k as usize,
                        cs.ops@[k],
                        Ok::<(), Failure>(()),
                    ) by {
                        if k < i {
                            assert(more[k] == trace[k]);
                            assert(more[k + 1] == trace[k + 1]);
                        }
                    }
                    trace = more;
                }
            },
            Err(f) => {
                proof {
                    lemma_failure_names_op(before, *tx, i, cs.ops@[i as int], f);
                    assert(op_outcome(trace.last(), *tx, i, cs.ops@[i as int], Err::<(), Failure>(f)));
                    assert(staged_through(trace, cs.ops@, i as int));
                    assert(stage_outcome(start, *tx, *cs, Err::<Vec<Done>, Failure>(f)));
                }
                return Err(f);
            },
        }
        done.push(report_op(&cs.ops[i]));
        i = i + 1;
    }
    Ok(done)
}

/// What a source entry is.
#[derive(Debug)]
pub enum SourceKind {
    Dir,
    /// A regular file with its content and, where there are any, its permission bits.
    File { data: Vec<u8>, mode: Option<u32> },
    /// A symlink or a special file.
    Other,
}

/// An entry of a source directory.
#[derive(Debug)]
pub struct SourceEntry {
    pub name: Vec<u8>,
    pub kind: SourceKind,
}

/// How far copying a tree has come: the directories that are still to be read (the last one
/// first), what was staged, and what was skipped.
#[derive(Debug)]
pub struct SyncWalk {
    pub stack: Vec<Vec<u8>>,
    pub done: Vec<Done>,
    pub skipped: Vec<String>,
}

/// What a report says.
pub struct DoneView {
    pub op: Seq<char>,
    pub path: Seq<char>,
    pub to: Option<Seq<char>>,
}

/// What a text says, if there is one.
pub open spec fn text_of(s: Option<String>) -> Option<Seq<char>> {
    match s {
        Some(x) => Some(x@),
        None => None,
    }
}

/// How far copying a tree has come, mathematically.
#[verifier::ext_equal]
pub struct WalkView {
    pub stack: Seq<Name>,
    pub done: Seq<DoneView>,
    pub skipped: Seq<Seq<char>>,
}

impl View for SyncWalk {
    type V = WalkView;

    open spec fn view(&self) -> WalkView {
        WalkView {
            stack: crate::path::views(self.stack@),
            done: self.done@.map_values(|d: Done| DoneView { op: d.op@, path: d.path@, to: text_of(d.to) }),
            skipped: crate::recover::texts(self.skipped@),
        }
    }
}

impl SyncWalk {
    /// Nothing was copied yet; the source directory itself is to be read.
    pub fn new() -> (r: SyncWalk)
        ensures
            r@.stack == seq![Seq::<u8>::empty()],
            r@.done.len() == 0,
            r@.skipped.len() == 0,
    {
        let mut stack: Vec<Vec<u8>> = Vec::new();
        stack.push(Vec::new());
        let r = SyncWalk { stack, done: Vec::new(), skipped: Vec::new() };
        assert(r.stack@[0]@ =~= Seq::<u8>::empty());
        assert(r@.stack =~= seq![Seq::<u8>::empty()]);
        r
    }

    /// The directory to read next, relative to the source.
    pub fn next_dir(&mut self) -> (r: Option<Vec<u8>>)
        ensures
            match r {
                Some(d) => old(self)@.stack.len() > 0 && d@ == old(self)@.stack.last() && final(self)@ == (WalkView {
                    stack: old(self)@.stack.drop_last(),
                    ..old(self)@
                }),
                None => old(self)@.stack.len() == 0 && final(self)@ == old(self)@,
            },
    {
        let r = self.stack.pop();
        proof {
            if r is Some {
                assert(self@.stack =~= old(self)@.stack.drop_last());
            }
        }
        r
    }
}

/// The path of the entry `name` in the directory `rel`.
pub open spec fn child_path(rel: Name, name: Name) -> Name {
    if rel.len() == 0 {
        name
    } else {
        rel + seq![47u8] + name
    }
}

/// The path of the entry `name` in the directory `rel`.
fn child(rel: &[u8], name: &[u8]) -> (r: Vec<u8>)
    ensures
        r@ == child_path(rel@, name@),
{
    let mut out: Vec<u8> = Vec::new();
    if rel.len() > 0 {
        out.extend_from_slice(rel);
        out.push(47);
    }
    out.extend_from_slice(name);
    assert(out@ =~= child_path(rel@, name@));
    out
}

/// The name is to be skipped.
pub open spec fn excluded(exclude: Seq<String>, name: Name) -> bool {
    exists|i: int| 0 <= i < exclude.len() && encode_utf8((#[trigger] exclude[i])@) == name
}

/// Whether the name is to be skipped.
pub fn is_excluded(exclude: &Vec<String>, name: &[u8]) -> (r: bool)
    ensures
        r == excluded(exclude@, name@),
{
    let n = exclude.len();
    let mut i: usize = 0;
    while i < n
        invariant
            i <= n,
            n == exclude@.len(),
            forall|j: int| 0 <= j < i ==> encode_utf8((#[trigger] exclude@[j])@) != name@,
        decreases n - i,
    {
        if bytes_eq(exclude[i].as_str().as_bytes(), name) {
            return true;
        }
        i = i + 1;
    }
    false
}

/// The failure tells of the error of an entry.
pub open spec fn entry_failed(f: Failure, step: spec_fn(Error) -> bool) -> bool {
    exists|e: Error| #[trigger] tells(f, None, e) && step(e)
}

/// What one source entry comes to: an excluded one is passed over, a directory is made and
/// will be read, a file is copied, and anything else is skipped and reported.
pub open spec fn entry_outcome<'a, V: Vfs>(
    a: Transaction<'a, V>,
    b: Transaction<'a, V>,
    v: WalkView,
    w: WalkView,
    rel: Name,
    entry: SourceEntry,
    exclude: Seq<String>,
    r: core::result::Result<(), Failure>,
) -> bool {
    let path = child_path(rel, entry.name@);
    if excluded(exclude, entry.name@) {
        r is Ok && b == a && w == v
    } else {
        match entry.kind {
            SourceKind::Dir => match r {
                Ok(_) => mkdir_step(a, b, path, Ok::<(), Error>(())) && w == (WalkView {
                    stack: v.stack.push(path),
                    done: v.done.push(DoneView { op: "mkdir"@, path: lossy_text(path), to: None }),
                    ..v
                }),
                Err(f) => w == v && entry_failed(f, |e: Error| mkdir_step(a, b, path, Err::<(), Error>(e))),
            },
            SourceKind::File { data, mode } => {
                let bits = match mode {
                    Some(m) => Some(m & 0o7777),
                    None => None,
                };
                match r {
                    Ok(_) => wrote(a, b, path, data@, bits, Ok::<(), Error>(())) && w == (WalkView {
                        done: v.done.push(DoneView { op: "write"@, path: lossy_text(path), to: None }),
                        ..v
                    }),
                    Err(f) => w == v && entry_failed(
                        f,
                        |e: Error| wrote(a, b, path, data@, bits, Err::<(), Error>(e)),
                    ),
                }
            },
            SourceKind::Other => r is Ok && b == a && w == (WalkView {
                skipped: v.skipped.push(lossy_text(path)),
                ..v
            }),
        }
    }
}

/// Stages one source entry.
pub fn stage_entry<'a, V: Vfs>(
    tx: &mut Transaction<'a, V>,
    walk: &mut SyncWalk,
    rel: &[u8],
    entry: &SourceEntry,
    exclude: &Vec<String>,
) -> (r: core::result::Result<(), Failure>)
    requires
        old(tx).well_formed(),
    ensures
        *final(final(tx).vfs) == *final(old(tx).vfs),
        old(tx).goes_on(*final(tx)),
        entry_outcome(*old(tx), *final(tx), old(walk)@, final(walk)@, rel@, *entry, exclude@, r),
        old(tx).afford(*final(tx), 1, user_parts(child_path(rel@, entry.name@)).len(), r),
{
    if is_excluded(exclude, &entry.name) {
        return Ok(());
    }
    let path = child(rel, &entry.name);
    let shown = lossy(&path);
    let ghost v = walk@;
    match &entry.kind {
        SourceKind::Dir => {
            let done = tx.create_dir_all(&path);
            assert(mkdir_step(*old(tx), *tx, path@, done));
            match done {
                Ok(_) => {},
                Err(e) => {
                    let ghost g = e;
                    let f = Failure::from_fstx(None, e);
                    assert(tells(f, None, g));
                    return Err(f);
                },
            }
            walk.done.push(Done { op: "mkdir", path: shown, to: None });
            walk.stack.push(path);
            proof {
                assert(walk@.stack =~= v.stack.push(path@));
                assert(walk@.done =~= v.done.push(
                    DoneView { op: "mkdir"@, path: lossy_text(path@), to: None },
                ));
            }
        },
        SourceKind::File { data, mode } => {
            let done = match mode {
                Some(m) => tx.write_with_mode(&path, data, *m),
                None => tx.write(&path, data),
            };
            match done {
                Ok(_) => {},
                Err(e) => {
                    let ghost g = e;
                    let f = Failure::from_fstx(None, e);
                    assert(tells(f, None, g));
                    return Err(f);
                },
            }
            walk.done.push(Done { op: "write", path: shown, to: None });
            proof {
                assert(walk@.done =~= v.done.push(
                    DoneView { op: "write"@, path: lossy_text(path@), to: None },
                ));
            }
        },
        SourceKind::Other => {
            walk.skipped.push(shown);
            proof {
                assert(walk@.skipped =~= v.skipped.push(lossy_text(path@)));
            }
        },
    }
    Ok(())
}

/// The order lists every entry once.
pub open spec fn complete(order: Seq<usize>, n: int) -> bool {
    &&& order.len() == n
    &&& order.no_duplicates()
    &&& forall|i: int| 0 <= i < n ==> (#[trigger] order[i]) < n
}

/// The names do not decrease in this order.
pub open spec fn by_name(entries: Seq<SourceEntry>, order: Seq<usize>) -> bool {
    forall|i: int, j: int|
        0 <= i < j < order.len() ==> !#[trigger] name_lt(
            entries[order[j] as int].name@,
            entries[order[i] as int].name@,
        )
}

/// Sorts entries by name.
pub fn order_by_name(entries: &Vec<SourceEntry>) -> (r: Vec<usize>)
    ensures
        complete(r@, entries@.len() as int),
        by_name(entries@, r@),
{
    let n = entries.len();
    let mut order: Vec<usize> = Vec::new();
    let mut i: usize = 0;
    while i < n
        invariant
            i <= n,
            n == entries@.len(),
            complete(order@, i as int),
            by_name(entries@, order@),
        decreases n - i,
    {
        let ghost before = order@;
        let ghost x = entries@[i as int].name@;
        let mut k: usize = 0;
        while k < i && !name_before(&entries[i].name, &entries[order[k]].name)
            invariant
                k <= i,
                i < n,
                n == entries@.len(),
                complete(order@, i as int),
                x == entries@[i as int].name@,
                forall|j: int| 0 <= j < k ==> !name_lt(x, entries@[(#[trigger] order@[j]) as int].name@),
            decreases i - k,
        {
            k = k + 1;
        }
        order.insert(k, i);
        proof {
            let now = order@;
            assert(now =~= before.insert(k as int, i));
            assert forall|a: int, b: int| 0 <= a < b < now.len() implies now[a] != now[b] by {
                let p = if a < k {
                    a
                } else {
                    a - 1
                };
                let q = if b < k {
                    b
                } else {
                    b - 1
                };
                if a != k && b != k {
                    assert(before[p] != before[q]);
                } else if a == k {
                    assert(before[q] < i);
                } else {
                    assert(before[p] < i);
                }
            }
            assert forall|a: int| 0 <= a < i + 1 implies (#[trigger] now[a]) < i + 1 by {
                if a < k {
                    assert(before[a] < i);
                } else if a > k {
                    assert(before[a - 1] < i);
                }
            }
            assert forall|a: int, b: int| 0 <= a < b < now.len() implies !#[trigger] name_lt(
                entries@[now[b] as int].name@,
                entries@[now[a] as int].name@,
            ) by {
                if a != k && b != k {
                    let p = if a < k {
                        a
                    } else {
                        a - 1
                    };
                    let q = if b < k {
                        b
                    } else {
                        b - 1
                    };
                    assert(!name_lt(entries@[before[q] as int].name@, entries@[before[p] as int].name@));
                } else if b == k {
                    assert(now[a] == before[a]);
                    assert(!name_lt(x, entries@[before[a] as int].name@));
                } else {
                    // The new entry stands before one that comes after it by name.
                    let y = entries@[before[k as int] as int].name@;
                    let z = entries@[before[b - 1] as int].name@;
                    assert(name_lt(x, y));
                    if b - 1 > k {
                        assert(!name_lt(z, y));
                    }
                    if name_lt(z, x) {
                        lemma_name_lt_transitive(z, x, y);
                    }
                    lemma_name_lt_irreflexive(y);
                }
            }
        }
        i = i + 1;
    }
    order
}

/// The first `n` entries, in this order, were staged through the states `trace` and `walks`.
pub open spec fn synced_through<'a, V: Vfs>(
    trace: Seq<Transaction<'a, V>>,
    walks: Seq<WalkView>,
    rel: Name,
    entries: Seq<SourceEntry>,
    order: Seq<usize>,
    exclude: Seq<String>,
    n: int,
) -> bool {
    &&& 0 <= n <= order.len()
    &&& trace.len() == n + 1
    &&& walks.len() == n + 1
    &&& forall|i: int|
        0 <= i < n ==> entry_outcome(
            #[trigger] trace[i],
            trace[i + 1],
            walks[i],
            walks[i + 1],
            rel,
            entries[order[i] as int],
            exclude,
            Ok::<(), Failure>(()),
        )
}

/// What copying one directory comes to: every entry was staged, in the order of names; or the
/// one at which it stopped failed.
pub open spec fn sync_outcome<'a, V: Vfs>(
    a: Transaction<'a, V>,
    b: Transaction<'a, V>,
    v: WalkView,
    w: WalkView,
    rel: Name,
    entries: Seq<SourceEntry>,
    exclude: Seq<String>,
    r: core::result::Result<(), Failure>,
) -> bool {
    exists|trace: Seq<Transaction<'a, V>>, walks: Seq<WalkView>, order: Seq<usize>, n: int| #[trigger]
        synced_through(trace, walks, rel, entries, order, exclude, n) && complete(order, entries.len() as int) && by_name(
            entries,
            order,
        ) && trace[0] == a && walks[0] == v && match r {
            Ok(_) => n == entries.len() && trace.last() == b && walks.last() == w,
            Err(f) => n < entries.len() && entry_outcome(
                trace.last(),
                b,
                walks.last(),
                w,
                rel,
                entries[order[n] as int],
                exclude,
                Err::<(), Failure>(f),
            ),
        }
}

/// One more entry may take as many directories again.
proof fn lemma_one_more(i: nat, n: nat, depth: nat)
    requires
        i < n,
    ensures
        depth * (i + 1) == depth * i + depth,
        depth * (i + 1) <= depth * n,
{
    assert(depth * (i + 1) == depth * i + depth && depth * (i + 1) <= depth * n) by (nonlinear_arith)
        requires
            i < n,
    ;
}

/// Stages a copy of every entry of one source directory. Symlinks are skipped and reported;
/// names in `exclude` are passed over.
pub fn stage_sync<'a, V: Vfs>(
    tx: &mut Transaction<'a, V>,
    walk: &mut SyncWalk,
    rel: &[u8],
    entries: &Vec<SourceEntry>,
    exclude: &Vec<String>,
) -> (r: core::result::Result<(), Failure>)
    requires
        old(tx).well_formed(),
    ensures
        *final(final(tx).vfs) == *final(old(tx).vfs),
        old(tx).goes_on(*final(tx)),
        sync_outcome(*old(tx), *final(tx), old(walk)@, final(walk)@, rel@, entries@, exclude@, r),
        forall|depth: nat|
            (forall|i: int|
                0 <= i < entries@.len() ==> user_parts(child_path(rel@, (#[trigger] entries@[i]).name@)).len() <= depth)
                ==> #[trigger] old(tx).afford(*final(tx), entries@.len(), depth * entries@.len(), r),
{
    let ghost start = *tx;
    let ghost first = walk@;
    let order = order_by_name(entries);
    let ghost mut trace: Seq<Transaction<'a, V>> = seq![*tx];
    let ghost mut walks: Seq<WalkView> = seq![walk@];
    let n = order.len();
    let mut i: usize = 0;
    while i < n
        invariant
            i <= n,
            n == order@.len(),
            n == entries@.len(),
            complete(order@, n as int),
            by_name(entries@, order@),
            tx.well_formed(),
            start == *old(tx),
            first == old(walk)@,
            *final(tx.vfs) == *final(start.vfs),
            start.goes_on(*tx),
            synced_through(trace, walks, rel@, entries@, order@, exclude@, i as int),
            trace[0] == start,
            walks[0] == first,
            trace.last() == *tx,
            walks.last() == walk@,
            forall|depth: nat|
                (forall|i: int|
                    0 <= i < entries@.len() ==> user_parts(child_path(rel@, (#[trigger] entries@[i]).name@)).len()
                        <= depth) ==> #[trigger] start.afford(*tx, i as nat, depth * i as nat, Ok::<(), Failure>(())),
        decreases n - i,
    {
        let ghost before = *tx;
        assert(order@[i as int] < n);
        let entry = &entries[order[i]];
        match stage_entry(tx, walk, rel, entry, exclude) {
            Ok(_) => {
                proof {
                    let more = trace.push(*tx);
                    let further = walks.push(walk@);
                    assert forall|k: int| 0 <= k < i + 1 implies entry_outcome(
                        #[trigger] more[k],
                        more[k + 1],
                        further[k],
                        further[k + 1],
                        rel@,
                        entries@[order@[k] as int],
                        exclude@,
                        Ok::<(), Failure>(()),
                    ) by {
                        if k < i {
                            assert(more[k] == trace[k] && more[k + 1] == trace[k + 1]);
                            assert(further[k] == walks[k] && further[k + 1] == walks[k + 1]);
                        }
                    }
                    trace = more;
                    walks = further;
                    assert forall|depth: nat|
                        (forall|i: int|
                            0 <= i < entries@.len() ==> user_parts(
                                child_path(rel@, (#[trigger] entries@[i]).name@),
                            ).len() <= depth) implies #[trigger] start.afford(
                        *tx,
                        (i + 1) as nat,
                        depth * ((i + 1) as nat),
                        Ok::<(), Failure>(()),
                    ) by {
                        lemma_one_more(i as nat, n as nat, depth);
                        assert(start.afford(before, i as nat, depth * i as nat, Ok::<(), Failure>(())));
                        assert(user_parts(child_path(rel@, entries@[order@[i as int] as int].name@)).len() <= depth);
                    }
                }
            },
            Err(f) => {
                proof {
                    assert forall|depth: nat|
                        (forall|i: int|
                            0 <= i < entries@.len() ==> user_parts(
                                child_path(rel@, (#[trigger] entries@[i]).name@),
                            ).len() <= depth) implies #[trigger] start.afford(
                        *tx,
                        entries@.len(),
                        depth * entries@.len(),
                        Err::<(), Failure>(f),
                    ) by {
                        lemma_one_more(i as nat, n as nat, depth);
                        assert(start.afford(before, i as nat, depth * i as nat, Ok::<(), Failure>(())));
                        assert(user_parts(child_path(rel@, entries@[order@[i as int] as int].name@)).len() <= depth);
                    }
                    assert(synced_through(trace, walks, rel@, entries@, order@, exclude@, i as int));
                    assert(sync_outcome(
                        start,
                        *tx,
                        first,
                        walk@,
                        rel@,
                        entries@,
                        exclude@,
                        Err::<(), Failure>(f),
                    ));
                }
                return Err(f);
            },
        }
        i = i + 1;
    }
    assert(synced_through(trace, walks, rel@, entries@, order@, exclude@, n as int));
    Ok(())
}

} // verus!
