//! Errors in words.
use vstd::prelude::*;
use vstd::string::StrSliceExecFns;
use vstd::utf8::valid_utf8;

use crate::disk::FileId;
use crate::error::{Error, Reason};
use crate::path::{joined, parent_of, PathView, RelPath};
use crate::text::{ascii_chars, decimal, is_ascii, lemma_numeral_digits, lossy_text};
use crate::text::{ascii_string, lossy, utf8_string, write_decimal};

verus! {

/// How std's `Debug` writes a path that is text: the name for what [`quote_text`] returns.
pub uninterp spec fn quoted_text(text: Seq<char>) -> Seq<char>;

/// Writes a path that is text with the `Debug` of `std::path::Path`. That the result depends on the
/// text alone is what is claimed; how quotes and control characters come out is not.
#[verifier::external_body]
fn quote_text(text: &str) -> (r: String)
    ensures
        r@ == quoted_text(text@),
{
    format!("{:?}", std::path::Path::new(text))
}

/// The text without its first and last character.
pub open spec fn stripped(t: Seq<char>) -> Seq<char> {
    if t.len() >= 2 {
        t.subrange(1, t.len() - 1)
    } else {
        t
    }
}

/// The text without its first and last character.
fn strip(t: &str) -> (r: String)
    ensures
        r@ == stripped(t@),
{
    let n = t.unicode_len();
    if n >= 2 {
        t.substring_char(1, n - 1).to_string()
    } else {
        t.to_string()
    }
}

/// So many bytes at `i` are text.
pub open spec fn text_at(b: Seq<u8>, i: int, n: int) -> bool {
    i + n <= b.len() && valid_utf8(b.subrange(i, i + n))
}

/// How many bytes at `i` make up a character, or 0 if none starts there.
pub open spec fn char_width(b: Seq<u8>, i: int) -> int {
    if text_at(b, i, 1) {
        1
    } else if text_at(b, i, 2) {
        2
    } else if text_at(b, i, 3) {
        3
    } else if text_at(b, i, 4) {
        4
    } else {
        0
    }
}

/// Tests whether so many bytes at `i` are text.
fn is_text_at(b: &[u8], i: usize, n: usize) -> (r: bool)
    requires
        i <= b@.len(),
        n <= 4,
    ensures
        r == text_at(b@, i as int, n as int),
{
    if b.len() - i < n {
        return false;
    }
    let part = vstd::slice::slice_to_vec(vstd::slice::slice_subrange(b, i, i + n));
    utf8_string(part).is_some()
}

/// The sixteen digits, in capitals.
pub open spec fn capital(n: u8) -> u8 {
    if n < 10 {
        (48 + n) as u8
    } else {
        (55 + n) as u8
    }
}

/// A byte as `\xNN`.
pub open spec fn escaped(x: u8) -> Seq<char> {
    ascii_chars(seq![92u8, 120u8, capital(x / 16), capital(x % 16)])
}

/// The digit, in capitals.
fn capital_digit(n: u8) -> (r: u8)
    requires
        n < 16,
    ensures
        r == capital(n),
        r < 128,
{
    if n < 10 {
        48 + n
    } else {
        55 + n
    }
}

/// A byte as `\xNN`.
fn escape(x: u8) -> (r: String)
    ensures
        r@ == escaped(x),
{
    let b: Vec<u8> = vec![92, 120, capital_digit(x / 16), capital_digit(x % 16)];
    assert(b@ =~= seq![92u8, 120u8, capital(x / 16), capital(x % 16)]);
    ascii_string(b)
}

/// A run of text inside the quotes.
pub open spec fn run_text(run: Seq<u8>) -> Seq<char> {
    stripped(quoted_text(lossy_text(run)))
}

/// What stands inside the quotes from `start` on, where the bytes up to `i` are a run of text: runs of
/// text as `Debug` writes them, and every other byte by its number.
pub open spec fn quoted_from(b: Seq<u8>, start: int, i: int) -> Seq<char>
    decreases b.len() - i,
{
    if i >= b.len() || i < 0 {
        run_text(b.subrange(start, b.len() as int))
    } else if char_width(b, i) == 0 {
        run_text(b.subrange(start, i)) + escaped(b[i]) + quoted_from(b, i + 1, i + 1)
    } else {
        quoted_from(b, start, i + char_width(b, i))
    }
}

/// A path in quotes.
pub open spec fn quoted(bytes: Seq<u8>) -> Seq<char> {
    "\""@ + quoted_from(bytes, 0, 0) + "\""@
}

/// A run of text inside the quotes.
fn quote_run(b: &[u8], start: usize, end: usize) -> (r: String)
    requires
        start <= end <= b@.len(),
    ensures
        r@ == run_text(b@.subrange(start as int, end as int)),
{
    let run = vstd::slice::slice_subrange(b, start, end);
    let text = quote_text(lossy(run).as_str());
    strip(text.as_str())
}

/// A path in quotes.
fn quote(bytes: &[u8]) -> (r: String)
    ensures
        r@ == quoted(bytes@),
{
    let n = bytes.len();
    let mut out = String::from_str("\"");
    let mut start: usize = 0;
    let mut i: usize = 0;
    let ghost all = "\""@ + quoted_from(bytes@, 0, 0);
    while i < n
        invariant
            start <= i <= n,
            n == bytes@.len(),
            out@ + quoted_from(bytes@, start as int, i as int) == all,
        decreases n - i,
    {
        let width: usize = if is_text_at(bytes, i, 1) {
            1
        } else if is_text_at(bytes, i, 2) {
            2
        } else if is_text_at(bytes, i, 3) {
            3
        } else if is_text_at(bytes, i, 4) {
            4
        } else {
            0
        };
        if width == 0 {
            let ghost before = out@;
            out = out.concat(quote_run(bytes, start, i).as_str()).concat(escape(bytes[i]).as_str());
            i = i + 1;
            start = i;
            assert(out@ + quoted_from(bytes@, start as int, i as int) =~= all);
        } else {
            i = i + width;
        }
    }
    out.concat(quote_run(bytes, start, n).as_str()).concat("\"")
}

/// A number in words.
pub open spec fn number_text(n: nat) -> Seq<char> {
    ascii_chars(decimal(n))
}

/// A number in words.
pub fn number(n: u64) -> (r: String)
    ensures
        r@ == number_text(n as nat),
{
    let digits = write_decimal(n);
    proof {
        lemma_numeral_digits(n as nat, 10);
        assert(is_ascii(digits@));
    }
    ascii_string(digits)
}

/// A path in words.
pub open spec fn path_text(p: PathView) -> Seq<char> {
    quoted(joined(p))
}

/// A path in words.
fn path(p: &RelPath) -> (r: String)
    ensures
        r@ == path_text(p@),
{
    quote(&p.to_path_buf())
}

/// An identity in words.
pub open spec fn id_text(id: FileId) -> Seq<char> {
    "FileId { dev: "@ + number_text(id.dev as nat) + ", ino: "@ + number_text(id.ino as nat) + " }"@
}

/// An identity in words.
fn id(x: FileId) -> (r: String)
    ensures
        r@ == id_text(x),
{
    String::from_str("FileId { dev: ").concat(number(x.dev).as_str()).concat(", ino: ").concat(
        number(x.ino).as_str(),
    ).concat(" }")
}

/// The first `n` numbers, separated by commas.
pub open spec fn list_text(v: Seq<usize>, n: int) -> Seq<char>
    decreases n,
{
    if n <= 0 {
        ""@
    } else if n == 1 {
        ""@ + number_text(v[0] as nat)
    } else {
        list_text(v, n - 1) + ", "@ + number_text(v[n - 1] as nat)
    }
}

/// Numbers separated by commas.
fn list(v: &Vec<usize>) -> (r: String)
    ensures
        r@ == list_text(v@, v@.len() as int),
{
    let n = v.len();
    let mut out = String::from_str("");
    let mut i: usize = 0;
    while i < n
        invariant
            i <= n,
            n == v@.len(),
            out@ == list_text(v@, i as int),
        decreases n - i,
    {
        if i > 0 {
            out = out.concat(", ");
        }
        out = out.concat(number(v[i] as u64).as_str());
        i = i + 1;
    }
    out
}

/// A reason in words.
pub open spec fn reason_text(e: Reason) -> Seq<char> {
    match e {
        Reason::UnknownToken => "step names an unknown token"@,
        Reason::BeyondLastLocation => "step moves beyond the token's last location"@,
        Reason::MovedTwice => "token moved twice from the same location"@,
        Reason::Overlap { wave, first, second } => "wave "@ + number_text(wave as nat) + ": steps overlap at "@
            + path_text(first@) + " / "@ + path_text(second@),
        Reason::MissingStep { token, from } => "token "@ + number_text(token as nat) + " misses step "@ + number_text(
            from as nat,
        ),
        Reason::WavesNotIncreasing { token } => "token "@ + number_text(token as nat)
            + ": steps not in strictly increasing waves"@,
        Reason::NotAtSource { wave, token } => "wave "@ + number_text(wave as nat) + ": token "@ + number_text(
            token as nat,
        ) + " not at its source"@,
        Reason::Occupied { wave, path, token } => "wave "@ + number_text(wave as nat) + ": destination "@ + path_text(
            path@,
        ) + " occupied by token "@ + number_text(token as nat),
        Reason::ParentNotInPlace { wave, path } => "wave "@ + number_text(wave as nat) + ": parent "@ + path_text(
            parent_of(path@),
        ) + " of "@ + path_text(path@) + " not in place yet"@,
        Reason::ParentIdentity { wave, parent } => "wave "@ + number_text(wave as nat)
            + ": parent identity mismatch at "@ + path_text(parent@),
        Reason::NotFinal { token } => "token "@ + number_text(token as nat) + " does not reach its final location"@,
        Reason::SameFinal { path } => "two tokens end at "@ + path_text(path@),
        Reason::NoChecksum => "journal has no checksum"@,
        Reason::TornChecksum => "journal checksum line is torn"@,
        Reason::ChecksumMismatch => "journal checksum mismatch"@,
        Reason::DoesNotParse { message } => "journal does not parse: "@ + message@,
        Reason::UnknownFormat { format } => "unknown journal format "@ + number_text(format as nat),
        Reason::OtherTransaction => "journal belongs to a different transaction"@,
        Reason::OtherRoot => "journal belongs to a different root directory"@,
        Reason::TooFewLocations => "token with fewer than two locations"@,
        Reason::RootLocation => "location is the root"@,
        Reason::ForeignLocation { path } => "private location "@ + path_text(path@) + " outside this transaction"@,
        Reason::UnknownEntry { path } => "unknown entry at "@ + path_text(path@),
        Reason::TokenLost { id } => "token "@ + id_text(id) + " not found at any of its locations"@,
        Reason::TokenSeveral { id, hits } => "token "@ + id_text(id) + " found at several locations ["@ + list_text(
            hits@,
            hits@.len() as int,
        ) + "]"@,
        Reason::TwoPartialWaves { first, second } => "waves "@ + number_text(first as nat) + " and "@ + number_text(
            second as nat,
        ) + " both partially applied"@,
        Reason::NoSuchWave => "progress names a wave that does not exist"@,
        Reason::NotUndone { wave } => "wave "@ + number_text(wave as nat) + " logged as undone but not observed undone"@,
        Reason::NotApplied { wave } => "wave "@ + number_text(wave as nat)
            + " logged as applied but not observed applied"@,
        Reason::CommittedAndRolledBack => "both COMMITTED and rollback markers present"@,
        Reason::NoJournal => "no journal, but the transaction has progressed past preparation"@,
    }
}

/// A prefix with a wave's number.
fn wave_prefix(wave: usize) -> (r: String)
    ensures
        r@ == "wave "@ + number_text(wave as nat),
{
    String::from_str("wave ").concat(number(wave as u64).as_str())
}

/// A prefix with a token's number.
fn token_prefix(token: usize) -> (r: String)
    ensures
        r@ == "token "@ + number_text(token as nat),
{
    String::from_str("token ").concat(number(token as u64).as_str())
}

impl Reason {
    /// The reason in words.
    pub fn text(&self) -> (r: String)
        ensures
            r@ == reason_text(*self),
    {
        match self {
            Reason::UnknownToken => String::from_str("step names an unknown token"),
            Reason::BeyondLastLocation => String::from_str("step moves beyond the token's last location"),
            Reason::MovedTwice => String::from_str("token moved twice from the same location"),
            Reason::Overlap { wave, first, second } => wave_prefix(*wave).concat(": steps overlap at ").concat(
                path(first).as_str(),
            ).concat(" / ").concat(path(second).as_str()),
            Reason::MissingStep { token, from } => token_prefix(*token).concat(" misses step ").concat(
                number(*from as u64).as_str(),
            ),
            Reason::WavesNotIncreasing { token } => token_prefix(*token).concat(
                ": steps not in strictly increasing waves",
            ),
            Reason::NotAtSource { wave, token } => wave_prefix(*wave).concat(": token ").concat(
                number(*token as u64).as_str(),
            ).concat(" not at its source"),
            Reason::Occupied { wave, path: p, token } => wave_prefix(*wave).concat(": destination ").concat(
                path(p).as_str(),
            ).concat(" occupied by token ").concat(number(*token as u64).as_str()),
            Reason::ParentNotInPlace { wave, path: p } => wave_prefix(*wave).concat(": parent ").concat(
                path(&p.parent_or_root()).as_str(),
            ).concat(" of ").concat(path(p).as_str()).concat(" not in place yet"),
            Reason::ParentIdentity { wave, parent } => wave_prefix(*wave).concat(
                ": parent identity mismatch at ",
            ).concat(path(parent).as_str()),
            Reason::NotFinal { token } => token_prefix(*token).concat(" does not reach its final location"),
            Reason::SameFinal { path: p } => String::from_str("two tokens end at ").concat(path(p).as_str()),
            Reason::NoChecksum => String::from_str("journal has no checksum"),
            Reason::TornChecksum => String::from_str("journal checksum line is torn"),
            Reason::ChecksumMismatch => String::from_str("journal checksum mismatch"),
            Reason::DoesNotParse { message } => String::from_str("journal does not parse: ").concat(message.as_str()),
            Reason::UnknownFormat { format } => String::from_str("unknown journal format ").concat(
                number(*format as u64).as_str(),
            ),
            Reason::OtherTransaction => String::from_str("journal belongs to a different transaction"),
            Reason::OtherRoot => String::from_str("journal belongs to a different root directory"),
            Reason::TooFewLocations => String::from_str("token with fewer than two locations"),
            Reason::RootLocation => String::from_str("location is the root"),
            Reason::ForeignLocation { path: p } => String::from_str("private location ").concat(
                path(p).as_str(),
            ).concat(" outside this transaction"),
            Reason::UnknownEntry { path: p } => String::from_str("unknown entry at ").concat(path(p).as_str()),
            Reason::TokenLost { id: x } => String::from_str("token ").concat(id(*x).as_str()).concat(
                " not found at any of its locations",
            ),
            Reason::TokenSeveral { id: x, hits } => String::from_str("token ").concat(id(*x).as_str()).concat(
                " found at several locations [",
            ).concat(list(hits).as_str()).concat("]"),
            Reason::TwoPartialWaves { first, second } => String::from_str("waves ").concat(
                number(*first as u64).as_str(),
            ).concat(" and ").concat(number(*second as u64).as_str()).concat(" both partially applied"),
            Reason::NoSuchWave => String::from_str("progress names a wave that does not exist"),
            Reason::NotUndone { wave } => wave_prefix(*wave).concat(" logged as undone but not observed undone"),
            Reason::NotApplied { wave } => wave_prefix(*wave).concat(" logged as applied but not observed applied"),
            Reason::CommittedAndRolledBack => String::from_str("both COMMITTED and rollback markers present"),
            Reason::NoJournal => String::from_str(
                "no journal, but the transaction has progressed past preparation",
            ),
        }
    }
}

/// The first `n` missing capabilities, quoted and separated by commas.
pub open spec fn missing_text(v: Seq<&'static str>, n: int) -> Seq<char>
    decreases n,
{
    if n <= 0 {
        ""@
    } else if n == 1 {
        ""@ + quoted(vstd::utf8::encode_utf8(v[0]@))
    } else {
        missing_text(v, n - 1) + ", "@ + quoted(vstd::utf8::encode_utf8(v[n - 1]@))
    }
}

/// Missing capabilities, quoted and separated by commas.
fn missing_list(v: &Vec<&'static str>) -> (r: String)
    ensures
        r@ == missing_text(v@, v@.len() as int),
{
    let n = v.len();
    let mut out = String::from_str("");
    let mut i: usize = 0;
    while i < n
        invariant
            i <= n,
            n == v@.len(),
            out@ == missing_text(v@, i as int),
        decreases n - i,
    {
        if i > 0 {
            out = out.concat(", ");
        }
        let word = v[i];
        out = out.concat(quote(word.as_bytes()).as_str());
        i = i + 1;
    }
    out
}

/// An error in words.
pub open spec fn error_text(e: Error) -> Seq<char>
    decreases e,
{
    match e {
        Error::InvalidPath { path, reason } => "invalid path "@ + quoted(path@) + ": "@ + reason@,
        Error::NotFound(p) => "not found: "@ + path_text(p@),
        Error::AlreadyExists(p) => "already exists: "@ + path_text(p@),
        Error::NotADirectory(p) => "not a directory: "@ + path_text(p@),
        Error::IsADirectory(p) => "is a directory: "@ + path_text(p@),
        Error::DirectoryNotEmpty(p) => "directory not empty: "@ + path_text(p@),
        Error::UnsupportedFileType(p) => "unsupported file type at "@ + path_text(p@)
            + " (symlinks and special files are out of scope)"@,
        Error::InvalidMove { from, to } => "cannot move "@ + path_text(from@) + " into its own subtree "@ + path_text(
            to@,
        ),
        Error::CaseCollision { path, existing } => path_text(path@) + " collides with existing entry "@ + path_text(
            existing@,
        ) + " on a case-insensitive filesystem"@,
        Error::Conflict(p) => path_text(p@) + " was changed outside the transaction"@,
        Error::UnsupportedFilesystem { missing } => "unsupported filesystem: missing ["@ + missing_text(
            missing@,
            missing@.len() as int,
        ) + "]"@,
        Error::UnsupportedPlatform => "fstx v0.1 only has a Linux backend"@,
        Error::RecoveryRequired { tx, reason } => "recovery required for "@ + tx@ + ": "@ + reason_text(reason),
        Error::CommitOutcomeUnknown { tx, .. } => "commit outcome unknown for "@ + tx@ + "; run fstx::recover"@,
        Error::RollbackFailed { cause, rollback } => "commit failed ("@ + error_text(*cause)
            + ") and rollback failed ("@ + error_text(*rollback) + "); run fstx::recover"@,
        Error::Io(x) => x.message@,
    }
}

impl Error {
    /// The error in words.
    pub fn text(&self) -> (r: String)
        ensures
            r@ == error_text(*self),
        decreases self,
    {
        match self {
            Error::InvalidPath { path: p, reason } => String::from_str("invalid path ").concat(
                quote(p).as_str(),
            ).concat(": ").concat(reason),
            Error::NotFound(p) => String::from_str("not found: ").concat(path(p).as_str()),
            Error::AlreadyExists(p) => String::from_str("already exists: ").concat(path(p).as_str()),
            Error::NotADirectory(p) => String::from_str("not a directory: ").concat(path(p).as_str()),
            Error::IsADirectory(p) => String::from_str("is a directory: ").concat(path(p).as_str()),
            Error::DirectoryNotEmpty(p) => String::from_str("directory not empty: ").concat(path(p).as_str()),
            Error::UnsupportedFileType(p) => String::from_str("unsupported file type at ").concat(
                path(p).as_str(),
            ).concat(" (symlinks and special files are out of scope)"),
            Error::InvalidMove { from, to } => String::from_str("cannot move ").concat(path(from).as_str()).concat(
                " into its own subtree ",
            ).concat(path(to).as_str()),
            Error::CaseCollision { path: p, existing } => path(p).concat(" collides with existing entry ").concat(
                path(existing).as_str(),
            ).concat(" on a case-insensitive filesystem"),
            Error::Conflict(p) => path(p).concat(" was changed outside the transaction"),
            Error::UnsupportedFilesystem { missing } => String::from_str("unsupported filesystem: missing [").concat(
                missing_list(missing).as_str(),
            ).concat("]"),
            Error::UnsupportedPlatform => String::from_str("fstx v0.1 only has a Linux backend"),
            Error::RecoveryRequired { tx, reason } => String::from_str("recovery required for ").concat(
                tx.as_str(),
            ).concat(": ").concat(reason.text().as_str()),
            Error::CommitOutcomeUnknown { tx, .. } => String::from_str("commit outcome unknown for ").concat(
                tx.as_str(),
            ).concat("; run fstx::recover"),
            Error::RollbackFailed { cause, rollback } => String::from_str("commit failed (").concat(
                cause.text().as_str(),
            ).concat(") and rollback failed (").concat(rollback.text().as_str()).concat("); run fstx::recover"),
            Error::Io(x) => x.message.clone(),
        }
    }
}

} // verus!
