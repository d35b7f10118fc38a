//! What is told of filesystems, errors, operations and interrupted transactions, in plain terms.
use vstd::prelude::*;
use vstd::utf8::{encode_utf8, valid_utf8};

use crate::bearings::occupies;
use crate::bytes::Name;
use crate::caps::{lacking, shortfall, suits, Onto};
use crate::changes::{op_outcome, path_bytes, reported, Done, Failure, Op};
use crate::disk::{Disk, FileId, Key};
use crate::error::Error;
use crate::hex::text_bytes;
use crate::inspect::{
    garbage_among, inspected, position_of, shown_so_far, transactions_among, tx_shown, Inspection, RecoveryAction,
};
use crate::meaning::{
    law_a_move_moves_everything_below, law_making_directories_leaves_the_rest, law_removing_removes_what_is_below, sees_dir, sees_file,
};
use crate::messages::escaped;
use crate::node::{action_text, bits_asked, code_text, WriteOptions};
use crate::path::{user_parts, PathView};
use crate::positions::Pos;
use crate::recover::{entries_to_recover, is_garbage, is_transaction, texts};
use crate::rulings::{law_numerals_are_worth_their_number, number_of};
use crate::sight::faithful;
use crate::state::private_root;
use crate::text::decimal;
use crate::transaction::Transaction;
use crate::vfs::{Features, Vfs};
use crate::vocabulary::within;

verus! {

// Filesystems.

/// What a filesystem is found to lack. The list is empty only if a rename onto an existing name was
/// refused, identities were stable and directories could be synced. Directory syncing is named exactly
/// if it failed; stable identities exactly if a rename could be tried and changed one; and the rename
/// exactly if it was not refused.
pub proof fn law_what_a_filesystem_lacks(onto: Onto, stable: bool, synced: bool)
    ensures
        ({
            let l = lacking(onto, stable, synced);
            &&& l.len() == 0 <==> onto == Onto::Refused && stable && synced
            &&& l.contains("directory fsync"@) <==> !synced
            &&& l.contains("file identities that are stable across rename"@) <==> onto == Onto::Refused && !stable
            &&& l.contains("no-replace rename (an existing destination was replaced)"@) <==> onto == Onto::Replaced
            &&& l.contains("no-replace rename (RENAME_NOREPLACE)"@) <==> onto == Onto::Unsupported
        }),
{
    reveal_strlit("directory fsync");
    reveal_strlit("file identities that are stable across rename");
    reveal_strlit("no-replace rename (an existing destination was replaced)");
    reveal_strlit("no-replace rename (RENAME_NOREPLACE)");
    let l = lacking(onto, stable, synced);
    let (a, b, c, d) = (
        "directory fsync"@,
        "file identities that are stable across rename"@,
        "no-replace rename (an existing destination was replaced)"@,
        "no-replace rename (RENAME_NOREPLACE)"@,
    );
    assert(a.len() == 15 && b.len() == 45 && c.len() == 56 && d.len() == 36);
    match onto {
        Onto::Refused => {
            if !stable {
                assert(l[0] == b);
            }
        },
        Onto::Replaced => {
            assert(l[0] == c);
        },
        Onto::Unsupported => {
            assert(l[0] == d);
        },
    }
    if !synced {
        assert(l[l.len() - 1] == a);
    }
}

/// A filesystem can be used exactly if it is found to lack nothing.
pub proof fn law_what_lacks_nothing_can_be_used(f: Features)
    ensures
        suits(f) <==> shortfall(f).len() == 0,
        suits(f) ==> f.noreplace && f.dir_sync && !f.renumbers,
{
}

// Errors.

/// The kinds of error, told apart by number.
pub open spec fn sort_of(e: Error) -> int {
    match e {
        Error::InvalidPath { .. } => 0,
        Error::NotFound(_) => 1,
        Error::AlreadyExists(_) => 2,
        Error::NotADirectory(_) => 3,
        Error::IsADirectory(_) => 4,
        Error::DirectoryNotEmpty(_) => 5,
        Error::UnsupportedFileType(_) => 6,
        Error::InvalidMove { .. } => 7,
        Error::CaseCollision { .. } => 8,
        Error::Conflict(_) => 9,
        Error::UnsupportedFilesystem { .. } => 10,
        Error::UnsupportedPlatform => 11,
        Error::RecoveryRequired { .. } => 12,
        Error::CommitOutcomeUnknown { .. } => 13,
        Error::RollbackFailed { .. } => 14,
        Error::Io(_) => 15,
    }
}

/// The letters by which a code is known.
proof fn lemma_code(e: Error)
    ensures
        ({
            let c = code_text(e);
            match e {
                Error::InvalidPath { .. } => c.len() == 12 && c[8] == 'P',
                Error::NotFound(_) => c.len() == 9,
                Error::AlreadyExists(_) => c.len() == 14 && c[0] == 'A',
                Error::NotADirectory(_) => c.len() == 15 && c[0] == 'N',
                Error::IsADirectory(_) => c.len() == 14 && c[0] == 'I',
                Error::DirectoryNotEmpty(_) => c.len() == 19,
                Error::UnsupportedFileType(_) => c.len() == 21,
                Error::InvalidMove { .. } => c.len() == 12 && c[8] == 'M',
                Error::CaseCollision { .. } => c.len() == 14 && c[0] == 'C',
                Error::Conflict(_) => c.len() == 8,
                Error::UnsupportedFilesystem { .. } => c.len() == 22 && c[0] == 'U',
                Error::UnsupportedPlatform => c.len() == 20,
                Error::RecoveryRequired { .. } => c.len() == 17,
                Error::CommitOutcomeUnknown { .. } => c.len() == 22 && c[0] == 'C',
                Error::RollbackFailed { .. } => c.len() == 15 && c[0] == 'R',
                Error::Io(_) => c.len() == 2,
            }
        }),
{
    match e {
        Error::InvalidPath { .. } => {
            reveal_strlit("INVALID_PATH");
        },
        Error::NotFound(_) => {
            reveal_strlit("NOT_FOUND");
        },
        Error::AlreadyExists(_) => {
            reveal_strlit("ALREADY_EXISTS");
        },
        Error::NotADirectory(_) => {
            reveal_strlit("NOT_A_DIRECTORY");
        },
        Error::IsADirectory(_) => {
            reveal_strlit("IS_A_DIRECTORY");
        },
        Error::DirectoryNotEmpty(_) => {
            reveal_strlit("DIRECTORY_NOT_EMPTY");
        },
        Error::UnsupportedFileType(_) => {
            reveal_strlit("UNSUPPORTED_FILE_TYPE");
        },
        Error::InvalidMove { .. } => {
            reveal_strlit("INVALID_MOVE");
        },
        Error::CaseCollision { .. } => {
            reveal_strlit("CASE_COLLISION");
        },
        Error::Conflict(_) => {
            reveal_strlit("CONFLICT");
        },
        Error::UnsupportedFilesystem { .. } => {
            reveal_strlit("UNSUPPORTED_FILESYSTEM");
        },
        Error::UnsupportedPlatform => {
            reveal_strlit("UNSUPPORTED_PLATFORM");
        },
        Error::RecoveryRequired { .. } => {
            reveal_strlit("RECOVERY_REQUIRED");
        },
        Error::CommitOutcomeUnknown { .. } => {
            reveal_strlit("COMMIT_OUTCOME_UNKNOWN");
        },
        Error::RollbackFailed { .. } => {
            reveal_strlit("ROLLBACK_FAILED");
        },
        Error::Io(_) => {
            reveal_strlit("IO");
        },
    }
}

/// The codes tell errors apart by their kind, and by nothing else.
pub proof fn law_codes_tell_kinds_of_errors_apart(e: Error, f: Error)
    ensures
        code_text(e) == code_text(f) <==> sort_of(e) == sort_of(f),
{
    lemma_code(e);
    lemma_code(f);
}

/// The names of recovery actions tell them apart.
pub proof fn law_names_tell_actions_apart(a: RecoveryAction, b: RecoveryAction)
    ensures
        action_text(a) == action_text(b) <==> a == b,
{
    reveal_strlit("Discard");
    reveal_strlit("CleanUpCommitted");
    reveal_strlit("CleanUpRolledBack");
    reveal_strlit("RollBack");
    reveal_strlit("RecoveryRequired");
    assert("CleanUpCommitted"@[0] == 'C' && "RecoveryRequired"@[0] == 'R');
    assert("Discard"@.len() == 7 && "CleanUpCommitted"@.len() == 16 && "CleanUpRolledBack"@.len() == 17 && "RollBack"@.len() == 8
        && "RecoveryRequired"@.len() == 16);
}

/// The digits in base 16, with capitals.
pub open spec fn is_capital_digit(c: int) -> bool {
    48 <= c <= 57 || 65 <= c <= 70
}

/// What such a digit is worth.
pub open spec fn capital_worth(c: int) -> int {
    if c <= 57 {
        c - 48
    } else {
        c - 55
    }
}

/// A byte that is no text is told by its number: a backslash, an `x` and two digits in base 16, the
/// letters among them in capitals.
pub proof fn law_bytes_are_told_by_their_number(x: u8)
    ensures
        ({
            let t = escaped(x);
            &&& t.len() == 4 && t[0] == '\\' && t[1] == 'x'
            &&& is_capital_digit(t[2] as int) && is_capital_digit(t[3] as int)
            &&& capital_worth(t[2] as int) * 16 + capital_worth(t[3] as int) == x
        }),
{
    assert(x == (x / 16) * 16 + x % 16);
}

/// Numbers are told in base ten.
pub proof fn law_numbers_are_told_in_base_ten(n: nat)
    ensures
        number_of(decimal(n), 10) == n,
        decimal(n).len() > 1 ==> decimal(n)[0] != 48,
{
    law_numerals_are_worth_their_number(n, 10);
}

/// Of the permission bits that a script asks for, the twelve that files have count.
pub proof fn law_a_script_asks_for_twelve_bits(m: u32)
    ensures
        bits_asked(Some(WriteOptions { mode: Some(m) })) == Some((m % 4096) as u32),
        bits_asked(Some(WriteOptions { mode: None })) is None,
        bits_asked(None) is None,
{
    assert(m & 4095 == m % 4096) by (bit_vector);
}

// Operations.

/// What an operation of a change set does: a rename moves everything below, and nothing else; removing
/// removes a file or an empty directory, and removing all a directory with what is in it, and nothing
/// else; making a directory leaves everything else.
pub proof fn law_what_an_operation_does<'a, V: Vfs>(
    a: Transaction<'a, V>,
    b: Transaction<'a, V>,
    i: usize,
    op: Op,
    rest: PathView,
    q: PathView,
)
    requires
        op_outcome(a, b, i, op, Ok::<(), Failure>(())),
        faithful(a.staging(), a.disk()),
        a.disk().folds ==> a.staging().case_insensitive,
    ensures
        ({
            let (before, after) = (a.staging(), b.staging());
            let d = a.disk();
            match op {
                Op::Rename { from, to } => {
                    let (x, y) = (user_parts(path_bytes(from)), user_parts(path_bytes(to)));
                    x != y ==> {
                        &&& before.look(d, y) is Nothing
                        &&& after.look(d, y + rest) == before.look(d, x + rest)
                        &&& within(q, x) ==> after.look(d, q) is Nothing
                        &&& !within(q, x) && !within(q, y) ==> after.look(d, q) == before.look(d, q)
                    }
                },
                Op::Remove { path } => {
                    let p = user_parts(path_bytes(path));
                    &&& sees_file(before, d, p) || sees_dir(before, d, p) && forall|n: Name| !((#[trigger] before.look(d, p.push(n))) is Found)
                    &&& within(q, p) ==> after.look(d, q) is Nothing
                    &&& !within(q, p) ==> after.look(d, q) == before.look(d, q)
                },
                Op::RemoveAll { path } => {
                    let p = user_parts(path_bytes(path));
                    &&& sees_dir(before, d, p)
                    &&& within(q, p) ==> after.look(d, q) is Nothing
                    &&& !within(q, p) ==> after.look(d, q) == before.look(d, q)
                },
                Op::Mkdir { path } => {
                    let p = user_parts(path_bytes(path));
                    before.next_dir + p.len() <= u64::MAX && !within(p, q) ==> after.look(d, q) == before.look(d, q)
                },
                _ => true,
            }
        }),
{
    match op {
        Op::Rename { from, to } => {
            law_a_move_moves_everything_below(a, b, path_bytes(from), path_bytes(to), rest, q);
        },
        Op::Remove { path } => {
            law_removing_removes_what_is_below(a, b, path_bytes(path), false, q);
        },
        Op::RemoveAll { path } => {
            law_removing_removes_what_is_below(a, b, path_bytes(path), true, q);
        },
        Op::Mkdir { path } => {
            let p = user_parts(path_bytes(path));
            if a.staging().next_dir + p.len() <= u64::MAX && !within(p, q) {
                law_making_directories_leaves_the_rest(a, b, path_bytes(path), q);
            }
        },
        _ => {},
    }
}

/// The kinds of operation, told apart by number.
pub open spec fn sort_of_op(op: Op) -> int {
    match op {
        Op::Write { .. } => 0,
        Op::Replace { .. } => 1,
        Op::Mkdir { .. } => 2,
        Op::Rename { .. } => 3,
        Op::Remove { .. } => 4,
        Op::RemoveAll { .. } => 5,
    }
}

/// The report tells operations apart, and names both ends of a rename.
pub proof fn law_reports_tell_operations_apart(x: Op, y: Op, d: Done)
    requires
        reported(x, d),
    ensures
        reported(y, d) ==> sort_of_op(x) == sort_of_op(y),
        d.to is Some <==> x is Rename,
        x matches Op::Rename { from, to } ==> d.path@ == from@ && d.to->0@ == to@,
        x matches Op::Remove { path } ==> d.path@ == path@,
        x matches Op::RemoveAll { path } ==> d.path@ == path@,
        x matches Op::Mkdir { path } ==> d.path@ == path@,
{
    reveal_strlit("write");
    reveal_strlit("replace");
    reveal_strlit("mkdir");
    reveal_strlit("rename");
    reveal_strlit("remove");
    reveal_strlit("remove_all");
    assert("write"@[0] == 'w' && "mkdir"@[0] == 'm' && "rename"@[2] == 'n' && "remove"@[2] == 'm');
    assert("write"@.len() == 5 && "replace"@.len() == 7 && "mkdir"@.len() == 5 && "rename"@.len() == 6 && "remove"@.len() == 6
        && "remove_all"@.len() == 10);
}

// Interrupted transactions.

/// The position that is told is the first location that the token is at, and tells whether it is at the
/// next one too.
pub proof fn law_positions_are_told_right(x: Pos)
    ensures
        ({
            let t = position_of(x);
            &&& occupies(x, t.index as int)
            &&& !occupies(x, t.index - 1)
            &&& t.both_names <==> occupies(x, t.index + 1)
        }),
{
}

proof fn lemma_garbage_listed(names: Seq<String>, n: int, i: int)
    requires
        0 <= i < n <= names.len(),
        is_garbage(encode_utf8(names[i]@)),
    ensures
        garbage_among(names, n).contains(names[i]@),
    decreases n,
{
    let all = garbage_among(names, n);
    if i == n - 1 {
        assert(all[all.len() - 1] == names[i]@);
    } else {
        lemma_garbage_listed(names, n - 1, i);
        let less = garbage_among(names, n - 1);
        let k = choose|k: int| 0 <= k < less.len() && less[k] == names[i]@;
        assert(all[k] == less[k]);
    }
}

proof fn lemma_transaction_listed(names: Seq<String>, n: int, i: int)
    requires
        0 <= i < n <= names.len(),
        is_transaction(encode_utf8(names[i]@)),
    ensures
        transactions_among(names, n).contains(names[i]),
    decreases n,
{
    let all = transactions_among(names, n);
    if i == n - 1 {
        assert(all[all.len() - 1] == names[i]);
    } else {
        lemma_transaction_listed(names, n - 1, i);
        let less = transactions_among(names, n - 1);
        let k = choose|k: int| 0 <= k < less.len() && less[k] == names[i];
        assert(all[k] == less[k]);
    }
}

/// Inspection tells of everything in the private directory that recovery would deal with.
pub proof fn law_inspection_tells_of_everything(d: Disk, out: Inspection, dir: FileId, n: Name)
    requires
        inspected(d, out),
        d.dir_at(private_root()) == Some(dir),
        d.names.contains_key(Key { dir, name: n }),
        valid_utf8(n),
    ensures
        is_garbage(n) ==> exists|i: int| 0 <= i < out.garbage@.len() && encode_utf8((#[trigger] out.garbage@[i])@) == n,
        is_transaction(n) ==> exists|i: int| 0 <= i < out.transactions@.len() && encode_utf8((#[trigger] out.transactions@[i]).name@) == n,
{
    let names = choose|names: Seq<String>| #[trigger]
        entries_to_recover(d, names) && shown_so_far(d, names, names.len() as int, out);
    assert(text_bytes(names).contains(n));
    let k = choose|k: int| 0 <= k < text_bytes(names).len() && text_bytes(names)[k] == n;
    let all = names.len() as int;
    if is_garbage(n) {
        lemma_garbage_listed(names, all, k);
        let g = garbage_among(names, all);
        let i = choose|i: int| 0 <= i < g.len() && g[i] == names[k]@;
        assert(texts(out.garbage@)[i] == out.garbage@[i]@);
        assert(encode_utf8(out.garbage@[i]@) == n);
    }
    if is_transaction(n) {
        lemma_transaction_listed(names, all, k);
        let t = transactions_among(names, all);
        let i = choose|i: int| 0 <= i < t.len() && t[i] == names[k];
        assert(tx_shown(d, t[i], out.transactions@[i]));
        assert(encode_utf8(out.transactions@[i].name@) == n);
    }
}

} // verus!
