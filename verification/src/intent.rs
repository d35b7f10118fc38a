//! What a change set asks for, and what copying a tree does: preconditions, replaced text, sources, and
//! names that are passed over.
use vstd::prelude::*;
use vstd::utf8::{encode_utf8, valid_utf8};

use crate::bytes::{folded, Name};
use crate::changes::{
    base64_decoded, child_path, complete, digest_is, entry_outcome, excluded, finds, kind_of, meets, path_bytes, reads,
    replace_outcome, sha256_of, sha256_text, source_of, sync_outcome, synced_through, Expect, FailKind, Failure,
    FromFile, SourceEntry, SourceKind, SourceView, WalkView,
};
use crate::edits::{occurrences, replaced};
use crate::error::Error;
use crate::findings::{exchanged, found_at, law_occurrences_are_exact};
use crate::hex::{digit_value, hex_text, pair_value, unhex_text};
use crate::meaning::{law_what_is_written_reads_back, sees_dir};
use crate::overlay::Look;
use crate::path::{user_parts, user_path_fault};
use crate::sight::faithful;
use crate::transaction::{wrote, Transaction};
use crate::vfs::Vfs;
use crate::vocabulary::{law_folding_forgets_case_only, one_letter};

verus! {

/// A small number as a hex digit in lower case.
pub open spec fn hex_digit(n: int) -> u8 {
    if n < 10 {
        (48 + n) as u8
    } else {
        (87 + n) as u8
    }
}

/// The text is the bytes in hex, two digits for each, whatever the case of letters.
pub open spec fn spells(text: Name, bytes: Seq<u8>) -> bool {
    &&& text.len() == 2 * bytes.len()
    &&& forall|i: int|
        0 <= i < bytes.len() ==> one_letter(text[2 * i], hex_digit(#[trigger] bytes[i] as int / 16)) && one_letter(
            text[2 * i + 1],
            hex_digit(bytes[i] as int % 16),
        )
}

/// Each precondition that is given must hold by itself, and no more is asked. Where a digest is given, a
/// file is read at the path, and the text spells the digest of its content, whatever the case of letters;
/// where it is said that something is there, or that nothing is, so it is.
pub proof fn law_every_precondition_counts<'a, V: Vfs>(tx: Transaction<'a, V>, path: Name, x: Expect)
    ensures
        meets(tx, path, x) <==> {
            &&& user_path_fault(path) is None
            &&& !(tx.staging().look(tx.disk(), user_parts(path)) is Clash)
            &&& x.exists_there == Some(true) ==> tx.staging().look(tx.disk(), user_parts(path)) is Found
            &&& x.exists_there == Some(false) ==> tx.staging().look(tx.disk(), user_parts(path)) is Nothing
            &&& x.sha256 matches Some(want) ==> exists|data: Seq<u8>| #[trigger]
                reads(tx, path, data) && spells(encode_utf8(want@), sha256_of(data))
        },
{
    if x.sha256 is Some {
        let want = encode_utf8(x.sha256->0@);
        assert forall|data: Seq<u8>| #[trigger] reads(tx, path, data) implies (folded(sha256_text(data)) == folded(want) <==> spells(
            want,
            sha256_of(data),
        )) by {
            lemma_spells(sha256_of(data), want);
        }
        if meets(tx, path, x) {
            assert(digest_is(tx, path, want));
            let data = choose|data: Seq<u8>| #[trigger] reads(tx, path, data) && folded(sha256_text(data)) == folded(want);
            assert(reads(tx, path, data) && spells(want, sha256_of(data)));
        }
        if exists|data: Seq<u8>| #[trigger] reads(tx, path, data) && spells(want, sha256_of(data)) {
            let data = choose|data: Seq<u8>| #[trigger] reads(tx, path, data) && spells(want, sha256_of(data));
            assert(reads(tx, path, data) && folded(sha256_text(data)) == folded(want));
            assert(digest_is(tx, path, want));
            assert(tx.staging().look(tx.disk(), user_parts(path)) is Found);
        }
    }
    match tx.staging().look(tx.disk(), user_parts(path)) {
        Look::Found(_) => {
            assert(user_path_fault(path) is None ==> finds(tx, path, true));
        },
        Look::Nothing => {
            assert(user_path_fault(path) is None ==> finds(tx, path, false));
        },
        _ => {},
    }
}

proof fn lemma_spells(digest: Seq<u8>, want: Name)
    ensures
        folded(hex_text(digest)) == folded(want) <==> spells(want, digest),
{
    let h = hex_text(digest);
    law_hex_is_two_digits_for_each_byte(digest, 0);
    law_folding_forgets_case_only(h, want);
    if folded(h) == folded(want) {
        assert forall|i: int| 0 <= i < digest.len() implies one_letter(want[2 * i], hex_digit(#[trigger] digest[i] as int / 16))
            && one_letter(want[2 * i + 1], hex_digit(digest[i] as int % 16)) by {
            law_hex_is_two_digits_for_each_byte(digest, i);
            assert(one_letter(h[2 * i], want[2 * i]) && one_letter(h[2 * i + 1], want[2 * i + 1]));
        }
    }
    if spells(want, digest) {
        assert forall|k: int| 0 <= k < h.len() implies one_letter(#[trigger] h[k], want[k]) by {
            let i = k / 2;
            law_hex_is_two_digits_for_each_byte(digest, i);
            assert(one_letter(want[2 * i], hex_digit(digest[i] as int / 16)) && one_letter(
                want[2 * i + 1],
                hex_digit(digest[i] as int % 16),
            ));
            assert(k == 2 * i || k == 2 * i + 1);
        }
    }
}

/// Hex has two digits for each byte: the upper half and the lower half, in lower case.
pub proof fn law_hex_is_two_digits_for_each_byte(bytes: Seq<u8>, i: int)
    ensures
        hex_text(bytes).len() == 2 * bytes.len(),
        0 <= i < bytes.len() ==> hex_text(bytes)[2 * i] == hex_digit(bytes[i] as int / 16) && hex_text(bytes)[2 * i + 1]
            == hex_digit(bytes[i] as int % 16),
    decreases bytes.len(),
{
    if bytes.len() > 0 {
        let less = bytes.drop_last();
        law_hex_is_two_digits_for_each_byte(less, i);
        let (h, t) = (hex_text(less), hex_text(bytes));
        if 0 <= i < less.len() {
            assert(t[2 * i] == h[2 * i] && t[2 * i + 1] == h[2 * i + 1]);
        } else if i == less.len() {
            assert(bytes[i] == bytes.last());
        }
    }
}

// Replacing text.

/// What a replace op does. It succeeds only where the text that is read occurs exactly as often as was
/// said, byte for byte; then the path reads as the text with these occurrences exchanged, and every other
/// byte kept.
pub proof fn law_replacing_exchanges_what_was_found<'a, V: Vfs>(
    a: Transaction<'a, V>,
    b: Transaction<'a, V>,
    i: usize,
    path: String,
    find: Name,
    with: Name,
    count: usize,
) -> (r: (Seq<u8>, Seq<int>, Seq<u8>))
    requires
        replace_outcome(a, b, i, path, find, with, count, Ok::<(), Failure>(())),
        faithful(a.staging(), a.disk()),
        a.disk().steady,
    ensures
        find.len() > 0,
        reads(a, path_bytes(path), r.0),
        valid_utf8(r.0),
        found_at(r.0, find, 0, r.1),
        r.1.len() == count,
        exchanged(r.0, find, with, 0, r.1, r.2),
        reads(b, path_bytes(path), r.2),
{
    let text = choose|text: Seq<u8>| #[trigger]
        reads(a, path_bytes(path), text) && valid_utf8(text) && occurrences(text, find, 0) == count && wrote(
            a,
            b,
            path_bytes(path),
            replaced(text, find, with, 0),
            None,
            Ok::<(), Error>(()),
        );
    let at = law_occurrences_are_exact(text, find, with);
    let out = replaced(text, find, with, 0);
    law_what_is_written_reads_back(a, b, path_bytes(path), out, None, out, user_parts(path_bytes(path)));
    (text, at, out)
}

/// A replace op is refused only for what is so: if the text that is read is text and occurs as often as was
/// said, it is made, unless the filesystem fails or the path cannot be written.
pub proof fn law_replacing_is_refused_for_the_count_only<'a, V: Vfs>(
    a: Transaction<'a, V>,
    b: Transaction<'a, V>,
    i: usize,
    path: String,
    find: Name,
    with: Name,
    count: usize,
    text: Seq<u8>,
    at: Seq<int>,
    f: Failure,
)
    requires
        replace_outcome(a, b, i, path, find, with, count, Err::<(), Failure>(f)),
        find.len() > 0,
        reads(a, path_bytes(path), text),
        valid_utf8(text),
        found_at(text, find, 0, at),
        at.len() == count,
    ensures
        f.kind != FailKind::InvalidInput,
        f.kind == FailKind::Io || exists|e: Error, data: Seq<u8>| #[trigger]
            wrote(a, b, path_bytes(path), data, None, Err::<(), Error>(e)) && f.kind == kind_of(e),
{
    let other = law_occurrences_are_exact(text, find, with);
    crate::findings::law_occurrences_are_where_they_are(text, find, at, other);
    let p = path_bytes(path);
    if b == a && exists|e: Error| #[trigger] crate::changes::tells(f, Some(i), e) && crate::changes::cannot_read(a, p, e) {
        let e = choose|e: Error| #[trigger] crate::changes::tells(f, Some(i), e) && crate::changes::cannot_read(a, p, e);
        assert(e is Io);
    } else if crate::changes::turned_down(a, b, i, f.message@, f) && crate::changes::text_unfit(a, path, find, count, f.message@) {
        let t = choose|t: Seq<u8>| #[trigger]
            reads(a, p, t) && if !valid_utf8(t) {
                f.message@ == path@ + " is not UTF-8 text"@
            } else {
                occurrences(t, find, 0) != count && f.message@ == crate::changes::count_text(
                    path@,
                    occurrences(t, find, 0) as nat,
                    count as nat,
                )
            };
        assert(t == text);
    } else {
        let t = choose|t: Seq<u8>| #[trigger]
            reads(a, p, t) && valid_utf8(t) && occurrences(t, find, 0) == count && crate::changes::write_failed(
                a,
                b,
                p,
                replaced(t, find, with, 0),
                None,
                i,
                f,
            );
        let e = choose|e: Error| #[trigger]
            crate::changes::tells(f, Some(i), e) && wrote(a, b, p, replaced(t, find, with, 0), None, Err::<(), Error>(e));
        assert(wrote(a, b, p, replaced(t, find, with, 0), None, Err::<(), Error>(e)));
    }
}

// Sources.

/// A write op takes its data from the one source that is given: a text as it is, base64 as it decodes, or a
/// file as it was read. With none, or with more than one, it is malformed.
pub proof fn law_a_write_has_one_source(content: Option<String>, base64: Option<String>, file: Option<FromFile>)
    ensures
        ({
            let given: int = (if content is Some {
                1int
            } else {
                0
            }) + (if base64 is Some {
                1int
            } else {
                0
            }) + (if file is Some {
                1int
            } else {
                0
            });
            let s = source_of(content, base64, file);
            &&& given != 1 ==> s is Malformed
            &&& given == 1 && content is Some ==> s == SourceView::Data(encode_utf8(content->0@))
            &&& given == 1 && base64 is Some ==> match base64_decoded(base64->0@) {
                Ok(data) => s == SourceView::Data(data),
                Err(_) => s is Malformed,
            }
            &&& given == 1 && file is Some ==> match file->0.content {
                Ok(data) => s == SourceView::Data(data@),
                Err(_) => s is Unreadable,
            }
        }),
{
}

/// What a caller can mend is refused; what is wrong with the filesystem, or needs recovery, is another
/// matter.
pub proof fn law_kinds_of_failure(e: Error)
    ensures
        kind_of(e) != FailKind::InvalidInput,
        kind_of(e) == FailKind::Io <==> e is Io || e is RecoveryRequired || e is CommitOutcomeUnknown || e is RollbackFailed || e
            is UnsupportedFilesystem || e is UnsupportedPlatform,
{
}

// Copying a tree.

/// Only whole names are passed over: a name is, exactly if one of the list has the same length and the same
/// byte at every index.
pub proof fn law_only_whole_names_are_passed_over(exclude: Seq<String>, name: Name)
    ensures
        excluded(exclude, name) <==> exists|i: int| 0 <= i < exclude.len() && spelled_alike(encode_utf8((#[trigger] exclude[i])@), name),
{
    if excluded(exclude, name) {
        let i = choose|i: int| 0 <= i < exclude.len() && encode_utf8((#[trigger] exclude[i])@) == name;
        assert(spelled_alike(encode_utf8(exclude[i]@), name));
    }
    if exists|i: int| 0 <= i < exclude.len() && spelled_alike(encode_utf8((#[trigger] exclude[i])@), name) {
        let i = choose|i: int| 0 <= i < exclude.len() && spelled_alike(encode_utf8((#[trigger] exclude[i])@), name);
        assert(encode_utf8(exclude[i]@) =~= name);
    }
}

/// The names have the same length and the same byte at every index.
pub open spec fn spelled_alike(x: Name, y: Name) -> bool {
    x.len() == y.len() && forall|i: int| 0 <= i < x.len() ==> #[trigger] x[i] == y[i]
}

/// The name is one of the list, in full.
pub open spec fn listed_whole(exclude: Seq<String>, name: Name) -> bool {
    exists|i: int| 0 <= i < exclude.len() && spelled_alike(encode_utf8((#[trigger] exclude[i])@), name)
}

/// Every entry is accounted for. One whose name is not on the list in full is staged or reported as
/// skipped: a directory is seen at its path, and will be read; a file reads as the data of the source, with
/// its bits; anything else is skipped. One that is on the list changes nothing.
pub proof fn law_every_entry_is_accounted_for<'a, V: Vfs>(
    a: Transaction<'a, V>,
    b: Transaction<'a, V>,
    v: WalkView,
    w: WalkView,
    rel: Name,
    entry: SourceEntry,
    exclude: Seq<String>,
)
    requires
        entry_outcome(a, b, v, w, rel, entry, exclude, Ok::<(), Failure>(())),
        faithful(a.staging(), a.disk()),
        a.disk().steady,
        a.staging().next_dir + user_parts(child_path(rel, entry.name@)).len() <= u64::MAX,
    ensures
        ({
            let path = child_path(rel, entry.name@);
            if listed_whole(exclude, entry.name@) {
                b == a && w == v
            } else {
                match entry.kind {
                    SourceKind::Dir => {
                        &&& sees_dir(b.staging(), b.disk(), user_parts(path))
                        &&& w.stack == v.stack.push(path)
                        &&& w.done.len() == v.done.len() + 1
                        &&& w.skipped == v.skipped
                    },
                    SourceKind::File { data, mode } => {
                        &&& reads(b, path, data@)
                        &&& w.stack == v.stack
                        &&& w.done.len() == v.done.len() + 1
                        &&& w.skipped == v.skipped
                        &&& mode matches Some(m) ==> (b.sees(user_parts(path)) matches Ok(q) && (b.disk().file_at(q) matches Some(id)
                            && b.disk().objects[id]->File_mode == m & 0o7777))
                    },
                    SourceKind::Other => b == a && w.stack == v.stack && w.done == v.done && w.skipped.len() == v.skipped.len() + 1,
                }
            }
        }),
{
    let path = child_path(rel, entry.name@);
    law_only_whole_names_are_passed_over(exclude, entry.name@);
    if !excluded(exclude, entry.name@) {
        match entry.kind {
            SourceKind::Dir => {
                let p = user_parts(path);
                crate::path::law_accepted_paths_are_confined(path);
                crate::sight::law_all_directories_are_made(a.staging(), a.disk(), p, p.len() as int);
                assert(p.take(p.len() as int) =~= p);
            },
            SourceKind::File { data, mode } => {
                let bits = match mode {
                    Some(m) => Some(m & 0o7777),
                    None => None,
                };
                law_what_is_written_reads_back(a, b, path, data@, bits, data@, user_parts(path));
            },
            _ => {},
        }
    }
}

/// How many of the first `n` entries, in the order given, are not on the list in full.
pub open spec fn wanted(entries: Seq<SourceEntry>, order: Seq<usize>, exclude: Seq<String>, n: int) -> nat
    decreases n,
{
    if n <= 0 {
        0
    } else {
        wanted(entries, order, exclude, n - 1) + (if listed_whole(exclude, entries[order[n - 1] as int].name@) {
            0nat
        } else {
            1nat
        })
    }
}

/// Nothing is left out silently: for every entry of a directory that is not on the list in full there is
/// one report, that it was copied or that it was skipped.
pub proof fn law_nothing_is_left_out<'a, V: Vfs>(
    a: Transaction<'a, V>,
    b: Transaction<'a, V>,
    v: WalkView,
    w: WalkView,
    rel: Name,
    entries: Seq<SourceEntry>,
    exclude: Seq<String>,
) -> (order: Seq<usize>)
    requires
        sync_outcome(a, b, v, w, rel, entries, exclude, Ok::<(), Failure>(())),
    ensures
        complete(order, entries.len() as int),
        w.done.len() + w.skipped.len() == v.done.len() + v.skipped.len() + wanted(entries, order, exclude, entries.len() as int),
{
    let (trace, walks, order, n) = choose|trace: Seq<Transaction<'a, V>>, walks: Seq<WalkView>, order: Seq<usize>, n: int| #[trigger]
        synced_through(trace, walks, rel, entries, order, exclude, n) && complete(order, entries.len() as int)
            && crate::changes::by_name(entries, order) && trace[0] == a && walks[0] == v && n == entries.len() && trace.last() == b
            && walks.last() == w;
    lemma_counted(trace, walks, rel, entries, order, exclude, n, n);
    order
}

proof fn lemma_counted<'a, V: Vfs>(
    trace: Seq<Transaction<'a, V>>,
    walks: Seq<WalkView>,
    rel: Name,
    entries: Seq<SourceEntry>,
    order: Seq<usize>,
    exclude: Seq<String>,
    all: int,
    n: int,
)
    requires
        synced_through(trace, walks, rel, entries, order, exclude, all),
        0 <= n <= all,
    ensures
        walks[n].done.len() + walks[n].skipped.len() == walks[0].done.len() + walks[0].skipped.len() + wanted(
            entries,
            order,
            exclude,
            n,
        ),
    decreases n,
{
    if n > 0 {
        lemma_counted(trace, walks, rel, entries, order, exclude, all, n - 1);
        let e = entries[order[n - 1] as int];
        law_only_whole_names_are_passed_over(exclude, e.name@);
        assert(entry_outcome(trace[n - 1], trace[n], walks[n - 1], walks[n], rel, e, exclude, Ok::<(), Failure>(())));
    }
}

/// Hex is read as it is written, whatever the case of letters: where a text without a plus sign is read
/// as bytes it spells them, and every text that spells bytes is read as them.
pub proof fn law_hex_is_read_as_spelled(t: Name, b: Seq<u8>)
    ensures
        unhex_text(t) == Some(b) && !t.contains(43u8) ==> spells(t, b),
        spells(t, b) ==> unhex_text(t) == Some(b),
    decreases t.len(),
{
    let n = t.len() as int;
    if n == 0 {
        assert(b.len() == 0 ==> b =~= Seq::<u8>::empty());
    } else if n >= 2 {
        let head = t.take(n - 2);
        let (x, y) = (t[n - 2], t[n - 1]);
        if unhex_text(t) == Some(b) && !t.contains(43u8) {
            let less = unhex_text(head)->0;
            assert(!head.contains(43u8)) by {
                if head.contains(43u8) {
                    let i = choose|i: int| 0 <= i < head.len() && head[i] == 43u8;
                    assert(t[i] == 43u8);
                }
            }
            assert(t.contains(x));
            law_hex_is_read_as_spelled(head, less);
            let v = pair_value(x, y)->0;
            assert(b == less.push(v));
            assert(v as int / 16 == digit_value(x)->0 && v as int % 16 == digit_value(y)->0);
            assert forall|i: int| 0 <= i < b.len() implies one_letter(t[2 * i], hex_digit(#[trigger] b[i] as int / 16)) && one_letter(
                t[2 * i + 1],
                hex_digit(b[i] as int % 16),
            ) by {
                if i < less.len() {
                    assert(b[i] == less[i]);
                    assert(t[2 * i] == head[2 * i] && t[2 * i + 1] == head[2 * i + 1]);
                } else {
                    assert(b[i] == v);
                }
            }
        }
        if spells(t, b) {
            let k = b.len() - 1;
            let less = b.take(k);
            assert(2 * k == n - 2);
            assert forall|i: int| 0 <= i < less.len() implies one_letter(head[2 * i], hex_digit(#[trigger] less[i] as int / 16))
                && one_letter(head[2 * i + 1], hex_digit(less[i] as int % 16)) by {
                assert(b[i] == less[i]);
                assert(t[2 * i] == head[2 * i] && t[2 * i + 1] == head[2 * i + 1]);
            }
            law_hex_is_read_as_spelled(head, less);
            let c = b[k];
            assert(one_letter(t[2 * k], hex_digit(c as int / 16)) && one_letter(t[2 * k + 1], hex_digit(c as int % 16)));
            assert(digit_value(x) == Some((c / 16) as u8) && digit_value(y) == Some((c % 16) as u8));
            assert(16 * (c / 16) + c % 16 == c);
            assert(pair_value(x, y) == Some(c));
            assert(less.push(c) =~= b);
        }
    }
}

} // verus!
