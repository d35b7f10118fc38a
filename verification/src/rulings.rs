//! What recovery decides, which names it goes by, and what stands on the disk, in plain terms.
use vstd::prelude::*;
use vstd::utf8::encode_utf8;

use crate::bytes::{begins_with, Name};
use crate::changes::mode_asked;
use crate::checksum::blake3_of;
use crate::compile::{
    attaching, compile_failed, detaching, is_covered, is_noop, is_placed, is_removed, new_home, placed_entry, plans_for, planned,
    still_there, Sources,
};
use crate::disk::{Disk, FileId, Key};
use crate::edits::{mode_in, octal, octal_value};
use crate::error::{Error, Reason};
use crate::hex::hex_text;
use crate::journal::{admissible, journal_in, sealed, unsealed, Frame, JournalView};
use crate::overlay::{blob_name, new_dir_name, origin_of, OverlayView, SlotView};
use crate::path::{private_path, PathView, RelPath};
use crate::plan::PlanView;
use crate::progress::{record_bytes, Record};
use crate::recover::{
    came_out, decided, has, is_garbage, is_transaction, journal_bytes, reports, texts, Decision, Outcome,
    RecoveryReport,
};
use crate::result::{lemma_attach_exact, lemma_detach_exact, lemma_has_home};
use crate::state::{backup_name, journal_name, Marker, TxDir};
use crate::text::{decimal, numeral};
use crate::transaction::tx_name_of;
use crate::vocabulary::law_beginning_is_byte_by_byte;

verus! {

// Names.

/// What is scratch space and what is a transaction, by the first bytes of its name: `gc-` and `probe-`, and
/// `tx-`.
pub proof fn law_what_names_say(n: Name)
    ensures
        is_garbage(n) <==> n.len() >= 3 && n[0] == 103 && n[1] == 99 && n[2] == 45 || n.len() >= 6 && n[0] == 112 && n[1] == 114 && n[2]
            == 111 && n[3] == 98 && n[4] == 101 && n[5] == 45,
        is_transaction(n) <==> n.len() >= 3 && n[0] == 116 && n[1] == 120 && n[2] == 45,
{
    let (gc, probe, tx) = (
        seq![103u8, 99u8, 45u8],
        seq![112u8, 114u8, 111u8, 98u8, 101u8, 45u8],
        seq![116u8, 120u8, 45u8],
    );
    assert(crate::state::gc_prefix_name() =~= gc);
    assert(crate::state::probe_prefix_name() =~= probe);
    assert(crate::state::tx_prefix_name() =~= tx);
    law_beginning_is_byte_by_byte(n, gc);
    law_beginning_is_byte_by_byte(n, probe);
    law_beginning_is_byte_by_byte(n, tx);
    if begins_with(n, gc) {
        assert(n[0] == gc[0] && n[1] == gc[1] && n[2] == gc[2]);
    }
    if begins_with(n, probe) {
        assert(n[0] == probe[0] && n[1] == probe[1] && n[2] == probe[2] && n[3] == probe[3] && n[4] == probe[4] && n[5] == probe[5]);
    }
    if begins_with(n, tx) {
        assert(n[0] == tx[0] && n[1] == tx[1] && n[2] == tx[2]);
    }
}

/// The value of a digit, `0` to `9` and `a` onwards.
pub open spec fn worth(c: u8) -> int {
    if c < 97 {
        c - 48
    } else {
        c - 87
    }
}

/// The number that a text of digits stands for, most significant digit first.
pub open spec fn number_of(text: Name, base: nat) -> int
    decreases text.len(),
{
    if text.len() == 0 {
        0
    } else {
        number_of(text.drop_last(), base) * base + worth(text.last())
    }
}

/// A numeral is worth its number, and does not begin with a needless zero.
pub proof fn law_numerals_are_worth_their_number(n: nat, base: nat)
    requires
        2 <= base <= 16,
    ensures
        number_of(numeral(n, base), base) == n,
        numeral(n, base).len() > 0,
        numeral(n, base).len() > 1 ==> numeral(n, base)[0] != 48,
    decreases n,
{
    let t = numeral(n, base);
    if n < base {
        assert(t.drop_last() =~= Seq::<u8>::empty());
        assert(number_of(Seq::<u8>::empty(), base) == 0);
        assert(0 * base == 0) by (nonlinear_arith);
    } else {
        assert(n / base < n) by (nonlinear_arith)
            requires
                n >= base,
                base >= 2,
        ;
        law_numerals_are_worth_their_number(n / base, base);
        let head = numeral(n / base, base);
        assert(t.drop_last() =~= head);
        assert(worth(t.last()) == n % base);
        assert((n / base) * base + n % base == n) by (nonlinear_arith)
            requires
                base >= 2,
        ;
        assert(t[0] == head[0]);
        if head.len() == 1 {
            assert(n / base > 0) by (nonlinear_arith)
                requires
                    n >= base,
                    base >= 2,
            ;
            if head[0] == 48 {
                assert(head.drop_last() =~= Seq::<u8>::empty());
                assert(number_of(Seq::<u8>::empty(), base) == 0);
                assert(0 * base == 0) by (nonlinear_arith);
                assert(number_of(head, base) == 0);
            }
        }
    }
}

/// Transactions have names of their own: another moment, another process or another count gives another
/// name; and they are named as transactions.
pub proof fn law_transactions_have_names_of_their_own(n1: u128, p1: u32, c1: u64, n2: u128, p2: u32, c2: u64)
    ensures
        is_transaction(tx_name_of(n1, p1, c1)),
        tx_name_of(n1, p1, c1) == tx_name_of(n2, p2, c2) ==> n1 == n2 && p1 == p2 && c1 == c2,
{
    law_what_names_say(tx_name_of(n1, p1, c1));
    let (a1, b1, d1) = (numeral(n1 as nat, 16), numeral(p1 as nat, 16), numeral(c1 as nat, 16));
    let (a2, b2, d2) = (numeral(n2 as nat, 16), numeral(p2 as nat, 16), numeral(c2 as nat, 16));
    let (x, y) = (tx_name_of(n1, p1, c1), tx_name_of(n2, p2, c2));
    let pre = seq![116u8, 120u8, 45u8];
    assert(x =~= pre + (a1 + seq![45u8] + (b1 + seq![45u8] + d1)));
    assert(y =~= pre + (a2 + seq![45u8] + (b2 + seq![45u8] + d2)));
    assert(x[0] == 116 && x[1] == 120 && x[2] == 45);
    if x == y {
        assert(x.skip(3) =~= a1 + seq![45u8] + (b1 + seq![45u8] + d1));
        assert(y.skip(3) =~= a2 + seq![45u8] + (b2 + seq![45u8] + d2));
        lemma_dashed(n1 as nat, b1 + seq![45u8] + d1, n2 as nat, b2 + seq![45u8] + d2);
        lemma_dashed(p1 as nat, d1, p2 as nat, d2);
        law_numerals_are_worth_their_number(c1 as nat, 16);
        law_numerals_are_worth_their_number(c2 as nat, 16);
    }
}

/// A numeral before a dash is known by the dash.
proof fn lemma_dashed(m: nat, x: Name, n: nat, y: Name)
    requires
        numeral(m, 16) + seq![45u8] + x == numeral(n, 16) + seq![45u8] + y,
    ensures
        m == n,
        x == y,
{
    let (a, b) = (numeral(m, 16), numeral(n, 16));
    let (s, t) = (a + seq![45u8] + x, b + seq![45u8] + y);
    crate::text::lemma_numeral_digits(m, 16);
    crate::text::lemma_numeral_digits(n, 16);
    if a.len() < b.len() {
        assert(s[a.len() as int] == 45);
        assert(t[a.len() as int] == b[a.len() as int]);
    } else if b.len() < a.len() {
        assert(t[b.len() as int] == 45);
        assert(s[b.len() as int] == a[b.len() as int]);
    }
    assert(a =~= s.take(a.len() as int));
    assert(b =~= t.take(b.len() as int));
    assert(x =~= s.skip(a.len() as int + 1));
    assert(y =~= t.skip(b.len() as int + 1));
    crate::text::lemma_numeral_injective(m, n, 16);
}

/// What is staged has names of its own: another number gives another name, and files and directories have
/// different ones.
pub proof fn law_staged_names_differ(m: u64, n: u64)
    ensures
        blob_name(m) == blob_name(n) <==> m == n,
        new_dir_name(m) == new_dir_name(n) <==> m == n,
        blob_name(m) != new_dir_name(n),
{
    assert(blob_name(m)[0] == 98 && new_dir_name(n)[0] == 100);
    law_numerals_are_worth_their_number(m as nat, 10);
    law_numerals_are_worth_their_number(n as nat, 10);
    assert(blob_name(m).skip(1) =~= decimal(m as nat) && blob_name(n).skip(1) =~= decimal(n as nat));
    assert(new_dir_name(m).skip(1) =~= decimal(m as nat) && new_dir_name(n).skip(1) =~= decimal(n as nat));
}

/// A transaction's directory that is put away is scratch space in the private directory, and no other
/// transaction's.
pub proof fn law_what_is_put_away_is_scratch_space(x: TxDir, y: TxDir)
    ensures
        x.gc_at().len() == 2,
        x.gc_at()[0] == seq![46u8, 102u8, 115u8, 116u8, 120u8],
        is_garbage(x.gc_at()[1]),
        x.gc_at() == y.gc_at() ==> x.id() == y.id(),
{
    let (a, b) = (x.gc_at()[1], y.gc_at()[1]);
    law_what_names_say(a);
    assert(a[0] == 103 && a[1] == 99 && a[2] == 45);
    assert(a.skip(3) =~= x.id() && b.skip(3) =~= y.id());
}

/// Permission bits are taken as they are written: the digits' value, all of it, and nothing for what is no
/// mode.
pub proof fn law_modes_are_taken_as_written(m: String)
    ensures
        mode_asked(None) == Ok::<Option<u32>, ()>(None),
        octal(encode_utf8(m@)) && octal_value(encode_utf8(m@)) <= 4095 ==> mode_asked(Some(m)) == Ok::<Option<u32>, ()>(
            Some(octal_value(encode_utf8(m@)) as u32),
        ),
        mode_in(encode_utf8(m@)) is None ==> mode_asked(Some(m)) is Err,
{
    let b = encode_utf8(m@);
    if octal(b) {
        crate::findings::law_octal_digits_are_worth_three_bits(b, 48);
        if octal_value(b) <= 4095 {
            let v = octal_value(b) as u32;
            assert(v <= 4095 ==> v & 4095 == v) by (bit_vector);
        }
    }
}

// Decisions.

/// Something is at the name in the transaction's directory.
pub open spec fn has_entry(d: Disk, tx: TxDir, name: Name) -> bool {
    d.resolve(tx.at().push(name)) is Some
}

/// What recovery decides, from what is in the transaction's directory. Where the commit is marked it only
/// cleans up, unless a rollback is marked too, which it refuses; where the rollback is marked as done it
/// cleans up; without a journal it throws away what never moved anything, and refuses what may have; and
/// with a journal that is whole and belongs here it rolls back, else it refuses.
pub proof fn law_what_recovery_decides(d: Disk, tx: TxDir, r: Decision)
    requires
        decided(d, tx, r),
    ensures
        ({
            let committed = has_entry(d, tx, Marker::Committed.file());
            let rolling = has_entry(d, tx, Marker::RollingBack.file());
            let rolled = has_entry(d, tx, Marker::RolledBack.file());
            let journal = has_entry(d, tx, journal_name());
            let used = d.dir_at(tx.at().push(backup_name())) matches Some(dir) && exists|k: Key| #[trigger]
                d.names.contains_key(k) && k.dir == dir;
            &&& r == Decision::Committed <==> committed && !rolling && !rolled
            &&& committed && (rolling || rolled) ==> r == Decision::Required(Reason::CommittedAndRolledBack)
            &&& r == Decision::RolledBack <==> !committed && rolled
            &&& r == Decision::Discard <==> !committed && !rolled && !rolling && !journal && !used
            &&& !committed && !rolled && !journal && (rolling || used) ==> r == Decision::Required(Reason::NoJournal)
            &&& r matches Decision::RollBack(j) ==> !committed && !rolled && journal && journal_in(journal_bytes(d, tx)) == Some(j@)
                && admissible(j@, tx.name@, d.shows(d.root))
            &&& !committed && !rolled && journal && (journal_in(journal_bytes(d, tx)) matches Some(j) && admissible(
                j,
                tx.name@,
                d.shows(d.root),
            )) ==> r is RollBack
        }),
{
    assert(has(d, tx, Marker::Committed) == has_entry(d, tx, Marker::Committed.file()));
    assert(has(d, tx, Marker::RollingBack) == has_entry(d, tx, Marker::RollingBack.file()));
    assert(has(d, tx, Marker::RolledBack) == has_entry(d, tx, Marker::RolledBack.file()));
}

/// Which journals recovery acts on: of the known format, of this transaction and this root, with a valid
/// plan, and with at least two locations for each token, all of them in the tree or directly in this
/// transaction's own two directories.
pub proof fn law_which_journals_are_acted_on(j: JournalView, tx: Seq<char>, root: FileId)
    ensures
        admissible(j, tx, root) <==> {
            &&& j.format == 1
            &&& j.tx == tx
            &&& j.root == root
            &&& j.plan.valid()
            &&& forall|t: int| 0 <= t < j.plan.tokens.len() ==> (#[trigger] j.plan.tokens[t]).locs.len() >= 2
            &&& forall|t: int, i: int|
                #![trigger j.plan.tokens[t].locs[i]]
                0 <= t < j.plan.tokens.len() && 0 <= i < j.plan.tokens[t].locs.len() ==> {
                    let p = j.plan.tokens[t].locs[i].path;
                    p.len() > 0 && (private_path(p) ==> p.len() == 4 && p[0] == seq![46u8, 102u8, 115u8, 116u8, 120u8] && p[1]
                        == encode_utf8(tx) && (p[2] == seq![98u8, 97u8, 99u8, 107u8, 117u8, 112u8] || p[2] == seq![
                        115u8,
                        116u8,
                        97u8,
                        103u8,
                        101u8,
                        100u8,
                    ]))
                }
        },
{
}

/// What a record of the log looks like: `FXPR`, the kind, three zeros, the wave with its least byte first,
/// and four bytes of the checksum of all that.
pub proof fn law_what_a_record_looks_like(w: u32)
    ensures
        ({
            let (a, u) = (record_bytes(Record::ApplyDone(w)), record_bytes(Record::UndoDone(w)));
            &&& a.len() == 16 && u.len() == 16
            &&& a[0] == 70 && a[1] == 88 && a[2] == 80 && a[3] == 82
            &&& a[4] == 1 && u[4] == 2
            &&& a[5] == 0 && a[6] == 0 && a[7] == 0
            &&& a[8] + 256 * a[9] + 65536 * a[10] + 16777216 * a[11] == w
            &&& forall|i: int| 0 <= i < 12 && i != 4 ==> #[trigger] u[i] == a[i]
            &&& forall|i: int| 0 <= i < 4 ==> #[trigger] a[12 + i] == blake3_of(a.take(12))[i]
        }),
{
    let (a, u) = (record_bytes(Record::ApplyDone(w)), record_bytes(Record::UndoDone(w)));
    let head = crate::progress::record_head(Record::ApplyDone(w));
    assert(a.take(12) =~= head);
    assert(a[8] == (w % 256) as u8 && a[9] == (w / 256 % 256) as u8 && a[10] == (w / 65536 % 256) as u8 && a[11] == (w
        / 16777216) as u8);
}

/// What a journal looks like: its text, a line feed, `blake3:`, the checksum of the text in hex, and a line
/// feed.
pub proof fn law_what_a_journal_looks_like(body: Seq<u8>)
    ensures
        sealed(body) == body + seq![10u8, 98u8, 108u8, 97u8, 107u8, 101u8, 51u8, 58u8] + hex_text(blake3_of(body)) + seq![10u8],
        unsealed(sealed(body)) == Frame::Body(body),
{
    crate::journal::law_unsealing_undoes_sealing(body);
    assert(sealed(body) =~= body + seq![10u8, 98u8, 108u8, 97u8, 107u8, 101u8, 51u8, 58u8] + hex_text(blake3_of(body)) + seq![10u8]);
}

// Conflicts.

/// A commit notices what has changed. A plan is made only if what was moved elsewhere is still the very
/// object that was seen at its base path; and so is what was removed, unless it leaves with something
/// above it that has left its base path too.
pub proof fn law_a_commit_notices_what_has_changed(
    ov: OverlayView,
    a: Disk,
    d: Disk,
    tx: Name,
    blobs: Map<u64, FileId>,
    p: PlanView,
    b: PathView,
    q: PathView,
)
    requires
        plans_for(ov, a, d, tx, blobs, p),
        ov.detached.contains_key(b),
        ({
            ||| q != b && ov.placed.contains_key(q) && (ov.placed[q] matches SlotView::Present(e) && origin_of(e) == Some(b)) && !(
            ov.placed.contains_key(b) && (ov.placed[b] matches SlotView::Present(e) && origin_of(e) == Some(b)))
            ||| (forall|k: PathView| #[trigger]
                ov.placed.contains_key(k) ==> !(ov.placed[k] matches SlotView::Present(e) && origin_of(e) == Some(b))) && forall|i: int|
                0 < i < b.len() ==> !ov.detached.contains_key(#[trigger] b.take(i))
        }),
    ensures
        a.resolve(b) matches Some(id) && (if a.steady {
            id
        } else {
            a.shown[id]
        }) == ov.detached[b].id,
{
    let (s, pk, dk) = choose|s: Sources, pk: Seq<PathView>, dk: Seq<PathView>| #[trigger]
        planned(s, pk, dk, p) && s.ov == ov && s.before == a && s.after == d && s.tx == tx && s.blobs == blobs;
    assert(!is_noop(ov, a, b)) by {
        if is_noop(ov, a, b) {
            assert(ov.placed.contains_key(b));
        }
    }
    if q != b && is_placed(ov, q) && origin_of(placed_entry(ov, q)) == Some(b) {
        assert(attaching(ov, a, q));
        lemma_attach_exact(s, pk, dk, p, q);
        let j = choose|j: int| 0 <= j < s.attach.len() && s.attach[j] == q;
        lemma_has_home(ov, s.attach, b, s.attach.len() as int, j);
    } else {
        assert(!is_covered(ov, a, s.attach, b)) by {
            if is_covered(ov, a, s.attach, b) {
                let i = choose|i: int|
                    0 < i <= b.len() - 1 && is_removed(ov, a, s.attach, #[trigger] b.take(i)) && forall|j: int|
                        i < j <= b.len() - 1 ==> new_home(ov, s.attach, #[trigger] b.take(j), s.attach.len() as int) is None;
                assert(ov.detached.contains_key(b.take(i)));
            }
        }
    }
    assert(detaching(ov, a, s.attach, b));
    lemma_detach_exact(s, pk, dk, p, b);
    let k = choose|k: int| 0 <= k < s.detach.len() && s.detach[k] == b;
    assert(still_there(ov, a, s.detach[k]));
}

/// Why a commit is refused as in conflict: what left its base path is not there any more as the object
/// that was seen, or one of the transaction's own directories is not there.
pub proof fn law_why_a_commit_is_in_conflict(
    ov: OverlayView,
    pk: Seq<PathView>,
    d: Disk,
    tx: TxDir,
    blobs: Map<u64, FileId>,
    q: RelPath,
)
    requires
        compile_failed(ov, pk, d, tx, blobs, Error::Conflict(q)),
    ensures
        q@.len() == 3 && q@[0] == seq![46u8, 102u8, 115u8, 116u8, 120u8] && d.dir_at(q@) is None || ov.detached.contains_key(q@) && !(
        d.resolve(q@) matches Some(id) && (if d.steady {
            id
        } else {
            d.shown[id]
        }) == ov.detached[q@].id),
{
}

// Reports.

/// The report tells of each entry once, by what came of it: rolled back, completed, discarded, or scratch
/// space that was removed.
pub proof fn law_the_report_tells_what_came_of_each(r: RecoveryReport, names: Seq<String>, outs: Seq<Outcome>, i: int)
    requires
        reports(r, names, outs, names.len() as int),
        outs.len() == names.len(),
        0 <= i < names.len(),
    ensures
        outs[i] == Outcome::RolledBack ==> texts(r.rolled_back@).contains(names[i]@),
        outs[i] == Outcome::Completed ==> texts(r.completed@).contains(names[i]@),
        outs[i] == Outcome::Discarded ==> texts(r.discarded@).contains(names[i]@),
        r.rolled_back@.len() + r.completed@.len() + r.discarded@.len() + r.garbage_removed <= names.len(),
        (forall|k: int| 0 <= k < outs.len() ==> #[trigger] outs[k] != Outcome::Skipped && outs[k] != Outcome::Refused) ==> r.rolled_back@.len()
            + r.completed@.len() + r.discarded@.len() + r.garbage_removed == names.len(),
{
    let n = names.len() as int;
    lemma_listed(names, outs, outs[i], n, i);
    lemma_each_once(names, outs, n);
    assert(texts(r.rolled_back@).len() == r.rolled_back@.len());
    assert(texts(r.completed@).len() == r.completed@.len());
    assert(texts(r.discarded@).len() == r.discarded@.len());
}

proof fn lemma_listed(names: Seq<String>, outs: Seq<Outcome>, o: Outcome, n: int, i: int)
    requires
        0 <= i < n <= outs.len(),
        outs.len() == names.len(),
        outs[i] == o,
    ensures
        came_out(names, outs, o, n).contains(names[i]@),
    decreases n,
{
    let all = came_out(names, outs, o, n);
    if i == n - 1 {
        assert(all[all.len() - 1] == names[i]@);
    } else {
        lemma_listed(names, outs, o, n - 1, i);
        let less = came_out(names, outs, o, n - 1);
        let k = choose|k: int| 0 <= k < less.len() && less[k] == names[i]@;
        assert(all[k] == less[k]);
    }
}

proof fn lemma_each_once(names: Seq<String>, outs: Seq<Outcome>, n: int)
    requires
        0 <= n <= outs.len(),
    ensures
        ({
            let total = came_out(names, outs, Outcome::RolledBack, n).len() + came_out(names, outs, Outcome::Completed, n).len()
                + came_out(names, outs, Outcome::Discarded, n).len() + came_out(names, outs, Outcome::Garbage, n).len();
            &&& total <= n
            &&& (forall|k: int| 0 <= k < n ==> #[trigger] outs[k] != Outcome::Skipped && outs[k] != Outcome::Refused) ==> total == n
        }),
    decreases n,
{
    if n > 0 {
        lemma_each_once(names, outs, n - 1);
    }
}

} // verus!
