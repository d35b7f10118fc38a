//! What the log says: it is never ahead of what has been done, so recovery finds nothing to refuse in
//! what a crash leaves of a transaction that is being applied.
use vstd::prelude::*;

use crate::apply::{step_taken, steps_taken, wave_applied, wave_settled, waves_applied, within_wave};
use crate::atomicity::{
    ats, cut_off, kin, lemma_cut_at_end, lemma_cut_while_logging, lemma_cut_within, lemma_kin_resolves, lemma_wave_forward, lemma_waves_forward, logging, scattered,
    settled, strewn_at,
};
use crate::contents::lemma_cut_data;
use crate::crash::durable_file;
use crate::disk::{Disk, FileId};
use crate::plan::{lemma_positions_in_range, PlanView, Step};
use crate::positions::{
    applied_max, log_agrees, logged_applied, pos_fits, shape_at, undone_from, undone_min, wave_done, Pos,
};
use crate::progress::{law_log_round_trip, log_bytes, record_bytes, Record};
use crate::recover::{
    cleared, lemma_synced_all, log_of, log_path, logged, parents_synced, refused, refused_for, some_synced, synced_all, wave_ends, Decision,
};
use crate::restoration::{grounded, law_recovery_finds_every_token, lemma_kin_grounded, lemma_own_place};
use crate::state::{progress_name, TxDir};
use crate::tree::lemma_same_content;
use crate::verdict::{law_open_case_is_rolled_back, open_case};
use crate::vfs::{appended_at, file_synced_at};

verus! {

/// The log says of nothing but the first `w` waves that they have been applied, and of none that it
/// has been undone.
pub open spec fn tells_only(recs: Seq<Record>, w: int) -> bool {
    forall|i: int| 0 <= i < recs.len() ==> (#[trigger] recs[i] matches Record::ApplyDone(v) && v < w)
}

/// What such a log names.
proof fn lemma_tells_only(recs: Seq<Record>, w: int, n: int)
    requires
        tells_only(recs, w),
        0 <= n <= recs.len(),
    ensures
        undone_min(recs, n) is None,
        applied_max(recs, n) matches Some(a) ==> a < w,
    decreases n,
{
    if n > 0 {
        lemma_tells_only(recs, w, n - 1);
        assert(recs[n - 1] matches Record::ApplyDone(v) && v < w);
    }
}

/// Such a log agrees with what is observed, if so many waves are done.
proof fn lemma_agrees(p: PlanView, recs: Seq<Record>, pos: Seq<Pos>, w: int)
    requires
        tells_only(recs, w),
        0 <= w <= p.waves.len(),
        shape_at(p, pos, w),
    ensures
        log_agrees(p, recs, pos),
{
    lemma_tells_only(recs, w, recs.len() as int);
    assert forall|v: int| 0 <= v < p.waves.len() && logged_applied(p, recs, v) implies #[trigger] wave_done(p, pos, v) by {}
    assert(undone_from(p, recs) == p.waves.len());
}

/// The records of the first `w` waves.
pub open spec fn applied_records(w: int) -> Seq<Record> {
    Seq::new(w as nat, |i: int| Record::ApplyDone(i as u32))
}

/// A log with one more record.
proof fn lemma_log_grows(recs: Seq<Record>, r: Record)
    ensures
        log_bytes(recs.push(r)) == log_bytes(recs) + record_bytes(r),
    decreases recs.len(),
{
    let more = recs.push(r);
    if recs.len() == 0 {
        assert(more.drop_first() =~= Seq::<Record>::empty());
        assert(log_bytes(Seq::<Record>::empty()) =~= Seq::<u8>::empty());
        assert(recs =~= Seq::<Record>::empty());
        assert(log_bytes(more) =~= record_bytes(r));
        assert(log_bytes(recs) + record_bytes(r) =~= record_bytes(r));
    } else {
        assert(more.drop_first() =~= recs.drop_first().push(r));
        lemma_log_grows(recs.drop_first(), r);
        assert(log_bytes(more) =~= log_bytes(recs) + record_bytes(r));
    }
}

/// The contents of files, and how durable they are, are the same.
pub open spec fn same_files(a: Disk, b: Disk) -> bool {
    a.objects == b.objects && a.saved == b.saved && a.dirty == b.dirty
}

/// Taking steps leaves the contents of files alone.
proof fn lemma_steps_keep_files(a: Disk, b: Disk, p: PlanView, wave: Seq<Step>, n: int)
    requires
        steps_taken(a, b, p, wave, n),
    ensures
        same_files(a, b),
    decreases n,
{
    if n > 0 {
        let m = choose|m: Disk| steps_taken(a, m, p, wave, n - 1) && #[trigger] step_taken(m, b, p, wave[n - 1]);
        lemma_steps_keep_files(a, m, p, wave, n - 1);
    }
}

/// So does a wave that has been taken and made durable.
proof fn lemma_wave_keeps_files(a: Disk, b: Disk, p: PlanView, w: int)
    requires
        wave_settled(a, b, p, w),
    ensures
        same_files(a, b),
{
    let m = choose|m: Disk| #[trigger]
        steps_taken(a, m, p, p.waves[w], p.waves[w].len() as int) && parents_synced(m, b, wave_ends(p, p.waves[w]));
    lemma_steps_keep_files(a, m, p, p.waves[w], p.waves[w].len() as int);
    let dirs = choose|dirs: Seq<FileId>|
        b == #[trigger] synced_all(m, dirs) && forall|l: crate::plan::LocView|
            wave_ends(p, p.waves[w]).contains(l) ==> #[trigger] crate::recover::parent_covered(m, l, dirs);
    lemma_synced_all(m, dirs);
}

/// The log of `tx` is the file `id`, durable, and tells of the first `w` waves.
pub open spec fn log_right(d: Disk, tx: TxDir, id: FileId, w: int) -> bool {
    d.file_at(log_path(tx)) == Some(id) && durable_file(d, id) && d.objects[id]->data == log_bytes(applied_records(w))
}

/// A record is written behind the others.
proof fn lemma_record_written(s: Disk, d: Disk, tx: TxDir, r: Record, id: FileId, recs: Seq<Record>)
    requires
        s.file_at(log_path(tx)) == Some(id),
        s.objects[id]->data == log_bytes(recs),
        logged(s, d, tx, r),
    ensures
        d.file_at(log_path(tx)) == Some(id),
        durable_file(d, id),
        d.objects[id]->data == log_bytes(recs.push(r)),
{
    let path = tx.at().push(progress_name());
    let mid = choose|mid: Disk| #[trigger] appended_at(s, mid, path, record_bytes(r)) && file_synced_at(mid, d, path);
    crate::tree::lemma_append_names(s, mid, path, record_bytes(r));
    assert(mid.resolve(path) == s.resolve(path));
    lemma_same_content(mid, d);
    assert(d.resolve(path) == mid.resolve(path));
    lemma_log_grows(recs, r);
}

/// Applying one more wave leaves the log where it is, as it is.
#[verifier::spinoff_prover]
#[verifier::rlimit(60)]
proof fn lemma_log_in_place(d0: Disk, m: Disk, s: Disk, tx: TxDir, p: PlanView, w: int, scratch: Set<FileId>)
    requires
        grounded(d0, p, tx),
        settled(d0, p, scratch),
        0 <= w < p.waves.len(),
        waves_applied(d0, m, tx, p, w),
        wave_settled(m, s, p, w),
    ensures
        s.file_at(log_path(tx)) == d0.file_at(log_path(tx)),
        same_files(m, s),
{
    lemma_waves_forward(d0, m, tx, p, w, scratch);
    lemma_wave_forward(d0, m, s, tx, p, w, scratch);
    lemma_wave_keeps_files(m, s, p, w);
    lemma_fits(p, w + 1);
    lemma_own_place(d0, s, p, tx, ats(p.positions(w + 1)), progress_name());
}

/// After the first `w` waves the log tells of them.
#[verifier::spinoff_prover]
#[verifier::rlimit(100)]
proof fn lemma_log_right(d0: Disk, d: Disk, tx: TxDir, p: PlanView, w: int, id: FileId, scratch: Set<FileId>)
    requires
        grounded(d0, p, tx),
        settled(d0, p, scratch),
        log_right(d0, tx, id, 0),
        0 <= w <= p.waves.len(),
        waves_applied(d0, d, tx, p, w),
    ensures
        log_right(d, tx, id, w),
    decreases w,
{
    if w > 0 {
        let m = choose|m: Disk| waves_applied(d0, m, tx, p, w - 1) && #[trigger] wave_applied(m, d, tx, p, w - 1);
        lemma_log_right(d0, m, tx, p, w - 1, id, scratch);
        let r = Record::ApplyDone((w - 1) as u32);
        let s = choose|s: Disk| #[trigger] wave_settled(m, s, p, w - 1) && logged(s, d, tx, r);
        lemma_log_in_place(d0, m, s, tx, p, w - 1, scratch);
        lemma_record_written(s, d, tx, r, id, applied_records(w - 1));
        assert(applied_records(w - 1).push(r) =~= applied_records(w));
    } else {
        assert(applied_records(0) =~= applied_records(w));
    }
}

/// The positions after whole waves are among the tokens' locations.
proof fn lemma_fits(p: PlanView, w: int)
    requires
        p.valid(),
        crate::atomicity::countable(p),
        0 <= w <= p.waves.len(),
    ensures
        crate::positions::positions_fit(p, ats(p.positions(w))),
{
    assert(p.has_locations());
    lemma_positions_in_range(p, w);
    let c = ats(p.positions(w));
    assert forall|t: int| 0 <= t < c.len() implies pos_fits(p, t, #[trigger] c[t]) by {
        assert(0 <= p.positions(w)[t] < p.tokens[t].locs.len());
        assert(p.tokens[t].locs.len() <= usize::MAX);
    }
}

/// A durable log is found after a crash as it was.
proof fn lemma_log_survives(d0: Disk, d: Disk, e: Disk, tx: TxDir, p: PlanView, id: FileId, n: int, w: int, scratch: Set<FileId>)
    requires
        grounded(d0, p, tx),
        d0.file_at(log_path(tx)) == Some(id),
        durable_file(d, id),
        d.objects[id]->data == log_bytes(applied_records(n)),
        cut_off(d, e),
        strewn_at(d0, e, p, scratch, w),
        crate::turns::outlying(p, scratch),
        crate::turns::secluded(d0, scratch),
        0 <= n,
    ensures
        tells_only(log_of(e, tx), n),
{
    lemma_cut_data(d, e, id);
    let (base, pos) = choose|base: Disk, pos: Seq<Pos>| #[trigger]
        scattered(base, e, p, pos) && kin(d0, base, scratch) && shape_at(p, pos, w);
    lemma_kin_grounded(d0, base, p, tx, scratch);
    lemma_own_place(base, e, p, tx, pos, progress_name());
    lemma_kin_resolves(d0, base, scratch, tx.at().push(progress_name()));
    crate::tree::lemma_kind_dir(d0.objects[id], base.objects[id]);
    assert(e.resolve(log_path(tx)) == Some(id));
    assert(e.file_at(log_path(tx)) == Some(id));
    law_log_round_trip(applied_records(n));
    assert(log_of(e, tx) == applied_records(n));
}

/// Where the tokens are after a crash is clear, if the log tells of no more waves than are done.
proof fn lemma_clear(d0: Disk, e: Disk, tx: TxDir, p: PlanView, n: int, w: int, scratch: Set<FileId>)
    requires
        grounded(d0, p, tx),
        settled(d0, p, scratch),
        strewn_at(d0, e, p, scratch, w),
        tells_only(log_of(e, tx), n),
        n <= w,
        0 <= w <= p.waves.len(),
    ensures
        exists|pos: Seq<Pos>| #[trigger] cleared(e, tx, p, pos),
{
    let (base, pos) = choose|base: Disk, pos: Seq<Pos>| #[trigger]
        scattered(base, e, p, pos) && kin(d0, base, scratch) && shape_at(p, pos, w);
    lemma_kin_grounded(d0, base, p, tx, scratch);
    law_recovery_finds_every_token(base, e, p, tx, pos);
    assert(tells_only(log_of(e, tx), w)) by {
        assert forall|i: int| 0 <= i < log_of(e, tx).len() implies (#[trigger] log_of(e, tx)[i] matches Record::ApplyDone(v) && v
            < w) by {
            assert(log_of(e, tx)[i] matches Record::ApplyDone(v) && v < n);
        }
    }
    lemma_agrees(p, log_of(e, tx), pos, w);
    assert(cleared(e, tx, p, pos));
}

/// Nothing to refuse. Wherever applying a plan is cut off, recovery finds every token in the shape that
/// a crash can leave and in accord with the log. Only where the crash fell into the writing of a record
/// is something asked of what it left: that the bytes do not read as a record that nobody wrote.
pub proof fn law_interrupted_apply_is_clear(d0: Disk, a: Disk, d: Disk, e: Disk, tx: TxDir, p: PlanView, w: int, id: FileId, scratch: Set<FileId>)
    requires
        grounded(d0, p, tx),
        settled(d0, p, scratch),
        log_right(d0, tx, id, 0),
        0 <= w <= p.waves.len(),
        waves_applied(d0, a, tx, p, w),
        if w < p.waves.len() {
            within_wave(a, d, tx, p, w)
        } else {
            d == a
        },
        cut_off(d, e),
        w < p.waves.len() && logging(a, d, tx, p, w) ==> tells_only(log_of(e, tx), w + 1),
    ensures
        exists|pos: Seq<Pos>| #[trigger] cleared(e, tx, p, pos),
{
    lemma_log_right(d0, a, tx, p, w, id, scratch);
    if w == p.waves.len() {
        lemma_cut_at_end(d0, d, e, tx, p, scratch);
        lemma_log_survives(d0, d, e, tx, p, id, w, w, scratch);
        lemma_clear(d0, e, tx, p, w, w, scratch);
    } else {
        lemma_cut_within(d0, a, d, e, tx, p, w, scratch);
        let wave = p.waves[w];
        if exists|n: int| 0 <= n <= wave.len() && #[trigger] steps_taken(a, d, p, wave, n) {
            let n = choose|n: int| 0 <= n <= wave.len() && #[trigger] steps_taken(a, d, p, wave, n);
            lemma_steps_keep_files(a, d, p, wave, n);
        } else if exists|m: Disk| #[trigger] steps_taken(a, m, p, wave, wave.len() as int) && some_synced(m, d) {
            let m = choose|m: Disk| #[trigger] steps_taken(a, m, p, wave, wave.len() as int) && some_synced(m, d);
            let dirs = choose|dirs: Seq<FileId>| d == #[trigger] synced_all(m, dirs);
            lemma_steps_keep_files(a, m, p, wave, wave.len() as int);
            lemma_synced_all(m, dirs);
        }
        if same_files(a, d) {
            if strewn_at(d0, e, p, scratch, w) {
                lemma_log_survives(d0, d, e, tx, p, id, w, w, scratch);
                lemma_clear(d0, e, tx, p, w, w, scratch);
            } else {
                lemma_log_survives(d0, d, e, tx, p, id, w, w + 1, scratch);
                lemma_clear(d0, e, tx, p, w, w + 1, scratch);
            }
        } else {
            assert(logging(a, d, tx, p, w));
            lemma_cut_while_logging(d0, a, d, e, tx, p, w, scratch);
            lemma_clear(d0, e, tx, p, w + 1, w + 1, scratch);
        }
    }
}

/// An open case in which the tokens are clearly where they are is not refused.
pub proof fn law_a_clear_case_is_not_refused(e: Disk, tx: TxDir, j: crate::journal::JournalView)
    requires
        open_case(e, tx, j),
        exists|pos: Seq<Pos>| #[trigger] cleared(e, tx, j.plan, pos),
    ensures
        !refused(e, tx),
{
    if refused(e, tx) {
        let reason = choose|reason: crate::error::Reason| #[trigger] refused_for(e, tx, reason);
        if crate::recover::decided(e, tx, Decision::Required(reason)) {
            law_open_case_is_rolled_back(e, tx, j, Decision::Required(reason));
        } else {
            let found = choose|found: Box<crate::journal::Journal>| #[trigger]
                crate::recover::decided(e, tx, Decision::RollBack(found)) && forall|pos: Seq<Pos>|
                    !cleared(e, tx, found@.plan, pos);
            law_open_case_is_rolled_back(e, tx, j, Decision::RollBack(found));
        }
    }
}

} // verus!
