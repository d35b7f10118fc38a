//! What becomes of content: a file whose content was durable before a transaction has the same
//! content after it, whether the transaction was applied or rolled back and however often that
//! was interrupted.
use vstd::prelude::*;

use crate::apply::{applying, steps_taken, stopped_in, wave_applied, wave_settled, waves_applied, within_wave};
use crate::atomicity::{
    ats, cut_off, forward, kin, law_interrupted_tokens_are_on_their_way, lemma_steps_chain, lemma_wave_forward,
    lemma_waves_forward, scattered, settled,
};
use crate::crash::{durable_file, keeps_content, lost_with};
use crate::disk::{Disk, Fate, FileId, Key};
use crate::durability::consistent;
use crate::path::{private_path, PathView};
use crate::plan::{lemma_positions_in_range, LocView, PlanView};
use crate::positions::{lemma_undo_waves, pos_fits, positions_fit, undo_waves, Pos};
use crate::progress::Record;
use crate::recover::{
    all_locations, begun, cleared, going, halted_in, home, lemma_marked_adds, lemma_synced_all, log_path, logged,
    only_log_changed, only_synced, parents_synced, rolled_back, same_data, some_synced, steps_undone, synced_all,
    undoing, wave_ends, wave_reverted, wave_undone, waves_undone, within_undo,
};
use crate::restoration::{grounded, lemma_home_fits, lemma_own_place, lemma_resolved_linked, lemma_still_linked};
use crate::retreat::{
    backward, brought_back, law_rollback_restores_the_tree, lemma_back_chain, lemma_poised, lemma_wave_back,
    lemma_waves_back, poised, recoverable,
};
use crate::state::{marked, progress_name, Marker, TxDir};
use crate::tree::{linked, same_tree};
use crate::turns::lemma_chain;

verus! {

/// Every object but the log is the same in both states, and as durable.
pub open spec fn same_but(a: Disk, b: Disk, log: FileId) -> bool {
    forall|id: FileId| id != log ==> #[trigger] same_data(a, b, id)
}

proof fn lemma_same_but(a: Disk, b: Disk, c: Disk, log: FileId)
    requires
        same_but(a, b, log),
        same_but(b, c, log),
    ensures
        same_but(a, c, log),
{
    assert forall|id: FileId| id != log implies #[trigger] same_data(a, c, id) by {
        assert(same_data(a, b, id) && same_data(b, c, id));
    }
}

/// Writing to the log changes no other content.
proof fn lemma_log_only(a: Disk, b: Disk, tx: TxDir, log: FileId)
    requires
        only_log_changed(a, b, log_path(tx)),
        a.file_at(log_path(tx)) == Some(log),
    ensures
        same_but(a, b, log),
{
}

/// A wave, applied, changes no content.
proof fn lemma_wave_data(a: Disk, b: Disk, p: PlanView, w: int, log: FileId)
    requires
        a.well_formed(),
        a.steady,
        consistent(a),
        wave_settled(a, b, p, w),
    ensures
        same_but(a, b, log),
{
    let wave = p.waves[w];
    let n = wave.len() as int;
    let m = choose|m: Disk| #[trigger] steps_taken(a, m, p, wave, n) && parents_synced(m, b, wave_ends(p, wave));
    let dirs = choose|dirs: Seq<FileId>|
        b == #[trigger] synced_all(m, dirs) && forall|l: LocView| #[trigger]
            wave_ends(p, wave).contains(l) ==> crate::recover::parent_covered(m, l, dirs);
    let disks = lemma_steps_chain(a, m, p, wave, n);
    lemma_chain(disks, p, forward(wave.take(n)), n);
    lemma_synced_all(m, dirs);
}

/// A wave, applied and logged, changes no content but that of the log.
proof fn lemma_wave_applied_data(d0: Disk, m: Disk, d: Disk, tx: TxDir, p: PlanView, w: int, log: FileId, scratch: Set<FileId>)
    requires
        grounded(d0, p, tx),
        settled(d0, p, scratch),
        d0.file_at(log_path(tx)) == Some(log),
        0 <= w < p.waves.len(),
        waves_applied(d0, m, tx, p, w),
        wave_applied(m, d, tx, p, w),
    ensures
        same_but(m, d, log),
{
    lemma_waves_forward(d0, m, tx, p, w, scratch);
    let s = choose|s: Disk| #[trigger] wave_settled(m, s, p, w) && logged(s, d, tx, Record::ApplyDone(w as u32));
    lemma_wave_data(m, s, p, w, log);
    lemma_wave_forward(d0, m, s, tx, p, w, scratch);
    lemma_ats_fit(p, w + 1);
    lemma_own_place(d0, s, p, tx, ats(p.positions(w + 1)), progress_name());
    crate::atomicity::lemma_logged(s, d, tx, Record::ApplyDone(w as u32));
    lemma_log_only(s, d, tx, log);
    lemma_same_but(m, s, d, log);
}

/// Applied waves change no content but that of the log.
pub proof fn lemma_waves_data(d0: Disk, d: Disk, tx: TxDir, p: PlanView, w: int, log: FileId, scratch: Set<FileId>)
    requires
        grounded(d0, p, tx),
        settled(d0, p, scratch),
        d0.file_at(log_path(tx)) == Some(log),
        0 <= w <= p.waves.len(),
        waves_applied(d0, d, tx, p, w),
    ensures
        same_but(d0, d, log),
    decreases w,
{
    if w > 0 {
        let m = choose|m: Disk| waves_applied(d0, m, tx, p, w - 1) && #[trigger] wave_applied(m, d, tx, p, w - 1);
        lemma_waves_data(d0, m, tx, p, w - 1, log, scratch);
        lemma_wave_applied_data(d0, m, d, tx, p, w - 1, log, scratch);
        lemma_same_but(d0, m, d, log);
    }
}

pub proof fn lemma_ats_fit(p: PlanView, w: int)
    requires
        p.valid(),
        crate::atomicity::countable(p),
        0 <= w <= p.waves.len(),
    ensures
        positions_fit(p, ats(p.positions(w))),
{
    assert(p.has_locations());
    lemma_positions_in_range(p, w);
    assert forall|t: int| 0 <= t < p.tokens.len() implies pos_fits(p, t, #[trigger] ats(p.positions(w))[t]) by {
        assert(0 <= p.positions(w)[t] < p.tokens[t].locs.len());
        assert(p.tokens[t].locs.len() <= usize::MAX);
    }
}

/// Wherever applying is, it has changed no content but that of the log.
pub proof fn lemma_applying_data(d0: Disk, d: Disk, tx: TxDir, p: PlanView, log: FileId, scratch: Set<FileId>)
    requires
        grounded(d0, p, tx),
        settled(d0, p, scratch),
        d0.file_at(log_path(tx)) == Some(log),
        applying(d0, d, tx, p) || waves_applied(d0, d, tx, p, p.waves.len() as int),
    ensures
        same_but(d0, d, log),
{
    if waves_applied(d0, d, tx, p, p.waves.len() as int) {
        lemma_waves_data(d0, d, tx, p, p.waves.len() as int, log, scratch);
    } else {
        let w = choose|w: int| 0 <= w < p.waves.len() && #[trigger] stopped_in(d0, d, tx, p, w);
        let a = choose|a: Disk| #[trigger] waves_applied(d0, a, tx, p, w) && within_wave(a, d, tx, p, w);
        lemma_waves_data(d0, a, tx, p, w, log, scratch);
        lemma_waves_forward(d0, a, tx, p, w, scratch);
        let wave = p.waves[w];
        if exists|n: int| 0 <= n <= wave.len() && #[trigger] steps_taken(a, d, p, wave, n) {
            let n = choose|n: int| 0 <= n <= wave.len() && #[trigger] steps_taken(a, d, p, wave, n);
            let disks = lemma_steps_chain(a, d, p, wave, n);
            lemma_chain(disks, p, forward(wave.take(n)), n);
        } else if exists|m: Disk| #[trigger] steps_taken(a, m, p, wave, wave.len() as int) && some_synced(m, d) {
            let m = choose|m: Disk| #[trigger] steps_taken(a, m, p, wave, wave.len() as int) && some_synced(m, d);
            let n = wave.len() as int;
            let dirs = choose|dirs: Seq<FileId>| d == #[trigger] synced_all(m, dirs);
            let disks = lemma_steps_chain(a, m, p, wave, n);
            lemma_chain(disks, p, forward(wave.take(n)), n);
            lemma_synced_all(m, dirs);
        } else {
            let m = choose|m: Disk| #[trigger] wave_settled(a, m, p, w) && only_log_changed(m, d, log_path(tx));
            lemma_wave_data(a, m, p, w, log);
            lemma_wave_forward(d0, a, m, tx, p, w, scratch);
            lemma_ats_fit(p, w + 1);
            lemma_own_place(d0, m, p, tx, ats(p.positions(w + 1)), progress_name());
            lemma_log_only(m, d, tx, log);
            lemma_same_but(a, m, d, log);
        }
        assert(same_but(a, d, log));
        lemma_same_but(d0, a, d, log);
    }
}

/// The file can be seen from outside the private area, and its content is durable.
pub open spec fn seen_durably(d: Disk, id: FileId) -> bool {
    durable_file(d, id) && exists|q: PathView| !private_path(q) && #[trigger] d.resolve(q) == Some(id)
}

/// Every file that could be seen in `a` with durable content, but for the log, has that content
/// in `b`, durably.
pub open spec fn files_kept(a: Disk, b: Disk, tx: TxDir) -> bool {
    forall|id: FileId| #[trigger]
        seen_durably(a, id) && a.file_at(log_path(tx)) != Some(id) ==> b.objects[id] == a.objects[id] && durable_file(b, id)
}

/// An interruption leaves durable content as it is.
pub proof fn lemma_cut_data(d: Disk, e: Disk, id: FileId)
    requires
        cut_off(d, e),
        durable_file(d, id),
    ensures
        e.objects[id] == d.objects[id],
        durable_file(e, id),
{
    if e != d {
        let f = choose|f: Seq<Fate>| #[trigger] lost_with(d, e, f);
        assert(keeps_content(d, e, id));
    }
}

/// Content survives applying. Wherever that is cut off, every file that could be seen before
/// with durable content has that content.
pub proof fn law_content_survives_applying(d0: Disk, d: Disk, e: Disk, tx: TxDir, p: PlanView, scratch: Set<FileId>)
    requires
        grounded(d0, p, tx),
        settled(d0, p, scratch),
        d0.file_at(log_path(tx)) is Some,
        applying(d0, d, tx, p) || waves_applied(d0, d, tx, p, p.waves.len() as int),
        cut_off(d, e),
    ensures
        files_kept(d0, e, tx),
{
    let log = d0.file_at(log_path(tx))->0;
    lemma_applying_data(d0, d, tx, p, log, scratch);
    law_interrupted_tokens_are_on_their_way(d0, d, d, tx, p, scratch);
    let (base, pos) = choose|base: Disk, pos: Seq<Pos>| #[trigger] scattered(base, d, p, pos) && kin(d0, base, scratch);
    assert forall|id: FileId| #[trigger] seen_durably(d0, id) && d0.file_at(log_path(tx)) != Some(id) implies e.objects[id]
        == d0.objects[id] && durable_file(e, id) by {
        assert(same_data(d0, d, id));
        assert(d.objects.contains_key(id));
        lemma_cut_data(d, e, id);
    }
}

/// A wave, undone, changes no content.
proof fn lemma_wave_undone_data(base: Disk, a: Disk, b: Disk, p: PlanView, x: Seq<Pos>, v: int, w: int, log: FileId, scratch: Set<FileId>)
    requires
        crate::atomicity::fitting(base, p),
        0 <= w < p.waves.len(),
        poised(base, a, p, x, v, w + 1, scratch),
        wave_reverted(a, b, p, x, w),
    ensures
        same_but(a, b, log),
{
    let wave = p.waves[w];
    let n = wave.len() as int;
    let m = choose|m: Disk| #[trigger] steps_undone(a, m, p, x, wave, n) && parents_synced(m, b, wave_ends(p, wave));
    let dirs = choose|dirs: Seq<FileId>|
        b == #[trigger] synced_all(m, dirs) && forall|l: LocView| #[trigger]
            wave_ends(p, wave).contains(l) ==> crate::recover::parent_covered(m, l, dirs);
    let disks = lemma_back_chain(base, a, m, p, x, w, n);
    lemma_chain(disks, p, backward(x, wave).take(n), n);
    lemma_synced_all(m, dirs);
}

/// Undone waves change no content but that of the log.
proof fn lemma_waves_undone_data(
    base: Disk,
    a: Disk,
    d: Disk,
    tx: TxDir,
    p: PlanView,
    pos: Seq<Pos>,
    v: int,
    w: int,
    log: FileId,
    scratch: Set<FileId>,
)
    requires
        grounded(base, p, tx),
        base.file_at(log_path(tx)) == Some(log),
        0 <= w <= p.waves.len(),
        poised(base, a, p, pos, v, p.waves.len() as int, scratch),
        waves_undone(a, d, tx, p, pos, w),
    ensures
        same_but(a, d, log),
    decreases p.waves.len() - w,
{
    if w < p.waves.len() {
        let x = undo_waves(p, pos, w + 1);
        let y = undo_waves(p, pos, w);
        let m = choose|m: Disk|
            waves_undone(a, m, tx, p, pos, w + 1) && #[trigger] wave_undone(m, d, tx, p, undo_waves(p, pos, w + 1), w);
        lemma_waves_undone_data(base, a, m, tx, p, pos, v, w + 1, log, scratch);
        lemma_waves_back(base, a, m, tx, p, pos, v, w + 1, scratch);
        let s = choose|s: Disk| #[trigger]
            wave_reverted(m, s, p, x, w) && logged(s, d, tx, Record::UndoDone(w as u32));
        lemma_undo_waves(p, pos, w);
        lemma_wave_undone_data(base, m, s, p, x, v, w, log, scratch);
        lemma_wave_back(base, m, s, p, x, y, v, w, scratch);
        lemma_own_place(base, s, p, tx, y, progress_name());
        crate::atomicity::lemma_logged(s, d, tx, Record::UndoDone(w as u32));
        lemma_log_only(s, d, tx, log);
        lemma_same_but(a, m, s, log);
        lemma_same_but(a, s, d, log);
    }
}

/// Wherever undoing is, it has changed no content but that of the log.
pub proof fn lemma_undoing_data(base: Disk, a: Disk, d: Disk, tx: TxDir, p: PlanView, pos: Seq<Pos>, v: int, log: FileId, scratch: Set<FileId>)
    requires
        grounded(base, p, tx),
        base.file_at(log_path(tx)) == Some(log),
        poised(base, a, p, pos, v, p.waves.len() as int, scratch),
        undoing(a, d, tx, p, pos),
    ensures
        same_but(a, d, log),
{
    if waves_undone(a, d, tx, p, pos, 0) {
        lemma_waves_undone_data(base, a, d, tx, p, pos, v, 0, log, scratch);
    } else {
        let w = choose|w: int| 0 <= w < p.waves.len() && #[trigger] halted_in(a, d, tx, p, pos, w);
        let x = undo_waves(p, pos, w + 1);
        let m = choose|m: Disk| #[trigger]
            waves_undone(a, m, tx, p, pos, w + 1) && within_undo(m, d, tx, p, undo_waves(p, pos, w + 1), w);
        lemma_waves_undone_data(base, a, m, tx, p, pos, v, w + 1, log, scratch);
        lemma_waves_back(base, a, m, tx, p, pos, v, w + 1, scratch);
        let wave = p.waves[w];
        if exists|n: int| 0 <= n <= wave.len() && #[trigger] steps_undone(m, d, p, x, wave, n) {
            let n = choose|n: int| 0 <= n <= wave.len() && #[trigger] steps_undone(m, d, p, x, wave, n);
            let disks = lemma_back_chain(base, m, d, p, x, w, n);
            lemma_chain(disks, p, backward(x, wave).take(n), n);
        } else if exists|s: Disk| #[trigger] steps_undone(m, s, p, x, wave, wave.len() as int) && some_synced(s, d) {
            let n = wave.len() as int;
            let s = choose|s: Disk| #[trigger] steps_undone(m, s, p, x, wave, wave.len() as int) && some_synced(s, d);
            let dirs = choose|dirs: Seq<FileId>| d == #[trigger] synced_all(s, dirs);
            let disks = lemma_back_chain(base, m, s, p, x, w, n);
            lemma_chain(disks, p, backward(x, wave).take(n), n);
            lemma_synced_all(s, dirs);
        } else {
            let y = undo_waves(p, pos, w);
            let s = choose|s: Disk| #[trigger] wave_reverted(m, s, p, x, w) && only_log_changed(s, d, log_path(tx));
            lemma_undo_waves(p, pos, w);
            lemma_wave_undone_data(base, m, s, p, x, v, w, log, scratch);
            lemma_wave_back(base, m, s, p, x, y, v, w, scratch);
            lemma_own_place(base, s, p, tx, y, progress_name());
            lemma_log_only(s, d, tx, log);
            lemma_same_but(m, s, d, log);
        }
        assert(same_but(m, d, log));
        lemma_same_but(a, m, d, log);
    }
}

/// What can be seen before is still in use where the tokens are on their way.
proof fn lemma_seen_is_linked(d0: Disk, d: Disk, tx: TxDir, p: PlanView, id: FileId)
    requires
        recoverable(d0, d, p, tx),
        seen_durably(d0, id),
    ensures
        linked(d, id),
        d.objects.contains_key(id),
{
    let (base, pos, scratch) = choose|base: Disk, pos: Seq<Pos>, scratch: Set<FileId>| #[trigger]
        brought_back(d0, base, d, p, tx, pos, scratch);
    let q = choose|q: PathView| !private_path(q) && #[trigger] d0.resolve(q) == Some(id);
    assert(base.resolve(q) == Some(id));
    lemma_resolved_linked(base, q);
    lemma_home_fits(p);
    if id != base.root {
        let k = choose|k: Key| #[trigger] base.names.contains_key(k) && base.names[k] == id;
        lemma_still_linked(base, d, p, pos, k);
        let l = choose|l: Key| #[trigger] d.names.contains_key(l) && d.names[l] == base.names[k];
        assert(d.names.contains_key(l) && d.names[l] == id);
    }
    crate::tree::lemma_linked_known(d, id);
}

/// Deciding on the rollback leaves content as it is.
pub proof fn lemma_begun_data(d: Disk, m: Disk, tx: TxDir, p: PlanView, id: FileId)
    requires
        d.well_formed(),
        begun(d, m, tx, p),
        linked(d, id),
        d.objects.contains_key(id),
    ensures
        same_data(d, m, id),
        m.objects.contains_key(id),
{
    let s = choose|s: Disk|
        only_synced(d, s) && parents_synced(d, s, all_locations(p)) && #[trigger] marked(s, m, tx, Marker::RollingBack);
    assert(linked(s, id)) by {
        if id != d.root {
            let k = choose|k: Key| #[trigger] d.names.contains_key(k) && d.names[k] == id;
            assert(s.names.contains_key(k) && s.names[k] == id);
        }
    }
    lemma_marked_adds(s, m, tx, Marker::RollingBack, arbitrary());
    assert(same_data(s, m, id));
}

/// Content survives undoing. Wherever that is cut off, every file that could be seen before the
/// transaction with durable content has that content, if it had it before undoing began.
pub proof fn law_content_survives_undoing(
    d0: Disk,
    d: Disk,
    m: Disk,
    n: Disk,
    e: Disk,
    tx: TxDir,
    p: PlanView,
    seen: Seq<Pos>,
)
    requires
        recoverable(d0, d, p, tx),
        files_kept(d0, d, tx),
        d0.file_at(log_path(tx)) is Some,
        cleared(d, tx, p, seen),
        begun(d, m, tx, p),
        m.well_formed(),
        undoing(m, n, tx, p, seen),
        cut_off(n, e),
    ensures
        files_kept(d0, e, tx),
{
    let log = d0.file_at(log_path(tx))->0;
    let (base, v, scratch) = lemma_poised(d0, d, m, tx, p, seen);
    lemma_undoing_data(base, m, n, tx, p, seen, v, log, scratch);
    crate::retreat::law_interrupted_undo_is_recoverable(d0, d, m, n, n, tx, p, seen);
    assert forall|id: FileId| #[trigger] seen_durably(d0, id) && d0.file_at(log_path(tx)) != Some(id) implies e.objects[id]
        == d0.objects[id] && durable_file(e, id) by {
        lemma_seen_is_linked(d0, d, tx, p, id);
        lemma_begun_data(d, m, tx, p, id);
        assert(same_data(m, n, id));
        lemma_seen_is_linked(d0, n, tx, p, id);
        lemma_cut_data(n, e, id);
    }
}

/// Content survives a rollback. After one that is carried through, every path outside the
/// private area that led to a file with durable content leads to that file with that content.
pub proof fn law_rollback_restores_the_content(
    d0: Disk,
    d: Disk,
    f: Disk,
    tx: TxDir,
    p: PlanView,
    seen: Seq<Pos>,
    q: PathView,
)
    requires
        recoverable(d0, d, p, tx),
        files_kept(d0, d, tx),
        d0.file_at(log_path(tx)) is Some,
        cleared(d, tx, p, seen),
        rolled_back(d, f, tx, p, seen),
        !private_path(q),
        d0.resolve(q) matches Some(id) && durable_file(d0, id) && d0.file_at(log_path(tx)) != Some(id),
    ensures
        f.resolve(q) == d0.resolve(q),
        f.objects[d0.resolve(q)->0] == d0.objects[d0.resolve(q)->0],
{
    let id = d0.resolve(q)->0;
    let log = d0.file_at(log_path(tx))->0;
    assert(seen_durably(d0, id));
    law_rollback_restores_the_tree(d0, d, f, tx, p, seen);
    let (m, n) = choose|m: Disk, n: Disk| #[trigger]
        going(m, n, tx, p, seen, home(p)) && waves_undone(m, n, tx, p, seen, 0) && begun(d, m, tx, p) && same_tree(n, f);
    let (base, v, scratch) = lemma_poised(d0, d, m, tx, p, seen);
    lemma_seen_is_linked(d0, d, tx, p, id);
    lemma_begun_data(d, m, tx, p, id);
    assert(undoing(m, n, tx, p, seen));
    lemma_undoing_data(base, m, n, tx, p, seen, v, log, scratch);
    assert(same_data(m, n, id));
    assert(f.resolve(q) == n.resolve(q));
}

} // verus!
