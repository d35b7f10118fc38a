//! What recovery decides: an interrupted transaction is rolled back, and a committed one never
//! is.
use vstd::prelude::*;

use crate::apply::{applying, journaled, laid_out, readied, waves_applied, written_out};
use crate::apply::{lemma_created_is_found, lemma_moved_within};
use crate::atomicity::{
    cut_off, kin, law_interrupted_tokens_are_on_their_way, lemma_kin_resolves, lemma_left_is_kin, lemma_lost_kinds,
    lemma_waves_forward, lemma_well_formed_by_names, scattered, settled,
};
use crate::bytes::{folded, Name};
use crate::contents::{lemma_applying_data, lemma_begun_data, lemma_cut_data, lemma_undoing_data};
use crate::crash::{durable_file, lost_with};
use crate::disk::{Disk, Fate, FileId, Object};
use crate::durability::left_with;
use crate::journal::{admissible, journal_in, journal_json, sealed, Journal, JournalView};
use crate::json::json_printed;
use crate::path::{private_path, PathView};
use crate::plan::PlanView;
use crate::positions::Pos;
use crate::readiness::{leaning, lemma_laid_out, lemma_written_out, never_there, own_dirs};
use crate::logbook::{applied_records, log_right};
use crate::progress::log_bytes;
use crate::recover::{
    all_locations, begun, cleared, decided, has, is_transaction, journal_bytes, log_path, only_synced, parents_synced,
    recovery_step, rolled_back, same_data, undoing, Decision, Outcome,
};
use crate::restoration::{grounded, lemma_begun_volume, lemma_kin_grounded, lemma_own_place, lemma_resolved_linked};
use crate::retreat::{
    brought_back, law_interrupted_undo_is_recoverable, law_rollback_restores_the_tree, lemma_interrupted_undo,
    lemma_marked_settled, lemma_poised, own_place_kept, recoverable,
};
use crate::state::{
    committed_name, journal_name, journal_tmp_name, made_marker, marked, progress_name, rolled_back_name, Marker, TxDir,
};
use crate::tree::{alike, alike_paths, goes_through, same_names};
use crate::tree::{lemma_frame_create, lemma_frame_move, lemma_same_content, lemma_same_names_transitive};
use crate::vfs::{created_at, dir_synced_at};

verus! {

/// The journal of `tx` is in place, durable, and one that recovery acts on: it holds `j`.
pub open spec fn prepared(d: Disk, tx: TxDir, j: JournalView) -> bool {
    &&& d.file_at(tx.at().push(journal_name())) matches Some(id) && durable_file(d, id) && d.file_at(log_path(tx))
        != Some(id)
    &&& journal_in(journal_bytes(d, tx)) == Some(j)
    &&& admissible(j, tx.name@, d.shows(d.root))
    &&& d.file_at(log_path(tx)) is Some
}

/// What is in the transaction's directory is found there when another name in it changes.
pub proof fn lemma_beside(d: Disk, tx: TxDir, x: Name, y: Name)
    requires
        x.len() != y.len(),
    ensures
        !goes_through(d, tx.at().push(x), tx.at().push(y)),
{
    let (q, f) = (tx.at().push(x), tx.at().push(y));
    if goes_through(d, q, f) {
        let j = choose|j: int| 0 < j <= q.len() && alike_paths(d, f, #[trigger] q.take(j));
        assert(q.take(j) =~= q);
        assert(alike(d, f[f.len() - 1], q[f.len() - 1]));
        assert(folded(x).len() == x.len() && folded(y).len() == y.len());
    }
}

/// Ready means prepared. Getting ready leaves a durable journal that says what it was made to
/// say, and a log beside it.
pub proof fn law_ready_is_prepared(a: Disk, b: Disk, tx: TxDir, j: JournalView, scratch: Set<FileId>)
    requires
        readied(a, b, tx, j),
        journaled(b, tx, j),
        admissible(j, tx.name@, b.shows(b.root)),
        leaning(a, scratch, own_dirs(a, tx)),
        a.dir_at(tx.at()) matches Some(own) && never_there(a, own, progress_name()),
    ensures
        prepared(b, tx, j),
        log_right(b, tx, b.file_at(log_path(tx))->0, 0),
{
    let data = sealed(json_printed(journal_json(j)));
    let (m, x, y) = choose|m: Disk, x: Seq<Disk>, y: Seq<Disk>|
        #![trigger laid_out(x, a, m, tx, j.plan), written_out(y, m, b, tx, data)]
        laid_out(x, a, m, tx, j.plan) && written_out(y, m, b, tx, data);
    let (log, draft, place) = (log_path(tx), tx.at().push(journal_tmp_name()), tx.at().push(journal_name()));
    let first = lemma_laid_out(x, a, m, tx, j.plan, scratch);
    let fewer = lemma_written_out(y, m, b, tx, data, first);
    let (lid, lmode) = choose|id: FileId, mode: u32| #[trigger]
        created_at(x[3], x[4], log, id, Object::File { data: Seq::empty(), mode });
    lemma_created_is_found(x[3], x[4], log, lid, Object::File { data: Seq::empty(), mode: lmode });
    lemma_same_content(x[4], x[5]);
    lemma_same_content(x[5], x[6]);
    lemma_same_content(x[6], x[7]);
    assert(x[5].resolve(log) == x[4].resolve(log));
    assert(x[6].resolve(log) == x[5].resolve(log));
    assert(x[7].resolve(log) == x[6].resolve(log));
    assert(m.file_at(log) == Some(lid));
    lemma_resolved_linked(m, log);
    let (id, mode) = choose|id: FileId, mode: u32| #[trigger] created_at(m, y[1], draft, id, Object::File { data, mode });
    lemma_created_is_found(m, y[1], draft, id, Object::File { data, mode });
    lemma_beside(m, tx, progress_name(), journal_tmp_name());
    lemma_frame_create(m, y[1], draft, id, Object::File { data, mode }, log);
    lemma_same_content(y[1], y[2]);
    assert(y[2].resolve(log) == y[1].resolve(log));
    assert(y[2].resolve(draft) == y[1].resolve(draft));
    lemma_beside(y[2], tx, progress_name(), journal_tmp_name());
    lemma_beside(y[2], tx, progress_name(), journal_name());
    lemma_frame_move(y[2], y[3], draft, None, place, None, log);
    lemma_moved_within(y[2], y[3], tx.at(), journal_tmp_name(), journal_name());
    lemma_same_content(y[3], y[4]);
    assert(y[4].resolve(log) == y[3].resolve(log));
    assert(y[4].resolve(place) == y[3].resolve(place));
    assert(id != lid);
    assert(b.file_at(log) == Some(lid));
    assert(b.file_at(place) == Some(id));
    assert(durable_file(b, id));
    assert(durable_file(b, lid));
    assert(log_bytes(applied_records(0)) =~= Seq::<u8>::empty());
}

/// The transaction was prepared, by the journal `j`, and is neither committed nor rolled back.
pub open spec fn open_case(d: Disk, tx: TxDir, j: JournalView) -> bool {
    prepared(d, tx, j) && !(has(d, tx, Marker::Committed)) && !(has(d, tx, Marker::RolledBack))
}

/// An open case is rolled back, by its journal.
pub proof fn law_open_case_is_rolled_back(d: Disk, tx: TxDir, j: JournalView, r: Decision)
    requires
        open_case(d, tx, j),
        decided(d, tx, r),
    ensures
        r matches Decision::RollBack(found) && found@ == j,
{
}

/// Applying leaves the case open. Wherever it is cut off, the transaction is prepared and
/// neither committed nor rolled back.
pub proof fn law_interrupted_apply_leaves_the_case_open(
    d0: Disk,
    d: Disk,
    e: Disk,
    tx: TxDir,
    j: JournalView,
    scratch: Set<FileId>,
)
    requires
        grounded(d0, j.plan, tx),
        settled(d0, j.plan, scratch),
        open_case(d0, tx, j),
        applying(d0, d, tx, j.plan) || waves_applied(d0, d, tx, j.plan, j.plan.waves.len() as int),
        cut_off(d, e),
    ensures
        open_case(e, tx, j),
{
    let p = j.plan;
    let log = d0.file_at(log_path(tx))->0;
    let id = d0.file_at(tx.at().push(journal_name()))->0;
    law_interrupted_tokens_are_on_their_way(d0, d, d, tx, p, scratch);
    law_interrupted_tokens_are_on_their_way(d0, d, e, tx, p, scratch);
    let (first, here) = choose|base: Disk, pos: Seq<Pos>| #[trigger] scattered(base, d, p, pos) && kin(d0, base, scratch);
    let (base, pos) = choose|base: Disk, pos: Seq<Pos>| #[trigger] scattered(base, e, p, pos) && kin(d0, base, scratch);
    lemma_kin_grounded(d0, base, p, tx, scratch);
    assert forall|name: Name| #[trigger] e.resolve(tx.at().push(name)) == d0.resolve(tx.at().push(name)) by {
        lemma_own_place(base, e, p, tx, pos, name);
        lemma_kin_resolves(d0, base, scratch, tx.at().push(name));
    }
    lemma_own_place(base, e, p, tx, pos, journal_name());
    lemma_own_place(base, e, p, tx, pos, progress_name());
    lemma_kin_resolves(d0, base, scratch, tx.at().push(journal_name()));
    lemma_applying_data(d0, d, tx, p, log, scratch);
    assert(same_data(d0, d, id));
    assert(d.objects.contains_key(id));
    lemma_cut_data(d, e, id);
    assert(journal_bytes(e, tx) == journal_bytes(d0, tx));
    assert(e.resolve(tx.at().push(Marker::Committed.file())) is None);
    assert(e.resolve(tx.at().push(Marker::RolledBack.file())) is None);
}

/// Uncommitted means undone. Wherever applying is cut off, recovery decides to roll back, by
/// the journal that was prepared.
pub proof fn law_interrupted_apply_is_rolled_back(
    d0: Disk,
    d: Disk,
    e: Disk,
    tx: TxDir,
    j: JournalView,
    r: Decision,
    scratch: Set<FileId>,
)
    requires
        grounded(d0, j.plan, tx),
        settled(d0, j.plan, scratch),
        open_case(d0, tx, j),
        applying(d0, d, tx, j.plan) || waves_applied(d0, d, tx, j.plan, j.plan.waves.len() as int),
        cut_off(d, e),
        decided(e, tx, r),
    ensures
        r matches Decision::RollBack(found) && found@ == j,
{
    law_interrupted_apply_leaves_the_case_open(d0, d, e, tx, j, scratch);
    law_open_case_is_rolled_back(e, tx, j, r);
}

/// Deciding on the rollback leaves what else is in the transaction's directory.
proof fn lemma_begun_keeps(d: Disk, m: Disk, tx: TxDir, p: PlanView, name: Name)
    requires
        d.well_formed(),
        m.well_formed(),
        begun(d, m, tx, p),
        name.len() != Marker::RollingBack.file().len(),
    ensures
        m.resolve(tx.at().push(name)) == d.resolve(tx.at().push(name)),
{
    let marker = Marker::RollingBack;
    let at = tx.at().push(marker.file());
    let s = choose|s: Disk|
        only_synced(d, s) && parents_synced(d, s, all_locations(p)) && #[trigger] marked(s, m, tx, Marker::RollingBack);
    lemma_same_content(d, s);
    let mid = choose|mid: Disk| #[trigger]
        dir_synced_at(mid, m, tx.at()) && (mid == s && s.key_at(tx.at().push(marker.file())) is Some || made_marker(
            s,
            mid,
            tx,
            marker,
        ));
    lemma_same_content(mid, m);
    assert(m.resolve(tx.at().push(name)) == mid.resolve(tx.at().push(name)));
    assert(s.resolve(tx.at().push(name)) == d.resolve(tx.at().push(name)));
    if mid != s {
        let (id, mode) = choose|id: FileId, mode: u32| #[trigger]
            created_at(s, mid, at, id, Object::File { data: Seq::empty(), mode });
        lemma_beside(s, tx, name, marker.file());
        lemma_well_formed_by_names(d, s);
        lemma_well_formed_by_names(m, mid);
        lemma_frame_create(s, mid, at, id, Object::File { data: Seq::empty(), mode }, tx.at().push(name));
    }
}

/// A file in the transaction's directory is found there after the decision.
proof fn lemma_begun_keeps_file(d: Disk, m: Disk, tx: TxDir, p: PlanView, name: Name)
    requires
        d.well_formed(),
        m.well_formed(),
        begun(d, m, tx, p),
        name.len() != Marker::RollingBack.file().len(),
        d.file_at(tx.at().push(name)) is Some,
    ensures
        m.file_at(tx.at().push(name)) == d.file_at(tx.at().push(name)),
        same_data(d, m, d.file_at(tx.at().push(name))->0),
{
    let id = d.file_at(tx.at().push(name))->0;
    lemma_begun_keeps(d, m, tx, p, name);
    lemma_resolved_linked(d, tx.at().push(name));
    lemma_begun_data(d, m, tx, p, id);
}

/// Undoing, and whatever cuts it off, leaves the content of the journal.
proof fn lemma_journal_kept(d0: Disk, d: Disk, m: Disk, n: Disk, e: Disk, tx: TxDir, p: PlanView, seen: Seq<Pos>, id: FileId)
    requires
        recoverable(d0, d, p, tx),
        d.well_formed(),
        d0.file_at(log_path(tx)) is Some,
        d0.file_at(log_path(tx)) != Some(id),
        d.file_at(tx.at().push(journal_name())) == Some(id),
        durable_file(d, id),
        cleared(d, tx, p, seen),
        begun(d, m, tx, p),
        m.well_formed(),
        undoing(m, n, tx, p, seen),
        cut_off(n, e),
    ensures
        e.objects[id] == d.objects[id],
        durable_file(e, id),
{
    let log = d0.file_at(log_path(tx))->0;
    let (next, c, scratch) = lemma_interrupted_undo(d0, d, m, n, n, tx, p, seen);
    let (base, v, less) = lemma_poised(d0, d, m, tx, p, seen);
    lemma_begun_keeps_file(d, m, tx, p, journal_name());
    lemma_undoing_data(base, m, n, tx, p, seen, v, log, less);
    assert(same_data(m, n, id));
    assert(n.resolve(tx.at().push(journal_name())) == m.resolve(tx.at().push(journal_name())));
    lemma_resolved_linked(n, tx.at().push(journal_name()));
    lemma_cut_data(n, e, id);
}

/// Undoing leaves the case open. Wherever it is cut off, the transaction is prepared and
/// neither committed nor rolled back, and what is left can be brought back: the next recovery
/// rolls back again.
pub proof fn law_interrupted_undo_leaves_the_case_open(
    d0: Disk,
    d: Disk,
    m: Disk,
    n: Disk,
    e: Disk,
    tx: TxDir,
    j: JournalView,
    seen: Seq<Pos>,
)
    requires
        recoverable(d0, d, j.plan, tx),
        open_case(d, tx, j),
        d0.file_at(log_path(tx)) is Some,
        cleared(d, tx, j.plan, seen),
        begun(d, m, tx, j.plan),
        m.well_formed(),
        undoing(m, n, tx, j.plan, seen),
        cut_off(n, e),
    ensures
        recoverable(d0, e, j.plan, tx),
        open_case(e, tx, j),
{
    let p = j.plan;
    let id = d.file_at(tx.at().push(journal_name()))->0;
    let (first, pos, more) = choose|base: Disk, pos: Seq<Pos>, scratch: Set<FileId>| #[trigger]
        brought_back(d0, base, d, p, tx, pos, scratch);
    lemma_own_place(first, d, p, tx, pos, progress_name());
    assert(d.file_at(log_path(tx)) == d0.file_at(log_path(tx)));
    lemma_journal_kept(d0, d, m, n, e, tx, p, seen, id);
    law_interrupted_undo_is_recoverable(d0, d, m, n, e, tx, p, seen);
    lemma_begun_keeps_file(d, m, tx, p, journal_name());
    lemma_begun_keeps_file(d, m, tx, p, progress_name());
    lemma_begun_keeps(d, m, tx, p, committed_name());
    lemma_begun_keeps(d, m, tx, p, rolled_back_name());
    lemma_undo_keeps_places(d0, d, m, n, e, tx, p, seen);
    assert(e.file_at(tx.at().push(progress_name())) == m.file_at(tx.at().push(progress_name())));
    assert(e.file_at(tx.at().push(journal_name())) == m.file_at(tx.at().push(journal_name())));
    assert(e.resolve(tx.at().push(committed_name())) == m.resolve(tx.at().push(committed_name())));
    assert(e.resolve(tx.at().push(rolled_back_name())) == m.resolve(tx.at().push(rolled_back_name())));
}

/// Undoing, and whatever cuts it off, leaves what is in the transaction's directory, and stays
/// on the filesystem.
proof fn lemma_undo_keeps_places(d0: Disk, d: Disk, m: Disk, n: Disk, e: Disk, tx: TxDir, p: PlanView, seen: Seq<Pos>)
    requires
        recoverable(d0, d, p, tx),
        cleared(d, tx, p, seen),
        begun(d, m, tx, p),
        m.well_formed(),
        undoing(m, n, tx, p, seen),
        cut_off(n, e),
    ensures
        own_place_kept(m, e, tx),
        e.shows(e.root) == d.shows(d.root),
{
    let (first, pos, more) = choose|base: Disk, pos: Seq<Pos>, scratch: Set<FileId>| #[trigger]
        brought_back(d0, base, d, p, tx, pos, scratch);
    let (next, c, scratch) = lemma_interrupted_undo(d0, d, m, n, e, tx, p, seen);
    lemma_begun_volume(d, m, tx, p);
}

/// A marker that has been set is there, and no other marker has appeared.
proof fn lemma_marked_has(s: Disk, m: Disk, tx: TxDir, marker: Marker)
    requires
        s.well_formed(),
        m.well_formed(),
        marked(s, m, tx, marker),
    ensures
        has(m, tx, marker),
{
    let at = tx.at().push(marker.file());
    let mid = choose|mid: Disk| #[trigger]
        dir_synced_at(mid, m, tx.at()) && (mid == s && s.key_at(tx.at().push(marker.file())) is Some || made_marker(
            s,
            mid,
            tx,
            marker,
        ));
    crate::tree::lemma_same_content(mid, m);
    assert(m.resolve(at) == mid.resolve(at));
    if mid == s {
        crate::tree::lemma_resolve_key(s, at);
    } else {
        let (id, mode) = choose|id: FileId, mode: u32| #[trigger]
            created_at(s, mid, at, id, Object::File { data: Seq::empty(), mode });
        lemma_created_is_found(s, mid, at, id, Object::File { data: Seq::empty(), mode });
    }
}

/// Once the marker that says that the transaction is committed is set, whatever cuts it off, the
/// marker is there and no path leads elsewhere.
pub proof fn lemma_marked_stays(d0: Disk, d: Disk, c: Disk, e: Disk, tx: TxDir, p: PlanView, scratch: Set<FileId>)
    requires
        grounded(d0, p, tx),
        settled(d0, p, scratch),
        waves_applied(d0, d, tx, p, p.waves.len() as int),
        marked(d, c, tx, Marker::Committed),
        c.well_formed(),
        cut_off(c, e),
    ensures
        forall|q: PathView| #[trigger] e.resolve(q) == c.resolve(q),
        has(e, tx, Marker::Committed),
{
    let at = tx.at().push(Marker::Committed.file());
    lemma_waves_forward(d0, d, tx, p, p.waves.len() as int, scratch);
    let fewer = lemma_marked_settled(d, c, tx, Marker::Committed, p, scratch);
    lemma_marked_has(d, c, tx, Marker::Committed);
    lemma_lost_kinds(c, c, e);
    if e != c {
        let f = choose|f: Seq<Fate>| #[trigger] lost_with(c, e, f);
        lemma_left_is_kin(c, f, fewer);
        lemma_well_formed_by_names(left_with(c, f), e);
    }
    assert forall|q: PathView| #[trigger] e.resolve(q) == c.resolve(q) by {
        lemma_kin_resolves(c, e, fewer, q);
    }
    assert(e.resolve(at) == c.resolve(at));
}

/// Committed means kept. Once the marker that says so is set, whatever cuts the transaction off
/// finds it set: recovery never decides to roll back, and unless markers of a rollback are
/// there as well, it decides to clean up and nothing else.
pub proof fn law_committed_is_never_undone(d0: Disk, d: Disk, c: Disk, e: Disk, tx: TxDir, p: PlanView, r: Decision, scratch: Set<FileId>)
    requires
        grounded(d0, p, tx),
        settled(d0, p, scratch),
        waves_applied(d0, d, tx, p, p.waves.len() as int),
        marked(d, c, tx, Marker::Committed),
        c.well_formed(),
        cut_off(c, e),
        decided(e, tx, r),
    ensures
        forall|q: PathView| #[trigger] e.resolve(q) == c.resolve(q),
        has(e, tx, Marker::Committed),
        r == Decision::Committed || r == Decision::Required(crate::error::Reason::CommittedAndRolledBack),
        !(has(e, tx, Marker::RollingBack)) && !(has(e, tx, Marker::RolledBack)) ==> r == Decision::Committed,
{
    lemma_marked_stays(d0, d, c, e, tx, p, scratch);
}

/// Before, if not committed. However often applying, and then undoing, has been cut off: as long
/// as the case is open, recovery rolls the transaction back, unless it refuses and touches
/// nothing; and then every path outside the private area leads where it did before the
/// transaction.
pub proof fn law_open_case_means_before(d0: Disk, e: Disk, f: Disk, tx: TxDir, j: JournalView, o: Outcome)
    requires
        recoverable(d0, e, j.plan, tx),
        open_case(e, tx, j),
        is_transaction(tx.id()),
        recovery_step(e, f, tx.name, o),
    ensures
        o == Outcome::RolledBack || o == Outcome::Refused,
        o == Outcome::RolledBack ==> same_names(d0, f),
        o == Outcome::Refused ==> f == e,
{
    let t = TxDir { name: tx.name };
    assert(t == tx);
    if o == Outcome::RolledBack {
        let (found, pos) = choose|found: Box<Journal>, pos: Seq<Pos>| #[trigger]
            rolled_back(e, f, tx, found@.plan, pos) && decided(e, tx, Decision::RollBack(found)) && cleared(
                e,
                tx,
                found@.plan,
                pos,
            );
        law_open_case_is_rolled_back(e, tx, j, Decision::RollBack(found));
        law_rollback_restores_the_tree(d0, e, f, tx, j.plan, pos);
    }
}

/// After, once committed. Once the marker that says so is set, whatever cuts the transaction
/// off, the next recovery removes the leftovers, unless it refuses and touches nothing; and then
/// every path outside the private area leads where it did when the marker was set.
pub proof fn law_committed_means_after(
    d0: Disk,
    d: Disk,
    c: Disk,
    e: Disk,
    f: Disk,
    tx: TxDir,
    p: PlanView,
    o: Outcome,
    scratch: Set<FileId>,
)
    requires
        grounded(d0, p, tx),
        settled(d0, p, scratch),
        is_transaction(tx.id()),
        waves_applied(d0, d, tx, p, p.waves.len() as int),
        marked(d, c, tx, Marker::Committed),
        c.well_formed(),
        cut_off(c, e),
        recovery_step(e, f, tx.name, o),
    ensures
        o == Outcome::Completed || o == Outcome::Refused,
        o == Outcome::Completed ==> same_names(c, f),
        o == Outcome::Refused ==> f == e,
{
    let t = TxDir { name: tx.name };
    assert(t == tx);
    match o {
        Outcome::Discarded => {
            law_committed_is_never_undone(d0, d, c, e, tx, p, Decision::Discard, scratch);
        },
        Outcome::Completed => {
            law_committed_is_never_undone(d0, d, c, e, tx, p, Decision::Committed, scratch);
            assert(same_names(c, e)) by {
                lemma_lost_kinds(c, c, e);
                assert forall|q: PathView| !private_path(q) implies (#[trigger] e.resolve(q)) == c.resolve(q) && (
                c.resolve(q) matches Some(id) ==> c.objects[id].kind() == e.objects[id].kind()) by {
                    if c.resolve(q) is Some {
                        lemma_resolved_linked(c, q);
                    }
                }
            }
            lemma_same_names_transitive(c, e, f);
        },
        Outcome::RolledBack => {
            if decided(e, tx, Decision::RolledBack) {
                law_committed_is_never_undone(d0, d, c, e, tx, p, Decision::RolledBack, scratch);
            } else {
                let (found, pos) = choose|found: Box<Journal>, pos: Seq<Pos>| #[trigger]
                    rolled_back(e, f, tx, found@.plan, pos) && decided(e, tx, Decision::RollBack(found)) && cleared(
                        e,
                        tx,
                        found@.plan,
                        pos,
                    );
                law_committed_is_never_undone(d0, d, c, e, tx, p, Decision::RollBack(found), scratch);
            }
        },
        _ => {},
    }
}

} // verus!
