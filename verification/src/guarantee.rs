//! The guarantee: after any crash the tree is the one before the commit or the one that was
//! committed, and the latter if the commit was marked.
use vstd::prelude::*;

use crate::apply::{applying, journaled, readied, stopped_in, waves_applied, within_wave};
use crate::atomicity::{cut_off, law_interrupted_tokens_are_on_their_way, lemma_kin_resolves, lemma_waves_forward, logging, scattered, kin, settled};
use crate::bytes::Name;
use crate::contents::lemma_waves_data;
use crate::compile::{planned, Sources};
use crate::disk::{Disk, FileId, Object};
use crate::error::Reason;
use crate::grounding::{law_compiled_plans_are_grounded, lemma_location, no_links_shared, sound_plan};
use crate::journal::{admissible, locations_allowed, JournalView, FORMAT};
use crate::logbook::{law_a_clear_case_is_not_refused, law_interrupted_apply_is_clear, log_right, tells_only};
use crate::overlay::{Look, OverlayView};
use crate::path::{private_path, PathView};
use crate::plan::PlanView;
use crate::positions::Pos;
use crate::readiness::{law_ready_is_settled, leaning, never_there, own_dirs};
use crate::recover::{decided, has, is_transaction, log_of, log_path, recovery_step, refused, refused_for, same_data, Decision, Outcome};
use crate::restoration::{grounded, lemma_kin_grounded, lemma_own_place, places_differ};
use crate::result::{law_the_tree_is_what_was_seen, object_of};
use crate::retreat::{law_interrupted_apply_is_recoverable, recoverable};
use crate::state::{made_marker, marked, progress_name, Marker, TxDir};
use crate::storage::{grown, in_good_order, lemma_compiled_is_sound, lemma_ready_is_sound, same_kind};
use crate::transaction::{brought_about, calls_for, carried_out, put_out};
use crate::tree::{lemma_frame_create, lemma_same_content, lemma_same_names_transitive, lemma_same_tree_transitive, same_names, same_tree};
use crate::turns::{lemma_secluded, outlying};
use crate::verdict::{
    law_committed_is_never_undone, law_committed_means_after, law_interrupted_apply_leaves_the_case_open, law_open_case_means_before,
    law_ready_is_prepared, lemma_beside, open_case,
};
use crate::vfs::{created_at, dir_synced_at};

verus! {

/// A transaction in good order has been compiled and made ready: `s` are the sources of its plan, `m`
/// is the disk then. Before it was made ready nothing was pending but in the transaction's own
/// directories, and in directories `scratch` that nothing leads to. No file is moved under two of its
/// names, and no way leads back to where it has been.
pub open spec fn underway(
    s: Sources,
    pk: Seq<PathView>,
    dk: Seq<PathView>,
    m: Disk,
    tx: TxDir,
    j: JournalView,
    scratch: Set<FileId>,
) -> bool {
    &&& planned(s, pk, dk, j.plan)
    &&& j.plan.valid()
    &&& j.plan.tokens.len() <= usize::MAX
    &&& s.tx == tx.id()
    &&& is_transaction(tx.id())
    &&& in_good_order(s.ov, s.before, tx, s.blobs)
    &&& no_links_shared(s.ov, s.before)
    &&& s.after.well_formed()
    &&& m.well_formed()
    &&& same_tree(s.after, m)
    &&& readied(s.after, m, tx, j)
    &&& journaled(m, tx, j)
    &&& admissible(j, tx.name@, m.shows(m.root))
    &&& places_differ(s.before, j.plan)
    &&& leaning(s.after, scratch, own_dirs(s.after, tx))
    &&& s.after.dir_at(tx.at()) matches Some(own) && never_there(s.after, own, progress_name())
}

/// Every path outside the private area leads to what the transaction saw there, or to nothing if it
/// saw nothing.
pub open spec fn as_seen(s: Sources, d: Disk) -> bool {
    forall|q: PathView|
        !private_path(q) ==> match s.ov.look(s.before, q) {
            Look::Found(e) => #[trigger] d.resolve(q) == Some(object_of(s, e)),
            _ => d.resolve(q) is None,
        }
}

/// The locations of a sound plan are not in directories that nothing leads to.
proof fn lemma_outlying(s: Sources, pk: Seq<PathView>, dk: Seq<PathView>, m: Disk, tx: TxDir, j: JournalView, scratch: Set<FileId>)
    requires
        underway(s, pk, dk, m, tx, j, scratch),
        sound_plan(s, pk, dk, s.after, tx, j.plan),
    ensures
        outlying(j.plan, scratch),
{
    let p = j.plan;
    assert forall|t: int, i: int|
        #![trigger p.tokens[t].locs[i]]
        0 <= t < p.tokens.len() && 0 <= i < p.tokens[t].locs.len() implies !scratch.contains(p.tokens[t].locs[i].parent) by {
        let (_, at) = lemma_location(s, pk, dk, s.after, tx, p, t, i);
        lemma_secluded(s.after, scratch, at);
    }
}

/// Ready to go. Once a transaction in good order has been made ready, its plan is grounded, nothing
/// that matters is pending, and the case is open.
pub proof fn law_ready_to_go(
    s: Sources,
    pk: Seq<PathView>,
    dk: Seq<PathView>,
    m: Disk,
    tx: TxDir,
    j: JournalView,
    scratch: Set<FileId>,
) -> (fewer: Set<FileId>)
    requires
        underway(s, pk, dk, m, tx, j, scratch),
    ensures
        sound_plan(s, pk, dk, m, tx, j.plan),
        grounded(m, j.plan, tx),
        settled(m, j.plan, fewer),
        open_case(m, tx, j),
        log_right(m, tx, m.file_at(log_path(tx))->0, 0),
        same_tree(s.before, m),
        forall|k: Marker| !(#[trigger] has(m, tx, k)),
{
    lemma_compiled_is_sound(s, pk, dk, tx, j.plan);
    lemma_ready_is_sound(s, pk, dk, m, tx, j.plan, j);
    law_compiled_plans_are_grounded(s, pk, dk, m, tx, j.plan);
    lemma_outlying(s, pk, dk, m, tx, j, scratch);
    law_ready_is_settled(s.after, m, tx, j, scratch);
    law_ready_is_prepared(s.after, m, tx, j, scratch);
    lemma_same_tree_transitive(s.before, s.after, m);
    assert(!(has(m, tx, Marker::Committed)) && !(has(m, tx, Marker::RolledBack)));
    choose|fewer: Set<FileId>| fewer.subset_of(scratch) && #[trigger] settled(m, j.plan, fewer)
}

/// The transaction was cut off at `e` while it was being applied: `w` waves had been applied, leaving
/// the disk at `a`, and the next had got as far as `d`. If a record was being written, what is left of
/// it does not read as one that nobody wrote.
pub open spec fn cut_while_applying(m: Disk, a: Disk, d: Disk, e: Disk, tx: TxDir, p: PlanView, w: int) -> bool {
    &&& 0 <= w <= p.waves.len()
    &&& waves_applied(m, a, tx, p, w)
    &&& if w < p.waves.len() {
        within_wave(a, d, tx, p, w)
    } else {
        d == a
    }
    &&& cut_off(d, e)
    &&& w < p.waves.len() && logging(a, d, tx, p, w) ==> tells_only(log_of(e, tx), w + 1)
}

/// Before, if not marked. Wherever a transaction in good order is cut off while it is applied, the
/// next recovery rolls it back, without fail, and every path outside the private area leads where it
/// did when it was committed.
pub proof fn law_cut_off_means_before(
    s: Sources,
    pk: Seq<PathView>,
    dk: Seq<PathView>,
    m: Disk,
    a: Disk,
    d: Disk,
    e: Disk,
    f: Disk,
    tx: TxDir,
    j: JournalView,
    w: int,
    o: Outcome,
    scratch: Set<FileId>,
)
    requires
        underway(s, pk, dk, m, tx, j, scratch),
        cut_while_applying(m, a, d, e, tx, j.plan, w),
        recovery_step(e, f, tx.name, o),
    ensures
        o == Outcome::RolledBack,
        same_names(s.before, f),
        recoverable(m, e, j.plan, tx),
        open_case(e, tx, j),
        !refused(e, tx),
{
    let fewer = law_ready_to_go(s, pk, dk, m, tx, j, scratch);
    let p = j.plan;
    assert(applying(m, d, tx, p) || waves_applied(m, d, tx, p, p.waves.len() as int)) by {
        if w < p.waves.len() {
            assert(stopped_in(m, d, tx, p, w));
        }
    }
    law_interrupted_apply_is_recoverable(m, d, e, tx, p, fewer);
    law_interrupted_apply_leaves_the_case_open(m, d, e, tx, j, fewer);
    law_interrupted_apply_is_clear(m, a, d, e, tx, p, w, m.file_at(log_path(tx))->0, fewer);
    law_a_clear_case_is_not_refused(e, tx, j);
    assert(TxDir { name: tx.name } == tx);
    law_open_case_means_before(m, e, f, tx, j, o);
    if o == Outcome::Refused {
        let reason = choose|reason: Reason| #[trigger] refused_for(e, tx, reason);
        assert(refused(e, tx));
    }
    lemma_same_names_transitive(s.before, m, f);
}

/// Applying leaves alone what else is in the transaction's directory.
proof fn lemma_own_untouched(m: Disk, d: Disk, tx: TxDir, p: PlanView, scratch: Set<FileId>, name: Name)
    requires
        grounded(m, p, tx),
        settled(m, p, scratch),
        waves_applied(m, d, tx, p, p.waves.len() as int),
    ensures
        d.resolve(tx.at().push(name)) == m.resolve(tx.at().push(name)),
        d.well_formed(),
{
    lemma_waves_forward(m, d, tx, p, p.waves.len() as int, scratch);
    law_interrupted_tokens_are_on_their_way(m, d, d, tx, p, scratch);
    let (base, pos) = choose|base: Disk, pos: Seq<Pos>| #[trigger] scattered(base, d, p, pos) && kin(m, base, scratch);
    lemma_kin_grounded(m, base, p, tx, scratch);
    lemma_own_place(base, d, p, tx, pos, name);
    lemma_kin_resolves(m, base, scratch, tx.at().push(name));
}

/// Setting one marker sets no other.
proof fn lemma_other_markers(a: Disk, b: Disk, tx: TxDir, k: Marker)
    requires
        a.well_formed(),
        b.well_formed(),
        marked(a, b, tx, Marker::Committed),
        k != Marker::Committed,
    ensures
        has(b, tx, k) == has(a, tx, k),
{
    let at = tx.at().push(Marker::Committed.file());
    let q = tx.at().push(k.file());
    let mid = choose|mid: Disk| #[trigger]
        dir_synced_at(mid, b, tx.at()) && (mid == a && a.key_at(at) is Some || made_marker(a, mid, tx, Marker::Committed));
    lemma_same_content(mid, b);
    assert(b.resolve(q) == mid.resolve(q));
    if mid != a {
        let (id, mode) = choose|id: FileId, mode: u32| #[trigger]
            created_at(a, mid, at, id, Object::File { data: Seq::empty(), mode });
        assert(k.file().len() != Marker::Committed.file().len());
        lemma_beside(a, tx, k.file(), Marker::Committed.file());
        crate::atomicity::lemma_well_formed_by_names(b, mid);
        lemma_frame_create(a, mid, at, id, Object::File { data: Seq::empty(), mode }, q);
    }
}

/// Once all waves have been applied, every path leads to what the transaction saw.
proof fn lemma_applied_is_seen(
    s: Sources,
    pk: Seq<PathView>,
    dk: Seq<PathView>,
    m: Disk,
    d: Disk,
    tx: TxDir,
    j: JournalView,
    scratch: Set<FileId>,
)
    requires
        underway(s, pk, dk, m, tx, j, scratch),
        waves_applied(m, d, tx, j.plan, j.plan.waves.len() as int),
    ensures
        as_seen(s, d),
{
    let fewer = law_ready_to_go(s, pk, dk, m, tx, j, scratch);
    assert forall|q: PathView| !private_path(q) implies match s.ov.look(s.before, q) {
        Look::Found(x) => #[trigger] d.resolve(q) == Some(object_of(s, x)),
        _ => d.resolve(q) is None,
    } by {
        assert(crate::result::carried_out(s, pk, dk, m, d, tx, j.plan, fewer));
        law_the_tree_is_what_was_seen(s, pk, dk, m, d, d, tx, j.plan, fewer, q);
    }
}

/// A commit makes the tree what was seen. When the plan that a transaction in good order comes to has
/// been carried out from `d`, the disk on which it was compiled, to `b`, every path outside the private
/// area leads to what the transaction saw there: a written path to the file staged for it, a moved one
/// to what was moved.
pub proof fn law_a_commit_makes_the_tree_as_seen(
    ov: OverlayView,
    a: Disk,
    d: Disk,
    b: Disk,
    tx: TxDir,
    blobs: Map<u64, FileId>,
    p: PlanView,
    scratch: Set<FileId>,
) -> (s: Sources)
    requires
        calls_for(ov, a, d, tx, blobs, p),
        carried_out(d, b, tx, p),
        in_good_order(ov, a, tx, blobs),
        no_links_shared(ov, a),
        places_differ(a, p),
        locations_allowed(p, tx.id()),
        p.tokens.len() <= usize::MAX,
        is_transaction(tx.id()),
        d.well_formed(),
        d.steady,
        leaning(d, scratch, own_dirs(d, tx)),
        d.dir_at(tx.at()) matches Some(own) && never_there(d, own, progress_name()),
    ensures
        s.ov == ov,
        s.before == a,
        s.blobs == blobs,
        as_seen(s, b),
{
    let (s, pk, dk) = choose|s: Sources, pk: Seq<PathView>, dk: Seq<PathView>| #[trigger]
        planned(s, pk, dk, p) && s.ov == ov && s.before == a && s.after == d && s.tx == tx.id() && s.blobs == blobs;
    let (m, n, c) = choose|m: Disk, n: Disk, c: Disk|
        #![trigger brought_about(d, m, n, tx, p), marked(n, c, tx, Marker::Committed)]
        brought_about(d, m, n, tx, p) && marked(n, c, tx, Marker::Committed) && c.well_formed() && same_tree(n, c) && put_out(
            c,
            b,
            tx,
        );
    let j = JournalView { format: FORMAT, tx: tx.name@, root: d.shows(d.root), plan: p };
    let own = d.dir_at(tx.at())->0;
    assert(!d.folds) by {
        crate::storage::lemma_compiled_is_sound(s, pk, dk, tx, p);
    }
    crate::storage::lemma_ready_has_grown(d, m, tx, j, own);
    assert(underway(s, pk, dk, m, tx, j, scratch));
    lemma_applied_is_seen(s, pk, dk, m, n, tx, j, scratch);
    assert forall|q: PathView| !private_path(q) implies match s.ov.look(s.before, q) {
        Look::Found(x) => #[trigger] b.resolve(q) == Some(object_of(s, x)),
        _ => b.resolve(q) is None,
    } by {
        assert(b.resolve(q) == c.resolve(q));
        assert(c.resolve(q) == n.resolve(q));
    }
    s
}

/// What a path leads to is as it was where more was made.
proof fn lemma_as_it_was(a: Disk, b: Disk, dirs: Set<FileId>, f: PathView)
    requires
        grown(a, b, dirs),
        !a.folds,
        a.resolve(f) is Some,
    ensures
        b.resolve(f) == a.resolve(f),
        b.objects[a.resolve(f)->0] == a.objects[a.resolve(f)->0],
{
    crate::storage::lemma_grown_resolves(a, b, dirs, f);
    assert(same_kind(a, b, a.resolve(f)->0));
}

/// Applying changes nothing that a path led to before the log was made.
proof fn lemma_not_the_log(d: Disk, m: Disk, n: Disk, tx: TxDir, p: PlanView, own: FileId, f: PathView, scratch: Set<FileId>)
    requires
        grown(d, m, set![own]),
        !d.folds,
        d.resolve(f) is Some,
        d.dir_at(tx.at()) == Some(own),
        !d.names.contains_key(crate::disk::Key { dir: own, name: progress_name() }),
        m.file_at(log_path(tx)) is Some,
        grounded(m, p, tx),
        settled(m, p, scratch),
        waves_applied(m, n, tx, p, p.waves.len() as int),
    ensures
        n.objects[d.resolve(f)->0] == m.objects[d.resolve(f)->0],
{
    let x = d.resolve(f)->0;
    crate::storage::lemma_grown_resolves(d, m, set![own], f);
    crate::storage::lemma_grown_resolves(d, m, set![own], tx.at());
    let log = m.file_at(log_path(tx))->0;
    let k = crate::disk::Key { dir: own, name: progress_name() };
    assert(log_path(tx).drop_last() =~= tx.at());
    assert(m.names.contains_key(k) && m.names[k] == log);
    assert(log != x);
    lemma_waves_data(m, n, tx, p, p.waves.len() as int, log, scratch);
    assert(same_data(m, n, x));
}

/// A commit changes no content. Whatever was on the disk before and is found in the committed tree, files
/// staged by the transaction among it, has the content and the permission bits that it had.
#[verifier::spinoff_prover]
#[verifier::rlimit(60)]
pub proof fn law_a_commit_keeps_content_and_bits(
    ov: OverlayView,
    a: Disk,
    d: Disk,
    b: Disk,
    tx: TxDir,
    blobs: Map<u64, FileId>,
    p: PlanView,
    scratch: Set<FileId>,
    q: PathView,
    f: PathView,
    x: FileId,
)
    requires
        calls_for(ov, a, d, tx, blobs, p),
        carried_out(d, b, tx, p),
        in_good_order(ov, a, tx, blobs),
        no_links_shared(ov, a),
        places_differ(a, p),
        locations_allowed(p, tx.id()),
        p.tokens.len() <= usize::MAX,
        is_transaction(tx.id()),
        d.well_formed(),
        d.steady,
        leaning(d, scratch, own_dirs(d, tx)),
        d.dir_at(tx.at()) matches Some(own) && never_there(d, own, progress_name()),
        !private_path(q),
        b.resolve(q) == Some(x),
        a.resolve(f) == Some(x),
    ensures
        b.objects[x] == a.objects[x],
{
    let (s, pk, dk) = choose|s: Sources, pk: Seq<PathView>, dk: Seq<PathView>| #[trigger]
        planned(s, pk, dk, p) && s.ov == ov && s.before == a && s.after == d && s.tx == tx.id() && s.blobs == blobs;
    let (m, n, c) = choose|m: Disk, n: Disk, c: Disk|
        #![trigger brought_about(d, m, n, tx, p), marked(n, c, tx, Marker::Committed)]
        brought_about(d, m, n, tx, p) && marked(n, c, tx, Marker::Committed) && c.well_formed() && same_tree(n, c) && put_out(
            c,
            b,
            tx,
        );
    let j = JournalView { format: FORMAT, tx: tx.name@, root: d.shows(d.root), plan: p };
    let own = d.dir_at(tx.at())->0;
    lemma_compiled_is_sound(s, pk, dk, tx, p);
    crate::storage::lemma_ready_has_grown(d, m, tx, j, own);
    assert(underway(s, pk, dk, m, tx, j, scratch));
    let fewer = law_ready_to_go(s, pk, dk, m, tx, j, scratch);
    let dir = a.dir_at(s.staged())->0;
    assert(d.resolve(f) == Some(x) && d.objects[x] == a.objects[x]) by {
        lemma_as_it_was(a, d, set![dir], f);
    }
    assert(m.objects[x] == d.objects[x]) by {
        lemma_as_it_was(d, m, set![own], f);
    }
    assert(n.objects[x] == m.objects[x]) by {
        lemma_not_the_log(d, m, n, tx, p, own, f, fewer);
    }
    assert(c.resolve(q) == b.resolve(q) && n.resolve(q) == c.resolve(q));
}

/// After, once marked. Once the marker that says that a transaction in good order is committed is
/// set, whatever cuts it off, the next recovery removes the leftovers, without fail; and then every
/// path outside the private area leads to what the transaction saw there.
pub proof fn law_committed_means_as_seen(
    s: Sources,
    pk: Seq<PathView>,
    dk: Seq<PathView>,
    m: Disk,
    d: Disk,
    c: Disk,
    e: Disk,
    f: Disk,
    tx: TxDir,
    j: JournalView,
    o: Outcome,
    scratch: Set<FileId>,
)
    requires
        underway(s, pk, dk, m, tx, j, scratch),
        waves_applied(m, d, tx, j.plan, j.plan.waves.len() as int),
        marked(d, c, tx, Marker::Committed),
        c.well_formed(),
        same_tree(d, c),
        cut_off(c, e),
        recovery_step(e, f, tx.name, o),
    ensures
        o == Outcome::Completed,
        as_seen(s, c),
        as_seen(s, e),
        as_seen(s, f),
{
    let fewer = law_ready_to_go(s, pk, dk, m, tx, j, scratch);
    let p = j.plan;
    assert(TxDir { name: tx.name } == tx);
    law_committed_means_after(m, d, c, e, f, tx, p, o, fewer);
    lemma_own_untouched(m, d, tx, p, fewer, Marker::RollingBack.file());
    lemma_own_untouched(m, d, tx, p, fewer, Marker::RolledBack.file());
    lemma_other_markers(d, c, tx, Marker::RollingBack);
    lemma_other_markers(d, c, tx, Marker::RolledBack);
    assert(!(has(m, tx, Marker::RollingBack)) && !(has(m, tx, Marker::RolledBack)));
    assert(forall|q: PathView| #[trigger] e.resolve(q) == c.resolve(q)) by {
        crate::verdict::lemma_marked_stays(m, d, c, e, tx, p, fewer);
    }
    if o == Outcome::Refused {
        let reason = choose|reason: Reason| #[trigger] refused_for(e, tx, reason);
        if decided(e, tx, Decision::Required(reason)) {
            law_committed_is_never_undone(m, d, c, e, tx, p, Decision::Required(reason), fewer);
        } else {
            let found = choose|found: Box<crate::journal::Journal>| #[trigger]
                decided(e, tx, Decision::RollBack(found)) && forall|pos: Seq<Pos>|
                    !crate::recover::cleared(e, tx, found@.plan, pos);
            law_committed_is_never_undone(m, d, c, e, tx, p, Decision::RollBack(found), fewer);
        }
    }
    lemma_applied_is_seen(s, pk, dk, m, d, tx, j, scratch);
    assert forall|q: PathView| !private_path(q) implies match s.ov.look(s.before, q) {
        Look::Found(x) => #[trigger] c.resolve(q) == Some(object_of(s, x)),
        _ => c.resolve(q) is None,
    } by {
        assert(c.resolve(q) == d.resolve(q));
    }
    assert(as_seen(s, c));
    assert forall|q: PathView| !private_path(q) implies match s.ov.look(s.before, q) {
        Look::Found(x) => #[trigger] e.resolve(q) == Some(object_of(s, x)),
        _ => e.resolve(q) is None,
    } by {
        assert(e.resolve(q) == c.resolve(q));
    }
    assert forall|q: PathView| !private_path(q) implies match s.ov.look(s.before, q) {
        Look::Found(x) => #[trigger] f.resolve(q) == Some(object_of(s, x)),
        _ => f.resolve(q) is None,
    } by {
        assert(f.resolve(q) == c.resolve(q));
        assert(c.resolve(q) == d.resolve(q));
    }
}

} // verus!
