//! Recovery: decide, classify, stabilize, undo.
//!
//! * **Shape check**: there must be a wave `w` with all earlier steps done and all later
//!   steps not done.
//! * **Stabilize** syncs every directory involved before the first mutation, so the observed
//!   state is the durable state; from then on only backward moves happen, and the potential
//!   can only decrease.
//! * **Undo** runs the waves in reverse with the same barrier discipline as apply.
use vstd::prelude::*;
use vstd::utf8::{encode_utf8, valid_utf8};

use crate::bytes::{begins_with, lemma_name_lt_total, lemma_name_lt_transitive, name_lt, Name};
use crate::bytes::{name_before, starts_with};
use crate::classify::{classify, lemma_located_is_seated, located, no_root_location, reachable, token_pos};
use crate::disk::{Disk, FileId, Key, Object};
use crate::error::{Error, IoError, IoErrorKind, IoResult, Reason, Result};
use crate::hex::text_bytes;
use crate::journal::{admissible, journal_in, location_allowed, locations_allowed, rejected_for};
use crate::journal::{decode, Journal};
use crate::moves::{steps_lead_away, ids_distinct, rearranged, seated, undo_on_disk};
use crate::moves::{lemma_not_rearranged, lemma_rearranged_by_names, lemma_seated_after_additions, lemma_undo_step};
use crate::path::{parent_of, private_name, private_path, views, PathView, RelPath};
use crate::plan::{LocView, Plan, PlanView, Step};
use crate::positions::{
    after_undo, check_progress, check_shape, decide_undo, has_shape, law_undo_lowers_the_potential, lemma_all_untouched,
    lemma_undo_one, log_agrees, positions_fit, potential, state_at, undo_action, undo_steps, undo_waves, undone_to,
    wave_untouched, Pos,
    StepState, UndoAction,
};
use crate::progress::{encode, parse, record_bytes, records_from, Record};
use crate::state::{backup_name, gc_prefix_name, journal_name, made_marker, marked, private_root, probe_prefix_name, progress_name, staged_name, tx_prefix_name};
use crate::state::{delete_tree, gc_prefix_bytes, private_dir, probe_prefix_bytes, tx_prefix_bytes, Marker, TxDir};
use crate::text::{string_bytes, utf8_string};
use crate::caps::nothing_left;
use crate::tree::{alike, alike_paths, goes_through, linked, pruned_below, same_tree};
use crate::tree::{
    lemma_lookup, lemma_frame_move, lemma_frame_remove, lemma_pruned_above, lemma_resolve_key, lemma_same_content, lemma_same_tree_transitive, lemma_way_beside,
    lemma_way_to,
};
use crate::vfs::{
    appended_at, created_at, dir_synced_at, file_synced_at, free_at, lists, movable, removable, same_volume, way_clear, Vfs,
};

verus! {

/// `a` after the directories in `dirs` have been synced, in that order.
pub open spec fn synced_all(a: Disk, dirs: Seq<FileId>) -> Disk
    decreases dirs.len(),
{
    if dirs.len() == 0 {
        a
    } else {
        synced_all(a, dirs.drop_last()).dir_synced(dirs.last())
    }
}

/// Syncing changes what is durable and nothing else.
pub open spec fn only_synced(a: Disk, b: Disk) -> bool {
    b == (Disk { durable: b.durable, pending: b.pending, ..a })
}

/// `b` is `a` after some directories have been synced.
pub open spec fn some_synced(a: Disk, b: Disk) -> bool {
    exists|dirs: Seq<FileId>| b == #[trigger] synced_all(a, dirs)
}

/// Syncing directories changes what is durable and nothing else.
pub proof fn lemma_synced_all(a: Disk, dirs: Seq<FileId>)
    ensures
        only_synced(a, synced_all(a, dirs)),
    decreases dirs.len(),
{
    if dirs.len() > 0 {
        lemma_synced_all(a, dirs.drop_last());
    }
}

proof fn lemma_synced_one_more(a: Disk, dirs: Seq<FileId>, d: FileId)
    ensures
        synced_all(a, dirs.push(d)) == synced_all(a, dirs).dir_synced(d),
{
    assert(dirs.push(d).drop_last() =~= dirs);
}

/// The location's parent resolves to the recorded directory, and that is among `dirs`, or it
/// does not resolve to it.
pub open spec fn parent_covered(a: Disk, l: LocView, dirs: Seq<FileId>) -> bool {
    a.dir_shows(parent_of(l.path), l.parent) ==> dirs.contains(a.dir_at(parent_of(l.path))->0)
}

/// `b` is `a` after the parents of the given locations have been synced, where they resolve
/// to the recorded directories.
pub open spec fn parents_synced(a: Disk, b: Disk, locs: Set<LocView>) -> bool {
    exists|dirs: Seq<FileId>|
        b == #[trigger] synced_all(a, dirs) && forall|l: LocView| #[trigger]
            locs.contains(l) ==> parent_covered(a, l, dirs)
}

/// What has been synced so far: the directories, by path and by identity.
spec fn sync_state(a: Disk, now: Disk, done: Seq<RelPath>, dirs: Seq<FileId>) -> bool {
    &&& now == synced_all(a, dirs)
    &&& forall|i: int|
        0 <= i < done.len() ==> (a.dir_at((#[trigger] done[i])@) matches Some(d) && dirs.contains(d))
}

/// Whether the path is among those listed.
fn listed(done: &Vec<RelPath>, p: &RelPath) -> (r: bool)
    ensures
        r <==> exists|i: int| 0 <= i < done@.len() && (#[trigger] done@[i])@ == p@,
{
    let n = done.len();
    let mut i: usize = 0;
    while i < n
        invariant
            i <= n,
            n == done@.len(),
            forall|k: int| 0 <= k < i ==> (#[trigger] done@[k])@ != p@,
        decreases n - i,
    {
        if done[i].same(p) {
            return true;
        }
        i = i + 1;
    }
    false
}

/// What reports the identity recorded for the parent of `path`, and is where the parent would
/// be, is a directory.
pub open spec fn in_order(d: Disk, path: PathView, expect: FileId) -> bool {
    d.resolve(parent_of(path)) matches Some(id) ==> (d.shows(id) == expect ==> d.is_dir(id))
}

/// Syncs the parent directory of `path` if it resolves to the journaled identity.
/// An unresolvable parent means an ancestor token is elsewhere, which by wave ordering
/// implies this location's changes are already durable or never happened.
fn sync_parent<V: Vfs>(
    vfs: &mut V,
    path: &RelPath,
    expect: FileId,
    done: &mut Vec<RelPath>,
    Ghost(a): Ghost<Disk>,
    Ghost(dirs): Ghost<Seq<FileId>>,
) -> (r: (IoResult<()>, Ghost<Seq<FileId>>))
    requires
        old(vfs).valid(),
        sync_state(a, old(vfs).disk(), old(done)@, dirs),
    ensures
        final(vfs).valid(),
        sync_state(a, final(vfs).disk(), final(done)@, r.1@),
        forall|d: FileId| #[trigger] dirs.contains(d) ==> r.1@.contains(d),
        r.0 is Ok ==> parent_covered(a, (LocView { path: path@, parent: expect }), r.1@),
        old(vfs).serves() && way_clear(a, parent_of(path@)) && in_order(a, path@, expect) ==> r.0 is Ok,
        old(vfs).serves() ==> final(vfs).serves() && final(vfs).room() >= old(vfs).room(),
{
    let parent = path.parent_or_root();
    proof {
        lemma_synced_all(a, dirs);
        lemma_same_content(a, vfs.disk());
    }
    if listed(done, &parent) {
        return (Ok(()), Ghost(dirs));
    }
    proof {
        assert(forall|q: PathView| (#[trigger] vfs.disk().resolve(q)) == a.resolve(q));
        assert(vfs.disk().objects == a.objects && vfs.disk().shown == a.shown && vfs.disk().steady == a.steady);
        assert(way_clear(a, parent@) ==> way_clear(vfs.disk(), parent@));
    }
    let here = match vfs.stat(&parent) {
        Ok(x) => x,
        Err(e) => return (Err(e), Ghost(dirs)),
    };
    match here {
        Some(m) => {
            if m.id == expect {
                match vfs.sync_dir(&parent) {
                    Ok(_) => {},
                    Err(e) => return (Err(e), Ghost(dirs)),
                }
                let ghost d = a.dir_at(parent@)->0;
                let ghost more = dirs.push(d);
                proof {
                    lemma_synced_one_more(a, dirs, d);
                    assert(more.last() == d);
                    assert(more.contains(d)) by {
                        assert(more[more.len() - 1] == d);
                    }
                    assert forall|x: FileId| #[trigger] dirs.contains(x) implies more.contains(x) by {
                        let i = choose|i: int| 0 <= i < dirs.len() && dirs[i] == x;
                        assert(more[i] == x);
                    }
                }
                done.push(parent);
                return (Ok(()), Ghost(more));
            }
        },
        None => {},
    }
    (Ok(()), Ghost(dirs))
}

/// Both ends of the steps of a wave.
pub open spec fn wave_ends(p: PlanView, wave: Seq<Step>) -> Set<LocView> {
    Set::new(|l: LocView| exists|i: int| 0 <= i < wave.len() && p.is_endpoint(#[trigger] wave[i], l))
}

/// The parent of the location can be looked at, and synced if it is the recorded one.
pub open spec fn approachable(d: Disk, l: LocView) -> bool {
    way_clear(d, parent_of(l.path)) && in_order(d, l.path, l.parent)
}

/// Barrier for one wave: syncs every parent of every endpoint.
pub fn barrier<V: Vfs>(vfs: &mut V, plan: &Plan, w: usize) -> (r: IoResult<()>)
    requires
        old(vfs).valid(),
        plan@.steps_in_range(),
        w < plan@.waves.len(),
    ensures
        final(vfs).valid(),
        same_volume(old(vfs).disk(), final(vfs).disk()),
        only_synced(old(vfs).disk(), final(vfs).disk()),
        some_synced(old(vfs).disk(), final(vfs).disk()),
        r is Ok ==> parents_synced(
            old(vfs).disk(),
            final(vfs).disk(),
            wave_ends(plan@, plan@.waves[w as int]),
        ),
        old(vfs).serves() && (forall|l: LocView| #[trigger]
            wave_ends(plan@, plan@.waves[w as int]).contains(l) ==> approachable(old(vfs).disk(), l)) ==> r is Ok,
        old(vfs).serves() ==> final(vfs).serves() && final(vfs).room() >= old(vfs).room(),
{
    let ghost p = plan@;
    let ghost a = vfs.disk();
    let wave = &plan.waves[w];
    assert(p.waves[w as int] == wave@);
    let mut done: Vec<RelPath> = Vec::new();
    let ghost mut dirs = Seq::<FileId>::empty();
    let n = wave.len();
    let mut i: usize = 0;
    assert(synced_all(a, dirs) == a);
    proof {
        lemma_synced_all(a, dirs);
    }
    while i < n
        invariant
            i <= n,
            n == wave@.len(),
            p == plan@,
            w < p.waves.len(),
            p.waves[w as int] == wave@,
            p.steps_in_range(),
            vfs.valid(),
            a == old(vfs).disk(),
            sync_state(a, vfs.disk(), done@, dirs),
            old(vfs).serves() ==> vfs.serves() && vfs.room() >= old(vfs).room(),
            forall|k: int, l: LocView|
                0 <= k < i && #[trigger] p.is_endpoint(wave@[k], l) ==> parent_covered(a, l, dirs),
        decreases n - i,
    {
        let s = wave[i];
        assert(p.has(w as int, i as int) && p.waves[w as int][i as int] == s);
        let src = plan.src(s);
        let dst = plan.dst(s);
        let ghost before = dirs;
        proof {
            assert(p.src(s) == (LocView { path: src.path@, parent: src.parent }));
            assert(p.dst(s) == (LocView { path: dst.path@, parent: dst.parent }));
            assert(p.is_endpoint(wave@[i as int], p.src(s)) && p.is_endpoint(wave@[i as int], p.dst(s)));
            assert(wave_ends(p, wave@).contains(p.src(s)) && wave_ends(p, wave@).contains(p.dst(s)));
        }
        let (r, more) = sync_parent(vfs, &src.path, src.parent, &mut done, Ghost(a), Ghost(dirs));
        proof {
            dirs = more@;
            lemma_synced_all(a, dirs);
        }
        match r {
            Ok(_) => {},
            Err(e) => return Err(e),
        }
        let ghost mid = dirs;
        let (r, more) = sync_parent(vfs, &dst.path, dst.parent, &mut done, Ghost(a), Ghost(dirs));
        proof {
            dirs = more@;
            lemma_synced_all(a, dirs);
        }
        match r {
            Ok(_) => {},
            Err(e) => return Err(e),
        }
        proof {
            assert(p.src(s) == (LocView { path: src.path@, parent: src.parent }));
            assert(p.dst(s) == (LocView { path: dst.path@, parent: dst.parent }));
            assert forall|k: int, l: LocView| 0 <= k < i + 1 && #[trigger] p.is_endpoint(wave@[k], l) implies parent_covered(
                a,
                l,
                dirs,
            ) by {
                if k < i {
                    assert(parent_covered(a, l, before));
                }
            }
        }
        i = i + 1;
    }
    proof {
        lemma_synced_all(a, dirs);
        assert forall|l: LocView| #[trigger] wave_ends(p, wave@).contains(l) implies parent_covered(a, l, dirs) by {
            let k = choose|k: int| 0 <= k < wave@.len() && p.is_endpoint(#[trigger] wave@[k], l);
            assert(p.is_endpoint(wave@[k], l));
        }
    }
    Ok(())
}

/// All locations of all tokens.
pub open spec fn all_locations(p: PlanView) -> Set<LocView> {
    Set::new(
        |l: LocView|
            exists|t: int, i: int|
                0 <= t < p.tokens.len() && 0 <= i < p.tokens[t].locs.len() && #[trigger] p.tokens[t].locs[i] == l,
    )
}

/// Nothing stands in the way of making the observed state durable: the parents of all locations
/// can be looked at, and what is at the transaction's own places are directories.
pub open spec fn can_stabilize(d: Disk, tx: TxDir, p: PlanView) -> bool {
    &&& forall|l: LocView| #[trigger] all_locations(p).contains(l) ==> approachable(d, l)
    &&& d.dir_at(tx.at()) is Some
    &&& d.resolve(tx.at().push(staged_name())) is Some ==> d.dir_at(tx.at().push(staged_name())) is Some
    &&& d.resolve(tx.at().push(backup_name())) is Some ==> d.dir_at(tx.at().push(backup_name())) is Some
}

/// Makes the observed state durable: syncs the parents of all locations, and the directories
/// of the transaction itself.
fn stabilize<V: Vfs>(vfs: &mut V, tx: &TxDir, plan: &Plan) -> (r: IoResult<()>)
    requires
        old(vfs).valid(),
    ensures
        final(vfs).valid(),
        same_volume(old(vfs).disk(), final(vfs).disk()),
        only_synced(old(vfs).disk(), final(vfs).disk()),
        some_synced(old(vfs).disk(), final(vfs).disk()),
        r is Ok ==> parents_synced(old(vfs).disk(), final(vfs).disk(), all_locations(plan@)),
        old(vfs).serves() && can_stabilize(old(vfs).disk(), *tx, plan@) ==> r is Ok,
        old(vfs).serves() ==> final(vfs).serves() && final(vfs).room() >= old(vfs).room(),
{
    let ghost p = plan@;
    let ghost a = vfs.disk();
    let mut done: Vec<RelPath> = Vec::new();
    let ghost mut dirs = Seq::<FileId>::empty();
    assert(synced_all(a, dirs) == a);
    proof {
        lemma_synced_all(a, dirs);
    }
    let n = plan.tokens.len();
    let mut t: usize = 0;
    while t < n
        invariant
            t <= n,
            n == p.tokens.len(),
            p == plan@,
            vfs.valid(),
            a == old(vfs).disk(),
            sync_state(a, vfs.disk(), done@, dirs),
            old(vfs).serves() ==> vfs.serves() && vfs.room() >= old(vfs).room(),
            forall|u: int, i: int|
                #![trigger p.tokens[u].locs[i]]
                0 <= u < t && 0 <= i < p.tokens[u].locs.len() ==> parent_covered(a, p.tokens[u].locs[i], dirs),
        decreases n - t,
    {
        let tok = &plan.tokens[t];
        assert(p.tokens[t as int] == tok@);
        let m = tok.locs.len();
        let mut i: usize = 0;
        while i < m
            invariant
                i <= m,
                m == tok.locs@.len(),
                t < n,
                n == p.tokens.len(),
                p == plan@,
                p.tokens[t as int] == tok@,
                vfs.valid(),
                a == old(vfs).disk(),
                sync_state(a, vfs.disk(), done@, dirs),
            old(vfs).serves() ==> vfs.serves() && vfs.room() >= old(vfs).room(),
                forall|u: int, i: int|
                    #![trigger p.tokens[u].locs[i]]
                    0 <= u < t && 0 <= i < p.tokens[u].locs.len() ==> parent_covered(a, p.tokens[u].locs[i], dirs),
                forall|k: int|
                    0 <= k < i ==> parent_covered(a, #[trigger] p.tokens[t as int].locs[k], dirs),
            decreases m - i,
        {
            let loc = &tok.locs[i];
            assert(p.tokens[t as int].locs[i as int] == loc@);
            let ghost before = dirs;
            assert(all_locations(p).contains(p.tokens[t as int].locs[i as int]));
            let (r, more) = sync_parent(vfs, &loc.path, loc.parent, &mut done, Ghost(a), Ghost(dirs));
            proof {
                dirs = more@;
                lemma_synced_all(a, dirs);
                assert(forall|l: LocView| parent_covered(a, l, before) ==> #[trigger] parent_covered(a, l, dirs));
            }
            match r {
                Ok(_) => {},
                Err(e) => return Err(e),
            }
            i = i + 1;
        }
        t = t + 1;
    }
    let mut own: Vec<RelPath> = Vec::new();
    own.push(tx.staged());
    own.push(tx.backup());
    own.push(tx.dir());
    own.push(private_dir());
    proof {
        assert(tx.at().push(staged_name()).drop_last() =~= tx.at());
        assert(tx.at().push(backup_name()).drop_last() =~= tx.at());
        assert(tx.at().drop_last() =~= private_root());
        if can_stabilize(a, *tx, p) {
            lemma_way_to(a, tx.at());
            lemma_way_to(a, private_root());
            lemma_way_to(a, tx.at().push(staged_name()));
            lemma_way_to(a, tx.at().push(backup_name()));
        }
    }
    let mut k: usize = 0;
    while k < 4
        invariant
            k <= 4,
            own@.len() == 4,
            can_stabilize(a, *tx, p) ==> forall|i: int|
                0 <= i < 4 ==> way_clear(a, (#[trigger] own@[i])@) && (a.resolve(own@[i]@) is Some ==> a.dir_at(own@[i]@) is Some),
            p == plan@,
            vfs.valid(),
            a == old(vfs).disk(),
            sync_state(a, vfs.disk(), done@, dirs),
            old(vfs).serves() ==> vfs.serves() && vfs.room() >= old(vfs).room(),
            forall|u: int, i: int|
                #![trigger p.tokens[u].locs[i]]
                0 <= u < p.tokens.len() && 0 <= i < p.tokens[u].locs.len() ==> parent_covered(
                    a,
                    p.tokens[u].locs[i],
                    dirs,
                ),
        decreases 4 - k,
    {
        let d = &own[k];
        proof {
            lemma_synced_all(a, dirs);
            lemma_same_content(a, vfs.disk());
        }
        if !listed(&done, d) {
            proof {
                assert(forall|q: PathView| (#[trigger] vfs.disk().resolve(q)) == a.resolve(q));
                assert(vfs.disk().objects == a.objects);
                assert(way_clear(a, d@) ==> way_clear(vfs.disk(), d@));
            }
            let here = match vfs.stat(d) {
                Ok(x) => x,
                Err(e) => return Err(e),
            };
            if here.is_some() {
                match vfs.sync_dir(d) {
                    Ok(_) => {},
                    Err(e) => return Err(e),
                }
                proof {
                    let x = a.dir_at(d@)->0;
                    lemma_synced_one_more(a, dirs, x);
                    let more = dirs.push(x);
                    assert forall|y: FileId| #[trigger] dirs.contains(y) implies more.contains(y) by {
                        let i = choose|i: int| 0 <= i < dirs.len() && dirs[i] == y;
                        assert(more[i] == y);
                    }
                    let before = dirs;
                    dirs = more;
                    assert(forall|l: LocView| parent_covered(a, l, before) ==> #[trigger] parent_covered(a, l, dirs));
                }
            }
        }
        k = k + 1;
    }
    proof {
        lemma_synced_all(a, dirs);
    }
    Ok(())
}

/// The file `id` is the same in both states, and as durable.
pub open spec fn same_data(a: Disk, b: Disk, id: FileId) -> bool {
    &&& b.objects[id] == a.objects[id]
    &&& b.dirty.contains(id) == a.dirty.contains(id)
    &&& b.saved.contains_key(id) == a.saved.contains_key(id)
    &&& a.saved.contains_key(id) ==> b.saved[id] == a.saved[id]
}

/// `b` is `a` but for the content of the file at `p`.
pub open spec fn only_log_changed(a: Disk, b: Disk, p: PathView) -> bool {
    &&& b == (Disk { objects: b.objects, saved: b.saved, dirty: b.dirty, ..a })
    &&& b.objects.dom() == a.objects.dom()
    &&& forall|id: FileId| a.file_at(p) != Some(id) ==> #[trigger] same_data(a, b, id)
    &&& forall|id: FileId| #[trigger]
        a.objects.contains_key(id) ==> b.objects[id].kind() == a.objects[id].kind() && (a.file_at(p) != Some(id)
            ==> b.objects[id] == a.objects[id])
}

/// `b` is `a` after a record has been appended to the log of `tx`, durably.
pub open spec fn logged(a: Disk, b: Disk, tx: TxDir, r: Record) -> bool {
    exists|mid: Disk| #[trigger]
        appended_at(a, mid, tx.at().push(progress_name()), record_bytes(r)) && file_synced_at(
            mid,
            b,
            tx.at().push(progress_name()),
        )
}

/// Appending to a file and syncing it changes that file and nothing else.
pub proof fn lemma_appended(a: Disk, mid: Disk, b: Disk, p: PathView, data: Seq<u8>)
    requires
        appended_at(a, mid, p, data),
        b == mid || file_synced_at(mid, b, p),
    ensures
        only_log_changed(a, b, p),
{
    crate::tree::lemma_append_names(a, mid, p, data);
    assert(mid.resolve(p) == a.resolve(p));
    assert(b.objects.dom() =~= a.objects.dom());
    assert forall|id: FileId| a.file_at(p) != Some(id) implies #[trigger] same_data(a, b, id) by {}
}

/// Appends a record to the progress log and makes it durable.
pub fn append_progress<V: Vfs>(vfs: &mut V, tx: &TxDir, r: Record) -> (res: IoResult<()>)
    requires
        old(vfs).valid(),
    ensures
        final(vfs).valid(),
        same_volume(old(vfs).disk(), final(vfs).disk()),
        only_log_changed(old(vfs).disk(), final(vfs).disk(), tx.at().push(progress_name())),
        res is Ok ==> logged(old(vfs).disk(), final(vfs).disk(), *tx, r),
        old(vfs).serves() && old(vfs).disk().file_at(tx.at().push(progress_name())) is Some ==> res is Ok,
        old(vfs).serves() ==> final(vfs).serves() && final(vfs).room() >= old(vfs).room(),
{
    let ghost a = vfs.disk();
    let path = tx.progress();
    let bytes = encode(r);
    let appended = vfs.append(&path, &bytes);
    let ghost mid = vfs.disk();
    match appended {
        Ok(_) => {},
        Err(e) => {
            proof {
                if mid != a {
                    let part = choose|part: Seq<u8>| #[trigger] appended_at(a, mid, path@, part);
                    lemma_appended(a, mid, mid, path@, part);
                }
            }
            return Err(e);
        },
    }
    proof {
        crate::tree::lemma_append_names(a, mid, path@, record_bytes(r));
        assert(mid.resolve(path@) == a.resolve(path@));
    }
    let synced = vfs.sync_file(&path);
    proof {
        lemma_appended(a, mid, vfs.disk(), path@, record_bytes(r));
    }
    synced
}

/// The records in the log of `tx`.
pub open spec fn log_of(d: Disk, tx: TxDir) -> Seq<Record> {
    match d.file_at(tx.at().push(progress_name())) {
        Some(id) => records_from(d.objects[id]->data, 0),
        None => Seq::empty(),
    }
}

/// The log of `tx` can be read: the way to it is clear, and it is a regular file if it is there.
pub open spec fn log_legible(d: Disk, tx: TxDir) -> bool {
    let log = tx.at().push(progress_name());
    way_clear(d, log) && (d.resolve(log) is Some ==> d.file_at(log) is Some)
}

/// Reads the progress log; a log that does not exist is empty.
fn read_progress<V: Vfs>(vfs: &V, tx: &TxDir) -> (r: IoResult<Vec<Record>>)
    requires
        vfs.valid(),
    ensures
        r matches Ok(recs) ==> recs@ == log_of(vfs.disk(), *tx),
        vfs.serves() && log_legible(vfs.disk(), *tx) ==> r is Ok,
{
    let path = tx.progress();
    let here = match vfs.stat(&path) {
        Ok(x) => x,
        Err(e) => return Err(e),
    };
    if here.is_none() {
        return Ok(Vec::new());
    }
    match vfs.read_file(&path) {
        Ok(data) => Ok(parse(&data)),
        Err(e) => Err(e),
    }
}

/// The error for a transaction that cannot be recovered.
pub fn required(tx: &TxDir, reason: Reason) -> (r: Error)
    ensures
        r matches Error::RecoveryRequired { tx: name, reason: why } && name@ == tx.name@ && why == reason,
{
    Error::RecoveryRequired { tx: tx.name.clone(), reason }
}

/// Every token is where `pos` says, the positions have the shape that a crash can leave, and
/// they agree with the progress log.
pub open spec fn cleared(d: Disk, tx: TxDir, p: PlanView, pos: Seq<Pos>) -> bool {
    &&& pos.len() == p.tokens.len()
    &&& forall|t: int| 0 <= t < pos.len() ==> token_pos(d, p, t) == Some(#[trigger] pos[t])
    &&& has_shape(p, pos)
    &&& log_agrees(p, log_of(d, tx), pos)
}

/// What is looked at before rolling back can be looked at.
pub open spec fn can_look(d: Disk, tx: TxDir, p: PlanView) -> bool {
    log_legible(d, tx) && forall|t: int| 0 <= t < p.tokens.len() ==> #[trigger] reachable(d, p, t)
}

/// Classification, shape and progress checks. No mutation.
pub fn preflight<V: Vfs>(vfs: &V, tx: &TxDir, j: &Journal) -> (r: Result<Vec<Pos>>)
    requires
        vfs.valid(),
        j@.plan.steps_in_range(),
    ensures
        r matches Ok(pos) ==> cleared(vfs.disk(), *tx, j@.plan, pos@),
        r matches Err(e) ==> match e {
            Error::RecoveryRequired { tx: name, .. } => name@ == tx.name@ && forall|pos: Seq<Pos>|
                !cleared(vfs.disk(), *tx, j@.plan, pos),
            Error::Io(_) => true,
            _ => false,
        },
        vfs.serves() && can_look(vfs.disk(), *tx, j@.plan) ==> !(r matches Err(Error::Io(_))),
{
    let ghost p = j@.plan;
    let ghost d = vfs.disk();
    let classes = match classify(vfs, &j.plan) {
        Ok(x) => x,
        Err(e) => return Err(Error::Io(e)),
    };
    let mut classes = classes;
    let n = classes.len();
    let ghost all = classes@;
    let mut pos: Vec<Pos> = Vec::new();
    let mut t: usize = 0;
    while t < n
        invariant
            t <= n,
            n == p.tokens.len(),
            p == j@.plan,
            d == vfs.disk(),
            classes@.len() == n - t,
            classes@ == all.skip(t as int),
            all.len() == n,
            forall|u: int| 0 <= u < n ==> located(d, p, u, #[trigger] all[u]),
            pos@.len() == t,
            forall|u: int| 0 <= u < t ==> token_pos(d, p, u) == Some(#[trigger] pos@[u]),
        decreases n - t,
    {
        let c = classes.remove(0);
        assert(c == all[t as int]);
        assert(located(d, p, t as int, all[t as int]));
        assert(classes@ =~= all.skip(t + 1));
        match c {
            Ok(x) => {
                pos.push(x);
            },
            Err(e) => {
                proof {
                    assert forall|q: Seq<Pos>| !cleared(d, *tx, p, q) by {
                        if cleared(d, *tx, p, q) {
                            assert(token_pos(d, p, t as int) == Some(q[t as int]));
                        }
                    }
                }
                return Err(required(tx, e));
            },
        }
        t = t + 1;
    }
    proof {
        assert forall|q: Seq<Pos>| cleared(d, *tx, p, q) implies q == pos@ by {
            assert forall|u: int| 0 <= u < n implies q[u] == pos@[u] by {
                assert(token_pos(d, p, u) == Some(q[u]));
                assert(token_pos(d, p, u) == Some(pos@[u]));
            }
            assert(q =~= pos@);
        }
    }
    match check_shape(&j.plan, &pos) {
        Ok(_) => {},
        Err(e) => return Err(required(tx, e)),
    }
    let recs = match read_progress(vfs, tx) {
        Ok(x) => x,
        Err(e) => return Err(Error::Io(e)),
    };
    match check_progress(&j.plan, &recs, &pos) {
        Ok(_) => {},
        Err(e) => return Err(required(tx, e)),
    }
    Ok(pos)
}

/// The log of `tx`.
pub open spec fn log_path(tx: TxDir) -> PathView {
    tx.at().push(progress_name())
}

/// A location that is allowed in a journal is not on the way to the transaction's log.
proof fn lemma_location_off_log(d: Disk, l: PathView, tx: TxDir)
    requires
        location_allowed(l, tx.id()),
    ensures
        !goes_through(d, log_path(tx), l),
{
    let q = log_path(tx);
    if goes_through(d, q, l) {
        let j = choose|j: int| 0 < j <= q.len() && alike_paths(d, l, #[trigger] q.take(j));
        crate::state::lemma_private_name();
        assert(q.take(j)[0] == q[0]);
        assert(q[0] == private_name());
        assert(alike(d, l[0], q.take(j)[0]));
        assert(private_path(l));
    }
}

/// Identities tell tokens and directories apart.
pub open spec fn tame(d: Disk, p: PlanView) -> bool {
    d.steady && ids_distinct(p) && steps_lead_away(d, p)
}

/// Nothing but the log of `tx` has changed its content, and the log is where it was.
pub open spec fn kept(a: Disk, b: Disk, tx: TxDir) -> bool {
    &&& b.file_at(log_path(tx)) == a.file_at(log_path(tx))
    &&& b.objects.dom() == a.objects.dom()
    &&& forall|id: FileId| #[trigger]
        a.objects.contains_key(id) ==> b.objects[id].kind() == a.objects[id].kind() && (a.file_at(log_path(tx))
            != Some(id) ==> b.objects[id] == a.objects[id])
}

/// Undoing has brought the tokens from `from` to `now`, and has changed nothing else but the
/// log.
pub open spec fn going(a: Disk, b: Disk, tx: TxDir, p: PlanView, from: Seq<Pos>, now: Seq<Pos>) -> bool {
    &&& a.well_formed()
    &&& b.well_formed()
    &&& same_volume(a, b)
    &&& kept(a, b, tx)
    &&& potential(now) <= potential(from)
    &&& tame(a, p) ==> rearranged(a, b, p, from, now)
}

/// The first `n` steps of a wave have been undone, the tokens having been at `pos`.
pub open spec fn steps_undone(a: Disk, b: Disk, p: PlanView, pos: Seq<Pos>, wave: Seq<Step>, n: int) -> bool
    decreases n,
{
    if n <= 0 {
        b == a
    } else {
        exists|m: Disk|
            steps_undone(a, m, p, pos, wave, n - 1) && #[trigger] undo_on_disk(
                m,
                b,
                p,
                wave[n - 1],
                undo_steps(pos, wave, n - 1)[wave[n - 1].token as int],
            )
    }
}

/// One more step undone.
proof fn lemma_one_more_undone(a: Disk, m: Disk, b: Disk, p: PlanView, pos: Seq<Pos>, wave: Seq<Step>, n: int)
    requires
        0 <= n,
        steps_undone(a, m, p, pos, wave, n),
        undo_on_disk(m, b, p, wave[n], undo_steps(pos, wave, n)[wave[n].token as int]),
    ensures
        steps_undone(a, b, p, pos, wave, n + 1),
{
    reveal_with_fuel(steps_undone, 2);
    assert(undo_on_disk(m, b, p, wave[(n + 1) - 1], undo_steps(pos, wave, (n + 1) - 1)[wave[(n + 1) - 1].token as int]));
}

/// All steps of wave `w` have been undone and that made durable.
pub open spec fn wave_reverted(a: Disk, b: Disk, p: PlanView, pos: Seq<Pos>, w: int) -> bool {
    exists|m: Disk| #[trigger]
        steps_undone(a, m, p, pos, p.waves[w], p.waves[w].len() as int) && parents_synced(m, b, wave_ends(p, p.waves[w]))
}

/// Wave `w` has been undone: its steps taken back, made durable, and logged.
pub open spec fn wave_undone(a: Disk, b: Disk, tx: TxDir, p: PlanView, pos: Seq<Pos>, w: int) -> bool {
    exists|m: Disk| #[trigger] wave_reverted(a, m, p, pos, w) && logged(m, b, tx, Record::UndoDone(w as u32))
}

/// All waves from the last down to wave `w` have been undone, the tokens having been at `pos`.
pub open spec fn waves_undone(a: Disk, b: Disk, tx: TxDir, p: PlanView, pos: Seq<Pos>, w: int) -> bool
    decreases p.waves.len() - w,
{
    if w >= p.waves.len() {
        b == a
    } else {
        exists|m: Disk|
            waves_undone(a, m, tx, p, pos, w + 1) && #[trigger] wave_undone(m, b, tx, p, undo_waves(p, pos, w + 1), w)
    }
}

/// One more wave undone.
proof fn lemma_one_more_wave_undone(a: Disk, m: Disk, b: Disk, tx: TxDir, p: PlanView, pos: Seq<Pos>, w: int)
    requires
        0 <= w < p.waves.len(),
        waves_undone(a, m, tx, p, pos, w + 1),
        wave_undone(m, b, tx, p, undo_waves(p, pos, w + 1), w),
    ensures
        waves_undone(a, b, tx, p, pos, w),
{
}

/// Within the undoing of wave `w`, that starts at `a` with the tokens at `pos`: some of its
/// steps have been undone; or all of them, and some directories have been synced; or that is
/// durable, and something has been written to the log.
pub open spec fn within_undo(a: Disk, b: Disk, tx: TxDir, p: PlanView, pos: Seq<Pos>, w: int) -> bool {
    let wave = p.waves[w];
    ||| exists|n: int| 0 <= n <= wave.len() && #[trigger] steps_undone(a, b, p, pos, wave, n)
    ||| exists|m: Disk| #[trigger] steps_undone(a, m, p, pos, wave, wave.len() as int) && some_synced(m, b)
    ||| exists|m: Disk| #[trigger]
        wave_reverted(a, m, p, pos, w) && only_log_changed(m, b, tx.at().push(progress_name()))
}

/// Undoing has begun at `a`, with the tokens at `pos`, and stopped at `b` within wave `w`.
pub open spec fn halted_in(a: Disk, b: Disk, tx: TxDir, p: PlanView, pos: Seq<Pos>, w: int) -> bool {
    exists|m: Disk| #[trigger]
        waves_undone(a, m, tx, p, pos, w + 1) && within_undo(m, b, tx, p, undo_waves(p, pos, w + 1), w)
}

/// Undoing has begun at `a`, with the tokens at `pos`, and stopped at `b`.
pub open spec fn undoing(a: Disk, b: Disk, tx: TxDir, p: PlanView, pos: Seq<Pos>) -> bool {
    waves_undone(a, b, tx, p, pos, 0) || exists|w: int|
        0 <= w < p.waves.len() && #[trigger] halted_in(a, b, tx, p, pos, w)
}

/// The transaction's rollback has been decided durably, on top of what was observed.
pub open spec fn begun(a: Disk, m: Disk, tx: TxDir, p: PlanView) -> bool {
    exists|s: Disk|
        only_synced(a, s) && parents_synced(a, s, all_locations(p)) && #[trigger] marked(s, m, tx, Marker::RollingBack)
}

/// All tokens at their first locations.
pub open spec fn home(p: PlanView) -> Seq<Pos> {
    Seq::new(p.tokens.len(), |t: int| Pos::At(0))
}

/// `b` is `a` after it has been noted durably that `tx` is rolled back, and the leftovers have
/// been removed.
pub open spec fn laid_to_rest(a: Disk, b: Disk, tx: TxDir) -> bool {
    exists|m: Disk| #[trigger] marked(a, m, tx, Marker::RolledBack) && tx.cleared_away(m, b)
}

/// `b` is `a` after the transaction has been rolled back from `pos`: the decision was made
/// durable, every token brought to its first location with everything else in its place, and
/// the leftovers removed.
pub open spec fn rolled_back(a: Disk, b: Disk, tx: TxDir, p: PlanView, pos: Seq<Pos>) -> bool {
    &&& exists|m: Disk, n: Disk| #[trigger]
        going(m, n, tx, p, pos, home(p)) && waves_undone(m, n, tx, p, pos, 0) && begun(a, m, tx, p) && same_tree(n, b)
            && laid_to_rest(n, b, tx)
    &&& b.resolve(tx.at()) is None
    &&& b.resolve(tx.gc_at()) is None
}

/// `b` is `a` after a rollback from `pos` that was cut short: the tree is as it was, or some
/// tokens have been moved back.
pub open spec fn interrupted(a: Disk, b: Disk, tx: TxDir, p: PlanView, pos: Seq<Pos>) -> bool {
    same_tree(a, b) || exists|m: Disk, n: Disk, now: Seq<Pos>| #[trigger]
        going(m, n, tx, p, pos, now) && undoing(m, n, tx, p, pos) && begun(a, m, tx, p) && same_tree(n, b)
}

/// Nothing stands in the way of undoing the step `s` of a token at `x`.
pub open spec fn can_undo(d: Disk, p: PlanView, s: Step, x: Pos) -> bool {
    match undo_action(x, s.from as int) {
        UndoAction::MoveBack => movable(d, p.dst(s).path, Some(p.dst(s).parent), p.src(s).path, Some(p.src(s).parent)),
        UndoAction::RemoveName => removable(d, p.dst(s).path, Some(p.dst(s).parent)),
        _ => true,
    }
}

/// Undoes one step as the token's position asks.
fn undo_step<V: Vfs>(vfs: &mut V, plan: &Plan, s: Step, x: Pos) -> (r: IoResult<()>)
    requires
        old(vfs).valid(),
        plan@.names_move(s),
        undo_action(x, s.from as int) != UndoAction::Impossible,
    ensures
        final(vfs).valid(),
        same_volume(old(vfs).disk(), final(vfs).disk()),
        r is Ok ==> undo_on_disk(old(vfs).disk(), final(vfs).disk(), plan@, s, x),
        r is Err ==> final(vfs).disk() == old(vfs).disk(),
        undo_action(x, s.from as int) is Nothing ==> r is Ok,
        old(vfs).serves() && can_undo(old(vfs).disk(), plan@, s, x) ==> r is Ok,
        old(vfs).serves() ==> final(vfs).serves() && final(vfs).room() >= old(vfs).room(),
{
    let src = plan.src(s);
    let dst = plan.dst(s);
    match decide_undo(x, s) {
        UndoAction::MoveBack => vfs.rename_noreplace(&dst.path, Some(dst.parent), &src.path, Some(src.parent)),
        UndoAction::RemoveName => vfs.unlink(&dst.path, Some(dst.parent)),
        _ => Ok(()),
    }
}

/// Undoing a step leaves the log where it is.
proof fn lemma_undo_keeps_log(a: Disk, b: Disk, tx: TxDir, p: PlanView, s: Step, x: Pos)
    requires
        a.well_formed(),
        b.well_formed(),
        p.names_move(s),
        locations_allowed(p, tx.id()),
        undo_on_disk(a, b, p, s, x),
    ensures
        kept(a, b, tx),
{
    let src = p.src(s);
    let dst = p.dst(s);
    let q = log_path(tx);
    assert(p.tokens[s.token as int].locs.len() >= 2);
    assert(location_allowed(p.tokens[s.token as int].locs[s.from as int].path, tx.id()));
    assert(location_allowed(p.tokens[s.token as int].locs[s.from + 1].path, tx.id()));
    lemma_location_off_log(a, src.path, tx);
    lemma_location_off_log(a, dst.path, tx);
    match undo_action(x, s.from as int) {
        UndoAction::MoveBack => {
            lemma_frame_move(a, b, dst.path, Some(dst.parent), src.path, Some(src.parent), q);
        },
        UndoAction::RemoveName => {
            lemma_frame_remove(a, b, dst.path, Some(dst.parent), q);
        },
        _ => {},
    }
}

proof fn lemma_kept_transitive(a: Disk, b: Disk, c: Disk, tx: TxDir)
    requires
        kept(a, b, tx),
        kept(b, c, tx),
    ensures
        kept(a, c, tx),
{
}

/// Undoing continues over a change that leaves the names alone.
proof fn lemma_going_on(a: Disk, b: Disk, c: Disk, tx: TxDir, p: PlanView, from: Seq<Pos>, now: Seq<Pos>)
    requires
        going(a, b, tx, p, from, now),
        same_volume(b, c),
        b.names == c.names,
        b.objects.dom() == c.objects.dom(),
        forall|id: FileId| #[trigger]
            b.objects.contains_key(id) ==> c.objects[id].kind() == b.objects[id].kind() && (b.file_at(log_path(tx))
                != Some(id) ==> c.objects[id] == b.objects[id]),
    ensures
        going(a, c, tx, p, from, now),
{
    assert forall|id: FileId| #[trigger] b.is_dir(id) == c.is_dir(id) by {
        if b.objects.contains_key(id) {
            crate::tree::lemma_kind_dir(b.objects[id], c.objects[id]);
        }
    }
    crate::tree::lemma_same_resolve(b, c, log_path(tx));
    assert(c.file_at(log_path(tx)) == b.file_at(log_path(tx))) by {
        match b.resolve(log_path(tx)) {
            Some(id) => {
                if b.objects.contains_key(id) {
                    assert(c.objects[id].kind() == b.objects[id].kind());
                }
            },
            None => {},
        }
    }
    lemma_kept_transitive(a, b, c, tx);
    if tame(a, p) {
        lemma_rearranged_by_names(a, b, c, p, from, now);
    }
}

/// Nothing stands in the way of undoing wave `w`, with the tokens at `pos`: however far that has
/// got, the next step can be undone; and afterwards the directories can be synced, and the log
/// is there.
pub open spec fn wave_undoable(a: Disk, tx: TxDir, p: PlanView, pos: Seq<Pos>, w: int) -> bool {
    let wave = p.waves[w];
    &&& forall|b: Disk, n: int|
        0 <= n < wave.len() && #[trigger] steps_undone(a, b, p, pos, wave, n) ==> can_undo(
            b,
            p,
            wave[n],
            undo_steps(pos, wave, n)[wave[n].token as int],
        )
    &&& forall|b: Disk, l: LocView|
        #![trigger steps_undone(a, b, p, pos, wave, wave.len() as int), approachable(b, l)]
        steps_undone(a, b, p, pos, wave, wave.len() as int) && wave_ends(p, wave).contains(l) ==> approachable(b, l)
    &&& forall|b: Disk| #[trigger]
        wave_reverted(a, b, p, pos, w) ==> b.file_at(log_path(tx)) is Some
}

/// Nothing stands in the way of undoing the waves, with the tokens at `pos`: however many have
/// been undone, the next one can be.
pub open spec fn waves_undoable(a: Disk, tx: TxDir, p: PlanView, pos: Seq<Pos>) -> bool {
    forall|b: Disk, w: int|
        0 <= w < p.waves.len() && #[trigger] waves_undone(a, b, tx, p, pos, w + 1) ==> wave_undoable(
            b,
            tx,
            p,
            undo_waves(p, pos, w + 1),
            w,
        )
}

/// Undoes one wave: each token at its step's end is moved back, and a second name is
/// removed; then the barrier, then the log.
fn undo_wave<V: Vfs>(
    vfs: &mut V,
    tx: &TxDir,
    plan: &Plan,
    w: usize,
    pos: &mut Vec<Pos>,
    Ghost(m): Ghost<Disk>,
    Ghost(from): Ghost<Seq<Pos>>,
) -> (r: IoResult<()>)
    requires
        old(vfs).valid(),
        m.well_formed(),
        plan@.valid(),
        locations_allowed(plan@, tx.id()),
        w < plan@.waves.len(),
        positions_fit(plan@, old(pos)@),
        undone_to(plan@, old(pos)@, w + 1, 0),
        going(m, old(vfs).disk(), *tx, plan@, from, old(pos)@),
    ensures
        final(vfs).valid(),
        going(m, final(vfs).disk(), *tx, plan@, from, final(pos)@),
        r is Ok ==> positions_fit(plan@, final(pos)@) && undone_to(plan@, final(pos)@, w as int, 0),
        r is Ok ==> final(pos)@ == undo_steps(old(pos)@, plan@.waves[w as int], plan@.waves[w as int].len() as int)
            && wave_undone(old(vfs).disk(), final(vfs).disk(), *tx, plan@, old(pos)@, w as int),
        r is Err ==> within_undo(old(vfs).disk(), final(vfs).disk(), *tx, plan@, old(pos)@, w as int),
        old(vfs).serves() && wave_undoable(old(vfs).disk(), *tx, plan@, old(pos)@, w as int) ==> r is Ok,
        old(vfs).serves() ==> final(vfs).serves() && final(vfs).room() >= old(vfs).room(),
{
    let ghost p = plan@;
    let ghost start = vfs.disk();
    let ghost x0 = pos@;
    let wave = &plan.waves[w];
    assert(p.waves[w as int] == wave@);
    let n = wave.len();
    let mut i: usize = 0;
    while i < n
        invariant
            i <= n,
            n == wave@.len(),
            p == plan@,
            w < p.waves.len(),
            p.waves[w as int] == wave@,
            start == old(vfs).disk(),
            x0 == old(pos)@,
            pos@ == undo_steps(x0, wave@, i as int),
            steps_undone(start, vfs.disk(), p, x0, wave@, i as int),
            p.valid(),
            locations_allowed(p, tx.id()),
            vfs.valid(),
            m.well_formed(),
            positions_fit(p, pos@),
            undone_to(p, pos@, w + 1, i as int),
            going(m, vfs.disk(), *tx, p, from, pos@),
            old(vfs).serves() ==> vfs.serves() && vfs.room() >= old(vfs).room(),
        decreases n - i,
    {
        let s = wave[i];
        assert(p.has(w as int, i as int) && p.waves[w as int][i as int] == s);
        let x = pos[s.token];
        let ghost a = vfs.disk();
        let ghost before = pos@;
        proof {
            lemma_undo_one(p, pos@, w as int, i as int);
            law_undo_lowers_the_potential(pos@, s);
            vfs.lemma_valid();
        }
        match undo_step(vfs, plan, s, x) {
            Ok(_) => {},
            Err(e) => {
                assert(within_undo(start, vfs.disk(), *tx, p, x0, w as int));
                return Err(e);
            },
        }
        match decide_undo(x, s) {
            UndoAction::MoveBack | UndoAction::RemoveName => {
                pos[s.token] = Pos::At(s.from);
            },
            _ => {},
        }
        proof {
            vfs.lemma_valid();
            assert(pos@ =~= before.update(s.token as int, after_undo(before[s.token as int], s.from)));
            lemma_one_more_undone(start, a, vfs.disk(), p, x0, wave@, i as int);
            lemma_undo_keeps_log(a, vfs.disk(), *tx, p, s, x);
            lemma_kept_transitive(m, a, vfs.disk(), *tx);
            if tame(m, p) {
                lemma_undo_step(m, a, vfs.disk(), p, from, before, s);
            }
        }
        i = i + 1;
    }
    assert(undone_to(p, pos@, w as int, 0)) by {
        assert(wave_untouched(p, pos@, w as int)) by {
            assert forall|k: int| 0 <= k < p.waves[w as int].len() implies #[trigger] state_at(p, pos@, w as int, k)
                == StepState::Pre by {
                assert(state_at(p, pos@, (w + 1) - 1, k) == StepState::Pre);
            }
        }
    }
    let ghost a = vfs.disk();
    let synced = barrier(vfs, plan, w);
    proof {
        lemma_going_on(m, a, vfs.disk(), *tx, p, from, pos@);
    }
    match synced {
        Ok(_) => {},
        Err(e) => {
            assert(within_undo(start, vfs.disk(), *tx, p, x0, w as int));
            return Err(e);
        },
    }
    let ghost b = vfs.disk();
    assert(wave_reverted(start, b, p, x0, w as int));
    let noted = append_progress(vfs, tx, Record::UndoDone(w as u32));
    proof {
        lemma_going_on(m, b, vfs.disk(), *tx, p, from, pos@);
    }
    noted
}

/// Locations allowed in a journal are not the root.
proof fn lemma_allowed_not_root(p: PlanView, tx: Name)
    requires
        locations_allowed(p, tx),
    ensures
        no_root_location(p),
{
    assert forall|t: int, i: int|
        #![trigger p.tokens[t].locs[i]]
        0 <= t < p.tokens.len() && 0 <= i < p.tokens[t].locs.len() implies p.tokens[t].locs[i].path.len() > 0 by {
        assert(p.tokens[t].locs.len() >= 2);
        assert(location_allowed(p.tokens[t].locs[i].path, tx));
    }
}

/// Right after the decision to roll back, nothing has been moved.
proof fn lemma_begun(a: Disk, m: Disk, tx: TxDir, p: PlanView, pos: Seq<Pos>)
    requires
        a.well_formed(),
        m.well_formed(),
        begun(a, m, tx, p),
        same_volume(a, m),
        a.steady ==> seated(a, p, pos),
    ensures
        going(m, m, tx, p, pos, pos),
{
    if tame(m, p) {
        let s = choose|s: Disk| only_synced(a, s) && #[trigger] marked(s, m, tx, Marker::RollingBack);
        assert forall|k: Key| #[trigger] a.names.contains_key(k) implies m.names.contains_key(k) && m.names[k]
            == a.names[k] by {
            lemma_marked_adds(s, m, tx, Marker::RollingBack, k);
        }
        lemma_seated_after_additions(a, m, p, pos);
        lemma_not_rearranged(m, p, pos);
    }
}

/// Setting a marker removes no name, and adds none but in the transaction's directory, for an
/// object that is new.
pub proof fn lemma_marked_adds(s: Disk, m: Disk, tx: TxDir, marker: Marker, k: Key)
    requires
        s.well_formed(),
        marked(s, m, tx, marker),
    ensures
        s.names.contains_key(k) ==> m.names.contains_key(k) && m.names[k] == s.names[k],
        m.names.contains_key(k) && !s.names.contains_key(k) ==> s.dir_at(tx.at()) == Some(k.dir),
        forall|x: FileId| #[trigger] linked(s, x) && s.objects.contains_key(x) ==> m.objects.contains_key(x)
            && m.objects[x] == s.objects[x] && same_data(s, m, x),
{
    let mid = choose|mid: Disk| #[trigger]
        dir_synced_at(mid, m, tx.at()) && (mid == s && s.key_at(tx.at().push(marker.file())) is Some || made_marker(
            s,
            mid,
            tx,
            marker,
        ));
    if mid != s {
        let (id, mode) = choose|id: FileId, mode: u32| #[trigger]
            created_at(s, mid, tx.at().push(marker.file()), id, Object::File { data: Seq::empty(), mode });
        let p = tx.at().push(marker.file());
        assert(p.drop_last() =~= tx.at());
        let dir = s.dir_at(p.drop_last())->0;
        lemma_lookup(s, dir, p.last());
    }
}

/// Nothing stands in the way of rolling back from `pos`: everything can be looked at and made
/// durable, from wherever the decision is noted every wave can be undone in turn, and
/// afterwards the transaction's directory can be put away.
pub open spec fn retreatable(a: Disk, tx: TxDir, p: PlanView, pos: Seq<Pos>) -> bool {
    &&& cleared(a, tx, p, pos)
    &&& can_look(a, tx, p)
    &&& can_stabilize(a, tx, p)
    &&& forall|m: Disk| #[trigger] begun(a, m, tx, p) ==> waves_undoable(m, tx, p, pos) && forall|n: Disk| #[trigger]
        waves_undone(m, n, tx, p, pos, 0) ==> n.dir_at(tx.at()) is Some && free_at(n, tx.gc_at())
}

/// Rolls a prepared-but-uncommitted transaction back to the before-state, then settles it.
///
/// Nothing is touched unless every token can be located, the positions have the shape that a
/// crash can leave, and the progress log agrees.
pub fn rollback<V: Vfs>(vfs: &mut V, tx: &TxDir, j: &Journal) -> (r: Result<()>)
    requires
        old(vfs).valid(),
        j@.plan.valid(),
        locations_allowed(j@.plan, tx.id()),
    ensures
        final(vfs).valid(),
        same_volume(old(vfs).disk(), final(vfs).disk()),
        r is Ok ==> exists|pos: Seq<Pos>| #[trigger]
            cleared(old(vfs).disk(), *tx, j@.plan, pos) && rolled_back(
                old(vfs).disk(),
                final(vfs).disk(),
                *tx,
                j@.plan,
                pos,
            ),
        r matches Err(e) ==> match e {
            Error::RecoveryRequired { tx: name, .. } => name@ == tx.name@ && final(vfs).disk() == old(vfs).disk()
                && forall|pos: Seq<Pos>| !cleared(old(vfs).disk(), *tx, j@.plan, pos),
            Error::Io(_) => final(vfs).disk() == old(vfs).disk() || exists|pos: Seq<Pos>| #[trigger]
                cleared(old(vfs).disk(), *tx, j@.plan, pos) && interrupted(
                    old(vfs).disk(),
                    final(vfs).disk(),
                    *tx,
                    j@.plan,
                    pos,
                ),
            _ => false,
        },
        old(vfs).serves() && old(vfs).room() >= 2 && (exists|pos: Seq<Pos>| #[trigger]
            retreatable(old(vfs).disk(), *tx, j@.plan, pos)) ==> r is Ok,
        old(vfs).serves() && can_look(old(vfs).disk(), *tx, j@.plan) && (forall|pos: Seq<Pos>|
            !cleared(old(vfs).disk(), *tx, j@.plan, pos)) ==> r matches Err(Error::RecoveryRequired { .. }),
        old(vfs).serves() ==> final(vfs).serves() && final(vfs).room() + 2 >= old(vfs).room(),
{
    let ghost a = vfs.disk();
    let ghost p = j@.plan;
    let ghost sure = vfs.serves() && vfs.room() >= 2 && exists|pos: Seq<Pos>| #[trigger] retreatable(a, *tx, p, pos);
    let mut pos = match preflight(vfs, tx, j) {
        Ok(x) => x,
        Err(e) => return Err(e),
    };
    let ghost from = pos@;
    let plan = &j.plan;
    proof {
        if sure {
            let other = choose|pos: Seq<Pos>| #[trigger] retreatable(a, *tx, p, pos);
            assert forall|t: int| 0 <= t < other.len() implies other[t] == from[t] by {
                assert(token_pos(a, p, t) == Some(other[t]));
                assert(token_pos(a, p, t) == Some(from[t]));
            }
            assert(other =~= from);
        }
    }
    proof {
        vfs.lemma_valid();
        lemma_allowed_not_root(p, tx.id());
        lemma_same_content(a, a);
        assert(cleared(a, *tx, p, from));
        assert forall|t: int| 0 <= t < from.len() implies crate::positions::pos_fits(p, t, #[trigger] from[t]) by {
            assert(p.tokens[t].locs.len() == plan.tokens@[t].locs.len());
            crate::classify::lemma_located_fits(a, p, t, from[t]);
        }
        if a.steady {
            assert forall|t: int| 0 <= t < p.tokens.len() implies #[trigger] crate::moves::token_seated(
                a,
                p,
                t,
                from[t],
            ) by {
                assert(p.tokens[t].locs.len() == plan.tokens@[t].locs.len());
                assert(token_pos(a, p, t) == Some(from[t]));
                lemma_located_is_seated(a, p, t, from[t]);
            }
        }
    }
    // Stabilize: make the observed state durable before the first mutation.
    let stable = stabilize(vfs, tx, plan);
    let ghost s = vfs.disk();
    proof {
        lemma_same_content(a, s);
    }
    match stable {
        Ok(_) => {},
        Err(e) => return Err(Error::Io(e)),
    }
    vfs.event("stabilized");
    assert(s.resolve(tx.at()) == a.resolve(tx.at()));
    let decided = tx.set_marker(vfs, Marker::RollingBack);
    let ghost m = vfs.disk();
    proof {
        lemma_same_tree_transitive(a, s, m);
    }
    match decided {
        Ok(_) => {},
        Err(e) => return Err(Error::Io(e)),
    }
    proof {
        vfs.lemma_valid();
        assert(begun(a, m, *tx, p));
        lemma_begun(a, m, *tx, p, from);
    }
    let nw = plan.waves.len();
    let mut w: usize = nw;
    while w > 0
        invariant
            w <= nw,
            nw == p.waves.len(),
            p == j@.plan,
            *plan == j.plan,
            p.valid(),
            locations_allowed(p, tx.id()),
            vfs.valid(),
            a == old(vfs).disk(),
            same_volume(a, m),
            m.well_formed(),
            begun(a, m, *tx, p),
            cleared(a, *tx, p, from),
            positions_fit(p, pos@),
            undone_to(p, pos@, w as int, 0),
            going(m, vfs.disk(), *tx, p, from, pos@),
            pos@ == undo_waves(p, from, w as int),
            waves_undone(m, vfs.disk(), *tx, p, from, w as int),
            old(vfs).serves() ==> vfs.serves() && vfs.room() + 1 >= old(vfs).room(),
            sure == (old(vfs).serves() && old(vfs).room() >= 2 && exists|pos: Seq<Pos>| #[trigger]
                retreatable(a, *tx, p, pos)),
            sure ==> retreatable(a, *tx, p, from),
        decreases w,
    {
        w = w - 1;
        let ghost before = vfs.disk();
        proof {
            if sure {
                assert(waves_undoable(m, *tx, p, from));
                assert(waves_undone(m, before, *tx, p, from, w + 1));
            }
        }
        let undone = undo_wave(vfs, tx, plan, w, &mut pos, Ghost(m), Ghost(from));
        match undone {
            Ok(_) => {
                proof {
                    lemma_one_more_wave_undone(m, before, vfs.disk(), *tx, p, from, w as int);
                }
            },
            Err(e) => {
                proof {
                    lemma_same_content(vfs.disk(), vfs.disk());
                    assert(waves_undone(m, before, *tx, p, from, w + 1));
                    assert(within_undo(before, vfs.disk(), *tx, p, undo_waves(p, from, w + 1), w as int));
                    assert(halted_in(m, vfs.disk(), *tx, p, from, w as int));
                    assert(going(m, vfs.disk(), *tx, p, from, pos@));
                    assert(interrupted(a, vfs.disk(), *tx, p, from));
                }
                return Err(Error::Io(e));
            },
        }
    }
    vfs.event("undone");
    let ghost n = vfs.disk();
    proof {
        lemma_all_untouched(p, pos@);
        assert(pos@ =~= home(p));
        lemma_same_content(n, n);
    }
    let settled = tx.set_marker(vfs, Marker::RolledBack);
    let ghost b = vfs.disk();
    proof {
        if sure && settled is Ok {
            assert(tx.gc_at().drop_last() =~= private_root());
            lemma_resolve_key(n, tx.gc_at());
            lemma_resolve_key(b, tx.gc_at());
            assert(b.resolve(tx.at()) == n.resolve(tx.at()));
            assert(b.resolve(private_root()) == n.resolve(private_root()));
            assert(b.resolve(tx.gc_at()) == n.resolve(tx.gc_at()));
            assert(free_at(b, tx.gc_at()));
        }
    }
    match settled {
        Ok(_) => {},
        Err(e) => {
            assert(going(m, n, *tx, p, from, pos@));
            return Err(Error::Io(e));
        },
    }
    let cleaned = tx.gc(vfs);
    proof {
        lemma_same_tree_transitive(n, b, vfs.disk());
        assert(going(m, n, *tx, p, from, home(p)));
        assert(marked(n, b, *tx, Marker::RolledBack));
    }
    match cleaned {
        Ok(_) => Ok(()),
        Err(e) => {
            assert(going(m, n, *tx, p, from, pos@));
            Err(Error::Io(e))
        },
    }
}

/// What recovery will do with one transaction directory.
#[derive(Debug)]
pub enum Decision {
    /// Never prepared: the tree was never touched; delete.
    Discard,
    /// Committed: delete the leftovers only.
    Committed,
    /// Already rolled back: delete the leftovers only.
    RolledBack,
    /// Prepared but not committed: undo to the before-state.
    RollBack(Box<Journal>),
    /// Cannot interpret; touch nothing.
    Required(Reason),
}

/// The marker is there.
pub open spec fn has(d: Disk, tx: TxDir, m: Marker) -> bool {
    d.resolve(tx.at().push(m.file())) is Some
}

/// Something is in the transaction's backup directory.
pub open spec fn backup_used(d: Disk, tx: TxDir) -> bool {
    d.dir_at(tx.at().push(backup_name())) matches Some(dir) && exists|k: Key| #[trigger]
        d.names.contains_key(k) && k.dir == dir
}

/// The bytes of the transaction's journal.
pub open spec fn journal_bytes(d: Disk, tx: TxDir) -> Seq<u8> {
    d.objects[d.file_at(tx.at().push(journal_name()))->0]->data
}

/// The decision table: what recovery does with `tx`, from what is on the disk alone.
pub open spec fn decided(d: Disk, tx: TxDir, r: Decision) -> bool {
    if has(d, tx, Marker::Committed) {
        if has(d, tx, Marker::RollingBack) || has(d, tx, Marker::RolledBack) {
            r == Decision::Required(Reason::CommittedAndRolledBack)
        } else {
            r == Decision::Committed
        }
    } else if has(d, tx, Marker::RolledBack) {
        r == Decision::RolledBack
    } else if d.resolve(tx.at().push(journal_name())) is None {
        if backup_used(d, tx) || has(d, tx, Marker::RollingBack) {
            r == Decision::Required(Reason::NoJournal)
        } else {
            r == Decision::Discard
        }
    } else {
        &&& d.file_at(tx.at().push(journal_name())) is Some
        &&& match r {
            Decision::RollBack(j) => journal_in(journal_bytes(d, tx)) == Some(j@) && admissible(
                j@,
                tx.name@,
                d.shows(d.root),
            ),
            Decision::Required(e) => rejected_for(journal_bytes(d, tx), tx.name@, d.shows(d.root), e) && !(journal_in(
                journal_bytes(d, tx),
            ) matches Some(j) && admissible(j, tx.name@, d.shows(d.root))),
            _ => false,
        }
    }
}

/// What recovery reads of `tx` can be read: the way is clear, the journal is a regular file if it
/// is there, and so is the backup a directory.
pub open spec fn legible(d: Disk, tx: TxDir) -> bool {
    &&& way_clear(d, tx.at().push(journal_name()))
    &&& d.resolve(tx.at().push(journal_name())) is Some ==> d.file_at(tx.at().push(journal_name())) is Some
    &&& d.resolve(tx.at().push(backup_name())) is Some ==> d.dir_at(tx.at().push(backup_name())) is Some
}

/// Where the way to the journal is clear, so it is to the markers and the backup.
proof fn lemma_own_way(d: Disk, tx: TxDir)
    ensures
        way_clear(d, tx.at().push(journal_name())) ==> way_clear(d, tx.at().push(backup_name())) && forall|m: Marker|
            way_clear(d, #[trigger] tx.at().push(m.file())),
{
    if way_clear(d, tx.at().push(journal_name())) {
        lemma_way_beside(d, tx.at(), journal_name(), backup_name());
        assert forall|m: Marker| way_clear(d, #[trigger] tx.at().push(m.file())) by {
            lemma_way_beside(d, tx.at(), journal_name(), m.file());
        }
    }
}

/// Decides what to do with one transaction directory.
pub fn decide<V: Vfs>(vfs: &V, tx: &TxDir) -> (r: IoResult<Decision>)
    requires
        vfs.valid(),
    ensures
        r matches Ok(x) ==> decided(vfs.disk(), *tx, x),
        vfs.serves() && legible(vfs.disk(), *tx) ==> r is Ok,
{
    proof {
        lemma_own_way(vfs.disk(), *tx);
    }
    let committed = match tx.has_marker(vfs, Marker::Committed) {
        Ok(x) => x,
        Err(e) => return Err(e),
    };
    let rolling = match tx.has_marker(vfs, Marker::RollingBack) {
        Ok(x) => x,
        Err(e) => return Err(e),
    };
    let rolled = match tx.has_marker(vfs, Marker::RolledBack) {
        Ok(x) => x,
        Err(e) => return Err(e),
    };
    if committed && (rolling || rolled) {
        return Ok(Decision::Required(Reason::CommittedAndRolledBack));
    }
    if committed {
        return Ok(Decision::Committed);
    }
    if rolled {
        return Ok(Decision::RolledBack);
    }
    let journal = match vfs.stat(&tx.journal()) {
        Ok(x) => x,
        Err(e) => return Err(e),
    };
    if journal.is_none() {
        let backup = match vfs.stat(&tx.backup()) {
            Ok(x) => x,
            Err(e) => return Err(e),
        };
        let used = match backup {
            Some(_) => {
                let names = match vfs.read_dir(&tx.backup()) {
                    Ok(x) => x,
                    Err(e) => return Err(e),
                };
                proof {
                    lemma_listing_empty(vfs.disk(), vfs.disk().dir_at(tx.at().push(backup_name()))->0, views(names@));
                }
                names.len() > 0
            },
            None => false,
        };
        return Ok(
            if used || rolling {
                Decision::Required(Reason::NoJournal)
            } else {
                Decision::Discard
            },
        );
    }
    let bytes = match vfs.read_file(&tx.journal()) {
        Ok(x) => x,
        Err(e) => return Err(e),
    };
    let root = match vfs.root_id() {
        Ok(x) => x,
        Err(e) => return Err(e),
    };
    match decode(&bytes, tx.name.as_str(), root) {
        Ok(j) => Ok(Decision::RollBack(Box::new(j))),
        Err(e) => Ok(Decision::Required(e)),
    }
}

/// A listing is empty exactly if the directory is.
proof fn lemma_listing_empty(d: Disk, dir: FileId, names: PathView)
    requires
        lists(d, dir, names),
    ensures
        names.len() > 0 <==> exists|k: Key| #[trigger] d.names.contains_key(k) && k.dir == dir,
{
    if names.len() > 0 {
        assert(names.contains(names[0]));
        assert(d.names.contains_key(Key { dir, name: names[0] }));
    }
    if exists|k: Key| #[trigger] d.names.contains_key(k) && k.dir == dir {
        let k = choose|k: Key| #[trigger] d.names.contains_key(k) && k.dir == dir;
        assert(k == (Key { dir, name: k.name }));
        assert(names.contains(k.name));
    }
}

/// The names are in strictly increasing order.
pub open spec fn increasing(names: PathView) -> bool {
    forall|i: int, j: int| 0 <= i < j < names.len() ==> #[trigger] name_lt(names[i], names[j])
}

/// Inserts a name into a sorted list that does not hold it.
fn insert_sorted(list: &mut Vec<String>, name: String)
    requires
        increasing(text_bytes(old(list)@)),
        !text_bytes(old(list)@).contains(encode_utf8(name@)),
    ensures
        increasing(text_bytes(final(list)@)),
        forall|n: Name| #[trigger]
            text_bytes(final(list)@).contains(n) <==> n == encode_utf8(name@) || text_bytes(old(list)@).contains(n),
{
    let ghost before = text_bytes(list@);
    let ghost x = encode_utf8(name@);
    let n = list.len();
    let mut i: usize = 0;
    while i < n && name_before(list[i].as_str().as_bytes(), name.as_str().as_bytes())
        invariant
            i <= n,
            n == list@.len(),
            before == text_bytes(list@),
            x == encode_utf8(name@),
            increasing(before),
            forall|k: int| 0 <= k < i ==> name_lt(#[trigger] before[k], x),
        decreases n - i,
    {
        assert(before[i as int] == encode_utf8(list@[i as int]@));
        i = i + 1;
    }
    proof {
        if i < n {
            assert(before[i as int] == encode_utf8(list@[i as int]@));
            lemma_name_lt_total(before[i as int], x);
            assert(before.contains(before[i as int]));
            assert(name_lt(x, before[i as int]));
        }
    }
    list.insert(i, name);
    proof {
        let after = text_bytes(list@);
        assert(after =~= before.insert(i as int, x));
        assert forall|a: int, b: int| 0 <= a < b < after.len() implies #[trigger] name_lt(after[a], after[b]) by {
            if a < i && b > i {
                assert(name_lt(before[a], before[b - 1]));
            } else if a < i && b < i {
                assert(name_lt(before[a], before[b]));
            } else if a > i {
                assert(name_lt(before[a - 1], before[b - 1]));
            } else if a == i {
                if b - 1 > i {
                    assert(name_lt(before[i as int], before[b - 1]));
                    lemma_name_lt_transitive(x, before[i as int], before[b - 1]);
                }
            }
        }
        assert forall|n: Name| #[trigger] after.contains(n) <==> n == x || before.contains(n) by {
            if after.contains(n) {
                let k = choose|k: int| 0 <= k < after.len() && after[k] == n;
                if k < i {
                    assert(before[k] == n);
                } else if k > i {
                    assert(before[k - 1] == n);
                }
            }
            if before.contains(n) {
                let k = choose|k: int| 0 <= k < before.len() && before[k] == n;
                if k < i {
                    assert(after[k] == n);
                } else {
                    assert(after[k + 1] == n);
                }
            }
            assert(after[i as int] == x);
        }
    }
}

/// The names that are text, sorted.
pub fn sorted_names(names: &Vec<Vec<u8>>) -> (r: Vec<String>)
    requires
        views(names@).no_duplicates(),
    ensures
        increasing(text_bytes(r@)),
        forall|n: Name| #[trigger]
            text_bytes(r@).contains(n) <==> views(names@).contains(n) && valid_utf8(n),
{
    let ghost all = views(names@);
    let mut out: Vec<String> = Vec::new();
    let n = names.len();
    let mut i: usize = 0;
    while i < n
        invariant
            i <= n,
            n == names@.len(),
            all == views(names@),
            all.no_duplicates(),
            increasing(text_bytes(out@)),
            forall|n: Name| #[trigger]
                text_bytes(out@).contains(n) <==> all.take(i as int).contains(n) && valid_utf8(n),
        decreases n - i,
    {
        let ghost x = all[i as int];
        proof {
            assert forall|n: Name| #[trigger] all.take(i + 1).contains(n) <==> n == x || all.take(i as int).contains(n) by {
                let more = all.take(i + 1);
                if more.contains(n) {
                    let k = choose|k: int| 0 <= k < more.len() && more[k] == n;
                    if k < i {
                        assert(all.take(i as int)[k] == n);
                    }
                }
                if all.take(i as int).contains(n) {
                    let k = choose|k: int| 0 <= k < i && all.take(i as int)[k] == n;
                    assert(all.take(i + 1)[k] == n);
                }
                assert(all.take(i + 1)[i as int] == x);
            }
            if all.take(i as int).contains(x) {
                let k = choose|k: int| 0 <= k < i && all.take(i as int)[k] == x;
                assert(all[k] == x);
            }
        }
        match utf8_string(names[i].clone()) {
            Some(s) => {
                assert(encode_utf8(s@) == x);
                insert_sorted(&mut out, s);
            },
            None => {},
        }
        i = i + 1;
    }
    assert(all.take(n as int) =~= all);
    out
}

/// What recovery did.
#[derive(Debug)]
#[non_exhaustive]
pub struct RecoveryReport {
    /// Prepared transactions that were rolled back to their before-state.
    pub rolled_back: Vec<String>,
    /// Committed transactions whose leftovers were removed.
    pub completed: Vec<String>,
    /// Transactions that never reached the journal and were discarded.
    pub discarded: Vec<String>,
    /// Leftover scratch directories removed.
    pub garbage_removed: usize,
}

impl Default for RecoveryReport {
    fn default() -> (r: Self)
        ensures
            r.rolled_back@.len() == 0,
            r.completed@.len() == 0,
            r.discarded@.len() == 0,
            r.garbage_removed == 0,
    {
        RecoveryReport { rolled_back: Vec::new(), completed: Vec::new(), discarded: Vec::new(), garbage_removed: 0 }
    }
}

/// What became of one entry of the private directory.
pub enum Outcome {
    /// Scratch space: removed.
    Garbage,
    /// Not the library's: left alone.
    Skipped,
    Discarded,
    Completed,
    RolledBack,
    /// Could not be interpreted: left alone.
    Refused,
}

/// The name is that of scratch space.
pub open spec fn is_garbage(name: Name) -> bool {
    begins_with(name, gc_prefix_name()) || begins_with(name, probe_prefix_name())
}

/// The name is that of a transaction.
pub open spec fn is_transaction(name: Name) -> bool {
    !is_garbage(name) && begins_with(name, tx_prefix_name())
}

/// The leftovers of `tx` were removed and the tree left alone.
pub open spec fn tidied(a: Disk, b: Disk, tx: TxDir) -> bool {
    same_tree(a, b) && tx.cleared_away(a, b) && b.resolve(tx.at()) is None && b.resolve(tx.gc_at()) is None
}

/// `tx` cannot be recovered, for this reason.
pub open spec fn refused_for(d: Disk, tx: TxDir, reason: Reason) -> bool {
    decided(d, tx, Decision::Required(reason)) || exists|j: Box<Journal>| #[trigger]
        decided(d, tx, Decision::RollBack(j)) && forall|pos: Seq<Pos>| !cleared(d, tx, j@.plan, pos)
}

/// `tx` was rolled back.
pub open spec fn undone(a: Disk, b: Disk, tx: TxDir) -> bool {
    exists|j: Box<Journal>, pos: Seq<Pos>| #[trigger]
        rolled_back(a, b, tx, j@.plan, pos) && decided(a, tx, Decision::RollBack(j)) && cleared(a, tx, j@.plan, pos)
}

/// One step of recovery: `b` is `a` after the entry `name` has come out as `o`.
pub open spec fn recovery_step(a: Disk, b: Disk, name: String, o: Outcome) -> bool {
    let tx = TxDir { name };
    match o {
        Outcome::Garbage => is_garbage(tx.id()) && same_tree(a, b) && swept(a, b, tx.at()) && b.resolve(tx.at()) is None,
        Outcome::Skipped => !is_garbage(tx.id()) && !is_transaction(tx.id()) && b == a,
        Outcome::Discarded => is_transaction(tx.id()) && decided(a, tx, Decision::Discard) && tidied(a, b, tx),
        Outcome::Completed => is_transaction(tx.id()) && decided(a, tx, Decision::Committed) && tidied(a, b, tx),
        Outcome::RolledBack => is_transaction(tx.id()) && (decided(a, tx, Decision::RolledBack) && tidied(a, b, tx)
            || undone(a, b, tx)),
        Outcome::Refused => is_transaction(tx.id()) && b == a && exists|reason: Reason| #[trigger]
            refused_for(a, tx, reason),
    }
}

/// The names that came out as `o`, in order, among the first `n`.
pub open spec fn came_out(names: Seq<String>, outs: Seq<Outcome>, o: Outcome, n: int) -> Seq<Seq<char>>
    decreases n,
{
    if n <= 0 {
        Seq::empty()
    } else if outs[n - 1] == o {
        came_out(names, outs, o, n - 1).push(names[n - 1]@)
    } else {
        came_out(names, outs, o, n - 1)
    }
}

/// The characters of each text.
pub open spec fn texts(v: Seq<String>) -> Seq<Seq<char>> {
    v.map_values(|s: String| s@)
}

/// The first `n` steps of recovery.
pub open spec fn recovery_run(disks: Seq<Disk>, names: Seq<String>, outs: Seq<Outcome>, n: int) -> bool {
    &&& 0 <= n <= names.len()
    &&& disks.len() == n + 1
    &&& outs.len() == n
    &&& forall|i: int| 0 <= i < n ==> #[trigger] recovery_step(disks[i], disks[i + 1], names[i], outs[i])
}

/// The names are those of the entries of the private directory that are text, sorted.
pub open spec fn entries_to_recover(d: Disk, names: Seq<String>) -> bool {
    &&& increasing(text_bytes(names))
    &&& d.dir_at(private_root()) matches Some(dir) && forall|n: Name| #[trigger]
        text_bytes(names).contains(n) <==> d.names.contains_key(Key { dir, name: n }) && valid_utf8(n)
}

/// The report tells what came out.
pub open spec fn reports(r: RecoveryReport, names: Seq<String>, outs: Seq<Outcome>, n: int) -> bool {
    &&& texts(r.rolled_back@) == came_out(names, outs, Outcome::RolledBack, n)
    &&& texts(r.completed@) == came_out(names, outs, Outcome::Completed, n)
    &&& texts(r.discarded@) == came_out(names, outs, Outcome::Discarded, n)
    &&& r.garbage_removed == came_out(names, outs, Outcome::Garbage, n).len()
}

/// A step of recovery that was cut short.
pub open spec fn partial_step(a: Disk, b: Disk) -> bool {
    same_tree(a, b) || exists|tx: TxDir, p: PlanView, pos: Seq<Pos>| #[trigger] interrupted(a, b, tx, p, pos)
}

/// What a whole recovery comes to: every entry was dealt with in order, and the report tells
/// what came out. With a transaction that cannot be recovered nothing is touched, and the error
/// names the first one. A failing filesystem cuts recovery short at one entry.
pub open spec fn recovered(a: Disk, b: Disk, r: Result<RecoveryReport>) -> bool {
    match r {
        Ok(report) => exists|disks: Seq<Disk>, names: Seq<String>, outs: Seq<Outcome>| #[trigger]
            recovery_run(disks, names, outs, names.len() as int) && entries_to_recover(a, names) && disks[0] == a
                && disks.last() == b && !outs.contains(Outcome::Refused) && reports(
                report,
                names,
                outs,
                names.len() as int,
            ) && none_refused(a, names, names.len() as int),
        Err(Error::RecoveryRequired { tx, reason }) => b == a && exists|names: Seq<String>, i: int| #[trigger]
            first_refused(a, names, i, tx@, reason) && entries_to_recover(a, names),
        Err(Error::Io(_)) => b == a || exists|disks: Seq<Disk>, names: Seq<String>, outs: Seq<Outcome>, n: int| #[trigger]
            recovery_run(disks, names, outs, n) && entries_to_recover(a, names) && disks[0] == a && partial_step(
                disks.last(),
                b,
            ),
        Err(_) => false,
    }
}

/// `tx` cannot be recovered.
pub open spec fn refused(d: Disk, tx: TxDir) -> bool {
    exists|reason: Reason| #[trigger] refused_for(d, tx, reason)
}

/// Each of the first `n` entries that is a transaction can be recovered.
pub open spec fn none_refused(d: Disk, names: Seq<String>, n: int) -> bool {
    forall|k: int|
        0 <= k < n && is_transaction(TxDir { name: #[trigger] names[k] }.id()) ==> !refused(d, TxDir { name: names[k] })
}

/// The `i`-th entry is the first transaction that cannot be recovered, for this reason.
pub open spec fn first_refused(d: Disk, names: Seq<String>, i: int, tx: Seq<char>, reason: Reason) -> bool {
    &&& 0 <= i < names.len()
    &&& is_transaction(TxDir { name: names[i] }.id())
    &&& names[i]@ == tx
    &&& refused_for(d, TxDir { name: names[i] }, reason)
    &&& none_refused(d, names, i)
}

/// A transaction for which there is a decision to act on can be recovered.
proof fn lemma_not_refused(d: Disk, tx: TxDir, x: Decision)
    requires
        decided(d, tx, x),
        x !is Required,
        x matches Decision::RollBack(j) ==> exists|pos: Seq<Pos>| #[trigger] cleared(d, tx, j@.plan, pos),
    ensures
        !refused(d, tx),
{
    if refused(d, tx) {
        let reason = choose|reason: Reason| #[trigger] refused_for(d, tx, reason);
        if !decided(d, tx, Decision::Required(reason)) {
            let k = choose|k: Box<Journal>| #[trigger]
                decided(d, tx, Decision::RollBack(k)) && forall|pos: Seq<Pos>| !cleared(d, tx, k@.plan, pos);
            assert(decided(d, tx, Decision::RollBack(k)));
        }
    }
}

/// What recovery looks at to decide on `tx` can be looked at.
pub open spec fn examinable(d: Disk, tx: TxDir) -> bool {
    legible(d, tx) && forall|j: Box<Journal>| #[trigger]
        decided(d, tx, Decision::RollBack(j)) ==> can_look(d, tx, j@.plan)
}

/// Nothing stands in the way of recovering the entry `name`: scratch space can be removed; leftovers
/// can be put away; and what is to be rolled back can be.
pub open spec fn recoverable_entry(d: Disk, name: String) -> bool {
    let tx = TxDir { name };
    if is_garbage(tx.id()) {
        d.dir_at(private_root()) is Some
    } else if !is_transaction(tx.id()) {
        true
    } else {
        &&& examinable(d, tx)
        &&& forall|x: Decision| #[trigger] decided(d, tx, x) ==> match x {
            Decision::RollBack(j) => exists|pos: Seq<Pos>| #[trigger] retreatable(d, tx, j@.plan, pos),
            Decision::Required(_) => false,
            _ => d.resolve(tx.at()) is Some && free_at(d, tx.gc_at()),
        }
    }
}

/// What recovery looks at to decide on the transactions among the entries can be looked at.
pub open spec fn all_examinable(d: Disk, names: Seq<String>) -> bool {
    forall|i: int|
        0 <= i < names.len() && is_transaction(TxDir { name: #[trigger] names[i] }.id()) ==> examinable(
            d,
            TxDir { name: names[i] },
        )
}

/// A transaction among the entries cannot be recovered.
pub open spec fn some_refused(d: Disk, names: Seq<String>) -> bool {
    !none_refused(d, names, names.len() as int)
}

/// Nothing stands in the way of recovering the entries: each transaction can be looked at and
/// none is refused, and however many entries have been dealt with, the next one can be.
pub open spec fn can_recover(a: Disk, names: Seq<String>) -> bool {
    &&& all_examinable(a, names)
    &&& none_refused(a, names, names.len() as int)
    &&& forall|disks: Seq<Disk>, outs: Seq<Outcome>, i: int|
        0 <= i < names.len() && #[trigger] recovery_run(disks, names, outs, i) && disks[0] == a ==> recoverable_entry(
            disks.last(),
            names[i],
        )
}

/// Whether one transaction can be recovered. No mutation.
fn examine_tx<V: Vfs>(vfs: &V, name: &String) -> (r: Result<()>)
    requires
        vfs.valid(),
    ensures
        match r {
            Ok(_) => !refused(vfs.disk(), TxDir { name: *name }),
            Err(Error::RecoveryRequired { tx, reason }) => tx@ == name@ && refused_for(
                vfs.disk(),
                TxDir { name: *name },
                reason,
            ),
            Err(e) => e is Io,
        },
        vfs.serves() && examinable(vfs.disk(), TxDir { name: *name }) ==> !(r matches Err(Error::Io(_))),
{
    let tx = TxDir { name: name.clone() };
    let decision = match decide(vfs, &tx) {
        Ok(x) => x,
        Err(e) => return Err(Error::Io(e)),
    };
    let ghost x = decision;
    match decision {
        Decision::RollBack(j) => match preflight(vfs, &tx, &j) {
            Ok(pos) => {
                proof {
                    assert(cleared(vfs.disk(), tx, j@.plan, pos@));
                    lemma_not_refused(vfs.disk(), tx, x);
                }
                Ok(())
            },
            Err(Error::RecoveryRequired { tx: who, reason }) => {
                assert(decided(vfs.disk(), tx, Decision::RollBack(j)));
                Err(Error::RecoveryRequired { tx: who, reason })
            },
            Err(e) => Err(e),
        },
        Decision::Required(reason) => {
            assert(refused_for(vfs.disk(), tx, reason));
            Err(required(&tx, reason))
        },
        _ => {
            proof {
                lemma_not_refused(vfs.disk(), tx, x);
            }
            Ok(())
        },
    }
}

/// Whether every transaction among the entries can be recovered. No mutation.
fn examine<V: Vfs>(vfs: &V, names: &Vec<String>) -> (r: Result<()>)
    requires
        vfs.valid(),
    ensures
        match r {
            Ok(_) => none_refused(vfs.disk(), names@, names@.len() as int),
            Err(Error::RecoveryRequired { tx, reason }) => exists|i: int| #[trigger]
                first_refused(vfs.disk(), names@, i, tx@, reason),
            Err(e) => e is Io,
        },
        (forall|k: int| 0 <= k < names@.len() ==> !is_transaction(encode_utf8((#[trigger] names@[k])@))) ==> r is Ok,
        vfs.serves() && (forall|k: int|
            0 <= k < names@.len() && is_transaction(TxDir { name: #[trigger] names@[k] }.id()) ==> examinable(
                vfs.disk(),
                TxDir { name: names@[k] },
            )) ==> !(r matches Err(Error::Io(_))),
{
    let gc = gc_prefix_bytes();
    let probe = probe_prefix_bytes();
    let prefix = tx_prefix_bytes();
    let n = names.len();
    let mut i: usize = 0;
    while i < n
        invariant
            i <= n,
            n == names@.len(),
            vfs.valid(),
            gc@ == gc_prefix_name(),
            probe@ == probe_prefix_name(),
            prefix@ == tx_prefix_name(),
            none_refused(vfs.disk(), names@, i as int),
        decreases n - i,
    {
        let name = &names[i];
        let bytes = name.as_str().as_bytes();
        if !starts_with(bytes, &gc) && !starts_with(bytes, &probe) && starts_with(bytes, &prefix) {
            match examine_tx(vfs, name) {
                Ok(_) => {},
                Err(Error::RecoveryRequired { tx, reason }) => {
                    assert(first_refused(vfs.disk(), names@, i as int, tx@, reason));
                    return Err(Error::RecoveryRequired { tx, reason });
                },
                Err(e) => return Err(e),
            }
        }
        i = i + 1;
    }
    Ok(())
}

/// What was at `p` has been deleted, after the names in the private directory were made durable,
/// and that was made durable.
pub open spec fn swept(a: Disk, b: Disk, p: PathView) -> bool {
    exists|c: Disk| #[trigger] half_swept(a, c, p) && dir_synced_at(c, b, private_root())
}

/// What was at `p` may be partly deleted, after the names in the private directory were made
/// durable.
pub open spec fn half_swept(a: Disk, b: Disk, p: PathView) -> bool {
    exists|m: Disk| #[trigger] dir_synced_at(a, m, private_root()) && pruned_below(m, b, p)
}

/// Removes scratch space. The rename to `gc-*` may be visible but not yet durable (the
/// process died before it was synced). It is made durable before anything inside is deleted,
/// or a power loss could keep the deletions and revert the rename.
fn remove_garbage<V: Vfs>(vfs: &mut V, name: &str) -> (r: IoResult<()>)
    requires
        old(vfs).valid(),
    ensures
        final(vfs).valid(),
        same_volume(old(vfs).disk(), final(vfs).disk()),
        same_tree(old(vfs).disk(), final(vfs).disk()),
        r is Ok ==> final(vfs).disk().resolve(private_root().push(encode_utf8(name@))) is None,
        r is Ok ==> swept(old(vfs).disk(), final(vfs).disk(), private_root().push(encode_utf8(name@))),
        r is Err ==> final(vfs).disk() == old(vfs).disk() || half_swept(
            old(vfs).disk(),
            final(vfs).disk(),
            private_root().push(encode_utf8(name@)),
        ),
        r is Ok ==> nothing_left(old(vfs).disk(), final(vfs).disk()),
        old(vfs).serves() && old(vfs).disk().dir_at(private_root()) is Some ==> r is Ok,
        old(vfs).serves() ==> final(vfs).serves() && final(vfs).room() >= old(vfs).room(),
{
    let ghost a = vfs.disk();
    let first = vfs.sync_dir(&private_dir());
    let ghost b = vfs.disk();
    proof {
        lemma_same_content(a, b);
        crate::state::lemma_private_name();
    }
    match first {
        Ok(_) => {},
        Err(e) => return Err(e),
    }
    let path = private_dir().join(string_bytes(name));
    proof {
        assert(path@.drop_last() =~= private_root());
        assert(b.resolve(private_root()) == a.resolve(private_root()));
        vfs.lemma_valid();
        lemma_way_to(b, path@);
    }
    let deleted = delete_tree(vfs, &path);
    let ghost c = vfs.disk();
    proof {
        vfs.lemma_valid();
        lemma_pruned_above(b, c, path@, private_root());
        lemma_same_tree_transitive(a, b, c);
        assert(dir_synced_at(a, b, private_root()) && pruned_below(b, c, path@));
        assert(half_swept(a, c, path@));
    }
    match deleted {
        Ok(_) => {},
        Err(e) => return Err(e),
    }
    let last = vfs.sync_dir(&private_dir());
    proof {
        lemma_same_content(c, vfs.disk());
        lemma_same_tree_transitive(a, c, vfs.disk());
        assert(vfs.disk().resolve(private_root()) == c.resolve(private_root()));
    }
    last
}

/// `b` is the report `a` with `name` entered as having come out as `o`.
spec fn counted(a: RecoveryReport, b: RecoveryReport, name: Seq<char>, o: Outcome) -> bool {
    &&& texts(b.rolled_back@) == (if o == Outcome::RolledBack {
        texts(a.rolled_back@).push(name)
    } else {
        texts(a.rolled_back@)
    })
    &&& texts(b.completed@) == (if o == Outcome::Completed {
        texts(a.completed@).push(name)
    } else {
        texts(a.completed@)
    })
    &&& texts(b.discarded@) == (if o == Outcome::Discarded {
        texts(a.discarded@).push(name)
    } else {
        texts(a.discarded@)
    })
    &&& b.garbage_removed == a.garbage_removed + (if o == Outcome::Garbage {
        1int
    } else {
        0int
    })
}

/// The result of dealing with one entry.
enum Handled {
    Done(Ghost<Outcome>),
    Refused(Error),
}

/// Deals with one entry of the private directory.
fn recover_entry<V: Vfs>(vfs: &mut V, name: &String, report: &mut RecoveryReport) -> (r: Result<Handled>)
    requires
        old(vfs).valid(),
        old(report).garbage_removed < usize::MAX,
    ensures
        final(vfs).valid(),
        same_volume(old(vfs).disk(), final(vfs).disk()),
        match r {
            Ok(Handled::Done(o)) => o@ != Outcome::Refused && recovery_step(
                old(vfs).disk(),
                final(vfs).disk(),
                *name,
                o@,
            ) && counted(*old(report), *final(report), name@, o@),
            Ok(Handled::Refused(e)) => (e matches Error::RecoveryRequired { tx, reason } && tx@ == name@ && refused_for(
                old(vfs).disk(),
                TxDir { name: *name },
                reason,
            )) && recovery_step(old(vfs).disk(), final(vfs).disk(), *name, Outcome::Refused) && counted(
                *old(report),
                *final(report),
                name@,
                Outcome::Refused,
            ),
            Err(e) => e is Io && partial_step(old(vfs).disk(), final(vfs).disk()),
        },
        old(vfs).serves() && old(vfs).disk().dir_at(private_root()) is Some && !is_transaction(encode_utf8(name@)) ==> {
            &&& r matches Ok(Handled::Done(_))
            &&& final(vfs).serves() && final(vfs).room() >= old(vfs).room()
            &&& nothing_left(old(vfs).disk(), final(vfs).disk())
        },
        old(vfs).serves() && old(vfs).room() >= 2 && recoverable_entry(old(vfs).disk(), *name) ==> r matches Ok(
            Handled::Done(_),
        ),
        old(vfs).serves() ==> final(vfs).serves() && final(vfs).room() + 2 >= old(vfs).room(),
{
    let ghost a = vfs.disk();
    proof {
        lemma_same_content(a, a);
    }
    let bytes = name.as_str().as_bytes();
    let gc = gc_prefix_bytes();
    let probe = probe_prefix_bytes();
    let prefix = tx_prefix_bytes();
    if starts_with(bytes, &gc) || starts_with(bytes, &probe) {
        return match remove_garbage(vfs, name.as_str()) {
            Ok(_) => {
                report.garbage_removed = report.garbage_removed + 1;
                Ok(Handled::Done(Ghost(Outcome::Garbage)))
            },
            Err(e) => Err(Error::Io(e)),
        };
    }
    if !starts_with(bytes, &prefix) {
        return Ok(Handled::Done(Ghost(Outcome::Skipped)));
    }
    let tx = TxDir { name: name.clone() };
    let decision = match decide(vfs, &tx) {
        Ok(x) => x,
        Err(e) => return Err(Error::Io(e)),
    };
    match decision {
        Decision::Discard => match tx.gc(vfs) {
            Ok(_) => {
                report.discarded.push(name.clone());
                assert(texts(report.discarded@) =~= texts(old(report).discarded@).push(name@));
                Ok(Handled::Done(Ghost(Outcome::Discarded)))
            },
            Err(e) => Err(Error::Io(e)),
        },
        Decision::Committed => match tx.gc(vfs) {
            Ok(_) => {
                report.completed.push(name.clone());
                assert(texts(report.completed@) =~= texts(old(report).completed@).push(name@));
                Ok(Handled::Done(Ghost(Outcome::Completed)))
            },
            Err(e) => Err(Error::Io(e)),
        },
        Decision::RolledBack => match tx.gc(vfs) {
            Ok(_) => {
                report.rolled_back.push(name.clone());
                assert(texts(report.rolled_back@) =~= texts(old(report).rolled_back@).push(name@));
                Ok(Handled::Done(Ghost(Outcome::RolledBack)))
            },
            Err(e) => Err(Error::Io(e)),
        },
        Decision::RollBack(j) => match rollback(vfs, &tx, &j) {
            Ok(_) => {
                report.rolled_back.push(name.clone());
                proof {
                    assert(texts(report.rolled_back@) =~= texts(old(report).rolled_back@).push(name@));
                    assert(decided(a, tx, Decision::RollBack(j)));
                    let pos = choose|pos: Seq<Pos>| #[trigger]
                        cleared(a, tx, j@.plan, pos) && rolled_back(a, vfs.disk(), tx, j@.plan, pos);
                    assert(rolled_back(a, vfs.disk(), tx, j@.plan, pos));
                    assert(undone(a, vfs.disk(), tx));
                }
                Ok(Handled::Done(Ghost(Outcome::RolledBack)))
            },
            Err(Error::RecoveryRequired { tx: who, reason }) => {
                assert(decided(a, tx, Decision::RollBack(j)));
                assert(refused_for(a, tx, reason));
                Ok(Handled::Refused(Error::RecoveryRequired { tx: who, reason }))
            },
            Err(e) => Err(e),
        },
        Decision::Required(reason) => {
            assert(refused_for(a, tx, reason));
            Ok(Handled::Refused(required(&tx, reason)))
        },
    }
}

proof fn lemma_came_out_extends(names: Seq<String>, outs: Seq<Outcome>, o: Outcome, last: Outcome, n: int)
    requires
        0 <= n <= outs.len(),
    ensures
        came_out(names, outs.push(last), o, n) == came_out(names, outs, o, n),
        came_out(names, outs, o, n).len() <= n,
    decreases n,
{
    if n > 0 {
        lemma_came_out_extends(names, outs, o, last, n - 1);
        assert(outs.push(last)[n - 1] == outs[n - 1]);
    }
}

proof fn lemma_reports_extends(
    a: RecoveryReport,
    b: RecoveryReport,
    names: Seq<String>,
    outs: Seq<Outcome>,
    last: Outcome,
)
    requires
        outs.len() < names.len(),
        reports(a, names, outs, outs.len() as int),
        counted(a, b, names[outs.len() as int]@, last),
    ensures
        reports(b, names, outs.push(last), (outs.len() + 1) as int),
{
    let n = outs.len() as int;
    lemma_came_out_extends(names, outs, Outcome::RolledBack, last, n);
    lemma_came_out_extends(names, outs, Outcome::Completed, last, n);
    lemma_came_out_extends(names, outs, Outcome::Discarded, last, n);
    lemma_came_out_extends(names, outs, Outcome::Garbage, last, n);
    assert(outs.push(last)[n] == last);
}

proof fn lemma_run_extends(disks: Seq<Disk>, names: Seq<String>, outs: Seq<Outcome>, n: int, b: Disk, o: Outcome)
    requires
        recovery_run(disks, names, outs, n),
        n < names.len(),
        recovery_step(disks.last(), b, names[n], o),
    ensures
        recovery_run(disks.push(b), names, outs.push(o), n + 1),
{
    let more = disks.push(b);
    let os = outs.push(o);
    assert forall|i: int| 0 <= i < n + 1 implies #[trigger] recovery_step(more[i], more[i + 1], names[i], os[i]) by {
        if i < n {
            assert(recovery_step(disks[i], disks[i + 1], names[i], outs[i]));
        }
    }
}

/// The private directory is there, and no transaction in it.
pub open spec fn quiet(d: Disk) -> bool {
    d.dir_at(private_root()) matches Some(dir) && forall|k: Key| #[trigger]
        d.names.contains_key(k) && k.dir == dir && valid_utf8(k.name) ==> !is_transaction(k.name)
}

/// The private directory is there, and neither a transaction nor scratch space in it.
pub open spec fn tidy(d: Disk) -> bool {
    d.dir_at(private_root()) matches Some(dir) && forall|k: Key| #[trigger]
        d.names.contains_key(k) && k.dir == dir && valid_utf8(k.name) ==> !is_transaction(k.name) && !is_garbage(k.name)
}

/// The report tells of no transaction.
pub open spec fn no_transactions(r: RecoveryReport) -> bool {
    r.rolled_back@.len() == 0 && r.completed@.len() == 0 && r.discarded@.len() == 0
}

/// Where no entry is a transaction, none comes out as one, and the tree stays as it is.
proof fn lemma_quiet_run(disks: Seq<Disk>, names: Seq<String>, outs: Seq<Outcome>, n: int, clean: bool)
    requires
        recovery_run(disks, names, outs, n),
        forall|i: int| 0 <= i < n ==> !is_transaction(encode_utf8((#[trigger] names[i])@)),
        clean ==> forall|i: int| 0 <= i < n ==> !is_garbage(encode_utf8((#[trigger] names[i])@)),
    ensures
        same_tree(disks[0], disks[n]),
        clean ==> disks[n] == disks[0],
        came_out(names, outs, Outcome::RolledBack, n).len() == 0,
        came_out(names, outs, Outcome::Completed, n).len() == 0,
        came_out(names, outs, Outcome::Discarded, n).len() == 0,
        clean ==> came_out(names, outs, Outcome::Garbage, n).len() == 0,
    decreases n,
{
    if n == 0 {
        lemma_same_content(disks[0], disks[0]);
    } else {
        let d = disks.drop_last();
        let o = outs.drop_last();
        assert(recovery_run(d, names, o, n - 1)) by {
            assert forall|i: int| 0 <= i < n - 1 implies #[trigger] recovery_step(d[i], d[i + 1], names[i], o[i]) by {
                assert(recovery_step(disks[i], disks[i + 1], names[i], outs[i]));
            }
        }
        lemma_quiet_run(d, names, o, n - 1, clean);
        assert(outs =~= o.push(outs.last()));
        lemma_came_out_extends(names, o, Outcome::RolledBack, outs.last(), n - 1);
        lemma_came_out_extends(names, o, Outcome::Completed, outs.last(), n - 1);
        lemma_came_out_extends(names, o, Outcome::Discarded, outs.last(), n - 1);
        lemma_came_out_extends(names, o, Outcome::Garbage, outs.last(), n - 1);
        assert(recovery_step(disks[n - 1], disks[n], names[n - 1], outs[n - 1]));
        assert(!is_transaction(encode_utf8(names[n - 1]@)));
        if outs[n - 1] == Outcome::Skipped {
            lemma_same_content(disks[n - 1], disks[n]);
        }
        lemma_same_tree_transitive(disks[0], disks[n - 1], disks[n]);
    }
}

/// Where no transaction was interrupted, recovery reports none and leaves the tree as it is. Where
/// there is no scratch space either, it does nothing.
pub proof fn law_nothing_interrupted_is_left_alone(a: Disk, b: Disk, report: RecoveryReport)
    requires
        quiet(a),
        recovered(a, b, Ok::<RecoveryReport, Error>(report)),
    ensures
        same_tree(a, b),
        no_transactions(report),
        tidy(a) ==> b == a && report.garbage_removed == 0,
{
    let (disks, names, outs) = choose|disks: Seq<Disk>, names: Seq<String>, outs: Seq<Outcome>| #[trigger]
        recovery_run(disks, names, outs, names.len() as int) && entries_to_recover(a, names) && disks[0] == a
            && disks.last() == b && !outs.contains(Outcome::Refused) && reports(report, names, outs, names.len() as int)
            && none_refused(a, names, names.len() as int);
    let dir = a.dir_at(private_root())->0;
    assert forall|i: int| 0 <= i < names.len() implies !is_transaction(encode_utf8((#[trigger] names[i])@)) && (tidy(a)
        ==> !is_garbage(encode_utf8(names[i]@))) by {
        let entry = encode_utf8(names[i]@);
        assert(text_bytes(names)[i] == entry);
        assert(text_bytes(names).contains(entry));
        assert(a.names.contains_key(Key { dir, name: entry }));
    }
    lemma_quiet_run(disks, names, outs, names.len() as int, tidy(a));
    assert(texts(report.rolled_back@).len() == report.rolled_back@.len());
    assert(texts(report.completed@).len() == report.completed@.len());
    assert(texts(report.discarded@).len() == report.discarded@.len());
}

/// Recovers every transaction in the private area. The caller holds the exclusive lock.
///
/// Every transaction is examined first: with one that cannot be interpreted nothing is touched,
/// and the first such is reported.
pub fn recover_locked<V: Vfs>(vfs: &mut V) -> (r: Result<RecoveryReport>)
    requires
        old(vfs).valid(),
    ensures
        final(vfs).valid(),
        same_volume(old(vfs).disk(), final(vfs).disk()),
        recovered(old(vfs).disk(), final(vfs).disk(), r),
        old(vfs).serves() ==> final(vfs).serves(),
        old(vfs).serves() && old(vfs).disk().dir_at(private_root()) is Some && (forall|names: Seq<String>| #[trigger]
            entries_to_recover(old(vfs).disk(), names) ==> can_recover(old(vfs).disk(), names) && old(vfs).room() >= 2
                * names.len()) ==> r is Ok,
        old(vfs).serves() && old(vfs).disk().dir_at(private_root()) is Some && (forall|names: Seq<String>| #[trigger]
            entries_to_recover(old(vfs).disk(), names) ==> all_examinable(old(vfs).disk(), names) && some_refused(
                old(vfs).disk(),
                names,
            )) ==> r matches Err(Error::RecoveryRequired { .. }),
        old(vfs).serves() && quiet(old(vfs).disk()) ==> {
            &&& r is Ok
            &&& final(vfs).serves() && final(vfs).room() >= old(vfs).room()
            &&& nothing_left(old(vfs).disk(), final(vfs).disk())
        },
        old(vfs).serves() ==> (r matches Ok(_) ==> exists|names: Seq<String>| #[trigger]
            entries_to_recover(old(vfs).disk(), names) && final(vfs).room() + 2 * names.len() >= old(vfs).room()),
{
    let ghost a = vfs.disk();
    let ghost sure = vfs.serves() && quiet(a);
    let mut report = RecoveryReport::default();
    let listed = match vfs.read_dir(&private_dir()) {
        Ok(x) => x,
        Err(e) => return Err(Error::Io(e)),
    };
    let names = sorted_names(&listed);
    let ghost dir = a.dir_at(private_root())->0;
    assert(entries_to_recover(a, names@));
    proof {
        assert forall|k: int| 0 <= k < names@.len() && quiet(a) implies !is_transaction(
            encode_utf8((#[trigger] names@[k])@),
        ) by {
            let entry = encode_utf8(names@[k]@);
            assert(text_bytes(names@)[k] == entry);
            assert(text_bytes(names@).contains(entry));
            assert(a.names.contains_key(Key { dir, name: entry }));
        }
    }
    match examine(vfs, &names) {
        Ok(_) => {},
        Err(Error::RecoveryRequired { tx, reason }) => {
            proof {
                let i = choose|i: int| #[trigger] first_refused(a, names@, i, tx@, reason);
                assert(first_refused(a, names@, i, tx@, reason));
            }
            return Err(Error::RecoveryRequired { tx, reason });
        },
        Err(e) => return Err(e),
    }
    let ghost able = vfs.serves() && can_recover(a, names@) && vfs.room() >= 2 * names@.len();
    let ghost mut disks = seq![a];
    let ghost mut outs = Seq::<Outcome>::empty();
    let n = names.len();
    let mut i: usize = 0;
    proof {
        assert(texts(report.rolled_back@) =~= Seq::<Seq<char>>::empty());
        assert(texts(report.completed@) =~= Seq::<Seq<char>>::empty());
        assert(texts(report.discarded@) =~= Seq::<Seq<char>>::empty());
    }
    while i < n
        invariant
            i <= n,
            n == names@.len(),
            vfs.valid(),
            a == old(vfs).disk(),
            same_volume(a, vfs.disk()),
            sure == (old(vfs).serves() && quiet(a)),
            old(vfs).serves() ==> vfs.serves() && vfs.room() + 2 * i >= old(vfs).room(),
            able == (old(vfs).serves() && can_recover(a, names@) && old(vfs).room() >= 2 * names@.len()),
            sure ==> {
                &&& vfs.serves() && vfs.room() >= old(vfs).room()
                &&& nothing_left(a, vfs.disk())
            },
            entries_to_recover(a, names@),
            recovery_run(disks, names@, outs, i as int),
            disks[0] == a,
            disks.last() == vfs.disk(),
            reports(report, names@, outs, i as int),
            !outs.contains(Outcome::Refused),
            none_refused(a, names@, n as int),
        decreases n - i,
    {
        let ghost before = report;
        proof {
            lemma_came_out_extends(names@, outs, Outcome::Garbage, Outcome::Garbage, i as int);
            let entry = encode_utf8(names@[i as int]@);
            assert(text_bytes(names@)[i as int] == entry);
            assert(text_bytes(names@).contains(entry));
            assert(a.names.contains_key(Key { dir: a.dir_at(private_root())->0, name: entry }));
        }
        assert(able ==> recoverable_entry(vfs.disk(), names@[i as int]));
        match recover_entry(vfs, &names[i], &mut report) {
            Ok(Handled::Done(o)) => {
                proof {
                    lemma_run_extends(disks, names@, outs, i as int, vfs.disk(), o@);
                    lemma_reports_extends(before, report, names@, outs, o@);
                    assert forall|x: Outcome| outs.push(o@).contains(x) implies x == o@ || outs.contains(x) by {
                        let k = choose|k: int| 0 <= k < outs.push(o@).len() && outs.push(o@)[k] == x;
                        if k < outs.len() {
                            assert(outs[k] == x);
                        }
                    }
                    disks = disks.push(vfs.disk());
                    outs = outs.push(o@);
                }
            },
            Ok(Handled::Refused(_)) => {
                // It could be recovered before the others were: something else changed the tree.
                proof {
                    assert(recovery_run(disks, names@, outs, i as int));
                    lemma_same_content(vfs.disk(), vfs.disk());
                    assert(partial_step(disks.last(), vfs.disk()));
                }
                return Err(
                    Error::Io(
                        IoError::new(IoErrorKind::Other, "a transaction changed while others were being recovered"),
                    ),
                );
            },
            Err(e) => {
                proof {
                    assert(recovery_run(disks, names@, outs, i as int));
                    assert(partial_step(disks.last(), vfs.disk()));
                }
                return Err(e);
            },
        }
        i = i + 1;
    }
    Ok(report)
}

} // verus!
