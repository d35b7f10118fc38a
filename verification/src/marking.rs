//! Setting a marker: whatever cuts that off, the marker is there, or everything is as if it had
//! never been made.
use vstd::prelude::*;

use crate::apply::waves_applied;
use crate::atomicity::{
    cut_off, lemma_kin_resolves, lemma_left_is_kin, lemma_waves_forward, lemma_well_formed_by_names, rests_at,
    scattered, settled,
};
use crate::crash::{durable_file, keeps_content, lost_with, may_come_out, power_lost, survivors};
use crate::disk::{Disk, Fate, FileId, Key, Object};
use crate::durability::{left_with, lemma_quiet_is_firm};
use crate::journal::JournalView;
use crate::moves::{lemma_rearranged_by_names, occupied, occupies, rearranged, token_seated};
use crate::path::PathView;
use crate::plan::PlanView;
use crate::positions::Pos;
use crate::readiness::{lemma_created_sturdy, lemma_fewer_scratch, lemma_firmly_absent};
use crate::recover::{begun, cleared, has, home, log_path, waves_undone};
use crate::restoration::{
    grounded, grown, lemma_base_grounded, lemma_grown_in_place, lemma_grown_resolves, lemma_home_fits, lemma_resolved_linked,
    lemma_still_linked,
};
use crate::retreat::{
    brought_back, law_interrupted_apply_is_recoverable, lemma_poised, lemma_settled_is_calm, lemma_waves_back, recoverable,
};
use crate::state::{journal_name, made_marker, progress_name, Marker, TxDir};
use crate::tree::{alike, lemma_linked_known, lemma_lookup, lemma_same_names_transitive, linked};
use crate::turns::{in_place, lemma_secluded};
use crate::verdict::{
    law_interrupted_apply_leaves_the_case_open, law_interrupted_undo_leaves_the_case_open, open_case,
};
use crate::vfs::{created_at, same_volume};

verus! {

/// `b` is `a` but for the object `id`, which is not in use, and for what is pending.
pub open spec fn but_for(a: Disk, b: Disk, id: FileId) -> bool {
    &&& same_volume(a, b)
    &&& a.names == b.names
    &&& id != a.root
    &&& forall|k: Key| #[trigger] a.names.contains_key(k) ==> a.names[k] != id && k.dir != id
    &&& forall|o: FileId|
        o != id ==> #[trigger] b.objects.contains_key(o) == a.objects.contains_key(o) && b.objects[o] == a.objects[o]
    &&& forall|o: FileId|
        o != id ==> #[trigger] b.dirty.contains(o) == a.dirty.contains(o) && b.saved.contains_key(o)
            == a.saved.contains_key(o) && b.saved[o] == a.saved[o]
}

/// Paths lead to the same on such disks.
proof fn lemma_but_for_resolves(a: Disk, b: Disk, id: FileId, q: PathView)
    requires
        a.well_formed(),
        but_for(a, b, id),
    ensures
        b.resolve(q) == a.resolve(q),
        b.file_at(q) == a.file_at(q),
        b.dir_at(q) == a.dir_at(q),
        a.resolve(q) != Some(id),
    decreases q.len(),
{
    if q.len() > 0 {
        lemma_but_for_resolves(a, b, id, q.drop_last());
        if a.dir_at(q.drop_last()) is Some {
            let dir = a.dir_at(q.drop_last())->0;
            lemma_lookup(a, dir, q.last());
            assert(b.lookup(dir, q.last()) == a.lookup(dir, q.last()));
        }
    }
    if a.resolve(q) is Some {
        let o = a.resolve(q)->0;
        assert(b.objects.contains_key(o) == a.objects.contains_key(o));
    }
}

/// What a power loss may leave of an object that is not in use.
spec fn leftover(d: Disk, id: FileId) -> Object {
    match d.objects[id] {
        Object::File { data, mode } => Object::File {
            data: if !d.dirty.contains(id) && d.saved.contains_key(id) {
                d.saved[id]
            } else {
                data
            },
            mode,
        },
        other => other,
    }
}

/// The disk that a power loss leaves when a file that was made is gone, as if it had never been
/// made.
spec fn never_made(d: Disk, e: Disk, id: FileId) -> Disk {
    Disk {
        shown: d.shown,
        objects: if d.objects.contains_key(id) {
            e.objects.insert(id, leftover(d, id))
        } else {
            e.objects.remove(id)
        },
        saved: if d.objects.contains_key(id) && d.objects[id] is File {
            e.saved.insert(id, leftover(d, id)->data)
        } else {
            e.saved
        },
        dirty: e.dirty.remove(id),
        ..e
    }
}

/// A power loss that drops the new file leaves what one before it was made could leave.
proof fn lemma_never_made(d: Disk, mid: Disk, e: Disk, at: PathView, id: FileId, mode: u32, f: Seq<Fate>)
    requires
        created_at(d, mid, at, id, Object::File { data: Seq::empty(), mode }),
        lost_with(mid, e, f),
        f.last() == Fate::Drop,
        forall|k: Key| #[trigger] e.names.contains_key(k) ==> e.names[k] != id && k.dir != id,
    ensures
        power_lost(d, never_made(d, e, id)),
        but_for(never_made(d, e, id), e, id),
{
    let x = never_made(d, e, id);
    let g = f.drop_last();
    assert(mid.pending.drop_last() =~= d.pending);
    assert forall|i: int| 0 <= i < d.pending.len() implies may_come_out(#[trigger] d.pending[i], g[i]) by {
        assert(mid.pending[i] == d.pending[i]);
        assert(may_come_out(mid.pending[i], f[i]));
    }
    assert(x.names == survivors(d.durable, d.pending, g));
    assert(x.objects.dom() =~= d.objects.dom());
    assert forall|o: FileId| #[trigger] d.objects.contains_key(o) implies x.objects[o].kind() == d.objects[o].kind()
        && keeps_content(d, x, o) && (d.objects[o] is File ==> durable_file(x, o)) by {
        if o != id {
            assert(mid.objects.contains_key(o));
            assert(mid.objects[o] == d.objects[o]);
            assert(keeps_content(mid, e, o));
        }
    }
    assert(lost_with(d, x, g));
}

/// Whatever cuts off the making of a marker: it is there, or it is as if it had never been made.
proof fn lemma_marking_cut(
    d: Disk,
    mid: Disk,
    e: Disk,
    tx: TxDir,
    marker: Marker,
    p: PlanView,
    more: Set<FileId>,
) -> (r: (Disk, FileId))
    requires
        d.well_formed(),
        mid.well_formed(),
        settled(d, p, more),
        made_marker(d, mid, tx, marker),
        cut_off(mid, e),
    ensures
        has(e, tx, marker) || (power_lost(d, r.0) && but_for(r.0, e, r.1) && e.well_formed() && power_lost(mid, e)),
{
    let at = tx.at().push(marker.file());
    assert(at.drop_last() =~= tx.at());
    let own = d.dir_at(tx.at())->0;
    let k = Key { dir: own, name: at.last() };
    let (id, mode) = choose|id: FileId, mode: u32| #[trigger]
        created_at(d, mid, at, id, Object::File { data: Seq::empty(), mode });
    let object = Object::File { data: Seq::empty(), mode };
    let scratch = more.remove(id);
    lemma_fewer_scratch(d, p, more, id);
    lemma_secluded(d, scratch, tx.at());
    lemma_resolved_linked(d, tx.at());
    if e == mid {
        crate::apply::lemma_created_is_found(d, mid, at, id, object);
        (e, id)
    } else {
        let f = choose|f: Seq<Fate>| #[trigger] lost_with(mid, e, f);
        let g = f.drop_last();
        lemma_firmly_absent(d, scratch, own, at.last());
        lemma_created_sturdy(d, mid, k, id, object);
        assert(left_with(mid, f).well_formed());
        lemma_well_formed_by_names(left_with(mid, f), e);
        assert forall|i: int| 0 <= i < d.pending.len() implies may_come_out(#[trigger] d.pending[i], g[i]) by {
            assert(mid.pending.drop_last()[i] == mid.pending[i]);
            assert(may_come_out(mid.pending[i], f[i]));
        }
        lemma_left_is_kin(d, g, scratch);
        crate::readiness::lemma_unused(d.durable, d.pending, g, id);
        let x = left_with(d, g);
        if f.last() == Fate::Drop {
            assert(e.names == x.names);
            lemma_never_made(d, mid, e, at, id, mode, f);
            (never_made(d, e, id), id)
        } else {
            assert(e.names == x.names.insert(k, id));
            assert(grown(x, e, own)) by {
                assert forall|o: FileId| #[trigger] linked(x, o) implies e.objects.contains_key(o) && e.objects[o].kind()
                    == x.objects[o].kind() by {
                    lemma_linked_known(x, o);
                    assert(o != id);
                    assert(mid.objects.contains_key(o));
                }
            }
            lemma_kin_resolves(d, x, scratch, tx.at());
            lemma_grown_resolves(x, e, own, tx.at());
            lemma_lookup(e, own, at.last());
            assert(e.names.contains_key(k));
            assert(alike(e, k.name, at.last()));
            (e, id)
        }
    }
}

/// A base whose objects are those of a disk with another unused object.
proof fn lemma_rebuilt(base: Disk, x: Disk, e: Disk, p: PlanView, tx: TxDir, pos: Seq<Pos>, id: FileId) -> (next: Disk)
    requires
        grounded(base, p, tx),
        scattered(base, x, p, pos),
        but_for(x, e, id),
        e.well_formed(),
    ensures
        next == (Disk { objects: e.objects, ..base }),
        next.well_formed(),
        base.dir_at(tx.at()) matches Some(own) && grown(base, next, own),
{
    let next = Disk { objects: e.objects, ..base };
    lemma_home_fits(p);
    assert forall|k: Key| #[trigger] base.names.contains_key(k) implies base.names[k] != id by {
        lemma_still_linked(base, x, p, pos, k);
        let l = choose|l: Key| #[trigger] x.names.contains_key(l) && x.names[l] == base.names[k];
        assert(x.names.contains_key(l));
    }
    assert forall|k: Key| #[trigger] base.names.contains_key(k) implies k.dir != id by {
        if occupied(base, p, home(p), k) {
            let t = choose|t: int| 0 <= t < p.tokens.len() && #[trigger] occupies(base, p, t, home(p)[t], k);
            assert(token_seated(base, p, t, home(p)[t]));
            let l = p.tokens[t].locs[0];
            assert(rests_at(p, t, home(p)[t], l));
            assert(in_place(base, l));
            lemma_lookup(base, l.parent, l.path.last());
            let up = l.path.drop_last();
            lemma_resolved_linked(base, up);
        } else {
            assert(!occupied(x, p, pos, k));
            assert(x.names.contains_key(k));
        }
    }
    assert forall|o: FileId| o != id && #[trigger] base.objects.contains_key(o) implies next.objects.contains_key(o)
        && next.objects[o].kind() == base.objects[o].kind() && next.is_dir(o) == base.is_dir(o) by {
        assert(x.objects.contains_key(o));
        assert(e.objects.contains_key(o) == x.objects.contains_key(o));
        crate::tree::lemma_kind_dir(base.objects[o], next.objects[o]);
    }
    assert forall|k: Key| #[trigger] next.names.contains_key(k) implies next.is_dir(k.dir) && next.objects.contains_key(
        next.names[k],
    ) && next.names[k] != next.root by {
        assert(base.names.contains_key(k));
        assert(base.is_dir(k.dir) && base.objects.contains_key(k.dir));
    }
    assert forall|k: Key, l: Key|
        #![trigger next.names.contains_key(k), next.names.contains_key(l)]
        next.names.contains_key(k) && next.names.contains_key(l) && next.names[k] == next.names[l] && next.is_dir(
            next.names[k],
        ) implies k == l by {
        assert(base.names.contains_key(k) && base.names.contains_key(l));
        assert(base.objects.contains_key(base.names[k]));
    }
    assert(base.is_dir(base.root));
    assert forall|o: FileId| #[trigger] linked(base, o) implies next.objects.contains_key(o) && next.objects[o].kind()
        == base.objects[o].kind() by {
        lemma_linked_known(base, o);
        if o != base.root {
            let k = choose|k: Key| #[trigger] base.names.contains_key(k) && base.names[k] == o;
            assert(base.names[k] != id);
        }
    }
    next
}

/// Another unused object does not matter to what can be brought back.
proof fn lemma_but_for_recoverable(d0: Disk, x: Disk, e: Disk, p: PlanView, tx: TxDir, id: FileId)
    requires
        recoverable(d0, x, p, tx),
        but_for(x, e, id),
        e.well_formed(),
        e.pending.len() == 0,
        e.durable == e.names,
    ensures
        recoverable(d0, e, p, tx),
{
    let (base, pos, scratch) = choose|base: Disk, pos: Seq<Pos>, scratch: Set<FileId>| #[trigger]
        brought_back(d0, base, x, p, tx, pos, scratch);
    let own = base.dir_at(tx.at())->0;
    let next = lemma_rebuilt(base, x, e, p, tx, pos, id);
    lemma_base_grounded(base, next, p, tx);
    lemma_same_names_transitive(d0, base, next);
    if base.file_at(log_path(tx)) is Some {
        lemma_grown_resolves(base, next, own, log_path(tx));
        let log = base.resolve(log_path(tx))->0;
        lemma_resolved_linked(base, log_path(tx));
        assert(next.objects[log].kind() == base.objects[log].kind());
    }
    lemma_rearranged_by_names(base, x, e, p, home(p), pos);
    assert(rearranged(next, e, p, home(p), pos)) by {
        assert forall|k: Key| #[trigger] occupied(next, p, home(p), k) == occupied(base, p, home(p), k) by {
            if occupied(base, p, home(p), k) {
                let t = choose|t: int| 0 <= t < p.tokens.len() && #[trigger] occupies(base, p, t, home(p)[t], k);
                assert(occupies(next, p, t, home(p)[t], k));
            }
            if occupied(next, p, home(p), k) {
                let t = choose|t: int| 0 <= t < p.tokens.len() && #[trigger] occupies(next, p, t, home(p)[t], k);
                assert(occupies(base, p, t, home(p)[t], k));
            }
        }
    }
    assert(grown(x, e, own)) by {
        assert forall|o: FileId| #[trigger] linked(x, o) implies e.objects.contains_key(o) && e.objects[o].kind()
            == x.objects[o].kind() by {
            lemma_linked_known(x, o);
            assert(o != id);
            assert(e.objects.contains_key(o) == x.objects.contains_key(o));
        }
    }
    lemma_grown_in_place(x, e, own, p, pos);
    lemma_quiet_is_firm(e, scratch);
    lemma_settled_is_calm(e, p, scratch);
    assert(brought_back(d0, next, e, p, tx, pos, scratch));
}

/// Another unused object does not matter to an open case either.
proof fn lemma_but_for_open(d0: Disk, x: Disk, e: Disk, tx: TxDir, j: JournalView, id: FileId)
    requires
        recoverable(d0, x, j.plan, tx),
        open_case(x, tx, j),
        but_for(x, e, id),
        e.well_formed(),
        e.pending.len() == 0,
        e.durable == e.names,
    ensures
        recoverable(d0, e, j.plan, tx),
        open_case(e, tx, j),
{
    let (base, pos, scratch) = choose|base: Disk, pos: Seq<Pos>, scratch: Set<FileId>| #[trigger]
        brought_back(d0, base, x, j.plan, tx, pos, scratch);
    lemma_but_for_recoverable(d0, x, e, j.plan, tx, id);
    lemma_but_for_resolves(x, e, id, tx.at().push(journal_name()));
    lemma_but_for_resolves(x, e, id, tx.at().push(progress_name()));
    lemma_but_for_resolves(x, e, id, tx.at().push(Marker::Committed.file()));
    lemma_but_for_resolves(x, e, id, tx.at().push(Marker::RolledBack.file()));
    let file = x.file_at(tx.at().push(journal_name()))->0;
    assert(file != id);
    assert(e.objects.contains_key(file) == x.objects.contains_key(file));
    assert(e.dirty.contains(file) == x.dirty.contains(file));
    assert(durable_file(e, file));
}

/// Committing is all or nothing. Whatever cuts off the making of the marker that says that the
/// transaction is committed: the marker is there, or the case is open and what is left can be
/// brought back.
pub proof fn law_committing_is_all_or_nothing(
    d0: Disk,
    d: Disk,
    mid: Disk,
    e: Disk,
    tx: TxDir,
    j: JournalView,
    scratch: Set<FileId>,
)
    requires
        grounded(d0, j.plan, tx),
        settled(d0, j.plan, scratch),
        open_case(d0, tx, j),
        waves_applied(d0, d, tx, j.plan, j.plan.waves.len() as int),
        made_marker(d, mid, tx, Marker::Committed),
        mid.well_formed(),
        cut_off(mid, e),
    ensures
        has(e, tx, Marker::Committed) || recoverable(d0, e, j.plan, tx) && open_case(e, tx, j),
{
    let p = j.plan;
    lemma_waves_forward(d0, d, tx, p, p.waves.len() as int, scratch);
    let (x, id) = lemma_marking_cut(d, mid, e, tx, Marker::Committed, p, scratch);
    if !(has(e, tx, Marker::Committed)) {
        law_interrupted_apply_is_recoverable(d0, d, x, tx, p, scratch);
        law_interrupted_apply_leaves_the_case_open(d0, d, x, tx, j, scratch);
        let f = choose|f: Seq<Fate>| #[trigger] lost_with(mid, e, f);
        lemma_but_for_open(d0, x, e, tx, j, id);
    }
}

/// So is rolling back. Whatever cuts off the making of the marker that says that the transaction
/// is rolled back: the marker is there, or the case is open and what is left can be brought back
/// again.
pub proof fn law_concluding_a_rollback_is_all_or_nothing(
    d0: Disk,
    d: Disk,
    m: Disk,
    n: Disk,
    mid: Disk,
    e: Disk,
    tx: TxDir,
    j: JournalView,
    seen: Seq<Pos>,
)
    requires
        recoverable(d0, d, j.plan, tx),
        open_case(d, tx, j),
        d0.file_at(log_path(tx)) is Some,
        cleared(d, tx, j.plan, seen),
        begun(d, m, tx, j.plan),
        m.well_formed(),
        waves_undone(m, n, tx, j.plan, seen, 0),
        made_marker(n, mid, tx, Marker::RolledBack),
        mid.well_formed(),
        cut_off(mid, e),
    ensures
        has(e, tx, Marker::RolledBack) || recoverable(d0, e, j.plan, tx) && open_case(e, tx, j),
{
    let p = j.plan;
    let (base, v, scratch) = lemma_poised(d0, d, m, tx, p, seen);
    lemma_waves_back(base, m, n, tx, p, seen, v, 0, scratch);
    let (x, id) = lemma_marking_cut(n, mid, e, tx, Marker::RolledBack, p, scratch);
    if !(has(e, tx, Marker::RolledBack)) {
        law_interrupted_undo_leaves_the_case_open(d0, d, m, n, x, tx, j, seen);
        let f = choose|f: Seq<Fate>| #[trigger] lost_with(mid, e, f);
        lemma_but_for_open(d0, x, e, tx, j, id);
    }
}

} // verus!
