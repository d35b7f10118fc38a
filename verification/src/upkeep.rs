//! A transaction is in good order from its start, and every operation keeps it so.
use vstd::prelude::*;

use crate::bytes::Name;
use crate::caps::bare;
use crate::compile::{is_placed, placed_entry};
use crate::disk::{Disk, FileId, Key, Object};
use crate::grounding::{one_name, true_to};
use crate::overlay::{
    base_look, ekind_of, entry_rooted, law_view_depends_on_the_tree, lemma_found_is_rooted, origin_of, EKind, Gone,
    Look, OverlayView, SlotView, SrcView,
};
use crate::overlay::blob_name;
use crate::path::{private_path, tree_path, PathView};
use crate::recover::has;
use crate::result::plain;
use crate::sight::{
    can_rename, connected, faithful, gone_of, law_making_a_directory_stays_faithful, law_moving_stays_faithful,
    law_nothing_decided_is_faithful, law_removing_stays_faithful, law_writing_stays_faithful, lemma_moved_entry,
    lemma_one_source, overlaid,
};
use crate::state::{backup_name, staged_name, Marker, TxDir};
use crate::storage::{grown, holds_staged, in_good_order, lemma_grown_bare, lemma_grown_create, lemma_grown_one_name, lemma_grown_resolves};
use crate::transaction::{home_made, made_dir};
use crate::tree::same_tree;
use crate::vfs::created_at;

verus! {

/// What is seen at a path in the tree is noted as it is on the disk when it leaves.
proof fn lemma_noted_right(ov: OverlayView, d: Disk, p: PathView)
    requires
        faithful(ov, d),
        true_to(ov, d),
        tree_path(p),
        ov.look(d, p) matches Look::Found(e) && e.kind != EKind::Special,
    ensures
        true_to(ov.detach(ov.look(d, p)->Found_0), d),
{
    let e = ov.look(d, p)->Found_0;
    if let Some(o) = origin_of(e) {
        if ov.placed.contains_key(p) {
            assert(ov.detached.contains_key(o) && ov.detached[o] == gone_of(e));
            assert(ov.detach(e).detached =~= ov.detached);
        } else {
            let id = d.resolve(o)->0;
            assert(gone_of(e) == (Gone { id: d.shows(id), kind: ekind_of(d.objects[id].kind()) }));
        }
    }
}

/// Fewer entries are staged as they should be if all are.
proof fn lemma_fewer_staged(a: OverlayView, b: OverlayView, d: Disk, tx: TxDir, blobs: Map<u64, FileId>)
    requires
        holds_staged(a, d, tx, blobs),
        forall|q: PathView| #[trigger] is_placed(b, q) ==> is_placed(a, q) && placed_entry(b, q) == placed_entry(a, q),
    ensures
        holds_staged(b, d, tx, blobs),
{
}

/// Removing something keeps the transaction in good order.
pub proof fn law_removing_keeps_order(ov: OverlayView, d: Disk, tx: TxDir, blobs: Map<u64, FileId>, p: PathView)
    requires
        in_good_order(ov, d, tx, blobs),
        tree_path(p),
        ov.look(d, p) matches Look::Found(e) && e.kind != EKind::Special,
    ensures
        in_good_order(ov.removed(p, ov.look(d, p)->Found_0), d, tx, blobs),
{
    let e = ov.look(d, p)->Found_0;
    let now = ov.removed(p, e);
    law_removing_stays_faithful(ov, d, p);
    lemma_noted_right(ov, d, p);
    assert(now.detached == ov.detach(e).detached);
    assert forall|q: PathView| #[trigger] is_placed(now, q) implies is_placed(ov, q) && placed_entry(now, q) == placed_entry(
        ov,
        q,
    ) by {
        assert(now.placed.contains_key(q));
    }
    lemma_fewer_staged(ov, now, d, tx, blobs);
    assert(now.rooted(d)) by {
        assert forall|k: PathView| #[trigger] now.placed.contains_key(k) implies (now.placed[k] matches SlotView::Present(x)
            ==> entry_rooted(d, x)) by {
            if is_placed(now, k) {
                assert(ov.placed.contains_key(k));
            }
        }
    }
    assert(plain(now)) by {
        assert forall|k: PathView| #[trigger] now.placed.contains_key(k) implies (now.placed[k] matches SlotView::Present(x)
            ==> x.kind != EKind::Special) by {
            if is_placed(now, k) {
                assert(ov.placed.contains_key(k));
            }
        }
    }
    assert(true_to(now, d)) by {
        assert forall|b: PathView| #[trigger] now.detached.contains_key(b) implies ov.detach(e).detached.contains_key(b) by {}
    }
}

/// Making a directory keeps the transaction in good order.
pub proof fn law_making_a_directory_keeps_order(ov: OverlayView, d: Disk, tx: TxDir, blobs: Map<u64, FileId>, p: PathView)
    requires
        in_good_order(ov, d, tx, blobs),
        tree_path(p),
        ov.next_dir < u64::MAX,
        ov.look(d, p) is Nothing,
        ov.parent_fault(d, p) is None,
    ensures
        in_good_order(ov.with_new_dir(p), d, tx, blobs),
{
    let now = ov.with_new_dir(p);
    law_making_a_directory_stays_faithful(ov, d, p);
    assert forall|k: PathView| #[trigger] now.placed.contains_key(k) implies k == p || ov.placed.contains_key(k) && ov.placed[k]
        == now.placed[k] by {}
    assert(true_to(now, d)) by {
        assert forall|b: PathView| #[trigger] now.detached.contains_key(b) implies ov.detached.contains_key(b) by {}
    }
    assert(holds_staged(now, d, tx, blobs)) by {
        assert forall|q: PathView| #[trigger] is_placed(now, q) && placed_entry(now, q).src is Blob implies is_placed(ov, q)
            && placed_entry(ov, q) == placed_entry(now, q) by {
            assert(now.placed.contains_key(q));
        }
    }
}

/// Moving something keeps the transaction in good order.
pub proof fn law_moving_keeps_order(ov: OverlayView, d: Disk, tx: TxDir, blobs: Map<u64, FileId>, from: PathView, to: PathView)
    requires
        in_good_order(ov, d, tx, blobs),
        tree_path(from),
        tree_path(to),
        can_rename(ov, d, from, to),
        ov.look(d, from)->Found_0.kind != EKind::Special,
    ensures
        in_good_order(ov.moved(from, to, ov.look(d, from)->Found_0), d, tx, blobs),
{
    let e = ov.look(d, from)->Found_0;
    let now = ov.moved(from, to, e);
    law_moving_stays_faithful(ov, d, from, to);
    lemma_noted_right(ov, d, from);
    lemma_found_is_rooted(ov, d, from);
    assert(now.detached == ov.detach(e).detached);
    assert(true_to(now, d)) by {
        assert forall|b: PathView| #[trigger] now.detached.contains_key(b) implies ov.detach(e).detached.contains_key(b) by {}
    }
    assert forall|k: PathView| #[trigger] now.placed.contains_key(k) implies (now.placed[k] matches SlotView::Present(x)
        ==> entry_rooted(d, x) && x.kind != EKind::Special) by {
        if now.placed[k] is Present {
            let was = lemma_moved_entry(ov, d, from, to, k);
            if k != to {
                assert(ov.placed.contains_key(was));
            }
        }
    }
    assert(now.rooted(d) && plain(now));
    assert forall|q: PathView| #[trigger] is_placed(now, q) implies ({
        let was = place_before(from, to, q);
        placed_entry(now, q).src is Blob ==> is_placed(ov, was) && placed_entry(ov, was) == placed_entry(now, q)
    }) by {
        let was = lemma_moved_entry(ov, d, from, to, q);
        assert(was == place_before(from, to, q)) by {
            assert(to.take(to.len() as int) =~= to);
            assert(crate::sight::came_from(from, to, to) =~= from);
        }
        if q == to && placed_entry(now, q).src is Blob {
            assert(ov.placed.contains_key(from));
        }
    }
    assert forall|k: PathView, l: PathView|
        #![trigger is_placed(now, k), is_placed(now, l)]
        is_placed(now, k) && is_placed(now, l) && place_before(from, to, k) == place_before(from, to, l) implies k == l by {
        let a = lemma_moved_entry(ov, d, from, to, k);
        let b = lemma_moved_entry(ov, d, from, to, l);
        lemma_one_source(from, to, k, l);
    }
    lemma_staged_moved(ov, now, d, tx, blobs, from, to);
}

/// Where something at `q` was before the move.
spec fn place_before(from: PathView, to: PathView, q: PathView) -> PathView {
    if crate::tree::leads_on(q, to) {
        crate::sight::came_from(from, to, q)
    } else {
        q
    }
}

proof fn lemma_staged_moved(a: OverlayView, b: OverlayView, d: Disk, tx: TxDir, blobs: Map<u64, FileId>, from: PathView, to: PathView)
    requires
        holds_staged(a, d, tx, blobs),
        forall|q: PathView| #[trigger]
            is_placed(b, q) ==> (placed_entry(b, q).src is Blob ==> is_placed(a, place_before(from, to, q)) && placed_entry(
                a,
                place_before(from, to, q),
            ) == placed_entry(b, q)),
        forall|k: PathView, l: PathView|
            #![trigger is_placed(b, k), is_placed(b, l)]
            is_placed(b, k) && is_placed(b, l) && place_before(from, to, k) == place_before(from, to, l) ==> k == l,
    ensures
        holds_staged(b, d, tx, blobs),
{
}

/// What a transaction in good order has staged stays so while its staging grows.
proof fn lemma_order_grows(ov: OverlayView, a: Disk, b: Disk, tx: TxDir, blobs: Map<u64, FileId>, dir: FileId)
    requires
        in_good_order(ov, a, tx, blobs),
        b.well_formed(),
        grown(a, b, set![dir]),
        same_tree(a, b),
        a.dir_at(tx.at().push(staged_name())) == Some(dir),
    ensures
        in_good_order(ov, b, tx, blobs),
{
    assert forall|p: PathView| #[trigger] ov.look(b, p) == ov.look(a, p) by {
        law_view_depends_on_the_tree(ov, a, b, p);
    }
    assert(connected(ov, b)) by {
        assert forall|k: PathView| #[trigger] ov.placed.contains_key(k) implies (ov.look(b, k.drop_last()) matches Look::Found(e)
            && e.kind == EKind::Dir) by {
            assert(ov.look(b, k.drop_last()) == ov.look(a, k.drop_last()));
        }
    }
    assert(overlaid(ov, b)) by {
        assert forall|v: PathView, n: Name|
            #![trigger ov.placed.contains_key(v.push(n))]
            ov.placed.contains_key(v.push(n)) implies (ov.look(b, v) matches Look::Found(e) && (origin_of(e) matches Some(o)
            ==> ov.detached.contains_key(o.push(n)) || !(base_look(b, ov.case_insensitive, o.push(n)) is Found))) by {
            assert(ov.look(b, v) == ov.look(a, v));
            if let Some(o) = origin_of(ov.look(a, v)->Found_0) {
                if !private_path(o.push(n)) {
                    assert(b.resolve(o.push(n)) == a.resolve(o.push(n)));
                }
            }
        }
    }
    assert(ov.rooted(b)) by {
        crate::overlay::lemma_rooted_by_tree(ov, a, b);
    }
    assert(true_to(ov, b)) by {
        assert forall|q: PathView| #[trigger] ov.detached.contains_key(q) implies (b.resolve(q) matches Some(id) && ov.detached[q]
            == (Gone { id: b.shows(id), kind: ekind_of(b.objects[id].kind()) })) && ov.detached[q].kind != EKind::Special by {
            assert(tree_path(q));
            assert(b.resolve(q) == a.resolve(q));
        }
    }
    let (own, staged, backup) = (tx.at(), tx.at().push(staged_name()), tx.at().push(backup_name()));
    lemma_grown_resolves(a, b, set![dir], own);
    lemma_grown_resolves(a, b, set![dir], staged);
    lemma_grown_resolves(a, b, set![dir], backup);
    if a.dir_at(backup) == Some(dir) {
        crate::result::lemma_same_dir(a, backup, staged);
        assert(backup.last() == backup_name() && staged.last() == staged_name());
        assert(staged_name()[0] != backup_name()[0]);
    }
    if a.dir_at(own) == Some(dir) {
        crate::result::lemma_same_dir(a, own, staged);
    }
    lemma_grown_bare(a, b, set![dir], a.dir_at(backup)->0);
    assert forall|m: Marker| !(#[trigger] has(b, tx, m)) by {
        assert(!(has(a, tx, m)));
        let q = own.push(m.file());
        assert(q.drop_last() =~= own);
        assert(!a.names.contains_key(Key { dir: a.dir_at(own)->0, name: m.file() }));
    }
    assert forall|q: PathView| #[trigger] is_placed(ov, q) implies (placed_entry(ov, q).src matches SrcView::Blob { n, .. }
        ==> blobs.contains_key(n) && b.resolve(staged.push(blob_name(n))) == Some(blobs[n]) && b.is_file(blobs[n]) && one_name(
        b,
        blobs[n],
    )) by {
        if let SrcView::Blob { n, .. } = placed_entry(ov, q).src {
            lemma_grown_resolves(a, b, set![dir], staged.push(blob_name(n)));
            lemma_grown_one_name(a, b, set![dir], blobs[n]);
        }
    }
}

/// Writing a file keeps the transaction in good order: `b` is the disk with the new file staged.
pub proof fn law_writing_keeps_order(
    ov: OverlayView,
    a: Disk,
    b: Disk,
    tx: TxDir,
    blobs: Map<u64, FileId>,
    p: PathView,
    n: u64,
    mode: Option<u32>,
    id: FileId,
    object: Object,
)
    requires
        in_good_order(ov, a, tx, blobs),
        b.well_formed(),
        same_tree(a, b),
        object is File,
        created_at(a, b, tx.at().push(staged_name()).push(blob_name(n)), id, object),
        tree_path(p),
        ov.write_check(a, p) is Ok,
        forall|q: PathView| #[trigger]
            is_placed(ov, q) ==> (placed_entry(ov, q).src matches SrcView::Blob { n: k, .. } ==> k != n),
    ensures
        in_good_order(ov.written(b, p, n, mode), b, tx, blobs.insert(n, b.shows(id))),
{
    let staged = tx.at().push(staged_name());
    let dir = a.dir_at(staged)->0;
    let file = staged.push(blob_name(n));
    assert(file.drop_last() =~= staged);
    assert(grown(a, a, set![dir]));
    lemma_grown_create(a, a, b, set![dir], file, id, object);
    lemma_order_grows(ov, a, b, tx, blobs, dir);
    lemma_grown_resolves(a, b, set![dir], staged);
    law_view_depends_on_the_tree(ov, a, b, p);
    law_view_depends_on_the_tree(ov, a, b, crate::path::parent_of(p));
    assert(ov.write_check(b, p) is Ok);
    law_writing_stays_faithful(ov, b, p, n, mode);
    let now = ov.written(b, p, n, mode);
    let more = blobs.insert(n, b.shows(id));
    if let Look::Found(e) = ov.look(b, p) {
        lemma_noted_right(ov, b, p);
        assert(now.detached == ov.detach(e).detached);
        assert(true_to(now, b)) by {
            assert forall|c: PathView| #[trigger] now.detached.contains_key(c) implies ov.detach(e).detached.contains_key(c) by {}
        }
    } else {
        assert(now.detached == ov.detached);
        assert(true_to(now, b)) by {
            assert forall|c: PathView| #[trigger] now.detached.contains_key(c) implies ov.detached.contains_key(c) by {}
        }
    }
    assert forall|k: PathView| #[trigger] now.placed.contains_key(k) implies k == p || ov.placed.contains_key(k) && ov.placed[k]
        == now.placed[k] by {}
    assert(one_name(b, id)) by {
        assert forall|k: Key, l: Key|
            #![trigger b.names.contains_key(k), b.names.contains_key(l)]
            b.names.contains_key(k) && b.names.contains_key(l) && b.names[k] == id && b.names[l] == id implies k == l by {
            assert(!a.names.contains_key(k) || a.names[k] != id);
            assert(!a.names.contains_key(l) || a.names[l] != id);
        }
    }
    assert(b.resolve(file) == Some(id));
    assert(holds_staged(now, b, tx, more)) by {
        assert forall|q: PathView| #[trigger] is_placed(now, q) implies q == p || is_placed(ov, q) && placed_entry(now, q)
            == placed_entry(ov, q) by {
            assert(now.placed.contains_key(q));
        }
        assert forall|q: PathView| #[trigger] is_placed(now, q) implies (placed_entry(now, q).src matches SrcView::Blob {
            n: k,
            ..
        } ==> more.contains_key(k) && b.resolve(staged.push(blob_name(k))) == Some(more[k]) && b.is_file(more[k]) && one_name(
            b,
            more[k],
        )) by {
            if q != p {
                assert(is_placed(ov, q));
            }
        }
        assert forall|x: PathView, y: PathView|
            #![trigger is_placed(now, x), is_placed(now, y)]
            is_placed(now, x) && is_placed(now, y) && (placed_entry(now, x).src matches SrcView::Blob { n: k, .. } && (
            placed_entry(now, y).src matches SrcView::Blob { n: l, .. } && k == l)) implies x == y by {
            if x != p {
                assert(is_placed(ov, x));
            }
            if y != p {
                assert(is_placed(ov, y));
            }
        }
    }
}

/// A directory that has just been made is there, empty, and nothing else is new.
proof fn lemma_just_made(a: Disk, b: Disk, p: PathView) -> (id: FileId)
    requires
        made_dir(a, b, p),
        !a.folds,
        p.len() > 0,
    ensures
        a.dir_at(p.drop_last()) matches Some(dir) && grown(a, b, set![dir]) && b.dir_at(p.drop_last()) == Some(dir),
        b.dir_at(p) == Some(id),
        bare(b, id),
        forall|k: Key| #[trigger]
            b.names.contains_key(k) ==> a.names.contains_key(k) || k == (Key { dir: a.dir_at(p.drop_last())->0, name: p.last() }),
{
    let (id, mode) = choose|id: FileId, mode: u32| #[trigger] created_at(a, b, p, id, Object::Dir { mode });
    let dir = a.dir_at(p.drop_last())->0;
    assert(grown(a, a, set![dir]));
    lemma_grown_create(a, a, b, set![dir], p, id, Object::Dir { mode });
    lemma_grown_resolves(a, b, set![dir], p.drop_last());
    assert(b.names.contains_key(Key { dir, name: p.last() }));
    assert(dir != id);
    id
}

/// A transaction is in good order when it has been started.
pub proof fn law_a_new_transaction_is_in_good_order(ov: OverlayView, n: Disk, b: Disk, tx: TxDir)
    requires
        home_made(n, b, tx.at()),
        b.well_formed(),
        b.steady,
        !n.folds,
        ov.placed == Map::<PathView, SlotView>::empty(),
        ov.detached == Map::<PathView, Gone>::empty(),
        ov.root_id == b.root,
        !ov.case_insensitive,
    ensures
        in_good_order(ov, b, tx, Map::empty()),
{
    let at = tx.at();
    let (staged, backup) = (at.push(staged_name()), at.push(backup_name()));
    let (x, y) = choose|x: Disk, y: Disk|
        #![trigger made_dir(n, x, at), made_dir(x, y, at.push(staged_name()))]
        made_dir(n, x, at) && made_dir(x, y, at.push(staged_name())) && made_dir(y, b, at.push(backup_name()));
    assert(staged.drop_last() =~= at && backup.drop_last() =~= at);
    let own = lemma_just_made(n, x, at);
    let one = lemma_just_made(x, y, staged);
    let two = lemma_just_made(y, b, backup);
    lemma_grown_resolves(y, b, set![own], staged);
    law_nothing_decided_is_faithful(ov, b);
    assert forall|m: Marker| !(#[trigger] has(b, tx, m)) by {
        let q = at.push(m.file());
        let k = Key { dir: own, name: m.file() };
        assert(q.drop_last() =~= at);
        assert(m.file().len() != staged_name().len() && m.file().len() != backup_name().len());
        assert(!x.names.contains_key(k));
        assert(!y.names.contains_key(k));
        assert(!b.names.contains_key(k));
    }
    assert(forall|q: PathView| !(#[trigger] is_placed(ov, q)));
}

} // verus!
