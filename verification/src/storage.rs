//! What a transaction keeps in its own directories, from its start until its plan is applied.
use vstd::prelude::*;

use crate::apply::{laid_out, readied, token_settled, tokens_settled, written_out};
use crate::caps::bare;
use crate::compile::{
    attaching, dir_staged, dirs_staged, is_placed, lemma_dirs_known, lemma_new_dir_listed, new_dirs, placed_entry, planned, Sources,
};
use crate::disk::{Disk, FileId, Key, Object};
use crate::grounding::{no_links_shared, one_name, sound_plan, staged_right, stored, true_to};
use crate::journal::{journal_json, sealed, JournalView};
use crate::json::json_printed;
use crate::overlay::{blob_name, new_dir_name, OverlayView, SrcView};
use crate::path::PathView;
use crate::plan::PlanView;
use crate::probing::{same_object, unknown};
use crate::restoration::{lemma_same_alike, places_differ, same_spot};
use crate::result::{dirs_bare, lemma_attach_exact, plain, undisputed};
use crate::sight::faithful;
use crate::recover::has;
use crate::state::{backup_name, journal_name, journal_tmp_name, progress_name, staged_name, Marker, TxDir};
use crate::tree::{lemma_same_tree_transitive, same_tree};
use crate::vfs::{created_at, same_volume};

verus! {

/// The object is of the same kind, if it is there at all.
pub open spec fn same_kind(a: Disk, b: Disk, id: FileId) -> bool {
    b.objects.contains_key(id) == a.objects.contains_key(id) && b.objects[id].kind() == a.objects[id].kind()
}

/// `b` is `a` with more in the directories `dirs`: every name leads where it led, what is new stands
/// there and leads to something that was not in use, and what was in use is as it was.
pub open spec fn grown(a: Disk, b: Disk, dirs: Set<FileId>) -> bool {
    &&& same_volume(a, b)
    &&& forall|k: Key| #[trigger] a.names.contains_key(k) ==> b.names.contains_key(k) && b.names[k] == a.names[k]
    &&& forall|k: Key| #[trigger]
        b.names.contains_key(k) && !a.names.contains_key(k) ==> dirs.contains(k.dir) && unknown(a, b.names[k])
    &&& forall|id: FileId| !unknown(a, id) ==> #[trigger] same_kind(a, b, id) && same_object(a, b, id)
}

/// Where names and objects stay, nothing has grown.
proof fn lemma_grown_same(base: Disk, a: Disk, b: Disk, dirs: Set<FileId>)
    requires
        grown(base, a, dirs),
        same_volume(a, b),
        a.names == b.names,
        a.objects == b.objects,
    ensures
        grown(base, b, dirs),
{
    assert forall|id: FileId| !unknown(base, id) implies #[trigger] same_kind(base, b, id) && same_object(base, b, id) by {
        assert(same_kind(base, a, id));
    }
}

/// Something is made in one of the directories.
pub proof fn lemma_grown_create(base: Disk, a: Disk, b: Disk, dirs: Set<FileId>, p: PathView, id: FileId, object: Object)
    requires
        grown(base, a, dirs),
        created_at(a, b, p, id, object),
        a.dir_at(p.drop_last()) matches Some(dir) && dirs.contains(dir),
    ensures
        grown(base, b, dirs),
        unknown(base, id),
{
    assert forall|k: Key| #[trigger] base.names.contains_key(k) implies base.names[k] != id && k.dir != id by {
        assert(a.names.contains_key(k));
    }
    assert(unknown(base, id));
    assert forall|x: FileId| !unknown(base, x) implies #[trigger] same_kind(base, b, x) && same_object(base, b, x) by {
        assert(same_kind(base, a, x));
    }
}

/// Something that is new is moved within one of the directories.
proof fn lemma_grown_move(base: Disk, a: Disk, b: Disk, dirs: Set<FileId>, from: Key, to: Key)
    requires
        grown(base, a, dirs),
        same_volume(a, b),
        a.names.contains_key(from),
        !base.names.contains_key(from),
        !a.names.contains_key(to),
        dirs.contains(to.dir),
        b.names == a.names.remove(from).insert(to, a.names[from]),
        b.objects == a.objects,
    ensures
        grown(base, b, dirs),
{
    assert forall|x: FileId| !unknown(base, x) implies #[trigger] same_kind(base, b, x) && same_object(base, b, x) by {
        assert(same_kind(base, a, x));
    }
    assert(!base.names.contains_key(to)) by {
        if base.names.contains_key(to) {
            assert(a.names.contains_key(to));
        }
    }
    assert(unknown(base, a.names[from]));
}

/// What a path leads to is in use.
proof fn lemma_in_use(d: Disk, p: PathView)
    requires
        d.resolve(p) is Some,
        !d.folds,
    ensures
        !unknown(d, d.resolve(p)->0),
{
    if p.len() > 0 {
        let dir = d.resolve(p.drop_last())->0;
        let k = Key { dir, name: p.last() };
        assert(d.names.contains_key(k));
    }
}

/// Every path leads where it led.
pub proof fn lemma_grown_resolves(a: Disk, b: Disk, dirs: Set<FileId>, p: PathView)
    requires
        grown(a, b, dirs),
        !a.folds,
        a.resolve(p) is Some,
    ensures
        b.resolve(p) == a.resolve(p),
        a.dir_at(p) == b.dir_at(p),
        a.is_file(a.resolve(p)->0) == b.is_file(a.resolve(p)->0),
        !unknown(a, a.resolve(p)->0),
    decreases p.len(),
{
    lemma_in_use(a, p);
    let id = a.resolve(p)->0;
    assert(same_kind(a, b, id));
    crate::tree::lemma_kind_dir(a.objects[id], b.objects[id]);
    if p.len() > 0 {
        lemma_grown_resolves(a, b, dirs, p.drop_last());
        let k = Key { dir: a.resolve(p.drop_last())->0, name: p.last() };
        assert(a.names.contains_key(k));
        assert(b.names.contains_key(k));
    }
}

/// An empty directory stays empty unless it is one of those that grow.
pub proof fn lemma_grown_bare(a: Disk, b: Disk, dirs: Set<FileId>, dir: FileId)
    requires
        grown(a, b, dirs),
        bare(a, dir),
        !dirs.contains(dir),
    ensures
        bare(b, dir),
{
    assert forall|k: Key| #[trigger] b.names.contains_key(k) implies k.dir != dir by {
        if a.names.contains_key(k) {
        }
    }
}

/// What had one name has one name.
pub proof fn lemma_grown_one_name(a: Disk, b: Disk, dirs: Set<FileId>, id: FileId)
    requires
        grown(a, b, dirs),
        one_name(a, id),
        !unknown(a, id),
    ensures
        one_name(b, id),
{
    assert forall|k: Key, l: Key|
        #![trigger b.names.contains_key(k), b.names.contains_key(l)]
        b.names.contains_key(k) && b.names.contains_key(l) && b.names[k] == id && b.names[l] == id implies k == l by {
        assert(a.names.contains_key(k) && a.names.contains_key(l));
    }
}

/// The new directories have been staged: each is there, empty, under its number.
proof fn lemma_dirs_are_staged(a: Disk, b: Disk, staged: PathView, dir: FileId, ks: Seq<u64>, ids: Map<u64, FileId>)
    requires
        dirs_staged(a, b, staged, ks, ids),
        !a.folds,
        a.steady,
        a.dir_at(staged) == Some(dir),
    ensures
        grown(a, b, set![dir]),
        forall|n: u64| #[trigger]
            ids.contains_key(n) ==> b.resolve(staged.push(new_dir_name(n))) == Some(ids[n]) && b.is_dir(ids[n]) && bare(
                b,
                ids[n],
            ) && unknown(a, ids[n]),
    decreases ks.len(),
{
    lemma_in_use(a, staged);
    if ks.len() > 0 {
        let (m, known) = choose|m: Disk, known: Map<u64, FileId>|
            dirs_staged(a, m, staged, ks.drop_last(), known) && #[trigger] dir_staged(m, b, staged, ks.last(), known, ids);
        lemma_dirs_are_staged(a, m, staged, dir, ks.drop_last(), known);
        let k = ks.last();
        let p = staged.push(new_dir_name(k));
        let (id, mode) = choose|id: FileId, mode: u32| #[trigger]
            created_at(m, b, p, id, Object::Dir { mode }) && ids == known.insert(k, b.shows(id));
        assert(p.drop_last() =~= staged);
        lemma_grown_resolves(a, m, set![dir], staged);
        lemma_grown_create(a, m, b, set![dir], p, id, Object::Dir { mode });
        assert(grown(m, m, set![dir]));
        lemma_grown_create(m, m, b, set![dir], p, id, Object::Dir { mode });
        lemma_grown_resolves(m, b, set![dir], staged);
        assert(b.names.contains_key(Key { dir, name: new_dir_name(k) }));
        assert(dir != id);
        assert forall|n: u64| #[trigger] ids.contains_key(n) implies b.resolve(staged.push(new_dir_name(n))) == Some(ids[n])
            && b.is_dir(ids[n]) && bare(b, ids[n]) && unknown(a, ids[n]) by {
            if n != k {
                assert(known.contains_key(n));
                lemma_grown_resolves(m, b, set![dir], staged.push(new_dir_name(n)));
                lemma_grown_bare(m, b, set![dir], ids[n]);
            } else {
                assert(b.is_dir(id));
                assert(bare(b, id)) by {
                    assert forall|q: Key| #[trigger] b.names.contains_key(q) implies q.dir != id by {
                        if m.names.contains_key(q) {
                        } else {
                            assert(q == (Key { dir, name: new_dir_name(k) }));
                        }
                    }
                }
            }
        }
    }
}

/// Making the files of tokens durable changes no names.
proof fn lemma_settling_keeps(a: Disk, b: Disk, p: PlanView, n: int)
    requires
        tokens_settled(a, b, p, n),
    ensures
        a.names == b.names,
        a.objects == b.objects,
        same_volume(a, b),
    decreases n,
{
    if n > 0 {
        let m = choose|m: Disk| tokens_settled(a, m, p, n - 1) && #[trigger] token_settled(m, b, p.tokens[n - 1]);
        lemma_settling_keeps(a, m, p, n - 1);
    }
}

/// Getting ready adds a log and a journal in the transaction's own directory, and nothing else.
pub proof fn lemma_ready_has_grown(a: Disk, b: Disk, tx: TxDir, j: JournalView, own: FileId)
    requires
        readied(a, b, tx, j),
        !a.folds,
        a.dir_at(tx.at()) == Some(own),
    ensures
        grown(a, b, set![own]),
        forall|k: Key| #[trigger]
            b.names.contains_key(k) && !a.names.contains_key(k) ==> k.name == progress_name() || k.name == journal_name(),
        !a.names.contains_key(Key { dir: own, name: progress_name() }),
{
    let data = sealed(json_printed(journal_json(j)));
    let dirs = set![own];
    let (m, x, y) = choose|m: Disk, x: Seq<Disk>, y: Seq<Disk>|
        #![trigger laid_out(x, a, m, tx, j.plan), written_out(y, m, b, tx, data)]
        laid_out(x, a, m, tx, j.plan) && written_out(y, m, b, tx, data);
    let (log, draft, place) = (
        tx.at().push(progress_name()),
        tx.at().push(journal_tmp_name()),
        tx.at().push(journal_name()),
    );
    assert(log.drop_last() =~= tx.at() && draft.drop_last() =~= tx.at() && place.drop_last() =~= tx.at());
    lemma_settling_keeps(x[0], x[1], j.plan, j.plan.tokens.len() as int);
    assert(grown(a, x[0], dirs));
    lemma_grown_same(a, x[0], x[3], dirs);
    lemma_grown_resolves(a, x[3], dirs, tx.at());
    let (id, mode) = choose|id: FileId, mode: u32| #[trigger]
        created_at(x[3], x[4], log, id, Object::File { data: Seq::empty(), mode });
    lemma_grown_create(a, x[3], x[4], dirs, log, id, Object::File { data: Seq::empty(), mode });
    assert(!x[3].names.contains_key(Key { dir: own, name: progress_name() }));
    lemma_grown_same(a, x[4], x[7], dirs);
    lemma_grown_resolves(a, m, dirs, tx.at());
    let (id, mode) = choose|id: FileId, mode: u32| #[trigger] created_at(m, y[1], draft, id, Object::File { data, mode });
    let from = Key { dir: own, name: journal_tmp_name() };
    assert(!a.names.contains_key(from)) by {
        if a.names.contains_key(from) {
            assert(m.names.contains_key(from));
        }
    }
    lemma_grown_create(a, m, y[1], dirs, draft, id, Object::File { data, mode });
    lemma_grown_same(a, y[1], y[2], dirs);
    lemma_grown_resolves(a, y[2], dirs, tx.at());
    lemma_grown_move(a, y[2], y[3], dirs, from, Key { dir: own, name: journal_name() });
    lemma_grown_same(a, y[3], y[4], dirs);
}

/// The transaction `tx` is in good order: nobody else has changed what it saw, its directories are
/// there with everything that was staged, and the backup is empty.
pub open spec fn in_good_order(ov: OverlayView, d: Disk, tx: TxDir, blobs: Map<u64, FileId>) -> bool {
    &&& d.well_formed()
    &&& d.steady
    &&& !d.folds
    &&& !ov.case_insensitive
    &&& ov.root_id == d.root
    &&& faithful(ov, d)
    &&& ov.rooted(d)
    &&& plain(ov)
    &&& true_to(ov, d)
    &&& holds_staged(ov, d, tx, blobs)
}

/// The transaction's directories are there, the backup is empty, and each file that was written is
/// staged under its number and no other name, and placed once.
pub open spec fn holds_staged(ov: OverlayView, d: Disk, tx: TxDir, blobs: Map<u64, FileId>) -> bool {
    let staged = tx.at().push(staged_name());
    &&& d.dir_at(tx.at()) is Some
    &&& d.dir_at(staged) is Some
    &&& d.dir_at(tx.at().push(backup_name())) matches Some(backup) && bare(d, backup)
    &&& forall|m: Marker| !(#[trigger] has(d, tx, m))
    &&& forall|q: PathView| #[trigger]
        is_placed(ov, q) ==> (placed_entry(ov, q).src matches SrcView::Blob { n, .. } ==> blobs.contains_key(n) && d.resolve(
            staged.push(blob_name(n)),
        ) == Some(blobs[n]) && d.is_file(blobs[n]) && one_name(d, blobs[n]))
    &&& forall|p: PathView, q: PathView|
        #![trigger is_placed(ov, p), is_placed(ov, q)]
        is_placed(ov, p) && is_placed(ov, q) && (placed_entry(ov, p).src matches SrcView::Blob { n, .. } && (placed_entry(
            ov,
            q,
        ).src matches SrcView::Blob { n: k, .. } && n == k)) ==> p == q
}

/// The plan of a transaction in good order is sound when it has just been compiled.
pub proof fn lemma_compiled_is_sound(s: Sources, pk: Seq<PathView>, dk: Seq<PathView>, tx: TxDir, p: PlanView)
    requires
        planned(s, pk, dk, p),
        p.valid(),
        p.tokens.len() <= usize::MAX,
        s.tx == tx.id(),
        in_good_order(s.ov, s.before, tx, s.blobs),
        no_links_shared(s.ov, s.before),
        s.after.well_formed(),
        places_differ(s.before, p),
    ensures
        sound_plan(s, pk, dk, s.after, tx, p),
        grown(s.before, s.after, set![s.before.dir_at(s.staged())->0]),
{
    let (a, d) = (s.before, s.after);
    let dir = a.dir_at(s.staged())->0;
    let backup = a.dir_at(s.backup())->0;
    lemma_dirs_are_staged(a, d, s.staged(), dir, new_dirs(s.entries()), s.dirs);
    lemma_grown_resolves(a, d, set![dir], tx.at());
    lemma_grown_resolves(a, d, set![dir], s.staged());
    lemma_grown_resolves(a, d, set![dir], s.backup());
    crate::grounding::lemma_paths_apart(s);
    if backup == dir {
        crate::result::lemma_same_dir(a, s.backup(), s.staged());
    }
    lemma_grown_bare(a, d, set![dir], backup);
    assert forall|q: PathView| #[trigger] is_placed(s.ov, q) implies staged_right(s, d, placed_entry(s.ov, q)) by {
        match placed_entry(s.ov, q).src {
            SrcView::Blob { n, .. } => {
                let f = s.staged().push(blob_name(n));
                lemma_grown_resolves(a, d, set![dir], f);
                lemma_grown_one_name(a, d, set![dir], s.blobs[n]);
            },
            SrcView::NewDir { n } => {
                assert(crate::overlay::origin_of(placed_entry(s.ov, q)) is None);
                assert(attaching(s.ov, a, q));
                lemma_attach_exact(s, pk, dk, p, q);
                let i = choose|i: int| 0 <= i < s.attach.len() && s.attach[i] == q;
                assert(s.entries()[i] == placed_entry(s.ov, q));
                lemma_new_dir_listed(s.entries(), i);
                lemma_dirs_known(a, d, s.staged(), new_dirs(s.entries()), s.dirs, n);
            },
            _ => {},
        }
    }
    assert(stored(s, d, tx));
    lemma_stored_bare(s, d, tx);
    lemma_same_ways(a, d, p);
    assert(undisputed(s, d));
}

/// What is staged as it should be holds empty new directories.
proof fn lemma_stored_bare(s: Sources, d: Disk, tx: TxDir)
    requires
        stored(s, d, tx),
    ensures
        dirs_bare(s, d),
{
    assert forall|k: PathView| #[trigger] s.ov.placed.contains_key(k) implies (
    s.ov.placed[k] matches crate::overlay::SlotView::Present(e) ==> (e.src matches SrcView::NewDir { n } ==> bare(
        d,
        s.dirs[n],
    ))) by {
        if is_placed(s.ov, k) {
            assert(staged_right(s, d, placed_entry(s.ov, k)));
        }
    }
}

/// Ways lead back or not whatever the disk holds.
proof fn lemma_same_ways(a: Disk, b: Disk, p: PlanView)
    requires
        a.folds == b.folds,
        places_differ(a, p),
    ensures
        places_differ(b, p),
{
    assert forall|t: int, i: int, j: int|
        #![trigger p.tokens[t].locs[i], p.tokens[t].locs[j]]
        0 <= t < p.tokens.len() && 0 <= i < j < p.tokens[t].locs.len() implies !same_spot(
        b,
        p.tokens[t].locs[i],
        p.tokens[t].locs[j],
    ) by {
        assert(!same_spot(a, p.tokens[t].locs[i], p.tokens[t].locs[j]));
        lemma_same_alike(a, b, p.tokens[t].locs[i].path, p.tokens[t].locs[j].path);
    }
}

/// The plan of a transaction in good order is sound once the transaction has been made ready, and no
/// marker is set.
pub proof fn lemma_ready_is_sound(s: Sources, pk: Seq<PathView>, dk: Seq<PathView>, m: Disk, tx: TxDir, p: PlanView, j: JournalView)
    requires
        sound_plan(s, pk, dk, s.after, tx, p),
        grown(s.before, s.after, set![s.before.dir_at(s.staged())->0]),
        in_good_order(s.ov, s.before, tx, s.blobs),
        m.well_formed(),
        same_tree(s.after, m),
        readied(s.after, m, tx, j),
    ensures
        sound_plan(s, pk, dk, m, tx, p),
        forall|k: Marker| !(#[trigger] has(m, tx, k)),
{
    let (a, d) = (s.before, s.after);
    let own = d.dir_at(tx.at())->0;
    let backup = d.dir_at(s.backup())->0;
    lemma_grown_resolves(a, d, set![a.dir_at(s.staged())->0], tx.at());
    lemma_ready_has_grown(d, m, tx, j, own);
    lemma_grown_resolves(d, m, set![own], tx.at());
    lemma_grown_resolves(d, m, set![own], s.staged());
    lemma_grown_resolves(d, m, set![own], s.backup());
    crate::grounding::lemma_paths_apart(s);
    if backup == own {
        crate::result::lemma_same_dir(d, s.backup(), tx.at());
    }
    if a.dir_at(s.staged())->0 == own {
        crate::result::lemma_same_dir(d, s.staged(), tx.at());
    }
    lemma_grown_bare(d, m, set![own], backup);
    lemma_same_tree_transitive(a, d, m);
    assert forall|k: Marker| !(#[trigger] has(m, tx, k)) by {
        let q = tx.at().push(k.file());
        let key = Key { dir: own, name: k.file() };
        assert(q.drop_last() =~= tx.at());
        assert(!(has(a, tx, k)));
        assert(!a.names.contains_key(key));
        assert(!d.names.contains_key(key));
        assert(k.file().len() != progress_name().len() && k.file().len() != journal_name().len());
        assert(!m.names.contains_key(key));
    }
    assert forall|q: PathView| #[trigger] is_placed(s.ov, q) implies staged_right(s, m, placed_entry(s.ov, q)) by {
        assert(staged_right(s, d, placed_entry(s.ov, q)));
        match placed_entry(s.ov, q).src {
            SrcView::Blob { n, .. } => {
                lemma_grown_resolves(d, m, set![own], s.staged().push(blob_name(n)));
                lemma_grown_one_name(d, m, set![own], s.blobs[n]);
            },
            SrcView::NewDir { n } => {
                let f = s.staged().push(new_dir_name(n));
                lemma_grown_resolves(d, m, set![own], f);
                if s.dirs[n] == own {
                    crate::result::lemma_same_dir(d, f, tx.at());
                }
                lemma_grown_bare(d, m, set![own], s.dirs[n]);
            },
            _ => {},
        }
    }
    assert(stored(s, m, tx));
    lemma_stored_bare(s, m, tx);
    lemma_same_ways(d, m, p);
    assert(undisputed(s, m));
}

} // verus!
