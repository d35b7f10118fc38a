//! Getting ready: once everything that a journal names has been made durable, and then the
//! journal, nothing that matters to the transaction is pending.
use vstd::prelude::*;

use crate::apply::{laid_out, made_file, readied, token_settled, tokens_settled, written_out};
use crate::atomicity::settled;
use crate::bytes::Name;
use crate::crash::{may_come_out, possible, survivors};
use crate::disk::{outcome, Change, Disk, Fate, FileId, Key, Object};
use crate::durability::{
    all_apply, applied, avoids, consistent, firm, left_with, lemma_firm_survives, lemma_moved_consistent,
    lemma_sync_consistent, lemma_sync_sturdy, lemma_synced_firm, lemma_synced_part, lemma_widen, outside, settled_part,
    sturdy, waits,
};
use crate::journal::{journal_json, sealed, JournalView};
use crate::json::json_printed;
use crate::path::PathView;
use crate::plan::PlanView;
use crate::recover::synced_all;
use crate::restoration::lemma_resolved_linked;
use crate::state::{backup_name, journal_name, journal_tmp_name, private_root, progress_name, staged_name, TxDir};
use crate::tree::{alike, lemma_child_off_path, lemma_frame_move, lemma_lookup, lemma_same_content};
use crate::turns::{lemma_found_outside, lemma_secluded, outlying, secluded};
use crate::vfs::{created_at, dir_synced_at, file_synced_at, fresh, mentions, same_but_shown};

verus! {

/// No name leads to the object `id` or is in it.
pub open spec fn unused(names: Map<Key, FileId>, id: FileId) -> bool {
    forall|k: Key| #[trigger] names.contains_key(k) ==> names[k] != id && k.dir != id
}

/// Whatever comes out, a fresh object is not in use.
pub proof fn lemma_unused(durable: Map<Key, FileId>, pending: Seq<Change>, f: Seq<Fate>, id: FileId)
    requires
        unused(durable, id),
        forall|i: int| 0 <= i < pending.len() ==> !mentions(#[trigger] pending[i], id),
        f.len() == pending.len(),
    ensures
        unused(survivors(durable, pending, f), id),
    decreases pending.len(),
{
    if pending.len() > 0 {
        let rest = pending.drop_last();
        assert forall|i: int| 0 <= i < rest.len() implies !mentions(#[trigger] rest[i], id) by {
            assert(rest[i] == pending[i]);
        }
        lemma_unused(durable, rest, f.drop_last(), id);
        let c = pending[pending.len() - 1];
        assert(!mentions(c, id));
        let (x, y) = (survivors(durable, rest, f.drop_last()), survivors(durable, pending, f));
        assert forall|k: Key| #[trigger] y.contains_key(k) implies y[k] != id && k.dir != id by {
            if x.contains_key(k) {
                assert(x[k] != id && k.dir != id);
            }
        }
    }
}

/// Whatever comes out, there is no such name in the directory.
pub open spec fn never_there(d: Disk, dir: FileId, name: Name) -> bool {
    forall|f: Seq<Fate>| possible(d.pending, f) ==> (#[trigger] left_with(d, f)).lookup(dir, name) is None
}

/// What is durable outside `scratch` and not there is never there.
pub proof fn lemma_firmly_absent(d: Disk, scratch: Set<FileId>, dir: FileId, name: Name)
    requires
        d.well_formed(),
        firm(d, scratch),
        !scratch.contains(dir),
        d.lookup(dir, name) is None,
    ensures
        never_there(d, dir, name),
{
    assert forall|f: Seq<Fate>| possible(d.pending, f) implies (#[trigger] left_with(d, f)).lookup(dir, name) is None by {
        lemma_firm_survives(d, scratch, f);
        lemma_found_outside(d, left_with(d, f), scratch, dir, name);
    }
}

/// A disk of which whatever comes out makes sense makes sense.
pub proof fn lemma_sturdy_well_formed(d: Disk)
    requires
        consistent(d),
        sturdy(d),
    ensures
        d.well_formed(),
{
    let all = all_apply(d.pending.len());
    assert(possible(d.pending, all));
    assert(left_with(d, all) == d);
}

/// Names to which one for a non-directory is added still make sense, if there is none like it.
proof fn lemma_added_well_formed(x: Disk, y: Disk, k: Key, id: FileId)
    requires
        x.well_formed(),
        y.root == x.root,
        y.folds == x.folds,
        y.names == x.names.insert(k, id),
        x.lookup(k.dir, k.name) is None,
        forall|o: FileId| o != id && #[trigger] x.objects.contains_key(o) ==> y.objects.contains_key(o) && y.objects[o]
            == x.objects[o],
        y.objects.contains_key(id),
        !y.is_dir(id),
        unused(x.names, id) || (!x.is_dir(id) && x.objects.contains_key(id)),
        id != x.root,
        k.dir != id,
        x.is_dir(k.dir),
    ensures
        y.well_formed(),
{
    lemma_lookup(x, k.dir, k.name);
    assert forall|q: Key| #[trigger] y.names.contains_key(q) implies y.is_dir(q.dir) && y.objects.contains_key(
        y.names[q],
    ) && y.names[q] != y.root by {
        if q != k {
            assert(x.names.contains_key(q));
            assert(x.is_dir(q.dir));
        }
    }
    assert forall|q: Key, r: Key|
        #![trigger y.names.contains_key(q), y.names.contains_key(r)]
        y.names.contains_key(q) && y.names.contains_key(r) && y.names[q] == y.names[r] && y.is_dir(
            y.names[q],
        ) implies q == r by {
        assert(q == k || x.names.contains_key(q));
        assert(r == k || x.names.contains_key(r));
    }
    if y.folds {
        assert forall|q: Key, r: Key|
            #![trigger y.names.contains_key(q), y.names.contains_key(r)]
            y.names.contains_key(q) && y.names.contains_key(r) && q.dir == r.dir && crate::bytes::folded(q.name)
                == crate::bytes::folded(r.name) implies q == r by {
            assert(q == k || x.names.contains_key(q));
            assert(r == k || x.names.contains_key(r));
            assert(q != k && r == k ==> !alike(x, q.name, k.name));
            assert(q == k && r != k ==> !alike(x, r.name, k.name));
        }
    }
    assert(y.names.dom() =~= x.names.dom().insert(k));
    assert(x.is_dir(x.root));
}

/// A file that is created is pending, and whatever comes out, the names make sense.
pub proof fn lemma_created_sturdy(s: Disk, mid: Disk, k: Key, id: FileId, object: Object)
    requires
        consistent(s),
        sturdy(s),
        s.is_dir(k.dir),
        never_there(s, k.dir, k.name),
        fresh(s, id),
        k.dir != id,
        object is File,
        same_but_shown(s.created(k, id, object), mid),
    ensures
        consistent(mid),
        sturdy(mid),
        mid.pending.drop_last() == s.pending,
{
    let c = mid.pending.last();
    assert(mid.pending.drop_last() =~= s.pending);
    assert(all_apply(mid.pending.len()).drop_last() =~= all_apply(s.pending.len()));
    assert forall|f: Seq<Fate>| possible(mid.pending, f) implies (#[trigger] left_with(mid, f)).well_formed() by {
        let g = f.drop_last();
        lemma_earlier_possible(s, mid, f);
        lemma_unused(s.durable, s.pending, g, id);
        let x = left_with(s, g);
        let y = left_with(mid, f);
        assert(x.well_formed());
        assert(y.names == outcome(x.names, c, f.last()));
        if f.last() == Fate::Drop {
            lemma_replaced_well_formed(x, y, id);
        } else {
            assert(y.names == x.names.insert(k, id));
            lemma_added_well_formed(x, y, k, id);
        }
    }
}

/// An object that is not in use may be replaced.
proof fn lemma_replaced_well_formed(x: Disk, y: Disk, id: FileId)
    requires
        x.well_formed(),
        y.root == x.root,
        y.folds == x.folds,
        y.names == x.names,
        unused(x.names, id),
        id != x.root,
        forall|o: FileId| o != id && #[trigger] x.objects.contains_key(o) ==> y.objects.contains_key(o) && y.objects[o]
            == x.objects[o],
    ensures
        y.well_formed(),
{
    assert(x.is_dir(x.root));
    assert forall|q: Key| #[trigger] y.names.contains_key(q) implies y.is_dir(q.dir) && y.objects.contains_key(
        y.names[q],
    ) && y.names[q] != y.root by {
        assert(x.names.contains_key(q));
        assert(x.is_dir(q.dir));
    }
    assert forall|q: Key, r: Key|
        #![trigger y.names.contains_key(q), y.names.contains_key(r)]
        y.names.contains_key(q) && y.names.contains_key(r) && y.names[q] == y.names[r] && y.is_dir(
            y.names[q],
        ) implies q == r by {
        assert(x.names.contains_key(q) && x.names.contains_key(r));
    }
}

/// What may come out of all changes may come out of the earlier ones.
proof fn lemma_earlier_possible(s: Disk, t: Disk, f: Seq<Fate>)
    requires
        t.pending.len() > 0,
        t.pending.drop_last() == s.pending,
        possible(t.pending, f),
    ensures
        possible(s.pending, f.drop_last()),
{
    assert forall|i: int| 0 <= i < s.pending.len() implies may_come_out(#[trigger] s.pending[i], f.drop_last()[i]) by {
        assert(t.pending.drop_last()[i] == t.pending[i]);
        assert(may_come_out(t.pending[i], f[i]));
    }
}

/// A file that is moved in the same directory: whatever comes out, the names make sense.
proof fn lemma_moved_sturdy(s: Disk, t: Disk, k: Key, l: Key)
    requires
        consistent(s),
        sturdy(s),
        s.well_formed(),
        s.names.contains_key(k),
        s.is_file(s.names[k]),
        s.is_dir(l.dir),
        never_there(s, l.dir, l.name),
        same_but_shown(s.moved(k, l), t),
    ensures
        consistent(t),
        sturdy(t),
        t.pending.drop_last() == s.pending,
{
    let c = t.pending.last();
    let id = s.names[k];
    assert(t.pending.drop_last() =~= s.pending);
    lemma_moved_consistent(s, k, l);
    assert forall|f: Seq<Fate>| possible(t.pending, f) implies (#[trigger] left_with(t, f)).well_formed() by {
        let g = f.drop_last();
        lemma_earlier_possible(s, t, f);
        let x = left_with(s, g);
        let y = left_with(t, f);
        assert(x.well_formed());
        assert(y.names == outcome(x.names, c, f.last()));
        if f.last() != Fate::Drop {
            let less = f.last() != Fate::BothNames && x.names.contains_key(k) && x.names[k] == id;
            let z = Disk {
                names: if less {
                    x.names.remove(k)
                } else {
                    x.names
                },
                ..x
            };
            assert(z.well_formed()) by {
                assert(z.names.dom() =~= x.names.dom().remove(k) || z.names == x.names);
                assert forall|q: Key| #[trigger] z.names.contains_key(q) implies x.names.contains_key(q) by {}
            }
            assert(z.lookup(l.dir, l.name) is None) by {
                lemma_lookup(x, l.dir, l.name);
                lemma_lookup(z, l.dir, l.name);
                if z.lookup(l.dir, l.name) is Some {
                    let q = z.lookup(l.dir, l.name)->0;
                    assert(x.names.contains_key(q));
                    assert(alike(x, q.name, l.name));
                }
            }
            assert(y.names == z.names.insert(l, id));
            lemma_added_well_formed(z, y, l, id);
        }
    }
}

/// The first `n` pending changes make no difference outside `scratch`, and the others wait for
/// `dirs`.
pub open spec fn waits_for(d: Disk, scratch: Set<FileId>, dirs: Set<FileId>, n: int) -> bool {
    &&& 0 <= n <= d.pending.len()
    &&& settled_part(d, n, scratch)
    &&& forall|i: int| n <= i < d.pending.len() ==> avoids(#[trigger] d.pending[i], scratch)
    &&& forall|i: int, x: FileId| n <= i && #[trigger] waits(d, i, x) ==> dirs.contains(x)
}

/// What is pending outside `scratch`, into which nothing leads, waits for the directories `dirs`
/// only.
pub open spec fn leaning(d: Disk, scratch: Set<FileId>, dirs: Set<FileId>) -> bool {
    &&& consistent(d)
    &&& sturdy(d)
    &&& secluded(d, scratch)
    &&& exists|n: int| waits_for(d, scratch, dirs, n)
}

/// Where nothing is waited for, all names are durable outside `scratch`.
proof fn lemma_leaning_on_nothing(d: Disk, scratch: Set<FileId>, dirs: Set<FileId>)
    requires
        leaning(d, scratch, dirs),
        forall|x: FileId| !dirs.contains(x),
    ensures
        firm(d, scratch),
{
    let n = choose|n: int| waits_for(d, scratch, dirs, n);
    let none = Seq::<FileId>::empty();
    assert forall|i: int, x: FileId|
        n <= i < d.pending.len() && #[trigger] d.pending[i].unsynced.contains(x) implies none.contains(x) by {
        assert(waits(d, i, x));
    }
    lemma_synced_firm(d, n, none, scratch);
    assert(synced_all(d, none) == d);
}

/// A directory that has been synced is waited for no more.
proof fn lemma_leaning_synced(a: Disk, b: Disk, q: PathView, scratch: Set<FileId>, dirs: Set<FileId>, dir: FileId, name: Name)
    requires
        leaning(a, scratch, dirs),
        dir_synced_at(a, b, q),
    ensures
        leaning(b, scratch, dirs.remove(a.dir_at(q)->0)),
        forall|p: PathView| #[trigger] b.resolve(p) == a.resolve(p),
        forall|p: PathView| #[trigger] b.dir_at(p) == a.dir_at(p),
        b.folds == a.folds,
        never_there(a, dir, name) ==> never_there(b, dir, name),
{
    let x = a.dir_at(q)->0;
    let one = seq![x];
    assert(one.drop_last() =~= Seq::<FileId>::empty());
    reveal_with_fuel(synced_all, 2);
    assert(b == synced_all(a, one));
    let n = choose|n: int| waits_for(a, scratch, dirs, n);
    lemma_sync_consistent(a, one);
    lemma_sync_sturdy(a, one);
    let k = lemma_synced_part(a, one, n, scratch);
    lemma_same_content(a, b);
    assert forall|i: int, y: FileId| k <= i && #[trigger] waits(b, i, y) implies dirs.remove(x).contains(y) by {
        assert(!one.contains(y));
        assert(one[0] == x);
        let j = choose|j: int| n <= j && waits(a, j, y);
        assert(waits(a, j, y));
    }
    assert(waits_for(b, scratch, dirs.remove(x), k));
    if never_there(a, dir, name) {
        assert forall|f: Seq<Fate>| possible(b.pending, f) implies (#[trigger] left_with(b, f)).lookup(dir, name) is None by {
            let g = lemma_widen(a, one, f);
            assert(left_with(a, g).lookup(dir, name) is None);
            assert(left_with(b, f).names == left_with(a, g).names);
        }
    }
}

/// Syncing a file makes no difference to what is waited for.
proof fn lemma_leaning_file(a: Disk, b: Disk, q: PathView, scratch: Set<FileId>, dirs: Set<FileId>, dir: FileId, name: Name)
    requires
        leaning(a, scratch, dirs),
        file_synced_at(a, b, q),
    ensures
        leaning(b, scratch, dirs),
        forall|p: PathView| #[trigger] b.resolve(p) == a.resolve(p),
        forall|p: PathView| #[trigger] b.dir_at(p) == a.dir_at(p),
        b.folds == a.folds,
        never_there(a, dir, name) ==> never_there(b, dir, name),
{
    let n = choose|n: int| waits_for(a, scratch, dirs, n);
    lemma_same_content(a, b);
    assert forall|f: Seq<Fate>| possible(b.pending, f) implies (#[trigger] left_with(b, f)).well_formed() by {
        assert(left_with(a, f).well_formed());
    }
    assert forall|i: int, x: FileId| n <= i && #[trigger] waits(b, i, x) implies dirs.contains(x) by {
        assert(waits(a, i, x));
    }
    assert(waits_for(b, scratch, dirs, n));
    if never_there(a, dir, name) {
        assert forall|f: Seq<Fate>| possible(b.pending, f) implies (#[trigger] left_with(b, f)).lookup(dir, name) is None by {
            assert(left_with(a, f).lookup(dir, name) is None);
        }
    }
}

/// Syncing the files of tokens makes none either.
proof fn lemma_leaning_tokens(
    a: Disk,
    b: Disk,
    p: PlanView,
    n: int,
    scratch: Set<FileId>,
    dirs: Set<FileId>,
    dir: FileId,
    name: Name,
)
    requires
        leaning(a, scratch, dirs),
        tokens_settled(a, b, p, n),
    ensures
        leaning(b, scratch, dirs),
        forall|q: PathView| #[trigger] b.resolve(q) == a.resolve(q),
        forall|q: PathView| #[trigger] b.dir_at(q) == a.dir_at(q),
        b.folds == a.folds,
        never_there(a, dir, name) ==> never_there(b, dir, name),
    decreases n,
{
    if n > 0 {
        let m = choose|m: Disk| tokens_settled(a, m, p, n - 1) && #[trigger] token_settled(m, b, p.tokens[n - 1]);
        lemma_leaning_tokens(a, m, p, n - 1, scratch, dirs, dir, name);
        if b != m {
            lemma_leaning_file(m, b, p.tokens[n - 1].locs[0].path, scratch, dirs, dir, name);
        }
        assert forall|q: PathView| #[trigger] b.resolve(q) == a.resolve(q) by {
            assert(m.resolve(q) == a.resolve(q));
        }
        assert forall|q: PathView| #[trigger] b.dir_at(q) == a.dir_at(q) by {
            assert(m.dir_at(q) == a.dir_at(q));
        }
    }
}

/// A file that is made in the transaction's directory waits for that directory.
proof fn lemma_leaning_made(
    a: Disk,
    b: Disk,
    tx: TxDir,
    name: Name,
    data: Seq<u8>,
    scratch: Set<FileId>,
    dirs: Set<FileId>,
) -> (fewer: Set<FileId>)
    requires
        leaning(a, scratch, dirs),
        made_file(a, b, tx.at().push(name), data),
        a.dir_at(tx.at()) matches Some(own) && dirs.contains(own) && never_there(a, own, name),
    ensures
        leaning(b, fewer, dirs),
        fewer.subset_of(scratch),
        b.dir_at(tx.at()) == a.dir_at(tx.at()),
        forall|q: PathView| a.dir_at(q) is Some ==> #[trigger] b.dir_at(q) == a.dir_at(q),
{
    let at = tx.at().push(name);
    let own = a.dir_at(tx.at())->0;
    assert(at.drop_last() =~= tx.at());
    let k = Key { dir: own, name };
    let (id, mode) = choose|id: FileId, mode: u32| #[trigger] created_at(a, b, at, id, Object::File { data, mode });
    let object = Object::File { data, mode };
    let fewer = scratch.remove(id);
    let n = choose|n: int| waits_for(a, scratch, dirs, n);
    lemma_sturdy_well_formed(a);
    lemma_resolved_linked(a, tx.at());
    lemma_secluded(a, scratch, tx.at());
    lemma_created_sturdy(a, b, k, id, object);
    lemma_sturdy_well_formed(b);
    let c = b.pending.last();
    assert(b.pending.take(n) =~= a.pending.take(n));
    assert forall|f: Seq<Fate>| #[trigger] possible(b.pending.take(n), f) implies outside(
        survivors(b.durable, b.pending.take(n), f),
        fewer,
    ) == outside(applied(b.durable, b.pending.take(n)), fewer) by {
        let some = a.pending.take(n);
        assert forall|i: int| 0 <= i < some.len() implies !mentions(#[trigger] some[i], id) by {
            assert(!mentions(a.pending[i], id));
        }
        let all = all_apply(some.len());
        lemma_unused(a.durable, some, f, id);
        lemma_unused(a.durable, some, all, id);
        let (x, y) = (survivors(a.durable, some, f), survivors(a.durable, some, all));
        assert(outside(x, fewer) =~= outside(x, scratch));
        assert(outside(y, fewer) =~= outside(y, scratch));
    }
    assert forall|i: int| n <= i < b.pending.len() implies avoids(#[trigger] b.pending[i], fewer) by {
        if i < a.pending.len() {
            assert(b.pending.drop_last()[i] == b.pending[i]);
            assert(avoids(a.pending[i], scratch));
        }
    }
    assert forall|i: int, x: FileId| n <= i && #[trigger] waits(b, i, x) implies dirs.contains(x) by {
        if i < a.pending.len() {
            assert(b.pending.drop_last()[i] == b.pending[i]);
            assert(waits(a, i, x));
        }
    }
    assert(waits_for(b, fewer, dirs, n));
    assert forall|q: Key| #[trigger] b.names.contains_key(q) && !fewer.contains(q.dir) implies !fewer.contains(
        b.names[q],
    ) by {
        if q != k {
            assert(a.names.contains_key(q));
        }
    }
    assert forall|q: PathView| a.dir_at(q) is Some implies #[trigger] b.dir_at(q) == a.dir_at(q) by {
        lemma_made_keeps_dirs(a, b, at, id, object, q);
    }
    fewer
}

/// Where a directory was, it still is when a file has been made.
proof fn lemma_made_keeps_dirs(a: Disk, b: Disk, at: PathView, id: FileId, object: Object, q: PathView)
    requires
        a.well_formed(),
        b.well_formed(),
        created_at(a, b, at, id, object),
        a.dir_at(q) is Some,
    ensures
        b.dir_at(q) == a.dir_at(q),
    decreases q.len(),
{
    let x = a.dir_at(q)->0;
    lemma_resolved_linked(a, q);
    if q.len() > 0 {
        let up = q.drop_last();
        assert(a.dir_at(up) is Some);
        lemma_made_keeps_dirs(a, b, at, id, object, up);
        let dir = a.dir_at(up)->0;
        lemma_lookup(a, dir, q.last());
        lemma_lookup(b, dir, q.last());
        let k = a.lookup(dir, q.last())->0;
        assert(b.names.contains_key(k));
        assert(alike(b, k.name, q.last()));
    }
}

/// The directories that getting ready makes durable.
pub open spec fn own_dirs(d: Disk, tx: TxDir) -> Set<FileId> {
    set![
        d.dir_at(tx.at())->0,
        d.dir_at(tx.at().push(staged_name()))->0,
        d.dir_at(tx.at().push(backup_name()))->0,
        d.dir_at(private_root())->0
    ]
}

/// The first part: nothing waits for the transaction's directories any more.
pub proof fn lemma_laid_out(x: Seq<Disk>, a: Disk, b: Disk, tx: TxDir, p: PlanView, scratch: Set<FileId>) -> (fewer: Set<FileId>)
    requires
        laid_out(x, a, b, tx, p),
        leaning(a, scratch, own_dirs(a, tx)),
        a.dir_at(tx.at()) matches Some(own) && never_there(a, own, progress_name()),
    ensures
        firm(b, fewer),
        secluded(b, fewer),
        fewer.subset_of(scratch),
        forall|i: int| 0 <= i < 8 ==> (#[trigger] x[i]).well_formed(),
{
    let own = a.dir_at(tx.at())->0;
    let name = progress_name();
    let dirs = own_dirs(a, tx);
    let (staged, backup, log) = (
        tx.at().push(staged_name()),
        tx.at().push(backup_name()),
        tx.at().push(progress_name()),
    );
    lemma_leaning_tokens(x[0], x[1], p, p.tokens.len() as int, scratch, dirs, own, name);
    let d1 = a.dir_at(staged)->0;
    assert(x[1].dir_at(staged) == a.dir_at(staged));
    lemma_leaning_synced(x[1], x[2], staged, scratch, dirs, own, name);
    let d2 = a.dir_at(backup)->0;
    assert(x[2].dir_at(backup) == x[1].dir_at(backup) && x[1].dir_at(backup) == a.dir_at(backup));
    lemma_leaning_synced(x[2], x[3], backup, scratch, dirs.remove(d1), own, name);
    let left = dirs.remove(d1).remove(d2);
    let more = left.insert(own);
    assert(x[3].dir_at(tx.at()) == x[2].dir_at(tx.at()) && x[2].dir_at(tx.at()) == x[1].dir_at(tx.at())
        && x[1].dir_at(tx.at()) == a.dir_at(tx.at()));
    lemma_leaning_more(x[3], scratch, left, more);
    let fewer = lemma_leaning_made(x[3], x[4], tx, name, Seq::empty(), scratch, more);
    lemma_leaning_file(x[4], x[5], log, fewer, more, own, name);
    assert(x[5].dir_at(tx.at()) == x[4].dir_at(tx.at()));
    lemma_leaning_synced(x[5], x[6], tx.at(), fewer, more, own, name);
    let top = x[6].dir_at(private_root())->0;
    lemma_leaning_synced(x[6], x[7], private_root(), fewer, more.remove(own), own, name);
    assert(top == a.dir_at(private_root())->0) by {
        assert(a.dir_at(private_root()) is Some) by {
            assert(tx.at().drop_last() =~= private_root());
            assert(a.resolve(tx.at()) is Some);
        }
        let q = private_root();
        assert(x[1].dir_at(q) == a.dir_at(q));
        assert(x[2].dir_at(q) == x[1].dir_at(q));
        assert(x[3].dir_at(q) == x[2].dir_at(q));
        assert(x[4].dir_at(q) == x[3].dir_at(q));
        assert(x[5].dir_at(q) == x[4].dir_at(q));
        assert(x[6].dir_at(q) == x[5].dir_at(q));
    }
    let none = more.remove(own).remove(top);
    assert forall|y: FileId| !none.contains(y) by {}
    lemma_leaning_on_nothing(x[7], fewer, none);
    assert forall|i: int| 0 <= i < 8 implies (#[trigger] x[i]).well_formed() by {
        assert(i == 0 || i == 1 || i == 2 || i == 3 || i == 4 || i == 5 || i == 6 || i == 7);
        lemma_sturdy_well_formed(x[i]);
    }
    fewer
}

/// More may be waited for.
proof fn lemma_leaning_more(d: Disk, scratch: Set<FileId>, dirs: Set<FileId>, more: Set<FileId>)
    requires
        leaning(d, scratch, dirs),
        dirs.subset_of(more),
    ensures
        leaning(d, scratch, more),
{
    let n = choose|n: int| waits_for(d, scratch, dirs, n);
    assert(waits_for(d, scratch, more, n));
}

/// A draft of the journal is not found under the journal's name.
proof fn lemma_draft_is_no_journal(d: Disk)
    ensures
        !alike(d, journal_tmp_name(), journal_name()),
{
    assert(crate::bytes::folded(journal_tmp_name()).len() == journal_tmp_name().len());
    assert(crate::bytes::folded(journal_name()).len() == journal_name().len());
}

/// The second part: the journal is durable, and nothing else has changed.
pub proof fn lemma_written_out(y: Seq<Disk>, a: Disk, b: Disk, tx: TxDir, data: Seq<u8>, scratch: Set<FileId>) -> (
    fewer: Set<FileId>)
    requires
        written_out(y, a, b, tx, data),
        a.well_formed(),
        firm(a, scratch),
        secluded(a, scratch),
    ensures
        firm(b, fewer),
        secluded(b, fewer),
        fewer.subset_of(scratch),
        forall|i: int| 0 <= i < 5 ==> (#[trigger] y[i]).well_formed(),
{
    let (draft, place) = (tx.at().push(journal_tmp_name()), tx.at().push(journal_name()));
    assert(draft.drop_last() =~= tx.at() && place.drop_last() =~= tx.at());
    let own = a.dir_at(tx.at())->0;
    let dirs = set![own];
    let (k, l) = (Key { dir: own, name: journal_tmp_name() }, Key { dir: own, name: journal_name() });
    lemma_secluded(a, scratch, tx.at());
    let len = a.pending.len() as int;
    assert(waits_for(a, scratch, dirs, len));
    lemma_firmly_absent(a, scratch, own, journal_tmp_name());
    let fewer = lemma_leaning_made(a, y[1], tx, journal_tmp_name(), data, scratch, dirs);
    let (id, mode) = choose|id: FileId, mode: u32| #[trigger] created_at(a, y[1], draft, id, Object::File { data, mode });
    lemma_sturdy_well_formed(y[1]);
    lemma_leaning_file(y[1], y[2], draft, fewer, dirs, own, journal_name());
    lemma_sturdy_well_formed(y[2]);
    assert(y[2].dir_at(tx.at()) == y[1].dir_at(tx.at()));
    lemma_lookup(y[2], own, journal_tmp_name());
    lemma_lookup(y[2], own, journal_name());
    assert(y[2].names.contains_key(k));
    assert(alike(y[2], k.name, journal_tmp_name()));
    assert(y[2].key_at(draft) == Some(k));
    // The place of the journal was free before the draft was made.
    assert(a.lookup(own, journal_name()) is None) by {
        lemma_lookup(a, own, journal_name());
        if a.lookup(own, journal_name()) is Some {
            let q = a.lookup(own, journal_name())->0;
            assert(y[2].names.contains_key(q));
            assert(alike(y[2], q.name, journal_name()));
        }
    }
    lemma_firmly_absent(a, scratch, own, journal_name());
    assert(never_there(y[2], own, journal_name())) by {
        assert forall|f: Seq<Fate>| possible(y[2].pending, f) implies (#[trigger] left_with(y[2], f)).lookup(
            own,
            journal_name(),
        ) is None by {
            let g = f.drop_last();
            assert(y[2].pending.drop_last() =~= a.pending);
            lemma_earlier_possible(a, y[2], f);
            let x = left_with(a, g);
            let z = left_with(y[2], f);
            lemma_firm_survives(a, scratch, g);
            assert(x.lookup(own, journal_name()) is None);
            assert(z.well_formed());
            lemma_lookup(x, own, journal_name());
            lemma_lookup(z, own, journal_name());
            if z.lookup(own, journal_name()) is Some {
                let q = z.lookup(own, journal_name())->0;
                assert(z.names == outcome(x.names, y[2].pending.last(), f.last()));
                lemma_draft_is_no_journal(z);
                assert(q == k || x.names.contains_key(q));
                assert(alike(x, q.name, journal_name()));
            }
        }
    }
    lemma_moved_sturdy(y[2], y[3], k, l);
    lemma_sturdy_well_formed(y[3]);
    assert(y[3].dir_at(tx.at()) == Some(own)) by {
        lemma_child_off_path(y[2], tx.at(), journal_tmp_name());
        lemma_child_off_path(y[2], tx.at(), journal_name());
        lemma_frame_move(y[2], y[3], draft, None, place, None, tx.at());
    }
    assert(y[2].pending.drop_last() =~= a.pending);
    assert(y[3].pending.take(len) =~= a.pending);
    assert(a.pending.take(len) =~= a.pending);
    lemma_fewer_part(a, scratch, id);
    assert forall|i: int| len <= i < y[3].pending.len() implies avoids(#[trigger] y[3].pending[i], scratch.remove(id)) by {
        assert(i == len || i == len + 1);
        assert(y[3].pending[len] == y[2].pending[len]);
    }
    let one = seq![own];
    assert forall|i: int, z: FileId|
        len <= i < y[3].pending.len() && #[trigger] y[3].pending[i].unsynced.contains(z) implies one.contains(z) by {
        assert(i == len || i == len + 1);
        assert(y[3].pending[len] == y[2].pending[len]);
        assert(one[0] == own);
    }
    lemma_synced_firm(y[3], len, one, scratch.remove(id));
    assert(one.drop_last() =~= Seq::<FileId>::empty());
    reveal_with_fuel(synced_all, 2);
    let less = scratch.remove(id);
    assert forall|q: Key| #[trigger] b.names.contains_key(q) && !less.contains(q.dir) implies !less.contains(b.names[q]) by {
        if q != l {
            assert(y[2].names.contains_key(q));
            if q != k {
                assert(a.names.contains_key(q));
            }
        }
    }
    assert forall|i: int| 0 <= i < 5 implies (#[trigger] y[i]).well_formed() by {
        assert(i == 0 || i == 1 || i == 2 || i == 3 || i == 4);
        if i > 0 {
            lemma_sturdy_well_formed(y[i]);
        }
    }
    less
}

/// An object that is not in use makes no difference to what is durable.
proof fn lemma_fewer_part(s: Disk, scratch: Set<FileId>, id: FileId)
    requires
        firm(s, scratch),
        secluded(s, scratch),
        fresh(s, id),
    ensures
        firm(s, scratch.remove(id)),
        secluded(s, scratch.remove(id)),
{
    let fewer = scratch.remove(id);
    let len = s.pending.len() as int;
    assert(s.pending.take(len) =~= s.pending);
    assert forall|f: Seq<Fate>| #[trigger] possible(s.pending.take(len), f) implies outside(
        survivors(s.durable, s.pending.take(len), f),
        fewer,
    ) == outside(applied(s.durable, s.pending.take(len)), fewer) by {
        let all = all_apply(s.pending.len());
        lemma_unused(s.durable, s.pending, f, id);
        lemma_unused(s.durable, s.pending, all, id);
        let (x, y) = (survivors(s.durable, s.pending, f), survivors(s.durable, s.pending, all));
        assert(outside(x, fewer) =~= outside(x, scratch));
        assert(outside(y, fewer) =~= outside(y, scratch));
    }
    assert forall|k: Key| #[trigger] s.names.contains_key(k) && !fewer.contains(k.dir) implies !fewer.contains(
        s.names[k],
    ) by {
        assert(k.dir != id);
    }
}

/// An object that is not in use makes no difference to what is settled.
pub proof fn lemma_fewer_scratch(s: Disk, p: PlanView, scratch: Set<FileId>, id: FileId)
    requires
        settled(s, p, scratch),
        fresh(s, id),
    ensures
        settled(s, p, scratch.remove(id)),
{
    lemma_fewer_part(s, scratch, id);
}

/// Ready means durable. If before getting ready nothing was pending but in the transaction's
/// own directories, and in directories that nothing leads to, then afterwards nothing is pending
/// but in such directories.
pub proof fn law_ready_is_settled(a: Disk, b: Disk, tx: TxDir, j: JournalView, scratch: Set<FileId>)
    requires
        readied(a, b, tx, j),
        leaning(a, scratch, own_dirs(a, tx)),
        outlying(j.plan, scratch),
        a.dir_at(tx.at()) matches Some(own) && never_there(a, own, progress_name()),
    ensures
        exists|fewer: Set<FileId>| fewer.subset_of(scratch) && #[trigger] settled(b, j.plan, fewer),
{
    let data = sealed(json_printed(journal_json(j)));
    let (m, x, y) = choose|m: Disk, x: Seq<Disk>, y: Seq<Disk>|
        #![trigger laid_out(x, a, m, tx, j.plan), written_out(y, m, b, tx, data)]
        laid_out(x, a, m, tx, j.plan) && written_out(y, m, b, tx, data);
    let first = lemma_laid_out(x, a, m, tx, j.plan, scratch);
    lemma_sturdy_well_formed(m);
    let fewer = lemma_written_out(y, m, b, tx, data, first);
    assert(fewer.subset_of(scratch) && settled(b, j.plan, fewer));
}

} // verus!
