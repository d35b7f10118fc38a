//! What syncing does to the outcomes of a power loss.
use vstd::prelude::*;

use crate::crash::{durable_file, keeps_content, lost_with, may_come_out, possible, power_lost, survivors};
use crate::disk::{outcome, settle, without_dir, Change, Disk, Fate, FileId, Key};
use crate::recover::synced_all;

verus! {

/// Every one of `n` changes comes out.
pub open spec fn all_apply(n: nat) -> Seq<Fate> {
    Seq::new(n, |i: int| Fate::Apply)
}

/// The names when all changes have come out.
pub open spec fn applied(durable: Map<Key, FileId>, pending: Seq<Change>) -> Map<Key, FileId> {
    survivors(durable, pending, all_apply(pending.len()))
}

/// The names are those that are durable with the pending changes made.
pub open spec fn consistent(d: Disk) -> bool {
    d.names == applied(d.durable, d.pending)
}

/// All names are durable.
pub open spec fn quiet(d: Disk) -> bool {
    d.pending.len() == 0 && d.durable == d.names
}

/// The two changes are one, but for the directories that are still to be synced.
pub open spec fn same_change(a: Change, b: Change) -> bool {
    a.from == b.from && a.to == b.to && a.id == b.id && a.both == b.both
}

/// What is left of two runs of changes is what is left of the second after the first.
proof fn lemma_survivors_split(
    durable: Map<Key, FileId>,
    xs: Seq<Change>,
    ys: Seq<Change>,
    f: Seq<Fate>,
    g: Seq<Fate>,
)
    requires
        xs.len() == f.len(),
        ys.len() == g.len(),
    ensures
        survivors(durable, xs + ys, f + g) == survivors(survivors(durable, xs, f), ys, g),
    decreases ys.len(),
{
    if ys.len() == 0 {
        assert(xs + ys =~= xs && f + g =~= f);
    } else {
        lemma_survivors_split(durable, xs, ys.drop_last(), f, g.drop_last());
        assert((xs + ys).drop_last() =~= xs + ys.drop_last());
        assert((f + g).drop_last() =~= f + g.drop_last());
    }
}

/// What is left does not depend on the directories that are still to be synced.
proof fn lemma_survivors_same(durable: Map<Key, FileId>, xs: Seq<Change>, ys: Seq<Change>, f: Seq<Fate>)
    requires
        xs.len() == ys.len() == f.len(),
        forall|i: int| 0 <= i < xs.len() ==> same_change(#[trigger] xs[i], ys[i]),
    ensures
        survivors(durable, xs, f) == survivors(durable, ys, f),
    decreases xs.len(),
{
    if xs.len() > 0 {
        assert forall|i: int| 0 <= i < xs.len() - 1 implies same_change(
            #[trigger] xs.drop_last()[i],
            ys.drop_last()[i],
        ) by {
            assert(same_change(xs[i], ys[i]));
        }
        lemma_survivors_same(durable, xs.drop_last(), ys.drop_last(), f.drop_last());
        assert(same_change(xs[xs.len() - 1], ys[xs.len() - 1]));
    }
}

/// Settling makes the first `s` changes durable and stops at one that is not.
spec fn settled_after(durable: Map<Key, FileId>, pending: Seq<Change>, s: int) -> bool {
    let (after, left) = settle(durable, pending);
    &&& 0 <= s <= pending.len()
    &&& after == applied(durable, pending.take(s))
    &&& left == pending.skip(s)
    &&& left.len() > 0 ==> !left[0].unsynced.is_empty()
}

proof fn lemma_settle(durable: Map<Key, FileId>, pending: Seq<Change>) -> (s: int)
    ensures
        settled_after(durable, pending, s),
    decreases pending.len(),
{
    if pending.len() > 0 && pending[0].unsynced.is_empty() {
        let c = pending[0];
        let rest = pending.drop_first();
        let next = outcome(durable, c, Fate::Apply);
        let r = lemma_settle(next, rest);
        let s = r + 1;
        let head = seq![c];
        assert(pending.take(s) =~= head + rest.take(r));
        assert(pending.skip(s) =~= rest.skip(r));
        lemma_survivors_split(durable, head, rest.take(r), all_apply(1), all_apply(r as nat));
        assert(all_apply(s as nat) =~= all_apply(1) + all_apply(r as nat));
        assert(survivors(durable, head, all_apply(1)) == next) by {
            reveal_with_fuel(survivors, 2);
            assert(head.drop_last() =~= Seq::<Change>::empty());
        }
        s
    } else {
        assert(pending.take(0) =~= Seq::<Change>::empty());
        assert(pending.skip(0) =~= pending);
        0
    }
}

/// `b` is `a` after the directories `dirs` have been synced: the first `s` changes have become
/// durable, and the others wait for directories that are not among these.
spec fn synced_past(a: Disk, b: Disk, dirs: Seq<FileId>, s: int) -> bool {
    &&& 0 <= s <= a.pending.len()
    &&& b == (Disk { durable: b.durable, pending: b.pending, ..a })
    &&& b.durable == applied(a.durable, a.pending.take(s))
    &&& b.pending.len() == a.pending.len() - s
    &&& forall|i: int| #![trigger b.pending[i]]
        0 <= i < b.pending.len() ==> same_change(b.pending[i], a.pending[s + i]) && forall|d: FileId| #[trigger]
            b.pending[i].unsynced.contains(d) <==> a.pending[s + i].unsynced.contains(d) && !dirs.contains(d)
    &&& dirs.len() > 0 && b.pending.len() > 0 ==> !b.pending[0].unsynced.is_empty()
}

proof fn lemma_synced_past(a: Disk, dirs: Seq<FileId>) -> (s: int)
    ensures
        synced_past(a, synced_all(a, dirs), dirs, s),
    decreases dirs.len(),
{
    let b = synced_all(a, dirs);
    if dirs.len() == 0 {
        assert(a.pending.take(0) =~= Seq::<Change>::empty());
        0
    } else {
        let before = dirs.drop_last();
        let d = dirs.last();
        let m = synced_all(a, before);
        let r = lemma_synced_past(a, before);
        let now = without_dir(m.pending, d);
        let q = lemma_settle(m.durable, now);
        let s = r + q;
        let (xs, ys) = (a.pending.take(r), now.take(q));
        assert(a.pending.take(s) =~= xs + a.pending.subrange(r, s));
        assert forall|i: int| 0 <= i < q implies same_change(#[trigger] ys[i], a.pending.subrange(r, s)[i]) by {
            assert(same_change(m.pending[i], a.pending[r + i]));
        }
        lemma_survivors_same(m.durable, ys, a.pending.subrange(r, s), all_apply(q as nat));
        lemma_survivors_split(
            a.durable,
            xs,
            a.pending.subrange(r, s),
            all_apply(r as nat),
            all_apply(q as nat),
        );
        assert(all_apply(s as nat) =~= all_apply(r as nat) + all_apply(q as nat));
        assert forall|i: int| #![trigger b.pending[i]] 0 <= i < b.pending.len() implies same_change(
            b.pending[i],
            a.pending[s + i],
        ) && forall|e: FileId| #[trigger]
            b.pending[i].unsynced.contains(e) <==> a.pending[s + i].unsynced.contains(e) && !dirs.contains(e) by {
            assert(b.pending[i] == now[q + i]);
            assert(same_change(m.pending[q + i], a.pending[r + (q + i)]));
            assert forall|e: FileId| #[trigger] b.pending[i].unsynced.contains(e) <==> a.pending[s
                + i].unsynced.contains(e) && !dirs.contains(e) by {
                assert(m.pending[q + i].unsynced.contains(e) <==> a.pending[r + (q + i)].unsynced.contains(e)
                    && !before.contains(e));
                assert(dirs.contains(e) <==> before.contains(e) || e == d) by {
                    if dirs.contains(e) {
                        let j = choose|j: int| 0 <= j < dirs.len() && dirs[j] == e;
                        if j < dirs.len() - 1 {
                            assert(before[j] == e);
                        }
                    }
                    if before.contains(e) {
                        let j = choose|j: int| 0 <= j < before.len() && before[j] == e;
                        assert(dirs[j] == e);
                    }
                    assert(dirs[dirs.len() - 1] == d);
                }
            }
        }
        s
    }
}

/// The fates, before `dirs` were synced, that come to the same as `f` afterwards.
pub proof fn lemma_widen(a: Disk, dirs: Seq<FileId>, f: Seq<Fate>) -> (g: Seq<Fate>)
    requires
        possible(synced_all(a, dirs).pending, f),
    ensures
        possible(a.pending, g),
        survivors(a.durable, a.pending, g) == survivors(synced_all(a, dirs).durable, synced_all(a, dirs).pending, f),
        forall|i: int|
            0 <= i < a.pending.len() && (forall|d: FileId| #[trigger]
                a.pending[i].unsynced.contains(d) ==> dirs.contains(d)) ==> #[trigger] g[i] == Fate::Apply,
{
    let b = synced_all(a, dirs);
    let s = lemma_synced_past(a, dirs);
    let g = all_apply(s as nat) + f;
    assert forall|i: int| 0 <= i < a.pending.len() implies may_come_out(#[trigger] a.pending[i], g[i]) && ((forall|
        d: FileId,
    | #[trigger]
        a.pending[i].unsynced.contains(d) ==> dirs.contains(d)) ==> g[i] == Fate::Apply) by {
        if i >= s {
            let c = b.pending[i - s];
            assert(same_change(c, a.pending[s + (i - s)]));
            assert(may_come_out(c, f[i - s]));
            if a.pending[i].unsynced.is_empty() {
                assert(c.unsynced =~= Set::empty());
            }
            if forall|d: FileId| #[trigger] a.pending[i].unsynced.contains(d) ==> dirs.contains(d) {
                assert(c.unsynced =~= Set::empty());
            }
        }
    }
    let rest = a.pending.skip(s);
    assert(a.pending =~= a.pending.take(s) + rest);
    lemma_survivors_split(a.durable, a.pending.take(s), rest, all_apply(s as nat), f);
    assert forall|i: int| 0 <= i < rest.len() implies same_change(#[trigger] rest[i], b.pending[i]) by {
        assert(same_change(b.pending[i], a.pending[s + i]));
    }
    lemma_survivors_same(b.durable, rest, b.pending, f);
    g
}

/// Syncing directories adds nothing to what a power loss may leave.
pub proof fn law_syncing_narrows_what_power_loss_may_leave(a: Disk, dirs: Seq<FileId>, e: Disk)
    requires
        power_lost(synced_all(a, dirs), e),
    ensures
        power_lost(a, e),
{
    let b = synced_all(a, dirs);
    let f = choose|f: Seq<Fate>| #[trigger] lost_with(b, e, f);
    let g = lemma_widen(a, dirs, f);
    crate::recover::lemma_synced_all(a, dirs);
    assert forall|id: FileId| #[trigger] a.objects.contains_key(id) implies e.objects[id].kind()
        == a.objects[id].kind() && crate::crash::keeps_content(a, e, id) && (a.objects[id] is File
        ==> crate::crash::durable_file(e, id)) by {
        assert(b.objects.contains_key(id));
        assert(crate::crash::keeps_content(b, e, id));
    }
    assert(lost_with(a, e, g));
}

/// The names outside the directories `scratch`.
pub open spec fn outside(names: Map<Key, FileId>, scratch: Set<FileId>) -> Map<Key, FileId> {
    Map::new(|k: Key| names.contains_key(k) && !scratch.contains(k.dir), |k: Key| names[k])
}

/// The first `n` pending changes make no difference outside `scratch`, whether they come out or
/// not.
pub open spec fn settled_part(d: Disk, n: int, scratch: Set<FileId>) -> bool {
    forall|f: Seq<Fate>| #[trigger]
        possible(d.pending.take(n), f) ==> outside(survivors(d.durable, d.pending.take(n), f), scratch) == outside(
            applied(d.durable, d.pending.take(n)),
            scratch,
        )
}

/// The disk with the names that are left when the pending changes come out as `f`.
pub open spec fn left_with(d: Disk, f: Seq<Fate>) -> Disk {
    Disk { names: survivors(d.durable, d.pending, f), ..d }
}

/// Whatever comes out, the names that are left make sense.
pub open spec fn sturdy(d: Disk) -> bool {
    forall|f: Seq<Fate>| possible(d.pending, f) ==> (#[trigger] left_with(d, f)).well_formed()
}

/// All names are durable, but for those in the directories `scratch`.
pub open spec fn firm(d: Disk, scratch: Set<FileId>) -> bool {
    consistent(d) && settled_part(d, d.pending.len() as int, scratch) && sturdy(d)
}

/// Where all names are durable, they are so outside any directories.
pub proof fn lemma_quiet_is_firm(d: Disk, scratch: Set<FileId>)
    requires
        d.well_formed(),
        quiet(d),
    ensures
        firm(d, scratch),
{
    assert(d.pending.take(0) =~= d.pending);
    assert forall|f: Seq<Fate>| #[trigger] possible(d.pending.take(0), f) implies survivors(
        d.durable,
        d.pending.take(0),
        f,
    ) == d.durable by {}
    assert forall|f: Seq<Fate>| possible(d.pending, f) implies (#[trigger] left_with(d, f)).well_formed() by {
        assert(left_with(d, f) == d);
    }
}

/// What a power loss leaves of a firm disk.
pub proof fn lemma_firm_survives(d: Disk, scratch: Set<FileId>, f: Seq<Fate>)
    requires
        firm(d, scratch),
        possible(d.pending, f),
    ensures
        outside(left_with(d, f).names, scratch) == outside(d.names, scratch),
        left_with(d, f).well_formed(),
{
    assert(d.pending.take(d.pending.len() as int) =~= d.pending);
}

/// The change concerns names outside `scratch` only.
pub open spec fn avoids(c: Change, scratch: Set<FileId>) -> bool {
    &&& c.from matches Some(k) ==> !scratch.contains(k.dir)
    &&& c.to matches Some(k) ==> !scratch.contains(k.dir)
}

/// A change of names outside has its outcome outside.
proof fn lemma_outside_outcome(names: Map<Key, FileId>, c: Change, fate: Fate, scratch: Set<FileId>)
    requires
        avoids(c, scratch),
    ensures
        outside(outcome(names, c, fate), scratch) == outcome(outside(names, scratch), c, fate),
{
    assert(outside(outcome(names, c, fate), scratch) =~= outcome(outside(names, scratch), c, fate));
}

/// Changes of names outside come to the same on names that agree outside.
proof fn lemma_outside_survivors(
    x: Map<Key, FileId>,
    y: Map<Key, FileId>,
    w: Seq<Change>,
    f: Seq<Fate>,
    scratch: Set<FileId>,
)
    requires
        w.len() == f.len(),
        outside(x, scratch) == outside(y, scratch),
        forall|i: int| 0 <= i < w.len() ==> avoids(#[trigger] w[i], scratch),
    ensures
        outside(survivors(x, w, f), scratch) == outside(survivors(y, w, f), scratch),
    decreases w.len(),
{
    if w.len() > 0 {
        let v = w.drop_last();
        assert forall|i: int| 0 <= i < v.len() implies avoids(#[trigger] v[i], scratch) by {
            assert(avoids(w[i], scratch));
        }
        lemma_outside_survivors(x, y, v, f.drop_last(), scratch);
        assert(avoids(w[w.len() - 1], scratch));
        lemma_outside_outcome(survivors(x, v, f.drop_last()), w.last(), f.last(), scratch);
        lemma_outside_outcome(survivors(y, v, f.drop_last()), w.last(), f.last(), scratch);
    }
}

/// What is left when the first `n` changes come out as the first `n` fates say, and then the
/// others.
pub proof fn lemma_survivors_from(durable: Map<Key, FileId>, pending: Seq<Change>, f: Seq<Fate>, n: int)
    requires
        0 <= n <= pending.len() == f.len(),
    ensures
        survivors(durable, pending, f) == survivors(survivors(durable, pending.take(n), f.take(n)), pending.skip(n), f.skip(n)),
        possible(pending, f) ==> possible(pending.take(n), f.take(n)),
{
    assert(pending =~= pending.take(n) + pending.skip(n));
    assert(f =~= f.take(n) + f.skip(n));
    lemma_survivors_split(durable, pending.take(n), pending.skip(n), f.take(n), f.skip(n));
    if possible(pending, f) {
        assert forall|i: int| 0 <= i < n implies may_come_out(#[trigger] pending.take(n)[i], f.take(n)[i]) by {
            assert(may_come_out(pending[i], f[i]));
        }
    }
}

/// Once every directory that the changes from the `n`-th on wait for has been synced, all names
/// are durable outside `scratch`, if the first `n` changes make no difference there.
pub proof fn lemma_synced_firm(a: Disk, n: int, dirs: Seq<FileId>, scratch: Set<FileId>)
    requires
        consistent(a),
        sturdy(a),
        0 <= n <= a.pending.len(),
        settled_part(a, n, scratch),
        forall|i: int| n <= i < a.pending.len() ==> avoids(#[trigger] a.pending[i], scratch),
        forall|i: int, d: FileId|
            n <= i < a.pending.len() && #[trigger] a.pending[i].unsynced.contains(d) ==> dirs.contains(d),
    ensures
        firm(synced_all(a, dirs), scratch),
{
    let b = synced_all(a, dirs);
    crate::recover::lemma_synced_all(a, dirs);
    lemma_sync_consistent(a, dirs);
    let len = b.pending.len() as int;
    assert(b.pending.take(len) =~= b.pending);
    let w = a.pending.skip(n);
    assert forall|i: int| 0 <= i < w.len() implies avoids(#[trigger] w[i], scratch) by {
        assert(avoids(a.pending[n + i], scratch));
    }
    assert forall|f: Seq<Fate>| #[trigger] possible(b.pending.take(len), f) implies outside(
        survivors(b.durable, b.pending.take(len), f),
        scratch,
    ) == outside(applied(b.durable, b.pending.take(len)), scratch) by {
        let g = lemma_widen(a, dirs, f);
        lemma_survivors_from(a.durable, a.pending, g, n);
        lemma_survivors_from(a.durable, a.pending, all_apply(a.pending.len()), n);
        assert(g.skip(n) =~= all_apply(w.len())) by {
            assert forall|i: int| 0 <= i < w.len() implies g.skip(n)[i] == Fate::Apply by {
                assert(forall|d: FileId| #[trigger] a.pending[n + i].unsynced.contains(d) ==> dirs.contains(d));
                assert(g[n + i] == Fate::Apply);
            }
        }
        assert(all_apply(a.pending.len()).skip(n) =~= all_apply(w.len()));
        assert(all_apply(a.pending.len()).take(n) =~= all_apply(n as nat));
        lemma_outside_survivors(
            survivors(a.durable, a.pending.take(n), g.take(n)),
            applied(a.durable, a.pending.take(n)),
            w,
            all_apply(w.len()),
            scratch,
        );
        assert(outside(survivors(b.durable, b.pending, f), scratch) == outside(a.names, scratch));
        assert(b.names == applied(b.durable, b.pending));
    }
    lemma_sync_sturdy(a, dirs);
}

/// Syncing directories: of the changes that waited for them only those are left that wait for
/// others, and the first ones still make no difference outside `scratch`.
pub proof fn lemma_synced_part(a: Disk, dirs: Seq<FileId>, n: int, scratch: Set<FileId>) -> (k: int)
    requires
        0 <= n <= a.pending.len(),
        settled_part(a, n, scratch),
        forall|i: int| n <= i < a.pending.len() ==> avoids(#[trigger] a.pending[i], scratch),
    ensures
        0 <= k <= synced_all(a, dirs).pending.len(),
        settled_part(synced_all(a, dirs), k, scratch),
        forall|i: int|
            k <= i < synced_all(a, dirs).pending.len() ==> avoids(#[trigger] synced_all(a, dirs).pending[i], scratch),
        forall|i: int, d: FileId|
            k <= i && #[trigger] waits(synced_all(a, dirs), i, d) ==> !dirs.contains(d) && exists|j: int|
                n <= j && waits(a, j, d),
{
    let b = synced_all(a, dirs);
    let s = lemma_synced_past(a, dirs);
    let k = if s >= n {
        0
    } else {
        n - s
    };
    assert forall|i: int| k <= i < b.pending.len() implies avoids(#[trigger] b.pending[i], scratch) by {
        assert(same_change(b.pending[i], a.pending[s + i]));
        assert(avoids(a.pending[s + i], scratch));
    }
    assert forall|i: int, d: FileId| k <= i && #[trigger] waits(b, i, d) implies !dirs.contains(d) && exists|j: int|
        n <= j && waits(a, j, d) by {
        assert(b.pending[i].unsynced.contains(d) <==> a.pending[s + i].unsynced.contains(d) && !dirs.contains(d));
        assert(waits(a, s + i, d));
    }
    let part = b.pending.take(k);
    if s < n {
        let rest = a.pending.take(n).skip(s);
        assert(a.pending.take(n) =~= a.pending.take(s) + rest);
        assert forall|i: int| 0 <= i < k implies same_change(#[trigger] rest[i], part[i]) by {
            assert(same_change(b.pending[i], a.pending[s + i]));
        }
        assert forall|f: Seq<Fate>| #[trigger] possible(part, f) implies outside(
            survivors(b.durable, part, f),
            scratch,
        ) == outside(applied(b.durable, part), scratch) by {
            let g = all_apply(s as nat) + f;
            assert forall|i: int| 0 <= i < n implies may_come_out(#[trigger] a.pending.take(n)[i], g[i]) by {
                if i >= s {
                    let c = part[i - s];
                    assert(may_come_out(c, f[i - s]));
                    assert(same_change(b.pending[i - s], a.pending[s + (i - s)]));
                    if a.pending[i].unsynced.is_empty() {
                        assert(c.unsynced =~= Set::empty());
                    }
                }
            }
            assert(possible(a.pending.take(n), g));
            lemma_survivors_split(a.durable, a.pending.take(s), rest, all_apply(s as nat), f);
            lemma_survivors_same(b.durable, rest, part, f);
            let all = all_apply(k as nat);
            lemma_survivors_split(a.durable, a.pending.take(s), rest, all_apply(s as nat), all);
            lemma_survivors_same(b.durable, rest, part, all);
            assert(all_apply(n as nat) =~= all_apply(s as nat) + all);
        }
    } else {
        assert(part.len() == 0);
        assert forall|f: Seq<Fate>| #[trigger] possible(part, f) implies survivors(b.durable, part, f) == b.durable by {}
    }
    k
}

/// Syncing directories keeps a disk sturdy.
pub proof fn lemma_sync_sturdy(a: Disk, dirs: Seq<FileId>)
    requires
        sturdy(a),
    ensures
        sturdy(synced_all(a, dirs)),
{
    let b = synced_all(a, dirs);
    crate::recover::lemma_synced_all(a, dirs);
    assert forall|f: Seq<Fate>| possible(b.pending, f) implies (#[trigger] left_with(b, f)).well_formed() by {
        let g = lemma_widen(a, dirs, f);
        assert(left_with(a, g).well_formed());
        assert(left_with(b, f).names == left_with(a, g).names);
        assert(left_with(b, f).objects == left_with(a, g).objects);
    }
}

/// Syncing directories keeps the books in order.
pub proof fn lemma_sync_consistent(a: Disk, dirs: Seq<FileId>)
    requires
        consistent(a),
    ensures
        consistent(synced_all(a, dirs)),
{
    let b = synced_all(a, dirs);
    let s = lemma_synced_past(a, dirs);
    let rest = a.pending.skip(s);
    let n = rest.len();
    assert(a.pending =~= a.pending.take(s) + rest);
    lemma_survivors_split(a.durable, a.pending.take(s), rest, all_apply(s as nat), all_apply(n));
    assert(all_apply(a.pending.len()) =~= all_apply(s as nat) + all_apply(n));
    assert forall|i: int| 0 <= i < rest.len() implies same_change(#[trigger] rest[i], b.pending[i]) by {
        assert(same_change(b.pending[i], a.pending[s + i]));
    }
    lemma_survivors_same(b.durable, rest, b.pending, all_apply(n));
}

/// Syncing some directories and then others is syncing them all.
pub proof fn lemma_synced_further(a: Disk, x: Seq<FileId>, y: Seq<FileId>)
    ensures
        synced_all(synced_all(a, x), y) == synced_all(a, x + y),
    decreases y.len(),
{
    if y.len() == 0 {
        assert(x + y =~= x);
    } else {
        lemma_synced_further(a, x, y.drop_last());
        assert((x + y).drop_last() =~= x + y.drop_last());
    }
}

/// The `i`-th change waits for the directory.
pub open spec fn waits(d: Disk, i: int, dir: FileId) -> bool {
    0 <= i < d.pending.len() && d.pending[i].unsynced.contains(dir)
}

/// Moving a name keeps the books in order.
pub proof fn lemma_moved_consistent(d: Disk, from: Key, to: Key)
    requires
        consistent(d),
        d.names.contains_key(from),
    ensures
        consistent(d.moved(from, to)),
{
    let b = d.moved(from, to);
    assert(b.pending.drop_last() =~= d.pending);
    assert(all_apply(b.pending.len()).drop_last() =~= all_apply(d.pending.len()));
}

/// What is durable survives: when all names are durable, a power loss changes none.
pub proof fn law_durable_names_survive(d: Disk, e: Disk)
    requires
        quiet(d),
        power_lost(d, e),
    ensures
        e.names == d.names,
{
}

/// A power loss changes nothing where everything has been synced: all names stay, and every file
/// keeps its content and its permissions.
pub proof fn law_nothing_synced_is_lost(d: Disk, e: Disk)
    requires
        quiet(d),
        power_lost(d, e),
        forall|id: FileId| #[trigger] d.objects.contains_key(id) && d.objects[id] is File ==> durable_file(d, id),
    ensures
        e.names == d.names,
        e.objects.dom() == d.objects.dom(),
        forall|id: FileId| #[trigger] d.objects.contains_key(id) ==> e.objects[id].kind() == d.objects[id].kind(),
        forall|id: FileId| #[trigger] d.objects.contains_key(id) && d.objects[id] is File ==> e.objects[id] == d.objects[id],
{
    let fates = choose|fates: Seq<Fate>| #[trigger] lost_with(d, e, fates);
    assert forall|id: FileId| #[trigger] d.objects.contains_key(id) && d.objects[id] is File implies e.objects[id]
        == d.objects[id] by {
        assert(keeps_content(d, e, id));
        assert(durable_file(d, id));
    }
}

/// Every name that no pending change concerns survives as it is.
pub proof fn lemma_untouched(durable: Map<Key, FileId>, pending: Seq<Change>, f: Seq<Fate>, k: Key)
    requires
        f.len() == pending.len(),
        forall|i: int| 0 <= i < pending.len() ==> (#[trigger] pending[i]).from != Some(k) && pending[i].to != Some(k),
    ensures
        survivors(durable, pending, f).contains_key(k) == durable.contains_key(k),
        durable.contains_key(k) ==> survivors(durable, pending, f)[k] == durable[k],
    decreases pending.len(),
{
    if pending.len() > 0 {
        assert forall|i: int| 0 <= i < pending.len() - 1 implies (#[trigger] pending.drop_last()[i]).from != Some(k)
            && pending.drop_last()[i].to != Some(k) by {
            assert(pending[i].from != Some(k));
        }
        lemma_untouched(durable, pending.drop_last(), f.drop_last(), k);
        assert(pending[pending.len() - 1].from != Some(k));
    }
}

} // verus!
