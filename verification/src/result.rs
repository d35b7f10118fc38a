//! What a commit makes of the tree: every path leads to what the transaction saw there.
use vstd::prelude::*;

use crate::apply::waves_applied;
use crate::atomicity::{ats, cut_off, law_applied_waves_survive, lemma_waves_forward, rests_at, sound_start};
use crate::bytes::Name;
use crate::caps::bare;
use crate::compile::{
    attaching, detach_list, detaching, is_covered, is_noop, is_removed, lemma_attach_list, lemma_attached_at,
    lemma_detach_list, lemma_new_home, new_home, placed_entry, planned, still_there, unmoved, Sources,
};
use crate::disk::{Disk, FileId, Key, Kind};
use crate::moves::{occupied, occupies, seat, token_seated};
use crate::outcome::lemma_new_token;
use crate::overlay::{base_look, lemma_resolved_is_known, origin_of, EKind, EntryView, Look, OverlayView, SlotView, SrcView};
use crate::path::{private_path, tree_path, PathView};
use crate::plan::{lemma_positions_in_range, PlanView};
use crate::positions::Pos;
use crate::recover::home;
use crate::restoration::kinds_right;
use crate::sight::{faithful, law_seen_once, once};
use crate::state::{lemma_private_name, TxDir};
use crate::tree::{lemma_lookup, lemma_unique_path, same_tree};

verus! {

/// The object that an entry stands for.
pub open spec fn object_of(s: Sources, e: EntryView) -> FileId {
    match e.src {
        SrcView::Base { id, .. } => id,
        SrcView::Blob { n, .. } => s.blobs[n],
        SrcView::NewDir { n } => s.dirs[n],
    }
}

/// Where the transaction put something is a file or a directory, and not a special file.
pub open spec fn plain(ov: OverlayView) -> bool {
    forall|k: PathView| #[trigger]
        ov.placed.contains_key(k) ==> (ov.placed[k] matches SlotView::Present(e) ==> e.kind != EKind::Special)
}

/// New directories are empty before the first step.
pub open spec fn dirs_bare(s: Sources, d: Disk) -> bool {
    forall|k: PathView| #[trigger]
        s.ov.placed.contains_key(k) ==> (s.ov.placed[k] matches SlotView::Present(e) ==> (
        e.src matches SrcView::NewDir { n } ==> bare(d, s.dirs[n])))
}

/// Nobody else has changed what the transaction saw: the tree is that of which the overlay tells,
/// and what has left its base path was there until the first step.
pub open spec fn undisputed(s: Sources, d: Disk) -> bool {
    &&& same_tree(s.before, d)
    &&& s.before.steady
    &&& s.ov.root_id == s.before.root
    &&& faithful(s.ov, s.before)
    &&& s.ov.rooted(s.before)
    &&& plain(s.ov)
    &&& dirs_bare(s, d)
    &&& forall|b: PathView| #[trigger] s.ov.detached.contains_key(b) ==> still_there(s.ov, s.before, b)
}

/// The plan for the sources `s` was carried out from `d0` to `d`, where case tells names apart.
pub open spec fn carried_out(
    s: Sources,
    pk: Seq<PathView>,
    dk: Seq<PathView>,
    d0: Disk,
    d: Disk,
    tx: TxDir,
    p: PlanView,
    scratch: Set<FileId>,
) -> bool {
    &&& planned(s, pk, dk, p)
    &&& sound_start(d0, p, scratch)
    &&& kinds_right(d0, p)
    &&& waves_applied(d0, d, tx, p, p.waves.len() as int)
    &&& !d0.folds
    &&& !s.before.folds
    &&& !s.ov.case_insensitive
    &&& undisputed(s, d0)
}

/// The first path is the second.
pub proof fn lemma_same_dir(d: Disk, p: PathView, q: PathView)
    requires
        d.well_formed(),
        !d.folds,
        d.dir_at(p) is Some,
        d.dir_at(p) == d.dir_at(q),
    ensures
        p == q,
{
    lemma_unique_path(d, p, q);
    assert(p =~= q);
}

/// The private directories of the transaction are not in the tree.
pub proof fn lemma_private_dirs(s: Sources)
    ensures
        private_path(s.staged()),
        private_path(s.backup()),
{
    lemma_private_name();
    assert(s.staged()[0] == crate::state::tx_path(s.tx)[0]);
    assert(s.backup()[0] == crate::state::tx_path(s.tx)[0]);
}

/// The new tokens are those of paths at which something new is attached.
pub proof fn lemma_new_tokens_at(s: Sources, n: int, t: int) -> (j: int)
    requires
        0 <= n <= s.attach.len(),
        0 <= t < s.new_tokens(n).len(),
    ensures
        0 <= j < n,
        s.is_new(s.attach[j]),
        s.new_tokens(n)[t] == s.new_token(s.attach[j]),
    decreases n,
{
    if n <= 0 {
        0
    } else if s.is_new(s.attach[n - 1]) && t == s.new_tokens(n - 1).len() {
        n - 1
    } else {
        lemma_new_tokens_at(s, n - 1, t)
    }
}

/// A token that sits in a directory of the tree before the first step is one that is detached
/// there.
proof fn lemma_sits_first(
    s: Sources,
    pk: Seq<PathView>,
    dk: Seq<PathView>,
    d0: Disk,
    d: Disk,
    tx: TxDir,
    p: PlanView,
    scratch: Set<FileId>,
    o: PathView,
    n: Name,
)
    requires
        carried_out(s, pk, dk, d0, d, tx, p, scratch),
        !private_path(o),
        d0.dir_at(o) is Some,
        occupied(d0, p, home(p), Key { dir: d0.dir_at(o)->0, name: n }),
    ensures
        s.detach.contains(o.push(n)),
{
    let k = Key { dir: d0.dir_at(o)->0, name: n };
    let t = choose|t: int| 0 <= t < p.tokens.len() && #[trigger] occupies(d0, p, t, home(p)[t], k);
    let l = p.tokens[t].locs[0];
    assert(home(p)[t] == Pos::At(0));
    assert(rests_at(p, t, home(p)[t], l));
    assert(token_seated(d0, p, t, home(p)[t]));
    lemma_lookup(d0, l.parent, l.path.last());
    assert(k == seat(d0, l));
    lemma_same_dir(d0, l.path.drop_last(), o);
    lemma_private_dirs(s);
    if t >= s.detach.len() {
        let j = lemma_new_tokens_at(s, s.attach.len() as int, t - s.detach.len());
        assert(p.tokens[t] == s.new_token(s.attach[j]));
        assert(l.path.drop_last() =~= s.staged());
    } else {
        assert(p.tokens[t] == s.base_token(t));
        assert(l.path == s.detach[t]);
        assert(l.path =~= o.push(n));
    }
}

/// What is detached sits at its base path before the first step.
proof fn lemma_detached_sits(
    s: Sources,
    pk: Seq<PathView>,
    dk: Seq<PathView>,
    d0: Disk,
    d: Disk,
    tx: TxDir,
    p: PlanView,
    scratch: Set<FileId>,
    o: PathView,
    n: Name,
)
    requires
        carried_out(s, pk, dk, d0, d, tx, p, scratch),
        d0.dir_at(o) is Some,
        s.detach.contains(o.push(n)),
    ensures
        occupied(d0, p, home(p), Key { dir: d0.dir_at(o)->0, name: n }),
{
    let t = choose|t: int| 0 <= t < s.detach.len() && s.detach[t] == o.push(n);
    let l = p.tokens[t].locs[0];
    assert(p.tokens[t] == s.base_token(t));
    assert(l.path == o.push(n));
    assert(o.push(n).drop_last() =~= o);
    assert(home(p)[t] == Pos::At(0));
    assert(rests_at(p, t, home(p)[t], l));
    assert(token_seated(d0, p, t, home(p)[t]));
    lemma_lookup(d0, l.parent, l.path.last());
    assert(occupies(d0, p, t, home(p)[t], Key { dir: d0.dir_at(o)->0, name: n }));
}

/// Where the tokens are in the end.
proof fn lemma_last_seat(
    s: Sources,
    pk: Seq<PathView>,
    dk: Seq<PathView>,
    d0: Disk,
    d: Disk,
    tx: TxDir,
    p: PlanView,
    scratch: Set<FileId>,
    t: int,
)
    requires
        carried_out(s, pk, dk, d0, d, tx, p, scratch),
        0 <= t < p.tokens.len(),
    ensures
        ({
            let l = p.tokens[t].locs.last();
            let pos = ats(p.positions(p.waves.len() as int));
            &&& d.resolve(l.path) == Some(p.tokens[t].id)
            &&& l.path.len() > 0
            &&& d.dir_at(l.path.drop_last()) == Some(l.parent)
            &&& seat(d, l) == (Key { dir: l.parent, name: l.path.last() })
            &&& forall|k: Key| occupies(d, p, t, pos[t], k) == (k == seat(d, l))
        }),
{
    let n = p.waves.len() as int;
    let pos = ats(p.positions(n));
    lemma_waves_forward(d0, d, tx, p, n, scratch);
    assert(p.has_locations());
    lemma_positions_in_range(p, n);
    let l = p.tokens[t].locs.last();
    assert(p.positions(n)[t] == p.tokens[t].locs.len() - 1);
    assert(p.tokens[t].locs.len() <= usize::MAX);
    assert(token_seated(d, p, t, pos[t]));
    assert(rests_at(p, t, pos[t], l));
    lemma_lookup(d, l.parent, l.path.last());
}

/// A token that sits in a directory of the tree in the end is attached there.
#[verifier::spinoff_prover]
#[verifier::rlimit(80)]
proof fn lemma_sits_last(
    s: Sources,
    pk: Seq<PathView>,
    dk: Seq<PathView>,
    d0: Disk,
    d: Disk,
    tx: TxDir,
    p: PlanView,
    scratch: Set<FileId>,
    v: PathView,
    n: Name,
)
    requires
        carried_out(s, pk, dk, d0, d, tx, p, scratch),
        !private_path(v),
        d.dir_at(v) is Some,
        occupied(d, p, ats(p.positions(p.waves.len() as int)), Key { dir: d.dir_at(v)->0, name: n }),
    ensures
        s.attach.contains(v.push(n)),
{
    let w = p.waves.len() as int;
    let pos = ats(p.positions(w));
    let k = Key { dir: d.dir_at(v)->0, name: n };
    let t = choose|t: int| 0 <= t < p.tokens.len() && #[trigger] occupies(d, p, t, pos[t], k);
    let l = p.tokens[t].locs.last();
    lemma_waves_forward(d0, d, tx, p, w, scratch);
    lemma_last_seat(s, pk, dk, d0, d, tx, p, scratch, t);
    lemma_same_dir(d, l.path.drop_last(), v);
    assert(l.path =~= v.push(n));
    lemma_private_dirs(s);
    if t >= s.detach.len() {
        let j = lemma_new_tokens_at(s, s.attach.len() as int, t - s.detach.len());
        assert(p.tokens[t] == s.new_token(s.attach[j]));
        assert(l.path == s.attach[j]);
    } else {
        assert(p.tokens[t] == s.base_token(t));
        let b = s.detach[t];
        lemma_new_home(s.ov, s.attach, b, s.attach.len() as int);
        if new_home(s.ov, s.attach, b, s.attach.len() as int) is None {
            assert(l.path.drop_last() =~= s.backup());
        }
    }
}

/// Something that is neither detached nor in the way of something attached stays.
proof fn lemma_stays(
    s: Sources,
    pk: Seq<PathView>,
    dk: Seq<PathView>,
    d0: Disk,
    d: Disk,
    tx: TxDir,
    p: PlanView,
    scratch: Set<FileId>,
    o: PathView,
    v: PathView,
    n: Name,
)
    requires
        carried_out(s, pk, dk, d0, d, tx, p, scratch),
        !private_path(o),
        !private_path(v),
        d0.dir_at(o) is Some,
        d.dir_at(v) == d0.dir_at(o),
        !s.detach.contains(o.push(n)),
        !s.attach.contains(v.push(n)),
    ensures
        d.resolve(v.push(n)) == d0.resolve(o.push(n)),
{
    let w = p.waves.len() as int;
    let pos = ats(p.positions(w));
    let k = Key { dir: d.dir_at(v)->0, name: n };
    lemma_waves_forward(d0, d, tx, p, w, scratch);
    if occupied(d0, p, home(p), k) {
        lemma_sits_first(s, pk, dk, d0, d, tx, p, scratch, o, n);
    }
    if occupied(d, p, pos, k) {
        lemma_sits_last(s, pk, dk, d0, d, tx, p, scratch, v, n);
    }
    assert(v.push(n).drop_last() =~= v);
    assert(o.push(n).drop_last() =~= o);
    assert(d.names.contains_key(k) == d0.names.contains_key(k));
}

/// A name that was free, or from which something was detached, is free unless something is
/// attached there.
proof fn lemma_is_free(
    s: Sources,
    pk: Seq<PathView>,
    dk: Seq<PathView>,
    d0: Disk,
    d: Disk,
    tx: TxDir,
    p: PlanView,
    scratch: Set<FileId>,
    v: PathView,
    n: Name,
)
    requires
        carried_out(s, pk, dk, d0, d, tx, p, scratch),
        !private_path(v),
        d.dir_at(v) is Some,
        !s.attach.contains(v.push(n)),
        ({
            let k = Key { dir: d.dir_at(v)->0, name: n };
            !d0.names.contains_key(k) || occupied(d0, p, home(p), k)
        }),
    ensures
        d.resolve(v.push(n)) is None,
{
    let w = p.waves.len() as int;
    let pos = ats(p.positions(w));
    let k = Key { dir: d.dir_at(v)->0, name: n };
    lemma_waves_forward(d0, d, tx, p, w, scratch);
    if occupied(d, p, pos, k) {
        lemma_sits_last(s, pk, dk, d0, d, tx, p, scratch, v, n);
    }
    assert(v.push(n).drop_last() =~= v);
    assert(!d.names.contains_key(k));
}

/// Where something from the disk is attached, its base path has a new home.
pub proof fn lemma_has_home(ov: OverlayView, list: Seq<PathView>, o: PathView, n: int, j: int)
    requires
        0 <= j < n <= list.len(),
        origin_of(placed_entry(ov, list[j])) == Some(o),
    ensures
        new_home(ov, list, o, n) is Some,
    decreases n,
{
    if j < n - 1 {
        lemma_has_home(ov, list, o, n - 1, j);
    }
}

/// A path at which something must be attached is in the list, and only such a path is.
pub proof fn lemma_attach_exact(s: Sources, pk: Seq<PathView>, dk: Seq<PathView>, p: PlanView, q: PathView)
    requires
        planned(s, pk, dk, p),
    ensures
        s.attach.contains(q) <==> attaching(s.ov, s.before, q),
{
    lemma_attach_list(s.ov, s.before, pk, pk.len() as int);
    if attaching(s.ov, s.before, q) {
        assert(pk.contains(q));
        let i = choose|i: int| 0 <= i < pk.len() && pk[i] == q;
        let j = lemma_attached_at(s.ov, s.before, pk, pk.len() as int, i);
        assert(s.attach[j] == q);
    }
}

/// A base path whose entry must be detached is in the list.
proof fn lemma_detached_at(ov: OverlayView, d: Disk, list: Seq<PathView>, dk: Seq<PathView>, n: int, i: int) -> (j: int)
    requires
        0 <= i < n <= dk.len(),
        detaching(ov, d, list, dk[i]),
    ensures
        0 <= j < detach_list(ov, d, list, dk, n).len(),
        detach_list(ov, d, list, dk, n)[j] == dk[i],
    decreases n,
{
    if i == n - 1 {
        detach_list(ov, d, list, dk, n - 1).len() as int
    } else {
        lemma_detached_at(ov, d, list, dk, n - 1, i)
    }
}

/// A base path is in the list exactly if its entry has left it and must be detached.
pub proof fn lemma_detach_exact(s: Sources, pk: Seq<PathView>, dk: Seq<PathView>, p: PlanView, b: PathView)
    requires
        planned(s, pk, dk, p),
    ensures
        s.detach.contains(b) <==> s.ov.detached.contains_key(b) && detaching(s.ov, s.before, s.attach, b),
{
    lemma_detach_list(s.ov, s.before, s.attach, dk, dk.len() as int);
    if s.ov.detached.contains_key(b) && detaching(s.ov, s.before, s.attach, b) {
        assert(dk.contains(b));
        let i = choose|i: int| 0 <= i < dk.len() && dk[i] == b;
        let j = lemma_detached_at(s.ov, s.before, s.attach, dk, dk.len() as int, i);
        assert(s.detach[j] == b);
    }
    if s.detach.contains(b) {
        assert(dk.contains(b));
    }
}

/// The directory `o.take(i)` is removed for good, and nothing from there to `o` moves elsewhere.
pub open spec fn lost(s: Sources, o: PathView, i: int) -> bool {
    &&& is_removed(s.ov, s.before, s.attach, o.take(i))
    &&& forall|j: int| i < j <= o.len() ==> new_home(s.ov, s.attach, #[trigger] o.take(j), s.attach.len() as int) is None
}

/// What is seen from the disk somewhere has not left with a directory that was removed for good.
pub proof fn lemma_not_lost(s: Sources, pk: Seq<PathView>, dk: Seq<PathView>, p: PlanView, o: PathView, i: int, w: PathView)
    requires
        planned(s, pk, dk, p),
        s.ov.look(s.before, w) matches Look::Found(e) && origin_of(e) == Some(o),
        0 < i <= o.len(),
    ensures
        !lost(s, o, i),
    decreases o.len(),
{
    let e = s.ov.look(s.before, w)->Found_0;
    assert(o.take(o.len() as int) =~= o);
    if !lost(s, o, i) {
    } else if w.len() == 0 {
        assert(o.len() == 0);
    } else if s.ov.placed.contains_key(w) {
        assert(placed_entry(s.ov, w) == e);
        lemma_attach_exact(s, pk, dk, p, w);
        if attaching(s.ov, s.before, w) {
            let j = choose|j: int| 0 <= j < s.attach.len() && s.attach[j] == w;
            lemma_has_home(s.ov, s.attach, o, s.attach.len() as int, j);
        } else {
            assert(w == o);
            if i < o.len() {
                assert(unmoved(s.ov, s.before, w.take(i)));
                let c = o.take(i);
                assert(c.take(i) =~= c);
                assert(lost(s, c, i));
                lemma_not_lost(s, pk, dk, p, c, i, c);
            }
        }
    } else if i < o.len() {
        let u = origin_of(s.ov.look(s.before, w.drop_last())->Found_0)->0;
        assert(u.push(w.last()) == o);
        assert(u =~= o.drop_last());
        assert(u.take(i) =~= o.take(i));
        assert forall|j: int| i < j <= u.len() implies new_home(s.ov, s.attach, #[trigger] u.take(j), s.attach.len() as int)
            is None by {
            assert(u.take(j) =~= o.take(j));
        }
        assert(lost(s, u, i));
        lemma_not_lost(s, pk, dk, p, u, i, w.drop_last());
    }
}

/// What is seen from the disk was at its base path before the first step.
proof fn lemma_was_there(
    s: Sources,
    pk: Seq<PathView>,
    dk: Seq<PathView>,
    d0: Disk,
    d: Disk,
    tx: TxDir,
    p: PlanView,
    scratch: Set<FileId>,
    w: PathView,
)
    requires
        carried_out(s, pk, dk, d0, d, tx, p, scratch),
        s.ov.look(s.before, w) matches Look::Found(e) && origin_of(e) is Some,
    ensures
        ({
            let e = s.ov.look(s.before, w)->Found_0;
            let o = origin_of(e)->0;
            &&& !private_path(o)
            &&& d0.resolve(o) == Some(object_of(s, e))
            &&& (e.kind == EKind::Dir <==> d0.is_dir(object_of(s, e)))
        }),
{
    let e = s.ov.look(s.before, w)->Found_0;
    let o = origin_of(e)->0;
    if w.len() == 0 {
        assert(o.len() == 0);
        assert(!private_path(o));
        assert(s.before.resolve(o) == Some(s.before.root));
        assert(d0.resolve(o) == s.before.resolve(o));
    } else {
        if s.ov.placed.contains_key(w) {
            assert(still_there(s.ov, s.before, o));
            assert(tree_path(o));
        }
        assert(d0.resolve(o) == s.before.resolve(o));
        lemma_resolved_is_known(d0, o);
    }
}

/// What is attached is found, as it was seen.
proof fn lemma_attached_is_found(
    s: Sources,
    pk: Seq<PathView>,
    dk: Seq<PathView>,
    d0: Disk,
    d: Disk,
    tx: TxDir,
    p: PlanView,
    scratch: Set<FileId>,
    q: PathView,
)
    requires
        carried_out(s, pk, dk, d0, d, tx, p, scratch),
        attaching(s.ov, s.before, q),
    ensures
        d.resolve(q) == Some(object_of(s, placed_entry(s.ov, q))),
        placed_entry(s.ov, q).src is Base || d0.objects[object_of(s, placed_entry(s.ov, q))].kind() == (if placed_entry(
            s.ov,
            q,
        ).kind == EKind::Dir {
            Kind::Dir
        } else {
            Kind::File
        }),
{
    let e = placed_entry(s.ov, q);
    let all = s.attach.len() as int;
    lemma_attach_exact(s, pk, dk, p, q);
    let j = choose|j: int| 0 <= j < s.attach.len() && s.attach[j] == q;
    if s.is_new(q) {
        let i = lemma_new_token(s, all, j);
        let t = s.detach.len() + i;
        assert(p.tokens[t] == s.new_token(q));
        lemma_last_seat(s, pk, dk, d0, d, tx, p, scratch, t);
    } else {
        let o = origin_of(e)->0;
        lemma_has_home(s.ov, s.attach, o, all, j);
        lemma_new_home(s.ov, s.attach, o, all);
        let h = new_home(s.ov, s.attach, o, all)->0;
        lemma_attach_exact(s, pk, dk, p, h);
        assert(s.ov.placed.contains_key(h) && s.ov.placed.contains_key(q));
        assert(once(s.ov.placed[h], s.ov.placed[q]));
        assert(h == q);
        if is_noop(s.ov, s.before, o) {
            assert(s.ov.placed.contains_key(o));
            assert(once(s.ov.placed[o], s.ov.placed[q]));
        }
        lemma_detach_exact(s, pk, dk, p, o);
        let t = choose|t: int| 0 <= t < s.detach.len() && s.detach[t] == o;
        assert(p.tokens[t] == s.base_token(t));
        lemma_last_seat(s, pk, dk, d0, d, tx, p, scratch, t);
    }
}

/// The directory in which `q` stands is found, as it was seen.
spec fn holder_found(s: Sources, d0: Disk, d: Disk, q: PathView) -> bool {
    s.ov.look(s.before, q.drop_last()) matches Look::Found(dir) && dir.kind == EKind::Dir && d.dir_at(q.drop_last()) == Some(
        object_of(s, dir),
    )
}

/// Something that was put back where it was is found there.
proof fn lemma_put_back_is_found(
    s: Sources,
    pk: Seq<PathView>,
    dk: Seq<PathView>,
    d0: Disk,
    d: Disk,
    tx: TxDir,
    p: PlanView,
    scratch: Set<FileId>,
    q: PathView,
)
    requires
        carried_out(s, pk, dk, d0, d, tx, p, scratch),
        q.len() > 0,
        !private_path(q),
        holder_found(s, d0, d, q),
        is_noop(s.ov, s.before, q),
    ensures
        d.resolve(q) == Some(object_of(s, placed_entry(s.ov, q))),
{
    let v = q.drop_last();
    let dir = s.ov.look(s.before, v)->Found_0;
    if v.len() > 0 {
        assert(v =~= q.take(v.len() as int));
        assert(unmoved(s.ov, s.before, q.take(v.len() as int)));
        assert(v[0] == q[0]);
    } else {
        assert(v =~= Seq::empty());
    }
    assert(origin_of(dir) == Some(v));
    lemma_was_there(s, pk, dk, d0, d, tx, p, scratch, v);
    assert(s.ov.look(s.before, q) == Look::Found(placed_entry(s.ov, q)));
    lemma_was_there(s, pk, dk, d0, d, tx, p, scratch, q);
    assert(q =~= v.push(q.last()));
    lemma_attach_exact(s, pk, dk, p, q);
    lemma_detach_exact(s, pk, dk, p, q);
    lemma_stays(s, pk, dk, d0, d, tx, p, scratch, v, v, q.last());
}

/// A name in a directory of the tree is in the tree, wherever that directory comes from.
proof fn lemma_base_name(
    s: Sources,
    pk: Seq<PathView>,
    dk: Seq<PathView>,
    d0: Disk,
    d: Disk,
    tx: TxDir,
    p: PlanView,
    scratch: Set<FileId>,
    q: PathView,
)
    requires
        carried_out(s, pk, dk, d0, d, tx, p, scratch),
        q.len() > 0,
        !private_path(q),
        s.ov.look(s.before, q.drop_last()) matches Look::Found(dir) && origin_of(dir) is Some,
    ensures
        !private_path(q.drop_last()),
        !private_path(origin_of(s.ov.look(s.before, q.drop_last())->Found_0)->0.push(q.last())),
{
    let v = q.drop_last();
    let o = origin_of(s.ov.look(s.before, v)->Found_0)->0;
    lemma_was_there(s, pk, dk, d0, d, tx, p, scratch, v);
    if v.len() > 0 {
        assert(v[0] == q[0]);
    }
    if o.len() == 0 {
        let top: PathView = Seq::empty();
        assert(o =~= top);
        law_seen_once(s.ov, s.before, v, top);
        assert(o.push(q.last())[0] == q[0]);
    } else {
        assert(o.push(q.last())[0] == o[0]);
    }
}

/// Something that is seen where it is inherited from the disk is found there.
proof fn lemma_inherited_is_found(
    s: Sources,
    pk: Seq<PathView>,
    dk: Seq<PathView>,
    d0: Disk,
    d: Disk,
    tx: TxDir,
    p: PlanView,
    scratch: Set<FileId>,
    q: PathView,
)
    requires
        carried_out(s, pk, dk, d0, d, tx, p, scratch),
        q.len() > 0,
        !private_path(q),
        holder_found(s, d0, d, q),
        !s.ov.placed.contains_key(q),
        s.ov.look(s.before, q) is Found,
    ensures
        d.resolve(q) == Some(object_of(s, s.ov.look(s.before, q)->Found_0)),
{
    let v = q.drop_last();
    let dir = s.ov.look(s.before, v)->Found_0;
    let o = origin_of(dir)->0;
    let b = o.push(q.last());
    assert(origin_of(dir) is Some);
    lemma_base_name(s, pk, dk, d0, d, tx, p, scratch, q);
    lemma_was_there(s, pk, dk, d0, d, tx, p, scratch, v);
    lemma_was_there(s, pk, dk, d0, d, tx, p, scratch, q);
    assert(origin_of(s.ov.look(s.before, q)->Found_0) == Some(b));
    lemma_attach_exact(s, pk, dk, p, q);
    lemma_detach_exact(s, pk, dk, p, b);
    assert(q =~= v.push(q.last()));
    lemma_stays(s, pk, dk, d0, d, tx, p, scratch, o, v, q.last());
}

/// What has left a directory that is still seen is detached, unless it is back.
proof fn lemma_left_is_detached(
    s: Sources,
    pk: Seq<PathView>,
    dk: Seq<PathView>,
    d0: Disk,
    d: Disk,
    tx: TxDir,
    p: PlanView,
    scratch: Set<FileId>,
    q: PathView,
)
    requires
        carried_out(s, pk, dk, d0, d, tx, p, scratch),
        q.len() > 0,
        s.ov.look(s.before, q.drop_last()) matches Look::Found(dir) && dir.kind == EKind::Dir && (origin_of(dir) matches Some(o)
            && s.ov.detached.contains_key(o.push(q.last()))),
        s.ov.look(s.before, q) is Nothing,
    ensures
        s.detach.contains(origin_of(s.ov.look(s.before, q.drop_last())->Found_0)->0.push(q.last())),
{
    let v = q.drop_last();
    let o = origin_of(s.ov.look(s.before, v)->Found_0)->0;
    let b = o.push(q.last());
    lemma_detach_exact(s, pk, dk, p, b);
    assert(b.drop_last() =~= o);
    if is_noop(s.ov, s.before, b) {
        if o.len() > 0 {
            assert(b.take(o.len() as int) =~= o);
            assert(unmoved(s.ov, s.before, b.take(o.len() as int)));
        } else {
            assert(o =~= Seq::empty());
        }
        law_seen_once(s.ov, s.before, o, v);
        assert(q =~= b);
    } else if is_covered(s.ov, s.before, s.attach, b) {
        let n = b.len() - 1;
        let i = choose|i: int|
            0 < i <= n && is_removed(s.ov, s.before, s.attach, #[trigger] b.take(i)) && forall|j: int|
                i < j <= n ==> new_home(s.ov, s.attach, #[trigger] b.take(j), s.attach.len() as int) is None;
        assert(b.take(i) =~= o.take(i));
        assert forall|j: int| i < j <= o.len() implies new_home(s.ov, s.attach, #[trigger] o.take(j), s.attach.len() as int)
            is None by {
            assert(o.take(j) =~= b.take(j));
        }
        assert(lost(s, o, i));
        lemma_not_lost(s, pk, dk, p, o, i, v);
    }
}

/// Where nothing is seen in a directory, nothing is found.
proof fn lemma_nothing_is_found(
    s: Sources,
    pk: Seq<PathView>,
    dk: Seq<PathView>,
    d0: Disk,
    d: Disk,
    tx: TxDir,
    p: PlanView,
    scratch: Set<FileId>,
    q: PathView,
)
    requires
        carried_out(s, pk, dk, d0, d, tx, p, scratch),
        q.len() > 0,
        !private_path(q),
        holder_found(s, d0, d, q),
        s.ov.look(s.before, q) is Nothing,
    ensures
        d.resolve(q) is None,
{
    let v = q.drop_last();
    let n = q.last();
    let dir = s.ov.look(s.before, v)->Found_0;
    let k = Key { dir: object_of(s, dir), name: n };
    assert(q =~= v.push(n));
    if v.len() > 0 {
        assert(v[0] == q[0]);
    }
    lemma_attach_exact(s, pk, dk, p, q);
    assert(!s.attach.contains(v.push(n)));
    if d0.names.contains_key(k) {
        if origin_of(dir) is Some {
            let o = origin_of(dir)->0;
            let b = o.push(n);
            lemma_was_there(s, pk, dk, d0, d, tx, p, scratch, v);
            lemma_base_name(s, pk, dk, d0, d, tx, p, scratch, q);
            assert(b.drop_last() =~= o);
            assert(d0.resolve(b) is Some);
            assert(s.before.resolve(b) == d0.resolve(b));
            assert(base_look(s.before, s.ov.case_insensitive, b) is Found);
            if s.ov.placed.contains_key(q) {
                assert(s.ov.placed.contains_key(v.push(n)));
            }
            assert(s.ov.detached.contains_key(b));
            lemma_left_is_detached(s, pk, dk, d0, d, tx, p, scratch, q);
            lemma_detached_sits(s, pk, dk, d0, d, tx, p, scratch, o, n);
        } else {
            // A new directory: it was empty.
            assert(v.len() > 0 && s.ov.placed.contains_key(v));
            assert(dir.src is NewDir);
        }
    }
    lemma_is_free(s, pk, dk, d0, d, tx, p, scratch, v, n);
}

/// Once the plan has been carried out, every path leads to what was seen there.
proof fn lemma_tree_is_seen(
    s: Sources,
    pk: Seq<PathView>,
    dk: Seq<PathView>,
    d0: Disk,
    d: Disk,
    tx: TxDir,
    p: PlanView,
    scratch: Set<FileId>,
    q: PathView,
)
    requires
        carried_out(s, pk, dk, d0, d, tx, p, scratch),
        !private_path(q),
    ensures
        match s.ov.look(s.before, q) {
            Look::Found(e) => d.resolve(q) == Some(object_of(s, e)) && (e.kind == EKind::Dir <==> d.is_dir(object_of(s, e))),
            _ => d.resolve(q) is None,
        },
    decreases q.len(),
{
    lemma_waves_forward(d0, d, tx, p, p.waves.len() as int, scratch);
    if q.len() == 0 {
        assert(q =~= Seq::empty());
        lemma_was_there(s, pk, dk, d0, d, tx, p, scratch, q);
    } else {
        let v = q.drop_last();
        if v.len() > 0 {
            assert(v[0] == q[0]);
        }
        lemma_tree_is_seen(s, pk, dk, d0, d, tx, p, scratch, v);
        if s.ov.look(s.before, v) matches Look::Found(dir) && dir.kind == EKind::Dir {
            assert(holder_found(s, d0, d, q));
            match s.ov.look(s.before, q) {
                Look::Found(e) => {
                    if !s.ov.placed.contains_key(q) {
                        lemma_inherited_is_found(s, pk, dk, d0, d, tx, p, scratch, q);
                        lemma_was_there(s, pk, dk, d0, d, tx, p, scratch, q);
                    } else {
                        assert(placed_entry(s.ov, q) == e);
                        if is_noop(s.ov, s.before, q) {
                            lemma_put_back_is_found(s, pk, dk, d0, d, tx, p, scratch, q);
                        } else {
                            lemma_attached_is_found(s, pk, dk, d0, d, tx, p, scratch, q);
                        }
                        if e.src is Base {
                            lemma_was_there(s, pk, dk, d0, d, tx, p, scratch, q);
                        }
                        lemma_resolved_is_known(d, q);
                    }
                },
                Look::Nothing => lemma_nothing_is_found(s, pk, dk, d0, d, tx, p, scratch, q),
                Look::Clash(b) => {},
            }
        }
    }
}

/// The tree is what the transaction saw. Once the plan has been carried out, every path in the tree
/// leads to the object that was seen there, also after a power loss: a file that was written, a
/// directory that was made, what was moved there, or what had been there all along. Where nothing
/// was seen, there is nothing.
pub proof fn law_the_tree_is_what_was_seen(
    s: Sources,
    pk: Seq<PathView>,
    dk: Seq<PathView>,
    d0: Disk,
    d: Disk,
    e: Disk,
    tx: TxDir,
    p: PlanView,
    scratch: Set<FileId>,
    q: PathView,
)
    requires
        carried_out(s, pk, dk, d0, d, tx, p, scratch),
        cut_off(d, e),
        !private_path(q),
    ensures
        match s.ov.look(s.before, q) {
            Look::Found(x) => e.resolve(q) == Some(object_of(s, x)) && (x.kind == EKind::Dir <==> e.is_dir(object_of(s, x))),
            _ => e.resolve(q) is None,
        },
{
    lemma_tree_is_seen(s, pk, dk, d0, d, tx, p, scratch, q);
    law_applied_waves_survive(d0, d, e, tx, p, scratch);
    assert(e.resolve(q) == d.resolve(q));
    if d.resolve(q) is Some {
        lemma_waves_forward(d0, d, tx, p, p.waves.len() as int, scratch);
        lemma_resolved_is_known(d, q);
    }
}

} // verus!
