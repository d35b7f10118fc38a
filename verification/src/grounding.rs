//! From what was staged to a plan that can be carried out and undone: a compiled plan is grounded in
//! the disk that it was made for, as long as nobody else interferes.
use vstd::prelude::*;

use crate::atomicity::{countable, fitting, moves_token, rests_at, steps_lead_out, undisturbed};
use crate::caps::bare;
use crate::classify::no_root_location;
use crate::compile::{
    attaching, detach_list, detaching, is_covered, is_noop, is_placed, is_removed, lemma_new_home, new_home,
    placed_entry, planned, unmoved, Sources,
};
use crate::disk::{Disk, FileId, Key, Kind};
use crate::moves::{ids_distinct, occupied, occupies, same_place, steps_lead_away, token_seated};
use crate::order::{lemma_bystander, lemma_compiled_is_ordered, ordered};
use crate::overlay::{
    base_look, blob_name, ekind_of, law_view_depends_on_the_tree, lemma_resolved_is_known, new_dir_name, origin_of,
    EKind, EntryView, Gone, Look, OverlayView, SrcView,
};
use crate::path::{parent_of, private_path, tree_path, PathView};
use crate::plan::{LocView, PlanView};
use crate::positions::Pos;
use crate::recover::{home, tame};
use crate::restoration::{grounded, location_of, none_inside, off_the_way, places_differ, places_free};
use crate::result::{
    lemma_attach_exact, lemma_detach_exact, lemma_new_tokens_at, lemma_not_lost, lemma_private_dirs, lemma_same_dir,
    lost, object_of, undisputed,
};
use crate::sight::{law_seen_once, once};
use crate::state::{backup_name, staged_name, TxDir};
use crate::text::{decimal, lemma_numeral_injective};
use crate::tree::{alike, alike_paths, goes_through, lemma_lookup};
use crate::turns::{entangled, in_place, stands};
use crate::vfs::same_volume;

verus! {

/// What has left its base path is noted as it is on the disk, and is no special file.
pub open spec fn true_to(ov: OverlayView, d: Disk) -> bool {
    forall|b: PathView| #[trigger]
        ov.detached.contains_key(b) ==> (d.resolve(b) matches Some(id) && ov.detached[b] == (Gone {
            id: d.shows(id),
            kind: ekind_of(d.objects[id].kind()),
        })) && ov.detached[b].kind != EKind::Special
}

/// No file is moved or removed under two of its names.
pub open spec fn no_links_shared(ov: OverlayView, d: Disk) -> bool {
    forall|b: PathView, c: PathView|
        #![trigger ov.detached.contains_key(b), ov.detached.contains_key(c)]
        ov.detached.contains_key(b) && ov.detached.contains_key(c) && d.resolve(b) == d.resolve(c) ==> b == c
}

/// The object has one name.
pub open spec fn one_name(d: Disk, id: FileId) -> bool {
    forall|k: Key, l: Key|
        #![trigger d.names.contains_key(k), d.names.contains_key(l)]
        d.names.contains_key(k) && d.names.contains_key(l) && d.names[k] == id && d.names[l] == id ==> k == l
}

/// What is new at a path is staged: the file or the empty directory is there, under its own name
/// and no other.
pub open spec fn staged_right(s: Sources, d: Disk, e: EntryView) -> bool {
    match e.src {
        SrcView::Base { .. } => true,
        SrcView::Blob { n, .. } => d.resolve(s.staged().push(blob_name(n))) == Some(s.blobs[n]) && d.is_file(s.blobs[n])
            && one_name(d, s.blobs[n]),
        SrcView::NewDir { n } => d.resolve(s.staged().push(new_dir_name(n))) == Some(s.dirs[n]) && d.is_dir(s.dirs[n]) && bare(
            d,
            s.dirs[n],
        ),
    }
}

/// The transaction's directories are there, nothing has been put in the backup, and everything new
/// is staged, and placed once.
pub open spec fn stored(s: Sources, d: Disk, tx: TxDir) -> bool {
    &&& s.tx == tx.id()
    &&& d.dir_at(tx.at()) is Some
    &&& d.dir_at(s.staged()) is Some
    &&& d.dir_at(s.staged()) == s.before.dir_at(s.staged())
    &&& d.dir_at(s.backup()) is Some
    &&& d.dir_at(s.backup()) == s.before.dir_at(s.backup())
    &&& bare(d, d.dir_at(s.backup())->0)
    &&& forall|q: PathView| #[trigger] is_placed(s.ov, q) ==> staged_right(s, d, placed_entry(s.ov, q))
    &&& forall|p: PathView, q: PathView|
        #![trigger is_placed(s.ov, p), is_placed(s.ov, q)]
        is_placed(s.ov, p) && is_placed(s.ov, q) && (placed_entry(s.ov, p).src matches SrcView::Blob { n, .. } && (placed_entry(
            s.ov,
            q,
        ).src matches SrcView::Blob { n: k, .. } && n == k)) ==> p == q
}

/// The plan `p` was compiled from the sources `s` for the transaction `tx`, and on the disk `d`
/// nobody has interfered. Case tells names apart; no file is moved under two of its names, and no
/// way leads back to where it has been.
pub open spec fn sound_plan(s: Sources, pk: Seq<PathView>, dk: Seq<PathView>, d: Disk, tx: TxDir, p: PlanView) -> bool {
    &&& planned(s, pk, dk, p)
    &&& p.valid()
    &&& p.tokens.len() <= usize::MAX
    &&& s.before.well_formed() && s.after.well_formed() && d.well_formed()
    &&& same_volume(s.before, s.after) && same_volume(s.before, d)
    &&& !d.folds
    &&& !s.ov.case_insensitive
    &&& undisputed(s, d)
    &&& true_to(s.ov, s.before)
    &&& no_links_shared(s.ov, s.before)
    &&& stored(s, d, tx)
    &&& places_differ(d, p)
}

/// What is seen from the disk is at its base path.
proof fn lemma_is_there(s: Sources, pk: Seq<PathView>, dk: Seq<PathView>, d: Disk, tx: TxDir, p: PlanView, w: PathView)
    requires
        sound_plan(s, pk, dk, d, tx, p),
        s.ov.look(s.before, w) matches Look::Found(e) && origin_of(e) is Some,
    ensures
        ({
            let e = s.ov.look(s.before, w)->Found_0;
            let o = origin_of(e)->0;
            &&& !private_path(o)
            &&& d.resolve(o) == Some(object_of(s, e))
            &&& (e.kind == EKind::Dir <==> d.is_dir(object_of(s, e)))
        }),
{
    let e = s.ov.look(s.before, w)->Found_0;
    let o = origin_of(e)->0;
    if w.len() == 0 {
        assert(o.len() == 0);
        assert(!private_path(o));
        assert(s.before.resolve(o) == Some(s.before.root));
        assert(d.resolve(o) == s.before.resolve(o));
    } else {
        if s.ov.placed.contains_key(w) {
            assert(s.ov.detached.contains_key(o));
            assert(tree_path(o));
        }
        assert(d.resolve(o) == s.before.resolve(o));
        lemma_resolved_is_known(d, o);
    }
}

/// The directory into which something is attached is where it is on the disk: at a path in the tree
/// from which it is seen, or among what is staged.
proof fn lemma_parent_home(
    s: Sources,
    pk: Seq<PathView>,
    dk: Seq<PathView>,
    d: Disk,
    tx: TxDir,
    p: PlanView,
    q: PathView,
) -> (at: PathView)
    requires
        sound_plan(s, pk, dk, d, tx, p),
        attaching(s.ov, s.before, q),
    ensures
        q.len() > 0,
        s.ov.look(s.before, q.drop_last()) matches Look::Found(dir) && dir.kind == EKind::Dir && object_of(s, dir) == s.target(
            q,
        ).parent && match origin_of(dir) {
            Some(o) => at == o && !private_path(at),
            None => bare(d, s.target(q).parent) && at.len() == s.staged().len() + 1 && at.drop_last() == s.staged(),
        },
        d.dir_at(at) == Some(s.target(q).parent),
{
    let v = q.drop_last();
    assert(s.ov.placed.contains_key(q));
    assert(tree_path(q));
    assert(parent_of(q) =~= v);
    law_view_depends_on_the_tree(s.ov, s.before, s.after, v);
    let dir = s.ov.look(s.before, v)->Found_0;
    if v.len() == 0 {
        assert(v =~= Seq::empty());
    }
    if origin_of(dir) is Some {
        lemma_is_there(s, pk, dk, d, tx, p, v);
        origin_of(dir)->0
    } else {
        assert(is_placed(s.ov, v));
        assert(placed_entry(s.ov, v) == dir);
        assert(staged_right(s, d, placed_entry(s.ov, v)));
        assert(s.ov.sound());
        let n = dir.src->NewDir_n;
        assert(s.staged().push(new_dir_name(n)).drop_last() =~= s.staged());
        s.staged().push(new_dir_name(n))
    }
}

/// What a token of the plan is: something detached, with its base path; or something new.
proof fn lemma_which(s: Sources, pk: Seq<PathView>, dk: Seq<PathView>, d: Disk, tx: TxDir, p: PlanView, t: int) -> (j: int)
    requires
        sound_plan(s, pk, dk, d, tx, p),
        0 <= t < p.tokens.len(),
    ensures
        p.tokens.len() >= s.detach.len(),
        t < s.detach.len() ==> p.tokens[t] == s.base_token(t) && tree_path(s.detach[t]) && s.ov.detached.contains_key(
            s.detach[t],
        ),
        t >= s.detach.len() ==> 0 <= j < s.attach.len() && s.is_new(s.attach[j]) && attaching(s.ov, s.before, s.attach[j])
            && p.tokens[t] == s.new_token(s.attach[j]),
{
    if t < s.detach.len() {
        assert(s.detach.contains(s.detach[t]));
        lemma_detach_exact(s, pk, dk, p, s.detach[t]);
        0
    } else {
        let j = lemma_new_tokens_at(s, s.attach.len() as int, t - s.detach.len());
        assert(s.attach.contains(s.attach[j]));
        lemma_attach_exact(s, pk, dk, p, s.attach[j]);
        j
    }
}

/// Where a detached entry that stays in the tree goes.
proof fn lemma_goes_to(s: Sources, pk: Seq<PathView>, dk: Seq<PathView>, d: Disk, tx: TxDir, p: PlanView, t: int) -> (q: PathView)
    requires
        sound_plan(s, pk, dk, d, tx, p),
        0 <= t < s.detach.len(),
        p.tokens[t].locs.len() == 3,
    ensures
        attaching(s.ov, s.before, q),
        p.tokens[t].locs[2] == s.target(q),
        origin_of(placed_entry(s.ov, q)) == Some(s.detach[t]),
{
    let j = lemma_which(s, pk, dk, d, tx, p, t);
    let all = s.attach.len() as int;
    lemma_new_home(s.ov, s.attach, s.detach[t], all);
    let q = new_home(s.ov, s.attach, s.detach[t], all)->0;
    lemma_attach_exact(s, pk, dk, p, q);
    q
}

/// A token is at its start.
proof fn lemma_starts(s: Sources, pk: Seq<PathView>, dk: Seq<PathView>, d: Disk, tx: TxDir, p: PlanView, t: int)
    requires
        sound_plan(s, pk, dk, d, tx, p),
        0 <= t < p.tokens.len(),
    ensures
        ({
            let tok = p.tokens[t];
            let l = tok.locs[0];
            &&& tok.locs.len() == 2 || t < s.detach.len() && tok.locs.len() == 3
            &&& l.path.len() > 0
            &&& d.resolve(l.path) == Some(tok.id)
            &&& d.dir_at(l.path.drop_last()) == Some(l.parent)
            &&& d.objects[tok.id].kind() == tok.kind
            &&& tok.kind == Kind::File || tok.kind == Kind::Dir
            &&& d.key_at(l.path) == Some(Key { dir: l.parent, name: l.path.last() })
        }),
{
    let tok = p.tokens[t];
    let l = tok.locs[0];
    let j = lemma_which(s, pk, dk, d, tx, p, t);
    lemma_private_dirs(s);
    if t < s.detach.len() {
        let b = s.detach[t];
        assert(s.before.resolve(b) is Some);
        assert(d.resolve(b) == s.before.resolve(b));
        assert(parent_of(b) =~= b.drop_last());
        let up = b.drop_last();
        if up.len() > 0 {
            assert(up[0] == b[0]);
        } else {
            assert(up =~= Seq::empty());
        }
        assert(!private_path(up));
        assert(d.resolve(up) == s.before.resolve(up));
        assert(s.after.resolve(up) == s.before.resolve(up));
        lemma_resolved_is_known(s.before, up);
        lemma_resolved_is_known(s.after, up);
        lemma_resolved_is_known(d, up);
        lemma_resolved_is_known(d, b);
    } else {
        let q = s.attach[j];
        assert(is_placed(s.ov, q));
        assert(staged_right(s, d, placed_entry(s.ov, q)));
        assert(l.path.drop_last() =~= s.staged());
    }
    lemma_lookup(d, l.parent, l.path.last());
}

/// Two paths to one thing in a directory of the transaction's own are one.
pub proof fn lemma_paths_apart(s: Sources)
    ensures
        s.staged() != s.backup(),
        s.staged().len() == 3,
        s.backup().len() == 3,
{
    assert(s.staged().last() == staged_name() && s.backup().last() == backup_name());
    assert(staged_name()[0] != backup_name()[0]);
}

/// No two tokens are the same object.
proof fn lemma_ids_distinct(s: Sources, pk: Seq<PathView>, dk: Seq<PathView>, d: Disk, tx: TxDir, p: PlanView)
    requires
        sound_plan(s, pk, dk, d, tx, p),
    ensures
        ids_distinct(p),
{
    assert forall|t: int, u: int|
        #![trigger p.tokens[t], p.tokens[u]]
        0 <= t < p.tokens.len() && 0 <= u < p.tokens.len() && p.tokens[t].id == p.tokens[u].id implies t == u by {
        if t < u {
            lemma_id_apart(s, pk, dk, d, tx, p, t, u);
        } else if u < t {
            lemma_id_apart(s, pk, dk, d, tx, p, u, t);
        }
    }
}

proof fn lemma_id_apart(s: Sources, pk: Seq<PathView>, dk: Seq<PathView>, d: Disk, tx: TxDir, p: PlanView, t: int, u: int)
    requires
        sound_plan(s, pk, dk, d, tx, p),
        0 <= t < u < p.tokens.len(),
    ensures
        p.tokens[t].id != p.tokens[u].id,
{
    let (a, b) = (p.tokens[t], p.tokens[u]);
    let (x, y) = (a.locs[0].path, b.locs[0].path);
    let i = lemma_which(s, pk, dk, d, tx, p, t);
    let j = lemma_which(s, pk, dk, d, tx, p, u);
    lemma_starts(s, pk, dk, d, tx, p, t);
    lemma_starts(s, pk, dk, d, tx, p, u);
    lemma_private_dirs(s);
    lemma_paths_apart(s);
    if a.id == b.id {
        if u < s.detach.len() {
            assert(s.before.resolve(x) == d.resolve(x));
            assert(s.before.resolve(y) == d.resolve(y));
            assert(x == y);
            lemma_detach_distinct(s.ov, s.before, s.attach, dk, dk.len() as int);
        } else {
            if a.kind == Kind::Dir {
                assert(d.dir_at(x) == Some(a.id) && d.dir_at(y) == Some(a.id));
                lemma_same_dir(d, x, y);
            } else {
                // Under the one name of a staged file.
                assert(is_placed(s.ov, s.attach[j]));
                assert(staged_right(s, d, placed_entry(s.ov, s.attach[j])));
                let (k, l) = (d.key_at(x)->0, d.key_at(y)->0);
                lemma_lookup(d, a.locs[0].parent, x.last());
                lemma_lookup(d, b.locs[0].parent, y.last());
                assert(d.names.contains_key(k) && d.names.contains_key(l));
                assert(k == l);
                lemma_same_dir(d, x.drop_last(), y.drop_last());
                assert(x =~= x.drop_last().push(x.last()) && y =~= y.drop_last().push(y.last()));
            }
            assert(x == y);
            assert(y.drop_last() =~= s.staged());
            assert(y[0] == s.staged()[0]);
            assert(private_path(x));
            assert(t >= s.detach.len());
            let (q, r) = (s.attach[i], s.attach[j]);
            assert(is_placed(s.ov, q) && is_placed(s.ov, r));
            lemma_same_new(s, d, tx, q, r);
            lemma_new_tokens_distinct(s, pk, dk, p, t - s.detach.len(), u - s.detach.len());
        }
    }
}

/// Things new under one staged name are one.
proof fn lemma_same_new(s: Sources, d: Disk, tx: TxDir, q: PathView, r: PathView)
    requires
        stored(s, d, tx),
        crate::sight::coherent(s.ov),
        is_placed(s.ov, q),
        is_placed(s.ov, r),
        s.is_new(q),
        s.is_new(r),
        s.new_token(q).locs[0].path == s.new_token(r).locs[0].path,
    ensures
        q == r,
{
    let (x, y) = (s.new_token(q).locs[0].path, s.new_token(r).locs[0].path);
    assert(x.last() == y.last());
    match (placed_entry(s.ov, q).src, placed_entry(s.ov, r).src) {
        (SrcView::Blob { n, .. }, SrcView::Blob { n: k, .. }) => {
            assert(blob_name(n).skip(1) =~= decimal(n as nat));
            assert(blob_name(k).skip(1) =~= decimal(k as nat));
            lemma_numeral_injective(n as nat, k as nat, 10);
        },
        (SrcView::NewDir { n }, SrcView::NewDir { n: k }) => {
            assert(new_dir_name(n).skip(1) =~= decimal(n as nat));
            assert(new_dir_name(k).skip(1) =~= decimal(k as nat));
            lemma_numeral_injective(n as nat, k as nat, 10);
            assert(once(s.ov.placed[q], s.ov.placed[r]));
            assert(s.ov.placed.contains_key(q) && s.ov.placed.contains_key(r));
        },
        (SrcView::Blob { n, .. }, SrcView::NewDir { n: k }) => {
            assert(blob_name(n)[0] == 98 && new_dir_name(k)[0] == 100);
        },
        (SrcView::NewDir { n }, SrcView::Blob { n: k, .. }) => {
            assert(blob_name(k)[0] == 98 && new_dir_name(n)[0] == 100);
        },
        _ => {},
    }
}

/// Detached paths occur once.
proof fn lemma_detach_distinct(ov: OverlayView, d: Disk, list: Seq<PathView>, keys: Seq<PathView>, n: int)
    requires
        0 <= n <= keys.len(),
        crate::pathmap::ascending(keys),
    ensures
        detach_list(ov, d, list, keys, n).no_duplicates(),
    decreases n,
{
    crate::pathmap::lemma_ascending_distinct(keys);
    if n > 0 {
        lemma_detach_distinct(ov, d, list, keys, n - 1);
        let less = detach_list(ov, d, list, keys, n - 1);
        if detaching(ov, d, list, keys[n - 1]) {
            assert(!less.contains(keys[n - 1])) by {
                if less.contains(keys[n - 1]) {
                    let i = choose|i: int| 0 <= i < less.len() && less[i] == keys[n - 1];
                    let j = lemma_detached_from(ov, d, list, keys, n - 1, i);
                }
            }
        }
    }
}

/// A detached path is one of the first `n`.
proof fn lemma_detached_from(ov: OverlayView, d: Disk, list: Seq<PathView>, keys: Seq<PathView>, n: int, i: int) -> (j: int)
    requires
        0 <= n <= keys.len(),
        0 <= i < detach_list(ov, d, list, keys, n).len(),
    ensures
        0 <= j < n,
        keys[j] == detach_list(ov, d, list, keys, n)[i],
    decreases n,
{
    if n <= 0 {
        0
    } else if detaching(ov, d, list, keys[n - 1]) && i == detach_list(ov, d, list, keys, n - 1).len() {
        n - 1
    } else {
        lemma_detached_from(ov, d, list, keys, n - 1, i)
    }
}

/// Different new tokens are for different paths.
proof fn lemma_new_tokens_distinct(s: Sources, pk: Seq<PathView>, dk: Seq<PathView>, p: PlanView, a: int, b: int)
    requires
        planned(s, pk, dk, p),
        0 <= a < b < s.new_tokens(s.attach.len() as int).len(),
    ensures
        s.new_tokens(s.attach.len() as int)[a].locs[1].path != s.new_tokens(s.attach.len() as int)[b].locs[1].path,
{
    crate::pathmap::lemma_ascending_distinct(pk);
    crate::compile::lemma_attach_list_distinct(s.ov, s.before, pk, pk.len() as int);
    lemma_new_tokens_apart(s, s.attach.len() as int, a, b);
}

proof fn lemma_new_tokens_apart(s: Sources, n: int, a: int, b: int)
    requires
        s.attach.no_duplicates(),
        0 <= n <= s.attach.len(),
        0 <= a < b < s.new_tokens(n).len(),
    ensures
        s.new_tokens(n)[a].locs[1].path != s.new_tokens(n)[b].locs[1].path,
    decreases n,
{
    let less = s.new_tokens(n - 1);
    if b < less.len() {
        lemma_new_tokens_apart(s, n - 1, a, b);
    } else {
        let i = lemma_new_tokens_at(s, n - 1, a);
        assert(s.attach[i] != s.attach[n - 1]);
    }
}

/// What a location of the plan is.
pub enum Spot {
    /// A base path.
    Base,
    /// In the backup, or in staging.
    Own,
    /// A path at which something is attached.
    Target(PathView),
}

/// What a location is, and where its directory is on the disk.
pub proof fn lemma_location(s: Sources, pk: Seq<PathView>, dk: Seq<PathView>, d: Disk, tx: TxDir, p: PlanView, t: int, i: int) -> (r: (
    Spot,
    PathView,
))
    requires
        sound_plan(s, pk, dk, d, tx, p),
        0 <= t < p.tokens.len(),
        0 <= i < p.tokens[t].locs.len(),
    ensures
        ({
            let l = p.tokens[t].locs[i];
            &&& l.path.len() > 0
            &&& d.dir_at(r.1) == Some(l.parent)
            &&& match r.0 {
                Spot::Base => t < s.detach.len() && i == 0 && !private_path(l.path) && !private_path(r.1) && r.1
                    == l.path.drop_last(),
                Spot::Own => private_path(l.path) && l.path.len() == 4 && r.1 == l.path.drop_last() && (if t
                    < s.detach.len() {
                    i == 1 && r.1 == s.backup() && l.path.last() == decimal(t as nat)
                } else {
                    i == 0 && r.1 == s.staged()
                }),
                Spot::Target(q) => attaching(s.ov, s.before, q) && l == s.target(q) && !private_path(l.path) && (if t
                    < s.detach.len() {
                    i == 2
                } else {
                    i == 1
                }) && (!private_path(r.1) || r.1.len() == 4 && r.1.drop_last() == s.staged()) && (
                s.ov.look(s.before, q.drop_last()) matches Look::Found(dir) && match origin_of(dir) {
                    Some(o) => r.1 == o && !private_path(o),
                    None => bare(d, l.parent) && r.1.len() == 4,
                }),
            }
        }),
{
    let l = p.tokens[t].locs[i];
    let j = lemma_which(s, pk, dk, d, tx, p, t);
    lemma_starts(s, pk, dk, d, tx, p, t);
    lemma_private_dirs(s);
    lemma_paths_apart(s);
    if t < s.detach.len() && i == 0 {
        let b = s.detach[t];
        if b.drop_last().len() > 0 {
            assert(b.drop_last()[0] == b[0]);
        }
        (Spot::Base, b.drop_last())
    } else if t < s.detach.len() && i == 1 {
        assert(l.path.drop_last() =~= s.backup());
        assert(l.path[0] == s.backup()[0]);
        (Spot::Own, s.backup())
    } else if t < s.detach.len() {
        let q = lemma_goes_to(s, pk, dk, d, tx, p, t);
        let at = lemma_parent_home(s, pk, dk, d, tx, p, q);
        assert(s.ov.placed.contains_key(q));
        assert(tree_path(q));
        (Spot::Target(q), at)
    } else if i == 0 {
        assert(l.path.drop_last() =~= s.staged());
        assert(l.path[0] == s.staged()[0]);
        (Spot::Own, s.staged())
    } else {
        let q = s.attach[j];
        let at = lemma_parent_home(s, pk, dk, d, tx, p, q);
        assert(s.ov.placed.contains_key(q));
        assert(tree_path(q));
        (Spot::Target(q), at)
    }
}

/// A path that leads through another is private if that is.
proof fn lemma_through_private(d: Disk, x: PathView, y: PathView)
    requires
        !d.folds,
        goes_through(d, x, y),
    ensures
        private_path(x) == private_path(y),
        y.len() <= x.len(),
        x.take(y.len() as int) == y,
{
    let j = choose|j: int| 0 < j <= x.len() && alike_paths(d, y, #[trigger] x.take(j));
    assert(y =~= x.take(j));
    assert(y[0] == x[0]);
}

/// Every step leads away, and neither end of a step is on the way to the other.
proof fn lemma_steps_lead(s: Sources, pk: Seq<PathView>, dk: Seq<PathView>, d: Disk, tx: TxDir, p: PlanView)
    requires
        sound_plan(s, pk, dk, d, tx, p),
    ensures
        steps_lead_away(d, p),
        steps_lead_out(d, p),
{
    lemma_private_dirs(s);
    lemma_paths_apart(s);
    assert forall|t: int, i: int|
        #![trigger p.tokens[t].locs[i]]
        0 <= t < p.tokens.len() && 0 <= i < p.tokens[t].locs.len() - 1 implies !same_place(
        d,
        p.tokens[t].locs[i],
        p.tokens[t].locs[i + 1],
    ) && !entangled(d, p.tokens[t].locs[i].path, p.tokens[t].locs[i + 1].path) by {
        let (l, m) = (p.tokens[t].locs[i], p.tokens[t].locs[i + 1]);
        let (_, x) = lemma_location(s, pk, dk, d, tx, p, t, i);
        let (_, y) = lemma_location(s, pk, dk, d, tx, p, t, i + 1);
        if l.parent == m.parent {
            lemma_same_dir(d, x, y);
        }
        if goes_through(d, l.path, m.path) {
            lemma_through_private(d, l.path, m.path);
        }
        if goes_through(d, m.path, l.path) {
            lemma_through_private(d, m.path, l.path);
        }
    }
    assert forall|w: int, i: int|
        #![trigger p.waves[w][i]]
        p.has(w, i) implies !entangled(d, p.src(p.waves[w][i]).path, p.dst(p.waves[w][i]).path) by {
        let st = p.waves[w][i];
        assert(p.names_move(st));
        let l = p.tokens[st.token as int].locs[st.from as int];
    }
}

/// What stood where something is attached is detached.
proof fn lemma_made_room(s: Sources, pk: Seq<PathView>, dk: Seq<PathView>, d: Disk, tx: TxDir, p: PlanView, q: PathView)
    requires
        sound_plan(s, pk, dk, d, tx, p),
        attaching(s.ov, s.before, q),
        s.ov.look(s.before, q.drop_last()) matches Look::Found(dir) && (origin_of(dir) matches Some(o) && d.resolve(
            o.push(q.last()),
        ) is Some),
    ensures
        s.detach.contains(origin_of(s.ov.look(s.before, q.drop_last())->Found_0)->0.push(q.last())),
{
    let v = q.drop_last();
    let n = q.last();
    let dir = s.ov.look(s.before, v)->Found_0;
    let o = origin_of(dir)->0;
    let b = o.push(n);
    let at = lemma_parent_home(s, pk, dk, d, tx, p, q);
    assert(s.ov.placed.contains_key(q));
    assert(tree_path(q));
    assert(q =~= v.push(n));
    assert(b.drop_last() =~= o);
    if o.len() == 0 {
        let top: PathView = Seq::empty();
        assert(o =~= top);
        law_seen_once(s.ov, s.before, v, top);
        assert(b[0] == q[0]);
    } else {
        assert(b[0] == o[0]);
    }
    assert(!private_path(b));
    assert(s.before.resolve(b) == d.resolve(b));
    assert(base_look(s.before, s.ov.case_insensitive, b) is Found);
    assert(s.ov.placed.contains_key(v.push(n)));
    assert(s.ov.detached.contains_key(b));
    lemma_detach_exact(s, pk, dk, p, b);
    if is_noop(s.ov, s.before, b) {
        if o.len() > 0 {
            assert(b.take(o.len() as int) =~= o);
            assert(unmoved(s.ov, s.before, b.take(o.len() as int)));
        } else {
            assert(o =~= Seq::empty());
        }
        law_seen_once(s.ov, s.before, o, v);
        assert(q =~= b);
    } else if is_covered(s.ov, s.before, s.attach, b) {
        let m = b.len() - 1;
        let i = choose|i: int|
            0 < i <= m && is_removed(s.ov, s.before, s.attach, #[trigger] b.take(i)) && forall|j: int|
                i < j <= m ==> new_home(s.ov, s.attach, #[trigger] b.take(j), s.attach.len() as int) is None;
        assert(b.take(i) =~= o.take(i));
        assert forall|j: int| i < j <= o.len() implies new_home(s.ov, s.attach, #[trigger] o.take(j), s.attach.len() as int)
            is None by {
            assert(o.take(j) =~= b.take(j));
        }
        assert(lost(s, o, i));
        lemma_not_lost(s, pk, dk, p, o, i, v);
    }
}

/// Token `t` sits at the name of its start.
proof fn lemma_sits_at_start(s: Sources, pk: Seq<PathView>, dk: Seq<PathView>, d: Disk, tx: TxDir, p: PlanView, t: int)
    requires
        sound_plan(s, pk, dk, d, tx, p),
        0 <= t < p.tokens.len(),
    ensures
        token_seated(d, p, t, home(p)[t]),
        occupies(d, p, t, home(p)[t], Key { dir: p.tokens[t].locs[0].parent, name: p.tokens[t].locs[0].path.last() }),
        in_place(d, p.tokens[t].locs[0]),
{
    lemma_starts(s, pk, dk, d, tx, p, t);
    let l = p.tokens[t].locs[0];
    lemma_lookup(d, l.parent, l.path.last());
    assert(home(p)[t] == Pos::At(0));
}

/// Every location is free, or holds a token that starts there.
#[verifier::spinoff_prover]
#[verifier::rlimit(80)]
proof fn lemma_places_free(s: Sources, pk: Seq<PathView>, dk: Seq<PathView>, d: Disk, tx: TxDir, p: PlanView)
    requires
        sound_plan(s, pk, dk, d, tx, p),
    ensures
        places_free(d, p),
{
    lemma_private_dirs(s);
    lemma_paths_apart(s);
    assert forall|t: int, i: int, l: LocView, k: Key|
        #![trigger location_of(p, t, i, l), stands(d, k, l)]
        location_of(p, t, i, l) && stands(d, k, l) && d.names.contains_key(k) implies occupied(d, p, home(p), k) by {
        let (spot, at) = lemma_location(s, pk, dk, d, tx, p, t, i);
        assert(k == (Key { dir: l.parent, name: l.path.last() }));
        if i == 0 {
            lemma_sits_at_start(s, pk, dk, d, tx, p, t);
        } else {
            match spot {
                Spot::Base => {},
                Spot::Own => {},
                Spot::Target(q) => {
                    let dir = s.ov.look(s.before, q.drop_last())->Found_0;
                    let o = origin_of(dir)->0;
                    let b = o.push(q.last());
                    assert(b.drop_last() =~= o);
                    assert(d.resolve(b) is Some);
                    lemma_made_room(s, pk, dk, d, tx, p, q);
                    let u = choose|u: int| 0 <= u < s.detach.len() && s.detach[u] == b;
                    let j = lemma_which(s, pk, dk, d, tx, p, t);
                    assert(p.tokens[u] == s.base_token(u)) by {
                        let j = lemma_which(s, pk, dk, d, tx, p, u);
                    }
                    lemma_sits_at_start(s, pk, dk, d, tx, p, u);
                    lemma_starts(s, pk, dk, d, tx, p, u);
                    assert(p.tokens[u].locs[0].path == b);
                },
            }
        }
    }
}

/// No location is in the transaction's own directory, or on the way to it.
proof fn lemma_own_clear(s: Sources, pk: Seq<PathView>, dk: Seq<PathView>, d: Disk, tx: TxDir, p: PlanView)
    requires
        sound_plan(s, pk, dk, d, tx, p),
    ensures
        none_inside(p, d.dir_at(tx.at())->0),
        off_the_way(d, p, tx.at()),
        no_root_location(p),
{
    lemma_private_dirs(s);
    lemma_paths_apart(s);
    let at = tx.at();
    crate::state::lemma_private_name();
    assert(private_path(at));
    assert forall|t: int, i: int, l: LocView| #[trigger] location_of(p, t, i, l) implies l.parent != d.dir_at(at)->0 by {
        let (_, x) = lemma_location(s, pk, dk, d, tx, p, t, i);
        if l.parent == d.dir_at(at)->0 {
            lemma_same_dir(d, x, at);
        }
    }
    assert forall|t: int, i: int, l: LocView, j: int|
        #![trigger location_of(p, t, i, l), at[j]]
        location_of(p, t, i, l) && 0 <= j < at.len() && d.dir_at(at.take(j)) == Some(l.parent) implies !alike(
        d,
        l.path.last(),
        at[j],
    ) by {
        let (spot, x) = lemma_location(s, pk, dk, d, tx, p, t, i);
        lemma_same_dir(d, x, at.take(j));
        if j > 0 {
            assert(private_path(x)) by {
                assert(at.take(j)[0] == at[0]);
            }
        } else {
            assert(x.len() == 0);
            match spot {
                Spot::Base => {
                    assert(l.path.len() == 1);
                    assert(l.path.last() == l.path[0]);
                },
                Spot::Own => {},
                Spot::Target(q) => {
                    let top: PathView = Seq::empty();
                    assert(x =~= top);
                    law_seen_once(s.ov, s.before, q.drop_last(), top);
                    assert(l.path == q);
                    assert(q.len() == 1);
                    assert(q.last() == q[0]);
                },
            }
        }
    }
    assert forall|t: int, i: int|
        #![trigger p.tokens[t].locs[i]]
        0 <= t < p.tokens.len() && 0 <= i < p.tokens[t].locs.len() implies p.tokens[t].locs[i].path.len() > 0 by {
        let (_, _) = lemma_location(s, pk, dk, d, tx, p, t, i);
    }
}

/// No wave moves anything that is on the way to a token that it does not move.
proof fn lemma_undisturbed(s: Sources, pk: Seq<PathView>, dk: Seq<PathView>, d: Disk, tx: TxDir, p: PlanView)
    requires
        sound_plan(s, pk, dk, d, tx, p),
        ids_distinct(p),
    ensures
        undisturbed(d, p),
{
    let base = s.detach.len() as int;
    let depth = choose|depth: int| #[trigger]
        crate::compile::depth_bound(s, depth) && p.waves == crate::compile::detach_waves(s.tokens(), base, depth)
            + crate::compile::attach_waves(s.tokens(), base, depth);
    let first = lemma_compiled_is_ordered(p, base, depth);
    assert forall|t: int| 0 <= t < p.tokens.len() implies (#[trigger] p.tokens[t]).locs.len() == 2 || t < base
        && p.tokens[t].locs.len() == 3 by {
        lemma_starts(s, pk, dk, d, tx, p, t);
    }
    assert(p.has_locations());
    assert forall|w: int, i: int, t: int, m: LocView|
        #![trigger p.is_endpoint(p.waves[w][i], m), p.tokens[t]]
        p.has(w, i) && 0 <= t < p.tokens.len() && !moves_token(p, w, t) && p.is_endpoint(
            p.waves[w][i],
            m,
        ) implies !goes_through(d, p.tokens[t].locs[p.positions(w)[t]].path, m.path) by {
        lemma_bystander(p, base, first, w, i, t);
        lemma_not_through(s, pk, dk, d, tx, p, first, w, i, t, m);
    }
}

proof fn lemma_not_through(
    s: Sources,
    pk: Seq<PathView>,
    dk: Seq<PathView>,
    d: Disk,
    tx: TxDir,
    p: PlanView,
    first: int,
    w: int,
    i: int,
    t: int,
    m: LocView,
)
    requires
        sound_plan(s, pk, dk, d, tx, p),
        ids_distinct(p),
        ordered(p, s.detach.len() as int, first),
        p.has(w, i),
        0 <= t < p.tokens.len(),
        !moves_token(p, w, t),
        p.is_endpoint(p.waves[w][i], m),
        ({
            let base = s.detach.len() as int;
            let at = p.positions(w)[t];
            let depth = crate::order::depth_of(p.tokens, base, first, p.waves[w][i], w);
            &&& 0 <= at < p.tokens[t].locs.len()
            &&& t < base && at == 0 ==> w < first && p.tokens[t].locs[0].path.len() < depth
            &&& t < base && at == 2 ==> w >= first && p.tokens[t].locs[2].path.len() < depth
            &&& t >= base && at == 1 ==> w >= first && p.tokens[t].locs[1].path.len() < depth
        }),
    ensures
        !goes_through(d, p.tokens[t].locs[p.positions(w)[t]].path, m.path),
{
    let base = s.detach.len() as int;
    let at = p.positions(w)[t];
    let x = p.tokens[t].locs[at].path;
    let st = p.waves[w][i];
    let u = st.token as int;
    assert(p.names_move(st));
    let f = if m == p.src(st) {
        st.from as int
    } else {
        st.from + 1
    };
    assert(m == p.tokens[u].locs[f]);
    assert(u != t) by {
        assert(p.waves[w][i].token == u);
    }
    let (a, _) = lemma_location(s, pk, dk, d, tx, p, t, at);
    let (b, _) = lemma_location(s, pk, dk, d, tx, p, u, f);
    lemma_starts(s, pk, dk, d, tx, p, t);
    lemma_starts(s, pk, dk, d, tx, p, u);
    lemma_paths_apart(s);
    if goes_through(d, x, m.path) {
        lemma_through_private(d, x, m.path);
        if private_path(x) {
            // Both are in the backup, or both in staging.
            assert(x =~= m.path);
            if t < base {
                lemma_numeral_injective(t as nat, u as nat, 10);
            } else {
                assert(u >= base) by {
                    if u < base {
                        assert(x.drop_last() == s.staged() && m.path.drop_last() == s.backup());
                    }
                }
                assert(p.tokens[t].id == p.tokens[u].id);
            }
        } else {
            assert(m.path.len() <= x.len());
        }
    }
}

/// A compiled plan is grounded. As long as nobody else interferes, the plan that staged changes come
/// to can be carried out on the disk for which it was made, and undone.
pub proof fn law_compiled_plans_are_grounded(s: Sources, pk: Seq<PathView>, dk: Seq<PathView>, d: Disk, tx: TxDir, p: PlanView)
    requires
        sound_plan(s, pk, dk, d, tx, p),
    ensures
        grounded(d, p, tx),
{
    lemma_ids_distinct(s, pk, dk, d, tx, p);
    lemma_steps_lead(s, pk, dk, d, tx, p);
    lemma_places_free(s, pk, dk, d, tx, p);
    lemma_own_clear(s, pk, dk, d, tx, p);
    lemma_undisturbed(s, pk, dk, d, tx, p);
    assert forall|t: int| 0 <= t < p.tokens.len() implies #[trigger] token_seated(d, p, t, home(p)[t]) by {
        lemma_sits_at_start(s, pk, dk, d, tx, p, t);
    }
    assert forall|t: int, l: LocView|
        #![trigger rests_at(p, t, home(p)[t], l)]
        0 <= t < home(p).len() && rests_at(p, t, home(p)[t], l) implies in_place(d, l) by {
        lemma_sits_at_start(s, pk, dk, d, tx, p, t);
        assert(home(p)[t] == Pos::At(0));
    }
    assert forall|t: int| 0 <= t < p.tokens.len() implies d.objects[(#[trigger] p.tokens[t]).id].kind() == p.tokens[t].kind && (
    p.tokens[t].kind == Kind::File || p.tokens[t].kind == Kind::Dir) by {
        lemma_starts(s, pk, dk, d, tx, p, t);
    }
    assert forall|t: int| 0 <= t < p.tokens.len() implies 1 <= (#[trigger] p.tokens[t]).locs.len() <= usize::MAX by {
        lemma_starts(s, pk, dk, d, tx, p, t);
    }
    assert(countable(p));
    assert(tame(d, p));
    assert(fitting(d, p));
}

} // verus!
