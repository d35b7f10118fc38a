//! Undoing leads back: from wherever an interruption left the tokens, and however often
//! undoing is interrupted itself, a rollback that is carried through leaves every path outside
//! the private area leading where it led before the transaction.
use vstd::prelude::*;

use crate::atomicity::{
    countable, fitting, kin, lemma_kin_resolves, same_kinds, scattered,
    tokens_in_place, rests_at,
};
use crate::bytes::Name;
use crate::classify::{hits, intruder, known, last_intruder, no_root_location, present, sits, token_pos};
use crate::classify::{lemma_hits, lemma_sits_holds};
use crate::disk::{Disk, FileId, Key, Kind};
use crate::moves::{
    holds, lemma_seat_held, lemma_seat_kept, occupied, occupies, rearranged, same_place, seat, seated, token_seated,
};
use crate::path::{parent_of, private_name, private_path, PathView};
use crate::plan::{LocView, PlanView};
use crate::positions::{has_shape, log_agrees, pos_fits, positions_fit, Pos};
use crate::recover::{begun, cleared, going, home, lemma_marked_adds, log_of, log_path, rolled_back, tame};
use crate::state::{marked, Marker, TxDir};
use crate::tree::{alike, alike_paths, lemma_lookup, lemma_same_names_transitive, lemma_unique_path, linked, same_names};
use crate::durability::outside;
use crate::turns::{in_place, lemma_same_seats, outlying, secluded, stands};
use crate::vfs::same_volume;

verus! {

/// `l` is one of the plan's locations.
pub open spec fn location_of(p: PlanView, t: int, i: int, l: LocView) -> bool {
    0 <= t < p.tokens.len() && 0 <= i < p.tokens[t].locs.len() && l == p.tokens[t].locs[i]
}

/// No token's way leads back to where it has been: its locations are at different paths, or in
/// different directories.
pub open spec fn places_differ(d: Disk, p: PlanView) -> bool {
    forall|t: int, i: int, j: int|
        #![trigger p.tokens[t].locs[i], p.tokens[t].locs[j]]
        0 <= t < p.tokens.len() && 0 <= i < j < p.tokens[t].locs.len() ==> !same_spot(
            d,
            p.tokens[t].locs[i],
            p.tokens[t].locs[j],
        )
}

/// The two locations are one place, at one path.
pub open spec fn same_spot(d: Disk, l: LocView, m: LocView) -> bool {
    l.parent == m.parent && alike_paths(d, l.path, m.path)
}

/// Paths are alike on every disk of a filesystem that ignores case as this one does.
pub proof fn lemma_same_alike(a: Disk, b: Disk, p: PathView, q: PathView)
    requires
        a.folds == b.folds,
    ensures
        alike_paths(a, p, q) == alike_paths(b, p, q),
{
    assert forall|i: int| alike(a, #[trigger] p[i], q[i]) == alike(b, p[i], q[i]) by {}
    if alike_paths(a, p, q) {
        assert forall|i: int| 0 <= i < p.len() implies alike(b, #[trigger] p[i], q[i]) by {
            assert(alike(a, p[i], q[i]));
        }
    }
    if alike_paths(b, p, q) {
        assert forall|i: int| 0 <= i < p.len() implies alike(a, #[trigger] p[i], q[i]) by {
            assert(alike(b, p[i], q[i]));
        }
    }
}

/// Two locations that are in place and are one place are at one path.
proof fn lemma_one_place(d: Disk, l: LocView, m: LocView)
    requires
        d.well_formed(),
        in_place(d, l),
        in_place(d, m),
        same_place(d, l, m),
    ensures
        alike_paths(d, l.path, m.path),
        alike_paths(d, m.path, l.path),
{
    lemma_unique_path(d, l.path.drop_last(), m.path.drop_last());
    assert forall|i: int| 0 <= i < l.path.len() implies alike(d, #[trigger] l.path[i], m.path[i]) by {
        if i < l.path.len() - 1 {
            assert(alike(d, l.path.drop_last()[i], m.path.drop_last()[i]));
        }
    }
    assert forall|i: int| 0 <= i < m.path.len() implies alike(d, #[trigger] m.path[i], l.path[i]) by {
        assert(alike(d, l.path[i], m.path[i]));
    }
}

/// Every location is free or holds a token that starts there.
pub open spec fn places_free(d: Disk, p: PlanView) -> bool {
    forall|t: int, i: int, l: LocView, k: Key|
        #![trigger location_of(p, t, i, l), stands(d, k, l)]
        location_of(p, t, i, l) && stands(d, k, l) && d.names.contains_key(k) ==> occupied(d, p, home(p), k)
}

/// No location is on the way to `q`.
pub open spec fn off_the_way(d: Disk, p: PlanView, q: PathView) -> bool {
    forall|t: int, i: int, l: LocView, j: int|
        #![trigger location_of(p, t, i, l), q[j]]
        location_of(p, t, i, l) && 0 <= j < q.len() && d.dir_at(q.take(j)) == Some(l.parent) ==> !alike(
            d,
            l.path.last(),
            q[j],
        )
}

/// No location is directly inside the directory.
pub open spec fn none_inside(p: PlanView, dir: FileId) -> bool {
    forall|t: int, i: int, l: LocView| #[trigger] location_of(p, t, i, l) ==> l.parent != dir
}

/// The tokens are files and directories, as the plan says.
pub open spec fn kinds_right(d: Disk, p: PlanView) -> bool {
    forall|t: int|
        0 <= t < p.tokens.len() ==> d.objects[(#[trigger] p.tokens[t]).id].kind() == p.tokens[t].kind && (
        p.tokens[t].kind == Kind::File || p.tokens[t].kind == Kind::Dir)
}

/// The plan belongs to the transaction `tx` on the disk `d`, as it was before the first step:
/// it fits the disk, its locations are different places that are free or hold tokens, and
/// none of them is in or on the way to the transaction's own directory.
pub open spec fn grounded(d: Disk, p: PlanView, tx: TxDir) -> bool {
    &&& fitting(d, p)
    &&& kinds_right(d, p)
    &&& no_root_location(p)
    &&& places_differ(d, p)
    &&& places_free(d, p)
    &&& d.dir_at(tx.at()) matches Some(own) && none_inside(p, own)
    &&& off_the_way(d, p, tx.at())
}

/// The object that the name leads to in the directory.
pub open spec fn found(d: Disk, dir: FileId, name: Name) -> Option<FileId> {
    match d.lookup(dir, name) {
        Some(k) => Some(d.names[k]),
        None => None,
    }
}

/// A name that finds `k` leads to its object.
proof fn lemma_finds(d: Disk, k: Key, name: Name)
    requires
        d.well_formed(),
        d.names.contains_key(k),
        alike(d, k.name, name),
    ensures
        found(d, k.dir, name) == Some(d.names[k]),
{
    lemma_lookup(d, k.dir, name);
}

/// An occupied name stands at a location and leads to the token.
proof fn lemma_occupied(d: Disk, p: PlanView, pos: Seq<Pos>, k: Key) -> (r: (int, int))
    requires
        d.well_formed(),
        seated(d, p, pos),
        positions_fit(p, pos),
        occupied(d, p, pos, k),
    ensures
        location_of(p, r.0, r.1, p.tokens[r.0].locs[r.1]),
        stands(d, k, p.tokens[r.0].locs[r.1]),
        d.names.contains_key(k),
        d.names[k] == p.tokens[r.0].id,
{
    let t = choose|t: int| 0 <= t < p.tokens.len() && #[trigger] occupies(d, p, t, pos[t], k);
    assert(token_seated(d, p, t, pos[t]));
    assert(pos_fits(p, t, pos[t]));
    lemma_seat_held(d, p, t, pos[t], k);
    match pos[t] {
        Pos::At(i) => {
            let l = p.tokens[t].locs[i as int];
            lemma_lookup(d, l.parent, l.path.last());
            (t, i as int)
        },
        Pos::Both(i) => {
            let l = p.tokens[t].locs[i as int];
            let m = p.tokens[t].locs[i + 1];
            lemma_lookup(d, l.parent, l.path.last());
            lemma_lookup(d, m.parent, m.path.last());
            if k == seat(d, l) {
                (t, i as int)
            } else {
                (t, i + 1)
            }
        },
    }
}

/// Where no location is, the same is found.
proof fn lemma_found_elsewhere(
    a: Disk,
    b: Disk,
    p: PlanView,
    from: Seq<Pos>,
    to: Seq<Pos>,
    dir: FileId,
    name: Name,
)
    requires
        a.well_formed(),
        b.well_formed(),
        a.folds == b.folds,
        seated(a, p, from),
        positions_fit(p, from),
        positions_fit(p, to),
        rearranged(a, b, p, from, to),
        forall|t: int, i: int, l: LocView| #[trigger]
            location_of(p, t, i, l) && l.parent == dir ==> !alike(a, l.path.last(), name),
    ensures
        found(a, dir, name) == found(b, dir, name),
{
    lemma_lookup(a, dir, name);
    lemma_lookup(b, dir, name);
    if found(a, dir, name) is Some {
        let k = a.lookup(dir, name)->0;
        if occupied(a, p, from, k) {
            let (t, i) = lemma_occupied(a, p, from, k);
        }
        if occupied(b, p, to, k) {
            let (t, i) = lemma_occupied(b, p, to, k);
        }
        assert(b.names.contains_key(k));
        lemma_finds(b, k, name);
    } else if found(b, dir, name) is Some {
        let k = b.lookup(dir, name)->0;
        if occupied(b, p, to, k) {
            let (t, i) = lemma_occupied(b, p, to, k);
        }
        assert(a.names.contains_key(k));
    }
}

/// A path that no location is on the way to leads where it did.
proof fn lemma_resolves_elsewhere(a: Disk, b: Disk, p: PlanView, from: Seq<Pos>, to: Seq<Pos>, q: PathView)
    requires
        a.well_formed(),
        b.well_formed(),
        same_volume(a, b),
        same_kinds(a, b),
        seated(a, p, from),
        positions_fit(p, from),
        positions_fit(p, to),
        rearranged(a, b, p, from, to),
        off_the_way(a, p, q),
    ensures
        a.resolve(q) == b.resolve(q),
        a.dir_at(q) == b.dir_at(q),
    decreases q.len(),
{
    if q.len() > 0 {
        let r = q.drop_last();
        let last = q.len() - 1;
        assert(r =~= q.take(last));
        assert(off_the_way(a, p, r)) by {
            assert forall|t: int, i: int, l: LocView, j: int|
                #![trigger location_of(p, t, i, l), r[j]]
                location_of(p, t, i, l) && 0 <= j < r.len() && a.dir_at(r.take(j)) == Some(l.parent) implies !alike(
                a,
                l.path.last(),
                r[j],
            ) by {
                assert(r.take(j) =~= q.take(j));
                assert(r[j] == q[j]);
            }
        }
        lemma_resolves_elsewhere(a, b, p, from, to, r);
        if a.dir_at(r) is Some {
            let dir = a.dir_at(r)->0;
            assert forall|t: int, i: int, l: LocView| #[trigger]
                location_of(p, t, i, l) && l.parent == dir implies !alike(a, l.path.last(), q.last()) by {
                assert(q[last] == q.last());
            }
            lemma_found_elsewhere(a, b, p, from, to, dir, q.last());
        }
        lemma_resolved_dirs(a, b, q);
    } else {
        lemma_resolved_dirs(a, b, q);
    }
}

proof fn lemma_resolved_dirs(a: Disk, b: Disk, q: PathView)
    requires
        same_kinds(a, b),
        a.resolve(q) == b.resolve(q),
    ensures
        a.dir_at(q) == b.dir_at(q),
{
    if a.resolve(q) is Some {
        let id = a.resolve(q)->0;
        assert(a.objects.contains_key(id) == b.objects.contains_key(id));
        if a.objects.contains_key(id) {
            crate::tree::lemma_kind_dir(a.objects[id], b.objects[id]);
        }
    }
}

/// The index is among those of the position.
spec fn at_index(x: Pos, i: int) -> bool {
    match x {
        Pos::At(j) => i == j,
        Pos::Both(j) => i == j || i == j + 1,
    }
}

/// A token is found nowhere but where it is.
proof fn lemma_only_there(base: Disk, e: Disk, p: PlanView, tx: TxDir, pos: Seq<Pos>, t: int, h: int)
    requires
        grounded(base, p, tx),
        scattered(base, e, p, pos),
        0 <= t < p.tokens.len(),
        0 <= h < p.tokens[t].locs.len(),
        holds(e, p.tokens[t].locs[h], p.tokens[t].id),
        in_place(e, p.tokens[t].locs[h]),
    ensures
        at_index(pos[t], h),
{
    let l = p.tokens[t].locs[h];
    let k = seat(e, l);
    lemma_lookup(e, l.parent, l.path.last());
    assert(pos_fits(p, t, pos[t]));
    assert(token_seated(e, p, t, pos[t]));
    if !at_index(pos[t], h) {
        assert(stands(base, k, l));
        assert(location_of(p, t, h, l));
        if occupied(e, p, pos, k) {
            let u = choose|u: int| 0 <= u < p.tokens.len() && #[trigger] occupies(e, p, u, pos[u], k);
            assert(token_seated(e, p, u, pos[u]));
            lemma_seat_held(e, p, u, pos[u], k);
            assert(p.tokens[u].id == p.tokens[t].id);
            assert(u == t);
            match pos[t] {
                Pos::At(i) => {
                    let m = p.tokens[t].locs[i as int];
                    lemma_lookup(e, m.parent, m.path.last());
                    assert(rests_at(p, t, pos[t], m));
                    assert(same_place(e, m, l));
                    lemma_one_place(e, m, l);
                    assert(same_spot(base, m, l) && same_spot(base, l, m));
                },
                Pos::Both(i) => {
                    let m = p.tokens[t].locs[i as int];
                    let n = p.tokens[t].locs[i + 1];
                    lemma_lookup(e, m.parent, m.path.last());
                    lemma_lookup(e, n.parent, n.path.last());
                    assert(rests_at(p, t, pos[t], m) && rests_at(p, t, pos[t], n));
                    if same_place(e, m, l) {
                        lemma_one_place(e, m, l);
                        assert(same_spot(base, m, l) && same_spot(base, l, m));
                    } else {
                        assert(same_place(e, n, l));
                        lemma_one_place(e, n, l);
                        assert(same_spot(base, n, l) && same_spot(base, l, n));
                    }
                },
            }
        } else {
            assert(e.names.contains_key(k));
            assert(base.names.contains_key(k));
            assert(occupied(base, p, home(p), k));
        }
    }
}

/// A token that a location holds, with the parent in place, is found there.
proof fn lemma_held_is_found(e: Disk, p: PlanView, t: int, h: int)
    requires
        e.well_formed(),
        e.steady,
        0 <= t < p.tokens.len(),
        0 <= h < p.tokens[t].locs.len(),
        holds(e, p.tokens[t].locs[h], p.tokens[t].id),
        in_place(e, p.tokens[t].locs[h]),
        e.objects[p.tokens[t].id].kind() == p.tokens[t].kind,
    ensures
        sits(e, p.tokens[t], h),
{
    let l = p.tokens[t].locs[h];
    assert(parent_of(l.path) == l.path.drop_last());
    assert(present(e, l, p.tokens[t].id));
}

/// Nothing unknown is at a location.
proof fn lemma_no_intruder(base: Disk, e: Disk, p: PlanView, tx: TxDir, pos: Seq<Pos>, t: int, n: int)
    requires
        grounded(base, p, tx),
        scattered(base, e, p, pos),
        0 <= t < p.tokens.len(),
        0 <= n <= p.tokens[t].locs.len(),
    ensures
        last_intruder(e, p, p.tokens[t], n) is None,
    decreases n,
{
    if n > 0 {
        lemma_no_intruder(base, e, p, tx, pos, t, n - 1);
        let l = p.tokens[t].locs[n - 1];
        assert(location_of(p, t, n - 1, l));
        if intruder(e, p, l) {
            let id = choose|id: FileId| #[trigger] present(e, l, id) && !known(p, e.shows(id));
            assert(l.path.len() > 0);
            assert(parent_of(l.path) == l.path.drop_last());
            lemma_lookup(e, l.parent, l.path.last());
            let k = seat(e, l);
            assert(e.names.contains_key(k) && e.names[k] == id);
            assert(stands(base, k, l));
            if occupied(e, p, pos, k) {
                let (u, i) = lemma_occupied(e, p, pos, k);
                assert(p.tokens[u].id == id);
            } else {
                assert(base.names.contains_key(k));
                assert(occupied(base, p, home(p), k));
            }
        }
    }
}

/// Classification tells the truth. Wherever an interruption leaves the tokens, recovery finds
/// each of them where it is, and the shape is one that it accepts.
pub proof fn law_recovery_finds_every_token(base: Disk, e: Disk, p: PlanView, tx: TxDir, pos: Seq<Pos>)
    requires
        grounded(base, p, tx),
        scattered(base, e, p, pos),
    ensures
        forall|t: int| 0 <= t < p.tokens.len() ==> token_pos(e, p, t) == Some(#[trigger] pos[t]),
        has_shape(p, pos),
        cleared(e, tx, p, pos) <==> log_agrees(p, log_of(e, tx), pos),
{
    assert forall|t: int| 0 <= t < p.tokens.len() implies token_pos(e, p, t) == Some(#[trigger] pos[t]) by {
        let tok = p.tokens[t];
        let n = tok.locs.len() as int;
        let x = pos[t];
        let h = hits(e, tok, n);
        assert(tok.locs.len() <= usize::MAX);
        assert(pos_fits(p, t, pos[t]));
        assert(token_seated(e, p, t, pos[t]));
        lemma_no_intruder(base, e, p, tx, pos, t, n);
        lemma_hits(e, tok, n);
        assert(e.objects[tok.id].kind() == tok.kind) by {
            lemma_token_known(base, p, t);
        }
        assert forall|k: int| 0 <= k < h.len() implies at_index(x, #[trigger] h[k] as int) by {
            assert(h[k] < n && sits(e, tok, h[k] as int));
            lemma_sits_holds(e, p, t, h[k] as int);
            assert(in_place(e, tok.locs[h[k] as int]));
            lemma_only_there(base, e, p, tx, pos, t, h[k] as int);
        }
        match x {
            Pos::At(i) => {
                assert(rests_at(p, t, pos[t], tok.locs[i as int]));
                lemma_held_is_found(e, p, t, i as int);
                let a = choose|a: int| 0 <= a < h.len() && h[a] == i;
                assert(h.len() == 1) by {
                    if h.len() > 1 {
                        assert(h[0] < h[1]);
                        assert(at_index(x, h[0] as int) && at_index(x, h[1] as int));
                    }
                }
            },
            Pos::Both(i) => {
                let (l, m) = (tok.locs[i as int], tok.locs[i + 1]);
                assert(rests_at(p, t, pos[t], l) && rests_at(p, t, pos[t], m));
                lemma_held_is_found(e, p, t, i as int);
                lemma_held_is_found(e, p, t, i + 1);
                let j = (i + 1) as usize;
                let a = choose|a: int| 0 <= a < h.len() && h[a] == i;
                let b = choose|b: int| 0 <= b < h.len() && h[b] == j;
                assert(h.len() == 2) by {
                    if h.len() > 2 {
                        assert(h[0] < h[1] && h[1] < h[2]);
                        assert(at_index(x, h[0] as int) && at_index(x, h[1] as int) && at_index(x, h[2] as int));
                    }
                }
                assert(h[0] < h[1]);
                lemma_lookup(e, l.parent, l.path.last());
                lemma_lookup(e, m.parent, m.path.last());
                if same_place(e, l, m) {
                    lemma_one_place(e, l, m);
                    assert(same_spot(base, l, m));
                }
                assert(seat(e, l) != seat(e, m));
                assert(!e.is_dir(tok.id));
                assert(tok.kind == Kind::File);
            },
        }
    }
}

/// A token is an object of the base.
proof fn lemma_token_known(base: Disk, p: PlanView, t: int)
    requires
        base.well_formed(),
        seated(base, p, home(p)),
        0 <= t < p.tokens.len(),
    ensures
        base.objects.contains_key(p.tokens[t].id),
{
    let l = p.tokens[t].locs[0];
    assert(token_seated(base, p, t, home(p)[t]));
    lemma_lookup(base, l.parent, l.path.last());
    assert(base.names.contains_key(seat(base, l)));
}

/// What recovery has found out about the tokens is where they are.
pub proof fn law_recovery_is_never_mistaken(base: Disk, e: Disk, p: PlanView, tx: TxDir, pos: Seq<Pos>, seen: Seq<Pos>)
    requires
        grounded(base, p, tx),
        scattered(base, e, p, pos),
        cleared(e, tx, p, seen),
    ensures
        seen == pos,
{
    law_recovery_finds_every_token(base, e, p, tx, pos);
    assert forall|t: int| 0 <= t < p.tokens.len() implies seen[t] == pos[t] by {
        assert(token_pos(e, p, t) == Some(seen[t]));
    }
    assert(seen =~= pos);
}

/// A name of the base is still there, or held a token, which is elsewhere now.
pub proof fn lemma_still_linked(base: Disk, e: Disk, p: PlanView, pos: Seq<Pos>, k: Key)
    requires
        base.well_formed(),
        e.well_formed(),
        seated(base, p, home(p)),
        positions_fit(p, home(p)),
        positions_fit(p, pos),
        rearranged(base, e, p, home(p), pos),
        base.names.contains_key(k),
    ensures
        exists|l: Key| #[trigger] e.names.contains_key(l) && e.names[l] == base.names[k],
{
    if occupied(base, p, home(p), k) {
        let t = choose|t: int| 0 <= t < p.tokens.len() && #[trigger] occupies(base, p, t, home(p)[t], k);
        assert(token_seated(base, p, t, home(p)[t]));
        lemma_seat_held(base, p, t, home(p)[t], k);
        assert(token_seated(e, p, t, pos[t]));
        let l = match pos[t] {
            Pos::At(i) => seat(e, p.tokens[t].locs[i as int]),
            Pos::Both(i) => seat(e, p.tokens[t].locs[i as int]),
        };
        assert(occupies(e, p, t, pos[t], l));
        lemma_seat_held(e, p, t, pos[t], l);
    } else {
        assert(!occupied(e, p, pos, k));
        assert(e.names.contains_key(k));
    }
}

/// Tokens stay where they are when names are added.
proof fn lemma_same_occupied(a: Disk, b: Disk, p: PlanView, pos: Seq<Pos>)
    requires
        a.well_formed(),
        b.well_formed(),
        a.folds == b.folds,
        seated(a, p, pos),
        forall|k: Key| #[trigger] a.names.contains_key(k) ==> b.names.contains_key(k) && b.names[k] == a.names[k],
    ensures
        seated(b, p, pos),
        forall|k: Key| #[trigger] occupied(a, p, pos, k) == occupied(b, p, pos, k),
{
    assert forall|t: int| 0 <= t < p.tokens.len() implies #[trigger] token_seated(b, p, t, pos[t]) && forall|k: Key|
        occupies(a, p, t, pos[t], k) == occupies(b, p, t, pos[t], k) by {
        assert(token_seated(a, p, t, pos[t]));
        match pos[t] {
            Pos::At(i) => {
                let l = p.tokens[t].locs[i as int];
                lemma_lookup(a, l.parent, l.path.last());
                lemma_seat_kept(a, b, l, p.tokens[t].id);
            },
            Pos::Both(i) => {
                let l = p.tokens[t].locs[i as int];
                let m = p.tokens[t].locs[i + 1];
                lemma_lookup(a, l.parent, l.path.last());
                lemma_seat_kept(a, b, l, p.tokens[t].id);
                lemma_lookup(a, m.parent, m.path.last());
                lemma_seat_kept(a, b, m, p.tokens[t].id);
            },
        }
    }
    assert forall|k: Key| #[trigger] occupied(a, p, pos, k) == occupied(b, p, pos, k) by {
        if occupied(a, p, pos, k) {
            let t = choose|t: int| 0 <= t < p.tokens.len() && #[trigger] occupies(a, p, t, pos[t], k);
            assert(token_seated(b, p, t, pos[t]));
            assert(occupies(b, p, t, pos[t], k));
        }
        if occupied(b, p, pos, k) {
            let t = choose|t: int| 0 <= t < p.tokens.len() && #[trigger] occupies(b, p, t, pos[t], k);
            assert(token_seated(b, p, t, pos[t]));
            assert(occupies(a, p, t, pos[t], k));
        }
    }
}

/// `b` is `a` with names added in the directory `own`, for objects that are new.
pub open spec fn grown(a: Disk, b: Disk, own: FileId) -> bool {
    &&& same_volume(a, b)
    &&& forall|k: Key| #[trigger] a.names.contains_key(k) ==> b.names.contains_key(k) && b.names[k] == a.names[k]
    &&& forall|k: Key| #[trigger] b.names.contains_key(k) && !a.names.contains_key(k) ==> k.dir == own
    &&& forall|x: FileId| #[trigger]
        linked(a, x) ==> b.objects.contains_key(x) && b.objects[x].kind() == a.objects[x].kind()
}

/// Deciding on the rollback adds no name but in the transaction's directory.
proof fn lemma_begun_grows(e: Disk, m: Disk, tx: TxDir, p: PlanView)
    requires
        e.well_formed(),
        m.well_formed(),
        same_volume(e, m),
        begun(e, m, tx, p),
        e.dir_at(tx.at()) is Some,
    ensures
        grown(e, m, e.dir_at(tx.at())->0),
{
    let s = choose|s: Disk|
        crate::recover::only_synced(e, s) && crate::recover::parents_synced(e, s, crate::recover::all_locations(p))
            && #[trigger] marked(s, m, tx, Marker::RollingBack);
    crate::tree::lemma_same_content(e, s);
    assert(s.resolve(tx.at()) == e.resolve(tx.at()));
    assert forall|k: Key| #[trigger] e.names.contains_key(k) implies m.names.contains_key(k) && m.names[k]
        == e.names[k] by {
        lemma_marked_adds(s, m, tx, Marker::RollingBack, k);
    }
    assert forall|k: Key| #[trigger] m.names.contains_key(k) && !e.names.contains_key(k) implies k.dir == e.dir_at(
        tx.at(),
    )->0 by {
        lemma_marked_adds(s, m, tx, Marker::RollingBack, k);
    }
    assert forall|x: FileId| #[trigger] linked(e, x) implies m.objects.contains_key(x) && m.objects[x].kind()
        == e.objects[x].kind() by {
        crate::tree::lemma_linked_known(e, x);
        assert(linked(s, x)) by {
            if x != e.root {
                let k = choose|k: Key| #[trigger] e.names.contains_key(k) && e.names[k] == x;
                assert(s.names.contains_key(k) && s.names[k] == x);
            }
        }
        lemma_marked_adds(s, m, tx, Marker::RollingBack, arbitrary());
    }
}

/// Undone completely, every name outside the transaction's directory leads where it did.
proof fn lemma_found_again(
    base: Disk,
    e: Disk,
    m: Disk,
    n: Disk,
    p: PlanView,
    pos: Seq<Pos>,
    own: FileId,
    dir: FileId,
    name: Name,
)
    requires
        base.well_formed(),
        e.well_formed(),
        m.well_formed(),
        n.well_formed(),
        same_volume(base, e),
        same_volume(e, m),
        same_volume(m, n),
        seated(base, p, home(p)),
        rearranged(base, e, p, home(p), pos),
        grown(e, m, own),
        rearranged(m, n, p, pos, home(p)),
        dir != own,
    ensures
        found(base, dir, name) == found(n, dir, name),
{
    lemma_lookup(base, dir, name);
    lemma_lookup(n, dir, name);
    lemma_same_occupied(e, m, p, pos);
    if found(base, dir, name) is Some {
        let k = base.lookup(dir, name)->0;
        if occupied(base, p, home(p), k) {
            let t = choose|t: int| 0 <= t < p.tokens.len() && #[trigger] occupies(base, p, t, home(p)[t], k);
            lemma_home_found(base, n, p, t, k, name);
        } else {
            assert(!occupied(e, p, pos, k));
            assert(e.names.contains_key(k));
            assert(m.names.contains_key(k));
            assert(!occupied(m, p, pos, k));
            assert(!occupied(n, p, home(p), k));
            assert(n.names.contains_key(k));
            lemma_finds(n, k, name);
        }
    } else if found(n, dir, name) is Some {
        let k = n.lookup(dir, name)->0;
        if occupied(n, p, home(p), k) {
            let t = choose|t: int| 0 <= t < p.tokens.len() && #[trigger] occupies(n, p, t, home(p)[t], k);
            lemma_home_found(n, base, p, t, k, name);
        } else {
            assert(m.names.contains_key(k) && !occupied(m, p, pos, k));
            assert(e.names.contains_key(k) && !occupied(e, p, pos, k));
            assert(base.names.contains_key(k));
        }
    }
}

/// A token that is at home in both states is found at home in both.
proof fn lemma_home_found(a: Disk, b: Disk, p: PlanView, t: int, k: Key, name: Name)
    requires
        a.well_formed(),
        b.well_formed(),
        a.folds == b.folds,
        seated(a, p, home(p)),
        seated(b, p, home(p)),
        0 <= t < p.tokens.len(),
        occupies(a, p, t, home(p)[t], k),
        alike(a, k.name, name),
    ensures
        found(a, k.dir, name) == Some(p.tokens[t].id),
        found(b, k.dir, name) == Some(p.tokens[t].id),
{
    let l = p.tokens[t].locs[0];
    assert(token_seated(a, p, t, home(p)[t]));
    assert(token_seated(b, p, t, home(p)[t]));
    lemma_lookup(a, l.parent, l.path.last());
    lemma_lookup(b, l.parent, l.path.last());
    assert(k == seat(a, l));
    lemma_finds(a, k, name);
    lemma_finds(b, seat(b, l), name);
}

/// A path outside the private area leads where it did.
proof fn lemma_resolves_again(
    base: Disk,
    e: Disk,
    m: Disk,
    n: Disk,
    tx: TxDir,
    p: PlanView,
    pos: Seq<Pos>,
    own: FileId,
    q: PathView,
)
    requires
        base.well_formed(),
        e.well_formed(),
        m.well_formed(),
        n.well_formed(),
        same_volume(base, e),
        same_volume(e, m),
        same_volume(m, n),
        same_kinds(base, e),
        same_kinds(m, n),
        seated(base, p, home(p)),
        positions_fit(p, home(p)),
        positions_fit(p, pos),
        rearranged(base, e, p, home(p), pos),
        grown(e, m, own),
        rearranged(m, n, p, pos, home(p)),
        base.dir_at(tx.at()) == Some(own),
        !private_path(q),
    ensures
        n.resolve(q) == base.resolve(q),
        base.resolve(q) matches Some(id) ==> base.objects.contains_key(id) && n.objects.contains_key(id)
            && base.objects[id].kind() == n.objects[id].kind(),
    decreases q.len(),
{
    if q.len() > 0 {
        let r = q.drop_last();
        assert(!private_path(r)) by {
            if r.len() > 0 {
                assert(r[0] == q[0]);
            }
        }
        lemma_resolves_again(base, e, m, n, tx, p, pos, own, r);
        if base.resolve(r) is Some {
            let dir = base.resolve(r)->0;
            crate::tree::lemma_kind_dir(base.objects[dir], n.objects[dir]);
            if base.is_dir(dir) {
                assert(dir != own) by {
                    if dir == own {
                        lemma_unique_path(base, r, tx.at());
                        assert(tx.at()[0] == private_name());
                        assert(alike(base, r[0], tx.at()[0]));
                        crate::state::lemma_private_name();
                    }
                }
                lemma_found_again(base, e, m, n, p, pos, own, dir, q.last());
                lemma_lookup(base, dir, q.last());
            }
        }
    }
    if base.resolve(q) is Some {
        let id = base.resolve(q)->0;
        assert(linked(e, id)) by {
            if q.len() > 0 {
                let k = base.key_at(q)->0;
                lemma_lookup(base, base.dir_at(q.drop_last())->0, q.last());
                lemma_still_linked(base, e, p, pos, k);
                let l = choose|l: Key| #[trigger] e.names.contains_key(l) && e.names[l] == base.names[k];
                assert(e.names.contains_key(l) && e.names[l] == id);
            }
        }
        crate::tree::lemma_linked_known(e, id);
        assert(base.objects.contains_key(id));
        assert(m.objects.contains_key(id));
    }
}

/// From where the tokens are, a completed rollback leads back to the names of the base.
pub proof fn lemma_restored(base: Disk, e: Disk, f: Disk, p: PlanView, tx: TxDir, pos: Seq<Pos>, seen: Seq<Pos>)
    requires
        grounded(base, p, tx),
        scattered(base, e, p, pos),
        cleared(e, tx, p, seen),
        rolled_back(e, f, tx, p, seen),
    ensures
        same_names(base, f),
{
    law_recovery_is_never_mistaken(base, e, p, tx, pos, seen);
    let (m, n) = choose|m: Disk, n: Disk| #[trigger]
        going(m, n, tx, p, pos, home(p)) && crate::recover::waves_undone(m, n, tx, p, pos, 0) && begun(e, m, tx, p)
            && crate::tree::same_tree(n, f);
    let own = base.dir_at(tx.at())->0;
    lemma_home_fits(p);
    lemma_resolves_elsewhere(base, e, p, home(p), pos, tx.at());
    lemma_begun_volume(e, m, tx, p);
    lemma_begun_grows(e, m, tx, p);
    lemma_tame(base, m, p);
    assert forall|q: PathView| !private_path(q) implies (#[trigger] n.resolve(q)) == base.resolve(q) && (base.resolve(
        q,
    ) matches Some(id) ==> base.objects[id].kind() == n.objects[id].kind()) by {
        lemma_resolves_again(base, e, m, n, tx, p, pos, own, q);
    }
    assert(same_names(base, n));
    lemma_same_names_transitive(base, n, f);
}

/// The first locations are locations.
pub proof fn lemma_home_fits(p: PlanView)
    requires
        countable(p),
    ensures
        positions_fit(p, home(p)),
{
    assert forall|t: int| 0 <= t < home(p).len() implies pos_fits(p, t, #[trigger] home(p)[t]) by {
        assert(p.tokens[t].locs.len() >= 1);
    }
}

/// Deciding on the rollback stays on the filesystem.
pub proof fn lemma_begun_volume(e: Disk, m: Disk, tx: TxDir, p: PlanView)
    requires
        begun(e, m, tx, p),
    ensures
        same_volume(e, m),
{
    let s = choose|s: Disk|
        crate::recover::only_synced(e, s) && crate::recover::parents_synced(e, s, crate::recover::all_locations(p))
            && #[trigger] marked(s, m, tx, Marker::RollingBack);
}

/// Plans are tame on all states of one filesystem alike.
pub proof fn lemma_tame(a: Disk, b: Disk, p: PlanView)
    requires
        tame(a, p),
        same_volume(a, b),
    ensures
        tame(b, p),
{
    crate::atomicity::lemma_lead_away(a, b, p);
}

/// What a path leads to, it still leads to when names are added.
pub proof fn lemma_grown_resolves(a: Disk, b: Disk, own: FileId, q: PathView)
    requires
        a.well_formed(),
        b.well_formed(),
        grown(a, b, own),
        a.resolve(q) is Some,
    ensures
        b.resolve(q) == a.resolve(q),
        linked(a, a.resolve(q)->0),
        b.dir_at(q) == a.dir_at(q),
    decreases q.len(),
{
    let id = a.resolve(q)->0;
    if q.len() > 0 {
        let r = q.drop_last();
        lemma_grown_resolves(a, b, own, r);
        let dir = a.dir_at(r)->0;
        lemma_lookup(a, dir, q.last());
        lemma_lookup(b, dir, q.last());
        let k = a.lookup(dir, q.last())->0;
        assert(b.names.contains_key(k));
        assert(alike(b, k.name, q.last()));
        assert(a.names.contains_key(k) && a.names[k] == id);
    }
    assert(linked(a, id));
    crate::tree::lemma_linked_known(a, id);
    crate::tree::lemma_kind_dir(a.objects[id], b.objects[id]);
}

/// Tokens stay in place when names are added.
pub proof fn lemma_grown_in_place(a: Disk, b: Disk, own: FileId, p: PlanView, pos: Seq<Pos>)
    requires
        a.well_formed(),
        b.well_formed(),
        grown(a, b, own),
        tokens_in_place(a, p, pos),
    ensures
        tokens_in_place(b, p, pos),
{
    assert forall|t: int, l: LocView| #![trigger rests_at(p, t, pos[t], l)] 0 <= t < pos.len() && rests_at(
        p,
        t,
        pos[t],
        l,
    ) implies in_place(b, l) by {
        assert(in_place(a, l));
        lemma_grown_resolves(a, b, own, l.path.drop_last());
    }
}

/// Names that are added in the transaction's directory are not seen from outside.
proof fn lemma_grown_same_names(a: Disk, b: Disk, own: FileId, tx: TxDir, q: PathView)
    requires
        a.well_formed(),
        b.well_formed(),
        grown(a, b, own),
        a.dir_at(tx.at()) == Some(own),
        !private_path(q),
    ensures
        b.resolve(q) == a.resolve(q),
        a.resolve(q) matches Some(id) ==> a.objects[id].kind() == b.objects[id].kind(),
    decreases q.len(),
{
    if a.resolve(q) is Some {
        lemma_grown_resolves(a, b, own, q);
    } else {
        let r = q.drop_last();
        assert(!private_path(r)) by {
            if r.len() > 0 {
                assert(r[0] == q[0]);
            }
        }
        lemma_grown_same_names(a, b, own, tx, r);
        if a.resolve(r) is Some {
            lemma_grown_resolves(a, b, own, r);
            let dir = a.resolve(r)->0;
            if a.is_dir(dir) {
                if dir == own {
                    lemma_unique_path(a, r, tx.at());
                    assert(tx.at()[0] == private_name());
                    assert(alike(a, r[0], tx.at()[0]));
                    crate::state::lemma_private_name();
                }
                lemma_lookup(a, dir, q.last());
                lemma_lookup(b, dir, q.last());
            }
        }
    }
}

/// The base with the names that have been added since.
spec fn base_with(base: Disk, e: Disk, m: Disk) -> Disk {
    Disk {
        names: Map::new(
            |k: Key| base.names.contains_key(k) || m.names.contains_key(k) && !e.names.contains_key(k),
            |k: Key|
                if base.names.contains_key(k) {
                    base.names[k]
                } else {
                    m.names[k]
                },
        ),
        ..m
    }
}

/// The names in the transaction's directory are those of the base.
proof fn lemma_own_names(base: Disk, e: Disk, p: PlanView, tx: TxDir, pos: Seq<Pos>, k: Key)
    requires
        grounded(base, p, tx),
        scattered(base, e, p, pos),
        base.dir_at(tx.at()) == Some(k.dir),
    ensures
        base.names.contains_key(k) == e.names.contains_key(k),
        !occupied(base, p, home(p), k),
        !occupied(e, p, pos, k),
{
    lemma_home_fits(p);
    if occupied(base, p, home(p), k) {
        let (t, i) = lemma_occupied(base, p, home(p), k);
    }
    if occupied(e, p, pos, k) {
        let (t, i) = lemma_occupied(e, p, pos, k);
    }
    assert(base.names.contains_key(k) == e.names.contains_key(k)) by {
        if e.names.contains_key(k) {
            assert(base.names.contains_key(k));
        }
        if base.names.contains_key(k) {
            assert(e.names.contains_key(k));
        }
    }
}

proof fn lemma_base_well_formed(base: Disk, e: Disk, m: Disk, p: PlanView, tx: TxDir, pos: Seq<Pos>)
    requires
        grounded(base, p, tx),
        scattered(base, e, p, pos),
        m.well_formed(),
        base.dir_at(tx.at()) matches Some(own) && grown(e, m, own),
    ensures
        base_with(base, e, m).well_formed(),
        grown(base, base_with(base, e, m), base.dir_at(tx.at())->0),
{
    let b = base_with(base, e, m);
    let own = base.dir_at(tx.at())->0;
    lemma_home_fits(p);
    assert forall|x: FileId| #[trigger] linked(base, x) implies linked(e, x) && b.objects.contains_key(x)
        && b.objects[x].kind() == base.objects[x].kind() by {
        crate::tree::lemma_linked_known(base, x);
        if x != base.root {
            let k = choose|k: Key| #[trigger] base.names.contains_key(k) && base.names[k] == x;
            lemma_still_linked(base, e, p, pos, k);
            let l = choose|l: Key| #[trigger] e.names.contains_key(l) && e.names[l] == base.names[k];
            assert(e.names.contains_key(l) && e.names[l] == x);
        }
        assert(linked(e, x));
    }
    assert forall|k: Key| #[trigger] base.names.contains_key(k) implies b.is_dir(k.dir) by {
        if occupied(base, p, home(p), k) {
            let t = choose|t: int| 0 <= t < p.tokens.len() && #[trigger] occupies(base, p, t, home(p)[t], k);
            assert(token_seated(base, p, t, home(p)[t]));
            let l = p.tokens[t].locs[0];
            assert(rests_at(p, t, home(p)[t], l));
            assert(in_place(base, l));
            lemma_lookup(base, l.parent, l.path.last());
            let up = l.path.drop_last();
            assert(base.resolve(up) == Some(k.dir));
            lemma_resolved_linked(base, up);
            crate::tree::lemma_kind_dir(base.objects[k.dir], b.objects[k.dir]);
        } else {
            assert(!occupied(e, p, pos, k));
            assert(e.names.contains_key(k));
            assert(m.names.contains_key(k));
        }
    }
    assert forall|k: Key| #[trigger] b.names.contains_key(k) implies b.is_dir(k.dir) && b.objects.contains_key(
        b.names[k],
    ) && b.names[k] != b.root by {
        if base.names.contains_key(k) {
            assert(linked(base, base.names[k]));
        } else {
            assert(m.names.contains_key(k));
        }
    }
    assert(b.is_dir(b.root)) by {
        assert(m.is_dir(m.root));
    }
    assert forall|k: Key, l: Key|
        #![trigger b.names.contains_key(k), b.names.contains_key(l)]
        b.names.contains_key(k) && b.names.contains_key(l) && b.names[k] == b.names[l] && b.is_dir(
            b.names[k],
        ) implies k == l by {
        if base.names.contains_key(k) && base.names.contains_key(l) {
            let x = base.names[k];
            assert(linked(base, x));
            crate::tree::lemma_linked_known(base, x);
            crate::tree::lemma_kind_dir(base.objects[x], b.objects[x]);
        } else if base.names.contains_key(k) {
            lemma_new_is_new(base, e, m, p, pos, k, l);
        } else if base.names.contains_key(l) {
            lemma_new_is_new(base, e, m, p, pos, l, k);
        } else {
            assert(m.names.contains_key(k) && m.names.contains_key(l));
        }
    }
    if b.folds {
        assert forall|k: Key, l: Key|
            #![trigger b.names.contains_key(k), b.names.contains_key(l)]
            b.names.contains_key(k) && b.names.contains_key(l) && k.dir == l.dir && crate::bytes::folded(k.name)
                == crate::bytes::folded(l.name) implies k == l by {
            if k.dir == own {
                lemma_own_names(base, e, p, tx, pos, k);
                lemma_own_names(base, e, p, tx, pos, l);
                assert(m.names.contains_key(k) && m.names.contains_key(l));
            } else {
                assert(base.names.contains_key(k) && base.names.contains_key(l));
            }
        }
    }
    assert(b.names.dom().subset_of(base.names.dom().union(m.names.dom())));
    vstd::set_lib::lemma_set_subset_finite(base.names.dom().union(m.names.dom()), b.names.dom());
}

/// A directory that has a name in the base has no new one.
proof fn lemma_new_is_new(base: Disk, e: Disk, m: Disk, p: PlanView, pos: Seq<Pos>, k: Key, l: Key)
    requires
        base.well_formed(),
        e.well_formed(),
        m.well_formed(),
        seated(base, p, home(p)),
        positions_fit(p, home(p)),
        positions_fit(p, pos),
        rearranged(base, e, p, home(p), pos),
        forall|q: Key| #[trigger] e.names.contains_key(q) ==> m.names.contains_key(q) && m.names[q] == e.names[q],
        base.names.contains_key(k),
        m.names.contains_key(l),
        !e.names.contains_key(l),
        m.is_dir(m.names[l]),
    ensures
        base.names[k] != m.names[l],
{
    lemma_still_linked(base, e, p, pos, k);
    let q = choose|q: Key| #[trigger] e.names.contains_key(q) && e.names[q] == base.names[k];
    assert(m.names.contains_key(q) && m.names[q] == base.names[k]);
}

/// What a path leads to is in use.
pub proof fn lemma_resolved_linked(d: Disk, q: PathView)
    requires
        d.well_formed(),
        d.resolve(q) is Some,
    ensures
        linked(d, d.resolve(q)->0),
        d.objects.contains_key(d.resolve(q)->0),
{
    if q.len() > 0 {
        let k = d.key_at(q)->0;
        lemma_lookup(d, d.dir_at(q.drop_last())->0, q.last());
        assert(d.names.contains_key(k) && d.names[k] == d.resolve(q)->0);
    }
    crate::tree::lemma_linked_known(d, d.resolve(q)->0);
}

/// The plan belongs to the transaction also when names have been added in its directory.
pub proof fn lemma_base_grounded(base: Disk, b: Disk, p: PlanView, tx: TxDir)
    requires
        grounded(base, p, tx),
        b.well_formed(),
        base.dir_at(tx.at()) matches Some(own) && grown(base, b, own),
    ensures
        grounded(b, p, tx),
        same_names(base, b),
{
    let own = base.dir_at(tx.at())->0;
    lemma_home_fits(p);
    lemma_same_occupied(base, b, p, home(p));
    lemma_tame(base, b, p);
    crate::atomicity::lemma_untangled_alike(base, b, p);
    lemma_grown_resolves(base, b, own, tx.at());
    lemma_grown_in_place(base, b, own, p, home(p));
    assert forall|t: int| 0 <= t < p.tokens.len() implies b.objects[(#[trigger] p.tokens[t]).id].kind()
        == p.tokens[t].kind && (p.tokens[t].kind == Kind::File || p.tokens[t].kind == Kind::Dir) by {
        let l = p.tokens[t].locs[0];
        assert(token_seated(base, p, t, home(p)[t]));
        lemma_lookup(base, l.parent, l.path.last());
        let k = seat(base, l);
        assert(base.names.contains_key(k) && base.names[k] == p.tokens[t].id);
        assert(linked(base, p.tokens[t].id));
    }
    assert forall|t: int, i: int, j: int|
        #![trigger p.tokens[t].locs[i], p.tokens[t].locs[j]]
        0 <= t < p.tokens.len() && 0 <= i < j < p.tokens[t].locs.len() implies !same_spot(
        b,
        p.tokens[t].locs[i],
        p.tokens[t].locs[j],
    ) by {
        assert(!same_spot(base, p.tokens[t].locs[i], p.tokens[t].locs[j]));
        lemma_same_alike(base, b, p.tokens[t].locs[i].path, p.tokens[t].locs[j].path);
    }
    assert forall|t: int, i: int, l: LocView, k: Key|
        #![trigger location_of(p, t, i, l), stands(b, k, l)]
        location_of(p, t, i, l) && stands(b, k, l) && b.names.contains_key(k) implies occupied(b, p, home(p), k) by {
        assert(stands(base, k, l));
        assert(base.names.contains_key(k));
        assert(occupied(base, p, home(p), k));
    }
    let q = tx.at();
    assert forall|t: int, i: int, l: LocView, j: int|
        #![trigger location_of(p, t, i, l), q[j]]
        location_of(p, t, i, l) && 0 <= j < q.len() && b.dir_at(q.take(j)) == Some(l.parent) implies !alike(
        b,
        l.path.last(),
        q[j],
    ) by {
        crate::tree::lemma_prefix_resolves(base, q, j);
        lemma_grown_resolves(base, b, own, q.take(j));
    }
    assert forall|x: PathView| !private_path(x) implies (#[trigger] b.resolve(x)) == base.resolve(x) && (base.resolve(
        x,
    ) matches Some(id) ==> base.objects[id].kind() == b.objects[id].kind()) by {
        lemma_grown_same_names(base, b, own, tx, x);
    }
}

/// The plan belongs to the transaction also when names differ in directories that nothing
/// leads to.
pub proof fn lemma_kin_grounded(a: Disk, b: Disk, p: PlanView, tx: TxDir, scratch: Set<FileId>)
    requires
        grounded(a, p, tx),
        kin(a, b, scratch),
        secluded(a, scratch),
        outlying(p, scratch),
    ensures
        grounded(b, p, tx),
        same_names(a, b),
        secluded(b, scratch),
        b.file_at(log_path(tx)) == a.file_at(log_path(tx)),
{
    lemma_home_fits(p);
    lemma_same_seats(a, b, p, home(p), scratch);
    lemma_tame(a, b, p);
    crate::atomicity::lemma_untangled_alike(a, b, p);
    assert forall|q: PathView| #[trigger] b.resolve(q) == a.resolve(q) && b.dir_at(q) == a.dir_at(q) by {
        lemma_kin_resolves(a, b, scratch, q);
    }
    assert forall|k: Key| !scratch.contains(k.dir) implies #[trigger] b.names.contains_key(k) == a.names.contains_key(k)
        && (b.names.contains_key(k) ==> b.names[k] == a.names[k]) by {
        let (x, y) = (outside(a.names, scratch), outside(b.names, scratch));
        assert(x.contains_key(k) == a.names.contains_key(k));
        assert(y.contains_key(k) == b.names.contains_key(k));
        if x.contains_key(k) {
            assert(x[k] == a.names[k] && y[k] == b.names[k]);
        }
    }
    assert forall|k: Key| #[trigger] b.names.contains_key(k) && !scratch.contains(k.dir) implies !scratch.contains(
        b.names[k],
    ) by {
        assert(a.names.contains_key(k));
    }
    assert forall|t: int| 0 <= t < p.tokens.len() implies b.objects[(#[trigger] p.tokens[t]).id].kind()
        == p.tokens[t].kind && (p.tokens[t].kind == Kind::File || p.tokens[t].kind == Kind::Dir) by {
        let l = p.tokens[t].locs[0];
        assert(token_seated(a, p, t, home(p)[t]));
        lemma_lookup(a, l.parent, l.path.last());
        assert(a.names.contains_key(seat(a, l)));
        assert(a.objects.contains_key(p.tokens[t].id));
    }
    assert forall|u: int, l: LocView| #![trigger rests_at(p, u, home(p)[u], l)] 0 <= u < home(p).len() && rests_at(
        p,
        u,
        home(p)[u],
        l,
    ) implies in_place(b, l) by {
        assert(in_place(a, l));
        lemma_kin_resolves(a, b, scratch, l.path.drop_last());
    }
    assert forall|t: int, i: int, j: int|
        #![trigger p.tokens[t].locs[i], p.tokens[t].locs[j]]
        0 <= t < p.tokens.len() && 0 <= i < j < p.tokens[t].locs.len() implies !same_spot(
        b,
        p.tokens[t].locs[i],
        p.tokens[t].locs[j],
    ) by {
        assert(!same_spot(a, p.tokens[t].locs[i], p.tokens[t].locs[j]));
        lemma_same_alike(a, b, p.tokens[t].locs[i].path, p.tokens[t].locs[j].path);
    }
    assert forall|t: int, i: int, l: LocView, k: Key|
        #![trigger location_of(p, t, i, l), stands(b, k, l)]
        location_of(p, t, i, l) && stands(b, k, l) && b.names.contains_key(k) implies occupied(b, p, home(p), k) by {
        assert(!scratch.contains(p.tokens[t].locs[i].parent));
        assert(stands(a, k, l));
        assert(a.names.contains_key(k));
        assert(occupied(a, p, home(p), k));
    }
    let q = tx.at();
    assert forall|t: int, i: int, l: LocView, j: int|
        #![trigger location_of(p, t, i, l), q[j]]
        location_of(p, t, i, l) && 0 <= j < q.len() && b.dir_at(q.take(j)) == Some(l.parent) implies !alike(
        b,
        l.path.last(),
        q[j],
    ) by {
        lemma_kin_resolves(a, b, scratch, q.take(j));
    }
    lemma_kin_resolves(a, b, scratch, tx.at());
    assert forall|x: PathView| !private_path(x) implies (#[trigger] b.resolve(x)) == a.resolve(x) && (a.resolve(
        x,
    ) matches Some(id) ==> a.objects[id].kind() == b.objects[id].kind()) by {
        lemma_kin_resolves(a, b, scratch, x);
        if a.resolve(x) is Some {
            lemma_resolved_linked(a, x);
        }
    }
    lemma_kin_resolves(a, b, scratch, log_path(tx));
    if a.resolve(log_path(tx)) is Some {
        let id = a.resolve(log_path(tx))->0;
        lemma_resolved_linked(a, log_path(tx));
        assert(b.objects[id].kind() == a.objects[id].kind());
    }
}

/// Nothing leads into `scratch`, wherever the tokens are.
pub proof fn lemma_moved_secluded(base: Disk, e: Disk, p: PlanView, pos: Seq<Pos>, scratch: Set<FileId>)
    requires
        base.well_formed(),
        e.well_formed(),
        countable(p),
        seated(base, p, home(p)),
        positions_fit(p, pos),
        rearranged(base, e, p, home(p), pos),
        same_volume(base, e),
        secluded(base, scratch),
        outlying(p, scratch),
    ensures
        secluded(e, scratch),
{
    assert forall|k: Key| #[trigger] e.names.contains_key(k) && !scratch.contains(k.dir) implies !scratch.contains(
        e.names[k],
    ) by {
        if occupied(e, p, pos, k) {
            let t = choose|t: int| 0 <= t < p.tokens.len() && #[trigger] occupies(e, p, t, pos[t], k);
            assert(token_seated(e, p, t, pos[t]));
            lemma_seat_held(e, p, t, pos[t], k);
            assert(token_seated(base, p, t, home(p)[t]));
            let l = p.tokens[t].locs[0];
            lemma_lookup(base, l.parent, l.path.last());
            assert(!scratch.contains(p.tokens[t].locs[0].parent));
            assert(base.names.contains_key(seat(base, l)));
        } else {
            assert(base.names.contains_key(k));
        }
    }
}

/// Deciding on the rollback leaves the tokens where they are, over a base that has grown by
/// the decision.
pub proof fn lemma_decided(base: Disk, e: Disk, m: Disk, p: PlanView, tx: TxDir, pos: Seq<Pos>) -> (b: Disk)
    requires
        grounded(base, p, tx),
        scattered(base, e, p, pos),
        m.well_formed(),
        begun(e, m, tx, p),
    ensures
        grounded(b, p, tx),
        same_names(base, b),
        scattered(b, m, p, pos),
        base.file_at(log_path(tx)) is Some ==> b.file_at(log_path(tx)) == base.file_at(log_path(tx)),
{
    let b = base_with(base, e, m);
    let own = base.dir_at(tx.at())->0;
    lemma_home_fits(p);
    lemma_resolves_elsewhere(base, e, p, home(p), pos, tx.at());
    lemma_begun_volume(e, m, tx, p);
    lemma_begun_grows(e, m, tx, p);
    lemma_base_well_formed(base, e, m, p, tx, pos);
    lemma_base_grounded(base, b, p, tx);
    lemma_same_occupied(base, b, p, home(p));
    lemma_same_occupied(e, m, p, pos);
    assert forall|k: Key| #[trigger] occupied(m, p, pos, k) && b.names.contains_key(k) implies occupied(
        b,
        p,
        home(p),
        k,
    ) by {
        assert(occupied(e, p, pos, k));
        let (t, i) = lemma_occupied(e, p, pos, k);
        assert(base.names.contains_key(k));
    }
    assert forall|k: Key| !occupied(m, p, pos, k) implies ((#[trigger] m.names.contains_key(k))
        <==> b.names.contains_key(k) && !occupied(b, p, home(p), k)) && (m.names.contains_key(k) ==> m.names[k]
        == b.names[k]) by {
        assert(!occupied(e, p, pos, k));
        if m.names.contains_key(k) && !e.names.contains_key(k) {
            lemma_own_names(base, e, p, tx, pos, k);
            assert(!occupied(b, p, home(p), k));
        } else if e.names.contains_key(k) {
            assert(base.names.contains_key(k) && !occupied(base, p, home(p), k));
        } else if b.names.contains_key(k) && !occupied(b, p, home(p), k) {
            assert(base.names.contains_key(k));
            assert(!occupied(base, p, home(p), k));
            assert(e.names.contains_key(k));
        }
    }
    lemma_grown_in_place(e, m, own, p, pos);
    if base.file_at(log_path(tx)) is Some {
        lemma_grown_resolves(base, b, own, log_path(tx));
        let id = base.resolve(log_path(tx))->0;
        lemma_resolved_linked(base, log_path(tx));
        assert(b.objects[id].kind() == base.objects[id].kind());
    }
    b
}

/// What is directly inside the transaction's directory is where it was, wherever the tokens are.
pub proof fn lemma_own_place(base: Disk, e: Disk, p: PlanView, tx: TxDir, pos: Seq<Pos>, name: Name)
    requires
        grounded(base, p, tx),
        e.well_formed(),
        same_volume(base, e),
        same_kinds(base, e),
        positions_fit(p, pos),
        rearranged(base, e, p, home(p), pos),
    ensures
        e.resolve(tx.at().push(name)) == base.resolve(tx.at().push(name)),
        e.file_at(tx.at().push(name)) == base.file_at(tx.at().push(name)),
{
    let q = tx.at().push(name);
    let own = base.dir_at(tx.at())->0;
    lemma_home_fits(p);
    assert(off_the_way(base, p, q)) by {
        assert forall|t: int, i: int, l: LocView, j: int|
            #![trigger location_of(p, t, i, l), q[j]]
            location_of(p, t, i, l) && 0 <= j < q.len() && base.dir_at(q.take(j)) == Some(l.parent) implies !alike(
            base,
            l.path.last(),
            q[j],
        ) by {
            if j < tx.at().len() {
                assert(q.take(j) =~= tx.at().take(j));
                assert(q[j] == tx.at()[j]);
            } else {
                assert(q.take(j) =~= tx.at());
            }
        }
    }
    lemma_resolves_elsewhere(base, e, p, home(p), pos, q);
    if base.resolve(q) is Some {
        let id = base.resolve(q)->0;
        lemma_resolved_linked(base, q);
        assert(base.objects[id].kind() == e.objects[id].kind());
    }
}

} // verus!
