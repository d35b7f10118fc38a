//! What moving tokens does to the names of a disk.
use vstd::prelude::*;

use crate::disk::{Disk, FileId, Key};
use crate::plan::{LocView, PlanView, Step};
use crate::positions::{after_undo, positions_fit, undo_action, Pos, UndoAction};
use crate::tree::{agree_at, alike, lemma_lookup};
use crate::vfs::{moved_at, removed_at};

verus! {

/// The stored name that a location finds.
pub open spec fn seat(d: Disk, l: LocView) -> Key {
    d.lookup(l.parent, l.path.last())->0
}

/// The location holds the object `id`.
pub open spec fn holds(d: Disk, l: LocView, id: FileId) -> bool {
    d.lookup(l.parent, l.path.last()) matches Some(k) && d.names[k] == id
}

/// Token `t`, being at `x`, sits at the name `k`.
pub open spec fn occupies(d: Disk, p: PlanView, t: int, x: Pos, k: Key) -> bool {
    match x {
        Pos::At(i) => k == seat(d, p.tokens[t].locs[i as int]),
        Pos::Both(i) => k == seat(d, p.tokens[t].locs[i as int]) || k == seat(d, p.tokens[t].locs[i + 1]),
    }
}

/// Some token sits at the name `k`.
pub open spec fn occupied(d: Disk, p: PlanView, pos: Seq<Pos>, k: Key) -> bool {
    exists|t: int| 0 <= t < p.tokens.len() && #[trigger] occupies(d, p, t, pos[t], k)
}

/// Token `t` really is at `x`.
pub open spec fn token_seated(d: Disk, p: PlanView, t: int, x: Pos) -> bool {
    match x {
        Pos::At(i) => holds(d, p.tokens[t].locs[i as int], p.tokens[t].id),
        Pos::Both(i) => holds(d, p.tokens[t].locs[i as int], p.tokens[t].id) && holds(
            d,
            p.tokens[t].locs[i + 1],
            p.tokens[t].id,
        ),
    }
}

/// Every token really is where `pos` says.
pub open spec fn seated(d: Disk, p: PlanView, pos: Seq<Pos>) -> bool {
    forall|t: int| 0 <= t < p.tokens.len() ==> #[trigger] token_seated(d, p, t, pos[t])
}

/// No two tokens are the same object.
pub open spec fn ids_distinct(p: PlanView) -> bool {
    forall|t: int, u: int|
        #![trigger p.tokens[t], p.tokens[u]]
        0 <= t < p.tokens.len() && 0 <= u < p.tokens.len() && p.tokens[t].id == p.tokens[u].id ==> t == u
}

/// The two locations are one place: names in one directory that mean the same.
pub open spec fn same_place(d: Disk, x: LocView, y: LocView) -> bool {
    x.parent == y.parent && alike(d, x.path.last(), y.path.last())
}

/// Every step leads to another place.
pub open spec fn steps_lead_away(d: Disk, p: PlanView) -> bool {
    forall|t: int, i: int|
        #![trigger p.tokens[t].locs[i]]
        0 <= t < p.tokens.len() && 0 <= i < p.tokens[t].locs.len() - 1 ==> !same_place(
            d,
            p.tokens[t].locs[i],
            p.tokens[t].locs[i + 1],
        )
}

/// The disk `b` is `a` with the tokens at `to` instead of `from`, as far as names go: every
/// token is where `to` says; a name at which a token sits now was free or held a token; and
/// every other name is there exactly if it was and held no token, for the same object.
pub open spec fn rearranged(a: Disk, b: Disk, p: PlanView, from: Seq<Pos>, to: Seq<Pos>) -> bool {
    &&& seated(b, p, to)
    &&& forall|k: Key| #[trigger] occupied(b, p, to, k) && a.names.contains_key(k) ==> occupied(a, p, from, k)
    &&& forall|k: Key|
        !occupied(b, p, to, k) ==> ((#[trigger] b.names.contains_key(k)) <==> a.names.contains_key(k) && !occupied(
            a,
            p,
            from,
            k,
        ))
    &&& forall|k: Key|
        !occupied(b, p, to, k) && (#[trigger] b.names.contains_key(k)) ==> b.names[k] == a.names[k]
}

/// Nothing has been moved yet.
pub proof fn lemma_not_rearranged(a: Disk, p: PlanView, pos: Seq<Pos>)
    requires
        seated(a, p, pos),
        a.well_formed(),
    ensures
        rearranged(a, a, p, pos, pos),
{
}

/// A token sits at names that hold it.
pub proof fn lemma_seat_held(d: Disk, p: PlanView, t: int, x: Pos, k: Key)
    requires
        d.well_formed(),
        token_seated(d, p, t, x),
        occupies(d, p, t, x, k),
    ensures
        d.names.contains_key(k),
        d.names[k] == p.tokens[t].id,
{
    match x {
        Pos::At(i) => {
            let l = p.tokens[t].locs[i as int];
            lemma_lookup(d, l.parent, l.path.last());
        },
        Pos::Both(i) => {
            let l = p.tokens[t].locs[i as int];
            let m = p.tokens[t].locs[i + 1];
            lemma_lookup(d, l.parent, l.path.last());
            lemma_lookup(d, m.parent, m.path.last());
        },
    }
}

/// A location whose name is still there still finds it.
pub proof fn lemma_seat_kept(a: Disk, b: Disk, l: LocView, id: FileId)
    requires
        a.well_formed(),
        b.well_formed(),
        a.folds == b.folds,
        holds(a, l, id),
        b.names.contains_key(seat(a, l)),
        b.names[seat(a, l)] == id,
    ensures
        holds(b, l, id),
        seat(b, l) == seat(a, l),
{
    lemma_lookup(a, l.parent, l.path.last());
    lemma_lookup(b, l.parent, l.path.last());
    assert(alike(b, seat(a, l).name, l.path.last()));
}

/// The tokens other than `t` are not disturbed when the names that hold them stay.
proof fn lemma_others_kept(a: Disk, b: Disk, p: PlanView, t: int, u: int, x: Pos)
    requires
        a.well_formed(),
        b.well_formed(),
        a.folds == b.folds,
        ids_distinct(p),
        0 <= t < p.tokens.len(),
        0 <= u < p.tokens.len(),
        u != t,
        token_seated(a, p, u, x),
        forall|k: Key| #[trigger]
            a.names.contains_key(k) && a.names[k] != p.tokens[t].id ==> b.names.contains_key(k) && b.names[k]
                == a.names[k],
    ensures
        token_seated(b, p, u, x),
        forall|k: Key| occupies(b, p, u, x, k) == occupies(a, p, u, x, k),
{
    assert(p.tokens[u].id != p.tokens[t].id) by {
        assert(p.tokens[t] == p.tokens[t] && p.tokens[u] == p.tokens[u]);
    }
    match x {
        Pos::At(i) => {
            let l = p.tokens[u].locs[i as int];
            lemma_lookup(a, l.parent, l.path.last());
            lemma_seat_kept(a, b, l, p.tokens[u].id);
        },
        Pos::Both(i) => {
            let l = p.tokens[u].locs[i as int];
            let m = p.tokens[u].locs[i + 1];
            lemma_lookup(a, l.parent, l.path.last());
            lemma_seat_kept(a, b, l, p.tokens[u].id);
            lemma_lookup(a, m.parent, m.path.last());
            lemma_seat_kept(a, b, m, p.tokens[u].id);
        },
    }
}

/// One step of undoing on the disk: `b` is `a` after the token of step `s` has been moved
/// back, or its second name removed, or neither, as its position asks.
pub open spec fn undo_on_disk(a: Disk, b: Disk, p: PlanView, s: Step, x: Pos) -> bool {
    let src = p.src(s);
    let dst = p.dst(s);
    match undo_action(x, s.from as int) {
        UndoAction::MoveBack => moved_at(a, b, dst.path, Some(dst.parent), src.path, Some(src.parent)),
        UndoAction::RemoveName => removed_at(a, b, dst.path, Some(dst.parent)),
        _ => b == a,
    }
}

/// A token that changes its names for others that were free or its own disturbs nothing else.
pub proof fn lemma_token_moved(
    d0: Disk,
    a: Disk,
    b: Disk,
    p: PlanView,
    from: Seq<Pos>,
    to: Seq<Pos>,
    t: int,
    y: Pos,
)
    requires
        a.well_formed(),
        b.well_formed(),
        a.folds == b.folds,
        ids_distinct(p),
        positions_fit(p, to),
        0 <= t < p.tokens.len(),
        rearranged(d0, a, p, from, to),
        token_seated(b, p, t, y),
        forall|q: Key|
            !occupies(a, p, t, to[t], q) && !#[trigger] occupies(b, p, t, y, q) ==> agree_at(a.names, b.names, q),
        forall|q: Key| #[trigger]
            occupies(a, p, t, to[t], q) && !occupies(b, p, t, y, q) ==> !b.names.contains_key(q),
        forall|q: Key| #[trigger] occupies(b, p, t, y, q) ==> occupies(a, p, t, to[t], q) || !a.names.contains_key(q),
    ensures
        rearranged(d0, b, p, from, to.update(t, y)),
{
    let x = to[t];
    let next = to.update(t, y);
    let id = p.tokens[t].id;
    assert(token_seated(a, p, t, x));
    assert forall|q: Key| #[trigger] a.names.contains_key(q) && a.names[q] != id implies b.names.contains_key(q)
        && b.names[q] == a.names[q] by {
        if occupies(a, p, t, x, q) {
            lemma_seat_held(a, p, t, x, q);
        }
        assert(!occupies(b, p, t, y, q));
        assert(agree_at(a.names, b.names, q));
    }
    assert forall|u: int| 0 <= u < p.tokens.len() && u != t implies #[trigger] token_seated(b, p, u, next[u])
        && forall|q: Key| occupies(b, p, u, next[u], q) == occupies(a, p, u, to[u], q) by {
        assert(token_seated(a, p, u, to[u]));
        lemma_others_kept(a, b, p, t, u, to[u]);
    }
    assert(seated(b, p, next));
    assert forall|q: Key| occupied(b, p, next, q) implies occupies(b, p, t, y, q) || occupied(a, p, to, q) by {
        let u = choose|u: int| 0 <= u < p.tokens.len() && #[trigger] occupies(b, p, u, next[u], q);
        if u != t {
            assert(token_seated(b, p, u, next[u]));
            assert(occupies(a, p, u, to[u], q));
        }
    }
    assert forall|q: Key| occupied(a, p, to, q) && !(occupies(a, p, t, x, q) && !occupies(b, p, t, y, q)) implies occupied(
        b,
        p,
        next,
        q,
    ) by {
        let u = choose|u: int| 0 <= u < p.tokens.len() && #[trigger] occupies(a, p, u, to[u], q);
        if u != t {
            assert(token_seated(b, p, u, next[u]));
            assert(occupies(b, p, u, next[u], q));
        } else {
            assert(occupies(b, p, t, next[t], q));
        }
    }
    assert forall|q: Key| #[trigger] occupied(b, p, next, q) && d0.names.contains_key(q) implies occupied(
        d0,
        p,
        from,
        q,
    ) by {
        if !occupied(a, p, to, q) {
            assert(occupies(b, p, t, y, q));
            if occupies(a, p, t, to[t], q) {
                assert(occupied(a, p, to, q));
            }
            assert(!a.names.contains_key(q));
        }
    }
    assert forall|q: Key| !occupied(b, p, next, q) implies ((#[trigger] b.names.contains_key(q))
        <==> d0.names.contains_key(q) && !occupied(d0, p, from, q)) && (b.names.contains_key(q) ==> b.names[q]
        == d0.names[q]) by {
        assert(!occupies(b, p, t, next[t], q));
        if occupies(a, p, t, x, q) {
            assert(occupied(a, p, to, q));
        } else {
            assert(!occupied(a, p, to, q));
            assert(agree_at(a.names, b.names, q));
            assert(a.names.contains_key(q) == b.names.contains_key(q));
        }
    }
}

/// Undoing a step moves its token back and disturbs nothing else.
pub proof fn lemma_undo_step(d0: Disk, a: Disk, b: Disk, p: PlanView, from: Seq<Pos>, to: Seq<Pos>, s: Step)
    requires
        a.well_formed(),
        b.well_formed(),
        a.steady,
        ids_distinct(p),
        steps_lead_away(a, p),
        p.names_move(s),
        positions_fit(p, to),
        rearranged(d0, a, p, from, to),
        undo_action(to[s.token as int], s.from as int) != UndoAction::Impossible,
        undo_on_disk(a, b, p, s, to[s.token as int]),
    ensures
        rearranged(d0, b, p, from, to.update(s.token as int, after_undo(to[s.token as int], s.from))),
{
    let t = s.token as int;
    let x = to[t];
    let y = after_undo(x, s.from);
    let next = to.update(t, y);
    let src = p.src(s);
    let dst = p.dst(s);
    let id = p.tokens[t].id;
    assert(token_seated(a, p, t, x));
    match undo_action(x, s.from as int) {
        UndoAction::Nothing => {
            assert(next =~= to);
        },
        UndoAction::MoveBack => {
            let k = seat(a, dst);
            let l = Key { dir: src.parent, name: src.path.last() };
            lemma_lookup(a, dst.parent, dst.path.last());
            lemma_lookup(a, src.parent, src.path.last());
            assert(a.key_at(dst.path) == Some(k)) by {
                let found = a.key_at(dst.path)->0;
                lemma_lookup(a, a.dir_at(dst.path.drop_last())->0, dst.path.last());
                assert(found.dir == dst.parent);
            }
            assert(b.names =~= a.names.remove(k).insert(l, id));
            assert(!a.names.contains_key(l));
            lemma_lookup(b, src.parent, src.path.last());
            assert(b.names.contains_key(l));
            assert(alike(b, l.name, src.path.last()));
            assert(seat(b, src) == l);
            lemma_token_moved(d0, a, b, p, from, to, t, y);
        },
        UndoAction::RemoveName => {
            let k = seat(a, dst);
            lemma_lookup(a, dst.parent, dst.path.last());
            lemma_lookup(a, src.parent, src.path.last());
            assert(a.key_at(dst.path) == Some(k)) by {
                let found = a.key_at(dst.path)->0;
                lemma_lookup(a, a.dir_at(dst.path.drop_last())->0, dst.path.last());
                assert(found.dir == dst.parent);
            }
            assert(seat(a, src).dir == src.parent);
            assert(k.dir == dst.parent);
            assert(!same_place(a, p.tokens[t].locs[s.from as int], p.tokens[t].locs[s.from + 1]));
            lemma_seat_kept(a, b, src, id);
            lemma_token_moved(d0, a, b, p, from, to, t, y);
        },
        UndoAction::Impossible => {},
    }
}

/// Where tokens are depends on the names alone.
pub proof fn lemma_rearranged_by_names(a: Disk, b: Disk, c: Disk, p: PlanView, from: Seq<Pos>, to: Seq<Pos>)
    requires
        rearranged(a, b, p, from, to),
        b.names == c.names,
        b.folds == c.folds,
    ensures
        rearranged(a, c, p, from, to),
{
    assert forall|t: int, x: Pos, k: Key| #[trigger] occupies(c, p, t, x, k) == occupies(b, p, t, x, k) by {}
    assert forall|k: Key| occupied(c, p, to, k) == occupied(b, p, to, k) by {
        if occupied(c, p, to, k) {
            let t = choose|t: int| 0 <= t < p.tokens.len() && #[trigger] occupies(c, p, t, to[t], k);
            assert(occupies(b, p, t, to[t], k));
        }
        if occupied(b, p, to, k) {
            let t = choose|t: int| 0 <= t < p.tokens.len() && #[trigger] occupies(b, p, t, to[t], k);
            assert(occupies(c, p, t, to[t], k));
        }
    }
    assert forall|t: int| 0 <= t < p.tokens.len() implies #[trigger] token_seated(c, p, t, to[t]) by {
        assert(token_seated(b, p, t, to[t]));
    }
    assert forall|k: Key| #[trigger] occupied(c, p, to, k) && a.names.contains_key(k) implies occupied(a, p, from, k) by {
        assert(occupied(b, p, to, k));
    }
    assert forall|k: Key| !occupied(c, p, to, k) implies ((#[trigger] c.names.contains_key(k))
        <==> a.names.contains_key(k) && !occupied(a, p, from, k)) by {
        assert(!occupied(b, p, to, k));
        assert(b.names.contains_key(k) == c.names.contains_key(k));
    }
    assert forall|k: Key| !occupied(c, p, to, k) && (#[trigger] c.names.contains_key(k)) implies c.names[k]
        == a.names[k] by {
        assert(!occupied(b, p, to, k));
        assert(b.names.contains_key(k));
    }
}

/// Tokens stay where they are when names are added.
pub proof fn lemma_seated_after_additions(a: Disk, b: Disk, p: PlanView, pos: Seq<Pos>)
    requires
        a.well_formed(),
        b.well_formed(),
        a.folds == b.folds,
        seated(a, p, pos),
        forall|k: Key| #[trigger] a.names.contains_key(k) ==> b.names.contains_key(k) && b.names[k] == a.names[k],
    ensures
        seated(b, p, pos),
{
    assert forall|t: int| 0 <= t < p.tokens.len() implies #[trigger] token_seated(b, p, t, pos[t]) by {
        assert(token_seated(a, p, t, pos[t]));
        match pos[t] {
            Pos::At(i) => {
                let l = p.tokens[t].locs[i as int];
                lemma_lookup(a, l.parent, l.path.last());
                lemma_seat_kept(a, b, l, p.tokens[t].id);
            },
            Pos::Both(i) => {
                let l = p.tokens[t].locs[i as int];
                let m = p.tokens[t].locs[i + 1];
                lemma_lookup(a, l.parent, l.path.last());
                lemma_seat_kept(a, b, l, p.tokens[t].id);
                lemma_lookup(a, m.parent, m.path.last());
                lemma_seat_kept(a, b, m, p.tokens[t].id);
            },
        }
    }
}

} // verus!
