//! A wave of steps, forward or back, that a power loss may cut into: whichever of its changes
//! come out, every token is where its own step leaves it or where it was.
use vstd::prelude::*;

use crate::bytes::Name;
use crate::crash::{may_come_out, possible, survivors};
use crate::disk::{outcome, Change, Disk, Fate, FileId, Key};
use crate::durability::{
    all_apply, avoids, consistent, firm, left_with, lemma_firm_survives, lemma_moved_consistent, lemma_survivors_from,
    lemma_synced_firm, lemma_untouched, outside, settled_part, sturdy,
};
use crate::moves::{
    ids_distinct, lemma_not_rearranged, lemma_token_moved, occupied, occupies, rearranged, same_place, seat, seated,
    steps_lead_away, token_seated,
};
use crate::path::PathView;
use crate::plan::{LocView, PlanView, Step};
use crate::positions::{pos_fits, positions_fit, Pos};
use crate::recover::{parent_covered, synced_all};
use crate::tree::{agree_at, alike, alike_paths, goes_through};
use crate::tree::{
    lemma_child_off_path, lemma_frame_move, lemma_frame_remove, lemma_lookup, lemma_lookup_agrees,
    lemma_prefix_resolves, lemma_unique_path,
};
use crate::vfs::{moved_at, removed_at, same_volume};

verus! {

/// What is done about one step.
pub enum Turn {
    /// The token moves forward.
    Forward(Step),
    /// The token moves back.
    Back(Step),
    /// The second name, at the step's end, is removed.
    Unlink(Step),
    /// Nothing.
    Rest,
}

impl Turn {
    /// The step that it is about.
    pub open spec fn step(self) -> Step {
        match self {
            Turn::Forward(s) => s,
            Turn::Back(s) => s,
            Turn::Unlink(s) => s,
            Turn::Rest => arbitrary(),
        }
    }

    /// Where the token is before.
    pub open spec fn was(self) -> Pos {
        match self {
            Turn::Forward(s) => Pos::At(s.from),
            Turn::Back(s) => Pos::At((s.from + 1) as usize),
            Turn::Unlink(s) => Pos::Both(s.from),
            Turn::Rest => arbitrary(),
        }
    }

    /// Where the token is when the change has come out like this.
    pub open spec fn leaves(self, f: Fate) -> Pos {
        match f {
            Fate::Drop => self.was(),
            Fate::Apply => match self {
                Turn::Forward(s) => Pos::At((s.from + 1) as usize),
                Turn::Back(s) => Pos::At(s.from),
                Turn::Unlink(s) => Pos::At(s.from),
                Turn::Rest => arbitrary(),
            },
            Fate::BothNames => Pos::Both(self.step().from),
        }
    }

    /// A place that it concerns.
    pub open spec fn concerns(self, p: PlanView, l: LocView) -> bool {
        match self {
            Turn::Forward(s) => l == p.src(s) || l == p.dst(s),
            Turn::Back(s) => l == p.src(s) || l == p.dst(s),
            Turn::Unlink(s) => l == p.src(s) || l == p.dst(s),
            Turn::Rest => false,
        }
    }

    /// It has been done.
    pub open spec fn done(self, a: Disk, b: Disk, p: PlanView) -> bool {
        match self {
            Turn::Forward(s) => moved_at(
                a,
                b,
                p.src(s).path,
                Some(p.src(s).parent),
                p.dst(s).path,
                Some(p.dst(s).parent),
            ),
            Turn::Back(s) => moved_at(
                a,
                b,
                p.dst(s).path,
                Some(p.dst(s).parent),
                p.src(s).path,
                Some(p.src(s).parent),
            ),
            Turn::Unlink(s) => removed_at(a, b, p.dst(s).path, Some(p.dst(s).parent)) && in_place(a, p.src(s)),
            Turn::Rest => b == a,
        }
    }

    /// Neither end of its step is on the way to the other.
    pub open spec fn leads_out(self, d: Disk, p: PlanView) -> bool {
        self is Rest || !entangled(d, p.src(self.step()).path, p.dst(self.step()).path)
    }
}

/// The parent of the location is the recorded directory.
pub open spec fn in_place(d: Disk, l: LocView) -> bool {
    l.path.len() > 0 && d.dir_at(l.path.drop_last()) == Some(l.parent)
}

/// One of the two paths leads through the other, on this filesystem.
pub open spec fn entangled(d: Disk, a: PathView, b: PathView) -> bool {
    goes_through(d, a, b) || goes_through(d, b, a)
}

/// The turns concern places that are not entangled, and different tokens; each token is where
/// its turn finds it, and no step leads into itself.
pub open spec fn side_by_side(d: Disk, p: PlanView, turns: Seq<Turn>, pos: Seq<Pos>) -> bool {
    &&& forall|i: int|
        #![trigger turns[i]]
        0 <= i < turns.len() && !(turns[i] is Rest) ==> p.names_move(turns[i].step()) && turns[i].step().from
            < usize::MAX && pos[turns[i].step().token as int] == turns[i].was() && turns[i].leads_out(d, p)
    &&& forall|i: int, j: int|
        #![trigger turns[i], turns[j]]
        0 <= i < j < turns.len() && !(turns[i] is Rest) && !(turns[j] is Rest) ==> turns[i].step().token
            != turns[j].step().token
    &&& forall|i: int, j: int, l: LocView, m: LocView|
        #![trigger turns[i].concerns(p, l), turns[j].concerns(p, m)]
        0 <= i < j < turns.len() && turns[i].concerns(p, l) && turns[j].concerns(p, m) ==> !entangled(
            d,
            l.path,
            m.path,
        )
}

/// The disk went through these states, one turn after the other.
pub open spec fn taken_in_turn(disks: Seq<Disk>, p: PlanView, turns: Seq<Turn>) -> bool {
    &&& disks.len() == turns.len() + 1
    &&& forall|i: int| 0 <= i < turns.len() ==> (#[trigger] turns[i]).done(disks[i], disks[i + 1], p)
}

/// The name stands at the location.
pub open spec fn stands(d: Disk, k: Key, l: LocView) -> bool {
    k.dir == l.parent && alike(d, k.name, l.path.last())
}

/// The name stands at a place that one of the first `n` turns concerns.
pub open spec fn affected(d: Disk, p: PlanView, turns: Seq<Turn>, n: int, k: Key) -> bool {
    exists|i: int, l: LocView| 0 <= i < n && #[trigger] turns[i].concerns(p, l) && stands(d, k, l)
}

/// Names outside the directories `scratch` do not lead into them.
pub open spec fn secluded(d: Disk, scratch: Set<FileId>) -> bool {
    &&& !scratch.contains(d.root)
    &&& forall|k: Key| #[trigger]
        d.names.contains_key(k) && !scratch.contains(k.dir) ==> !scratch.contains(d.names[k])
}

/// No location is directly inside one of the directories `scratch`.
pub open spec fn outlying(p: PlanView, scratch: Set<FileId>) -> bool {
    forall|t: int, i: int|
        #![trigger p.tokens[t].locs[i]]
        0 <= t < p.tokens.len() && 0 <= i < p.tokens[t].locs.len() ==> !scratch.contains(p.tokens[t].locs[i].parent)
}

/// No path leads into secluded directories.
pub proof fn lemma_secluded(d: Disk, scratch: Set<FileId>, q: PathView)
    requires
        d.well_formed(),
        secluded(d, scratch),
        d.resolve(q) is Some,
    ensures
        !scratch.contains(d.resolve(q)->0),
    decreases q.len(),
{
    if q.len() > 0 {
        let up = q.drop_last();
        lemma_secluded(d, scratch, up);
        let dir = d.resolve(up)->0;
        lemma_lookup(d, dir, q.last());
        let k = d.lookup(dir, q.last())->0;
        assert(d.names.contains_key(k));
    }
}

/// The places that turns concern are outside `scratch`.
proof fn lemma_turns_outside(d: Disk, p: PlanView, turns: Seq<Turn>, pos: Seq<Pos>, scratch: Set<FileId>, i: int, l: LocView)
    requires
        side_by_side(d, p, turns, pos),
        outlying(p, scratch),
        0 <= i < turns.len(),
        turns[i].concerns(p, l),
    ensures
        !scratch.contains(l.parent),
{
    let s = turns[i].step();
    assert(p.names_move(s));
    let t = s.token as int;
    assert(!scratch.contains(p.tokens[t].locs[s.from as int].parent));
    assert(!scratch.contains(p.tokens[t].locs[s.from + 1].parent));
}

/// Moving a name keeps a disk well-formed.
pub proof fn lemma_moved_well_formed(
    a: Disk,
    b: Disk,
    from: PathView,
    fp: Option<FileId>,
    to: PathView,
    tp: Option<FileId>,
)
    requires
        a.well_formed(),
        moved_at(a, b, from, fp, to, tp),
    ensures
        b.well_formed(),
{
    let k = a.key_at(from)->0;
    lemma_lookup(a, a.dir_at(from.drop_last())->0, from.last());
    let dir = a.dir_at(to.drop_last())->0;
    let l = Key { dir, name: to.last() };
    lemma_lookup(a, dir, to.last());
    lemma_rename_well_formed(a, b, k, l);
}

/// Giving an object a free name, with or without taking another away, keeps a disk well-formed.
proof fn lemma_rename_well_formed(a: Disk, b: Disk, k: Key, l: Key)
    requires
        a.well_formed(),
        a.names.contains_key(k),
        a.is_dir(l.dir),
        forall|q: Key| #[trigger] a.names.contains_key(q) && q.dir == l.dir ==> !alike(a, q.name, l.name),
        b.objects == a.objects,
        same_volume(a, b),
        b.names == a.names.remove(k).insert(l, a.names[k]) || (!a.is_dir(a.names[k]) && b.names == a.names.insert(
            l,
            a.names[k],
        )),
    ensures
        b.well_formed(),
{
    let id = a.names[k];
    assert forall|q: Key| #[trigger] b.names.contains_key(q) implies b.is_dir(q.dir) && b.objects.contains_key(
        b.names[q],
    ) && b.names[q] != b.root by {
        assert(a.names.contains_key(k));
        if q != l {
            assert(a.names.contains_key(q));
        }
    }
    assert forall|q: Key, r: Key|
        #![trigger b.names.contains_key(q), b.names.contains_key(r)]
        b.names.contains_key(q) && b.names.contains_key(r) && b.names[q] == b.names[r] && b.is_dir(
            b.names[q],
        ) implies q == r by {
        assert(q == l || a.names.contains_key(q));
        assert(r == l || a.names.contains_key(r));
        assert(a.names.contains_key(k));
    }
    if b.folds {
        assert forall|q: Key, r: Key|
            #![trigger b.names.contains_key(q), b.names.contains_key(r)]
            b.names.contains_key(q) && b.names.contains_key(r) && q.dir == r.dir && crate::bytes::folded(q.name)
                == crate::bytes::folded(r.name) implies q == r by {
            assert(q == l || a.names.contains_key(q));
            assert(r == l || a.names.contains_key(r));
            assert(q != l && r == l ==> !alike(a, q.name, l.name));
            assert(q == l && r != l ==> !alike(a, r.name, l.name));
        }
    }
    assert(b.names.dom() =~= a.names.dom().remove(k).insert(l) || b.names.dom() =~= a.names.dom().insert(l));
}

/// Removing a name keeps a disk well-formed.
proof fn lemma_unlink_well_formed(a: Disk, b: Disk, k: Key)
    requires
        a.well_formed(),
        b.objects == a.objects,
        same_volume(a, b),
        b.names == a.names.remove(k),
    ensures
        b.well_formed(),
{
    assert forall|q: Key| #[trigger] b.names.contains_key(q) implies a.names.contains_key(q) by {}
    assert(b.names.dom() =~= a.names.dom().remove(k));
}

/// One turn: what it changes, and what it leaves.
proof fn lemma_turn(a: Disk, b: Disk, p: PlanView, x: Turn)
    requires
        a.well_formed(),
        a.steady,
        consistent(a),
        x.done(a, b, p),
    ensures
        b.well_formed(),
        b.steady,
        consistent(b),
        same_volume(a, b),
        b.objects == a.objects,
        b.saved == a.saved,
        b.dirty == a.dirty,
        b.durable == a.durable,
        x is Rest ==> b.pending == a.pending,
        !(x is Rest) ==> b.pending.len() == a.pending.len() + 1 && b.pending.drop_last() == a.pending,
{
    match x {
        Turn::Forward(s) => {
            let (src, dst) = (p.src(s), p.dst(s));
            lemma_moved_well_formed(a, b, src.path, Some(src.parent), dst.path, Some(dst.parent));
            let k = a.key_at(src.path)->0;
            lemma_lookup(a, a.dir_at(src.path.drop_last())->0, src.path.last());
            lemma_moved_consistent(a, k, Key { dir: a.dir_at(dst.path.drop_last())->0, name: dst.path.last() });
            assert(b.pending.drop_last() =~= a.pending);
        },
        Turn::Back(s) => {
            let (src, dst) = (p.dst(s), p.src(s));
            lemma_moved_well_formed(a, b, src.path, Some(src.parent), dst.path, Some(dst.parent));
            let k = a.key_at(src.path)->0;
            lemma_lookup(a, a.dir_at(src.path.drop_last())->0, src.path.last());
            lemma_moved_consistent(a, k, Key { dir: a.dir_at(dst.path.drop_last())->0, name: dst.path.last() });
            assert(b.pending.drop_last() =~= a.pending);
        },
        Turn::Unlink(s) => {
            let at = p.dst(s);
            let k = a.key_at(at.path)->0;
            lemma_lookup(a, a.dir_at(at.path.drop_last())->0, at.path.last());
            lemma_unlink_well_formed(a, b, k);
            assert(b.pending.drop_last() =~= a.pending);
            assert(all_apply(b.pending.len()).drop_last() =~= all_apply(a.pending.len()));
        },
        Turn::Rest => {},
    }
}

/// What holds after the first `n` turns.
pub proof fn lemma_chain(disks: Seq<Disk>, p: PlanView, turns: Seq<Turn>, n: int)
    requires
        taken_in_turn(disks, p, turns),
        disks[0].well_formed(),
        disks[0].steady,
        consistent(disks[0]),
        0 <= n <= turns.len(),
    ensures
        disks[n].well_formed(),
        disks[n].steady,
        consistent(disks[n]),
        same_volume(disks[0], disks[n]),
        disks[n].objects == disks[0].objects,
        disks[n].saved == disks[0].saved,
        disks[n].dirty == disks[0].dirty,
        disks[n].durable == disks[0].durable,
        disks[0].pending.len() <= disks[n].pending.len(),
        disks[n].pending.take(disks[0].pending.len() as int) == disks[0].pending,
    decreases n,
{
    let len = disks[0].pending.len() as int;
    if n > 0 {
        let (a, b) = (disks[n - 1], disks[n]);
        lemma_chain(disks, p, turns, n - 1);
        assert(turns[n - 1].done(a, disks[(n - 1) + 1], p));
        lemma_turn(a, b, p, turns[n - 1]);
        if !(turns[n - 1] is Rest) {
            assert(b.pending.take(len) =~= b.pending.drop_last().take(len));
        }
    } else {
        assert(disks[0].pending.take(len) =~= disks[0].pending);
    }
}

/// Directories that nothing led into stay so.
pub proof fn lemma_chain_secluded(
    disks: Seq<Disk>,
    p: PlanView,
    turns: Seq<Turn>,
    pos: Seq<Pos>,
    scratch: Set<FileId>,
    n: int,
)
    requires
        taken_in_turn(disks, p, turns),
        disks[0].well_formed(),
        disks[0].steady,
        consistent(disks[0]),
        side_by_side(disks[0], p, turns, pos),
        outlying(p, scratch),
        secluded(disks[0], scratch),
        0 <= n <= turns.len(),
    ensures
        secluded(disks[n], scratch),
    decreases n,
{
    if n > 0 {
        let (a, b) = (disks[n - 1], disks[n]);
        let x = turns[n - 1];
        lemma_chain_secluded(disks, p, turns, pos, scratch, n - 1);
        lemma_chain(disks, p, turns, n - 1);
        assert(x.done(a, disks[(n - 1) + 1], p));
        let s = x.step();
        match x {
            Turn::Forward(_) => {
                assert(x.concerns(p, p.src(s)) && x.concerns(p, p.dst(s)));
                lemma_turns_outside(disks[0], p, turns, pos, scratch, n - 1, p.src(s));
                lemma_lookup(a, a.dir_at(p.src(s).path.drop_last())->0, p.src(s).path.last());
                assert(a.names.contains_key(a.key_at(p.src(s).path)->0));
            },
            Turn::Back(_) => {
                assert(x.concerns(p, p.src(s)) && x.concerns(p, p.dst(s)));
                lemma_turns_outside(disks[0], p, turns, pos, scratch, n - 1, p.dst(s));
                lemma_lookup(a, a.dir_at(p.dst(s).path.drop_last())->0, p.dst(s).path.last());
                assert(a.names.contains_key(a.key_at(p.dst(s).path)->0));
            },
            Turn::Unlink(_) => {},
            Turn::Rest => {},
        }
        assert forall|k: Key| #[trigger] b.names.contains_key(k) && !scratch.contains(k.dir) implies !scratch.contains(
            b.names[k],
        ) by {
            if a.names.contains_key(k) {
                assert(!scratch.contains(a.names[k]));
            }
        }
    }
}

/// The way to one end of a turn does not lead through either.
proof fn lemma_ends_untangled(a: Disk, p: PlanView, x: Turn, l: LocView, m: LocView)
    requires
        x.leads_out(a, p),
        x.concerns(p, l),
        x.concerns(p, m),
        l.path.len() > 0,
    ensures
        !goes_through(a, l.path.drop_last(), m.path),
{
    let q = l.path.drop_last();
    assert(l.path =~= q.push(l.path.last()));
    lemma_child_off_path(a, q, l.path.last());
    if goes_through(a, q, m.path) {
        let j = choose|j: int| 0 < j <= q.len() && alike_paths(a, m.path, #[trigger] q.take(j));
        assert(q.take(j) =~= l.path.take(j));
        assert(goes_through(a, l.path, m.path));
    }
}

/// The places that a turn concerns have their parents in place before it and after it.
proof fn lemma_parents_around(a: Disk, b: Disk, p: PlanView, x: Turn, l: LocView)
    requires
        a.well_formed(),
        b.well_formed(),
        a.steady,
        x.done(a, b, p),
        x.leads_out(a, p),
        x.concerns(p, l),
    ensures
        in_place(a, l),
        in_place(b, l),
{
    let s = x.step();
    let (src, dst) = (p.src(s), p.dst(s));
    let q = l.path.drop_last();
    match x {
        Turn::Forward(_) => {
            lemma_lookup(a, a.dir_at(src.path.drop_last())->0, src.path.last());
            lemma_ends_untangled(a, p, x, l, src);
            lemma_ends_untangled(a, p, x, l, dst);
            lemma_frame_move(a, b, src.path, Some(src.parent), dst.path, Some(dst.parent), q);
        },
        Turn::Back(_) => {
            lemma_lookup(a, a.dir_at(dst.path.drop_last())->0, dst.path.last());
            lemma_ends_untangled(a, p, x, l, src);
            lemma_ends_untangled(a, p, x, l, dst);
            lemma_frame_move(a, b, dst.path, Some(dst.parent), src.path, Some(src.parent), q);
        },
        Turn::Unlink(_) => {
            lemma_lookup(a, a.dir_at(dst.path.drop_last())->0, dst.path.last());
            lemma_ends_untangled(a, p, x, l, dst);
            lemma_frame_remove(a, b, dst.path, Some(dst.parent), q);
        },
        Turn::Rest => {},
    }
}

/// A path that is not entangled with the places of a turn leads through its parent as before.
proof fn lemma_parents_beside(a: Disk, b: Disk, p: PlanView, x: Turn, l: PathView)
    requires
        a.well_formed(),
        b.well_formed(),
        x.done(a, b, p),
        l.len() > 0,
        forall|m: LocView| #[trigger] x.concerns(p, m) ==> !goes_through(a, l, m.path),
    ensures
        b.dir_at(l.drop_last()) == a.dir_at(l.drop_last()),
{
    let q = l.drop_last();
    assert forall|m: LocView| #[trigger] x.concerns(p, m) implies !goes_through(a, q, m.path) by {
        if goes_through(a, q, m.path) {
            let j = choose|j: int| 0 < j <= q.len() && alike_paths(a, m.path, #[trigger] q.take(j));
            assert(q.take(j) =~= l.take(j));
            assert(goes_through(a, l, m.path));
        }
    }
    match x {
        Turn::Forward(s) => {
            assert(x.concerns(p, p.src(s)) && x.concerns(p, p.dst(s)));
            lemma_frame_move(a, b, p.src(s).path, Some(p.src(s).parent), p.dst(s).path, Some(p.dst(s).parent), q);
        },
        Turn::Back(s) => {
            assert(x.concerns(p, p.src(s)) && x.concerns(p, p.dst(s)));
            lemma_frame_move(a, b, p.dst(s).path, Some(p.dst(s).parent), p.src(s).path, Some(p.src(s).parent), q);
        },
        Turn::Unlink(s) => {
            assert(x.concerns(p, p.dst(s)));
            lemma_frame_remove(a, b, p.dst(s).path, Some(p.dst(s).parent), q);
        },
        Turn::Rest => {},
    }
}

/// Paths lead through the same places on all states of one filesystem.
pub proof fn lemma_same_entanglement(a: Disk, b: Disk, q: PathView, f: PathView)
    requires
        a.folds == b.folds,
    ensures
        goes_through(a, q, f) == goes_through(b, q, f),
{
    assert forall|j: int| 0 < j <= q.len() implies #[trigger] alike_paths(a, f, q.take(j)) == alike_paths(b, f, q.take(j)) by {
        if alike_paths(a, f, q.take(j)) {
            assert forall|i: int| 0 <= i < f.len() implies alike(b, #[trigger] f[i], q.take(j)[i]) by {
                assert(alike(a, f[i], q.take(j)[i]));
            }
        }
        if alike_paths(b, f, q.take(j)) {
            assert forall|i: int| 0 <= i < f.len() implies alike(a, #[trigger] f[i], q.take(j)[i]) by {
                assert(alike(b, f[i], q.take(j)[i]));
            }
        }
    }
    if goes_through(a, q, f) {
        let j = choose|j: int| 0 < j <= q.len() && alike_paths(a, f, #[trigger] q.take(j));
        assert(alike_paths(a, f, q.take(j)) == alike_paths(b, f, q.take(j)));
    }
    if goes_through(b, q, f) {
        let j = choose|j: int| 0 < j <= q.len() && alike_paths(b, f, #[trigger] q.take(j));
        assert(alike_paths(a, f, q.take(j)) == alike_paths(b, f, q.take(j)));
    }
}

/// A turn's places have their parents in place from before it to the end of the wave.
pub proof fn lemma_parents_stay(
    disks: Seq<Disk>,
    p: PlanView,
    turns: Seq<Turn>,
    pos: Seq<Pos>,
    i: int,
    l: LocView,
    n: int,
)
    requires
        taken_in_turn(disks, p, turns),
        disks[0].well_formed(),
        disks[0].steady,
        consistent(disks[0]),
        side_by_side(disks[0], p, turns, pos),
        0 <= i <= n <= turns.len(),
        i < turns.len(),
        turns[i].concerns(p, l),
    ensures
        in_place(disks[n], l),
    decreases n,
{
    let d = disks[0];
    lemma_chain(disks, p, turns, i);
    lemma_chain(disks, p, turns, i + 1);
    assert(turns[i].done(disks[i], disks[i + 1], p));
    assert(turns[i].leads_out(disks[i], p)) by {
        assert(turns[i].leads_out(d, p));
        let s = turns[i].step();
        lemma_same_entanglement(d, disks[i], p.dst(s).path, p.src(s).path);
        lemma_same_entanglement(d, disks[i], p.src(s).path, p.dst(s).path);
    }
    lemma_parents_around(disks[i], disks[i + 1], p, turns[i], l);
    if n > i + 1 {
        lemma_parents_stay(disks, p, turns, pos, i, l, n - 1);
        lemma_chain(disks, p, turns, n - 1);
        lemma_chain(disks, p, turns, n);
        assert(turns[n - 1].done(disks[n - 1], disks[(n - 1) + 1], p));
        assert forall|m: LocView| #[trigger] turns[n - 1].concerns(p, m) implies !goes_through(
            disks[n - 1],
            l.path,
            m.path,
        ) by {
            assert(turns[i].concerns(p, l) && turns[n - 1].concerns(p, m));
            assert(!entangled(d, l.path, m.path));
            lemma_same_entanglement(d, disks[n - 1], l.path, m.path);
        }
        lemma_parents_beside(disks[n - 1], disks[n], p, turns[n - 1], l.path);
    }
}

/// The places of different turns are different.
proof fn lemma_places_apart(
    disks: Seq<Disk>,
    p: PlanView,
    turns: Seq<Turn>,
    pos: Seq<Pos>,
    i: int,
    l: LocView,
    j: int,
    m: LocView,
)
    requires
        taken_in_turn(disks, p, turns),
        disks[0].well_formed(),
        disks[0].steady,
        consistent(disks[0]),
        side_by_side(disks[0], p, turns, pos),
        0 <= i < j < turns.len(),
        turns[i].concerns(p, l),
        turns[j].concerns(p, m),
    ensures
        !same_place(disks[0], l, m),
{
    let d = disks[0];
    if same_place(d, l, m) {
        lemma_parents_stay(disks, p, turns, pos, i, l, j);
        lemma_parents_stay(disks, p, turns, pos, j, m, j);
        lemma_chain(disks, p, turns, j);
        let e = disks[j];
        let (a, b) = (l.path.drop_last(), m.path.drop_last());
        lemma_unique_path(e, a, b);
        assert(alike_paths(d, m.path, l.path)) by {
            assert forall|h: int| 0 <= h < m.path.len() implies alike(d, #[trigger] m.path[h], l.path[h]) by {
                if h < m.path.len() - 1 {
                    assert(alike(e, a[h], b[h]));
                }
            }
        }
        assert(l.path.take(l.path.len() as int) =~= l.path);
        assert(goes_through(d, l.path, m.path));
        assert(entangled(d, l.path, m.path));
    }
}

/// The names that are left of the first `n` turns.
pub open spec fn left_of(disks: Seq<Disk>, n: int, f: Seq<Fate>) -> Disk {
    Disk { names: survivors(disks[0].durable, disks[n].pending, f), ..disks[0] }
}

/// The fates of what was pending before the first turn.
pub open spec fn earlier(disks: Seq<Disk>, f: Seq<Fate>) -> Seq<Fate> {
    f.take(disks[0].pending.len() as int)
}

/// The directory holds a place that one of the first `n` turns concerns.
pub open spec fn awaited(p: PlanView, turns: Seq<Turn>, n: int, dir: FileId) -> bool {
    exists|i: int, l: LocView| 0 <= i < n && #[trigger] turns[i].concerns(p, l) && l.parent == dir
}

/// The change concerns names at places of the first `n` turns only, and waits for their
/// directories only.
pub open spec fn within_turns(d: Disk, p: PlanView, turns: Seq<Turn>, n: int, c: Change) -> bool {
    &&& c.from matches Some(k) ==> affected(d, p, turns, n, k)
    &&& c.to matches Some(k) ==> affected(d, p, turns, n, k)
    &&& forall|dir: FileId| #[trigger] c.unsynced.contains(dir) ==> awaited(p, turns, n, dir)
    &&& !c.unsynced.is_empty()
}

proof fn lemma_last_change(a: Disk, b: Disk, d: Disk, p: PlanView, turns: Seq<Turn>, n: int)
    requires
        0 < n <= turns.len(),
        a.well_formed(),
        a.steady,
        a.folds == d.folds,
        turns[n - 1].done(a, b, p),
        !(turns[n - 1] is Rest),
    ensures
        within_turns(d, p, turns, n, b.pending.last()),
{
    let x = turns[n - 1];
    let c = b.pending.last();
    assert(c.unsynced.contains(c.from->0.dir));
    match x {
        Turn::Forward(s) => {
            assert(x.concerns(p, p.src(s)) && x.concerns(p, p.dst(s)));
            let q = p.src(s).path;
            lemma_lookup(a, a.dir_at(q.drop_last())->0, q.last());
            assert(stands(d, a.key_at(q)->0, p.src(s)));
            assert(stands(d, p.dst(s).key(), p.dst(s)));
        },
        Turn::Back(s) => {
            assert(x.concerns(p, p.src(s)) && x.concerns(p, p.dst(s)));
            let q = p.dst(s).path;
            lemma_lookup(a, a.dir_at(q.drop_last())->0, q.last());
            assert(stands(d, a.key_at(q)->0, p.dst(s)));
            assert(stands(d, p.src(s).key(), p.src(s)));
        },
        Turn::Unlink(s) => {
            assert(x.concerns(p, p.dst(s)));
            let q = p.dst(s).path;
            lemma_lookup(a, a.dir_at(q.drop_last())->0, q.last());
            assert(stands(d, a.key_at(q)->0, p.dst(s)));
        },
        Turn::Rest => {},
    }
}

pub proof fn lemma_changes_within(disks: Seq<Disk>, p: PlanView, turns: Seq<Turn>, n: int)
    requires
        taken_in_turn(disks, p, turns),
        disks[0].well_formed(),
        disks[0].steady,
        consistent(disks[0]),
        0 <= n <= turns.len(),
    ensures
        forall|i: int|
            disks[0].pending.len() <= i < disks[n].pending.len() ==> within_turns(
                disks[0],
                p,
                turns,
                n,
                #[trigger] disks[n].pending[i],
            ),
    decreases n,
{
    if n > 0 {
        let (a, b) = (disks[n - 1], disks[n]);
        lemma_changes_within(disks, p, turns, n - 1);
        lemma_chain(disks, p, turns, n - 1);
        assert(turns[n - 1].done(a, disks[(n - 1) + 1], p));
        lemma_turn(a, b, p, turns[n - 1]);
        if !(turns[n - 1] is Rest) {
            lemma_last_change(a, b, disks[0], p, turns, n);
        }
        assert forall|i: int| disks[0].pending.len() <= i < b.pending.len() implies within_turns(
            disks[0],
            p,
            turns,
            n,
            #[trigger] b.pending[i],
        ) by {
            if i < a.pending.len() {
                assert(b.pending[i] == a.pending[i]) by {
                    if !(turns[n - 1] is Rest) {
                        assert(b.pending.drop_last()[i] == b.pending[i]);
                    }
                }
                assert(within_turns(disks[0], p, turns, n - 1, a.pending[i]));
                assert forall|dir: FileId| awaited(p, turns, n - 1, dir) implies awaited(p, turns, n, dir) by {
                    let (j, l) = choose|j: int, l: LocView|
                        0 <= j < n - 1 && #[trigger] turns[j].concerns(p, l) && l.parent == dir;
                    assert(turns[j].concerns(p, l));
                }
                assert forall|k: Key| affected(disks[0], p, turns, n - 1, k) implies affected(
                    disks[0],
                    p,
                    turns,
                    n,
                    k,
                ) by {
                    let (j, l) = choose|j: int, l: LocView|
                        0 <= j < n - 1 && #[trigger] turns[j].concerns(p, l) && stands(disks[0], k, l);
                    assert(turns[j].concerns(p, l));
                }
            }
        }
    }
}

/// A name outside `scratch` at no place of the first `n` turns is as it was, whatever comes out.
proof fn lemma_unaffected(
    disks: Seq<Disk>,
    p: PlanView,
    turns: Seq<Turn>,
    scratch: Set<FileId>,
    n: int,
    f: Seq<Fate>,
    k: Key,
)
    requires
        taken_in_turn(disks, p, turns),
        disks[0].well_formed(),
        disks[0].steady,
        firm(disks[0], scratch),
        0 <= n <= turns.len(),
        possible(disks[n].pending, f),
        !affected(disks[0], p, turns, n, k),
        !scratch.contains(k.dir),
    ensures
        agree_at(disks[n].names, left_of(disks, n, f).names, k),
        agree_at(disks[0].names, disks[n].names, k),
{
    let d = disks[0];
    let pending = disks[n].pending;
    let len = d.pending.len() as int;
    let later = pending.skip(len);
    lemma_chain(disks, p, turns, n);
    lemma_changes_within(disks, p, turns, n);
    assert forall|i: int| 0 <= i < later.len() implies (#[trigger] later[i]).from != Some(k) && later[i].to != Some(
        k,
    ) by {
        assert(within_turns(d, p, turns, n, pending[len + i]));
    }
    let all = all_apply(pending.len());
    lemma_survivors_from(d.durable, pending, f, len);
    lemma_survivors_from(d.durable, pending, all, len);
    assert(all.take(len) =~= all_apply(len as nat));
    lemma_firm_survives(d, scratch, f.take(len));
    let first = left_with(d, f.take(len)).names;
    assert(agree_at(d.names, first, k)) by {
        assert(outside(first, scratch).contains_key(k) == outside(d.names, scratch).contains_key(k));
        assert(d.names.contains_key(k) ==> outside(first, scratch)[k] == outside(d.names, scratch)[k]);
    }
    lemma_untouched(first, later, f.skip(len), k);
    lemma_untouched(d.names, later, all.skip(len), k);
}

/// A token's move that has come out, or kept both names, puts the token there and disturbs
/// nothing else.
proof fn lemma_move_comes_out(
    d0: Disk,
    a: Disk,
    b: Disk,
    e: Disk,
    p: PlanView,
    from: Seq<Pos>,
    c: Seq<Pos>,
    t: int,
    i: int,
    j: int,
    y: Pos,
    fate: Fate,
)
    requires
        a.well_formed(),
        a.steady,
        e.well_formed(),
        same_volume(a, e),
        a.objects == e.objects,
        ids_distinct(p),
        positions_fit(p, c),
        0 <= t < p.tokens.len(),
        0 <= i < p.tokens[t].locs.len(),
        0 <= j < p.tokens[t].locs.len(),
        !same_place(a, p.tokens[t].locs[i], p.tokens[t].locs[j]),
        c[t] matches Pos::At(x) && x == i,
        rearranged(d0, e, p, from, c),
        moved_at(
            a,
            b,
            p.tokens[t].locs[i].path,
            Some(p.tokens[t].locs[i].parent),
            p.tokens[t].locs[j].path,
            Some(p.tokens[t].locs[j].parent),
        ),
        forall|k: Key|
            stands(a, k, p.tokens[t].locs[i]) || stands(a, k, p.tokens[t].locs[j]) ==> #[trigger] agree_at(
                a.names,
                e.names,
                k,
            ),
        may_come_out(b.pending.last(), fate),
        fate == Fate::Apply ==> (y matches Pos::At(x) && x == j),
        fate == Fate::BothNames ==> (y matches Pos::Both(x) && (x == i && j == i + 1 || x == j && i == j + 1)),
        fate != Fate::Drop,
    ensures
        ({
            let z = Disk { names: outcome(e.names, b.pending.last(), fate), ..e };
            z.well_formed() && rearranged(d0, z, p, from, c.update(t, y))
        }),
{
    let src = p.tokens[t].locs[i];
    let dst = p.tokens[t].locs[j];
    let id = p.tokens[t].id;
    let ch = b.pending.last();
    let z = Disk { names: outcome(e.names, ch, fate), ..e };
    let k = a.key_at(src.path)->0;
    let l = dst.key();
    lemma_lookup(a, src.parent, src.path.last());
    lemma_lookup(a, dst.parent, dst.path.last());
    assert(a.dir_at(src.path.drop_last()) == Some(src.parent)) by {
        lemma_lookup(a, a.dir_at(src.path.drop_last())->0, src.path.last());
    }
    assert(stands(a, k, src) && stands(a, l, dst));
    assert(agree_at(a.names, e.names, k));
    assert(agree_at(a.names, e.names, l));
    lemma_lookup(e, src.parent, src.path.last());
    assert(alike(e, k.name, src.path.last()));
    assert(token_seated(e, p, t, c[t]));
    assert(seat(e, src) == k);
    assert(e.names[k] == id);
    assert(ch.id == id && ch.from == Some(k) && ch.to == Some(l));
    assert forall|q: Key| #[trigger] e.names.contains_key(q) && q.dir == l.dir implies !alike(e, q.name, l.name) by {
        if alike(e, q.name, l.name) {
            assert(stands(a, q, dst));
            assert(agree_at(a.names, e.names, q));
            assert(a.names.contains_key(q));
            assert(alike(a, q.name, dst.path.last()));
        }
    }
    assert(!e.names.contains_key(l)) by {
        assert(alike(e, l.name, l.name));
    }
    assert(fate == Fate::Apply ==> z.names == e.names.remove(k).insert(l, id));
    assert(fate == Fate::BothNames ==> z.names == e.names.insert(l, id));
    lemma_rename_well_formed(e, z, k, l);
    lemma_lookup(z, dst.parent, dst.path.last());
    assert(z.names.contains_key(l));
    assert(alike(z, l.name, dst.path.last()));
    assert(seat(z, dst) == l);
    if fate == Fate::BothNames {
        lemma_lookup(z, src.parent, src.path.last());
        assert(z.names.contains_key(k));
        assert(alike(z, k.name, src.path.last()));
        assert(seat(z, src) == k);
    }
    lemma_token_moved(d0, e, z, p, from, c, t, y);
}

/// The removal of a token's second name that has come out leaves the token at the first.
proof fn lemma_unlink_comes_out(
    d0: Disk,
    a: Disk,
    b: Disk,
    e: Disk,
    p: PlanView,
    from: Seq<Pos>,
    c: Seq<Pos>,
    s: Step,
)
    requires
        a.well_formed(),
        a.steady,
        e.well_formed(),
        same_volume(a, e),
        a.objects == e.objects,
        ids_distinct(p),
        positions_fit(p, c),
        p.names_move(s),
        !same_place(a, p.src(s), p.dst(s)),
        c[s.token as int] == Pos::Both(s.from),
        rearranged(d0, e, p, from, c),
        removed_at(a, b, p.dst(s).path, Some(p.dst(s).parent)),
        forall|k: Key| stands(a, k, p.dst(s)) ==> #[trigger] agree_at(a.names, e.names, k),
    ensures
        ({
            let z = Disk { names: outcome(e.names, b.pending.last(), Fate::Apply), ..e };
            z.well_formed() && rearranged(d0, z, p, from, c.update(s.token as int, Pos::At(s.from)))
        }),
{
    let t = s.token as int;
    let src = p.src(s);
    let at = p.dst(s);
    let id = p.tokens[t].id;
    let ch = b.pending.last();
    let z = Disk { names: outcome(e.names, ch, Fate::Apply), ..e };
    let k = a.key_at(at.path)->0;
    lemma_lookup(a, at.parent, at.path.last());
    assert(a.dir_at(at.path.drop_last()) == Some(at.parent)) by {
        lemma_lookup(a, a.dir_at(at.path.drop_last())->0, at.path.last());
    }
    assert(stands(a, k, at));
    assert(agree_at(a.names, e.names, k));
    lemma_lookup(e, at.parent, at.path.last());
    lemma_lookup(e, src.parent, src.path.last());
    assert(alike(e, k.name, at.path.last()));
    assert(token_seated(e, p, t, c[t]));
    assert(seat(e, at) == k);
    assert(ch.id == id && ch.from == Some(k));
    assert(z.names == e.names.remove(k));
    lemma_unlink_well_formed(e, z, k);
    let h = seat(e, src);
    assert(h != k);
    lemma_lookup(z, src.parent, src.path.last());
    assert(z.names.contains_key(h));
    assert(alike(z, h.name, src.path.last()));
    assert(seat(z, src) == h);
    lemma_token_moved(d0, e, z, p, from, c, t, Pos::At(s.from));
}

/// Token `u` is where it was, or where one of the first `n` turns leaves it.
pub open spec fn turned(turns: Seq<Turn>, n: int, pos: Seq<Pos>, c: Seq<Pos>, u: int) -> bool {
    c[u] == pos[u] || exists|i: int, g: Fate|
        0 <= i < n && !(turns[i] is Rest) && turns[i].step().token == u && c[u] == #[trigger] turns[i].leaves(g)
}

/// Whichever of the changes of the first `n` turns come out, every token is where it was or
/// where its turn leaves it, and everything else is in its place.
pub proof fn lemma_cut(
    disks: Seq<Disk>,
    p: PlanView,
    turns: Seq<Turn>,
    pos: Seq<Pos>,
    scratch: Set<FileId>,
    n: int,
    f: Seq<Fate>,
    d0: Disk,
    from: Seq<Pos>,
) -> (c: Seq<Pos>)
    requires
        taken_in_turn(disks, p, turns),
        disks[0].well_formed(),
        disks[0].steady,
        firm(disks[0], scratch),
        side_by_side(disks[0], p, turns, pos),
        ids_distinct(p),
        steps_lead_away(disks[0], p),
        positions_fit(p, pos),
        outlying(p, scratch),
        rearranged(d0, left_with(disks[0], earlier(disks, f)), p, from, pos),
        0 <= n <= turns.len(),
        possible(disks[n].pending, f),
    ensures
        left_of(disks, n, f).well_formed(),
        rearranged(d0, left_of(disks, n, f), p, from, c),
        positions_fit(p, c),
        forall|u: int| 0 <= u < c.len() ==> #[trigger] turned(turns, n, pos, c, u),
        f.skip(disks[0].pending.len() as int) == all_apply((f.len() - disks[0].pending.len()) as nat) ==> forall|i: int|
            0 <= i < n && !(turns[i] is Rest) ==> c[(#[trigger] turns[i]).step().token as int] == turns[i].leaves(
                Fate::Apply,
            ),
    decreases n,
{
    let d = disks[0];
    if n == 0 {
        assert(earlier(disks, f) =~= f);
        lemma_firm_survives(d, scratch, f);
        assert(left_of(disks, 0, f) == left_with(d, f));
        assert forall|u: int| 0 <= u < pos.len() implies #[trigger] turned(turns, 0, pos, pos, u) by {}
        pos
    } else {
        let (a, b) = (disks[n - 1], disks[n]);
        let x = turns[n - 1];
        lemma_chain(disks, p, turns, n - 1);
        assert(x.done(a, disks[(n - 1) + 1], p));
        lemma_turn(a, b, p, x);
        if x is Rest {
            let c = lemma_cut(disks, p, turns, pos, scratch, n - 1, f, d0, from);
            lemma_turned_on(turns, n, pos, c);
            c
        } else {
            let g = f.drop_last();
            let fate = f.last();
            let s = x.step();
            let t = s.token as int;
            assert forall|i: int| 0 <= i < a.pending.len() implies may_come_out(#[trigger] a.pending[i], g[i]) by {
                assert(a.pending[i] == b.pending.drop_last()[i]);
                assert(may_come_out(b.pending[i], f[i]));
            }
            assert(earlier(disks, g) =~= earlier(disks, f));
            let c = lemma_cut(disks, p, turns, pos, scratch, n - 1, g, d0, from);
            let e = left_of(disks, n - 1, g);
            let len = d.pending.len() as int;
            let outright = f.skip(len) == all_apply((f.len() - len) as nat);
            if outright {
                assert(g.skip(len) =~= all_apply((g.len() - len) as nat)) by {
                    assert forall|i: int| 0 <= i < g.len() - len implies g.skip(len)[i] == Fate::Apply by {
                        assert(f.skip(len)[i] == Fate::Apply);
                    }
                }
                assert(f.skip(len)[f.len() - len - 1] == fate);
            }
            assert(may_come_out(b.pending[b.pending.len() - 1], fate));
            assert(left_of(disks, n, f) == (Disk { names: outcome(e.names, b.pending.last(), fate), ..e }));
            assert(turned(turns, n - 1, pos, c, t));
            assert(c[t] == x.was()) by {
                if c[t] != pos[t] {
                    let (i, h) = choose|i: int, h: Fate|
                        0 <= i < n - 1 && !(turns[i] is Rest) && turns[i].step().token == t && c[t]
                            == #[trigger] turns[i].leaves(h);
                    assert(turns[i].step().token != turns[n - 1].step().token);
                }
            }
            lemma_turned_on(turns, n, pos, c);
            if fate == Fate::Drop {
                c
            } else {
                let y = x.leaves(fate);
                let next = c.update(t, y);
                assert forall|k: Key, l: LocView| #[trigger] x.concerns(p, l) && #[trigger] stands(a, k, l) implies agree_at(
                    a.names,
                    e.names,
                    k,
                ) by {
                    assert(!affected(d, p, turns, n - 1, k)) by {
                        if affected(d, p, turns, n - 1, k) {
                            let (i, m) = choose|i: int, m: LocView|
                                0 <= i < n - 1 && #[trigger] turns[i].concerns(p, m) && stands(d, k, m);
                            lemma_places_apart(disks, p, turns, pos, i, m, n - 1, l);
                        }
                    }
                    lemma_turns_outside(d, p, turns, pos, scratch, n - 1, l);
                    lemma_unaffected(disks, p, turns, scratch, n - 1, g, k);
                }
                assert(!same_place(a, p.src(s), p.dst(s))) by {
                    assert(!same_place(d, p.tokens[t].locs[s.from as int], p.tokens[t].locs[s.from + 1]));
                }
                match x {
                    Turn::Forward(_) => {
                        assert(x.concerns(p, p.src(s)) && x.concerns(p, p.dst(s)));
                        lemma_move_comes_out(d0, a, b, e, p, from, c, t, s.from as int, s.from + 1, y, fate);
                    },
                    Turn::Back(_) => {
                        assert(x.concerns(p, p.src(s)) && x.concerns(p, p.dst(s)));
                        lemma_move_comes_out(d0, a, b, e, p, from, c, t, s.from + 1, s.from as int, y, fate);
                    },
                    Turn::Unlink(_) => {
                        assert(x.concerns(p, p.dst(s)));
                        lemma_unlink_comes_out(d0, a, b, e, p, from, c, s);
                    },
                    Turn::Rest => {},
                }
                assert forall|u: int| 0 <= u < next.len() implies pos_fits(p, u, #[trigger] next[u]) by {
                    assert(pos_fits(p, u, c[u]));
                }
                assert forall|u: int| 0 <= u < next.len() implies #[trigger] turned(turns, n, pos, next, u) by {
                    if u != t {
                        assert(turned(turns, n, pos, c, u));
                    } else {
                        assert(next[u] == turns[n - 1].leaves(fate));
                    }
                }
                assert forall|i: int| outright && 0 <= i < n && !(turns[i] is Rest) implies next[(
                #[trigger] turns[i]).step().token as int] == turns[i].leaves(Fate::Apply) by {
                    if i < n - 1 {
                        assert(turns[i].step().token != turns[n - 1].step().token);
                    }
                }
                next
            }
        }
    }
}

proof fn lemma_turned_on(turns: Seq<Turn>, n: int, pos: Seq<Pos>, c: Seq<Pos>)
    requires
        n > 0,
        forall|u: int| 0 <= u < c.len() ==> #[trigger] turned(turns, n - 1, pos, c, u),
    ensures
        forall|u: int| 0 <= u < c.len() ==> #[trigger] turned(turns, n, pos, c, u),
{
    assert forall|u: int| 0 <= u < c.len() implies #[trigger] turned(turns, n, pos, c, u) by {
        assert(turned(turns, n - 1, pos, c, u));
        if c[u] != pos[u] {
            let (i, g) = choose|i: int, g: Fate|
                0 <= i < n - 1 && !(turns[i] is Rest) && turns[i].step().token == u && c[u]
                    == #[trigger] turns[i].leaves(g);
            assert(c[u] == turns[i].leaves(g));
        }
    }
}

/// Whichever changes come out, a path that leads through no place of the turns leads where it
/// did.
proof fn lemma_way_survives(
    disks: Seq<Disk>,
    p: PlanView,
    turns: Seq<Turn>,
    pos: Seq<Pos>,
    scratch: Set<FileId>,
    n: int,
    f: Seq<Fate>,
    q: PathView,
    r: PathView,
)
    requires
        taken_in_turn(disks, p, turns),
        disks[0].well_formed(),
        disks[0].steady,
        firm(disks[0], scratch),
        secluded(disks[0], scratch),
        outlying(p, scratch),
        side_by_side(disks[0], p, turns, pos),
        0 <= n <= turns.len(),
        possible(disks[n].pending, f),
        left_of(disks, n, f).well_formed(),
        disks[n].dir_at(q) is Some,
        forall|j: int, m: LocView|
            0 <= j < n && #[trigger] turns[j].concerns(p, m) ==> !goes_through(disks[0], q, m.path),
        r.len() <= q.len(),
        r == q.take(r.len() as int),
    ensures
        left_of(disks, n, f).resolve(r) == disks[n].resolve(r),
        disks[n].dir_at(r) is Some,
    decreases r.len(),
{
    let d = disks[0];
    let e = left_of(disks, n, f);
    let z = disks[n];
    lemma_chain(disks, p, turns, n);
    lemma_prefix_resolves(z, q, r.len() as int);
    assert(q.take(q.len() as int) =~= q);
    if r.len() > 0 {
        let up = r.drop_last();
        assert(up =~= q.take(up.len() as int));
        lemma_way_survives(disks, p, turns, pos, scratch, n, f, q, up);
        let dir = z.dir_at(up)->0;
        lemma_chain_secluded(disks, p, turns, pos, scratch, n);
        lemma_secluded(z, scratch, up);
        assert forall|k: Key| #[trigger] alike(z, k.name, r.last()) && k.dir == dir implies agree_at(
            z.names,
            e.names,
            k,
        ) by {
            if affected(d, p, turns, n, k) {
                let (j, m) = choose|j: int, m: LocView|
                    0 <= j < n && #[trigger] turns[j].concerns(p, m) && stands(d, k, m);
                lemma_parents_stay(disks, p, turns, pos, j, m, n);
                let mp = m.path.drop_last();
                lemma_unique_path(z, mp, up);
                assert(alike_paths(d, m.path, r)) by {
                    assert forall|h: int| 0 <= h < m.path.len() implies alike(d, #[trigger] m.path[h], r[h]) by {
                        if h < m.path.len() - 1 {
                            assert(alike(z, mp[h], up[h]));
                        }
                    }
                }
                assert(alike_paths(d, m.path, q.take(r.len() as int)));
                assert(goes_through(d, q, m.path));
            }
            lemma_unaffected(disks, p, turns, scratch, n, f, k);
        }
        lemma_lookup_agrees(z, e, dir, r.last());
    }
}

/// Whichever changes come out, the parents of all places that the turns concern are in place.
pub proof fn lemma_parents_survive(
    disks: Seq<Disk>,
    p: PlanView,
    turns: Seq<Turn>,
    pos: Seq<Pos>,
    scratch: Set<FileId>,
    n: int,
    f: Seq<Fate>,
    i: int,
    l: LocView,
)
    requires
        taken_in_turn(disks, p, turns),
        disks[0].well_formed(),
        disks[0].steady,
        firm(disks[0], scratch),
        secluded(disks[0], scratch),
        outlying(p, scratch),
        side_by_side(disks[0], p, turns, pos),
        0 <= i < n <= turns.len(),
        possible(disks[n].pending, f),
        left_of(disks, n, f).well_formed(),
        turns[i].concerns(p, l),
    ensures
        in_place(left_of(disks, n, f), l),
{
    let d = disks[0];
    lemma_chain(disks, p, turns, n);
    lemma_parents_stay(disks, p, turns, pos, i, l, n);
    let q = l.path.drop_last();
    assert forall|j: int, m: LocView| 0 <= j < n && #[trigger] turns[j].concerns(p, m) implies !goes_through(
        d,
        q,
        m.path,
    ) by {
        if j == i {
            assert(turns[i].leads_out(d, p));
            lemma_ends_untangled(d, p, turns[i], l, m);
        } else if goes_through(d, q, m.path) {
            let h = choose|h: int| 0 < h <= q.len() && alike_paths(d, m.path, #[trigger] q.take(h));
            assert(q.take(h) =~= l.path.take(h));
            assert(goes_through(d, l.path, m.path));
            assert(entangled(d, l.path, m.path) && entangled(d, m.path, l.path));
        }
    }
    assert(q.take(q.len() as int) =~= q);
    lemma_way_survives(disks, p, turns, pos, scratch, n, f, q, q);
}

/// A place that is entangled with none of the turns keeps its parent in place.
pub proof fn lemma_bystander(disks: Seq<Disk>, p: PlanView, turns: Seq<Turn>, n: int, l: LocView)
    requires
        taken_in_turn(disks, p, turns),
        disks[0].well_formed(),
        disks[0].steady,
        consistent(disks[0]),
        0 <= n <= turns.len(),
        in_place(disks[0], l),
        forall|j: int, m: LocView|
            0 <= j < n && #[trigger] turns[j].concerns(p, m) ==> !goes_through(disks[0], l.path, m.path),
    ensures
        in_place(disks[n], l),
    decreases n,
{
    if n > 0 {
        lemma_bystander(disks, p, turns, n - 1, l);
        lemma_chain(disks, p, turns, n - 1);
        lemma_chain(disks, p, turns, n);
        assert(turns[n - 1].done(disks[n - 1], disks[(n - 1) + 1], p));
        assert forall|m: LocView| #[trigger] turns[n - 1].concerns(p, m) implies !goes_through(
            disks[n - 1],
            l.path,
            m.path,
        ) by {
            lemma_same_entanglement(disks[0], disks[n - 1], l.path, m.path);
        }
        lemma_parents_beside(disks[n - 1], disks[n], p, turns[n - 1], l.path);
        lemma_chain_dirs(disks, p, turns, n, l.parent);
    }
}

proof fn lemma_chain_dirs(disks: Seq<Disk>, p: PlanView, turns: Seq<Turn>, n: int, id: FileId)
    requires
        taken_in_turn(disks, p, turns),
        disks[0].well_formed(),
        disks[0].steady,
        consistent(disks[0]),
        0 <= n <= turns.len(),
    ensures
        disks[n].is_dir(id) == disks[0].is_dir(id),
{
    lemma_chain(disks, p, turns, n);
}

/// Whichever changes come out, such a place keeps its parent in place.
pub proof fn lemma_bystander_survives(
    disks: Seq<Disk>,
    p: PlanView,
    turns: Seq<Turn>,
    pos: Seq<Pos>,
    scratch: Set<FileId>,
    n: int,
    f: Seq<Fate>,
    l: LocView,
)
    requires
        taken_in_turn(disks, p, turns),
        disks[0].well_formed(),
        disks[0].steady,
        firm(disks[0], scratch),
        secluded(disks[0], scratch),
        outlying(p, scratch),
        side_by_side(disks[0], p, turns, pos),
        0 <= n <= turns.len(),
        possible(disks[n].pending, f),
        left_of(disks, n, f).well_formed(),
        in_place(disks[0], l),
        forall|j: int, m: LocView|
            0 <= j < n && #[trigger] turns[j].concerns(p, m) ==> !goes_through(disks[0], l.path, m.path),
    ensures
        in_place(left_of(disks, n, f), l),
{
    let d = disks[0];
    lemma_chain(disks, p, turns, n);
    lemma_bystander(disks, p, turns, n, l);
    let q = l.path.drop_last();
    assert forall|j: int, m: LocView| 0 <= j < n && #[trigger] turns[j].concerns(p, m) implies !goes_through(
        d,
        q,
        m.path,
    ) by {
        if goes_through(d, q, m.path) {
            let h = choose|h: int| 0 < h <= q.len() && alike_paths(d, m.path, #[trigger] q.take(h));
            assert(q.take(h) =~= l.path.take(h));
            assert(goes_through(d, l.path, m.path));
        }
    }
    assert(q.take(q.len() as int) =~= q);
    lemma_way_survives(disks, p, turns, pos, scratch, n, f, q, q);
}

/// Whatever comes out of the first `n` turns, the names that are left make sense.
pub proof fn lemma_turns_sturdy(
    disks: Seq<Disk>,
    p: PlanView,
    turns: Seq<Turn>,
    pos: Seq<Pos>,
    scratch: Set<FileId>,
    n: int,
)
    requires
        taken_in_turn(disks, p, turns),
        disks[0].well_formed(),
        disks[0].steady,
        firm(disks[0], scratch),
        outlying(p, scratch),
        side_by_side(disks[0], p, turns, pos),
        ids_distinct(p),
        steps_lead_away(disks[0], p),
        positions_fit(p, pos),
        seated(disks[0], p, pos),
        0 <= n <= turns.len(),
    ensures
        sturdy(disks[n]),
{
    let z = disks[n];
    lemma_chain(disks, p, turns, n);
    assert forall|f: Seq<Fate>| possible(z.pending, f) implies (#[trigger] left_with(z, f)).well_formed() by {
        let g = earlier(disks, f);
        lemma_survivors_from(disks[0].durable, z.pending, f, disks[0].pending.len() as int);
        lemma_firm_survives(disks[0], scratch, g);
        let start = left_with(disks[0], g);
        lemma_same_seats(disks[0], start, p, pos, scratch);
        lemma_not_rearranged(start, p, pos);
        let c = lemma_cut(disks, p, turns, pos, scratch, n, f, start, pos);
        assert(left_of(disks, n, f).well_formed());
        assert(left_with(z, f).names == left_of(disks, n, f).names);
    }
}

/// Tokens are seated alike on disks that differ in names in `scratch` only.
pub proof fn lemma_same_seats(a: Disk, b: Disk, p: PlanView, pos: Seq<Pos>, scratch: Set<FileId>)
    requires
        a.well_formed(),
        b.well_formed(),
        a.folds == b.folds,
        outside(a.names, scratch) == outside(b.names, scratch),
        outlying(p, scratch),
        positions_fit(p, pos),
    ensures
        seated(a, p, pos) == seated(b, p, pos),
        forall|k: Key| #[trigger] occupied(a, p, pos, k) == occupied(b, p, pos, k),
{
    assert forall|t: int| 0 <= t < p.tokens.len() implies #[trigger] token_seated(a, p, t, pos[t]) == token_seated(
        b,
        p,
        t,
        pos[t],
    ) && forall|k: Key| occupies(a, p, t, pos[t], k) == occupies(b, p, t, pos[t], k) by {
        assert(pos_fits(p, t, pos[t]));
        match pos[t] {
            Pos::At(i) => {
                lemma_same_seat(a, b, p, t, i as int, scratch);
            },
            Pos::Both(i) => {
                lemma_same_seat(a, b, p, t, i as int, scratch);
                lemma_same_seat(a, b, p, t, i + 1, scratch);
            },
        }
    }
    if seated(a, p, pos) {
        assert forall|t: int| 0 <= t < p.tokens.len() implies #[trigger] token_seated(b, p, t, pos[t]) by {
            assert(token_seated(a, p, t, pos[t]));
        }
    }
    if seated(b, p, pos) {
        assert forall|t: int| 0 <= t < p.tokens.len() implies #[trigger] token_seated(a, p, t, pos[t]) by {
            assert(token_seated(b, p, t, pos[t]));
        }
    }
    assert forall|k: Key| #[trigger] occupied(a, p, pos, k) == occupied(b, p, pos, k) by {
        if occupied(a, p, pos, k) {
            let t = choose|t: int| 0 <= t < p.tokens.len() && #[trigger] occupies(a, p, t, pos[t], k);
            assert(token_seated(a, p, t, pos[t]) == token_seated(b, p, t, pos[t]));
            assert(occupies(b, p, t, pos[t], k));
        }
        if occupied(b, p, pos, k) {
            let t = choose|t: int| 0 <= t < p.tokens.len() && #[trigger] occupies(b, p, t, pos[t], k);
            assert(token_seated(a, p, t, pos[t]) == token_seated(b, p, t, pos[t]));
            assert(occupies(a, p, t, pos[t], k));
        }
    }
}

/// A location finds the same name on disks that differ in names in `scratch` only.
pub proof fn lemma_same_seat(a: Disk, b: Disk, p: PlanView, t: int, i: int, scratch: Set<FileId>)
    requires
        a.well_formed(),
        b.well_formed(),
        a.folds == b.folds,
        outside(a.names, scratch) == outside(b.names, scratch),
        outlying(p, scratch),
        0 <= t < p.tokens.len(),
        0 <= i < p.tokens[t].locs.len(),
    ensures
        ({
            let l = p.tokens[t].locs[i];
            &&& a.lookup(l.parent, l.path.last()) == b.lookup(l.parent, l.path.last())
            &&& a.lookup(l.parent, l.path.last()) matches Some(k) ==> a.names[k] == b.names[k]
        }),
{
    let l = p.tokens[t].locs[i];
    assert(!scratch.contains(l.parent));
    lemma_found_outside(a, b, scratch, l.parent, l.path.last());
}

/// A directory outside `scratch` holds the same names on such disks.
pub proof fn lemma_found_outside(a: Disk, b: Disk, scratch: Set<FileId>, dir: FileId, name: Name)
    requires
        a.well_formed(),
        b.well_formed(),
        a.folds == b.folds,
        outside(a.names, scratch) == outside(b.names, scratch),
        !scratch.contains(dir),
    ensures
        a.lookup(dir, name) == b.lookup(dir, name),
        a.lookup(dir, name) matches Some(k) ==> a.names[k] == b.names[k],
{
    assert forall|k: Key| #[trigger] alike(a, k.name, name) && k.dir == dir implies agree_at(a.names, b.names, k) by {
        let (x, y) = (outside(a.names, scratch), outside(b.names, scratch));
        assert(x.contains_key(k) == a.names.contains_key(k));
        assert(y.contains_key(k) == b.names.contains_key(k));
        if x.contains_key(k) {
            assert(x[k] == a.names[k] && y[k] == b.names[k]);
        }
    }
    lemma_lookup_agrees(a, b, dir, name);
}

/// What the turns have added to what is pending concerns names outside `scratch`.
pub proof fn lemma_turns_avoid(
    disks: Seq<Disk>,
    p: PlanView,
    turns: Seq<Turn>,
    pos: Seq<Pos>,
    scratch: Set<FileId>,
    n: int,
)
    requires
        taken_in_turn(disks, p, turns),
        disks[0].well_formed(),
        disks[0].steady,
        consistent(disks[0]),
        outlying(p, scratch),
        side_by_side(disks[0], p, turns, pos),
        0 <= n <= turns.len(),
    ensures
        forall|i: int|
            disks[0].pending.len() <= i < disks[n].pending.len() ==> avoids(#[trigger] disks[n].pending[i], scratch),
{
    let d = disks[0];
    lemma_changes_within(disks, p, turns, n);
    assert forall|k: Key| affected(d, p, turns, n, k) implies !scratch.contains(k.dir) by {
        let (j, l) = choose|j: int, l: LocView| 0 <= j < n && #[trigger] turns[j].concerns(p, l) && stands(d, k, l);
        lemma_turns_outside(d, p, turns, pos, scratch, j, l);
    }
    assert forall|i: int| d.pending.len() <= i < disks[n].pending.len() implies avoids(
        #[trigger] disks[n].pending[i],
        scratch,
    ) by {
        assert(within_turns(d, p, turns, n, disks[n].pending[i]));
    }
}

/// Once the parents of all places have been synced, all names are durable outside `scratch`.
pub proof fn lemma_wave_firm(
    disks: Seq<Disk>,
    p: PlanView,
    turns: Seq<Turn>,
    pos: Seq<Pos>,
    scratch: Set<FileId>,
    dirs: Seq<FileId>,
)
    requires
        taken_in_turn(disks, p, turns),
        disks[0].well_formed(),
        disks[0].steady,
        firm(disks[0], scratch),
        outlying(p, scratch),
        side_by_side(disks[0], p, turns, pos),
        ids_distinct(p),
        steps_lead_away(disks[0], p),
        positions_fit(p, pos),
        seated(disks[0], p, pos),
        forall|i: int, l: LocView|
            0 <= i < turns.len() && #[trigger] turns[i].concerns(p, l) ==> parent_covered(
                disks[turns.len() as int],
                l,
                dirs,
            ),
    ensures
        firm(synced_all(disks[turns.len() as int], dirs), scratch),
{
    let n = turns.len() as int;
    let z = disks[n];
    let len = disks[0].pending.len() as int;
    lemma_chain(disks, p, turns, n);
    lemma_changes_within(disks, p, turns, n);
    lemma_turns_avoid(disks, p, turns, pos, scratch, n);
    lemma_turns_sturdy(disks, p, turns, pos, scratch, n);
    assert(settled_part(z, len, scratch)) by {
        assert(disks[0].pending.take(len) =~= disks[0].pending);
    }
    assert forall|dir: FileId| awaited(p, turns, n, dir) implies dirs.contains(dir) by {
        let (i, l) = choose|i: int, l: LocView| 0 <= i < n && #[trigger] turns[i].concerns(p, l) && l.parent == dir;
        lemma_parents_stay(disks, p, turns, pos, i, l, n);
        assert(parent_covered(z, l, dirs));
    }
    assert forall|i: int, dir: FileId|
        len <= i < z.pending.len() && #[trigger] z.pending[i].unsynced.contains(dir) implies dirs.contains(dir) by {
        assert(within_turns(disks[0], p, turns, n, z.pending[i]));
    }
    lemma_synced_firm(z, len, dirs, scratch);
}

} // verus!
