//! What a transaction guarantees as a whole: whenever it is interrupted, by a power loss or
//! otherwise, every token is at a step of its way and everything else is in its place; undoing
//! then leads back to the names that were there before, however often that is interrupted in
//! turn; and once all waves are applied, what they made survives.
use vstd::prelude::*;

use crate::apply::{applying, stopped_in, step_taken, steps_taken, wave_applied, wave_settled, waves_applied, within_wave};
use crate::crash::{lost_with, possible, power_lost, survivors};
use crate::disk::{Disk, Fate, FileId, Key};
use crate::durability::{
    all_apply, consistent, firm, law_syncing_narrows_what_power_loss_may_leave, left_with, lemma_firm_survives, lemma_survivors_from,
    outside, sturdy,
};
use crate::moves::{
    lemma_not_rearranged, lemma_rearranged_by_names, lemma_seat_held, occupied, occupies, rearranged, same_place, seat, seated,
    steps_lead_away, token_seated,
};
use crate::path::{overlapping, PathView};
use crate::plan::{advance, lemma_positions_in_range, LocView, PlanView, Positions, Step};
use crate::positions::{
    has_shape, pos_fits, positions_fit, shape_at, state_at, wave_done, wave_untouched, Pos, StepState,
};
use crate::progress::Record;
use crate::recover::{
    home, lemma_synced_all, logged, only_log_changed, parents_synced, some_synced, synced_all, tame, wave_ends,
};
use crate::state::{progress_name, TxDir};
use crate::tree::{alike, alike_paths, goes_through, lemma_lookup, lemma_same_resolve};
use crate::turns::{
    earlier, entangled, in_place, left_of, lemma_chain, lemma_chain_secluded, lemma_cut, lemma_found_outside,
    lemma_parents_survive, lemma_same_seats, lemma_secluded, lemma_wave_firm, outlying, secluded, side_by_side,
    taken_in_turn, turned, Turn,
};
use crate::vfs::{appended_at, file_synced_at, same_volume};

verus! {

/// The ends of different steps of one wave are not entangled, on this filesystem.
pub open spec fn waves_untangled(d: Disk, p: PlanView) -> bool {
    forall|w: int, i: int, j: int, l: LocView, m: LocView|
        #![trigger p.is_endpoint(p.waves[w][i], l), p.is_endpoint(p.waves[w][j], m)]
        p.has(w, i) && p.has(w, j) && i != j && p.is_endpoint(p.waves[w][i], l) && p.is_endpoint(p.waves[w][j], m)
            ==> !entangled(d, l.path, m.path)
}

/// Neither end of a step is on the way to the other.
pub open spec fn steps_lead_out(d: Disk, p: PlanView) -> bool {
    forall|w: int, i: int|
        #![trigger p.waves[w][i]]
        p.has(w, i) ==> !entangled(d, p.src(p.waves[w][i]).path, p.dst(p.waves[w][i]).path)
}

/// Locations can be counted by the machine.
pub open spec fn countable(p: PlanView) -> bool {
    forall|t: int| 0 <= t < p.tokens.len() ==> 1 <= (#[trigger] p.tokens[t]).locs.len() <= usize::MAX
}

/// Wave `w` moves the token.
pub open spec fn moves_token(p: PlanView, w: int, t: int) -> bool {
    exists|j: int| p.has(w, j) && (#[trigger] p.waves[w][j]).token == t
}

/// No wave moves anything that is on the way to a token that it does not move.
pub open spec fn undisturbed(d: Disk, p: PlanView) -> bool {
    forall|w: int, i: int, t: int, m: LocView|
        #![trigger p.is_endpoint(p.waves[w][i], m), p.tokens[t]]
        p.has(w, i) && 0 <= t < p.tokens.len() && !moves_token(p, w, t) && p.is_endpoint(p.waves[w][i], m)
            ==> !goes_through(d, p.tokens[t].locs[p.positions(w)[t]].path, m.path)
}

/// A token at `x` is at the location `l`.
pub open spec fn rests_at(p: PlanView, t: int, x: Pos, l: LocView) -> bool {
    match x {
        Pos::At(i) => l == p.tokens[t].locs[i as int],
        Pos::Both(i) => l == p.tokens[t].locs[i as int] || l == p.tokens[t].locs[i + 1],
    }
}

/// Every token has the parent of its location in place, or of both.
pub open spec fn tokens_in_place(d: Disk, p: PlanView, pos: Seq<Pos>) -> bool {
    forall|t: int, l: LocView|
        #![trigger rests_at(p, t, pos[t], l)]
        0 <= t < pos.len() && rests_at(p, t, pos[t], l) ==> in_place(d, l)
}

/// The plan is one that can be carried out on the disk `d`: it is valid, its tokens are
/// there, identities tell them apart, and where case is ignored its steps are apart even so.
pub open spec fn fitting(d: Disk, p: PlanView) -> bool {
    &&& d.well_formed()
    &&& p.valid()
    &&& countable(p)
    &&& tame(d, p)
    &&& seated(d, p, home(p))
    &&& tokens_in_place(d, p, home(p))
    &&& undisturbed(d, p)
    &&& steps_lead_out(d, p)
    &&& d.folds ==> waves_untangled(d, p)
}

/// All names are durable but for those in the directories `scratch`, to which nothing leads
/// and in which the plan has no location.
pub open spec fn settled(d: Disk, p: PlanView, scratch: Set<FileId>) -> bool {
    firm(d, scratch) && secluded(d, scratch) && outlying(p, scratch)
}

/// The plan can be carried out on the disk `d`, on which nothing is pending but in `scratch`.
pub open spec fn sound_start(d: Disk, p: PlanView, scratch: Set<FileId>) -> bool {
    fitting(d, p) && settled(d, p, scratch)
}

/// The two disks differ in names in the directories `scratch` only.
pub open spec fn kin(a: Disk, b: Disk, scratch: Set<FileId>) -> bool {
    &&& b.well_formed()
    &&& same_volume(a, b)
    &&& same_kinds(a, b)
    &&& outside(a.names, scratch) == outside(b.names, scratch)
}

/// Paths lead to the same on such disks, if nothing leads into `scratch`.
pub proof fn lemma_kin_resolves(a: Disk, b: Disk, scratch: Set<FileId>, q: PathView)
    requires
        a.well_formed(),
        kin(a, b, scratch),
        secluded(a, scratch),
    ensures
        b.resolve(q) == a.resolve(q),
        b.dir_at(q) == a.dir_at(q),
    decreases q.len(),
{
    assert forall|id: FileId| #[trigger] a.is_dir(id) == b.is_dir(id) by {
        if a.objects.contains_key(id) {
            crate::tree::lemma_kind_dir(a.objects[id], b.objects[id]);
        }
    }
    if q.len() > 0 {
        let up = q.drop_last();
        lemma_kin_resolves(a, b, scratch, up);
        if a.dir_at(up) is Some {
            let dir = a.dir_at(up)->0;
            lemma_secluded(a, scratch, up);
            lemma_found_outside(a, b, scratch, dir, q.last());
        }
    }
    if a.resolve(q) is Some {
        assert(a.is_dir(a.resolve(q)->0) == b.is_dir(a.resolve(q)->0));
    }
}

/// The disk `d0` with the names that `x` has in the directories `scratch`.
pub open spec fn rebased(d0: Disk, x: Disk, scratch: Set<FileId>) -> Disk {
    Disk {
        names: Map::new(
            |k: Key|
                if scratch.contains(k.dir) {
                    x.names.contains_key(k)
                } else {
                    d0.names.contains_key(k)
                },
            |k: Key|
                if scratch.contains(k.dir) {
                    x.names[k]
                } else {
                    d0.names[k]
                },
        ),
        ..d0
    }
}

/// Tokens sit outside `scratch`.
proof fn lemma_occupied_outside(d: Disk, p: PlanView, pos: Seq<Pos>, scratch: Set<FileId>, k: Key)
    requires
        d.well_formed(),
        seated(d, p, pos),
        positions_fit(p, pos),
        outlying(p, scratch),
        occupied(d, p, pos, k),
    ensures
        !scratch.contains(k.dir),
{
    let t = choose|t: int| 0 <= t < p.tokens.len() && #[trigger] occupies(d, p, t, pos[t], k);
    assert(token_seated(d, p, t, pos[t]));
    assert(pos_fits(p, t, pos[t]));
    match pos[t] {
        Pos::At(i) => {
            let l = p.tokens[t].locs[i as int];
            lemma_lookup(d, l.parent, l.path.last());
            assert(!scratch.contains(p.tokens[t].locs[i as int].parent));
        },
        Pos::Both(i) => {
            let l = p.tokens[t].locs[i as int];
            let m = p.tokens[t].locs[i + 1];
            lemma_lookup(d, l.parent, l.path.last());
            lemma_lookup(d, m.parent, m.path.last());
            assert(!scratch.contains(p.tokens[t].locs[i as int].parent));
            assert(!scratch.contains(p.tokens[t].locs[i + 1].parent));
        },
    }
}

/// What had a name outside `scratch` has one there still, wherever the tokens are.
pub proof fn lemma_named_outside(d0: Disk, a: Disk, p: PlanView, pos: Seq<Pos>, scratch: Set<FileId>, k: Key) -> (q: Key)
    requires
        d0.well_formed(),
        a.well_formed(),
        seated(d0, p, home(p)),
        positions_fit(p, home(p)),
        positions_fit(p, pos),
        outlying(p, scratch),
        rearranged(d0, a, p, home(p), pos),
        d0.names.contains_key(k),
        !scratch.contains(k.dir),
    ensures
        a.names.contains_key(q),
        a.names[q] == d0.names[k],
        !scratch.contains(q.dir),
{
    if occupied(d0, p, home(p), k) {
        let t = choose|t: int| 0 <= t < p.tokens.len() && #[trigger] occupies(d0, p, t, home(p)[t], k);
        assert(token_seated(d0, p, t, home(p)[t]));
        lemma_seat_held(d0, p, t, home(p)[t], k);
        assert(token_seated(a, p, t, pos[t]));
        let q = match pos[t] {
            Pos::At(i) => seat(a, p.tokens[t].locs[i as int]),
            Pos::Both(i) => seat(a, p.tokens[t].locs[i as int]),
        };
        assert(occupies(a, p, t, pos[t], q));
        lemma_seat_held(a, p, t, pos[t], q);
        lemma_occupied_outside(a, p, pos, scratch, q);
        q
    } else {
        assert(!occupied(a, p, pos, k));
        assert(a.names.contains_key(k));
        k
    }
}

/// Names in `scratch` may be taken over from a disk that the tokens have been moved on.
pub proof fn lemma_rebased(d0: Disk, a: Disk, x: Disk, p: PlanView, pos: Seq<Pos>, scratch: Set<FileId>)
    requires
        fitting(d0, p),
        a.well_formed(),
        same_volume(d0, a),
        same_kinds(d0, a),
        kin(a, x, scratch),
        outlying(p, scratch),
        positions_fit(p, pos),
        rearranged(d0, a, p, home(p), pos),
    ensures
        kin(d0, rebased(d0, x, scratch), scratch),
        rearranged(rebased(d0, x, scratch), x, p, home(p), pos),
{
    let b = rebased(d0, x, scratch);
    crate::restoration::lemma_home_fits(p);
    lemma_same_kinds_through(d0, a, x);
    assert forall|id: FileId| #[trigger] d0.is_dir(id) == x.is_dir(id) by {
        if d0.objects.contains_key(id) {
            crate::tree::lemma_kind_dir(d0.objects[id], x.objects[id]);
        }
    }
    assert(outside(b.names, scratch) =~= outside(d0.names, scratch));
    assert forall|k: Key| #[trigger] b.names.contains_key(k) implies b.is_dir(k.dir) && b.objects.contains_key(
        b.names[k],
    ) && b.names[k] != b.root by {
        if scratch.contains(k.dir) {
            assert(x.names.contains_key(k));
            assert(d0.is_dir(k.dir) == x.is_dir(k.dir));
        } else {
            assert(d0.names.contains_key(k));
        }
    }
    assert forall|k: Key, l: Key|
        #![trigger b.names.contains_key(k), b.names.contains_key(l)]
        b.names.contains_key(k) && b.names.contains_key(l) && b.names[k] == b.names[l] && b.is_dir(
            b.names[k],
        ) implies k == l by {
        assert(d0.is_dir(b.names[k]) == x.is_dir(b.names[k]));
        if scratch.contains(k.dir) && scratch.contains(l.dir) {
            assert(x.names.contains_key(k) && x.names.contains_key(l));
        } else if !scratch.contains(k.dir) && !scratch.contains(l.dir) {
            assert(d0.names.contains_key(k) && d0.names.contains_key(l));
        } else {
            let (from, other) = if scratch.contains(k.dir) {
                (l, k)
            } else {
                (k, l)
            };
            let q = lemma_named_outside(d0, a, p, pos, scratch, from);
            assert(outside(a.names, scratch).contains_key(q));
            assert(outside(x.names, scratch).contains_key(q));
            assert(outside(x.names, scratch)[q] == a.names[q]);
            assert(x.names.contains_key(q) && x.names.contains_key(other));
        }
    }
    if b.folds {
        assert forall|k: Key, l: Key|
            #![trigger b.names.contains_key(k), b.names.contains_key(l)]
            b.names.contains_key(k) && b.names.contains_key(l) && k.dir == l.dir && crate::bytes::folded(k.name)
                == crate::bytes::folded(l.name) implies k == l by {
            if scratch.contains(k.dir) {
                assert(x.names.contains_key(k) && x.names.contains_key(l));
            } else {
                assert(d0.names.contains_key(k) && d0.names.contains_key(l));
            }
        }
    }
    assert(b.names.dom().subset_of(d0.names.dom().union(x.names.dom())));
    vstd::set_lib::lemma_set_subset_finite(d0.names.dom().union(x.names.dom()), b.names.dom());
    lemma_same_seats(d0, b, p, home(p), scratch);
    lemma_same_seats(a, x, p, pos, scratch);
    assert forall|k: Key| !scratch.contains(k.dir) implies #[trigger] x.names.contains_key(k) == a.names.contains_key(k)
        && (x.names.contains_key(k) ==> x.names[k] == a.names[k]) by {
        let (y, z) = (outside(a.names, scratch), outside(x.names, scratch));
        assert(y.contains_key(k) == a.names.contains_key(k));
        assert(z.contains_key(k) == x.names.contains_key(k));
        if y.contains_key(k) {
            assert(y[k] == a.names[k] && z[k] == x.names[k]);
        }
    }
    assert forall|k: Key| #[trigger] occupied(x, p, pos, k) && b.names.contains_key(k) implies occupied(
        b,
        p,
        home(p),
        k,
    ) by {
        lemma_occupied_outside(x, p, pos, scratch, k);
        assert(occupied(a, p, pos, k));
    }
    assert forall|k: Key| !occupied(x, p, pos, k) implies ((#[trigger] x.names.contains_key(k))
        <==> b.names.contains_key(k) && !occupied(b, p, home(p), k)) && (x.names.contains_key(k) ==> x.names[k]
        == b.names[k]) by {
        assert(!occupied(a, p, pos, k));
        if scratch.contains(k.dir) {
            if occupied(b, p, home(p), k) {
                lemma_occupied_outside(b, p, home(p), scratch, k);
            }
        } else {
            assert(occupied(b, p, home(p), k) == occupied(d0, p, home(p), k));
            assert(a.names.contains_key(k) <==> d0.names.contains_key(k) && !occupied(d0, p, home(p), k));
        }
    }
}

/// Kinds are the same across two steps, one after the other.
pub proof fn lemma_same_kinds_through(a: Disk, b: Disk, c: Disk)
    requires
        same_kinds(a, b),
        same_kinds(b, c),
    ensures
        same_kinds(a, c),
{
    assert forall|id: FileId| #[trigger] a.objects.contains_key(id) implies c.objects[id].kind()
        == a.objects[id].kind() by {
        assert(b.objects.contains_key(id));
    }
}

/// What a power loss leaves of a settled disk differs from it in `scratch` only.
pub proof fn lemma_left_is_kin(d: Disk, f: Seq<Fate>, scratch: Set<FileId>)
    requires
        firm(d, scratch),
        possible(d.pending, f),
    ensures
        kin(d, left_with(d, f), scratch),
{
    lemma_firm_survives(d, scratch, f);
}

/// Where case matters, the steps of a wave of a valid plan are not entangled.
pub proof fn lemma_valid_untangled(d: Disk, p: PlanView)
    requires
        p.valid(),
        !d.folds,
    ensures
        waves_untangled(d, p),
{
    assert forall|w: int, i: int, j: int, l: LocView, m: LocView|
        #![trigger p.is_endpoint(p.waves[w][i], l), p.is_endpoint(p.waves[w][j], m)]
        p.has(w, i) && p.has(w, j) && i != j && p.is_endpoint(p.waves[w][i], l) && p.is_endpoint(
            p.waves[w][j],
            m,
        ) implies !entangled(d, l.path, m.path) by {
        assert(p.wave_apart(w));
        let (x, y) = (p.waves[w][i], p.waves[w][j]);
        assert(i < j ==> p.steps_apart(x, y));
        assert(j < i ==> p.steps_apart(y, x));
        assert(!overlapping(l.path, m.path) || !overlapping(m.path, l.path));
        if goes_through(d, l.path, m.path) {
            lemma_through_is_prefix(d, l.path, m.path);
        }
        if goes_through(d, m.path, l.path) {
            lemma_through_is_prefix(d, m.path, l.path);
        }
    }
}

proof fn lemma_through_is_prefix(d: Disk, a: PathView, b: PathView)
    requires
        !d.folds,
        goes_through(d, a, b),
    ensures
        overlapping(a, b),
        overlapping(b, a),
{
    let j = choose|j: int| 0 < j <= a.len() && alike_paths(d, b, #[trigger] a.take(j));
    assert forall|i: int| 0 <= i < b.len() implies b[i] == a.take(j)[i] by {
        assert(alike(d, b[i], a.take(j)[i]));
    }
    assert(b =~= a.take(j));
    if j == a.len() {
        assert(a.take(j) =~= a);
    }
}

/// Every token at one location.
pub open spec fn ats(v: Positions) -> Seq<Pos> {
    Seq::new(v.len(), |t: int| Pos::At(v[t] as usize))
}

/// The steps of a wave as turns forward.
pub open spec fn forward(wave: Seq<Step>) -> Seq<Turn> {
    wave.map_values(|s: Step| Turn::Forward(s))
}

/// The positions after a wave: a token that it moves is one further, others are where they were.
proof fn lemma_advance(p: PlanView, pos: Positions, wave: Seq<Step>, u: int)
    requires
        0 <= u < pos.len() == p.tokens.len(),
        forall|i: int| 0 <= i < wave.len() ==> p.names_move(#[trigger] wave[i]) && pos[wave[i].token as int] == wave[i].from,
    ensures
        advance(pos, wave).len() == pos.len(),
        (exists|i: int| 0 <= i < wave.len() && (#[trigger] wave[i]).token == u) ==> advance(pos, wave)[u] == pos[u] + 1,
        (forall|i: int| 0 <= i < wave.len() ==> (#[trigger] wave[i]).token != u) ==> advance(pos, wave)[u] == pos[u],
    decreases wave.len(),
{
    if wave.len() > 0 {
        let rest = wave.drop_last();
        assert forall|i: int| 0 <= i < rest.len() implies p.names_move(#[trigger] rest[i]) && pos[rest[i].token as int]
            == rest[i].from by {
            assert(rest[i] == wave[i]);
        }
        lemma_advance(p, pos, rest, u);
        let last = wave[wave.len() - 1];
        assert(p.names_move(last));
        if last.token != u {
            if exists|i: int| 0 <= i < wave.len() && (#[trigger] wave[i]).token == u {
                let i = choose|i: int| 0 <= i < wave.len() && (#[trigger] wave[i]).token == u;
                assert(rest[i].token == u);
            } else {
                assert forall|i: int| 0 <= i < rest.len() implies (#[trigger] rest[i]).token != u by {
                    assert(rest[i] == wave[i]);
                }
            }
        }
    }
}

/// The steps of a wave find their tokens where the earlier waves left them.
pub proof fn lemma_wave_starts(p: PlanView, w: int)
    requires
        p.valid(),
        0 <= w < p.waves.len(),
    ensures
        forall|i: int|
            0 <= i < p.waves[w].len() ==> p.names_move(#[trigger] p.waves[w][i]) && p.positions(
                w,
            )[p.waves[w][i].token as int] == p.waves[w][i].from,
{
    assert forall|i: int| 0 <= i < p.waves[w].len() implies p.names_move(#[trigger] p.waves[w][i]) && p.positions(
        w,
    )[p.waves[w][i].token as int] == p.waves[w][i].from by {
        assert(p.has(w, i));
        assert(p.wave_ready(w));
        assert(p.step_ready(p.positions(w), p.waves[w][i]));
    }
}

/// Tokens only ever move on.
proof fn lemma_positions_grow(p: PlanView, v: int, w: int, t: int)
    requires
        p.valid(),
        p.has_locations(),
        0 <= v <= w <= p.waves.len(),
        0 <= t < p.tokens.len(),
    ensures
        p.positions(v)[t] <= p.positions(w)[t],
        p.positions(w).len() == p.tokens.len(),
    decreases w - v,
{
    lemma_positions_in_range(p, w);
    if v < w {
        lemma_positions_grow(p, v, w - 1, t);
        lemma_positions_in_range(p, w - 1);
        lemma_wave_starts(p, w - 1);
        let wave = p.waves[w - 1];
        lemma_advance(p, p.positions(w - 1), wave, t);
        if !(exists|i: int| 0 <= i < wave.len() && (#[trigger] wave[i]).token == t) {
            assert(forall|i: int| 0 <= i < wave.len() ==> (#[trigger] wave[i]).token != t);
        }
    }
}

/// A step of wave `v` leaves its token where it starts until then, and beyond it afterwards.
pub proof fn lemma_step_passed(p: PlanView, v: int, i: int, w: int)
    requires
        p.valid(),
        p.has_locations(),
        p.has(v, i),
        0 <= w <= p.waves.len(),
    ensures
        ({
            let s = p.waves[v][i];
            &&& s.token < p.tokens.len()
            &&& v < w ==> p.positions(w)[s.token as int] > s.from
            &&& w <= v ==> p.positions(w)[s.token as int] <= s.from
        }),
{
    let s = p.waves[v][i];
    let t = s.token as int;
    lemma_wave_starts(p, v);
    assert(p.names_move(p.waves[v][i]));
    if v < w {
        lemma_positions_in_range(p, v);
        lemma_advance(p, p.positions(v), p.waves[v], t);
        assert(p.waves[v][i].token == t);
        assert(p.positions(v + 1) == advance(p.positions(v), p.waves[v]));
        lemma_positions_grow(p, v + 1, w, t);
    } else {
        lemma_positions_grow(p, w, v, t);
    }
}

/// The steps of a wave, taken forward, are side by side.
pub proof fn lemma_forward_side_by_side(d0: Disk, d: Disk, p: PlanView, w: int)
    requires
        fitting(d0, p),
        same_volume(d0, d),
        0 <= w < p.waves.len(),
    ensures
        side_by_side(d, p, forward(p.waves[w]), ats(p.positions(w))),
        positions_fit(p, ats(p.positions(w))),
{
    let wave = p.waves[w];
    let turns = forward(wave);
    let pos = ats(p.positions(w));
    assert(p.has_locations());
    lemma_positions_in_range(p, w);
    lemma_wave_starts(p, w);
    if !d0.folds {
        lemma_valid_untangled(d0, p);
    }
    assert forall|t: int| 0 <= t < pos.len() implies pos_fits(p, t, #[trigger] pos[t]) by {
        assert(0 <= p.positions(w)[t] < p.tokens[t].locs.len());
    }
    assert forall|i: int| #![trigger turns[i]] 0 <= i < turns.len() && !(turns[i] is Rest) implies p.names_move(
        turns[i].step(),
    ) && turns[i].step().from < usize::MAX && pos[turns[i].step().token as int] == turns[i].was()
        && turns[i].leads_out(d, p) by {
        let s = wave[i];
        assert(p.has(w, i) && p.waves[w][i] == s);
        assert(p.names_move(p.waves[w][i]));
        assert(p.tokens[s.token as int].locs.len() <= usize::MAX);
        lemma_same_tangle(d0, d, p.src(s).path, p.dst(s).path);
    }
    assert forall|i: int, j: int|
        #![trigger turns[i], turns[j]]
        0 <= i < j < turns.len() && !(turns[i] is Rest) && !(turns[j] is Rest) implies turns[i].step().token
        != turns[j].step().token by {
        assert(p.has(w, i) && p.has(w, j));
        let (x, y) = (p.waves[w][i], p.waves[w][j]);
        assert(p.names_move(x) && p.names_move(y));
        if x.token == y.token {
            assert(x == y);
        }
    }
    assert forall|i: int, j: int, l: LocView, m: LocView|
        #![trigger turns[i].concerns(p, l), turns[j].concerns(p, m)]
        0 <= i < j < turns.len() && turns[i].concerns(p, l) && turns[j].concerns(p, m) implies !entangled(
        d,
        l.path,
        m.path,
    ) by {
        assert(p.has(w, i) && p.has(w, j));
        assert(p.is_endpoint(p.waves[w][i], l) && p.is_endpoint(p.waves[w][j], m));
        lemma_same_tangle(d0, d, l.path, m.path);
    }
}

/// Paths are entangled or not on all states of one filesystem alike.
pub proof fn lemma_same_tangle(a: Disk, b: Disk, x: PathView, y: PathView)
    requires
        a.folds == b.folds,
    ensures
        entangled(a, x, y) == entangled(b, x, y),
{
    crate::turns::lemma_same_entanglement(a, b, x, y);
    crate::turns::lemma_same_entanglement(a, b, y, x);
}

/// Steps lead out, and the steps of a wave are apart, on all states of one filesystem alike.
pub proof fn lemma_untangled_alike(a: Disk, b: Disk, p: PlanView)
    requires
        a.folds == b.folds,
        steps_lead_out(a, p),
        a.folds ==> waves_untangled(a, p),
        undisturbed(a, p),
    ensures
        steps_lead_out(b, p),
        b.folds ==> waves_untangled(b, p),
        undisturbed(b, p),
{
    assert forall|w: int, i: int, t: int, m: LocView|
        #![trigger p.is_endpoint(p.waves[w][i], m), p.tokens[t]]
        p.has(w, i) && 0 <= t < p.tokens.len() && !moves_token(p, w, t) && p.is_endpoint(
            p.waves[w][i],
            m,
        ) implies !goes_through(b, p.tokens[t].locs[p.positions(w)[t]].path, m.path) by {
        crate::turns::lemma_same_entanglement(a, b, p.tokens[t].locs[p.positions(w)[t]].path, m.path);
    }
    assert forall|w: int, i: int| #![trigger p.waves[w][i]] p.has(w, i) implies !entangled(
        b,
        p.src(p.waves[w][i]).path,
        p.dst(p.waves[w][i]).path,
    ) by {
        lemma_same_tangle(a, b, p.src(p.waves[w][i]).path, p.dst(p.waves[w][i]).path);
    }
    if b.folds {
        assert forall|w: int, i: int, j: int, l: LocView, m: LocView|
            #![trigger p.is_endpoint(p.waves[w][i], l), p.is_endpoint(p.waves[w][j], m)]
            p.has(w, i) && p.has(w, j) && i != j && p.is_endpoint(p.waves[w][i], l) && p.is_endpoint(
                p.waves[w][j],
                m,
            ) implies !entangled(b, l.path, m.path) by {
            lemma_same_tangle(a, b, l.path, m.path);
        }
    }
}

/// The states that the first `n` steps of a wave went through.
pub proof fn lemma_steps_chain(a: Disk, b: Disk, p: PlanView, wave: Seq<Step>, n: int) -> (disks: Seq<Disk>)
    requires
        0 <= n <= wave.len(),
        steps_taken(a, b, p, wave, n),
    ensures
        disks[0] == a,
        disks[n] == b,
        taken_in_turn(disks, p, forward(wave.take(n))),
    decreases n,
{
    if n == 0 {
        assert(forward(wave.take(0)).len() == 0);
        seq![a]
    } else {
        let m = choose|m: Disk| steps_taken(a, m, p, wave, n - 1) && #[trigger] step_taken(m, b, p, wave[n - 1]);
        let before = lemma_steps_chain(a, m, p, wave, n - 1);
        let disks = before.push(b);
        let turns = forward(wave.take(n));
        let earlier = forward(wave.take(n - 1));
        assert forall|i: int| 0 <= i < turns.len() implies (#[trigger] turns[i]).done(disks[i], disks[i + 1], p) by {
            if i < n - 1 {
                assert(turns[i] == earlier[i]);
                assert(earlier[i].done(before[i], before[i + 1], p));
            }
        }
        disks
    }
}

/// Side by side holds of the first turns, too.
pub proof fn lemma_fewer_side_by_side(d: Disk, p: PlanView, wave: Seq<Step>, n: int, pos: Seq<Pos>)
    requires
        side_by_side(d, p, forward(wave), pos),
        0 <= n <= wave.len(),
    ensures
        side_by_side(d, p, forward(wave.take(n)), pos),
{
    let all = forward(wave);
    let some = forward(wave.take(n));
    assert forall|i: int| 0 <= i < some.len() implies #[trigger] some[i] == all[i] by {}
    assert forall|i: int, j: int, l: LocView, m: LocView|
        #![trigger some[i].concerns(p, l), some[j].concerns(p, m)]
        0 <= i < j < some.len() && some[i].concerns(p, l) && some[j].concerns(p, m) implies !entangled(
        d,
        l.path,
        m.path,
    ) by {
        assert(all[i].concerns(p, l) && all[j].concerns(p, m));
    }
}

/// Appending to the log and syncing it changes no name, no kind and nothing that is pending.
pub proof fn lemma_logged(a: Disk, b: Disk, tx: TxDir, r: Record)
    requires
        a.well_formed(),
        logged(a, b, tx, r),
    ensures
        only_log_changed(a, b, tx.at().push(progress_name())),
        b.well_formed(),
{
    let at = tx.at().push(progress_name());
    let mid = choose|mid: Disk| #[trigger]
        appended_at(a, mid, at, crate::progress::record_bytes(r)) && file_synced_at(mid, b, at);
    crate::recover::lemma_appended(a, mid, b, at, crate::progress::record_bytes(r));
    lemma_log_well_formed(a, b, at);
}

/// Changing the log leaves a disk settled.
pub proof fn lemma_settled_logged(a: Disk, b: Disk, p: PlanView, at: PathView, scratch: Set<FileId>)
    requires
        settled(a, p, scratch),
        only_log_changed(a, b, at),
    ensures
        settled(b, p, scratch),
{
    assert(sturdy(b)) by {
        assert forall|f: Seq<Fate>| possible(b.pending, f) implies (#[trigger] left_with(b, f)).well_formed() by {
            assert(left_with(a, f).well_formed());
            lemma_well_formed_by_names(left_with(a, f), left_with(b, f));
        }
    }
}

/// Changing the log keeps a disk well-formed.
pub proof fn lemma_log_well_formed(a: Disk, b: Disk, at: PathView)
    requires
        a.well_formed(),
        only_log_changed(a, b, at),
    ensures
        b.well_formed(),
        forall|id: FileId| #[trigger] b.is_dir(id) == a.is_dir(id),
{
    assert forall|id: FileId| #[trigger] b.is_dir(id) == a.is_dir(id) by {
        assert(b.objects.contains_key(id) == a.objects.contains_key(id));
        if a.objects.contains_key(id) {
            crate::tree::lemma_kind_dir(a.objects[id], b.objects[id]);
        }
    }
    assert forall|k: Key| #[trigger] b.names.contains_key(k) implies b.is_dir(k.dir) && b.objects.contains_key(
        b.names[k],
    ) && b.names[k] != b.root by {
        assert(a.names.contains_key(k));
        assert(a.objects.contains_key(a.names[k]));
    }
}

/// The two states have the same objects, of the same kinds.
pub open spec fn same_kinds(a: Disk, b: Disk) -> bool {
    &&& b.objects.dom() == a.objects.dom()
    &&& forall|id: FileId| #[trigger] a.objects.contains_key(id) ==> b.objects[id].kind() == a.objects[id].kind()
}

/// The disk `d` is `d0` with the tokens at `pos`: they are at steps of their ways in the shape
/// that a crash can leave, and everything else is in its place.
pub open spec fn scattered(d0: Disk, d: Disk, p: PlanView, pos: Seq<Pos>) -> bool {
    &&& d.well_formed()
    &&& same_volume(d0, d)
    &&& same_kinds(d0, d)
    &&& positions_fit(p, pos)
    &&& has_shape(p, pos)
    &&& rearranged(d0, d, p, home(p), pos)
    &&& tokens_in_place(d, p, pos)
}

/// Every token that wave `w` moves is at an end of its step or at both, and every other token
/// is where the earlier waves left it.
pub open spec fn on_level(p: PlanView, w: int, x: Seq<Pos>) -> bool {
    &&& x.len() == p.tokens.len()
    &&& forall|j: int|
        p.has(w, j) ==> {
            let s = #[trigger] p.waves[w][j];
            x[s.token as int] == Pos::At(s.from) || x[s.token as int] == Pos::At((s.from + 1) as usize)
                || x[s.token as int] == Pos::Both(s.from)
        }
    &&& forall|t: int|
        0 <= t < p.tokens.len() && !(#[trigger] moves_token(p, w, t)) ==> x[t] == Pos::At(p.positions(w)[t] as usize)
}

/// The turns are about the steps of wave `w`, in order.
pub open spec fn about_wave(p: PlanView, w: int, turns: Seq<Turn>) -> bool {
    &&& turns.len() <= p.waves[w].len()
    &&& forall|j: int| 0 <= j < turns.len() && !(#[trigger] turns[j] is Rest) ==> turns[j].step() == p.waves[w][j]
}

/// A token for which no turn has been taken yet is not in the way of those that have.
proof fn lemma_clear_of_turns(base: Disk, d: Disk, p: PlanView, w: int, turns: Seq<Turn>, x: Seq<Pos>, u: int, l: LocView, i: int, m: LocView)
    requires
        fitting(base, p),
        same_volume(base, d),
        0 <= w < p.waves.len(),
        about_wave(p, w, turns),
        on_level(p, w, x),
        0 <= u < x.len(),
        rests_at(p, u, x[u], l),
        0 <= i < turns.len(),
        turns[i].concerns(p, m),
        turns[i].step().token != u,
    ensures
        !goes_through(d, l.path, m.path),
{
    assert(turns[i].step() == p.waves[w][i]);
    assert(p.has(w, i));
    assert(p.is_endpoint(p.waves[w][i], m));
    crate::turns::lemma_same_entanglement(base, d, l.path, m.path);
    if moves_token(p, w, u) {
        let j = choose|j: int| p.has(w, j) && (#[trigger] p.waves[w][j]).token == u;
        assert(p.names_move(p.waves[w][j]));
        assert(p.tokens[u].locs.len() <= usize::MAX);
        assert(p.is_endpoint(p.waves[w][j], l));
        assert(i != j);
        if !base.folds {
            lemma_valid_untangled(base, p);
        }
        assert(!entangled(base, l.path, m.path));
    } else {
        assert(p.has_locations());
        lemma_positions_in_range(p, w);
        assert(x[u] == Pos::At(p.positions(w)[u] as usize));
        assert(0 <= p.positions(w)[u] < p.tokens[u].locs.len());
        assert(p.tokens[u].locs.len() <= usize::MAX);
        assert(l == p.tokens[u].locs[p.positions(w)[u]]);
    }
}

/// Whichever changes of a wave come out, every token has its parents in place.
pub proof fn lemma_tokens_stay_in_place(
    base: Disk,
    disks: Seq<Disk>,
    p: PlanView,
    w: int,
    turns: Seq<Turn>,
    x: Seq<Pos>,
    scratch: Set<FileId>,
    n: int,
    f: Seq<Fate>,
    c: Seq<Pos>,
    e: Disk,
)
    requires
        fitting(base, p),
        0 <= w < p.waves.len(),
        taken_in_turn(disks, p, turns),
        disks[0].well_formed(),
        same_volume(base, disks[0]),
        settled(disks[0], p, scratch),
        side_by_side(disks[0], p, turns, x),
        about_wave(p, w, turns),
        on_level(p, w, x),
        tokens_in_place(disks[0], p, x),
        n == turns.len(),
        possible(disks[n].pending, f),
        left_of(disks, n, f).well_formed(),
        e.names == left_of(disks, n, f).names,
        same_volume(base, e),
        same_kinds(disks[0], e),
        c.len() == x.len(),
        forall|u: int| 0 <= u < c.len() ==> #[trigger] turned(turns, n, x, c, u),
    ensures
        tokens_in_place(e, p, c),
{
    let left = left_of(disks, n, f);
    assert forall|u: int, l: LocView| #![trigger rests_at(p, u, c[u], l)] 0 <= u < c.len() && rests_at(
        p,
        u,
        c[u],
        l,
    ) implies in_place(e, l) by {
        assert(turned(turns, n, x, c, u));
        if exists|j: int| 0 <= j < n && !(#[trigger] turns[j] is Rest) && turns[j].step().token == u {
            let j = choose|j: int| 0 <= j < n && !(#[trigger] turns[j] is Rest) && turns[j].step().token == u;
            assert(turns[j].step() == p.waves[w][j]);
            assert(turns[j].concerns(p, l)) by {
                assert(p.names_move(turns[j].step()));
                if c[u] != x[u] {
                    let (i, g) = choose|i: int, g: Fate|
                        0 <= i < n && !(turns[i] is Rest) && turns[i].step().token == u && c[u]
                            == #[trigger] turns[i].leaves(g);
                    assert(i < j ==> turns[i].step().token != turns[j].step().token);
                    assert(j < i ==> turns[j].step().token != turns[i].step().token);
                    assert(i == j);
                } else {
                    assert(x[u] == turns[j].was());
                }
            }
            lemma_stays_in_place(disks, p, turns, x, scratch, n, f, j, l, e);
        } else {
            if c[u] != x[u] {
                let (i, g) = choose|i: int, g: Fate|
                    0 <= i < n && !(turns[i] is Rest) && turns[i].step().token == u && c[u] == #[trigger] turns[i].leaves(
                        g,
                    );
                assert(!(turns[i] is Rest) && turns[i].step().token == u);
            }
            assert(rests_at(p, u, x[u], l));
            assert forall|i: int, m: LocView| 0 <= i < n && #[trigger] turns[i].concerns(p, m) implies !goes_through(
                disks[0],
                l.path,
                m.path,
            ) by {
                assert(!(turns[i] is Rest));
                lemma_clear_of_turns(base, disks[0], p, w, turns, x, u, l, i, m);
            }
            crate::turns::lemma_bystander_survives(disks, p, turns, x, scratch, n, f, l);
            lemma_in_place_by_names(left, e, l);
        }
    }
}

/// Tokens stay in place as long as the names and the kinds of objects stay.
pub proof fn lemma_tokens_by_names(a: Disk, b: Disk, p: PlanView, x: Seq<Pos>)
    requires
        a.well_formed(),
        a.names == b.names,
        same_volume(a, b),
        same_kinds(a, b),
        tokens_in_place(a, p, x),
    ensures
        tokens_in_place(b, p, x),
{
    assert forall|u: int, l: LocView| #![trigger rests_at(p, u, x[u], l)] 0 <= u < x.len() && rests_at(
        p,
        u,
        x[u],
        l,
    ) implies in_place(b, l) by {
        lemma_in_place_by_names(a, b, l);
    }
}

/// Before a wave, the tokens are on its level.
proof fn lemma_forward_level(p: PlanView, w: int)
    requires
        p.valid(),
        p.has_locations(),
        0 <= w < p.waves.len(),
    ensures
        on_level(p, w, ats(p.positions(w))),
{
    lemma_positions_in_range(p, w);
    lemma_wave_starts(p, w);
    assert forall|j: int| p.has(w, j) implies {
        let s = #[trigger] p.waves[w][j];
        ats(p.positions(w))[s.token as int] == Pos::At(s.from)
    } by {
        assert(p.names_move(p.waves[w][j]));
    }
}

/// When all changes come out, so do the earlier ones.
pub proof fn lemma_all_come_out(a: Disk, m: Disk, f: Seq<Fate>)
    requires
        consistent(a),
        f == all_apply(m.pending.len()),
        a.pending.len() <= m.pending.len(),
    ensures
        possible(m.pending, f),
        left_with(a, f.take(a.pending.len() as int)) == a,
        f.skip(a.pending.len() as int) == all_apply((f.len() - a.pending.len()) as nat),
{
    let len = a.pending.len() as int;
    assert(f.take(len) =~= all_apply(len as nat));
    assert(f.skip(len) =~= all_apply((f.len() - len) as nat));
}

/// A whole wave, forward: the tokens are where it leads, and all names are durable.
pub proof fn lemma_wave_forward(d0: Disk, a: Disk, b: Disk, tx: TxDir, p: PlanView, w: int, scratch: Set<FileId>)
    requires
        sound_start(d0, p, scratch),
        0 <= w < p.waves.len(),
        a.well_formed(),
        settled(a, p, scratch),
        same_volume(d0, a),
        same_kinds(d0, a),
        rearranged(d0, a, p, home(p), ats(p.positions(w))),
        tokens_in_place(a, p, ats(p.positions(w))),
        wave_settled(a, b, p, w),
    ensures
        b.well_formed(),
        settled(b, p, scratch),
        same_volume(d0, b),
        same_kinds(d0, b),
        rearranged(d0, b, p, home(p), ats(p.positions(w + 1))),
        tokens_in_place(b, p, ats(p.positions(w + 1))),
{
    let wave = p.waves[w];
    let n = wave.len() as int;
    let pos = ats(p.positions(w));
    let m = choose|m: Disk| #[trigger] steps_taken(a, m, p, wave, n) && parents_synced(m, b, wave_ends(p, wave));
    let dirs = choose|dirs: Seq<FileId>|
        b == #[trigger] synced_all(m, dirs) && forall|l: LocView| #[trigger]
            wave_ends(p, wave).contains(l) ==> crate::recover::parent_covered(m, l, dirs);
    let disks = lemma_steps_chain(a, m, p, wave, n);
    assert(wave.take(n) =~= wave);
    let turns = forward(wave);
    assert(p.has_locations());
    lemma_forward_side_by_side(d0, a, p, w);
    lemma_lead_away(d0, a, p);
    lemma_chain(disks, p, turns, n);
    lemma_synced_all(m, dirs);
    assert forall|i: int, l: LocView|
        0 <= i < turns.len() && #[trigger] turns[i].concerns(p, l) implies crate::recover::parent_covered(
        disks[turns.len() as int],
        l,
        dirs,
    ) by {
        assert(p.is_endpoint(wave[i], l));
        assert(wave_ends(p, wave).contains(l));
    }
    lemma_wave_firm(disks, p, turns, pos, scratch, dirs);
    lemma_chain_secluded(disks, p, turns, pos, scratch, n);
    let f = all_apply(m.pending.len());
    lemma_all_come_out(a, m, f);
    let c = lemma_cut(disks, p, turns, pos, scratch, n, f, d0, home(p));
    lemma_rearranged_by_names(d0, left_of(disks, n, f), b, p, home(p), c);
    lemma_forward_level(p, w);
    lemma_tokens_stay_in_place(d0, disks, p, w, turns, pos, scratch, n, f, c, b);
    lemma_positions_in_range(p, w);
    lemma_positions_in_range(p, w + 1);
    lemma_wave_starts(p, w);
    assert(c =~= ats(p.positions(w + 1))) by {
        assert forall|u: int| 0 <= u < c.len() implies c[u] == ats(p.positions(w + 1))[u] by {
            lemma_advance(p, p.positions(w), wave, u);
            assert(turned(turns, n, pos, c, u));
            if exists|i: int| 0 <= i < wave.len() && (#[trigger] wave[i]).token == u {
                let i = choose|i: int| 0 <= i < wave.len() && (#[trigger] wave[i]).token == u;
                assert(p.names_move(p.waves[w][i]));
                assert(c[turns[i].step().token as int] == turns[i].leaves(Fate::Apply));
            } else {
                assert(forall|i: int| 0 <= i < wave.len() ==> (#[trigger] wave[i]).token != u);
                if c[u] != pos[u] {
                    let (i, g) = choose|i: int, g: Fate|
                        0 <= i < n && !(turns[i] is Rest) && turns[i].step().token == u && c[u]
                            == #[trigger] turns[i].leaves(g);
                    assert(wave[i].token == u);
                }
            }
        }
    }
}

/// Steps lead away on all states of one filesystem alike.
pub proof fn lemma_lead_away(a: Disk, b: Disk, p: PlanView)
    requires
        steps_lead_away(a, p),
        a.folds == b.folds,
    ensures
        steps_lead_away(b, p),
{
    assert forall|t: int, i: int|
        #![trigger p.tokens[t].locs[i]]
        0 <= t < p.tokens.len() && 0 <= i < p.tokens[t].locs.len() - 1 implies !same_place(
        b,
        p.tokens[t].locs[i],
        p.tokens[t].locs[i + 1],
    ) by {
        assert(!same_place(a, p.tokens[t].locs[i], p.tokens[t].locs[i + 1]));
    }
}

/// After `w` waves every token is where they lead, and all names are durable.
pub proof fn lemma_waves_forward(d0: Disk, d: Disk, tx: TxDir, p: PlanView, w: int, scratch: Set<FileId>)
    requires
        sound_start(d0, p, scratch),
        0 <= w <= p.waves.len(),
        waves_applied(d0, d, tx, p, w),
    ensures
        d.well_formed(),
        settled(d, p, scratch),
        same_volume(d0, d),
        same_kinds(d0, d),
        rearranged(d0, d, p, home(p), ats(p.positions(w))),
        tokens_in_place(d, p, ats(p.positions(w))),
    decreases w,
{
    if w == 0 {
        lemma_not_rearranged(d0, p, home(p));
        assert(home(p) =~= ats(p.positions(0)));
    } else {
        let m = choose|m: Disk| waves_applied(d0, m, tx, p, w - 1) && #[trigger] wave_applied(m, d, tx, p, w - 1);
        lemma_waves_forward(d0, m, tx, p, w - 1, scratch);
        let s = choose|s: Disk| #[trigger] wave_settled(m, s, p, w - 1) && logged(s, d, tx, Record::ApplyDone((w - 1) as u32));
        lemma_wave_forward(d0, m, s, tx, p, w - 1, scratch);
        lemma_logged(s, d, tx, Record::ApplyDone((w - 1) as u32));
        lemma_settled_logged(s, d, p, tx.at().push(progress_name()), scratch);
        lemma_rearranged_by_names(d0, s, d, p, home(p), ats(p.positions(w)));
        lemma_tokens_by_names(s, d, p, ats(p.positions(w)));
    }
}

/// Whether a disk is well-formed depends on its names and the kinds of its objects.
pub proof fn lemma_well_formed_by_names(a: Disk, b: Disk)
    requires
        a.well_formed(),
        a.names == b.names,
        same_volume(a, b),
        same_kinds(a, b),
    ensures
        b.well_formed(),
        forall|id: FileId| #[trigger] a.is_dir(id) == b.is_dir(id),
{
    assert forall|id: FileId| #[trigger] a.is_dir(id) == b.is_dir(id) by {
        assert(b.objects.contains_key(id) == a.objects.contains_key(id));
        if a.objects.contains_key(id) {
            crate::tree::lemma_kind_dir(a.objects[id], b.objects[id]);
        }
    }
    assert forall|k: Key| #[trigger] b.names.contains_key(k) implies b.is_dir(k.dir) && b.objects.contains_key(
        b.names[k],
    ) && b.names[k] != b.root by {
        assert(a.names.contains_key(k));
        assert(a.is_dir(k.dir) && a.objects.contains_key(a.names[k]));
    }
    assert(b.is_dir(b.root) == a.is_dir(a.root));
}

/// Kinds are the same across two steps.
pub proof fn lemma_same_kinds(a: Disk, b: Disk, c: Disk)
    requires
        same_kinds(a, b),
        same_kinds(a, c),
    ensures
        same_kinds(b, c),
{
    assert forall|id: FileId| #[trigger] b.objects.contains_key(id) implies c.objects[id].kind()
        == b.objects[id].kind() by {
        assert(a.objects.contains_key(id));
    }
}

/// Tokens that are where the earlier waves left them, or at the step of wave `w` that moves
/// them, have the shape that a crash can leave.
proof fn lemma_shape(p: PlanView, w: int, c: Seq<Pos>)
    requires
        p.valid(),
        countable(p),
        0 <= w <= p.waves.len(),
        positions_fit(p, c),
        forall|u: int|
            0 <= u < c.len() ==> (#[trigger] c[u] == Pos::At(p.positions(w)[u] as usize) || (w < p.waves.len()
                && exists|i: int|
                0 <= i < p.waves[w].len() && (#[trigger] p.waves[w][i]).token == u && (c[u] == Pos::At(
                    (p.waves[w][i].from + 1) as usize,
                ) || c[u] == Pos::Both(p.waves[w][i].from)))),
    ensures
        shape_at(p, c, w),
{
    assert(p.has_locations());
    lemma_positions_in_range(p, w);
    assert forall|v: int, j: int| p.has(v, j) && v != w implies (v < w ==> #[trigger] state_at(p, c, v, j)
        == StepState::Post) && (w < v ==> state_at(p, c, v, j) == StepState::Pre) by {
        let s = p.waves[v][j];
        let u = s.token as int;
        assert(p.names_move(p.waves[v][j]));
        lemma_step_passed(p, v, j, w);
        assert(p.tokens[u].locs.len() <= usize::MAX);
        assert(0 <= p.positions(w)[u] < p.tokens[u].locs.len());
        if c[u] != Pos::At(p.positions(w)[u] as usize) {
            let i = choose|i: int|
                0 <= i < p.waves[w].len() && (#[trigger] p.waves[w][i]).token == u && (c[u] == Pos::At(
                    (p.waves[w][i].from + 1) as usize,
                ) || c[u] == Pos::Both(p.waves[w][i].from));
            lemma_wave_starts(p, w);
            assert(p.names_move(p.waves[w][i]));
            assert(p.positions(w)[u] == p.waves[w][i].from);
            if w < v {
                lemma_step_passed(p, v, j, w + 1);
                lemma_step_passed(p, w, i, w + 1);
            }
        }
    }
    assert forall|v: int| 0 <= v < w && v < p.waves.len() implies #[trigger] wave_done(p, c, v) by {
        assert forall|j: int| 0 <= j < p.waves[v].len() implies #[trigger] state_at(p, c, v, j) == StepState::Post by {
            assert(p.has(v, j));
        }
    }
    assert forall|v: int| w < v < p.waves.len() implies #[trigger] wave_untouched(p, c, v) by {
        assert forall|j: int| 0 <= j < p.waves[v].len() implies #[trigger] state_at(p, c, v, j) == StepState::Pre by {
            assert(p.has(v, j));
        }
    }
}

/// The tokens are at steps of their ways on the disk `d`, and everything else is where it was on
/// the disk `d0`, but for names in `scratch`.
pub open spec fn strewn(d0: Disk, d: Disk, p: PlanView, scratch: Set<FileId>) -> bool {
    exists|base: Disk, pos: Seq<Pos>| #[trigger] scattered(base, d, p, pos) && kin(d0, base, scratch)
}

/// So they are, with all waves before `w` done and all after it untouched.
pub open spec fn strewn_at(d0: Disk, d: Disk, p: PlanView, scratch: Set<FileId>, w: int) -> bool {
    exists|base: Disk, pos: Seq<Pos>| #[trigger]
        scattered(base, d, p, pos) && kin(d0, base, scratch) && shape_at(p, pos, w)
}

/// A wave of which `n` steps have been taken, with some of them having come out.
proof fn lemma_forward_cut(
    d0: Disk,
    a: Disk,
    z: Disk,
    e: Disk,
    p: PlanView,
    w: int,
    n: int,
    f: Seq<Fate>,
    scratch: Set<FileId>,
)
    requires
        sound_start(d0, p, scratch),
        0 <= w < p.waves.len(),
        a.well_formed(),
        settled(a, p, scratch),
        same_volume(d0, a),
        same_kinds(d0, a),
        rearranged(d0, a, p, home(p), ats(p.positions(w))),
        tokens_in_place(a, p, ats(p.positions(w))),
        0 <= n <= p.waves[w].len(),
        steps_taken(a, z, p, p.waves[w], n),
        possible(z.pending, f),
        e.names == survivors(z.durable, z.pending, f),
        same_volume(d0, e),
        same_kinds(d0, e),
    ensures
        strewn_at(d0, e, p, scratch, w),
{
    let wave = p.waves[w];
    let some = wave.take(n);
    let turns = forward(some);
    let pos = ats(p.positions(w));
    assert(p.has_locations());
    lemma_positions_in_range(p, w);
    let disks = lemma_steps_chain(a, z, p, wave, n);
    lemma_forward_side_by_side(d0, a, p, w);
    lemma_fewer_side_by_side(a, p, wave, n, pos);
    lemma_lead_away(d0, a, p);
    lemma_chain(disks, p, turns, n);
    let g = earlier(disks, f);
    lemma_survivors_from(a.durable, z.pending, f, a.pending.len() as int);
    lemma_left_is_kin(a, g, scratch);
    lemma_rebased(d0, a, left_with(a, g), p, pos, scratch);
    let base = rebased(d0, left_with(a, g), scratch);
    let c = lemma_cut(disks, p, turns, pos, scratch, n, f, base, home(p));
    let left = left_of(disks, n, f);
    lemma_same_kinds(d0, left, e);
    lemma_well_formed_by_names(left, e);
    lemma_rearranged_by_names(base, left, e, p, home(p), c);
    assert forall|u: int| 0 <= u < c.len() implies (#[trigger] c[u] == Pos::At(p.positions(w)[u] as usize) || (w
        < p.waves.len() && exists|i: int|
        0 <= i < p.waves[w].len() && (#[trigger] p.waves[w][i]).token == u && (c[u] == Pos::At(
            (p.waves[w][i].from + 1) as usize,
        ) || c[u] == Pos::Both(p.waves[w][i].from)))) by {
        assert(turned(turns, n, pos, c, u));
        if c[u] != pos[u] {
            let (i, g) = choose|i: int, g: Fate|
                0 <= i < n && !(turns[i] is Rest) && turns[i].step().token == u && c[u] == #[trigger] turns[i].leaves(
                    g,
                );
            assert(p.waves[w][i].token == u);
            assert(turns[i] == Turn::Forward(p.waves[w][i]));
            assert(turns[i].was() == pos[u]);
        }
    }
    lemma_shape(p, w, c);
    lemma_forward_level(p, w);
    lemma_same_kinds(d0, a, e);
    lemma_tokens_stay_in_place(d0, disks, p, w, turns, pos, scratch, n, f, c, e);
    lemma_same_kinds(d0, base, e);
    assert(scattered(base, e, p, c) && kin(d0, base, scratch));
}

/// The parent of a place that a turn concerns is in place, whatever comes out.
pub proof fn lemma_stays_in_place(
    disks: Seq<Disk>,
    p: PlanView,
    turns: Seq<Turn>,
    pos: Seq<Pos>,
    scratch: Set<FileId>,
    n: int,
    f: Seq<Fate>,
    i: int,
    l: LocView,
    e: Disk,
)
    requires
        taken_in_turn(disks, p, turns),
        disks[0].well_formed(),
        disks[0].steady,
        settled(disks[0], p, scratch),
        side_by_side(disks[0], p, turns, pos),
        0 <= i < n <= turns.len(),
        possible(disks[n].pending, f),
        left_of(disks, n, f).well_formed(),
        turns[i].concerns(p, l),
        e.names == left_of(disks, n, f).names,
        same_volume(disks[0], e),
        same_kinds(disks[0], e),
    ensures
        in_place(e, l),
{
    let left = left_of(disks, n, f);
    lemma_parents_survive(disks, p, turns, pos, scratch, n, f, i, l);
    lemma_in_place_by_names(left, e, l);
}

/// What is in place depends on the names and the kinds of objects.
pub proof fn lemma_in_place_by_names(a: Disk, b: Disk, l: LocView)
    requires
        a.well_formed(),
        a.names == b.names,
        same_volume(a, b),
        same_kinds(a, b),
        in_place(a, l),
    ensures
        in_place(b, l),
{
    lemma_well_formed_by_names(a, b);
    lemma_same_resolve(a, b, l.path.drop_last());
    assert(a.is_dir(l.parent) == b.is_dir(l.parent));
}

/// The disk that an interruption leaves: that of a power loss, or the disk as it is.
pub open spec fn cut_off(d: Disk, e: Disk) -> bool {
    e == d || power_lost(d, e)
}

/// Whatever a power loss leaves of a settled disk, the tokens stay where they are.
pub proof fn lemma_settled_cut(d0: Disk, d: Disk, e: Disk, p: PlanView, c: Seq<Pos>, scratch: Set<FileId>) -> (base: Disk)
    requires
        fitting(d0, p),
        d.well_formed(),
        settled(d, p, scratch),
        positions_fit(p, c),
        rearranged(d0, d, p, home(p), c),
        tokens_in_place(d, p, c),
        cut_off(d, e),
        same_volume(d0, d),
        same_kinds(d0, d),
    ensures
        e.well_formed(),
        kin(d, e, scratch),
        kin(d0, base, scratch),
        same_volume(base, e),
        same_kinds(base, e),
        rearranged(base, e, p, home(p), c),
        tokens_in_place(e, p, c),
{
    lemma_lost_kinds(d0, d, e);
    lemma_same_kinds(d0, d, e);
    if e == d {
        assert(kin(d0, d0, scratch));
        d0
    } else {
        let f = choose|f: Seq<Fate>| #[trigger] lost_with(d, e, f);
        let x = left_with(d, f);
        lemma_left_is_kin(d, f, scratch);
        lemma_well_formed_by_names(x, e);
        lemma_rebased(d0, d, x, p, c, scratch);
        let base = rebased(d0, x, scratch);
        lemma_rearranged_by_names(base, x, e, p, home(p), c);
        lemma_same_kinds(d0, base, e);
        assert forall|u: int, l: LocView| #![trigger rests_at(p, u, c[u], l)] 0 <= u < c.len() && rests_at(
            p,
            u,
            c[u],
            l,
        ) implies in_place(e, l) by {
            assert(in_place(d, l));
            lemma_kin_resolves(d, e, scratch, l.path.drop_last());
        }
        base
    }
}

/// Nothing has been moved but by whole waves.
proof fn lemma_between_waves(d0: Disk, d: Disk, e: Disk, p: PlanView, w: int, scratch: Set<FileId>)
    requires
        fitting(d0, p),
        0 <= w <= p.waves.len(),
        d.well_formed(),
        settled(d, p, scratch),
        rearranged(d0, d, p, home(p), ats(p.positions(w))),
        tokens_in_place(d, p, ats(p.positions(w))),
        cut_off(d, e),
        same_volume(d0, d),
        same_kinds(d0, d),
    ensures
        strewn_at(d0, e, p, scratch, w),
{
    let c = ats(p.positions(w));
    assert(p.has_locations());
    lemma_positions_in_range(p, w);
    assert forall|t: int| 0 <= t < c.len() implies pos_fits(p, t, #[trigger] c[t]) by {
        assert(0 <= p.positions(w)[t] < p.tokens[t].locs.len());
        assert(p.tokens[t].locs.len() <= usize::MAX);
    }
    let base = lemma_settled_cut(d0, d, e, p, c, scratch);
    lemma_shape(p, w, c);
    assert(scattered(base, e, p, c) && kin(d0, base, scratch));
}

/// What a power loss leaves has the objects that were there, of the same kinds.
pub proof fn lemma_lost_kinds(d0: Disk, d: Disk, e: Disk)
    requires
        cut_off(d, e),
        same_volume(d0, d),
        same_kinds(d0, d),
    ensures
        same_volume(d0, e),
        same_kinds(d0, e),
{
    if e != d {
        let f = choose|f: Seq<Fate>| #[trigger] lost_with(d, e, f);
        assert forall|id: FileId| #[trigger] d0.objects.contains_key(id) implies e.objects[id].kind()
            == d0.objects[id].kind() by {
            assert(d.objects.contains_key(id));
        }
    }
}

/// Interrupted while the steps of a wave are being taken.
proof fn lemma_cut_within_steps(d0: Disk, a: Disk, z: Disk, e: Disk, p: PlanView, w: int, n: int, scratch: Set<FileId>)
    requires
        sound_start(d0, p, scratch),
        0 <= w < p.waves.len(),
        a.well_formed(),
        settled(a, p, scratch),
        same_volume(d0, a),
        same_kinds(d0, a),
        rearranged(d0, a, p, home(p), ats(p.positions(w))),
        tokens_in_place(a, p, ats(p.positions(w))),
        0 <= n <= p.waves[w].len(),
        steps_taken(a, z, p, p.waves[w], n),
        cut_off(z, e) || (e.names == z.names && same_volume(z, e) && same_kinds(z, e)),
    ensures
        strewn_at(d0, e, p, scratch, w),
{
    let disks = lemma_steps_chain(a, z, p, p.waves[w], n);
    lemma_chain(disks, p, forward(p.waves[w].take(n)), n);
    assert(same_kinds(d0, z));
    if power_lost(z, e) {
        lemma_lost_kinds(d0, z, e);
        let f = choose|f: Seq<Fate>| #[trigger] lost_with(z, e, f);
        lemma_forward_cut(d0, a, z, e, p, w, n, f, scratch);
    } else {
        assert forall|id: FileId| #[trigger] d0.objects.contains_key(id) implies e.objects[id].kind()
            == d0.objects[id].kind() by {
            assert(z.objects.contains_key(id));
        }
        lemma_forward_cut(d0, a, z, e, p, w, n, all_apply(z.pending.len()), scratch);
    }
}

/// Atomicity, first half. Wherever applying a plan is cut off, by a power loss or by the end
/// of the process, every token is at a step of its way, in the shape that undoing accepts, and
/// everything else is in its place, but for names in directories that nothing leads to.
pub proof fn law_interrupted_tokens_are_on_their_way(
    d0: Disk,
    d: Disk,
    e: Disk,
    tx: TxDir,
    p: PlanView,
    scratch: Set<FileId>,
)
    requires
        sound_start(d0, p, scratch),
        applying(d0, d, tx, p) || waves_applied(d0, d, tx, p, p.waves.len() as int),
        cut_off(d, e),
    ensures
        strewn(d0, e, p, scratch),
{
    if waves_applied(d0, d, tx, p, p.waves.len() as int) {
        lemma_cut_at_end(d0, d, e, tx, p, scratch);
    } else {
        let w = choose|w: int| 0 <= w < p.waves.len() && #[trigger] stopped_in(d0, d, tx, p, w);
        let a = choose|a: Disk| #[trigger] waves_applied(d0, a, tx, p, w) && within_wave(a, d, tx, p, w);
        lemma_cut_within(d0, a, d, e, tx, p, w, scratch);
    }
}

/// Interrupted when all waves have been applied.
pub proof fn lemma_cut_at_end(d0: Disk, d: Disk, e: Disk, tx: TxDir, p: PlanView, scratch: Set<FileId>)
    requires
        sound_start(d0, p, scratch),
        waves_applied(d0, d, tx, p, p.waves.len() as int),
        cut_off(d, e),
    ensures
        strewn_at(d0, e, p, scratch, p.waves.len() as int),
{
    let n = p.waves.len() as int;
    lemma_waves_forward(d0, d, tx, p, n, scratch);
    lemma_between_waves(d0, d, e, p, n, scratch);
}

/// Wave `w` is durable, and something has been written to the log.
pub open spec fn logging(a: Disk, d: Disk, tx: TxDir, p: PlanView, w: int) -> bool {
    exists|m: Disk| #[trigger] wave_settled(a, m, p, w) && only_log_changed(m, d, tx.at().push(progress_name()))
}

/// Interrupted within a wave: it is being done, or it is done and about to be logged.
pub proof fn lemma_cut_within(d0: Disk, a: Disk, d: Disk, e: Disk, tx: TxDir, p: PlanView, w: int, scratch: Set<FileId>)
    requires
        sound_start(d0, p, scratch),
        0 <= w < p.waves.len(),
        waves_applied(d0, a, tx, p, w),
        within_wave(a, d, tx, p, w),
        cut_off(d, e),
    ensures
        strewn_at(d0, e, p, scratch, w) || logging(a, d, tx, p, w) && strewn_at(d0, e, p, scratch, w + 1),
{
    lemma_waves_forward(d0, a, tx, p, w, scratch);
    let wave = p.waves[w];
    if exists|n: int| 0 <= n <= wave.len() && #[trigger] steps_taken(a, d, p, wave, n) {
        let n = choose|n: int| 0 <= n <= wave.len() && #[trigger] steps_taken(a, d, p, wave, n);
        lemma_cut_within_steps(d0, a, d, e, p, w, n, scratch);
    } else if exists|m: Disk| #[trigger] steps_taken(a, m, p, wave, wave.len() as int) && some_synced(m, d) {
        let m = choose|m: Disk| #[trigger] steps_taken(a, m, p, wave, wave.len() as int) && some_synced(m, d);
        let dirs = choose|dirs: Seq<FileId>| d == #[trigger] synced_all(m, dirs);
        lemma_synced_all(m, dirs);
        if power_lost(d, e) {
            law_syncing_narrows_what_power_loss_may_leave(m, dirs, e);
        }
        lemma_cut_within_steps(d0, a, m, e, p, w, wave.len() as int, scratch);
    } else {
        lemma_cut_while_logging(d0, a, d, e, tx, p, w, scratch);
    }
}

/// Interrupted while a wave is being logged.
pub proof fn lemma_cut_while_logging(d0: Disk, a: Disk, d: Disk, e: Disk, tx: TxDir, p: PlanView, w: int, scratch: Set<FileId>)
    requires
        sound_start(d0, p, scratch),
        0 <= w < p.waves.len(),
        waves_applied(d0, a, tx, p, w),
        logging(a, d, tx, p, w),
        cut_off(d, e),
    ensures
        strewn_at(d0, e, p, scratch, w + 1),
{
    lemma_waves_forward(d0, a, tx, p, w, scratch);
    let at = tx.at().push(progress_name());
    let m = choose|m: Disk| #[trigger] wave_settled(a, m, p, w) && only_log_changed(m, d, at);
    lemma_wave_forward(d0, a, m, tx, p, w, scratch);
    lemma_log_well_formed(m, d, at);
    lemma_settled_logged(m, d, p, at, scratch);
    lemma_same_kinds_through(d0, m, d);
    lemma_rearranged_by_names(d0, m, d, p, home(p), ats(p.positions(w + 1)));
    lemma_tokens_by_names(m, d, p, ats(p.positions(w + 1)));
    lemma_between_waves(d0, d, e, p, w + 1, scratch);
}

/// Every token at its last location.
pub open spec fn ends(p: PlanView) -> Seq<Pos> {
    Seq::new(p.tokens.len(), |t: int| Pos::At((p.tokens[t].locs.len() - 1) as usize))
}

/// Durability. Once all waves have been applied, every token is at its last location and
/// everything else is in its place, and no power loss changes where any path leads.
pub proof fn law_applied_waves_survive(d0: Disk, d: Disk, e: Disk, tx: TxDir, p: PlanView, scratch: Set<FileId>)
    requires
        sound_start(d0, p, scratch),
        waves_applied(d0, d, tx, p, p.waves.len() as int),
        cut_off(d, e),
    ensures
        rearranged(d0, d, p, home(p), ends(p)),
        kin(d, e, scratch),
        forall|q: PathView| #[trigger] e.resolve(q) == d.resolve(q),
{
    let n = p.waves.len() as int;
    lemma_waves_forward(d0, d, tx, p, n, scratch);
    assert(p.has_locations());
    lemma_positions_in_range(p, n);
    assert forall|t: int| 0 <= t < p.tokens.len() implies pos_fits(p, t, #[trigger] ends(p)[t]) by {
        assert(p.tokens[t].locs.len() <= usize::MAX);
    }
    assert(ats(p.positions(n)) =~= ends(p)) by {
        assert forall|t: int| 0 <= t < p.tokens.len() implies ats(p.positions(n))[t] == ends(p)[t] by {
            assert(p.positions(n)[t] == p.tokens[t].locs.len() - 1);
        }
    }
    let base = lemma_settled_cut(d0, d, e, p, ends(p), scratch);
    assert forall|q: PathView| #[trigger] e.resolve(q) == d.resolve(q) by {
        lemma_kin_resolves(d, e, scratch, q);
    }
}

} // verus!
