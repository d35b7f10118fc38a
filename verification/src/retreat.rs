//! Undoing that is interrupted in turn: it may be cut off anywhere, any number of times, and
//! whatever it leaves can be undone again.
use vstd::prelude::*;

use crate::apply::{applying, stopped_in, steps_taken, wave_settled, waves_applied, within_wave};
use crate::atomicity::{
    about_wave, ats, countable, cut_off, fitting, forward, kin, law_interrupted_tokens_are_on_their_way, moves_token,
    on_level, rebased, rests_at, same_kinds, scattered, settled, sound_start, tokens_in_place,
};
use crate::atomicity::{
    lemma_all_come_out, lemma_fewer_side_by_side, lemma_forward_side_by_side, lemma_kin_resolves, lemma_lead_away,
    lemma_left_is_kin, lemma_log_well_formed, lemma_logged, lemma_lost_kinds, lemma_named_outside, lemma_rebased,
    lemma_same_kinds, lemma_same_tangle, lemma_settled_cut, lemma_settled_logged, lemma_step_passed, lemma_steps_chain,
    lemma_tokens_by_names, lemma_tokens_stay_in_place, lemma_valid_untangled, lemma_wave_forward, lemma_wave_starts,
    lemma_waves_forward, lemma_well_formed_by_names,
};
use crate::bytes::Name;
use crate::crash::{lost_with, possible, power_lost, survivors};
use crate::disk::{Disk, Fate, FileId, Key, Object};
use crate::durability::{
    all_apply, avoids, consistent, law_syncing_narrows_what_power_loss_may_leave, left_with, lemma_quiet_is_firm,
    lemma_survivors_from, lemma_synced_firm, lemma_synced_further, settled_part, sturdy, waits,
};
use crate::moves::{lemma_rearranged_by_names, rearranged, seated, undo_on_disk};
use crate::plan::{lemma_positions_in_range, LocView, PlanView, Step};
use crate::positions::{
    after_undo, has_shape, index_of, lemma_no_further, lemma_undo_waves, no_further, pos_fits, positions_fit, potential,
    shape_at, state_at, undo_action, undo_steps, undo_waves, undone_to, wave_done, wave_untouched, Pos, StepState, UndoAction,
};
use crate::progress::Record;
use crate::readiness::{lemma_created_sturdy, lemma_fewer_scratch, lemma_firmly_absent};
use crate::recover::{
    all_locations, begun, cleared, halted_in, home, lemma_synced_all, log_path, logged, only_log_changed, only_synced,
    parent_covered, parents_synced, rolled_back, some_synced, steps_undone, synced_all, tame, undoing, wave_ends,
    wave_reverted, wave_undone, waves_undone, within_undo,
};
use crate::restoration::{
    grounded, law_recovery_is_never_mistaken, lemma_decided, lemma_home_fits, lemma_kin_grounded, lemma_moved_secluded,
    lemma_own_place, lemma_resolved_linked, lemma_restored,
};
use crate::state::{made_marker, marked, progress_name, Marker, TxDir};
use crate::tree::{goes_through, lemma_same_names_transitive, same_names};
use crate::turns::{
    earlier, entangled, in_place, left_of, lemma_bystander, lemma_chain, lemma_chain_secluded, lemma_changes_within,
    lemma_cut, lemma_parents_stay, lemma_secluded, lemma_turns_avoid, lemma_turns_sturdy, lemma_wave_firm, outlying,
    secluded, side_by_side, taken_in_turn, turned, within_turns, Turn,
};
use crate::vfs::{created_at, dir_synced_at, same_volume};

verus! {

/// What undoing does about a step whose token is at `x`.
pub open spec fn undo_turn(x: Pos, s: Step) -> Turn {
    match undo_action(x, s.from as int) {
        UndoAction::MoveBack => Turn::Back(s),
        UndoAction::RemoveName => Turn::Unlink(s),
        _ => Turn::Rest,
    }
}

/// The steps of a wave as turns back, the tokens being at `x`.
pub open spec fn backward(x: Seq<Pos>, wave: Seq<Step>) -> Seq<Turn> {
    Seq::new(wave.len(), |i: int| undo_turn(x[wave[i].token as int], wave[i]))
}

/// No token occurs twice in a wave.
spec fn tokens_differ(wave: Seq<Step>) -> bool {
    forall|i: int, j: int| #![trigger wave[i], wave[j]] 0 <= i < j < wave.len() ==> wave[i].token != wave[j].token
}

/// The steps of a wave are about the first `n` tokens.
spec fn tokens_within(wave: Seq<Step>, n: int) -> bool {
    forall|i: int| 0 <= i < wave.len() ==> (#[trigger] wave[i]).token < n
}

proof fn lemma_tokens_differ(p: PlanView, w: int)
    requires
        p.valid(),
        0 <= w < p.waves.len(),
    ensures
        tokens_differ(p.waves[w]),
        tokens_within(p.waves[w], p.tokens.len() as int),
{
    lemma_wave_starts(p, w);
    assert forall|i: int| 0 <= i < p.waves[w].len() implies (#[trigger] p.waves[w][i]).token < p.tokens.len() by {
        assert(p.names_move(p.waves[w][i]));
    }
    assert forall|i: int, j: int|
        #![trigger p.waves[w][i], p.waves[w][j]]
        0 <= i < j < p.waves[w].len() implies p.waves[w][i].token != p.waves[w][j].token by {
        assert(p.has(w, i) && p.has(w, j));
        if p.waves[w][i].token == p.waves[w][j].token {
            assert(p.waves[w][i] == p.waves[w][j]);
        }
    }
}

/// Where undoing the first `n` steps of a wave leaves a token.
proof fn lemma_undo_steps_at(x: Seq<Pos>, wave: Seq<Step>, n: int, u: int)
    requires
        tokens_differ(wave),
        tokens_within(wave, x.len() as int),
        0 <= n <= wave.len(),
        0 <= u < x.len(),
    ensures
        undo_steps(x, wave, n).len() == x.len(),
        forall|i: int|
            0 <= i < n && (#[trigger] wave[i]).token == u ==> undo_steps(x, wave, n)[u] == after_undo(x[u], wave[i].from),
        (forall|i: int| 0 <= i < n ==> (#[trigger] wave[i]).token != u) ==> undo_steps(x, wave, n)[u] == x[u],
    decreases n,
{
    if n > 0 {
        lemma_undo_steps_at(x, wave, n - 1, u);
        let t = wave[n - 1].token as int;
        assert(t < x.len());
        if t == u {
            assert forall|i: int| 0 <= i < n - 1 implies (#[trigger] wave[i]).token != u by {
                assert(wave[i].token != wave[n - 1].token);
            }
        }
    }
}

/// The steps of a wave, taken back, are side by side.
pub proof fn lemma_backward_side_by_side(base: Disk, d: Disk, p: PlanView, w: int, x: Seq<Pos>)
    requires
        fitting(base, p),
        same_volume(base, d),
        0 <= w < p.waves.len(),
        positions_fit(p, x),
    ensures
        side_by_side(d, p, backward(x, p.waves[w]), x),
{
    let wave = p.waves[w];
    let turns = backward(x, wave);
    lemma_wave_starts(p, w);
    lemma_tokens_differ(p, w);
    if !base.folds {
        lemma_valid_untangled(base, p);
    }
    assert forall|i: int| #![trigger turns[i]] 0 <= i < turns.len() && !(turns[i] is Rest) implies p.names_move(
        turns[i].step(),
    ) && turns[i].step().from < usize::MAX && x[turns[i].step().token as int] == turns[i].was() && turns[i].leads_out(
        d,
        p,
    ) by {
        let s = wave[i];
        assert(p.has(w, i) && p.waves[w][i] == s);
        assert(p.names_move(p.waves[w][i]));
        assert(p.tokens[s.token as int].locs.len() <= usize::MAX);
        lemma_same_tangle(base, d, p.src(s).path, p.dst(s).path);
    }
    assert forall|i: int, j: int|
        #![trigger turns[i], turns[j]]
        0 <= i < j < turns.len() && !(turns[i] is Rest) && !(turns[j] is Rest) implies turns[i].step().token
        != turns[j].step().token by {
        assert(wave[i].token != wave[j].token);
    }
    assert forall|i: int, j: int, l: LocView, m: LocView|
        #![trigger turns[i].concerns(p, l), turns[j].concerns(p, m)]
        0 <= i < j < turns.len() && turns[i].concerns(p, l) && turns[j].concerns(p, m) implies !entangled(
        d,
        l.path,
        m.path,
    ) by {
        assert(p.has(w, i) && p.has(w, j));
        assert(p.is_endpoint(p.waves[w][i], l) && p.is_endpoint(p.waves[w][j], m));
        lemma_same_tangle(base, d, l.path, m.path);
    }
}

/// An end of a step is entangled with no other turn of its wave.
proof fn lemma_end_beside_turns(base: Disk, d: Disk, p: PlanView, w: int, x: Seq<Pos>, i: int, l: LocView, j: int, m: LocView)
    requires
        fitting(base, p),
        same_volume(base, d),
        p.has(w, i),
        p.has(w, j),
        i != j,
        p.is_endpoint(p.waves[w][i], l),
        backward(x, p.waves[w])[j].concerns(p, m),
    ensures
        !goes_through(d, l.path, m.path),
{
    if !base.folds {
        lemma_valid_untangled(base, p);
    }
    assert(p.is_endpoint(p.waves[w][j], m));
    lemma_same_tangle(base, d, l.path, m.path);
    assert(!entangled(base, l.path, m.path));
}

/// Fewer turns are side by side, too.
pub proof fn lemma_fewer_turns(d: Disk, p: PlanView, turns: Seq<Turn>, n: int, x: Seq<Pos>)
    requires
        side_by_side(d, p, turns, x),
        0 <= n <= turns.len(),
    ensures
        side_by_side(d, p, turns.take(n), x),
{
    let some = turns.take(n);
    assert forall|i: int| 0 <= i < some.len() implies #[trigger] some[i] == turns[i] by {}
    assert forall|i: int, j: int, l: LocView, m: LocView|
        #![trigger some[i].concerns(p, l), some[j].concerns(p, m)]
        0 <= i < j < some.len() && some[i].concerns(p, l) && some[j].concerns(p, m) implies !entangled(
        d,
        l.path,
        m.path,
    ) by {
        assert(turns[i].concerns(p, l) && turns[j].concerns(p, m));
    }
}

/// The states that undoing the first `n` steps of a wave went through.
pub proof fn lemma_back_chain(base: Disk, a: Disk, b: Disk, p: PlanView, x: Seq<Pos>, w: int, n: int) -> (disks: Seq<Disk>)
    requires
        fitting(base, p),
        same_volume(base, a),
        a.well_formed(),
        consistent(a),
        0 <= w < p.waves.len(),
        positions_fit(p, x),
        tokens_in_place(a, p, x),
        0 <= n <= p.waves[w].len(),
        steps_undone(a, b, p, x, p.waves[w], n),
    ensures
        disks[0] == a,
        disks[n] == b,
        taken_in_turn(disks, p, backward(x, p.waves[w]).take(n)),
    decreases n,
{
    let wave = p.waves[w];
    let all = backward(x, wave);
    if n == 0 {
        assert(all.take(0).len() == 0);
        seq![a]
    } else {
        let s = wave[n - 1];
        let t = s.token as int;
        let y = undo_steps(x, wave, n - 1)[t];
        let m = choose|m: Disk|
            steps_undone(a, m, p, x, wave, n - 1) && #[trigger] undo_on_disk(
                m,
                b,
                p,
                wave[n - 1],
                undo_steps(x, wave, n - 1)[wave[n - 1].token as int],
            );
        let before = lemma_back_chain(base, a, m, p, x, w, n - 1);
        lemma_wave_starts(p, w);
        assert(p.has(w, n - 1));
        assert(p.names_move(p.waves[w][n - 1]));
        lemma_tokens_differ(p, w);
        lemma_undo_steps_at(x, wave, n - 1, t);
        assert(y == x[t]) by {
            assert forall|i: int| 0 <= i < n - 1 implies (#[trigger] wave[i]).token != t by {
                assert(wave[i].token != wave[n - 1].token);
            }
        }
        let disks = before.push(b);
        let turns = all.take(n);
        let earlier = all.take(n - 1);
        let last = turns[n - 1];
        assert(last == undo_turn(x[t], s));
        if last is Unlink {
            let src = p.src(s);
            assert(x[t] == Pos::Both(s.from));
            assert(rests_at(p, t, x[t], src));
            assert(in_place(a, src));
            assert forall|j: int, l: LocView| 0 <= j < n - 1 && #[trigger] earlier[j].concerns(p, l) implies !goes_through(
                a,
                src.path,
                l.path,
            ) by {
                assert(p.has(w, j));
                assert(all[j].concerns(p, l));
                assert(p.is_endpoint(p.waves[w][n - 1], src));
                lemma_end_beside_turns(base, a, p, w, x, n - 1, src, j, l);
            }
            lemma_bystander(before, p, earlier, n - 1, src);
        }
        assert(last.done(m, b, p));
        assert forall|i: int| 0 <= i < turns.len() implies (#[trigger] turns[i]).done(disks[i], disks[i + 1], p) by {
            if i < n - 1 {
                assert(turns[i] == earlier[i]);
                assert(earlier[i].done(before[i], before[i + 1], p));
            }
        }
        disks
    }
}

/// How far undoing has come when all waves from `w` on are undone, the tokens having been in
/// a shape with wave `v` partly done.
pub open spec fn level(p: PlanView, x: Seq<Pos>, v: int, w: int) -> bool {
    &&& positions_fit(p, x)
    &&& forall|i: int| 0 <= i < v && i < w && i < p.waves.len() ==> #[trigger] wave_done(p, x, i)
    &&& forall|i: int| 0 <= i < p.waves.len() && (i >= w || i > v) ==> #[trigger] wave_untouched(p, x, i)
}

proof fn lemma_level_shape(p: PlanView, x: Seq<Pos>, v: int, w: int)
    requires
        level(p, x, v, w),
        w >= 0,
    ensures
        has_shape(p, x),
{
    if w <= v {
        assert(shape_at(p, x, w));
    } else if v < 0 {
        assert(shape_at(p, x, -1));
    } else {
        assert(shape_at(p, x, v));
    }
}

/// Before a wave is undone, the tokens are on its level.
proof fn lemma_back_level(p: PlanView, x: Seq<Pos>, v: int, w: int)
    requires
        p.valid(),
        countable(p),
        level(p, x, v, w + 1),
        0 <= w < p.waves.len(),
        w <= v,
    ensures
        on_level(p, w, x),
{
    assert(p.has_locations());
    lemma_positions_in_range(p, w);
    lemma_wave_starts(p, w);
    assert forall|t: int, i: int|
        0 <= t < x.len() && i == p.positions(w)[t] implies #[trigger] between_waves(p, x, t, i, moves_token(p, w, t)) by {
        assert(pos_fits(p, t, x[t]));
        assert(0 <= i < p.tokens[t].locs.len());
        assert(p.steps_complete(t));
        assert(p.tokens[t].locs.len() <= usize::MAX);
        if i > 0 {
            let f = i - 1;
            assert(p.is_moved(t, f));
            let y = choose|y: int| p.has_step(t, f, y);
            let j = choose|j: int|
                0 <= j < p.waves[y].len() && (#[trigger] p.waves[y][j]).token == t && p.waves[y][j].from == f;
            assert(p.has(y, j));
            lemma_step_passed(p, y, j, w);
            assert(wave_done(p, x, y));
            assert(state_at(p, x, y, j) == StepState::Post);
        }
        if i < p.tokens[t].locs.len() - 1 {
            assert(p.is_moved(t, i));
            let y = choose|y: int| p.has_step(t, i, y);
            let j = choose|j: int|
                0 <= j < p.waves[y].len() && (#[trigger] p.waves[y][j]).token == t && p.waves[y][j].from == i;
            assert(p.has(y, j));
            lemma_step_passed(p, y, j, w);
            if y != w {
                assert(wave_untouched(p, x, y));
                assert(state_at(p, x, y, j) == StepState::Pre);
            } else {
                assert(moves_token(p, w, t));
                if i < p.tokens[t].locs.len() - 2 {
                    let g = i + 1;
                    assert(p.is_moved(t, g));
                    let h = choose|h: int| p.has_step(t, g, h);
                    let k = choose|k: int|
                        0 <= k < p.waves[h].len() && (#[trigger] p.waves[h][k]).token == t && p.waves[h][k].from == g;
                    assert(p.has(h, k));
                    lemma_order(p, w, j, h, k);
                    assert(h > w) by {
                        if h == w {
                            lemma_step_passed(p, h, k, w);
                            assert(p.names_move(p.waves[w][k]));
                        }
                    }
                    assert(wave_untouched(p, x, h));
                    assert(state_at(p, x, h, k) == StepState::Pre);
                }
            }
        }
    }
    assert forall|j: int| p.has(w, j) implies {
        let s = #[trigger] p.waves[w][j];
        x[s.token as int] == Pos::At(s.from) || x[s.token as int] == Pos::At((s.from + 1) as usize) || x[s.token as int]
            == Pos::Both(s.from)
    } by {
        let s = p.waves[w][j];
        assert(p.names_move(p.waves[w][j]));
        assert(moves_token(p, w, s.token as int));
        assert(between_waves(p, x, s.token as int, s.from as int, moves_token(p, w, s.token as int)));
    }
    assert forall|t: int| 0 <= t < p.tokens.len() && !(#[trigger] moves_token(p, w, t)) implies x[t] == Pos::At(
        p.positions(w)[t] as usize,
    ) by {
        assert(between_waves(p, x, t, p.positions(w)[t], moves_token(p, w, t)));
    }
}

/// Token `t` is at location `i`, or if it moves now, there or at the next one or at both.
spec fn between_waves(p: PlanView, x: Seq<Pos>, t: int, i: int, moves: bool) -> bool {
    ||| x[t] matches Pos::At(j) && j == i
    ||| moves && (x[t] matches Pos::At(j) && j == i + 1)
    ||| moves && (x[t] matches Pos::Both(j) && j == i)
}

/// A partly undone wave leaves the shape that a crash can leave.
proof fn lemma_cut_shape(p: PlanView, x: Seq<Pos>, c: Seq<Pos>, v: int, w: int)
    requires
        p.valid(),
        p.has_locations(),
        level(p, x, v, w + 1),
        0 <= w < p.waves.len(),
        w <= v,
        positions_fit(p, c),
        forall|u: int|
            0 <= u < c.len() ==> (#[trigger] c[u] == x[u] || exists|i: int|
                0 <= i < p.waves[w].len() && (#[trigger] p.waves[w][i]).token == u && p.waves[w][i].from < usize::MAX && (
                c[u] == Pos::At((p.waves[w][i].from + 1) as usize) || c[u] == Pos::At(p.waves[w][i].from) || c[u]
                    == Pos::Both(p.waves[w][i].from))),
    ensures
        shape_at(p, c, w),
{
    assert forall|y: int, j: int| p.has(y, j) && y != w implies (y < w ==> #[trigger] state_at(p, c, y, j)
        == StepState::Post) && (w < y ==> state_at(p, c, y, j) == StepState::Pre) by {
        let s = p.waves[y][j];
        let u = s.token as int;
        assert(p.names_move(p.waves[y][j]));
        if y < w {
            assert(wave_done(p, x, y));
            assert(state_at(p, x, y, j) == StepState::Post);
        } else {
            assert(wave_untouched(p, x, y));
            assert(state_at(p, x, y, j) == StepState::Pre);
        }
        if c[u] != x[u] {
            let i = choose|i: int|
                0 <= i < p.waves[w].len() && (#[trigger] p.waves[w][i]).token == u && p.waves[w][i].from < usize::MAX
                    && (c[u] == Pos::At((p.waves[w][i].from + 1) as usize) || c[u] == Pos::At(p.waves[w][i].from) || c[u]
                    == Pos::Both(p.waves[w][i].from));
            lemma_order(p, y, j, w, i);
        }
    }
    assert forall|y: int| 0 <= y < w && y < p.waves.len() implies #[trigger] wave_done(p, c, y) by {
        assert forall|j: int| 0 <= j < p.waves[y].len() implies #[trigger] state_at(p, c, y, j) == StepState::Post by {
            assert(p.has(y, j));
        }
    }
    assert forall|y: int| w < y < p.waves.len() implies #[trigger] wave_untouched(p, c, y) by {
        assert forall|j: int| 0 <= j < p.waves[y].len() implies #[trigger] state_at(p, c, y, j) == StepState::Pre by {
            assert(p.has(y, j));
        }
    }
}

/// A token's steps in earlier waves come before its steps in later ones.
proof fn lemma_order(p: PlanView, v: int, i: int, w: int, j: int)
    requires
        p.valid(),
        p.has_locations(),
        p.has(v, i),
        p.has(w, j),
        p.waves[v][i].token == p.waves[w][j].token,
    ensures
        v < w ==> p.waves[v][i].from < p.waves[w][j].from,
        w < v ==> p.waves[w][j].from < p.waves[v][i].from,
{
    lemma_wave_starts(p, v);
    lemma_wave_starts(p, w);
    assert(p.names_move(p.waves[v][i]) && p.names_move(p.waves[w][j]));
    lemma_step_passed(p, v, i, w);
    lemma_step_passed(p, w, j, v);
}

/// Undoing one more wave.
proof fn lemma_level_down(p: PlanView, x: Seq<Pos>, y: Seq<Pos>, v: int, w: int)
    requires
        p.valid(),
        p.has_locations(),
        level(p, x, v, w + 1),
        0 <= w < p.waves.len(),
        y == undo_steps(x, p.waves[w], p.waves[w].len() as int),
        positions_fit(p, y),
        undone_to(p, y, w, 0),
    ensures
        level(p, y, v, w),
        w > v ==> y == x,
{
    let wave = p.waves[w];
    let n = wave.len() as int;
    lemma_tokens_differ(p, w);
    assert forall|i: int, j: int| p.has(i, j) && i != w implies (i < v && i < w ==> #[trigger] state_at(p, y, i, j)
        == StepState::Post) && (i > v ==> state_at(p, y, i, j) == StepState::Pre) by {
        let s = p.waves[i][j];
        let u = s.token as int;
        assert(p.names_move(p.waves[i][j]));
        lemma_undo_steps_at(x, wave, n, u);
        if i < v && i < w {
            assert(wave_done(p, x, i));
            assert(state_at(p, x, i, j) == StepState::Post);
        }
        if i > v {
            assert(wave_untouched(p, x, i));
            assert(state_at(p, x, i, j) == StepState::Pre);
        }
        if exists|h: int| 0 <= h < n && (#[trigger] wave[h]).token == u {
            let h = choose|h: int| 0 <= h < n && (#[trigger] wave[h]).token == u;
            assert(p.has(w, h) && p.waves[w][h] == wave[h]);
            lemma_order(p, i, j, w, h);
        } else {
            assert(forall|h: int| 0 <= h < n ==> (#[trigger] wave[h]).token != u);
        }
    }
    assert forall|i: int| 0 <= i < v && i < w && i < p.waves.len() implies #[trigger] wave_done(p, y, i) by {
        assert forall|j: int| 0 <= j < p.waves[i].len() implies #[trigger] state_at(p, y, i, j) == StepState::Post by {
            assert(p.has(i, j));
        }
    }
    assert forall|i: int| 0 <= i < p.waves.len() && (i >= w || i > v) implies #[trigger] wave_untouched(p, y, i) by {
        if i < w {
            assert forall|j: int| 0 <= j < p.waves[i].len() implies #[trigger] state_at(p, y, i, j) == StepState::Pre by {
                assert(p.has(i, j));
            }
        }
    }
    if w > v {
        lemma_untouched_rests(p, x, w);
        assert(y =~= x) by {
            assert forall|u: int| 0 <= u < x.len() implies y[u] == x[u] by {
                lemma_undo_steps_at(x, wave, n, u);
                if exists|h: int| 0 <= h < n && (#[trigger] wave[h]).token == u {
                    let h = choose|h: int| 0 <= h < n && (#[trigger] wave[h]).token == u;
                    assert(backward(x, wave)[h] is Rest);
                } else {
                    assert(forall|h: int| 0 <= h < n ==> (#[trigger] wave[h]).token != u);
                }
            }
            lemma_undo_steps_len(x, wave, n);
        }
    }
}

proof fn lemma_undo_steps_len(x: Seq<Pos>, wave: Seq<Step>, n: int)
    requires
        tokens_within(wave, x.len() as int),
        0 <= n <= wave.len(),
    ensures
        undo_steps(x, wave, n).len() == x.len(),
    decreases n,
{
    if n > 0 {
        lemma_undo_steps_len(x, wave, n - 1);
        assert(wave[n - 1].token < x.len());
    }
}

/// There is nothing to undo in a wave that is untouched.
proof fn lemma_untouched_rests(p: PlanView, x: Seq<Pos>, w: int)
    requires
        0 <= w < p.waves.len(),
        wave_untouched(p, x, w),
    ensures
        forall|i: int| 0 <= i < p.waves[w].len() ==> #[trigger] backward(x, p.waves[w])[i] is Rest,
{
    assert forall|i: int| 0 <= i < p.waves[w].len() implies #[trigger] backward(x, p.waves[w])[i] is Rest by {
        assert(state_at(p, x, w, i) == StepState::Pre);
    }
}

/// The disk `a` has the tokens of `base` at `x`, durably, with all waves from `w` on undone.
pub open spec fn poised(base: Disk, a: Disk, p: PlanView, x: Seq<Pos>, v: int, w: int, scratch: Set<FileId>) -> bool {
    &&& a.well_formed()
    &&& settled(a, p, scratch)
    &&& same_volume(base, a)
    &&& same_kinds(base, a)
    &&& rearranged(base, a, p, home(p), x)
    &&& tokens_in_place(a, p, x)
    &&& level(p, x, v, w)
}

/// Nothing happens in turns that rest.
proof fn lemma_all_rest(disks: Seq<Disk>, p: PlanView, turns: Seq<Turn>, n: int)
    requires
        taken_in_turn(disks, p, turns),
        0 <= n <= turns.len(),
        forall|i: int| 0 <= i < turns.len() ==> #[trigger] turns[i] is Rest,
    ensures
        disks[n] == disks[0],
    decreases n,
{
    if n > 0 {
        lemma_all_rest(disks, p, turns, n - 1);
        assert(turns[n - 1].done(disks[n - 1], disks[(n - 1) + 1], p));
        assert(turns[n - 1] is Rest);
    }
}

/// The tokens are at steps of their ways on the disk `d`, none further than at `x`, and everything
/// else is where it was on the disk `base`, but for names in `scratch`.
pub open spec fn drawn_back(base: Disk, d: Disk, p: PlanView, x: Seq<Pos>, scratch: Set<FileId>) -> bool {
    exists|next: Disk, c: Seq<Pos>| #[trigger]
        scattered(next, d, p, c) && kin(base, next, scratch) && no_further(x, c)
}

/// Tokens are in place alike on disks that differ in `scratch` only.
proof fn lemma_kin_in_place(a: Disk, b: Disk, p: PlanView, x: Seq<Pos>, scratch: Set<FileId>)
    requires
        a.well_formed(),
        kin(a, b, scratch),
        secluded(a, scratch),
        tokens_in_place(a, p, x),
    ensures
        tokens_in_place(b, p, x),
{
    assert forall|u: int, l: LocView| #![trigger rests_at(p, u, x[u], l)] 0 <= u < x.len() && rests_at(
        p,
        u,
        x[u],
        l,
    ) implies in_place(b, l) by {
        assert(in_place(a, l));
        lemma_kin_resolves(a, b, scratch, l.path.drop_last());
    }
}

/// A wave of which `n` steps have been undone, with some of that having come out.
proof fn lemma_back_cut(
    base: Disk,
    a: Disk,
    z: Disk,
    e: Disk,
    p: PlanView,
    x: Seq<Pos>,
    v: int,
    w: int,
    n: int,
    f: Seq<Fate>,
    scratch: Set<FileId>,
)
    requires
        fitting(base, p),
        0 <= w < p.waves.len(),
        poised(base, a, p, x, v, w + 1, scratch),
        0 <= n <= p.waves[w].len(),
        steps_undone(a, z, p, x, p.waves[w], n),
        possible(z.pending, f),
        e.names == survivors(z.durable, z.pending, f),
        same_volume(base, e),
        same_kinds(base, e),
    ensures
        drawn_back(base, e, p, x, scratch),
{
    let wave = p.waves[w];
    let all = backward(x, wave);
    let turns = all.take(n);
    assert(p.has_locations());
    let disks = lemma_back_chain(base, a, z, p, x, w, n);
    lemma_backward_side_by_side(base, a, p, w, x);
    lemma_fewer_turns(a, p, all, n, x);
    lemma_lead_away(base, a, p);
    lemma_chain(disks, p, turns, n);
    let g = earlier(disks, f);
    lemma_survivors_from(a.durable, z.pending, f, a.pending.len() as int);
    lemma_left_is_kin(a, g, scratch);
    lemma_rebased(base, a, left_with(a, g), p, x, scratch);
    let next = rebased(base, left_with(a, g), scratch);
    let c = lemma_cut(disks, p, turns, x, scratch, n, f, next, home(p));
    let left = left_of(disks, n, f);
    lemma_same_kinds(base, left, e);
    lemma_well_formed_by_names(left, e);
    lemma_rearranged_by_names(next, left, e, p, home(p), c);
    if w > v {
        lemma_untouched_rests(p, x, w);
        assert forall|i: int| 0 <= i < turns.len() implies #[trigger] turns[i] is Rest by {
            assert(all[i] is Rest);
        }
        assert(c =~= x) by {
            assert forall|u: int| 0 <= u < c.len() implies c[u] == x[u] by {
                assert(turned(turns, n, x, c, u));
                if c[u] != x[u] {
                    let (i, g) = choose|i: int, g: Fate|
                        0 <= i < n && !(turns[i] is Rest) && turns[i].step().token == u && c[u]
                            == #[trigger] turns[i].leaves(g);
                    assert(turns[i] is Rest);
                }
            }
        }
        lemma_all_rest(disks, p, turns, n);
        assert(f =~= g);
        assert(left == left_with(a, g));
        lemma_level_shape(p, x, v, w + 1);
        lemma_same_kinds(base, a, e);
        lemma_kin_in_place(a, e, p, x, scratch);
    } else {
        assert forall|u: int| 0 <= u < c.len() implies (#[trigger] c[u] == x[u] || exists|i: int|
            0 <= i < p.waves[w].len() && (#[trigger] p.waves[w][i]).token == u && p.waves[w][i].from < usize::MAX && (c[u]
                == Pos::At((p.waves[w][i].from + 1) as usize) || c[u] == Pos::At(p.waves[w][i].from) || c[u]
                == Pos::Both(p.waves[w][i].from))) by {
            assert(turned(turns, n, x, c, u));
            if c[u] != x[u] {
                let (i, g) = choose|i: int, g: Fate|
                    0 <= i < n && !(turns[i] is Rest) && turns[i].step().token == u && c[u] == #[trigger] turns[i].leaves(
                        g,
                    );
                assert(turns[i] == all[i]);
                assert(p.waves[w][i].token == u);
                assert(turns[i].step() == p.waves[w][i]);
            }
        }
        lemma_cut_shape(p, x, c, v, w);
        lemma_back_level(p, x, v, w);
        lemma_same_kinds(base, a, e);
        assert(about_wave(p, w, turns)) by {
            assert forall|j: int| 0 <= j < turns.len() && !(#[trigger] turns[j] is Rest) implies turns[j].step()
                == p.waves[w][j] by {
                assert(turns[j] == all[j]);
            }
        }
        lemma_tokens_stay_in_place(base, disks, p, w, turns, x, scratch, n, f, c, e);
        assert forall|u: int| 0 <= u < x.len() implies index_of(#[trigger] c[u]) <= index_of(x[u]) by {
            assert(turned(turns, n, x, c, u));
            if c[u] != x[u] {
                let (i, g) = choose|i: int, g: Fate|
                    0 <= i < n && !(turns[i] is Rest) && turns[i].step().token == u && c[u] == #[trigger] turns[i].leaves(
                        g,
                    );
                assert(turns[i] == all[i]);
                assert(x[u] == turns[i].was());
                assert(p.names_move(turns[i].step()));
            }
        }
    }
    lemma_same_kinds(base, next, e);
    assert(scattered(next, e, p, c) && kin(base, next, scratch) && no_further(x, c));
}

/// A whole wave, back: the tokens are where undoing it leads, and all names are durable.
pub proof fn lemma_wave_back(base: Disk, a: Disk, b: Disk, p: PlanView, x: Seq<Pos>, y: Seq<Pos>, v: int, w: int, scratch: Set<FileId>)
    requires
        fitting(base, p),
        0 <= w < p.waves.len(),
        poised(base, a, p, x, v, w + 1, scratch),
        wave_reverted(a, b, p, x, w),
        y == undo_steps(x, p.waves[w], p.waves[w].len() as int),
        positions_fit(p, y),
        undone_to(p, y, w, 0),
    ensures
        poised(base, b, p, y, v, w, scratch),
{
    let wave = p.waves[w];
    let n = wave.len() as int;
    let turns = backward(x, wave);
    let m = choose|m: Disk| #[trigger] steps_undone(a, m, p, x, wave, n) && parents_synced(m, b, wave_ends(p, wave));
    let dirs = choose|dirs: Seq<FileId>|
        b == #[trigger] synced_all(m, dirs) && forall|l: LocView| #[trigger]
            wave_ends(p, wave).contains(l) ==> parent_covered(m, l, dirs);
    assert(p.has_locations());
    let disks = lemma_back_chain(base, a, m, p, x, w, n);
    assert(turns.take(n) =~= turns);
    lemma_backward_side_by_side(base, a, p, w, x);
    lemma_lead_away(base, a, p);
    lemma_chain(disks, p, turns, n);
    lemma_synced_all(m, dirs);
    assert forall|i: int, l: LocView|
        0 <= i < turns.len() && #[trigger] turns[i].concerns(p, l) implies parent_covered(
        disks[turns.len() as int],
        l,
        dirs,
    ) by {
        assert(p.is_endpoint(wave[i], l));
        assert(wave_ends(p, wave).contains(l));
    }
    lemma_wave_firm(disks, p, turns, x, scratch, dirs);
    lemma_chain_secluded(disks, p, turns, x, scratch, n);
    let f = all_apply(m.pending.len());
    lemma_all_come_out(a, m, f);
    let c = lemma_cut(disks, p, turns, x, scratch, n, f, base, home(p));
    lemma_rearranged_by_names(base, left_of(disks, n, f), b, p, home(p), c);
    lemma_tokens_differ(p, w);
    assert(c =~= y) by {
        lemma_undo_steps_len(x, wave, n);
        assert forall|u: int| 0 <= u < c.len() implies c[u] == y[u] by {
            lemma_undo_steps_at(x, wave, n, u);
            assert(turned(turns, n, x, c, u));
            if exists|i: int| 0 <= i < n && (#[trigger] wave[i]).token == u {
                let i = choose|i: int| 0 <= i < n && (#[trigger] wave[i]).token == u;
                assert(turns[i] == undo_turn(x[u], wave[i]));
                if !(turns[i] is Rest) {
                    assert(c[turns[i].step().token as int] == turns[i].leaves(Fate::Apply));
                } else if c[u] != x[u] {
                    let (j, g) = choose|j: int, g: Fate|
                        0 <= j < n && !(turns[j] is Rest) && turns[j].step().token == u && c[u]
                            == #[trigger] turns[j].leaves(g);
                    assert(turns[j] == undo_turn(x[wave[j].token as int], wave[j]));
                    assert(wave[j].token == u);
                    assert(i == j);
                }
            } else {
                assert(forall|i: int| 0 <= i < n ==> (#[trigger] wave[i]).token != u);
                if c[u] != x[u] {
                    let (j, g) = choose|j: int, g: Fate|
                        0 <= j < n && !(turns[j] is Rest) && turns[j].step().token == u && c[u]
                            == #[trigger] turns[j].leaves(g);
                    assert(turns[j] == undo_turn(x[wave[j].token as int], wave[j]));
                    assert(wave[j].token == u);
                }
            }
        }
    }
    lemma_level_down(p, x, y, v, w);
    if w > v {
        lemma_untouched_rests(p, x, w);
        lemma_all_rest(disks, p, turns, n);
        lemma_tokens_by_names(a, b, p, y);
    } else {
        lemma_back_level(p, x, v, w);
        lemma_tokens_stay_in_place(base, disks, p, w, turns, x, scratch, n, f, c, b);
    }
}

/// Writing to the log leaves the tokens where they are.
proof fn lemma_poised_logged(base: Disk, a: Disk, b: Disk, tx: TxDir, p: PlanView, x: Seq<Pos>, v: int, w: int, scratch: Set<FileId>)
    requires
        poised(base, a, p, x, v, w, scratch),
        only_log_changed(a, b, tx.at().push(progress_name())),
    ensures
        poised(base, b, p, x, v, w, scratch),
{
    lemma_log_well_formed(a, b, tx.at().push(progress_name()));
    lemma_settled_logged(a, b, p, tx.at().push(progress_name()), scratch);
    lemma_rearranged_by_names(base, a, b, p, home(p), x);
    lemma_tokens_by_names(a, b, p, x);
    assert forall|id: FileId| #[trigger] base.objects.contains_key(id) implies b.objects[id].kind()
        == base.objects[id].kind() by {
        assert(a.objects.contains_key(id));
    }
}

/// With all waves from `w` on undone, the tokens are where that leads, and all names are
/// durable.
pub proof fn lemma_waves_back(base: Disk, a: Disk, d: Disk, tx: TxDir, p: PlanView, pos: Seq<Pos>, v: int, w: int, scratch: Set<FileId>)
    requires
        fitting(base, p),
        0 <= w <= p.waves.len(),
        poised(base, a, p, pos, v, p.waves.len() as int, scratch),
        waves_undone(a, d, tx, p, pos, w),
    ensures
        poised(base, d, p, undo_waves(p, pos, w), v, w, scratch),
    decreases p.waves.len() - w,
{
    if w < p.waves.len() {
        let x = undo_waves(p, pos, w + 1);
        let y = undo_waves(p, pos, w);
        let m = choose|m: Disk|
            waves_undone(a, m, tx, p, pos, w + 1) && #[trigger] wave_undone(m, d, tx, p, undo_waves(p, pos, w + 1), w);
        lemma_waves_back(base, a, m, tx, p, pos, v, w + 1, scratch);
        let s = choose|s: Disk| #[trigger]
            wave_reverted(m, s, p, x, w) && logged(s, d, tx, Record::UndoDone(w as u32));
        lemma_undo_waves(p, pos, w);
        lemma_wave_back(base, m, s, p, x, y, v, w, scratch);
        lemma_logged(s, d, tx, Record::UndoDone(w as u32));
        lemma_poised_logged(base, s, d, tx, p, y, v, w, scratch);
    }
}

/// Some location has its parent in place, and that is the directory.
pub open spec fn reachable(d: Disk, p: PlanView, dir: FileId) -> bool {
    exists|t: int, i: int|
        0 <= t < p.tokens.len() && 0 <= i < p.tokens[t].locs.len() && in_place(d, #[trigger] p.tokens[t].locs[i])
            && p.tokens[t].locs[i].parent == dir
}

/// The first `n` pending changes make no difference outside `scratch`, and the others wait for
/// directories that the plan's locations lead to.
pub open spec fn within_reach(d: Disk, p: PlanView, scratch: Set<FileId>, n: int) -> bool {
    &&& consistent(d)
    &&& sturdy(d)
    &&& 0 <= n <= d.pending.len()
    &&& settled_part(d, n, scratch)
    &&& forall|i: int| n <= i < d.pending.len() ==> avoids(#[trigger] d.pending[i], scratch)
    &&& forall|i: int, dir: FileId| n <= i && #[trigger] waits(d, i, dir) ==> reachable(d, p, dir)
}

/// What is pending outside `scratch` is within reach, or was before some directories were synced.
pub open spec fn calm(d: Disk, p: PlanView, scratch: Set<FileId>) -> bool {
    &&& secluded(d, scratch)
    &&& outlying(p, scratch)
    &&& exists|m: Disk, dirs: Seq<FileId>, n: int|
        d == #[trigger] synced_all(m, dirs) && #[trigger] within_reach(m, p, scratch, n)
}

/// Where nothing is pending but in `scratch`, all is calm.
pub proof fn lemma_settled_is_calm(d: Disk, p: PlanView, scratch: Set<FileId>)
    requires
        settled(d, p, scratch),
    ensures
        calm(d, p, scratch),
{
    let none = Seq::<FileId>::empty();
    assert(d == synced_all(d, none));
    assert(within_reach(d, p, scratch, d.pending.len() as int));
}

/// Within a wave, all is calm, and stays so when directories are synced.
proof fn lemma_turns_calm(
    disks: Seq<Disk>,
    p: PlanView,
    turns: Seq<Turn>,
    x: Seq<Pos>,
    scratch: Set<FileId>,
    n: int,
    dirs: Seq<FileId>,
)
    requires
        taken_in_turn(disks, p, turns),
        disks[0].well_formed(),
        settled(disks[0], p, scratch),
        tame(disks[0], p),
        side_by_side(disks[0], p, turns, x),
        positions_fit(p, x),
        seated(disks[0], p, x),
        0 <= n <= turns.len(),
    ensures
        calm(synced_all(disks[n], dirs), p, scratch),
{
    let z = disks[n];
    let len = disks[0].pending.len() as int;
    lemma_chain(disks, p, turns, n);
    lemma_changes_within(disks, p, turns, n);
    lemma_turns_avoid(disks, p, turns, x, scratch, n);
    lemma_turns_sturdy(disks, p, turns, x, scratch, n);
    lemma_chain_secluded(disks, p, turns, x, scratch, n);
    lemma_synced_all(z, dirs);
    assert(settled_part(z, len, scratch)) by {
        assert(disks[0].pending.take(len) =~= disks[0].pending);
    }
    assert forall|i: int, dir: FileId| len <= i && #[trigger] waits(z, i, dir) implies reachable(z, p, dir) by {
        assert(within_turns(disks[0], p, turns, n, z.pending[i]));
        assert(z.pending[i].unsynced.contains(dir));
        let (j, l) = choose|j: int, l: LocView| 0 <= j < n && #[trigger] turns[j].concerns(p, l) && l.parent == dir;
        lemma_parents_stay(disks, p, turns, x, j, l, n);
        let s = turns[j].step();
        assert(p.names_move(s));
        let t = s.token as int;
        if l == p.src(s) {
            assert(in_place(z, p.tokens[t].locs[s.from as int]));
        } else {
            assert(in_place(z, p.tokens[t].locs[s.from + 1]));
        }
    }
    assert(within_reach(z, p, scratch, len));
}

/// Syncing the parents of all locations makes all names durable outside `scratch`.
proof fn lemma_stable_is_settled(e: Disk, s: Disk, p: PlanView, scratch: Set<FileId>)
    requires
        calm(e, p, scratch),
        e.steady,
        parents_synced(e, s, all_locations(p)),
    ensures
        settled(s, p, scratch),
{
    let last = choose|dirs: Seq<FileId>|
        s == #[trigger] synced_all(e, dirs) && forall|l: LocView| #[trigger]
            all_locations(p).contains(l) ==> parent_covered(e, l, dirs);
    let (m, first, n) = choose|m: Disk, dirs: Seq<FileId>, n: int|
        e == #[trigger] synced_all(m, dirs) && #[trigger] within_reach(m, p, scratch, n);
    let dirs = first + last;
    lemma_synced_further(m, first, last);
    lemma_synced_all(m, first);
    lemma_synced_all(e, last);
    crate::tree::lemma_same_content(m, e);
    assert forall|i: int, dir: FileId|
        n <= i < m.pending.len() && #[trigger] m.pending[i].unsynced.contains(dir) implies dirs.contains(dir) by {
        assert(waits(m, i, dir));
        let (t, h) = choose|t: int, h: int|
            0 <= t < p.tokens.len() && 0 <= h < p.tokens[t].locs.len() && in_place(m, #[trigger] p.tokens[t].locs[h])
                && p.tokens[t].locs[h].parent == dir;
        let l = p.tokens[t].locs[h];
        assert(e.resolve(l.path.drop_last()) == m.resolve(l.path.drop_last()));
        assert(in_place(e, l));
        assert(all_locations(p).contains(l));
        assert(parent_covered(e, l, last));
        let j = choose|j: int| 0 <= j < last.len() && last[j] == dir;
        assert(dirs[first.len() + j] == dir);
    }
    lemma_synced_firm(m, n, dirs, scratch);
}

/// A marker is durable once it is set, if everything else was.
pub proof fn lemma_marked_settled(s: Disk, m: Disk, tx: TxDir, marker: Marker, p: PlanView, scratch: Set<FileId>) -> (
    fewer: Set<FileId>)
    requires
        s.well_formed(),
        m.well_formed(),
        settled(s, p, scratch),
        marked(s, m, tx, marker),
    ensures
        settled(m, p, fewer),
{
    let at = tx.at().push(marker.file());
    let mid = choose|mid: Disk| #[trigger]
        dir_synced_at(mid, m, tx.at()) && (mid == s && s.key_at(tx.at().push(marker.file())) is Some || made_marker(
            s,
            mid,
            tx,
            marker,
        ));
    let own = mid.dir_at(tx.at())->0;
    let dirs = seq![own];
    let len = s.pending.len() as int;
    assert(dirs.drop_last() =~= Seq::<FileId>::empty());
    reveal_with_fuel(synced_all, 2);
    if mid == s {
        lemma_synced_firm(s, len, dirs, scratch);
        scratch
    } else {
        let (id, mode) = choose|id: FileId, mode: u32| #[trigger]
            created_at(s, mid, at, id, Object::File { data: Seq::empty(), mode });
        assert(at.drop_last() =~= tx.at());
        let fewer = scratch.remove(id);
        let dir = s.dir_at(tx.at())->0;
        let k = Key { dir, name: at.last() };
        lemma_fewer_scratch(s, p, scratch, id);
        lemma_secluded(s, fewer, tx.at());
        assert(dir != id) by {
            crate::restoration::lemma_resolved_linked(s, tx.at());
        }
        lemma_firmly_absent(s, fewer, dir, at.last());
        lemma_created_sturdy(s, mid, k, id, Object::File { data: Seq::empty(), mode });
        assert(own == dir) by {
            crate::tree::lemma_child_off_path(s, tx.at(), marker.file());
            crate::tree::lemma_frame_create(s, mid, at, id, Object::File { data: Seq::empty(), mode }, tx.at());
        }
        assert(mid.pending.take(len) =~= s.pending);
        assert(s.pending.take(len) =~= s.pending);
        assert forall|i: int, x: FileId|
            len <= i < mid.pending.len() && #[trigger] mid.pending[i].unsynced.contains(x) implies dirs.contains(x) by {
            assert(x == dir);
            assert(dirs[0] == dir);
        }
        lemma_synced_firm(mid, len, dirs, fewer);
        assert forall|q: Key| #[trigger] m.names.contains_key(q) && !fewer.contains(q.dir) implies !fewer.contains(
            m.names[q],
        ) by {
            if q != k {
                assert(s.names.contains_key(q));
            }
        }
        fewer
    }
}

/// The decision to roll back is durable.
proof fn lemma_begun_settled(e: Disk, m: Disk, tx: TxDir, p: PlanView, scratch: Set<FileId>) -> (fewer: Set<FileId>)
    requires
        e.well_formed(),
        m.well_formed(),
        calm(e, p, scratch),
        e.steady,
        begun(e, m, tx, p),
    ensures
        settled(m, p, fewer),
{
    let s = choose|s: Disk|
        only_synced(e, s) && parents_synced(e, s, all_locations(p)) && #[trigger] marked(s, m, tx, Marker::RollingBack);
    lemma_stable_is_settled(e, s, p, scratch);
    lemma_marked_settled(s, m, tx, Marker::RollingBack, p, scratch)
}

/// The disk `d` can be brought back to the names that `d0` had: over `d0` with names added in
/// the transaction's own directory, the tokens are at steps of their ways and everything else
/// is in its place, and what is pending is within reach, but for names in directories that
/// nothing leads to.
pub open spec fn recoverable(d0: Disk, d: Disk, p: PlanView, tx: TxDir) -> bool {
    exists|base: Disk, pos: Seq<Pos>, scratch: Set<FileId>| #[trigger]
        brought_back(d0, base, d, p, tx, pos, scratch)
}

/// Over `base`, which is `d0` as far as paths outside the private area go, the tokens are at
/// `pos` on the disk `d`.
pub open spec fn brought_back(
    d0: Disk,
    base: Disk,
    d: Disk,
    p: PlanView,
    tx: TxDir,
    pos: Seq<Pos>,
    scratch: Set<FileId>,
) -> bool {
    &&& scattered(base, d, p, pos)
    &&& grounded(base, p, tx)
    &&& same_start(d0, base, tx)
    &&& calm(d, p, scratch)
}

/// Every path outside the private area leads where it did, and so does the path of the log.
pub open spec fn same_start(d0: Disk, base: Disk, tx: TxDir) -> bool {
    &&& same_names(d0, base)
    &&& d0.file_at(log_path(tx)) is Some ==> base.file_at(log_path(tx)) == d0.file_at(log_path(tx))
}

/// What a power loss leaves is durable.
proof fn lemma_lost_calm(d: Disk, e: Disk, p: PlanView, scratch: Set<FileId>)
    requires
        power_lost(d, e),
        e.well_formed(),
        secluded(e, scratch),
        outlying(p, scratch),
    ensures
        calm(e, p, scratch),
{
    let f = choose|f: Seq<Fate>| #[trigger] lost_with(d, e, f);
    lemma_quiet_is_firm(e, scratch);
    lemma_settled_is_calm(e, p, scratch);
}

/// Applying leaves nothing pending that is out of reach.
proof fn lemma_applying_calm(d0: Disk, d: Disk, tx: TxDir, p: PlanView, scratch: Set<FileId>)
    requires
        sound_start(d0, p, scratch),
        applying(d0, d, tx, p) || waves_applied(d0, d, tx, p, p.waves.len() as int),
    ensures
        calm(d, p, scratch),
{
    if waves_applied(d0, d, tx, p, p.waves.len() as int) {
        lemma_waves_forward(d0, d, tx, p, p.waves.len() as int, scratch);
        lemma_settled_is_calm(d, p, scratch);
    } else {
        let w = choose|w: int| 0 <= w < p.waves.len() && #[trigger] stopped_in(d0, d, tx, p, w);
        let a = choose|a: Disk| #[trigger] waves_applied(d0, a, tx, p, w) && within_wave(a, d, tx, p, w);
        lemma_waves_forward(d0, a, tx, p, w, scratch);
        let wave = p.waves[w];
        let pos = ats(p.positions(w));
        lemma_forward_side_by_side(d0, a, p, w);
        lemma_lead_away(d0, a, p);
        if exists|n: int| 0 <= n <= wave.len() && #[trigger] steps_taken(a, d, p, wave, n) {
            let n = choose|n: int| 0 <= n <= wave.len() && #[trigger] steps_taken(a, d, p, wave, n);
            let disks = lemma_steps_chain(a, d, p, wave, n);
            lemma_fewer_side_by_side(a, p, wave, n, pos);
            lemma_turns_calm(disks, p, forward(wave.take(n)), pos, scratch, n, Seq::empty());
            assert(synced_all(d, Seq::empty()) == d);
        } else if exists|m: Disk| #[trigger] steps_taken(a, m, p, wave, wave.len() as int) && some_synced(m, d) {
            let m = choose|m: Disk| #[trigger] steps_taken(a, m, p, wave, wave.len() as int) && some_synced(m, d);
            let n = wave.len() as int;
            let dirs = choose|dirs: Seq<FileId>| d == #[trigger] synced_all(m, dirs);
            let disks = lemma_steps_chain(a, m, p, wave, n);
            lemma_fewer_side_by_side(a, p, wave, n, pos);
            lemma_turns_calm(disks, p, forward(wave.take(n)), pos, scratch, n, dirs);
        } else {
            let at = tx.at().push(progress_name());
            let m = choose|m: Disk| #[trigger] wave_settled(a, m, p, w) && only_log_changed(m, d, at);
            lemma_wave_forward(d0, a, m, tx, p, w, scratch);
            lemma_settled_logged(m, d, p, at, scratch);
            lemma_settled_is_calm(d, p, scratch);
        }
    }
}

/// Over a base that differs in `scratch` only, what is left can be brought back as well.
proof fn lemma_brought_back(
    d0: Disk,
    base: Disk,
    next: Disk,
    d: Disk,
    e: Disk,
    p: PlanView,
    tx: TxDir,
    pos: Seq<Pos>,
    scratch: Set<FileId>,
)
    requires
        grounded(base, p, tx),
        same_start(d0, base, tx),
        kin(base, next, scratch),
        secluded(base, scratch),
        outlying(p, scratch),
        scattered(next, e, p, pos),
        power_lost(d, e) || calm(e, p, scratch),
    ensures
        brought_back(d0, next, e, p, tx, pos, scratch),
{
    lemma_kin_grounded(base, next, p, tx, scratch);
    lemma_same_names_transitive(d0, base, next);
    if power_lost(d, e) {
        lemma_moved_secluded(next, e, p, pos, scratch);
        lemma_lost_calm(d, e, p, scratch);
    }
}

/// Atomicity, first half. Wherever applying a plan is cut off, by a power loss or by the end
/// of the process, what is left can be brought back.
pub proof fn law_interrupted_apply_is_recoverable(
    d0: Disk,
    d: Disk,
    e: Disk,
    tx: TxDir,
    p: PlanView,
    scratch: Set<FileId>,
)
    requires
        grounded(d0, p, tx),
        settled(d0, p, scratch),
        applying(d0, d, tx, p) || waves_applied(d0, d, tx, p, p.waves.len() as int),
        cut_off(d, e),
    ensures
        recoverable(d0, e, p, tx),
{
    law_interrupted_tokens_are_on_their_way(d0, d, e, tx, p, scratch);
    let (base, pos) = choose|base: Disk, pos: Seq<Pos>| #[trigger] scattered(base, e, p, pos) && kin(d0, base, scratch);
    crate::tree::lemma_same_content(d0, d0);
    if !power_lost(d, e) {
        lemma_applying_calm(d0, d, tx, p, scratch);
    }
    lemma_brought_back(d0, d0, base, d, e, p, tx, pos, scratch);
}

/// Undoing a wave moves no token further.
proof fn lemma_wave_no_further(p: PlanView, x: Seq<Pos>, w: int)
    requires
        p.valid(),
        positions_fit(p, x),
        0 <= w < p.waves.len(),
    ensures
        no_further(x, undo_steps(x, p.waves[w], p.waves[w].len() as int)),
{
    let wave = p.waves[w];
    let n = wave.len() as int;
    let y = undo_steps(x, wave, n);
    lemma_tokens_differ(p, w);
    lemma_undo_steps_len(x, wave, n);
    assert forall|u: int| 0 <= u < x.len() implies index_of(#[trigger] y[u]) <= index_of(x[u]) by {
        lemma_undo_steps_at(x, wave, n, u);
        if exists|i: int| 0 <= i < n && (#[trigger] wave[i]).token == u {
            let i = choose|i: int| 0 <= i < n && (#[trigger] wave[i]).token == u;
            assert(y[u] == after_undo(x[u], wave[i].from));
        } else {
            assert(forall|i: int| 0 <= i < n ==> (#[trigger] wave[i]).token != u);
        }
    }
}

/// Undoing waves moves no token further.
proof fn lemma_waves_no_further(p: PlanView, pos: Seq<Pos>, w: int)
    requires
        p.valid(),
        positions_fit(p, pos),
        0 <= w <= p.waves.len(),
    ensures
        no_further(pos, undo_waves(p, pos, w)),
    decreases p.waves.len() - w,
{
    if w < p.waves.len() {
        lemma_waves_no_further(p, pos, w + 1);
        lemma_undo_waves(p, pos, w + 1);
        let x = undo_waves(p, pos, w + 1);
        lemma_wave_no_further(p, x, w);
        let y = undo_waves(p, pos, w);
        assert forall|u: int| 0 <= u < pos.len() implies index_of(#[trigger] y[u]) <= index_of(pos[u]) by {
            assert(index_of(y[u]) <= index_of(x[u]));
            assert(index_of(x[u]) <= index_of(pos[u]));
        }
    }
}

/// Within the undoing of a wave, wherever it is cut off, the tokens are at steps of their ways.
proof fn lemma_undo_cut(
    base: Disk,
    a: Disk,
    d: Disk,
    e: Disk,
    tx: TxDir,
    p: PlanView,
    x: Seq<Pos>,
    v: int,
    w: int,
    scratch: Set<FileId>,
)
    requires
        fitting(base, p),
        0 <= w < p.waves.len(),
        poised(base, a, p, x, v, w + 1, scratch),
        positions_fit(p, undo_steps(x, p.waves[w], p.waves[w].len() as int)),
        undone_to(p, undo_steps(x, p.waves[w], p.waves[w].len() as int), w, 0),
        within_undo(a, d, tx, p, x, w),
        cut_off(d, e),
    ensures
        drawn_back(base, e, p, x, scratch),
        calm(d, p, scratch),
{
    let wave = p.waves[w];
    let all = backward(x, wave);
    lemma_backward_side_by_side(base, a, p, w, x);
    lemma_lead_away(base, a, p);
    if exists|n: int| 0 <= n <= wave.len() && #[trigger] steps_undone(a, d, p, x, wave, n) {
        let n = choose|n: int| 0 <= n <= wave.len() && #[trigger] steps_undone(a, d, p, x, wave, n);
        lemma_undo_cut_within(base, a, d, e, p, x, v, w, n, scratch);
        let disks = lemma_back_chain(base, a, d, p, x, w, n);
        lemma_fewer_turns(a, p, all, n, x);
        lemma_turns_calm(disks, p, all.take(n), x, scratch, n, Seq::empty());
        assert(synced_all(d, Seq::empty()) == d);
    } else if exists|m: Disk| #[trigger] steps_undone(a, m, p, x, wave, wave.len() as int) && some_synced(m, d) {
        let n = wave.len() as int;
        let m = choose|m: Disk| #[trigger] steps_undone(a, m, p, x, wave, wave.len() as int) && some_synced(m, d);
        let dirs = choose|dirs: Seq<FileId>| d == #[trigger] synced_all(m, dirs);
        lemma_synced_all(m, dirs);
        if power_lost(d, e) {
            law_syncing_narrows_what_power_loss_may_leave(m, dirs, e);
        }
        lemma_undo_cut_within(base, a, m, e, p, x, v, w, n, scratch);
        let disks = lemma_back_chain(base, a, m, p, x, w, n);
        lemma_fewer_turns(a, p, all, n, x);
        lemma_turns_calm(disks, p, all.take(n), x, scratch, n, dirs);
    } else {
        let at = tx.at().push(progress_name());
        let y = undo_steps(x, wave, wave.len() as int);
        let m = choose|m: Disk| #[trigger] wave_reverted(a, m, p, x, w) && only_log_changed(m, d, at);
        lemma_wave_back(base, a, m, p, x, y, v, w, scratch);
        lemma_poised_logged(base, m, d, tx, p, y, v, w, scratch);
        let next = lemma_poised_cut(base, d, e, p, y, v, w, scratch);
        lemma_settled_is_calm(d, p, scratch);
        lemma_wave_no_further(p, x, w);
        assert(scattered(next, e, p, y) && kin(base, next, scratch) && no_further(x, y));
    }
}

/// Cut off between waves.
proof fn lemma_poised_cut(base: Disk, d: Disk, e: Disk, p: PlanView, y: Seq<Pos>, v: int, w: int, scratch: Set<FileId>) -> (next: Disk)
    requires
        fitting(base, p),
        poised(base, d, p, y, v, w, scratch),
        w >= 0,
        cut_off(d, e),
    ensures
        scattered(next, e, p, y),
        kin(base, next, scratch),
{
    let next = lemma_settled_cut(base, d, e, p, y, scratch);
    lemma_level_shape(p, y, v, w);
    next
}

/// Cut off while the steps of a wave are being undone.
proof fn lemma_undo_cut_within(
    base: Disk,
    a: Disk,
    z: Disk,
    e: Disk,
    p: PlanView,
    x: Seq<Pos>,
    v: int,
    w: int,
    n: int,
    scratch: Set<FileId>,
)
    requires
        fitting(base, p),
        0 <= w < p.waves.len(),
        poised(base, a, p, x, v, w + 1, scratch),
        0 <= n <= p.waves[w].len(),
        steps_undone(a, z, p, x, p.waves[w], n),
        cut_off(z, e) || (e.names == z.names && same_volume(z, e) && same_kinds(z, e)),
    ensures
        drawn_back(base, e, p, x, scratch),
{
    let disks = lemma_back_chain(base, a, z, p, x, w, n);
    lemma_chain(disks, p, backward(x, p.waves[w]).take(n), n);
    assert(same_kinds(base, z));
    if power_lost(z, e) {
        lemma_lost_kinds(base, z, e);
        let f = choose|f: Seq<Fate>| #[trigger] lost_with(z, e, f);
        lemma_back_cut(base, a, z, e, p, x, v, w, n, f, scratch);
    } else {
        assert forall|id: FileId| #[trigger] base.objects.contains_key(id) implies e.objects[id].kind()
            == base.objects[id].kind() by {
            assert(z.objects.contains_key(id));
        }
        lemma_back_cut(base, a, z, e, p, x, v, w, n, all_apply(z.pending.len()), scratch);
    }
}

/// Once the rollback has been decided, the tokens are poised for undoing.
pub proof fn lemma_poised(d0: Disk, d: Disk, m: Disk, tx: TxDir, p: PlanView, seen: Seq<Pos>) -> (r: (
    Disk,
    int,
    Set<FileId>,
))
    requires
        recoverable(d0, d, p, tx),
        cleared(d, tx, p, seen),
        begun(d, m, tx, p),
        m.well_formed(),
    ensures
        poised(r.0, m, p, seen, r.1, p.waves.len() as int, r.2),
        grounded(r.0, p, tx),
        same_start(d0, r.0, tx),
{
    let (first, pos, more) = choose|base: Disk, pos: Seq<Pos>, scratch: Set<FileId>| #[trigger]
        brought_back(d0, base, d, p, tx, pos, scratch);
    law_recovery_is_never_mistaken(first, d, p, tx, pos, seen);
    let base = lemma_decided(first, d, m, p, tx, pos);
    lemma_same_names_transitive(d0, first, base);
    let scratch = lemma_begun_settled(d, m, tx, p, more);
    let v = choose|v: int| shape_at(p, pos, v);
    let last = p.waves.len() as int;
    assert(level(p, pos, v, last));
    (base, v, scratch)
}

/// If nothing leads into `scratch` with the tokens where they are, nothing did before.
proof fn lemma_base_secluded(base: Disk, m: Disk, p: PlanView, pos: Seq<Pos>, scratch: Set<FileId>)
    requires
        fitting(base, p),
        m.well_formed(),
        same_volume(base, m),
        same_kinds(base, m),
        positions_fit(p, pos),
        rearranged(base, m, p, home(p), pos),
        secluded(m, scratch),
        outlying(p, scratch),
    ensures
        secluded(base, scratch),
{
    lemma_home_fits(p);
    assert forall|k: Key| #[trigger] base.names.contains_key(k) && !scratch.contains(k.dir) implies !scratch.contains(
        base.names[k],
    ) by {
        let q = lemma_named_outside(base, m, p, pos, scratch, k);
        assert(m.names.contains_key(q));
    }
}

/// Over two bases that differ in `scratch` only, the transaction's directory is the same.
proof fn lemma_own_place_kept(
    base: Disk,
    next: Disk,
    m: Disk,
    e: Disk,
    p: PlanView,
    tx: TxDir,
    pos: Seq<Pos>,
    c: Seq<Pos>,
    scratch: Set<FileId>,
)
    requires
        grounded(base, p, tx),
        grounded(next, p, tx),
        kin(base, next, scratch),
        secluded(base, scratch),
        m.well_formed(),
        same_volume(base, m),
        same_kinds(base, m),
        positions_fit(p, pos),
        rearranged(base, m, p, home(p), pos),
        scattered(next, e, p, c),
    ensures
        own_place_kept(m, e, tx),
{
    assert forall|name: Name| #[trigger] e.resolve(tx.at().push(name)) == m.resolve(tx.at().push(name)) && e.file_at(
        tx.at().push(name),
    ) == m.file_at(tx.at().push(name)) by {
        lemma_own_place(base, m, p, tx, pos, name);
        lemma_own_place(next, e, p, tx, c, name);
        lemma_kin_resolves(base, next, scratch, tx.at().push(name));
        if base.resolve(tx.at().push(name)) is Some {
            let id = base.resolve(tx.at().push(name))->0;
            lemma_resolved_linked(base, tx.at().push(name));
            assert(next.objects[id].kind() == base.objects[id].kind());
        }
    }
}

/// What is directly inside the transaction's directory is the same in both states.
pub open spec fn own_place_kept(a: Disk, b: Disk, tx: TxDir) -> bool {
    forall|name: Name| #[trigger] b.resolve(tx.at().push(name)) == a.resolve(tx.at().push(name)) && b.file_at(
        tx.at().push(name),
    ) == a.file_at(tx.at().push(name))
}

/// Wherever undoing is cut off, the tokens are at steps of their ways, and none is further than
/// before.
pub proof fn lemma_interrupted_undo(
    d0: Disk,
    d: Disk,
    m: Disk,
    n: Disk,
    e: Disk,
    tx: TxDir,
    p: PlanView,
    seen: Seq<Pos>,
) -> (r: (Disk, Seq<Pos>, Set<FileId>))
    requires
        recoverable(d0, d, p, tx),
        cleared(d, tx, p, seen),
        begun(d, m, tx, p),
        m.well_formed(),
        undoing(m, n, tx, p, seen),
        cut_off(n, e),
    ensures
        brought_back(d0, r.0, e, p, tx, r.1, r.2),
        no_further(seen, r.1),
        own_place_kept(m, e, tx),
        same_volume(m, e),
{
    let (base, v, scratch) = lemma_poised(d0, d, m, tx, p, seen);
    let pos = seen;
    lemma_base_secluded(base, m, p, pos, scratch);
    if waves_undone(m, n, tx, p, pos, 0) {
        let c = undo_waves(p, pos, 0);
        lemma_waves_back(base, m, n, tx, p, pos, v, 0, scratch);
        let next = lemma_poised_cut(base, n, e, p, c, v, 0, scratch);
        lemma_waves_no_further(p, pos, 0);
        lemma_settled_is_calm(n, p, scratch);
        lemma_brought_back(d0, base, next, n, e, p, tx, c, scratch);
        lemma_own_place_kept(base, next, m, e, p, tx, pos, c, scratch);
        (next, c, scratch)
    } else {
        let w = choose|w: int| 0 <= w < p.waves.len() && #[trigger] halted_in(m, n, tx, p, pos, w);
        let x = undo_waves(p, pos, w + 1);
        let a = choose|a: Disk| #[trigger]
            waves_undone(m, a, tx, p, pos, w + 1) && within_undo(a, n, tx, p, undo_waves(p, pos, w + 1), w);
        lemma_waves_back(base, m, a, tx, p, pos, v, w + 1, scratch);
        lemma_undo_waves(p, pos, w);
        lemma_undo_cut(base, a, n, e, tx, p, x, v, w, scratch);
        lemma_waves_no_further(p, pos, w + 1);
        let (next, c) = choose|next: Disk, c: Seq<Pos>| #[trigger]
            scattered(next, e, p, c) && kin(base, next, scratch) && no_further(x, c);
        assert forall|u: int| 0 <= u < pos.len() implies index_of(#[trigger] c[u]) <= index_of(pos[u]) by {
            assert(index_of(c[u]) <= index_of(x[u]));
            assert(index_of(x[u]) <= index_of(pos[u]));
        }
        lemma_brought_back(d0, base, next, n, e, p, tx, c, scratch);
        lemma_own_place_kept(base, next, m, e, p, tx, pos, c, scratch);
        (next, c, scratch)
    }
}

/// Undoing may be interrupted. Wherever undoing is cut off, by a power loss or by the end of
/// the process, what is left can be brought back as before.
pub proof fn law_interrupted_undo_is_recoverable(
    d0: Disk,
    d: Disk,
    m: Disk,
    n: Disk,
    e: Disk,
    tx: TxDir,
    p: PlanView,
    seen: Seq<Pos>,
)
    requires
        recoverable(d0, d, p, tx),
        cleared(d, tx, p, seen),
        begun(d, m, tx, p),
        m.well_formed(),
        undoing(m, n, tx, p, seen),
        cut_off(n, e),
    ensures
        recoverable(d0, e, p, tx),
{
    let (base, c, scratch) = lemma_interrupted_undo(d0, d, m, n, e, tx, p, seen);
    assert(brought_back(d0, base, e, p, tx, c, scratch));
}

/// Recovery never falls back. Wherever undoing is cut off, the next recovery finds no token
/// further on its way than the one before did: the potential is never higher.
pub proof fn law_interrupted_undo_never_raises_the_potential(
    d0: Disk,
    d: Disk,
    m: Disk,
    n: Disk,
    e: Disk,
    tx: TxDir,
    p: PlanView,
    seen: Seq<Pos>,
    again: Seq<Pos>,
)
    requires
        recoverable(d0, d, p, tx),
        cleared(d, tx, p, seen),
        begun(d, m, tx, p),
        m.well_formed(),
        undoing(m, n, tx, p, seen),
        cut_off(n, e),
        cleared(e, tx, p, again),
    ensures
        no_further(seen, again),
        potential(again) <= potential(seen),
{
    let (base, c, _) = lemma_interrupted_undo(d0, d, m, n, e, tx, p, seen);
    law_recovery_is_never_mistaken(base, e, p, tx, c, again);
    lemma_no_further(seen, again);
}

/// Atomicity, second half. From whatever can be brought back, a rollback that is carried
/// through leaves every path outside the private area leading to the object it led to before
/// the transaction, or to nothing if it led to nothing.
pub proof fn law_rollback_restores_the_tree(d0: Disk, d: Disk, f: Disk, tx: TxDir, p: PlanView, seen: Seq<Pos>)
    requires
        recoverable(d0, d, p, tx),
        cleared(d, tx, p, seen),
        rolled_back(d, f, tx, p, seen),
    ensures
        same_names(d0, f),
{
    let (base, pos, scratch) = choose|base: Disk, pos: Seq<Pos>, scratch: Set<FileId>| #[trigger]
        brought_back(d0, base, d, p, tx, pos, scratch);
    lemma_restored(base, d, f, p, tx, pos, seen);
    lemma_same_names_transitive(d0, base, f);
}

} // verus!
