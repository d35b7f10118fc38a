//! Where tokens are, and what that says about waves and logs, in plain terms.
use vstd::prelude::*;

use crate::classify::{at_start, hits, intruder, last_intruder, sits, token_pos};
use crate::disk::{Disk, Kind};
use crate::plan::PlanView;
use crate::positions::{
    after_undo, applied_max, has_shape, log_agrees, logged_applied, shape_at, state_of, undo_action, undone_min, wave_done,
    wave_untouched, Pos, StepState, UndoAction,
};
use crate::progress::Record;

verus! {

/// A token at `pos` has a name at its location `i`.
pub open spec fn occupies(pos: Pos, i: int) -> bool {
    match pos {
        Pos::At(j) => i == j,
        Pos::Both(j) => i == j || i == j + 1,
    }
}

/// A step has been made if its token has left the step's start behind, has not been made if it has not
/// gone beyond it, and is halfway if the token has a name on either side.
pub proof fn law_what_a_step_has_come_to(pos: Pos, from: int)
    ensures
        state_of(pos, from) == StepState::Pre <==> forall|i: int| #[trigger] occupies(pos, i) ==> i <= from,
        state_of(pos, from) == StepState::Post <==> forall|i: int| #[trigger] occupies(pos, i) ==> i > from,
        state_of(pos, from) == StepState::Inflight <==> occupies(pos, from) && occupies(pos, from + 1),
{
    match pos {
        Pos::At(j) => {
            assert(occupies(pos, j as int));
        },
        Pos::Both(j) => {
            assert(occupies(pos, j as int) && occupies(pos, j + 1));
        },
    }
}

/// To undo a step is to move back what is at its end alone, to drop the second name of what is at its
/// start as well, to leave alone what is not beyond its start, and else impossible. After it the token is
/// not beyond the start, and one that was there or before it is where it was.
pub proof fn law_what_undoing_a_step_takes(pos: Pos, from: usize)
    ensures
        undo_action(pos, from as int) == UndoAction::MoveBack <==> forall|i: int| #[trigger] occupies(pos, i) <==> i == from + 1,
        undo_action(pos, from as int) == UndoAction::RemoveName <==> occupies(pos, from as int) && occupies(pos, from + 1),
        undo_action(pos, from as int) == UndoAction::Nothing <==> forall|i: int| #[trigger] occupies(pos, i) ==> i <= from,
        undo_action(pos, from as int) != UndoAction::Impossible ==> forall|i: int| #[trigger]
            occupies(after_undo(pos, from), i) ==> i <= from,
        (forall|i: int| #[trigger] occupies(pos, i) ==> i <= from) ==> after_undo(pos, from) == pos,
        occupies(pos, from + 1) && (forall|i: int| #[trigger] occupies(pos, i) ==> from <= i <= from + 1) ==> forall|i: int| #[trigger]
            occupies(after_undo(pos, from), i) <==> i == from,
{
    match pos {
        Pos::At(j) => {
            assert(occupies(pos, j as int));
        },
        Pos::Both(j) => {
            assert(occupies(pos, j as int) && occupies(pos, j + 1));
        },
    }
    assert(occupies(pos, from + 1) || !occupies(pos, from + 1));
}

/// The record says that the wave is applied.
pub open spec fn says_applied(recs: Seq<Record>, i: int, w: int) -> bool {
    0 <= i < recs.len() && (recs[i] matches Record::ApplyDone(v) && v == w)
}

/// The record says that the wave is undone.
pub open spec fn says_undone(recs: Seq<Record>, i: int, w: int) -> bool {
    0 <= i < recs.len() && (recs[i] matches Record::UndoDone(v) && v == w)
}

proof fn lemma_greatest(recs: Seq<Record>, n: int)
    requires
        0 <= n <= recs.len(),
    ensures
        applied_max(recs, n) is None <==> forall|i: int, w: int| i < n ==> !(#[trigger] says_applied(recs, i, w)),
        applied_max(recs, n) matches Some(m) ==> (exists|i: int| i < n && #[trigger] says_applied(recs, i, m)) && forall|i: int, w: int|
            i < n && #[trigger] says_applied(recs, i, w) ==> w <= m,
    decreases n,
{
    if n > 0 {
        lemma_greatest(recs, n - 1);
        if let Record::ApplyDone(w) = recs[n - 1] {
            assert(says_applied(recs, n - 1, w as int));
        }
        if let Some(m) = applied_max(recs, n - 1) {
            let i = choose|i: int| i < n - 1 && #[trigger] says_applied(recs, i, m);
            assert(says_applied(recs, i, m));
        }
        if let Some(m) = applied_max(recs, n) {
            assert forall|i: int, w: int| i < n && #[trigger] says_applied(recs, i, w) implies w <= m by {
                if i == n - 1 {
                    assert(recs[n - 1] == recs[i]);
                } else {
                    assert(applied_max(recs, n - 1) is Some);
                }
            }
            match recs[n - 1] {
                Record::ApplyDone(w) => {
                    assert(applied_max(recs, n - 1) == Some(m) || m == w);
                },
                _ => {
                    assert(applied_max(recs, n - 1) == Some(m));
                },
            }
        }
    }
}

proof fn lemma_smallest(recs: Seq<Record>, n: int)
    requires
        0 <= n <= recs.len(),
    ensures
        undone_min(recs, n) is None <==> forall|i: int, w: int| i < n ==> !(#[trigger] says_undone(recs, i, w)),
        undone_min(recs, n) matches Some(m) ==> (exists|i: int| i < n && #[trigger] says_undone(recs, i, m)) && forall|i: int, w: int|
            i < n && #[trigger] says_undone(recs, i, w) ==> w >= m,
    decreases n,
{
    if n > 0 {
        lemma_smallest(recs, n - 1);
        if let Record::UndoDone(w) = recs[n - 1] {
            assert(says_undone(recs, n - 1, w as int));
        }
        if let Some(m) = undone_min(recs, n - 1) {
            let i = choose|i: int| i < n - 1 && #[trigger] says_undone(recs, i, m);
            assert(says_undone(recs, i, m));
        }
        if let Some(m) = undone_min(recs, n) {
            assert forall|i: int, w: int| i < n && #[trigger] says_undone(recs, i, w) implies w >= m by {
                if i == n - 1 {
                    assert(recs[n - 1] == recs[i]);
                } else {
                    assert(undone_min(recs, n - 1) is Some);
                }
            }
            match recs[n - 1] {
                Record::UndoDone(w) => {
                    assert(undone_min(recs, n - 1) == Some(m) || m == w);
                },
                _ => {
                    assert(undone_min(recs, n - 1) == Some(m));
                },
            }
        }
    }
}

/// What the log claims of a plan's waves. Each wave from one on that is logged as undone has not been
/// begun. Each wave but the last, up to one that is logged as applied, is done, unless the log shows that
/// undoing has come to it or to the one after it. No wave is logged as applied that the plan does not have.
pub proof fn law_what_the_log_claims(p: PlanView, recs: Seq<Record>, pos: Seq<Pos>, i: int, v: int, w: int)
    requires
        log_agrees(p, recs, pos),
        0 <= w < p.waves.len(),
    ensures
        says_undone(recs, i, v) && v <= w ==> wave_untouched(p, pos, w),
        says_applied(recs, i, v) && w <= v && w + 1 < p.waves.len() ==> wave_done(p, pos, w) || exists|j: int, u: int| #[trigger]
            says_undone(recs, j, u) && u <= w + 1,
        says_applied(recs, i, v) ==> v < p.waves.len(),
{
    let n = recs.len() as int;
    lemma_greatest(recs, n);
    lemma_smallest(recs, n);
    if let Some(m) = undone_min(recs, n) {
        let j = choose|j: int| j < n && #[trigger] says_undone(recs, j, m);
        assert(says_undone(recs, j, m));
    }
    if says_applied(recs, i, v) && w <= v {
        assert(applied_max(recs, n) matches Some(a) && v <= a);
        assert(logged_applied(p, recs, w) ==> wave_done(p, pos, w));
    }
}

/// A log that claims nothing, or only what is so, agrees.
pub proof fn law_a_truthful_log_agrees(p: PlanView, recs: Seq<Record>, pos: Seq<Pos>)
    requires
        forall|i: int, v: int| #[trigger] says_applied(recs, i, v) ==> v < p.waves.len() && forall|w: int|
            0 <= w <= v ==> #[trigger] wave_done(p, pos, w),
        forall|i: int, v: int| #[trigger] says_undone(recs, i, v) ==> v < p.waves.len() && forall|w: int|
            v <= w < p.waves.len() ==> #[trigger] wave_untouched(p, pos, w),
    ensures
        log_agrees(p, recs, pos),
{
    let n = recs.len() as int;
    lemma_greatest(recs, n);
    lemma_smallest(recs, n);
    if let Some(m) = undone_min(recs, n) {
        let j = choose|j: int| j < n && #[trigger] says_undone(recs, j, m);
        assert(says_undone(recs, j, m));
    }
    if let Some(m) = applied_max(recs, n) {
        let j = choose|j: int| j < n && #[trigger] says_applied(recs, j, m);
        assert(says_applied(recs, j, m));
    }
}

/// The two waves cannot both be so after a crash: the first is not done, and a later one has been begun.
pub open spec fn out_of_turn(p: PlanView, pos: Seq<Pos>, v: int, w: int) -> bool {
    0 <= v < w < p.waves.len() && !wave_done(p, pos, v) && !wave_untouched(p, pos, w)
}

proof fn lemma_first_open(p: PlanView, pos: Seq<Pos>, n: int) -> (r: int)
    requires
        0 <= n <= p.waves.len(),
    ensures
        0 <= r <= n,
        forall|v: int| 0 <= v < r ==> #[trigger] wave_done(p, pos, v),
        r < n ==> !wave_done(p, pos, r),
    decreases n,
{
    if n == 0 {
        0
    } else {
        let r = lemma_first_open(p, pos, n - 1);
        if r < n - 1 || !wave_done(p, pos, n - 1) {
            r
        } else {
            n
        }
    }
}

/// What a crash can leave is what waves leave that are taken in turn: no wave has been begun before an
/// earlier one is done.
pub proof fn law_waves_are_taken_in_turn(p: PlanView, pos: Seq<Pos>)
    ensures
        has_shape(p, pos) <==> forall|v: int, w: int| !(#[trigger] out_of_turn(p, pos, v, w)),
{
    if has_shape(p, pos) {
        let x = choose|x: int| shape_at(p, pos, x);
        assert forall|v: int, w: int| !(#[trigger] out_of_turn(p, pos, v, w)) by {
            if out_of_turn(p, pos, v, w) {
                assert(v >= x);
                assert(w <= x);
            }
        }
    } else {
        let x = lemma_first_open(p, pos, p.waves.len() as int);
        if forall|v: int, w: int| !(#[trigger] out_of_turn(p, pos, v, w)) {
            assert forall|v: int| x < v < p.waves.len() implies #[trigger] wave_untouched(p, pos, v) by {
                assert(!out_of_turn(p, pos, x, v));
            }
            assert(shape_at(p, pos, x));
        }
    }
}

/// The locations at which a token is found are listed, each once and in order.
pub proof fn law_where_a_token_is_found(d: Disk, p: PlanView, t: int, n: int)
    requires
        0 <= n <= p.tokens[t].locs.len(),
        n <= usize::MAX,
    ensures
        ({
            let h = hits(d, p.tokens[t], n);
            &&& forall|k: int| 0 <= k < h.len() ==> #[trigger] h[k] < n && sits(d, p.tokens[t], h[k] as int)
            &&& forall|a: int, b: int| 0 <= a < b < h.len() ==> #[trigger] h[a] < #[trigger] h[b]
            &&& forall|i: int| 0 <= i < n && #[trigger] sits(d, p.tokens[t], i) ==> h.contains(i as usize)
        }),
    decreases n,
{
    if n > 0 {
        law_where_a_token_is_found(d, p, t, n - 1);
        let (g, h) = (hits(d, p.tokens[t], n - 1), hits(d, p.tokens[t], n));
        assert forall|i: int| 0 <= i < n && #[trigger] sits(d, p.tokens[t], i) implies h.contains(i as usize) by {
            if i < n - 1 {
                let k = choose|k: int| 0 <= k < g.len() && g[k] == i as usize;
                assert(h[k] == g[k]);
            } else {
                assert(h[g.len() as int] == i as usize);
            }
        }
    }
}

proof fn lemma_no_intruder(d: Disk, p: PlanView, t: int, n: int)
    requires
        0 <= n <= p.tokens[t].locs.len(),
    ensures
        last_intruder(d, p, p.tokens[t], n) is None <==> forall|i: int| 0 <= i < n ==> !intruder(d, p, #[trigger] p.tokens[t].locs[i]),
    decreases n,
{
    if n > 0 {
        lemma_no_intruder(d, p, t, n - 1);
        let l = p.tokens[t].locs[n - 1];
    }
}

/// When it is clear where a token is. Nothing unknown is at its locations; and it is at just one of them,
/// or is a file that is at two in a row, or a file with other names that has not been moved, as no token
/// has.
pub proof fn law_when_it_is_clear_where_a_token_is(d: Disk, p: PlanView, t: int, i: int)
    requires
        0 <= t < p.tokens.len(),
        p.tokens[t].locs.len() <= usize::MAX,
        0 <= i < p.tokens[t].locs.len(),
    ensures
        ({
            let tok = p.tokens[t];
            let n = tok.locs.len();
            &&& token_pos(d, p, t) is Some ==> forall|k: int| 0 <= k < n ==> !intruder(d, p, #[trigger] tok.locs[k])
            &&& token_pos(d, p, t) == Some(Pos::At(i as usize)) ==> sits(d, tok, i) && ((forall|k: int|
                0 <= k < n && #[trigger] sits(d, tok, k) ==> k == i) || i == 0 && tok.kind == Kind::File && at_start(d, p))
            &&& token_pos(d, p, t) == Some(Pos::Both(i as usize)) ==> tok.kind == Kind::File && i + 1 < n && sits(d, tok, i) && sits(
                d,
                tok,
                i + 1,
            ) && forall|k: int| 0 <= k < n && #[trigger] sits(d, tok, k) ==> k == i || k == i + 1
            &&& (forall|k: int| 0 <= k < n ==> !intruder(d, p, #[trigger] tok.locs[k])) && sits(d, tok, i) && (forall|k: int|
                0 <= k < n && #[trigger] sits(d, tok, k) ==> k == i) ==> token_pos(d, p, t) == Some(Pos::At(i as usize))
            &&& (forall|k: int| 0 <= k < n ==> !intruder(d, p, #[trigger] tok.locs[k])) && tok.kind == Kind::File && i + 1 < n && sits(
                d,
                tok,
                i,
            ) && sits(d, tok, i + 1) && (forall|k: int| 0 <= k < n && #[trigger] sits(d, tok, k) ==> k == i || k == i + 1)
                ==> token_pos(d, p, t) == Some(Pos::Both(i as usize))
        }),
{
    let tok = p.tokens[t];
    let n = tok.locs.len() as int;
    lemma_no_intruder(d, p, t, n);
    law_where_a_token_is_found(d, p, t, n);
    let h = hits(d, tok, n);
    assert forall|k: int| 0 <= k < n && #[trigger] sits(d, tok, k) implies exists|a: int|
        0 <= a < h.len() && #[trigger] h[a] == k by {
        let a = choose|a: int| 0 <= a < h.len() && h[a] == k as usize;
        assert(h[a] == k);
    }
    if h.len() >= 1 {
        assert(h[0] < n && sits(d, tok, h[0] as int));
    }
    if h.len() >= 2 {
        assert(h[1] < n && sits(d, tok, h[1] as int) && h[0] < h[1]);
    }
    if h.len() >= 3 {
        assert(h[2] < n && sits(d, tok, h[2] as int) && h[1] < h[2]);
    }
}

} // verus!
