//! Where tokens are, which steps of a plan that makes done, and what undoing does to it.
use vstd::prelude::*;

use crate::error::Reason;
use crate::plan::{Plan, PlanView, Step};
use crate::progress::Record;

verus! {

/// Where a token is.
#[derive(Clone, Copy, Debug, PartialEq, Eq, Structural)]
pub enum Pos {
    /// At `locs[i]`.
    At(usize),
    /// At both `locs[i]` and `locs[i + 1]` (a rename persisted with both names).
    Both(usize),
}

/// How far a step has come.
#[derive(Clone, Copy, Debug, PartialEq, Eq, Structural)]
pub enum StepState {
    Pre,
    Post,
    Inflight,
}

/// The state of a step that leaves location `from` when its token is at `pos`.
pub open spec fn state_of(pos: Pos, from: int) -> StepState {
    match pos {
        Pos::At(i) => if i > from {
            StepState::Post
        } else {
            StepState::Pre
        },
        Pos::Both(i) => if i == from {
            StepState::Inflight
        } else if i > from {
            StepState::Post
        } else {
            StepState::Pre
        },
    }
}

/// The state of step `s` when its token is at `pos`.
pub fn step_state(pos: Pos, s: Step) -> (r: StepState)
    ensures
        r == state_of(pos, s.from as int),
{
    match pos {
        Pos::At(i) => if i > s.from {
            StepState::Post
        } else {
            StepState::Pre
        },
        Pos::Both(i) => if i == s.from {
            StepState::Inflight
        } else if i > s.from {
            StepState::Post
        } else {
            StepState::Pre
        },
    }
}

/// `pos` names locations that the token has.
pub open spec fn pos_fits(p: PlanView, t: int, pos: Pos) -> bool {
    match pos {
        Pos::At(i) => i < p.tokens[t].locs.len(),
        Pos::Both(i) => i + 1 < p.tokens[t].locs.len(),
    }
}

/// Every token has a position among its locations.
pub open spec fn positions_fit(p: PlanView, pos: Seq<Pos>) -> bool {
    &&& pos.len() == p.tokens.len()
    &&& forall|t: int| 0 <= t < pos.len() ==> pos_fits(p, t, #[trigger] pos[t])
}

/// The state of the `i`-th step of wave `w`.
pub open spec fn state_at(p: PlanView, pos: Seq<Pos>, w: int, i: int) -> StepState {
    state_of(pos[p.waves[w][i].token as int], p.waves[w][i].from as int)
}

/// Every step of wave `w` is done.
pub open spec fn wave_done(p: PlanView, pos: Seq<Pos>, w: int) -> bool {
    forall|i: int| 0 <= i < p.waves[w].len() ==> #[trigger] state_at(p, pos, w, i) == StepState::Post
}

/// No step of wave `w` has been started.
pub open spec fn wave_untouched(p: PlanView, pos: Seq<Pos>, w: int) -> bool {
    forall|i: int| 0 <= i < p.waves[w].len() ==> #[trigger] state_at(p, pos, w, i) == StepState::Pre
}

/// The shape that a crash can leave: all waves before `w` are done, and all waves after it
/// are untouched.
pub open spec fn shape_at(p: PlanView, pos: Seq<Pos>, w: int) -> bool {
    &&& forall|v: int| 0 <= v < w && v < p.waves.len() ==> #[trigger] wave_done(p, pos, v)
    &&& forall|v: int| w < v < p.waves.len() ==> #[trigger] wave_untouched(p, pos, v)
}

/// At most one wave is partly done, with all earlier ones done and all later ones untouched.
pub open spec fn has_shape(p: PlanView, pos: Seq<Pos>) -> bool {
    exists|w: int| shape_at(p, pos, w)
}

/// Checks the shape. The error names the first wave that is not done and the last one that is not
/// untouched.
pub fn check_shape(plan: &Plan, pos: &Vec<Pos>) -> (r: Result<(), Reason>)
    requires
        plan@.steps_name_tokens(),
        pos@.len() == plan@.tokens.len(),
    ensures
        r is Ok <==> has_shape(plan@, pos@),
        r matches Err(e) ==> e matches Reason::TwoPartialWaves { first, second } && first < second
            < plan@.waves.len() && !wave_done(plan@, pos@, first as int) && !wave_untouched(
            plan@,
            pos@,
            second as int,
        ) && (forall|v: int| 0 <= v < first ==> #[trigger] wave_done(plan@, pos@, v)) && (forall|v: int|
            second < v < plan@.waves.len() ==> #[trigger] wave_untouched(plan@, pos@, v)),
{
    let ghost p = plan@;
    let mut first_not_post: Option<usize> = None;
    let mut last_not_pre: Option<usize> = None;
    let nw = plan.waves.len();
    let mut w: usize = 0;
    while w < nw
        invariant
            w <= nw,
            nw == p.waves.len(),
            p == plan@,
            p.steps_name_tokens(),
            pos@.len() == p.tokens.len(),
            first_not_post matches Some(a) ==> a < w && !wave_done(p, pos@, a as int),
            forall|v: int|
                0 <= v < w && (first_not_post matches Some(a) ==> v < a) ==> #[trigger] wave_done(p, pos@, v),
            last_not_pre matches Some(b) ==> b < w && !wave_untouched(p, pos@, b as int),
            forall|v: int|
                0 <= v < w && (last_not_pre matches Some(b) ==> b < v) ==> #[trigger] wave_untouched(p, pos@, v),
        decreases nw - w,
    {
        let wave = &plan.waves[w];
        assert(p.waves[w as int] == wave@);
        let n = wave.len();
        let mut done = true;
        let mut untouched = true;
        let mut i: usize = 0;
        while i < n
            invariant
                i <= n,
                n == wave@.len(),
                w < p.waves.len(),
                p == plan@,
                p.waves[w as int] == wave@,
                p.steps_name_tokens(),
                pos@.len() == p.tokens.len(),
                done == (forall|j: int| 0 <= j < i ==> #[trigger] state_at(p, pos@, w as int, j) == StepState::Post),
                untouched == (forall|j: int|
                    0 <= j < i ==> #[trigger] state_at(p, pos@, w as int, j) == StepState::Pre),
            decreases n - i,
        {
            let s = wave[i];
            assert(p.has(w as int, i as int) && p.waves[w as int][i as int] == s);
            let st = step_state(pos[s.token], s);
            assert(st == state_at(p, pos@, w as int, i as int));
            if st != StepState::Post {
                done = false;
            }
            if st != StepState::Pre {
                untouched = false;
            }
            i = i + 1;
        }
        assert(done == wave_done(p, pos@, w as int));
        assert(untouched == wave_untouched(p, pos@, w as int));
        if !done && first_not_post.is_none() {
            first_not_post = Some(w);
        }
        if !untouched {
            last_not_pre = Some(w);
        }
        w = w + 1;
    }
    match (first_not_post, last_not_pre) {
        (Some(a), Some(b)) => {
            if b > a {
                proof {
                    assert forall|v: int| !shape_at(p, pos@, v) by {
                        if shape_at(p, pos@, v) {
                            assert(a >= v);
                            assert(b <= v);
                        }
                    }
                }
                return Err(Reason::TwoPartialWaves { first: a, second: b });
            }
            assert(shape_at(p, pos@, a as int));
        },
        (Some(a), None) => {
            assert(shape_at(p, pos@, a as int));
        },
        (None, _) => {
            assert(shape_at(p, pos@, nw as int));
        },
    }
    Ok(())
}

/// The greatest wave logged as applied among the first `n` records.
pub open spec fn applied_max(recs: Seq<Record>, n: int) -> Option<int>
    decreases n,
{
    if n <= 0 {
        None
    } else {
        match (applied_max(recs, n - 1), recs[n - 1]) {
            (Some(m), Record::ApplyDone(w)) => if w > m {
                Some(w as int)
            } else {
                Some(m)
            },
            (None, Record::ApplyDone(w)) => Some(w as int),
            (m, Record::UndoDone(_)) => m,
        }
    }
}

/// The smallest wave logged as undone among the first `n` records.
pub open spec fn undone_min(recs: Seq<Record>, n: int) -> Option<int>
    decreases n,
{
    if n <= 0 {
        None
    } else {
        match (undone_min(recs, n - 1), recs[n - 1]) {
            (Some(m), Record::UndoDone(w)) => if w < m {
                Some(w as int)
            } else {
                Some(m)
            },
            (None, Record::UndoDone(w)) => Some(w as int),
            (m, Record::ApplyDone(_)) => m,
        }
    }
}

/// Every wave the log names exists.
pub open spec fn log_in_range(p: PlanView, recs: Seq<Record>) -> bool {
    &&& applied_max(recs, recs.len() as int) matches Some(a) ==> a < p.waves.len()
    &&& undone_min(recs, recs.len() as int) matches Some(u) ==> u < p.waves.len()
}

/// The first wave from which on the log says that waves are undone.
pub open spec fn undone_from(p: PlanView, recs: Seq<Record>) -> int {
    match undone_min(recs, recs.len() as int) {
        Some(u) => u,
        None => p.waves.len() as int,
    }
}

/// The log says that wave `w` is applied, and that neither it nor the next one is being undone.
pub open spec fn logged_applied(p: PlanView, recs: Seq<Record>, w: int) -> bool {
    &&& applied_max(recs, recs.len() as int) matches Some(a) && w <= a
    &&& w + 1 < undone_from(p, recs)
}

/// The log is a lower bound: what it says is done is observed as done.
pub open spec fn log_agrees(p: PlanView, recs: Seq<Record>, pos: Seq<Pos>) -> bool {
    &&& log_in_range(p, recs)
    &&& forall|w: int|
        undone_from(p, recs) <= w < p.waves.len() ==> #[trigger] wave_untouched(p, pos, w)
    &&& forall|w: int|
        0 <= w < p.waves.len() && logged_applied(p, recs, w) ==> #[trigger] wave_done(p, pos, w)
}

/// Checks the progress log against the observed positions: logged-done work must be observed
/// as done.
pub fn check_progress(plan: &Plan, recs: &Vec<Record>, pos: &Vec<Pos>) -> (r: Result<(), Reason>)
    requires
        plan@.steps_name_tokens(),
        pos@.len() == plan@.tokens.len(),
    ensures
        r is Ok <==> log_agrees(plan@, recs@, pos@),
        r matches Err(e) ==> match e {
            Reason::NoSuchWave => !log_in_range(plan@, recs@),
            Reason::NotUndone { wave } => undone_from(plan@, recs@) <= wave < plan@.waves.len()
                && !wave_untouched(plan@, pos@, wave as int),
            Reason::NotApplied { wave } => wave < plan@.waves.len() && logged_applied(
                plan@,
                recs@,
                wave as int,
            ) && !wave_done(plan@, pos@, wave as int),
            _ => false,
        },
{
    let ghost p = plan@;
    let nw = plan.waves.len();
    let mut apply_done: Option<u32> = None;
    let mut undo_min: Option<u32> = None;
    let n = recs.len();
    let mut i: usize = 0;
    while i < n
        invariant
            i <= n,
            n == recs@.len(),
            apply_done is Some <==> applied_max(recs@, i as int) is Some,
            apply_done matches Some(a) ==> applied_max(recs@, i as int) == Some(a as int),
            undo_min is Some <==> undone_min(recs@, i as int) is Some,
            undo_min matches Some(a) ==> undone_min(recs@, i as int) == Some(a as int),
        decreases n - i,
    {
        match recs[i] {
            Record::ApplyDone(w) => {
                apply_done = match apply_done {
                    Some(m) => if w > m {
                        Some(w)
                    } else {
                        Some(m)
                    },
                    None => Some(w),
                };
            },
            Record::UndoDone(w) => {
                undo_min = match undo_min {
                    Some(m) => if w < m {
                        Some(w)
                    } else {
                        Some(m)
                    },
                    None => Some(w),
                };
            },
        }
        i = i + 1;
    }
    if let Some(a) = apply_done {
        if a as usize >= nw {
            return Err(Reason::NoSuchWave);
        }
    }
    let mut undo_from: usize = nw;
    if let Some(u) = undo_min {
        if u as usize >= nw {
            return Err(Reason::NoSuchWave);
        }
        undo_from = u as usize;
    }
    assert(undo_from == undone_from(p, recs@));
    let mut w: usize = 0;
    while w < nw
        invariant
            w <= nw,
            nw == p.waves.len(),
            p == plan@,
            p.steps_name_tokens(),
            pos@.len() == p.tokens.len(),
            undo_from == undone_from(p, recs@),
            undo_from <= nw,
            log_in_range(p, recs@),
            apply_done is Some <==> applied_max(recs@, recs@.len() as int) is Some,
            apply_done matches Some(a) ==> applied_max(recs@, recs@.len() as int) == Some(a as int) && a < nw,
            forall|v: int| 0 <= v < w && undo_from <= v ==> #[trigger] wave_untouched(p, pos@, v),
            forall|v: int| 0 <= v < w && logged_applied(p, recs@, v) ==> #[trigger] wave_done(p, pos@, v),
        decreases nw - w,
    {
        let wave = &plan.waves[w];
        assert(p.waves[w as int] == wave@);
        let m = wave.len();
        let must_be_undone = w >= undo_from;
        let must_be_applied = match apply_done {
            Some(a) => w <= a as usize && w + 1 < undo_from,
            None => false,
        };
        assert(must_be_applied == logged_applied(p, recs@, w as int));
        let mut i: usize = 0;
        while i < m
            invariant
                i <= m,
                m == wave@.len(),
                w < nw,
                nw == p.waves.len(),
                p == plan@,
                p.waves[w as int] == wave@,
                p.steps_name_tokens(),
                pos@.len() == p.tokens.len(),
                undo_from == undone_from(p, recs@),
                must_be_undone == (w >= undo_from),
                must_be_applied == logged_applied(p, recs@, w as int),
                must_be_undone ==> forall|j: int|
                    0 <= j < i ==> #[trigger] state_at(p, pos@, w as int, j) == StepState::Pre,
                must_be_applied ==> forall|j: int|
                    0 <= j < i ==> #[trigger] state_at(p, pos@, w as int, j) == StepState::Post,
            decreases m - i,
        {
            let s = wave[i];
            assert(p.has(w as int, i as int) && p.waves[w as int][i as int] == s);
            let st = step_state(pos[s.token], s);
            assert(st == state_at(p, pos@, w as int, i as int));
            if must_be_undone && st != StepState::Pre {
                assert(!wave_untouched(p, pos@, w as int));
                return Err(Reason::NotUndone { wave: w });
            }
            if must_be_applied && st != StepState::Post {
                assert(!wave_done(p, pos@, w as int));
                return Err(Reason::NotApplied { wave: w });
            }
            i = i + 1;
        }
        w = w + 1;
    }
    Ok(())
}

/// What undoing does about one step.
#[derive(Clone, Copy, Debug, PartialEq, Eq, Structural)]
pub enum UndoAction {
    /// Move the token back from the step's end to its start.
    MoveBack,
    /// Remove the second name at the step's end.
    RemoveName,
    /// The step has not been made.
    Nothing,
    /// The token has been moved past the step's end.
    Impossible,
}

/// What undoing a step that leaves location `from` does when the token is at `pos`.
pub open spec fn undo_action(pos: Pos, from: int) -> UndoAction {
    match pos {
        Pos::At(i) => if i == from + 1 {
            UndoAction::MoveBack
        } else if i <= from {
            UndoAction::Nothing
        } else {
            UndoAction::Impossible
        },
        Pos::Both(i) => if i == from {
            UndoAction::RemoveName
        } else if i < from {
            UndoAction::Nothing
        } else {
            UndoAction::Impossible
        },
    }
}

/// Decides what undoing step `s` does.
pub fn decide_undo(pos: Pos, s: Step) -> (r: UndoAction)
    ensures
        r == undo_action(pos, s.from as int),
{
    match pos {
        Pos::At(i) => if i <= s.from {
            UndoAction::Nothing
        } else if i - 1 == s.from {
            UndoAction::MoveBack
        } else {
            UndoAction::Impossible
        },
        Pos::Both(i) => if i == s.from {
            UndoAction::RemoveName
        } else if i < s.from {
            UndoAction::Nothing
        } else {
            UndoAction::Impossible
        },
    }
}

/// The position after undoing a step that leaves location `from`.
pub open spec fn after_undo(pos: Pos, from: usize) -> Pos {
    match undo_action(pos, from as int) {
        UndoAction::MoveBack | UndoAction::RemoveName => Pos::At(from),
        _ => pos,
    }
}

/// The positions after undoing the first `n` steps of `wave`.
pub open spec fn undo_steps(pos: Seq<Pos>, wave: Seq<Step>, n: int) -> Seq<Pos>
    decreases n,
{
    if n <= 0 {
        pos
    } else {
        let before = undo_steps(pos, wave, n - 1);
        let s = wave[n - 1];
        before.update(s.token as int, after_undo(before[s.token as int], s.from))
    }
}

/// The positions after undoing all waves from the last down to wave `w`.
pub open spec fn undo_waves(p: PlanView, pos: Seq<Pos>, w: int) -> Seq<Pos>
    decreases p.waves.len() - w,
{
    if w >= p.waves.len() {
        pos
    } else {
        undo_steps(undo_waves(p, pos, w + 1), p.waves[w], p.waves[w].len() as int)
    }
}

/// All waves from `w` on are untouched, and so are the first `n` steps of the wave before.
pub open spec fn undone_to(p: PlanView, pos: Seq<Pos>, w: int, n: int) -> bool {
    &&& forall|v: int| w <= v < p.waves.len() ==> #[trigger] wave_untouched(p, pos, v)
    &&& forall|i: int|
        0 <= i < n && w > 0 ==> #[trigger] state_at(p, pos, w - 1, i) == StepState::Pre
}

/// Undoing one more step of a wave, all later waves being undone: the step can be undone, and
/// is then not made; every other step that was not made stays so.
pub proof fn lemma_undo_one(p: PlanView, pos: Seq<Pos>, w: int, i: int)
    requires
        p.valid(),
        positions_fit(p, pos),
        p.has(w, i),
        undone_to(p, pos, w + 1, i),
    ensures
        undo_action(pos[p.waves[w][i].token as int], p.waves[w][i].from as int) != UndoAction::Impossible,
        ({
            let s = p.waves[w][i];
            let next = pos.update(s.token as int, after_undo(pos[s.token as int], s.from));
            positions_fit(p, next) && undone_to(p, next, w + 1, i + 1)
        }),
{
    let s = p.waves[w][i];
    let t = s.token as int;
    let f = s.from as int;
    assert(p.names_move(s));
    assert(pos_fits(p, t, pos[t]));
    if f + 2 < p.tokens[t].locs.len() {
        assert(p.steps_complete(t));
        let g = f + 1;
        assert(p.is_moved(t, g));
        let v = choose|v: int| p.has_step(t, g, v);
        assert(p.has_step(t, f, w));
        assert(p.has_step(t, f + 1, v));
        assert(p.waves_increasing(t));
        assert(w < v);
        assert(wave_untouched(p, pos, v));
        let j = choose|j: int|
            0 <= j < p.waves[v].len() && (#[trigger] p.waves[v][j]).token == t && p.waves[v][j].from == f + 1;
        assert(state_at(p, pos, v, j) == StepState::Pre);
    }
    let next = pos.update(t, after_undo(pos[t], s.from));
    assert forall|u: int| 0 <= u < next.len() implies pos_fits(p, u, #[trigger] next[u]) by {
        assert(pos_fits(p, u, pos[u]));
    }
    assert forall|v: int| w + 1 <= v < p.waves.len() implies #[trigger] wave_untouched(p, next, v) by {
        assert(wave_untouched(p, pos, v));
        assert forall|j: int| 0 <= j < p.waves[v].len() implies #[trigger] state_at(p, next, v, j)
            == StepState::Pre by {
            assert(state_at(p, pos, v, j) == StepState::Pre);
            assert(p.has(v, j) && p.names_move(p.waves[v][j]));
        }
    }
    assert forall|j: int| 0 <= j < i + 1 implies #[trigger] state_at(p, next, w, j) == StepState::Pre by {
        if j < i {
            assert(state_at(p, pos, (w + 1) - 1, j) == StepState::Pre);
            assert(p.has(w, j) && p.names_move(p.waves[w][j]));
        }
    }
}

/// When every wave is untouched, every token is at its first location.
pub proof fn lemma_all_untouched(p: PlanView, pos: Seq<Pos>)
    requires
        p.valid(),
        positions_fit(p, pos),
        undone_to(p, pos, 0, 0),
    ensures
        forall|t: int| 0 <= t < pos.len() ==> #[trigger] pos[t] == Pos::At(0),
{
    assert forall|t: int| 0 <= t < pos.len() implies #[trigger] pos[t] == Pos::At(0) by {
        assert(pos_fits(p, t, pos[t]));
        if p.tokens[t].locs.len() > 1 {
            assert(p.steps_complete(t));
            assert(p.is_moved(t, 0));
            let v = choose|v: int| p.has_step(t, 0, v);
            let j = choose|j: int|
                0 <= j < p.waves[v].len() && (#[trigger] p.waves[v][j]).token == t && p.waves[v][j].from == 0;
            assert(wave_untouched(p, pos, v));
            assert(state_at(p, pos, v, j) == StepState::Pre);
        }
    }
}

proof fn lemma_undo_steps(p: PlanView, pos: Seq<Pos>, w: int, n: int)
    requires
        p.valid(),
        positions_fit(p, pos),
        0 <= w < p.waves.len(),
        0 <= n <= p.waves[w].len(),
        undone_to(p, pos, w + 1, 0),
    ensures
        positions_fit(p, undo_steps(pos, p.waves[w], n)),
        undone_to(p, undo_steps(pos, p.waves[w], n), w + 1, n),
    decreases n,
{
    if n > 0 {
        lemma_undo_steps(p, pos, w, n - 1);
        lemma_undo_one(p, undo_steps(pos, p.waves[w], n - 1), w, n - 1);
    }
}

/// Undoing all waves down to `w` leaves them untouched.
pub proof fn lemma_undo_waves(p: PlanView, pos: Seq<Pos>, w: int)
    requires
        p.valid(),
        positions_fit(p, pos),
        0 <= w <= p.waves.len(),
    ensures
        positions_fit(p, undo_waves(p, pos, w)),
        undone_to(p, undo_waves(p, pos, w), w, 0),
    decreases p.waves.len() - w,
{
    if w < p.waves.len() {
        lemma_undo_waves(p, pos, w + 1);
        let before = undo_waves(p, pos, w + 1);
        let n = p.waves[w].len() as int;
        lemma_undo_steps(p, before, w, n);
        let after = undo_steps(before, p.waves[w], n);
        assert(wave_untouched(p, after, w)) by {
            assert forall|i: int| 0 <= i < p.waves[w].len() implies #[trigger] state_at(p, after, w, i)
                == StepState::Pre by {
                assert(state_at(p, after, (w + 1) - 1, i) == StepState::Pre);
            }
        }
    }
}

/// Undo always succeeds in principle: from any positions whatever, undoing a valid plan from
/// its last wave to its first brings every token back to its first location.
pub proof fn law_undo_restores_every_token(p: PlanView, pos: Seq<Pos>)
    requires
        p.valid(),
        positions_fit(p, pos),
    ensures
        undo_waves(p, pos, 0).len() == p.tokens.len(),
        forall|t: int| 0 <= t < p.tokens.len() ==> #[trigger] undo_waves(p, pos, 0)[t] == Pos::At(0),
{
    lemma_undo_waves(p, pos, 0);
    lemma_all_untouched(p, undo_waves(p, pos, 0));
}

/// The index that a position counts for.
pub open spec fn index_of(pos: Pos) -> nat {
    match pos {
        Pos::At(i) => i as nat,
        Pos::Both(i) => i as nat + 1,
    }
}

/// The sum of the indices of all tokens.
pub open spec fn potential(pos: Seq<Pos>) -> nat
    decreases pos.len(),
{
    if pos.len() == 0 {
        0
    } else {
        potential(pos.drop_last()) + index_of(pos.last())
    }
}

proof fn lemma_potential_update(pos: Seq<Pos>, t: int, x: Pos)
    requires
        0 <= t < pos.len(),
        index_of(x) <= index_of(pos[t]),
    ensures
        potential(pos.update(t, x)) <= potential(pos),
        index_of(x) < index_of(pos[t]) ==> potential(pos.update(t, x)) < potential(pos),
    decreases pos.len(),
{
    let next = pos.update(t, x);
    if t == pos.len() - 1 {
        assert(next.drop_last() =~= pos.drop_last());
    } else {
        assert(next.drop_last() =~= pos.drop_last().update(t, x));
        lemma_potential_update(pos.drop_last(), t, x);
    }
}

/// No token is further in `b` than in `a`.
pub open spec fn no_further(a: Seq<Pos>, b: Seq<Pos>) -> bool {
    &&& b.len() == a.len()
    &&& forall|t: int| 0 <= t < a.len() ==> index_of(#[trigger] b[t]) <= index_of(a[t])
}

/// Where no token is further, the potential is no higher.
pub proof fn lemma_no_further(a: Seq<Pos>, b: Seq<Pos>)
    requires
        no_further(a, b),
    ensures
        potential(b) <= potential(a),
    decreases a.len(),
{
    if a.len() > 0 {
        let (x, y) = (a.drop_last(), b.drop_last());
        assert forall|t: int| 0 <= t < x.len() implies index_of(#[trigger] y[t]) <= index_of(x[t]) by {
            assert(index_of(b[t]) <= index_of(a[t]));
        }
        lemma_no_further(x, y);
        assert(index_of(b[a.len() - 1]) <= index_of(a[a.len() - 1]));
    }
}

/// Undoing a step never raises the potential, and lowers it whenever it changes anything.
pub proof fn law_undo_lowers_the_potential(pos: Seq<Pos>, s: Step)
    requires
        s.token < pos.len(),
    ensures
        ({
            let next = pos.update(s.token as int, after_undo(pos[s.token as int], s.from));
            potential(next) <= potential(pos) && (next != pos ==> potential(next) < potential(pos))
        }),
{
    let t = s.token as int;
    let x = after_undo(pos[t], s.from);
    lemma_potential_update(pos, t, x);
    if x == pos[t] {
        assert(pos.update(t, x) =~= pos);
    }
}

} // verus!
