//! The order of a compiled plan: entries are detached from the deepest upwards, and then everything
//! is attached from the root downwards, so that no wave moves what another token stands on.
use vstd::prelude::*;

use crate::atomicity::{lemma_step_passed, moves_token};
use crate::compile::{attach_steps, attach_waves, attaches_at, detach_steps, detach_waves};
use crate::plan::{lemma_positions_in_range, PlanView, Step, TokenView};

verus! {

/// The step detaches an entry of this depth.
pub open spec fn detaches(tokens: Seq<TokenView>, base: int, s: Step, depth: int) -> bool {
    s.from == 0 && s.token < base && tokens[s.token as int].locs[0].path.len() == depth
}

/// The step attaches something at this depth.
pub open spec fn attaches(tokens: Seq<TokenView>, base: int, s: Step, depth: int) -> bool {
    &&& s.token < tokens.len()
    &&& s.from == (if s.token < base {
        1int
    } else {
        0int
    })
    &&& attaches_at(tokens, base, s.token as int, depth)
}

/// The depth of the wave.
pub open spec fn depth_of(tokens: Seq<TokenView>, base: int, first: int, s: Step, w: int) -> int {
    if w < first {
        tokens[s.token as int].locs[0].path.len() as int
    } else if s.token < base {
        tokens[s.token as int].locs[2].path.len() as int
    } else {
        tokens[s.token as int].locs[1].path.len() as int
    }
}

proof fn lemma_detach_steps(tokens: Seq<TokenView>, base: int, depth: int, n: int)
    requires
        0 <= n <= base <= tokens.len() <= usize::MAX,
    ensures
        forall|i: int|
            0 <= i < detach_steps(tokens, depth, n).len() ==> detaches(
                tokens,
                base,
                #[trigger] detach_steps(tokens, depth, n)[i],
                depth,
            ),
    decreases n,
{
    if n > 0 {
        lemma_detach_steps(tokens, base, depth, n - 1);
        let less = detach_steps(tokens, depth, n - 1);
        assert forall|i: int| 0 <= i < detach_steps(tokens, depth, n).len() implies detaches(
            tokens,
            base,
            #[trigger] detach_steps(tokens, depth, n)[i],
            depth,
        ) by {
            if i < less.len() {
                assert(detach_steps(tokens, depth, n)[i] == less[i]);
            }
        }
    }
}

proof fn lemma_attach_steps(tokens: Seq<TokenView>, base: int, depth: int, n: int)
    requires
        0 <= n <= tokens.len() <= usize::MAX,
        0 <= base,
    ensures
        forall|i: int|
            0 <= i < attach_steps(tokens, base, depth, n).len() ==> attaches(
                tokens,
                base,
                #[trigger] attach_steps(tokens, base, depth, n)[i],
                depth,
            ),
    decreases n,
{
    if n > 0 {
        lemma_attach_steps(tokens, base, depth, n - 1);
        let less = attach_steps(tokens, base, depth, n - 1);
        assert forall|i: int| 0 <= i < attach_steps(tokens, base, depth, n).len() implies attaches(
            tokens,
            base,
            #[trigger] attach_steps(tokens, base, depth, n)[i],
            depth,
        ) by {
            if i < less.len() {
                assert(attach_steps(tokens, base, depth, n)[i] == less[i]);
            }
        }
    }
}

/// Every wave has a depth, and later waves are nearer to the root.
pub open spec fn climbs(tokens: Seq<TokenView>, base: int, waves: Seq<Seq<Step>>, ds: Seq<int>) -> bool {
    &&& ds.len() == waves.len()
    &&& forall|w: int, i: int|
        #![trigger waves[w][i]]
        0 <= w < waves.len() && 0 <= i < waves[w].len() ==> detaches(tokens, base, waves[w][i], ds[w])
    &&& forall|v: int, w: int| 0 <= v < w < ds.len() ==> #[trigger] ds[v] > #[trigger] ds[w]
}

/// Every wave has a depth, and later waves are further from the root.
pub open spec fn descends(tokens: Seq<TokenView>, base: int, waves: Seq<Seq<Step>>, ds: Seq<int>) -> bool {
    &&& ds.len() == waves.len()
    &&& forall|w: int, i: int|
        #![trigger waves[w][i]]
        0 <= w < waves.len() && 0 <= i < waves[w].len() ==> attaches(tokens, base, waves[w][i], ds[w])
    &&& forall|v: int, w: int| 0 <= v < w < ds.len() ==> #[trigger] ds[v] < #[trigger] ds[w]
}

proof fn lemma_climbs(tokens: Seq<TokenView>, base: int, depth: int) -> (ds: Seq<int>)
    requires
        0 <= base <= tokens.len() <= usize::MAX,
    ensures
        climbs(tokens, base, detach_waves(tokens, base, depth), ds),
        forall|w: int| 0 <= w < ds.len() ==> #[trigger] ds[w] <= depth,
    decreases depth,
{
    if depth <= 0 {
        Seq::empty()
    } else {
        let rest = lemma_climbs(tokens, base, depth - 1);
        let steps = detach_steps(tokens, depth, base);
        let waves = detach_waves(tokens, base, depth);
        let more = detach_waves(tokens, base, depth - 1);
        lemma_detach_steps(tokens, base, depth, base);
        if steps.len() > 0 {
            let ds = seq![depth] + rest;
            assert(waves =~= seq![steps] + more);
            assert forall|w: int, i: int|
                #![trigger waves[w][i]]
                0 <= w < waves.len() && 0 <= i < waves[w].len() implies detaches(tokens, base, waves[w][i], ds[w]) by {
                if w > 0 {
                    assert(waves[w] == more[w - 1]);
                    assert(detaches(tokens, base, more[w - 1][i], rest[w - 1]));
                } else {
                    assert(waves[w] == steps);
                    assert(detaches(tokens, base, steps[i], depth));
                }
            }
            assert forall|v: int, w: int| 0 <= v < w < ds.len() implies #[trigger] ds[v] > #[trigger] ds[w] by {
                assert(ds[w] == rest[w - 1]);
                if v > 0 {
                    assert(ds[v] == rest[v - 1]);
                }
            }
            ds
        } else {
            assert(waves =~= more);
            rest
        }
    }
}

proof fn lemma_descends(tokens: Seq<TokenView>, base: int, depth: int) -> (ds: Seq<int>)
    requires
        0 <= base <= tokens.len() <= usize::MAX,
    ensures
        descends(tokens, base, attach_waves(tokens, base, depth), ds),
        forall|w: int| 0 <= w < ds.len() ==> #[trigger] ds[w] <= depth,
    decreases depth,
{
    if depth <= 0 {
        Seq::empty()
    } else {
        let rest = lemma_descends(tokens, base, depth - 1);
        let steps = attach_steps(tokens, base, depth, tokens.len() as int);
        let waves = attach_waves(tokens, base, depth);
        let more = attach_waves(tokens, base, depth - 1);
        lemma_attach_steps(tokens, base, depth, tokens.len() as int);
        if steps.len() > 0 {
            let ds = rest + seq![depth];
            assert(waves =~= more + seq![steps]);
            assert forall|w: int, i: int|
                #![trigger waves[w][i]]
                0 <= w < waves.len() && 0 <= i < waves[w].len() implies attaches(tokens, base, waves[w][i], ds[w]) by {
                if w < more.len() {
                    assert(waves[w] == more[w]);
                    assert(attaches(tokens, base, more[w][i], rest[w]));
                } else {
                    assert(waves[w] == steps);
                    assert(attaches(tokens, base, steps[i], depth));
                }
            }
            assert forall|v: int, w: int| 0 <= v < w < ds.len() implies #[trigger] ds[v] < #[trigger] ds[w] by {
                assert(ds[v] == rest[v]);
                if w < rest.len() {
                    assert(ds[w] == rest[w]);
                }
            }
            ds
        } else {
            assert(waves =~= more);
            rest
        }
    }
}

/// The plan detaches from the deepest upwards in its first waves, and then attaches downwards.
pub open spec fn ordered(p: PlanView, base: int, first: int) -> bool {
    &&& 0 <= first <= p.waves.len()
    &&& 0 <= base <= p.tokens.len()
    &&& forall|w: int, i: int|
        #![trigger p.waves[w][i]]
        p.has(w, i) ==> if w < first {
            detaches(p.tokens, base, p.waves[w][i], depth_of(p.tokens, base, first, p.waves[w][i], w))
        } else {
            attaches(p.tokens, base, p.waves[w][i], depth_of(p.tokens, base, first, p.waves[w][i], w))
        }
    &&& forall|v: int, i: int, w: int, j: int|
        #![trigger p.waves[v][i], p.waves[w][j]]
        p.has(v, i) && p.has(w, j) && v < w < first ==> depth_of(p.tokens, base, first, p.waves[v][i], v) > depth_of(
            p.tokens,
            base,
            first,
            p.waves[w][j],
            w,
        )
    &&& forall|v: int, i: int, w: int, j: int|
        #![trigger p.waves[v][i], p.waves[w][j]]
        p.has(v, i) && p.has(w, j) && first <= v < w ==> depth_of(p.tokens, base, first, p.waves[v][i], v) < depth_of(
            p.tokens,
            base,
            first,
            p.waves[w][j],
            w,
        )
}

/// A compiled plan is ordered.
pub proof fn lemma_compiled_is_ordered(p: PlanView, base: int, depth: int) -> (first: int)
    requires
        0 <= base <= p.tokens.len() <= usize::MAX,
        p.waves == detach_waves(p.tokens, base, depth) + attach_waves(p.tokens, base, depth),
    ensures
        ordered(p, base, first),
{
    let a = detach_waves(p.tokens, base, depth);
    let b = attach_waves(p.tokens, base, depth);
    let x = lemma_climbs(p.tokens, base, depth);
    let y = lemma_descends(p.tokens, base, depth);
    let first = a.len() as int;
    assert forall|w: int, i: int|
        #![trigger p.waves[w][i]]
        p.has(w, i) implies if w < first {
        detaches(p.tokens, base, p.waves[w][i], x[w]) && depth_of(p.tokens, base, first, p.waves[w][i], w) == x[w]
    } else {
        attaches(p.tokens, base, p.waves[w][i], y[w - first]) && depth_of(p.tokens, base, first, p.waves[w][i], w) == y[w
            - first]
    } by {
        if w < first {
            assert(p.waves[w] == a[w]);
            assert(detaches(p.tokens, base, a[w][i], x[w]));
        } else {
            assert(p.waves[w] == b[w - first]);
            assert(attaches(p.tokens, base, b[w - first][i], y[w - first]));
        }
    }
    first
}

/// Where a token that a wave does not move is, as far as the order tells: it waits at its start, has
/// been detached, or has been attached; and nearer to the root than what the wave moves, where it is
/// in the tree.
pub proof fn lemma_bystander(p: PlanView, base: int, first: int, w: int, i: int, t: int)
    requires
        p.valid(),
        p.has_locations(),
        ordered(p, base, first),
        p.has(w, i),
        0 <= t < p.tokens.len(),
        !moves_token(p, w, t),
        forall|u: int| 0 <= u < p.tokens.len() ==> (#[trigger] p.tokens[u]).locs.len() == 2 || u < base && p.tokens[u].locs.len()
            == 3,
    ensures
        ({
            let at = p.positions(w)[t];
            let depth = depth_of(p.tokens, base, first, p.waves[w][i], w);
            &&& 0 <= at < p.tokens[t].locs.len()
            &&& t < base && at == 0 ==> w < first && p.tokens[t].locs[0].path.len() < depth
            &&& t < base && at == 2 ==> w >= first && p.tokens[t].locs[2].path.len() < depth
            &&& t >= base && at == 1 ==> w >= first && p.tokens[t].locs[1].path.len() < depth
        }),
{
    lemma_positions_in_range(p, w);
    let at = p.positions(w)[t];
    let tok = p.tokens[t];
    assert(tok.locs.len() == 2 || t < base && tok.locs.len() == 3);
    assert(p.steps_complete(t));
    if t < base && at == 0 {
        assert(p.is_moved(t, 0));
        let v = choose|v: int| p.has_step(t, 0, v);
        let j = choose|j: int| 0 <= j < p.waves[v].len() && (#[trigger] p.waves[v][j]).token == t && p.waves[v][j].from == 0;
        lemma_step_passed(p, v, j, w);
        assert(p.has(v, j));
        assert(v != w);
        assert(v > w);
        assert(v < first);
        assert(p.waves[w][i] == p.waves[w][i] && p.waves[v][j] == p.waves[v][j]);
    } else if t < base && at == 2 {
        assert(p.is_moved(t, 1));
        let v = choose|v: int| p.has_step(t, 1, v);
        let j = choose|j: int| 0 <= j < p.waves[v].len() && (#[trigger] p.waves[v][j]).token == t && p.waves[v][j].from == 1;
        lemma_step_passed(p, v, j, w);
        assert(p.has(v, j));
        assert(v < w);
        assert(v >= first);
        assert(p.waves[w][i] == p.waves[w][i] && p.waves[v][j] == p.waves[v][j]);
    } else if t >= base && at == 1 {
        assert(p.is_moved(t, 0));
        let v = choose|v: int| p.has_step(t, 0, v);
        let j = choose|j: int| 0 <= j < p.waves[v].len() && (#[trigger] p.waves[v][j]).token == t && p.waves[v][j].from == 0;
        lemma_step_passed(p, v, j, w);
        assert(p.has(v, j));
        assert(v < w);
        assert(v >= first);
        assert(p.waves[w][i] == p.waves[w][i] && p.waves[v][j] == p.waves[v][j]);
    }
}

} // verus!
