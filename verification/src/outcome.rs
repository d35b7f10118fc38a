//! What a commit leaves behind: every entry that was placed is found where it was placed, and
//! stays there.
use vstd::prelude::*;

use crate::apply::waves_applied;
use crate::atomicity::{ats, cut_off, law_applied_waves_survive, lemma_waves_forward, rests_at, sound_start};
use crate::compile::{
    attach_list, attach_steps, attach_waves, attaching, depth_bound, detach_list, detach_steps, detach_waves, detaching,
    is_noop, is_placed, placed_entry, planned, unmoved, Sources,
};
use crate::disk::{Disk, FileId};
use crate::moves::token_seated;
use crate::overlay::{origin_of, Fault, Look, OverlayView, SlotView, SrcView};
use crate::path::{ancestor, PathView};
use crate::plan::{lemma_positions_in_range, PlanView, TokenView};
use crate::state::TxDir;
use crate::turns::in_place;

verus! {

/// Once all waves have been applied, every token is found at its last location, also after a
/// power loss.
pub proof fn law_applied_tokens_are_found(d0: Disk, d: Disk, e: Disk, tx: TxDir, p: PlanView, t: int, scratch: Set<FileId>)
    requires
        sound_start(d0, p, scratch),
        waves_applied(d0, d, tx, p, p.waves.len() as int),
        cut_off(d, e),
        0 <= t < p.tokens.len(),
    ensures
        e.resolve(p.tokens[t].locs.last().path) == Some(p.tokens[t].id),
{
    let n = p.waves.len() as int;
    let pos = ats(p.positions(n));
    lemma_waves_forward(d0, d, tx, p, n, scratch);
    law_applied_waves_survive(d0, d, e, tx, p, scratch);
    assert(p.has_locations());
    lemma_positions_in_range(p, n);
    let l = p.tokens[t].locs.last();
    assert(p.positions(n)[t] == p.tokens[t].locs.len() - 1);
    assert(p.tokens[t].locs.len() <= usize::MAX);
    assert(token_seated(d, p, t, pos[t]));
    assert(rests_at(p, t, pos[t], l));
    assert(in_place(d, l));
    assert(e.resolve(l.path) == d.resolve(l.path));
}

/// A path at which something must be attached is in the list.
proof fn lemma_attached(s: Sources, pk: Seq<PathView>, n: int, i: int) -> (j: int)
    requires
        0 <= i < n <= pk.len(),
        attaching(s.ov, s.before, pk[i]),
    ensures
        0 <= j < attach_list(s.ov, s.before, pk, n).len(),
        attach_list(s.ov, s.before, pk, n)[j] == pk[i],
    decreases n,
{
    if i == n - 1 {
        attach_list(s.ov, s.before, pk, n - 1).len() as int
    } else {
        lemma_attached(s, pk, n - 1, i)
    }
}

/// Something new in the list has a token.
pub proof fn lemma_new_token(s: Sources, n: int, j: int) -> (t: int)
    requires
        0 <= j < n <= s.attach.len(),
        s.is_new(s.attach[j]),
    ensures
        0 <= t < s.new_tokens(n).len(),
        s.new_tokens(n)[t] == s.new_token(s.attach[j]),
    decreases n,
{
    if j == n - 1 {
        s.new_tokens(n - 1).len() as int
    } else {
        lemma_new_token(s, n - 1, j)
    }
}

/// What was written is there. Once all waves have been applied, a path at which a file was
/// written or a directory created leads to that file or directory, also after a power loss.
pub proof fn law_committed_entries_are_found(
    s: Sources,
    pk: Seq<PathView>,
    dk: Seq<PathView>,
    d0: Disk,
    d: Disk,
    e: Disk,
    tx: TxDir,
    p: PlanView,
    q: PathView,
    scratch: Set<FileId>,
)
    requires
        planned(s, pk, dk, p),
        sound_start(d0, p, scratch),
        waves_applied(d0, d, tx, p, p.waves.len() as int),
        cut_off(d, e),
        is_placed(s.ov, q),
    ensures
        match placed_entry(s.ov, q).src {
            SrcView::Blob { n, .. } => e.resolve(q) == Some(s.blobs[n]),
            SrcView::NewDir { n } => e.resolve(q) == Some(s.dirs[n]),
            SrcView::Base { .. } => true,
        },
{
    if s.is_new(q) {
        assert(origin_of(placed_entry(s.ov, q)) is None);
        assert(pk.contains(q));
        let i = choose|i: int| 0 <= i < pk.len() && pk[i] == q;
        let j = lemma_attached(s, pk, pk.len() as int, i);
        assert(s.attach[j] == q);
        let k = lemma_new_token(s, s.attach.len() as int, j);
        let t = s.detach.len() + k;
        assert(p.tokens[t] == s.new_token(q));
        assert(p.tokens[t].locs.last().path == q);
        law_applied_tokens_are_found(d0, d, e, tx, p, t, scratch);
    }
}

/// What was moved is there. Once all waves have been applied, the path to which an entry was
/// moved leads to it, also after a power loss.
pub proof fn law_moved_entries_are_found(
    s: Sources,
    pk: Seq<PathView>,
    dk: Seq<PathView>,
    d0: Disk,
    d: Disk,
    e: Disk,
    tx: TxDir,
    p: PlanView,
    k: int,
    q: PathView,
    scratch: Set<FileId>,
)
    requires
        planned(s, pk, dk, p),
        sound_start(d0, p, scratch),
        waves_applied(d0, d, tx, p, p.waves.len() as int),
        cut_off(d, e),
        0 <= k < s.detach.len(),
        crate::compile::new_home(s.ov, s.attach, s.detach[k], s.attach.len() as int) == Some(q),
    ensures
        e.resolve(q) == Some(s.ov.detached[s.detach[k]].id),
{
    assert(p.tokens[k] == s.base_token(k));
    assert(p.tokens[k].locs.last().path == q);
    law_applied_tokens_are_found(d0, d, e, tx, p, k, scratch);
}

/// Nothing has been decided yet.
pub open spec fn untouched(ov: OverlayView) -> bool {
    &&& forall|k: PathView| !#[trigger] ov.placed.contains_key(k)
    &&& forall|k: PathView| !#[trigger] ov.detached.contains_key(k)
}

/// What is seen where nothing has been decided comes from that very path.
pub proof fn lemma_seen_at_home(ov: OverlayView, d: Disk, q: PathView)
    requires
        untouched(ov),
    ensures
        ov.look(d, q) matches Look::Found(e) ==> origin_of(e) == Some(q),
    decreases q.len(),
{
    if q.len() > 0 {
        lemma_seen_at_home(ov, d, q.drop_last());
        assert(q =~= q.drop_last().push(q.last()));
    } else {
        assert(q =~= Seq::empty());
    }
}

/// A path that no decision concerns is seen as if there were none.
proof fn lemma_seen_alike(x: OverlayView, y: OverlayView, d: Disk, q: PathView)
    requires
        untouched(x),
        x.root_id == y.root_id,
        x.case_insensitive == y.case_insensitive,
        forall|i: int|
            0 < i <= q.len() ==> !y.placed.contains_key(#[trigger] q.take(i)) && !y.detached.contains_key(q.take(i)),
    ensures
        y.look(d, q) == x.look(d, q),
    decreases q.len(),
{
    if q.len() > 0 {
        let r = q.drop_last();
        assert forall|i: int| 0 < i <= r.len() implies !y.placed.contains_key(#[trigger] r.take(i))
            && !y.detached.contains_key(r.take(i)) by {
            assert(r.take(i) =~= q.take(i));
        }
        lemma_seen_alike(x, y, d, r);
        lemma_seen_at_home(x, d, r);
        assert(q.take(q.len() as int) =~= q);
        assert(r.push(q.last()) =~= q);
        assert(!x.placed.contains_key(q) && !x.detached.contains_key(q));
    }
}

/// Paths among which nothing must be attached give an empty list.
proof fn lemma_nothing_attached(ov: OverlayView, d: Disk, keys: Seq<PathView>, n: int)
    requires
        0 <= n <= keys.len(),
        forall|i: int| 0 <= i < n ==> !attaching(ov, d, #[trigger] keys[i]),
    ensures
        attach_list(ov, d, keys, n).len() == 0,
    decreases n,
{
    if n > 0 {
        lemma_nothing_attached(ov, d, keys, n - 1);
        assert(!attaching(ov, d, keys[n - 1]));
    }
}

/// Paths among which nothing must be detached give an empty list.
proof fn lemma_nothing_detached(ov: OverlayView, d: Disk, list: Seq<PathView>, keys: Seq<PathView>, n: int)
    requires
        0 <= n <= keys.len(),
        forall|i: int| 0 <= i < n ==> !detaching(ov, d, list, #[trigger] keys[i]),
    ensures
        detach_list(ov, d, list, keys, n).len() == 0,
    decreases n,
{
    if n > 0 {
        lemma_nothing_detached(ov, d, list, keys, n - 1);
        assert(!detaching(ov, d, list, keys[n - 1]));
    }
}

/// Without tokens there are no waves.
proof fn lemma_no_waves(tokens: Seq<TokenView>, depth: int)
    requires
        tokens.len() == 0,
    ensures
        detach_waves(tokens, 0, depth).len() == 0,
        attach_waves(tokens, 0, depth).len() == 0,
    decreases depth,
{
    if depth > 0 {
        lemma_no_waves(tokens, depth - 1);
        assert(detach_steps(tokens, depth, 0).len() == 0);
        assert(attach_steps(tokens, 0, depth, 0).len() == 0);
    }
}

/// Equality is identity. A file or directory that is renamed and renamed back has not changed:
/// nothing is planned, so committing moves nothing.
pub proof fn law_renaming_back_plans_nothing(
    ov0: OverlayView,
    ov1: OverlayView,
    ov2: OverlayView,
    d: Disk,
    a: PathView,
    t: PathView,
    s: Sources,
    pk: Seq<PathView>,
    dk: Seq<PathView>,
    p: PlanView,
)
    requires
        untouched(ov0),
        a.len() > 0,
        t.len() > 0,
        a != t,
        ov0.rename(d, a, t) == Ok::<OverlayView, Fault>(ov1),
        ov1.rename(d, t, a) == Ok::<OverlayView, Fault>(ov2),
        planned(s, pk, dk, p),
        s.ov == ov2,
        s.before == d,
    ensures
        p.tokens.len() == 0,
        p.waves.len() == 0,
{
    let e = ov0.look(d, a)->Found_0;
    lemma_seen_at_home(ov0, d, a);
    assert(origin_of(e) == Some(a));
    // The new name is no directory above the old one: that is there, and the new name is free.
    assert forall|i: int| 0 < i <= a.len() implies #[trigger] a.take(i) != t by {
        if a.take(i) == t {
            if i == a.len() {
                assert(a.take(i) =~= a);
            }
            lemma_seen_below(ov0, d, a, i);
        }
    }
    assert forall|k: PathView| #[trigger] ov1.placed.contains_key(k) implies k == a || k == t by {}
    assert forall|k: PathView| #[trigger] ov1.detached.contains_key(k) implies k == a by {}
    assert(ov1.placed.contains_key(t) && ov1.placed[t] == SlotView::Present(e));
    assert(ov1.look(d, t) == Look::Found(e));
    assert forall|k: PathView| #[trigger] ov2.placed.contains_key(k) implies k == a || k == t by {
        if ancestor(a, k) && ov1.placed.contains_key(ov1.source_of(t, a, k)) {
            let x = ov1.source_of(t, a, k);
            assert(x.len() > t.len());
            assert(x.take(t.len() as int) =~= t);
            assert(x == a);
            assert(a.take(t.len() as int) =~= t);
        }
    }
    assert(ov2.placed.contains_key(a) && ov2.placed[a] == SlotView::Present(e));
    assert(ov2.placed.contains_key(t) ==> ov2.placed[t] is Absent) by {
        if ancestor(a, t) && ov1.placed.contains_key(ov1.source_of(t, a, t)) {
            assert(false);
        }
    }
    assert forall|k: PathView| #[trigger] ov2.detached.contains_key(k) implies k == a by {}
    assert(is_noop(ov2, d, a)) by {
        assert forall|i: int| 0 < i < a.len() implies unmoved(ov2, d, #[trigger] a.take(i)) by {
            let q = a.take(i);
            assert forall|j: int| 0 < j <= q.len() implies !ov2.placed.contains_key(#[trigger] q.take(j))
                && !ov2.detached.contains_key(q.take(j)) by {
                assert(q.take(j) =~= a.take(j));
                assert(a.take(j) != t);
                assert(a.take(j).len() < a.len());
            }
            lemma_seen_alike(ov0, ov2, d, q);
            lemma_seen_at_home(ov0, d, q);
            lemma_seen_below(ov0, d, a, i);
        }
    }
    assert forall|i: int| 0 <= i < pk.len() implies !attaching(ov2, d, #[trigger] pk[i]) by {
        assert(pk.contains(pk[i]));
        assert(ov2.placed.contains_key(pk[i]));
    }
    lemma_nothing_attached(ov2, d, pk, pk.len() as int);
    assert forall|i: int| 0 <= i < dk.len() implies !detaching(ov2, d, s.attach, #[trigger] dk[i]) by {
        assert(dk.contains(dk[i]));
        assert(ov2.detached.contains_key(dk[i]));
    }
    lemma_nothing_detached(ov2, d, s.attach, dk, dk.len() as int);
    assert(s.new_tokens(0).len() == 0);
    assert(p.tokens.len() == 0);
    let depth = choose|depth: int| #[trigger]
        depth_bound(s, depth) && p.waves == detach_waves(s.tokens(), s.detach.len() as int, depth) + attach_waves(
            s.tokens(),
            s.detach.len() as int,
            depth,
        );
    lemma_no_waves(s.tokens(), depth);
}

/// What is above something that is seen is seen, as a directory.
proof fn lemma_seen_below(ov: OverlayView, d: Disk, p: PathView, i: int)
    requires
        ov.look(d, p) is Found,
        0 <= i <= p.len(),
    ensures
        ov.look(d, p.take(i)) is Found,
    decreases p.len(),
{
    if i == p.len() {
        assert(p.take(i) =~= p);
    } else {
        let r = p.drop_last();
        assert(r.take(i) =~= p.take(i));
        lemma_seen_below(ov, d, r, i);
    }
}

} // verus!
