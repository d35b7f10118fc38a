//! Locating tokens: a location counts only if its parent directory has the journaled
//! identity *and* the entry there has the token's identity and kind. Mere existence is never
//! used.
use vstd::prelude::*;

use crate::disk::{Disk, FileId, Kind};
use crate::error::{IoResult, Reason};
use crate::moves::{holds, token_seated};
use crate::path::parent_of;
use crate::plan::{LocView, Plan, PlanView, TokenView};
use crate::positions::{pos_fits, Pos};
use crate::vfs::{way_clear, Probe, Vfs};

verus! {

/// The parent of the location is the recorded directory, and `id` is found there.
pub open spec fn present(d: Disk, l: LocView, id: FileId) -> bool {
    d.dir_shows(parent_of(l.path), l.parent) && d.resolve(l.path) == Some(id)
}

/// The token is found at its location `i`.
pub open spec fn sits(d: Disk, tok: TokenView, i: int) -> bool {
    exists|id: FileId| #[trigger]
        present(d, tok.locs[i], id) && d.shows(id) == tok.id && d.objects[id].kind() == tok.kind
}

/// The identity belongs to a token.
pub open spec fn known(p: PlanView, id: FileId) -> bool {
    exists|t: int| 0 <= t < p.tokens.len() && (#[trigger] p.tokens[t]).id == id
}

/// Something that belongs to no token is at the location.
pub open spec fn intruder(d: Disk, p: PlanView, l: LocView) -> bool {
    exists|id: FileId| #[trigger] present(d, l, id) && !known(p, d.shows(id))
}

/// The locations at which the token is found, among its first `n`.
pub open spec fn hits(d: Disk, tok: TokenView, n: int) -> Seq<usize>
    decreases n,
{
    if n <= 0 {
        Seq::empty()
    } else if sits(d, tok, n - 1) {
        hits(d, tok, n - 1).push((n - 1) as usize)
    } else {
        hits(d, tok, n - 1)
    }
}

/// The last of the token's first `n` locations at which something unknown is.
pub open spec fn last_intruder(d: Disk, p: PlanView, tok: TokenView, n: int) -> Option<int>
    decreases n,
{
    if n <= 0 {
        None
    } else if intruder(d, p, tok.locs[n - 1]) {
        Some(n - 1)
    } else {
        last_intruder(d, p, tok, n - 1)
    }
}

/// Every token is found at its first location.
pub open spec fn at_start(d: Disk, p: PlanView) -> bool {
    forall|t: int| 0 <= t < p.tokens.len() ==> (#[trigger] p.tokens[t]).locs.len() > 0 && sits(d, p.tokens[t], 0)
}

/// Where token `t` is, if that is clear: at exactly one location, or (files only) at one and
/// the next, and nothing unknown at any of its locations. A file that has another hard link on
/// its way is at its first location as long as every token is found at its own.
pub open spec fn token_pos(d: Disk, p: PlanView, t: int) -> Option<Pos> {
    let tok = p.tokens[t];
    let n = tok.locs.len() as int;
    let h = hits(d, tok, n);
    if last_intruder(d, p, tok, n) is Some {
        None
    } else if h.len() == 1 {
        Some(Pos::At(h[0]))
    } else if h.len() == 2 && h[1] == h[0] + 1 && tok.kind == Kind::File {
        Some(Pos::Both(h[0]))
    } else if h.len() > 1 && h[0] == 0 && tok.kind == Kind::File && at_start(d, p) {
        Some(Pos::At(0))
    } else {
        None
    }
}

/// The reason is right about why it is not clear where token `t` is.
pub open spec fn unclear_for(d: Disk, p: PlanView, t: int, e: Reason) -> bool {
    let tok = p.tokens[t];
    let n = tok.locs.len() as int;
    match e {
        Reason::UnknownEntry { path } => last_intruder(d, p, tok, n) matches Some(i) && path@ == tok.locs[i].path,
        Reason::TokenLost { id } => last_intruder(d, p, tok, n) is None && id == tok.id && hits(d, tok, n).len() == 0,
        Reason::TokenSeveral { id, hits: h } => last_intruder(d, p, tok, n) is None && id == tok.id && h@ == hits(
            d,
            tok,
            n,
        ) && h@.len() > 1 && token_pos(d, p, t) is None,
        _ => false,
    }
}

/// The outcome of locating token `t`.
pub open spec fn located(d: Disk, p: PlanView, t: int, r: Result<Pos, Reason>) -> bool {
    match r {
        Ok(x) => token_pos(d, p, t) == Some(x),
        Err(e) => token_pos(d, p, t) is None && unclear_for(d, p, t, e),
    }
}

/// No symlink stands on the way to the locations of token `t`.
pub open spec fn reachable(d: Disk, p: PlanView, t: int) -> bool {
    forall|i: int| 0 <= i < p.tokens[t].locs.len() ==> way_clear(d, (#[trigger] p.tokens[t].locs[i]).path)
}

/// Whether the identity belongs to a token.
fn is_known(plan: &Plan, id: FileId) -> (r: bool)
    ensures
        r == known(plan@, id),
{
    let n = plan.tokens.len();
    let mut t: usize = 0;
    while t < n
        invariant
            t <= n,
            n == plan@.tokens.len(),
            forall|u: int| 0 <= u < t ==> (#[trigger] plan@.tokens[u]).id != id,
        decreases n - t,
    {
        assert(plan@.tokens[t as int] == plan.tokens@[t as int]@);
        if plan.tokens[t].id == id {
            return true;
        }
        t = t + 1;
    }
    false
}

/// Whether every token is found at its first location.
fn all_at_start<V: Vfs>(vfs: &V, plan: &Plan) -> (r: IoResult<bool>)
    requires
        vfs.valid(),
    ensures
        r matches Ok(x) ==> x == at_start(vfs.disk(), plan@),
        vfs.serves() && (forall|u: int| 0 <= u < plan@.tokens.len() ==> #[trigger] reachable(vfs.disk(), plan@, u))
            ==> r is Ok,
{
    let ghost p = plan@;
    let ghost d = vfs.disk();
    let n = plan.tokens.len();
    let mut t: usize = 0;
    while t < n
        invariant
            t <= n,
            n == plan@.tokens.len(),
            p == plan@,
            d == vfs.disk(),
            vfs.valid(),
            forall|u: int| 0 <= u < t ==> (#[trigger] p.tokens[u]).locs.len() > 0 && sits(d, p.tokens[u], 0),
        decreases n - t,
    {
        let tok = &plan.tokens[t];
        assert(p.tokens[t as int] == tok@);
        if tok.locs.len() == 0 {
            return Ok(false);
        }
        let loc = &tok.locs[0];
        assert(tok@.locs[0] == loc@);
        assert(vfs.serves() && reachable(d, p, t as int) ==> way_clear(d, p.tokens[t as int].locs[0].path));
        let here = match vfs.probe(&loc.path, loc.parent) {
            Ok(Probe::Present(m)) => {
                proof {
                    let id = d.resolve(loc.path@)->0;
                    assert(present(d, tok@.locs[0], id));
                    assert(d.shows(id) == m.id && d.objects[id].kind() == m.kind);
                }
                m.id == tok.id && m.kind == tok.kind
            },
            Ok(_) => false,
            Err(e) => return Err(e),
        };
        if !here {
            assert(!sits(d, p.tokens[t as int], 0));
            return Ok(false);
        }
        assert(sits(d, p.tokens[t as int], 0));
        t = t + 1;
    }
    Ok(true)
}

/// Locates one token.
fn locate<V: Vfs>(vfs: &V, plan: &Plan, t: usize) -> (r: IoResult<Result<Pos, Reason>>)
    requires
        vfs.valid(),
        t < plan@.tokens.len(),
    ensures
        r matches Ok(x) ==> located(vfs.disk(), plan@, t as int, x),
        vfs.serves() && (forall|u: int| 0 <= u < plan@.tokens.len() ==> #[trigger] reachable(vfs.disk(), plan@, u))
            ==> r is Ok,
{
    let ghost p = plan@;
    let ghost d = vfs.disk();
    let tok = &plan.tokens[t];
    assert(p.tokens[t as int] == tok@);
    let n = tok.locs.len();
    let mut found: Vec<usize> = Vec::new();
    let mut foreign: Option<usize> = None;
    let mut i: usize = 0;
    while i < n
        invariant
            i <= n,
            n == tok.locs@.len(),
            p == plan@,
            t < p.tokens.len(),
            p.tokens[t as int] == tok@,
            d == vfs.disk(),
            vfs.valid(),
            found@ == hits(d, tok@, i as int),
            match last_intruder(d, p, tok@, i as int) {
                Some(k) => foreign is Some && foreign->0 == k && k < i,
                None => foreign is None,
            },
        decreases n - i,
    {
        let loc = &tok.locs[i];
        assert(tok@.locs[i as int] == loc@);
        assert(vfs.serves() && reachable(d, p, t as int) ==> way_clear(d, p.tokens[t as int].locs[i as int].path));
        let seen = match vfs.probe(&loc.path, loc.parent) {
            Ok(x) => x,
            Err(e) => return Err(e),
        };
        match seen {
            Probe::ParentMismatch | Probe::Missing => {
                assert(!sits(d, tok@, i as int));
                assert(!intruder(d, p, loc@));
            },
            Probe::Present(m) => {
                let ghost id = d.resolve(loc.path@)->0;
                assert(present(d, tok@.locs[i as int], id));
                assert(d.shows(id) == m.id);
                assert(d.objects[id].kind() == m.kind);
                if m.id == tok.id && m.kind == tok.kind {
                    assert(sits(d, tok@, i as int));
                    found.push(i);
                    assert(known(p, m.id)) by {
                        assert(p.tokens[t as int].id == m.id);
                    }
                    assert(!intruder(d, p, loc@));
                } else {
                    assert(!sits(d, tok@, i as int));
                    if is_known(plan, m.id) {
                        assert(!intruder(d, p, loc@));
                    } else {
                        assert(intruder(d, p, loc@));
                        foreign = Some(i);
                    }
                }
            },
        }
        i = i + 1;
    }
    match foreign {
        Some(k) => {
            return Ok(Err(Reason::UnknownEntry { path: tok.locs[k].path.clone() }));
        },
        None => {},
    }
    if found.len() == 1 {
        return Ok(Ok(Pos::At(found[0])));
    }
    if found.len() == 2 && tok.kind == Kind::File {
        proof {
            lemma_hits(d, tok@, n as int);
        }
        if found[1] - 1 == found[0] {
            return Ok(Ok(Pos::Both(found[0])));
        }
    }
    if found.len() == 0 {
        return Ok(Err(Reason::TokenLost { id: tok.id }));
    }
    if found[0] == 0 && tok.kind == Kind::File {
        match all_at_start(vfs, plan) {
            Ok(true) => return Ok(Ok(Pos::At(0))),
            Ok(false) => {},
            Err(e) => return Err(e),
        }
    }
    Ok(Err(Reason::TokenSeveral { id: tok.id, hits: found }))
}

/// The hits are locations at which the token is, in order, each once.
pub proof fn lemma_hits(d: Disk, tok: TokenView, n: int)
    requires
        0 <= n <= tok.locs.len(),
        tok.locs.len() <= usize::MAX,
    ensures
        forall|k: int|
            0 <= k < hits(d, tok, n).len() ==> (#[trigger] hits(d, tok, n)[k]) < n && sits(
                d,
                tok,
                hits(d, tok, n)[k] as int,
            ),
        forall|k: int, m: int|
            0 <= k < m < hits(d, tok, n).len() ==> hits(d, tok, n)[k] < hits(d, tok, n)[m],
        forall|i: int| 0 <= i < n && sits(d, tok, i) ==> hits(d, tok, n).contains(i as usize),
    decreases n,
{
    if n > 0 {
        lemma_hits(d, tok, n - 1);
        let before = hits(d, tok, n - 1);
        let now = hits(d, tok, n);
        assert forall|i: int| 0 <= i < n && sits(d, tok, i) implies now.contains(i as usize) by {
            if i < n - 1 {
                assert(before.contains(i as usize));
                let k = choose|k: int| 0 <= k < before.len() && before[k] == i as usize;
                assert(now[k] == i as usize);
            } else {
                assert(now.last() == i as usize);
            }
        }
    }
}

/// Locates every token. `Err` inside the result says what is unclear about a token.
pub fn classify<V: Vfs>(vfs: &V, plan: &Plan) -> (r: IoResult<Vec<Result<Pos, Reason>>>)
    requires
        vfs.valid(),
    ensures
        r matches Ok(v) ==> v@.len() == plan@.tokens.len() && forall|t: int|
            0 <= t < v@.len() ==> located(vfs.disk(), plan@, t, #[trigger] v@[t]),
        vfs.serves() && (forall|t: int| 0 <= t < plan@.tokens.len() ==> #[trigger] reachable(vfs.disk(), plan@, t))
            ==> r is Ok,
{
    let n = plan.tokens.len();
    let mut out: Vec<Result<Pos, Reason>> = Vec::new();
    let mut t: usize = 0;
    while t < n
        invariant
            t <= n,
            n == plan@.tokens.len(),
            vfs.valid(),
            out@.len() == t,
            forall|u: int| 0 <= u < t ==> located(vfs.disk(), plan@, u, #[trigger] out@[u]),
        decreases n - t,
    {
        match locate(vfs, plan, t) {
            Ok(x) => {
                out.push(x);
            },
            Err(e) => return Err(e),
        }
        t = t + 1;
    }
    Ok(out)
}

/// No location of the plan is the root itself.
pub open spec fn no_root_location(p: PlanView) -> bool {
    forall|t: int, i: int|
        #![trigger p.tokens[t].locs[i]]
        0 <= t < p.tokens.len() && 0 <= i < p.tokens[t].locs.len() ==> p.tokens[t].locs[i].path.len() > 0
}

/// A position is among the token's locations.
pub proof fn lemma_located_fits(d: Disk, p: PlanView, t: int, x: Pos)
    requires
        0 <= t < p.tokens.len(),
        p.tokens[t].locs.len() <= usize::MAX,
        token_pos(d, p, t) == Some(x),
    ensures
        pos_fits(p, t, x),
{
    let tok = p.tokens[t];
    let h = hits(d, tok, tok.locs.len() as int);
    lemma_hits(d, tok, tok.locs.len() as int);
    assert(h[0] < tok.locs.len());
    if h.len() == 2 {
        assert(h[1] < tok.locs.len());
    }
}

/// Classification speaks the truth: a token is where it is said to be.
pub proof fn lemma_located_is_seated(d: Disk, p: PlanView, t: int, x: Pos)
    requires
        d.steady,
        0 <= t < p.tokens.len(),
        p.tokens[t].locs.len() <= usize::MAX,
        no_root_location(p),
        token_pos(d, p, t) == Some(x),
    ensures
        token_seated(d, p, t, x),
{
    let tok = p.tokens[t];
    let n = tok.locs.len() as int;
    let h = hits(d, tok, n);
    lemma_hits(d, tok, n);
    assert(h[0] < n && sits(d, tok, h[0] as int));
    lemma_sits_holds(d, p, t, h[0] as int);
    if h.len() == 2 {
        assert(h[1] < n && sits(d, tok, h[1] as int));
        lemma_sits_holds(d, p, t, h[1] as int);
    }
}

pub proof fn lemma_sits_holds(d: Disk, p: PlanView, t: int, i: int)
    requires
        d.steady,
        0 <= t < p.tokens.len(),
        0 <= i < p.tokens[t].locs.len(),
        no_root_location(p),
        sits(d, p.tokens[t], i),
    ensures
        holds(d, p.tokens[t].locs[i], p.tokens[t].id),
{
    let l = p.tokens[t].locs[i];
    let id = choose|id: FileId| #[trigger]
        present(d, l, id) && d.shows(id) == p.tokens[t].id && d.objects[id].kind() == p.tokens[t].kind;
    assert(l.path.len() > 0);
    assert(parent_of(l.path) == l.path.drop_last());
}

} // verus!
