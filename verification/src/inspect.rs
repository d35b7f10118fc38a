//! Read-only diagnostics: what recovery would do, and where every token is.
//! Inspecting takes the filesystem by shared reference; it never mutates.
use vstd::prelude::*;

use crate::bytes::starts_with;
use crate::classify::classify;
use crate::classify::{located, reachable, token_pos};
use crate::disk::{Disk, FileId, Kind};
use crate::error::{Error, Reason, Result};
use crate::journal::Journal;
use crate::path::joined;
use crate::plan::{PlanView, TokenView};
use crate::positions::Pos;
use crate::recover::{decide, preflight, sorted_names, Decision};
use crate::recover::{
    all_examinable, cleared, decided, entries_to_recover, examinable, is_garbage, is_transaction, refused, refused_for, texts,
};
use crate::state::{gc_prefix_bytes, private_dir, probe_prefix_bytes, tx_prefix_bytes, TxDir};
use crate::state::private_root;
use crate::vfs::{way_clear, Vfs};

verus! {

/// State of the root's private area.
#[derive(Debug)]
#[non_exhaustive]
pub struct Inspection {
    pub transactions: Vec<TxInspection>,
    /// Scratch directories (`gc-*`, `probe-*`) that recovery will delete.
    pub garbage: Vec<String>,
}

impl Default for Inspection {
    fn default() -> (r: Self)
        ensures
            r.transactions@.len() == 0,
            r.garbage@.len() == 0,
    {
        Inspection { transactions: Vec::new(), garbage: Vec::new() }
    }
}

/// What is known of one transaction.
#[derive(Debug)]
#[non_exhaustive]
pub struct TxInspection {
    pub name: String,
    pub action: RecoveryAction,
    /// Why recovery cannot proceed, for `RecoveryAction::RecoveryRequired`.
    pub reason: Option<Reason>,
    pub tokens: Vec<TokenInspection>,
}

/// What recovery would do with a transaction.
#[derive(Clone, Copy, Debug, PartialEq, Eq, Structural)]
pub enum RecoveryAction {
    /// Never prepared; the tree was not touched. Delete it.
    Discard,
    /// Committed; delete leftovers.
    CleanUpCommitted,
    /// Already rolled back; delete leftovers.
    CleanUpRolledBack,
    /// Prepared, not committed: roll back.
    RollBack,
    /// Recovery will not touch anything.
    RecoveryRequired,
}

/// What is known of one token.
#[derive(Debug)]
#[non_exhaustive]
pub struct TokenInspection {
    pub kind: Kind,
    pub id: FileId,
    /// Paths relative to the root, in apply order.
    pub locations: Vec<Vec<u8>>,
    /// Index into `locations`, or the anomaly found.
    pub position: core::result::Result<TokenPosition, Reason>,
}

/// Where a token is.
#[derive(Clone, Copy, Debug, PartialEq, Eq, Structural)]
pub struct TokenPosition {
    pub index: usize,
    /// The entry is present at both `index` and `index + 1`.
    pub both_names: bool,
}

/// The position in terms of locations.
pub open spec fn position_of(x: Pos) -> TokenPosition {
    match x {
        Pos::At(i) => TokenPosition { index: i, both_names: false },
        Pos::Both(i) => TokenPosition { index: i, both_names: true },
    }
}

/// The paths of a token's locations, as bytes.
pub open spec fn location_paths(tok: TokenView) -> Seq<Seq<u8>> {
    tok.locs.map_values(|l: crate::plan::LocView| joined(l.path))
}

/// The inspection is right about token `t`.
pub open spec fn token_shown(d: Disk, p: PlanView, t: int, x: TokenInspection) -> bool {
    &&& x.kind == p.tokens[t].kind
    &&& x.id == p.tokens[t].id
    &&& crate::path::views(x.locations@) == location_paths(p.tokens[t])
    &&& exists|c: core::result::Result<Pos, Reason>| #[trigger]
        located(d, p, t, c) && x.position == (match c {
            Ok(y) => Ok::<TokenPosition, Reason>(position_of(y)),
            Err(e) => Err::<TokenPosition, Reason>(e),
        })
}

/// The first anomaly among the first `n` tokens.
pub open spec fn first_anomaly(tokens: Seq<TokenInspection>, n: int) -> Option<Reason>
    decreases n,
{
    if n <= 0 {
        None
    } else {
        match first_anomaly(tokens, n - 1) {
            Some(e) => Some(e),
            None => match tokens[n - 1].position {
                Ok(_) => None,
                Err(e) => Some(e),
            },
        }
    }
}

/// The two reasons say the same about where a token is.
pub open spec fn same_anomaly(a: Reason, b: Reason) -> bool {
    match a {
        Reason::UnknownEntry { path } => b matches Reason::UnknownEntry { path: q } && q@ == path@,
        Reason::TokenLost { id } => b == a,
        Reason::TokenSeveral { id, hits } => b matches Reason::TokenSeveral { id: other, hits: h } && other == id && h@
            == hits@,
        _ => false,
    }
}

/// The reason given is the first anomaly among the tokens.
pub open spec fn gives_first(reason: Option<Reason>, tokens: Seq<TokenInspection>) -> bool {
    match first_anomaly(tokens, tokens.len() as int) {
        Some(e) => reason matches Some(f) && same_anomaly(e, f),
        None => reason is None,
    }
}

/// A copy of what is unclear about a token.
fn copy_anomaly(e: &Reason) -> (r: Reason)
    requires
        same_anomaly(*e, *e),
    ensures
        same_anomaly(*e, r),
{
    match e {
        Reason::UnknownEntry { path } => Reason::UnknownEntry { path: path.clone() },
        Reason::TokenSeveral { id, hits } => Reason::TokenSeveral { id: *id, hits: hits.clone() },
        Reason::TokenLost { id } => Reason::TokenLost { id: *id },
        _ => Reason::NoJournal,
    }
}

/// Rolling back would find every token, in the shape that a crash can leave, and in accord with
/// the log.
pub open spec fn passes_preflight(d: Disk, tx: TxDir, p: PlanView) -> bool {
    exists|pos: Seq<Pos>| #[trigger] cleared(d, tx, p, pos)
}

/// The inspection is right about what recovery would do with a transaction, given the
/// decision.
pub open spec fn decision_shown(d: Disk, tx: TxDir, x: Decision, t: TxInspection) -> bool {
    match x {
        Decision::Discard => t.action == RecoveryAction::Discard && t.reason is None && t.tokens@.len() == 0,
        Decision::Committed => t.action == RecoveryAction::CleanUpCommitted && t.reason is None && t.tokens@.len()
            == 0,
        Decision::RolledBack => t.action == RecoveryAction::CleanUpRolledBack && t.reason is None && t.tokens@.len()
            == 0,
        Decision::Required(e) => t.action == RecoveryAction::RecoveryRequired && t.reason == Some(e)
            && t.tokens@.len() == 0,
        Decision::RollBack(j) => {
            &&& t.tokens@.len() == j@.plan.tokens.len()
            &&& forall|i: int| 0 <= i < t.tokens@.len() ==> token_shown(d, j@.plan, i, #[trigger] t.tokens@[i])
            &&& t.action == (if passes_preflight(d, tx, j@.plan) {
                RecoveryAction::RollBack
            } else {
                RecoveryAction::RecoveryRequired
            })
            &&& t.reason is Some <==> t.action == RecoveryAction::RecoveryRequired
            &&& first_anomaly(t.tokens@, t.tokens@.len() as int) is Some ==> gives_first(t.reason, t.tokens@)
        },
    }
}

/// The inspection is right about one transaction.
pub open spec fn tx_shown(d: Disk, name: String, t: TxInspection) -> bool {
    t.name@ == name@ && exists|x: Decision| #[trigger] decided(d, TxDir { name }, x) && decision_shown(
        d,
        TxDir { name },
        x,
        t,
    )
}

/// The entries among the first `n` that are scratch space, in order.
pub open spec fn garbage_among(names: Seq<String>, n: int) -> Seq<Seq<char>>
    decreases n,
{
    if n <= 0 {
        Seq::empty()
    } else if is_garbage(TxDir { name: names[n - 1] }.id()) {
        garbage_among(names, n - 1).push(names[n - 1]@)
    } else {
        garbage_among(names, n - 1)
    }
}

/// The entries among the first `n` that are transactions, in order.
pub open spec fn transactions_among(names: Seq<String>, n: int) -> Seq<String>
    decreases n,
{
    if n <= 0 {
        Seq::empty()
    } else if is_transaction(TxDir { name: names[n - 1] }.id()) {
        transactions_among(names, n - 1).push(names[n - 1])
    } else {
        transactions_among(names, n - 1)
    }
}

/// The inspection covers the first `n` entries.
pub open spec fn shown_so_far(d: Disk, names: Seq<String>, n: int, out: Inspection) -> bool {
    &&& texts(out.garbage@) == garbage_among(names, n)
    &&& out.transactions@.len() == transactions_among(names, n).len()
    &&& forall|i: int|
        0 <= i < out.transactions@.len() ==> tx_shown(
            d,
            transactions_among(names, n)[i],
            #[trigger] out.transactions@[i],
        )
}

/// What inspecting a filesystem comes to.
pub open spec fn inspected(d: Disk, out: Inspection) -> bool {
    if d.resolve(private_root()) is None {
        out.transactions@.len() == 0 && out.garbage@.len() == 0
    } else {
        exists|names: Seq<String>| #[trigger]
            entries_to_recover(d, names) && shown_so_far(d, names, names.len() as int, out)
    }
}

/// The positions of the tokens of a journal that is to be rolled back.
fn inspect_tokens<V: Vfs>(vfs: &V, j: &Journal) -> (r: Result<(Vec<TokenInspection>, Option<Reason>)>)
    requires
        vfs.valid(),
    ensures
        r matches Ok((v, reason)) ==> {
            &&& v@.len() == j@.plan.tokens.len()
            &&& forall|i: int| 0 <= i < v@.len() ==> token_shown(vfs.disk(), j@.plan, i, #[trigger] v@[i])
            &&& gives_first(reason, v@)
        },
        r matches Err(e) ==> e is Io,
        vfs.serves() && (forall|t: int| 0 <= t < j@.plan.tokens.len() ==> #[trigger] reachable(vfs.disk(), j@.plan, t))
            ==> r is Ok,
{
    let ghost p = j@.plan;
    let ghost d = vfs.disk();
    let mut classes = match classify(vfs, &j.plan) {
        Ok(x) => x,
        Err(e) => return Err(Error::Io(e)),
    };
    let ghost all = classes@;
    let n = classes.len();
    let mut out: Vec<TokenInspection> = Vec::new();
    let mut reason: Option<Reason> = None;
    let mut t: usize = 0;
    while t < n
        invariant
            t <= n,
            n == p.tokens.len(),
            p == j@.plan,
            n == j.plan.tokens@.len(),
            d == vfs.disk(),
            all.len() == n,
            classes@ == all.skip(t as int),
            forall|u: int| 0 <= u < n ==> located(d, p, u, #[trigger] all[u]),
            out@.len() == t,
            forall|i: int| 0 <= i < t ==> token_shown(d, p, i, #[trigger] out@[i]),
            gives_first(reason, out@),
        decreases n - t,
    {
        let tok = &j.plan.tokens[t];
        assert(p.tokens[t as int] == tok@);
        let c = classes.remove(0);
        assert(c == all[t as int]);
        assert(located(d, p, t as int, c));
        assert(classes@ =~= all.skip(t + 1));
        let mut locations: Vec<Vec<u8>> = Vec::new();
        let m = tok.locs.len();
        let mut i: usize = 0;
        while i < m
            invariant
                i <= m,
                m == tok.locs@.len(),
                locations@.len() == i,
                forall|k: int| 0 <= k < i ==> (#[trigger] locations@[k])@ == joined(tok.locs@[k].path@),
            decreases m - i,
        {
            locations.push(tok.locs[i].path.to_path_buf());
            i = i + 1;
        }
        assert(crate::path::views(locations@) =~= location_paths(tok@));
        let position = match c {
            Ok(Pos::At(i)) => Ok(TokenPosition { index: i, both_names: false }),
            Ok(Pos::Both(i)) => Ok(TokenPosition { index: i, both_names: true }),
            Err(e) => {
                if reason.is_none() {
                    reason = Some(copy_anomaly(&e));
                }
                Err(e)
            },
        };
        let ghost before = out@;
        out.push(TokenInspection { kind: tok.kind, id: tok.id, locations, position });
        proof {
            lemma_anomaly_same(before, out@, t as int);
            assert(token_shown(d, p, t as int, out@[t as int]));
        }
        t = t + 1;
    }
    Ok((out, reason))
}

/// What comes later does not matter for what came first.
proof fn lemma_anomaly_same(a: Seq<TokenInspection>, b: Seq<TokenInspection>, n: int)
    requires
        0 <= n <= a.len(),
        n <= b.len(),
        forall|i: int| 0 <= i < n ==> a[i] == b[i],
    ensures
        first_anomaly(a, n) == first_anomaly(b, n),
    decreases n,
{
    if n > 0 {
        lemma_anomaly_same(a, b, n - 1);
    }
}

/// With an anomaly among the tokens, rolling back is refused.
proof fn lemma_anomaly_refuses(d: Disk, tx: TxDir, p: PlanView, tokens: Seq<TokenInspection>)
    requires
        tokens.len() == p.tokens.len(),
        forall|i: int| 0 <= i < tokens.len() ==> token_shown(d, p, i, #[trigger] tokens[i]),
        first_anomaly(tokens, tokens.len() as int) is Some,
    ensures
        !passes_preflight(d, tx, p),
{
    lemma_some_anomaly(tokens, tokens.len() as int);
    let i = choose|i: int| 0 <= i < tokens.len() && (#[trigger] tokens[i]).position is Err;
    assert(token_shown(d, p, i, tokens[i]));
    if passes_preflight(d, tx, p) {
        let pos = choose|pos: Seq<Pos>| #[trigger] cleared(d, tx, p, pos);
        assert(token_pos(d, p, i) == Some(pos[i]));
    }
}

proof fn lemma_some_anomaly(tokens: Seq<TokenInspection>, n: int)
    requires
        0 <= n <= tokens.len(),
        first_anomaly(tokens, n) is Some,
    ensures
        exists|i: int| 0 <= i < n && (#[trigger] tokens[i]).position is Err,
    decreases n,
{
    if n > 0 {
        if first_anomaly(tokens, n - 1) is Some {
            lemma_some_anomaly(tokens, n - 1);
        } else {
            assert(tokens[n - 1].position is Err);
        }
    }
}

/// What recovery would do with one transaction.
fn inspect_tx<V: Vfs>(vfs: &V, name: &String) -> (r: Result<TxInspection>)
    requires
        vfs.valid(),
    ensures
        r matches Ok(t) ==> tx_shown(vfs.disk(), *name, t),
        r matches Err(e) ==> e is Io,
        vfs.serves() && examinable(vfs.disk(), TxDir { name: *name }) ==> r is Ok,
{
    let tx = TxDir { name: name.clone() };
    let decision = match decide(vfs, &tx) {
        Ok(x) => x,
        Err(e) => return Err(Error::Io(e)),
    };
    let ghost x = decision;
    let name = name.clone();
    let t = match decision {
        Decision::Discard => TxInspection {
            name,
            action: RecoveryAction::Discard,
            reason: None,
            tokens: Vec::new(),
        },
        Decision::Committed => TxInspection {
            name,
            action: RecoveryAction::CleanUpCommitted,
            reason: None,
            tokens: Vec::new(),
        },
        Decision::RolledBack => TxInspection {
            name,
            action: RecoveryAction::CleanUpRolledBack,
            reason: None,
            tokens: Vec::new(),
        },
        Decision::Required(e) => TxInspection {
            name,
            action: RecoveryAction::RecoveryRequired,
            reason: Some(e),
            tokens: Vec::new(),
        },
        Decision::RollBack(j) => {
            let (tokens, reason) = match inspect_tokens(vfs, &j) {
                Ok(v) => v,
                Err(e) => return Err(e),
            };
            let mut reason = reason;
            if reason.is_none() {
                match preflight(vfs, &tx, &j) {
                    Ok(_) => {},
                    Err(Error::RecoveryRequired { reason: why, .. }) => {
                        reason = Some(why);
                    },
                    Err(e) => return Err(e),
                }
            } else {
                proof {
                    lemma_anomaly_refuses(vfs.disk(), tx, j@.plan, tokens@);
                }
            }
            let action = if reason.is_some() {
                RecoveryAction::RecoveryRequired
            } else {
                RecoveryAction::RollBack
            };
            TxInspection { name, action, reason, tokens }
        },
    };
    assert(decision_shown(vfs.disk(), tx, x, t));
    Ok(t)
}

/// What is looked at for the report can be looked at: there is no private directory, or every
/// transaction in it can be examined.
pub open spec fn can_inspect(d: Disk) -> bool {
    d.resolve(private_root()) is None || d.dir_at(private_root()) is Some && forall|names: Seq<String>| #[trigger]
        entries_to_recover(d, names) ==> all_examinable(d, names)
}

/// Read-only report of what recovery would do. Never modifies anything.
pub fn inspect_on<V: Vfs>(vfs: &V) -> (r: Result<Inspection>)
    requires
        vfs.valid(),
    ensures
        r matches Ok(out) ==> inspected(vfs.disk(), out),
        r matches Err(e) ==> e is Io,
        vfs.serves() && can_inspect(vfs.disk()) ==> r is Ok,
{
    let ghost d = vfs.disk();
    let mut out = Inspection::default();
    let dir = private_dir();
    assert(way_clear(d, dir@));
    match vfs.stat(&dir) {
        Ok(Some(_)) => {},
        Ok(None) => return Ok(out),
        Err(e) => return Err(Error::Io(e)),
    }
    let _lock = match vfs.lock(false) {
        Ok(x) => x,
        Err(e) => return Err(Error::Io(e)),
    };
    let listed = match vfs.read_dir(&dir) {
        Ok(x) => x,
        Err(e) => return Err(Error::Io(e)),
    };
    let names = sorted_names(&listed);
    assert(entries_to_recover(d, names@));
    let gc = gc_prefix_bytes();
    let probe = probe_prefix_bytes();
    let tx = tx_prefix_bytes();
    let n = names.len();
    let mut i: usize = 0;
    assert(texts(out.garbage@) =~= garbage_among(names@, 0));
    while i < n
        invariant
            i <= n,
            n == names@.len(),
            vfs.valid(),
            d == vfs.disk(),
            gc@ == crate::state::gc_prefix_name(),
            probe@ == crate::state::probe_prefix_name(),
            tx@ == crate::state::tx_prefix_name(),
            shown_so_far(d, names@, i as int, out),
            entries_to_recover(d, names@),
            d.resolve(private_root()) is Some,
        decreases n - i,
    {
        let name = &names[i];
        let bytes = name.as_str().as_bytes();
        let ghost before = out;
        if starts_with(bytes, &gc) || starts_with(bytes, &probe) {
            out.garbage.push(name.clone());
            assert(texts(out.garbage@) =~= texts(before.garbage@).push(name@));
        } else if starts_with(bytes, &tx) {
            assert(is_transaction(TxDir { name: names@[i as int] }.id()));
            let t = match inspect_tx(vfs, name) {
                Ok(t) => t,
                Err(e) => return Err(e),
            };
            out.transactions.push(t);
            proof {
                let some = transactions_among(names@, i as int);
                assert forall|k: int| 0 <= k < out.transactions@.len() implies tx_shown(
                    d,
                    transactions_among(names@, i + 1)[k],
                    #[trigger] out.transactions@[k],
                ) by {
                    if k < i && k < some.len() {
                        assert(out.transactions@[k] == before.transactions@[k]);
                    }
                }
            }
        }
        i = i + 1;
    }
    Ok(out)
}

/// Inspection foretells recovery. A transaction is shown as one that recovery will not touch exactly if
/// recovery refuses it; and as one to be rolled back exactly if recovery decides so and finds every
/// token.
pub proof fn law_inspection_foretells_recovery(d: Disk, name: String, t: TxInspection)
    requires
        tx_shown(d, name, t),
    ensures
        t.action == RecoveryAction::RecoveryRequired <==> refused(d, TxDir { name }),
        t.action == RecoveryAction::Discard <==> decided(d, TxDir { name }, Decision::Discard),
        t.action == RecoveryAction::CleanUpCommitted <==> decided(d, TxDir { name }, Decision::Committed),
        t.action == RecoveryAction::CleanUpRolledBack <==> decided(d, TxDir { name }, Decision::RolledBack),
{
    let tx = TxDir { name };
    let x = choose|x: Decision| #[trigger] decided(d, tx, x) && decision_shown(d, tx, x, t);
    if t.action == RecoveryAction::RecoveryRequired {
        match x {
            Decision::Required(e) => {
                assert(refused_for(d, tx, e));
            },
            Decision::RollBack(j) => {
                assert forall|pos: Seq<Pos>| !cleared(d, tx, j@.plan, pos) by {
                    assert(!passes_preflight(d, tx, j@.plan));
                }
                assert(refused_for(d, tx, t.reason->0));
            },
            _ => {},
        }
    }
    if refused(d, tx) {
        let reason = choose|reason: Reason| #[trigger] refused_for(d, tx, reason);
        if !decided(d, tx, Decision::Required(reason)) {
            let j = choose|j: Box<Journal>| #[trigger]
                decided(d, tx, Decision::RollBack(j)) && forall|pos: Seq<Pos>| !cleared(d, tx, j@.plan, pos);
            if let Decision::RollBack(i) = x {
                assert(i@ == j@);
            }
        }
    }
}

} // verus!
