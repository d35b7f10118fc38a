//! What probing a filesystem leaves of a disk: everything as it was, but for scratch space.
use vstd::prelude::*;

use crate::bytes::Name;
use crate::classify::{at_start, hits, intruder, known, last_intruder, present, reachable, sits, token_pos};
use crate::disk::{Disk, FileId, Key, Object};
use crate::journal::Journal;
use crate::path::{parent_of, private_name, PathView};
use crate::plan::{PlanView, TokenView};
use crate::positions::Pos;
use crate::recover::{
    all_examinable, backup_used, can_look, cleared, decided, entries_to_recover, examinable, is_garbage, is_transaction,
    legible, log_of, none_refused, quiet, refused, refused_for, tidy, Decision,
};
use crate::error::Reason;
use crate::state::{backup_name, journal_name, private_root, progress_name, Marker, TxDir};
use crate::tree::{alike, lemma_lookup, lemma_resolve_key, leads_on, pruned_below};
use crate::vfs::{created_at, moved_at, same_volume, way_clear};

verus! {

/// The object is not in use: it is not the root, and no name leads to it or stands in it.
pub open spec fn unknown(d: Disk, id: FileId) -> bool {
    id != d.root && forall|k: Key| #[trigger] d.names.contains_key(k) ==> d.names[k] != id && k.dir != id
}

/// The object is the same, if it is there at all.
pub open spec fn same_object(a: Disk, b: Disk, id: FileId) -> bool {
    b.objects.contains_key(id) == a.objects.contains_key(id) && b.objects[id] == a.objects[id]
}

/// `b` is `a` but for scratch space: every name leads where it led, every object in use is what it
/// was, and what is new stands under `name` in the private directory.
pub open spec fn probed(a: Disk, b: Disk, name: Name) -> bool {
    &&& same_volume(a, b)
    &&& forall|k: Key| #[trigger] a.names.contains_key(k) ==> b.names.contains_key(k) && b.names[k] == a.names[k]
    &&& forall|k: Key| #[trigger]
        b.names.contains_key(k) && !a.names.contains_key(k) ==> unknown(a, b.names[k]) && (unknown(a, k.dir) || a.dir_at(
            private_root(),
        ) == Some(k.dir) && k.name == name)
    &&& forall|id: FileId| !unknown(a, id) ==> #[trigger] same_object(a, b, id)
}

/// `b` is `a` but for objects that are not in use.
pub open spec fn spotless(a: Disk, b: Disk) -> bool {
    &&& same_volume(a, b)
    &&& forall|k: Key| #[trigger] a.names.contains_key(k) ==> b.names.contains_key(k) && b.names[k] == a.names[k]
    &&& forall|k: Key| #[trigger] b.names.contains_key(k) && !a.names.contains_key(k) ==> unknown(a, k.dir)
    &&& forall|id: FileId| !unknown(a, id) ==> #[trigger] same_object(a, b, id)
}

/// A disk is itself.
pub proof fn lemma_probed_self(a: Disk, name: Name)
    ensures
        probed(a, a, name),
        spotless(a, a),
{
}

/// Where names and objects stay, nothing changes.
pub proof fn lemma_probed_same(base: Disk, a: Disk, b: Disk, name: Name)
    requires
        probed(base, a, name),
        same_volume(a, b),
        a.names == b.names,
        a.objects == b.objects,
    ensures
        probed(base, b, name),
{
    assert forall|x: FileId| !unknown(base, x) implies #[trigger] same_object(base, b, x) by {
        assert(same_object(base, a, x));
    }
}

/// Making the scratch directory.
pub proof fn lemma_probed_begins(a: Disk, b: Disk, name: Name, id: FileId, object: Object)
    requires
        created_at(a, b, private_root().push(name), id, object),
    ensures
        probed(a, b, name),
        unknown(a, id),
{
    assert(private_root().push(name).drop_last() =~= private_root());
}

/// Making something in a directory that is not in use.
pub proof fn lemma_probed_create(base: Disk, a: Disk, b: Disk, name: Name, p: PathView, id: FileId, object: Object)
    requires
        probed(base, a, name),
        created_at(a, b, p, id, object),
        a.dir_at(p.drop_last()) matches Some(dir) && unknown(base, dir),
    ensures
        probed(base, b, name),
{
    assert forall|k: Key| #[trigger] base.names.contains_key(k) implies base.names[k] != id && k.dir != id by {
        assert(a.names.contains_key(k));
    }
    assert(unknown(base, id));
    assert forall|x: FileId| !unknown(base, x) implies #[trigger] same_object(base, b, x) by {
        assert(same_object(base, a, x));
    }
}

/// Moving something within a directory that is not in use.
pub proof fn lemma_probed_move(base: Disk, a: Disk, b: Disk, name: Name, p: PathView, q: PathView)
    requires
        a.well_formed(),
        probed(base, a, name),
        moved_at(a, b, p, None, q, None),
        p.len() > 0,
        a.dir_at(p.drop_last()) matches Some(dir) && unknown(base, dir),
        a.dir_at(q.drop_last()) matches Some(dir) && unknown(base, dir),
    ensures
        probed(base, b, name),
{
    let from = a.key_at(p)->0;
    lemma_lookup(a, a.dir_at(p.drop_last())->0, p.last());
    assert(a.names.contains_key(from));
    assert(!base.names.contains_key(from));
    assert forall|x: FileId| !unknown(base, x) implies #[trigger] same_object(base, b, x) by {
        assert(same_object(base, a, x));
    }
    assert(unknown(base, a.names[from]));
}

/// What is at the scratch directory or below is not in use.
proof fn lemma_scratch_unknown(base: Disk, a: Disk, name: Name, q: PathView)
    requires
        base.well_formed(),
        a.well_formed(),
        probed(base, a, name),
        base.dir_at(private_root()) is Some,
        base.lookup(base.dir_at(private_root())->0, name) is None,
        a.dir_at(private_root()) == base.dir_at(private_root()),
        leads_on(q, private_root().push(name)),
        a.key_at(q) is Some,
    ensures
        !base.names.contains_key(a.key_at(q)->0),
        unknown(base, a.names[a.key_at(q)->0]),
    decreases q.len(),
{
    let p = private_root().push(name);
    let k = a.key_at(q)->0;
    let up = q.drop_last();
    lemma_lookup(a, a.dir_at(up)->0, q.last());
    assert(a.names.contains_key(k));
    if q.len() == p.len() {
        assert(q =~= p);
        assert(up =~= private_root());
        lemma_lookup(base, k.dir, name);
    } else {
        assert(up.take(p.len() as int) =~= q.take(p.len() as int));
        lemma_resolve_key(a, up);
        lemma_scratch_unknown(base, a, name, up);
        assert(unknown(base, k.dir));
    }
}

/// Deleting at the scratch directory and below.
pub proof fn lemma_probed_pruned(base: Disk, a: Disk, b: Disk, name: Name)
    requires
        base.well_formed(),
        a.well_formed(),
        probed(base, a, name),
        base.dir_at(private_root()) is Some,
        base.lookup(base.dir_at(private_root())->0, name) is None,
        a.dir_at(private_root()) == base.dir_at(private_root()),
        pruned_below(a, b, private_root().push(name)),
    ensures
        probed(base, b, name),
{
    assert forall|k: Key| #[trigger] base.names.contains_key(k) implies b.names.contains_key(k) && b.names[k]
        == base.names[k] by {
        assert(a.names.contains_key(k));
        if !b.names.contains_key(k) {
            let q = choose|q: PathView| leads_on(q, private_root().push(name)) && #[trigger] a.key_at(q) == Some(k);
            lemma_scratch_unknown(base, a, name, q);
        }
    }
    assert forall|x: FileId| !unknown(base, x) implies #[trigger] same_object(base, b, x) by {
        assert(same_object(base, a, x));
    }
}

/// The private directory is where it was.
pub proof fn lemma_probed_area(a: Disk, b: Disk, name: Name)
    requires
        a.well_formed(),
        b.well_formed(),
        probed(a, b, name),
        a.dir_at(private_root()) is Some,
    ensures
        b.dir_at(private_root()) == a.dir_at(private_root()),
{
    let area = private_root();
    let top = Seq::<Name>::empty();
    assert(area.drop_last() =~= top);
    assert(a.resolve(top) == Some(a.root) && b.resolve(top) == Some(b.root));
    lemma_resolve_key(a, area);
    lemma_lookup(a, a.root, private_name());
    let k = a.key_at(area)->0;
    assert(a.names.contains_key(k));
    lemma_lookup(b, b.root, private_name());
    assert(b.names.contains_key(k));
    assert(alike(b, k.name, private_name()));
    let dir = a.names[k];
    assert(!unknown(a, dir));
    assert(!unknown(a, a.root));
    assert(same_object(a, b, dir));
    assert(same_object(a, b, a.root));
    assert(b.resolve(area) == Some(dir));
}

/// Scratch space is not a transaction.
pub proof fn lemma_probed_quiet(a: Disk, b: Disk, name: Name)
    requires
        a.well_formed(),
        b.well_formed(),
        probed(a, b, name),
        quiet(a),
        is_garbage(name),
    ensures
        quiet(b),
{
    lemma_probed_area(a, b, name);
    let top = Seq::<Name>::empty();
    assert(private_root().drop_last() =~= top);
    lemma_resolve_key(a, private_root());
    lemma_lookup(a, a.root, private_name());
    assert(a.names.contains_key(a.key_at(private_root())->0));
    let dir = a.dir_at(private_root())->0;
    assert(!unknown(a, dir));
    assert forall|k: Key| #[trigger] b.names.contains_key(k) && k.dir == dir && vstd::utf8::valid_utf8(
        k.name,
    ) implies !is_transaction(k.name) by {
        if a.names.contains_key(k) {
        } else {
            assert(k.name == name);
        }
    }
}

/// Where no scratch space is left, the disk is as it was.
pub proof fn lemma_spotless(a: Disk, b: Disk, name: Name)
    requires
        probed(a, b, name),
        forall|k: Key| #[trigger]
            b.names.contains_key(k) && a.dir_at(private_root()) == Some(k.dir) ==> a.names.contains_key(k),
    ensures
        spotless(a, b),
{
    assert forall|k: Key| #[trigger] b.names.contains_key(k) && !a.names.contains_key(k) implies unknown(a, k.dir) by {}
}

/// Every path leads where it led.
pub proof fn lemma_spotless_resolves(a: Disk, b: Disk, p: PathView)
    requires
        a.well_formed(),
        b.well_formed(),
        spotless(a, b),
    ensures
        b.resolve(p) == a.resolve(p),
        b.dir_at(p) == a.dir_at(p),
        b.file_at(p) == a.file_at(p),
        a.resolve(p) matches Some(id) ==> !unknown(a, id) && b.objects[id] == a.objects[id] && b.objects.contains_key(id)
            == a.objects.contains_key(id),
    decreases p.len(),
{
    if p.len() == 0 {
        assert(!unknown(a, a.root));
        assert(same_object(a, b, a.root));
    } else {
        let up = p.drop_last();
        lemma_spotless_resolves(a, b, up);
        if let Some(dir) = a.resolve(up) {
            lemma_lookup(a, dir, p.last());
            lemma_lookup(b, dir, p.last());
            assert forall|k: Key| k.dir == dir implies a.names.contains_key(k) == b.names.contains_key(k) by {}
            match (a.lookup(dir, p.last()), b.lookup(dir, p.last())) {
                (Some(k), Some(l)) => {
                    assert(b.names.contains_key(k));
                    assert(alike(b, k.name, p.last()));
                    assert(k == l);
                    assert(!unknown(a, a.names[k]));
                    assert(same_object(a, b, a.names[k]));
                },
                (Some(k), None) => {
                    assert(b.names.contains_key(k));
                    assert(alike(b, k.name, p.last()));
                },
                (None, Some(l)) => {
                    assert(a.names.contains_key(l));
                    assert(alike(a, l.name, p.last()));
                },
                (None, None) => {},
            }
        }
    }
}

/// The way to a path is clear where it was.
proof fn lemma_spotless_way(a: Disk, b: Disk, p: PathView)
    requires
        a.well_formed(),
        b.well_formed(),
        spotless(a, b),
    ensures
        way_clear(b, p) == way_clear(a, p),
{
    assert forall|j: int| 0 < j < p.len() implies b.resolve(#[trigger] p.take(j)) == a.resolve(p.take(j)) && (a.resolve(
        p.take(j),
    ) matches Some(id) ==> b.objects[id] == a.objects[id]) by {
        lemma_spotless_resolves(a, b, p.take(j));
    }
}

/// A token is found where it was found.
proof fn lemma_spotless_sits(a: Disk, b: Disk, tok: TokenView, i: int)
    requires
        a.well_formed(),
        b.well_formed(),
        spotless(a, b),
        a.steady,
    ensures
        sits(b, tok, i) == sits(a, tok, i),
{
    let l = tok.locs[i];
    lemma_spotless_resolves(a, b, l.path);
    lemma_spotless_resolves(a, b, parent_of(l.path));
    assert forall|id: FileId| #[trigger] present(a, l, id) == present(b, l, id) by {}
    if sits(a, tok, i) {
        let id = choose|id: FileId| #[trigger]
            present(a, tok.locs[i], id) && a.shows(id) == tok.id && a.objects[id].kind() == tok.kind;
        assert(present(b, tok.locs[i], id));
    }
    if sits(b, tok, i) {
        let id = choose|id: FileId| #[trigger]
            present(b, tok.locs[i], id) && b.shows(id) == tok.id && b.objects[id].kind() == tok.kind;
        assert(present(a, tok.locs[i], id));
    }
}

/// Something unknown is at a location where it was.
proof fn lemma_spotless_intruder(a: Disk, b: Disk, p: PlanView, tok: TokenView, i: int)
    requires
        a.well_formed(),
        b.well_formed(),
        spotless(a, b),
        a.steady,
    ensures
        intruder(b, p, tok.locs[i]) == intruder(a, p, tok.locs[i]),
{
    let l = tok.locs[i];
    lemma_spotless_resolves(a, b, l.path);
    lemma_spotless_resolves(a, b, parent_of(l.path));
    assert forall|id: FileId| #[trigger] present(a, l, id) == present(b, l, id) by {}
    if intruder(a, p, l) {
        let id = choose|id: FileId| #[trigger] present(a, l, id) && !known(p, a.shows(id));
        assert(present(b, l, id));
    }
    if intruder(b, p, l) {
        let id = choose|id: FileId| #[trigger] present(b, l, id) && !known(p, b.shows(id));
        assert(present(a, l, id));
    }
}

proof fn lemma_spotless_hits(a: Disk, b: Disk, p: PlanView, tok: TokenView, n: int)
    requires
        a.well_formed(),
        b.well_formed(),
        spotless(a, b),
        a.steady,
    ensures
        hits(b, tok, n) == hits(a, tok, n),
        last_intruder(b, p, tok, n) == last_intruder(a, p, tok, n),
    decreases n,
{
    if n > 0 {
        lemma_spotless_hits(a, b, p, tok, n - 1);
        lemma_spotless_sits(a, b, tok, n - 1);
        lemma_spotless_intruder(a, b, p, tok, n - 1);
    }
}

/// Every token is where it was.
proof fn lemma_spotless_pos(a: Disk, b: Disk, p: PlanView, t: int)
    requires
        a.well_formed(),
        b.well_formed(),
        spotless(a, b),
        a.steady,
    ensures
        token_pos(b, p, t) == token_pos(a, p, t),
{
    lemma_spotless_hits(a, b, p, p.tokens[t], p.tokens[t].locs.len() as int);
    assert forall|u: int| 0 <= u < p.tokens.len() implies sits(b, #[trigger] p.tokens[u], 0) == sits(a, p.tokens[u], 0) by {
        lemma_spotless_sits(a, b, p.tokens[u], 0);
    }
    assert(at_start(b, p) == at_start(a, p)) by {
        if at_start(a, p) {
            assert forall|u: int| 0 <= u < p.tokens.len() implies (#[trigger] p.tokens[u]).locs.len() > 0 && sits(
                b,
                p.tokens[u],
                0,
            ) by {}
        }
        if at_start(b, p) {
            assert forall|u: int| 0 <= u < p.tokens.len() implies (#[trigger] p.tokens[u]).locs.len() > 0 && sits(
                a,
                p.tokens[u],
                0,
            ) by {}
        }
    }
}

/// The tokens are as clearly where they are as before.
proof fn lemma_spotless_cleared(a: Disk, b: Disk, tx: TxDir, p: PlanView, pos: Seq<Pos>)
    requires
        a.well_formed(),
        b.well_formed(),
        spotless(a, b),
        a.steady,
    ensures
        cleared(b, tx, p, pos) == cleared(a, tx, p, pos),
{
    assert forall|t: int| token_pos(b, p, t) == #[trigger] token_pos(a, p, t) by {
        lemma_spotless_pos(a, b, p, t);
    }
    lemma_spotless_resolves(a, b, tx.at().push(progress_name()));
    assert(log_of(b, tx) == log_of(a, tx));
    if cleared(a, tx, p, pos) {
        assert forall|t: int| 0 <= t < pos.len() implies token_pos(b, p, t) == Some(#[trigger] pos[t]) by {
            assert(token_pos(a, p, t) == Some(pos[t]));
        }
    }
    if cleared(b, tx, p, pos) {
        assert forall|t: int| 0 <= t < pos.len() implies token_pos(a, p, t) == Some(#[trigger] pos[t]) by {
            assert(token_pos(b, p, t) == Some(pos[t]));
        }
    }
}

/// What recovery decides is what it would have decided.
pub proof fn lemma_spotless_decided(a: Disk, b: Disk, tx: TxDir, x: Decision)
    requires
        a.well_formed(),
        b.well_formed(),
        spotless(a, b),
        a.steady,
    ensures
        decided(b, tx, x) == decided(a, tx, x),
{
    lemma_spotless_resolves(a, b, tx.at().push(Marker::Committed.file()));
    lemma_spotless_resolves(a, b, tx.at().push(Marker::RollingBack.file()));
    lemma_spotless_resolves(a, b, tx.at().push(Marker::RolledBack.file()));
    lemma_spotless_resolves(a, b, tx.at().push(journal_name()));
    lemma_spotless_resolves(a, b, tx.at().push(backup_name()));
    if let Some(dir) = a.dir_at(tx.at().push(backup_name())) {
        assert forall|k: Key| k.dir == dir implies a.names.contains_key(k) == #[trigger] b.names.contains_key(k) by {}
        assert(backup_used(b, tx) == backup_used(a, tx));
    }
}

/// A transaction is refused where it would have been, for the same reason.
pub proof fn lemma_spotless_refused(a: Disk, b: Disk, tx: TxDir, reason: Reason)
    requires
        a.well_formed(),
        b.well_formed(),
        spotless(a, b),
        a.steady,
    ensures
        refused_for(b, tx, reason) == refused_for(a, tx, reason),
{
    assert forall|x: Decision| #[trigger] decided(b, tx, x) == decided(a, tx, x) by {
        lemma_spotless_decided(a, b, tx, x);
    }
    assert forall|p: PlanView, pos: Seq<Pos>| #[trigger] cleared(b, tx, p, pos) == cleared(a, tx, p, pos) by {
        lemma_spotless_cleared(a, b, tx, p, pos);
    }
    if refused_for(a, tx, reason) && !decided(a, tx, Decision::Required(reason)) {
        let j = choose|j: Box<Journal>| #[trigger]
            decided(a, tx, Decision::RollBack(j)) && forall|pos: Seq<Pos>| !cleared(a, tx, j@.plan, pos);
        assert(decided(b, tx, Decision::RollBack(j)));
        assert forall|pos: Seq<Pos>| !cleared(b, tx, j@.plan, pos) by {
            assert(!cleared(a, tx, j@.plan, pos));
        }
        assert(refused_for(b, tx, reason));
    }
    if refused_for(b, tx, reason) && !decided(b, tx, Decision::Required(reason)) {
        let j = choose|j: Box<Journal>| #[trigger]
            decided(b, tx, Decision::RollBack(j)) && forall|pos: Seq<Pos>| !cleared(b, tx, j@.plan, pos);
        assert(decided(a, tx, Decision::RollBack(j)));
        assert forall|pos: Seq<Pos>| !cleared(a, tx, j@.plan, pos) by {
            assert(cleared(b, tx, j@.plan, pos) == cleared(a, tx, j@.plan, pos));
        }
        assert(refused_for(a, tx, reason));
    }
    assert(decided(b, tx, Decision::Required(reason)) == decided(a, tx, Decision::Required(reason)));
}

/// What could be looked at can be looked at.
pub proof fn lemma_spotless_examinable(a: Disk, b: Disk, tx: TxDir)
    requires
        a.well_formed(),
        b.well_formed(),
        spotless(a, b),
        a.steady,
        examinable(a, tx),
    ensures
        examinable(b, tx),
{
    lemma_spotless_way(a, b, tx.at().push(journal_name()));
    lemma_spotless_resolves(a, b, tx.at().push(journal_name()));
    lemma_spotless_resolves(a, b, tx.at().push(backup_name()));
    assert(legible(b, tx));
    lemma_spotless_way(a, b, tx.at().push(progress_name()));
    lemma_spotless_resolves(a, b, tx.at().push(progress_name()));
    assert forall|j: Box<Journal>| #[trigger] decided(b, tx, Decision::RollBack(j)) implies can_look(b, tx, j@.plan) by {
        lemma_spotless_decided(a, b, tx, Decision::RollBack(j));
        let p = j@.plan;
        assert(can_look(a, tx, p));
        assert forall|t: int| 0 <= t < p.tokens.len() implies #[trigger] reachable(b, p, t) by {
            assert(reachable(a, p, t));
            assert forall|i: int| 0 <= i < p.tokens[t].locs.len() implies way_clear(b, (#[trigger] p.tokens[t].locs[i]).path) by {
                lemma_spotless_way(a, b, p.tokens[t].locs[i].path);
            }
        }
    }
}

/// The entries of the private directory are those that there were.
pub proof fn lemma_spotless_entries(a: Disk, b: Disk, names: Seq<String>)
    requires
        a.well_formed(),
        b.well_formed(),
        spotless(a, b),
    ensures
        entries_to_recover(b, names) == entries_to_recover(a, names),
{
    lemma_spotless_resolves(a, b, private_root());
    if let Some(dir) = a.dir_at(private_root()) {
        assert forall|k: Key| k.dir == dir implies a.names.contains_key(k) == #[trigger] b.names.contains_key(k) by {}
    }
}

/// What is refused, and what can be looked at, among the entries is what was.
pub proof fn lemma_spotless_all(a: Disk, b: Disk, names: Seq<String>)
    requires
        a.well_formed(),
        b.well_formed(),
        spotless(a, b),
        a.steady,
    ensures
        all_examinable(a, names) ==> all_examinable(b, names),
        none_refused(b, names, names.len() as int) == none_refused(a, names, names.len() as int),
{
    assert forall|tx: TxDir| #[trigger] refused(b, tx) == refused(a, tx) by {
        assert forall|reason: Reason| #[trigger] refused_for(b, tx, reason) == refused_for(a, tx, reason) by {
            lemma_spotless_refused(a, b, tx, reason);
        }
        if refused(a, tx) {
            let reason = choose|reason: Reason| #[trigger] refused_for(a, tx, reason);
            assert(refused_for(b, tx, reason));
        }
        if refused(b, tx) {
            let reason = choose|reason: Reason| #[trigger] refused_for(b, tx, reason);
            assert(refused_for(a, tx, reason));
        }
    }
    if all_examinable(a, names) {
        assert forall|i: int| 0 <= i < names.len() && is_transaction(TxDir { name: #[trigger] names[i] }.id()) implies examinable(
            b,
            TxDir { name: names[i] },
        ) by {
            lemma_spotless_examinable(a, b, TxDir { name: names[i] });
        }
    }
}

/// Neither a transaction nor scratch space is there, as none was.
pub proof fn lemma_spotless_tidy(a: Disk, b: Disk)
    requires
        a.well_formed(),
        b.well_formed(),
        spotless(a, b),
        tidy(a),
    ensures
        tidy(b),
        quiet(b),
{
    lemma_spotless_resolves(a, b, private_root());
    let dir = a.dir_at(private_root())->0;
    assert forall|k: Key| k.dir == dir implies a.names.contains_key(k) == #[trigger] b.names.contains_key(k) by {
        lemma_spotless_resolves(a, b, private_root());
    }
}

/// No transaction is there, as none was.
pub proof fn lemma_spotless_quiet(a: Disk, b: Disk)
    requires
        a.well_formed(),
        b.well_formed(),
        spotless(a, b),
        quiet(a),
    ensures
        quiet(b),
{
    lemma_spotless_resolves(a, b, private_root());
    let dir = a.dir_at(private_root())->0;
    assert forall|k: Key| k.dir == dir implies a.names.contains_key(k) == #[trigger] b.names.contains_key(k) by {
        lemma_spotless_resolves(a, b, private_root());
    }
}

} // verus!
