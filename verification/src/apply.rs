//! Preparing and applying a plan.
//!
//! Everything a transaction needs is made durable before the tree is touched; then the waves
//! run forward, with a barrier after each.
use vstd::prelude::*;

use crate::bytes::{folded, Name};
use crate::disk::{Disk, FileId, Key, Kind, Object};
use crate::error::IoResult;
use crate::journal::{encode, Journal};
use crate::journal::{journal_in, journal_json, proper_plan, sealed, JournalView};
use crate::json::json_printed;
use crate::path::{private_path, PathView, RelPath};
use crate::plan::{LocView, Plan, PlanView, Step, TokenView};
use crate::progress::Record;
use crate::recover::{append_progress, barrier};
use crate::recover::{approachable, journal_bytes, logged, only_log_changed, parents_synced, some_synced, wave_ends};
use crate::state::{
    backup_name, journal_name, journal_tmp_name, private_dir, private_root, progress_name, staged_name, TxDir,
};
use crate::tree::{alike, alike_paths, goes_through, same_tree};
use crate::tree::{
    lemma_child_off_path, lemma_frame_create, lemma_frame_move, lemma_private_create, lemma_private_move,
    lemma_resolve_key, lemma_same_lookup, lemma_same_content, lemma_same_tree_transitive,
};
use crate::vfs::{created_at, dir_synced_at, file_synced_at, free_at, movable, moved_at, passes, same_volume, Vfs};

verus! {

/// The journal of `tx` is in place and says `j`.
pub open spec fn journaled(d: Disk, tx: TxDir, j: JournalView) -> bool {
    &&& d.file_at(tx.at().push(journal_name())) is Some
    &&& journal_in(journal_bytes(d, tx)) == Some(j)
}

/// What was moved within a directory is found under its new name.
pub proof fn lemma_moved_within(a: Disk, b: Disk, path: PathView, from: Name, to: Name)
    requires
        a.well_formed(),
        b.well_formed(),
        moved_at(a, b, path.push(from), None, path.push(to), None),
    ensures
        b.resolve(path.push(to)) == a.resolve(path.push(from)),
{
    let f = path.push(from);
    let t = path.push(to);
    assert(f.drop_last() =~= path && t.drop_last() =~= path);
    lemma_child_off_path(a, path, from);
    lemma_child_off_path(a, path, to);
    lemma_frame_move(a, b, f, None, t, None, path);
    let dir = a.dir_at(path)->0;
    assert(b.names.contains_key(Key { dir, name: to }));
}

/// What was created in a directory is found there.
pub proof fn lemma_created_is_found(a: Disk, b: Disk, p: PathView, id: FileId, object: Object)
    requires
        a.well_formed(),
        b.well_formed(),
        created_at(a, b, p, id, object),
    ensures
        b.resolve(p) == Some(id),
        b.objects[id] == object,
        b.objects.contains_key(id),
{
    let parent = p.drop_last();
    assert(p =~= parent.push(p.last()));
    lemma_child_off_path(a, parent, p.last());
    lemma_frame_create(a, b, p, id, object, parent);
    let dir = a.dir_at(parent)->0;
    assert(b.names.contains_key(Key { dir, name: p.last() }));
}

/// `b` is `a` with a new file at `p` that holds `data`.
pub open spec fn made_file(a: Disk, b: Disk, p: PathView, data: Seq<u8>) -> bool {
    exists|id: FileId, mode: u32| #[trigger] created_at(a, b, p, id, Object::File { data, mode })
}

/// The token's file has been made durable, if the token is a file that starts in the private
/// area.
pub open spec fn token_settled(a: Disk, b: Disk, t: TokenView) -> bool {
    if t.kind == Kind::File && private_path(t.locs[0].path) {
        file_synced_at(a, b, t.locs[0].path)
    } else {
        b == a
    }
}

/// So it has been done for the first `n` tokens.
pub open spec fn tokens_settled(a: Disk, b: Disk, p: PlanView, n: int) -> bool
    decreases n,
{
    if n <= 0 {
        b == a
    } else {
        exists|m: Disk| tokens_settled(a, m, p, n - 1) && #[trigger] token_settled(m, b, p.tokens[n - 1])
    }
}

/// One more token.
proof fn lemma_one_more_token(a: Disk, m: Disk, b: Disk, p: PlanView, n: int)
    requires
        0 <= n,
        tokens_settled(a, m, p, n),
        token_settled(m, b, p.tokens[n]),
    ensures
        tokens_settled(a, b, p, n + 1),
{
    reveal_with_fuel(tokens_settled, 2);
    assert(token_settled(m, b, p.tokens[(n + 1) - 1]));
}

/// The disk went from `a` to `b` through the states `x`: the files of the tokens were made
/// durable, and what is in the directories for staging and backup; an empty log was made and
/// made durable; and so were the names in the transaction's directory and above it.
pub open spec fn laid_out(x: Seq<Disk>, a: Disk, b: Disk, tx: TxDir, p: PlanView) -> bool {
    let log = tx.at().push(progress_name());
    &&& x.len() == 8
    &&& x[0] == a
    &&& tokens_settled(x[0], x[1], p, p.tokens.len() as int)
    &&& dir_synced_at(x[1], x[2], tx.at().push(staged_name()))
    &&& dir_synced_at(x[2], x[3], tx.at().push(backup_name()))
    &&& made_file(x[3], x[4], log, Seq::empty())
    &&& file_synced_at(x[4], x[5], log)
    &&& dir_synced_at(x[5], x[6], tx.at())
    &&& dir_synced_at(x[6], x[7], private_root())
    &&& x[7] == b
}

/// The disk went from `a` to `b` through the states `y`: a file with `data` was made and made
/// durable, then moved into the place of the journal, and that was made durable.
pub open spec fn written_out(y: Seq<Disk>, a: Disk, b: Disk, tx: TxDir, data: Seq<u8>) -> bool {
    let draft = tx.at().push(journal_tmp_name());
    &&& y.len() == 5
    &&& y[0] == a
    &&& made_file(y[0], y[1], draft, data)
    &&& file_synced_at(y[1], y[2], draft)
    &&& moved_at(y[2], y[3], draft, None, tx.at().push(journal_name()), None)
    &&& dir_synced_at(y[3], y[4], tx.at())
    &&& y[4] == b
}

/// The transaction was made ready, from `a` to `b`: everything that the journal names was made
/// durable first, and then the journal.
pub open spec fn readied(a: Disk, b: Disk, tx: TxDir, j: JournalView) -> bool {
    exists|m: Disk, x: Seq<Disk>, y: Seq<Disk>|
        #![trigger laid_out(x, a, m, tx, j.plan), written_out(y, m, b, tx, sealed(json_printed(journal_json(j))))]
        laid_out(x, a, m, tx, j.plan) && written_out(y, m, b, tx, sealed(json_printed(journal_json(j))))
}

/// Nothing stands in the way of making the transaction ready: the files of its tokens and its
/// directories are there, and the names for its log and its journal are free.
pub open spec fn can_prepare(d: Disk, tx: TxDir, p: PlanView) -> bool {
    &&& forall|t: int|
        0 <= t < p.tokens.len() && (#[trigger] p.tokens[t]).kind == Kind::File && private_path(p.tokens[t].locs[0].path)
            ==> d.file_at(p.tokens[t].locs[0].path) is Some
    &&& d.dir_at(tx.at().push(staged_name())) is Some
    &&& d.dir_at(tx.at().push(backup_name())) is Some
    &&& d.resolve(tx.at().push(progress_name())) is None
    &&& d.resolve(tx.at().push(journal_tmp_name())) is None
    &&& d.resolve(tx.at().push(journal_name())) is None
}

/// The log has been made, and nothing stands in the way of writing the journal.
spec fn can_write_out(d: Disk, tx: TxDir) -> bool {
    &&& d.dir_at(tx.at()) is Some
    &&& d.dir_at(private_root()) is Some
    &&& d.resolve(tx.at().push(journal_tmp_name())) is None
    &&& d.resolve(tx.at().push(journal_name())) is None
}

/// With the same names and objects, the same can be done.
proof fn lemma_same_prospects(a: Disk, b: Disk, tx: TxDir, p: PlanView)
    requires
        a.names == b.names,
        a.objects == b.objects,
        same_volume(a, b),
    ensures
        can_prepare(b, tx, p) == can_prepare(a, tx, p),
        can_write_out(b, tx) == can_write_out(a, tx),
        b.resolve(tx.at().push(progress_name())) == a.resolve(tx.at().push(progress_name())),
        b.resolve(tx.at().push(journal_tmp_name())) == a.resolve(tx.at().push(journal_tmp_name())),
        b.resolve(tx.at().push(journal_name())) == a.resolve(tx.at().push(journal_name())),
{
    lemma_same_content(a, b);
    assert(b.resolve(tx.at()) == a.resolve(tx.at()));
    assert(b.resolve(private_root()) == a.resolve(private_root()));
    assert(b.resolve(tx.at().push(staged_name())) == a.resolve(tx.at().push(staged_name())));
    assert(b.resolve(tx.at().push(backup_name())) == a.resolve(tx.at().push(backup_name())));
    assert(b.resolve(tx.at().push(progress_name())) == a.resolve(tx.at().push(progress_name())));
    assert(b.resolve(tx.at().push(journal_tmp_name())) == a.resolve(tx.at().push(journal_tmp_name())));
    assert(b.resolve(tx.at().push(journal_name())) == a.resolve(tx.at().push(journal_name())));
    assert forall|t: int| 0 <= t < p.tokens.len() implies b.file_at((#[trigger] p.tokens[t]).locs[0].path) == a.file_at(
        p.tokens[t].locs[0].path,
    ) by {
        assert(b.resolve(p.tokens[t].locs[0].path) == a.resolve(p.tokens[t].locs[0].path));
    }
}

/// Once the log has been made, the journal can be written.
proof fn lemma_log_made(a: Disk, b: Disk, tx: TxDir, p: PlanView, data: Seq<u8>)
    requires
        a.well_formed(),
        b.well_formed(),
        can_prepare(a, tx, p),
        made_file(a, b, tx.at().push(progress_name()), data),
    ensures
        can_write_out(b, tx),
{
    lemma_directories_above(a, tx, staged_name());
    lemma_made_beside(a, b, tx, progress_name(), data, journal_tmp_name());
    lemma_made_beside(a, b, tx, progress_name(), data, journal_name());
}

/// The names for the log and for the draft of the journal are free.
proof fn lemma_names_are_free(d: Disk, tx: TxDir, p: PlanView)
    ensures
        can_prepare(d, tx, p) ==> free_at(d, tx.at().push(progress_name())),
        can_write_out(d, tx) ==> free_at(d, tx.at().push(journal_tmp_name())),
{
    assert(tx.at().push(progress_name()).drop_last() =~= tx.at());
    assert(tx.at().push(journal_tmp_name()).drop_last() =~= tx.at());
    lemma_resolve_key(d, tx.at().push(progress_name()));
    lemma_resolve_key(d, tx.at().push(journal_tmp_name()));
    if can_prepare(d, tx, p) {
        lemma_directories_above(d, tx, staged_name());
    }
}

/// The draft of the journal, once made, can be moved into its place.
proof fn lemma_draft_made(a: Disk, b: Disk, tx: TxDir, data: Seq<u8>)
    requires
        a.well_formed(),
        b.well_formed(),
        can_write_out(a, tx),
        made_file(a, b, tx.at().push(journal_tmp_name()), data),
        b.file_at(tx.at().push(journal_tmp_name())) is Some,
    ensures
        b.dir_at(tx.at()) is Some,
        movable(b, tx.at().push(journal_tmp_name()), None, tx.at().push(journal_name()), None),
{
    lemma_made_beside(a, b, tx, journal_tmp_name(), data, journal_name());
    assert(tx.at().push(journal_tmp_name()).drop_last() =~= tx.at());
    assert(tx.at().push(journal_name()).drop_last() =~= tx.at());
    lemma_resolve_key(b, tx.at().push(journal_tmp_name()));
    lemma_resolve_key(b, tx.at().push(journal_name()));
}

/// With the same names and objects, the same can be moved.
proof fn lemma_same_movable(a: Disk, b: Disk, from: PathView, to: PathView)
    requires
        a.names == b.names,
        a.objects == b.objects,
        same_volume(a, b),
        movable(a, from, None, to, None),
    ensures
        movable(b, from, None, to, None),
{
    lemma_same_content(a, b);
    assert(b.resolve(from.drop_last()) == a.resolve(from.drop_last()));
    assert(b.resolve(to.drop_last()) == a.resolve(to.drop_last()));
    let dir = a.dir_at(to.drop_last())->0;
    lemma_same_lookup(a, b, a.dir_at(from.drop_last())->0, from.last());
    lemma_same_lookup(a, b, dir, to.last());
    let k = a.key_at(from)->0;
    if passes(b, to.drop_last(), b.names[k]) {
        let j = choose|j: int| 0 <= j <= to.drop_last().len() && #[trigger] b.resolve(to.drop_last().take(j)) == Some(b.names[k]);
        assert(a.resolve(to.drop_last().take(j)) == Some(a.names[k]));
    }
}

/// The directory that a name stands in, and the one above it, are there.
proof fn lemma_directories_above(d: Disk, tx: TxDir, name: Name)
    requires
        d.resolve(tx.at().push(name)) is Some,
    ensures
        d.dir_at(tx.at()) is Some,
        d.dir_at(private_root()) is Some,
{
    assert(tx.at().push(name).drop_last() =~= tx.at());
    assert(tx.at().drop_last() =~= private_root());
}

/// Names of different lengths are different places in a directory.
proof fn lemma_beside(d: Disk, path: PathView, m: Name, n: Name)
    requires
        m.len() != n.len(),
    ensures
        !goes_through(d, path.push(n), path.push(m)),
{
    let q = path.push(n);
    let f = path.push(m);
    if goes_through(d, q, f) {
        let j = choose|j: int| 0 < j <= q.len() && alike_paths(d, f, #[trigger] q.take(j));
        assert(q.take(j) =~= q);
        assert(alike(d, f[path.len() as int], q[path.len() as int]));
        assert(folded(m).len() == m.len() && folded(n).len() == n.len());
    }
}

/// Making a file in the transaction's directory leaves that directory and other names in it as
/// they were.
proof fn lemma_made_beside(a: Disk, b: Disk, tx: TxDir, m: Name, data: Seq<u8>, n: Name)
    requires
        a.well_formed(),
        b.well_formed(),
        made_file(a, b, tx.at().push(m), data),
        m.len() != n.len(),
    ensures
        b.resolve(tx.at().push(n)) == a.resolve(tx.at().push(n)),
        b.dir_at(tx.at()) == a.dir_at(tx.at()),
        b.dir_at(private_root()) == a.dir_at(private_root()),
{
    let p = tx.at().push(m);
    let (id, mode) = choose|id: FileId, mode: u32| #[trigger] created_at(a, b, p, id, Object::File { data, mode });
    let object = Object::File { data, mode };
    lemma_beside(a, tx.at(), m, n);
    lemma_child_off_path(a, tx.at(), m);
    lemma_frame_create(a, b, p, id, object, tx.at().push(n));
    lemma_frame_create(a, b, p, id, object, tx.at());
    if goes_through(a, private_root(), p) {
        let j = choose|j: int| 0 < j <= private_root().len() && alike_paths(a, p, #[trigger] private_root().take(j));
    }
    lemma_frame_create(a, b, p, id, object, private_root());
}

/// Creating a private file leaves the visible tree as it was.
fn make_file<V: Vfs>(vfs: &mut V, p: &RelPath, data: &[u8]) -> (r: IoResult<()>)
    requires
        old(vfs).valid(),
        private_path(p@),
    ensures
        final(vfs).valid(),
        same_volume(old(vfs).disk(), final(vfs).disk()),
        same_tree(old(vfs).disk(), final(vfs).disk()),
        r is Ok ==> (final(vfs).disk().file_at(p@) matches Some(id) && final(vfs).disk().objects[id]->data == data@),
        r is Ok ==> made_file(old(vfs).disk(), final(vfs).disk(), p@, data@),
        old(vfs).serves() && old(vfs).room() > 0 && free_at(old(vfs).disk(), p@) ==> r is Ok,
        old(vfs).serves() ==> final(vfs).serves() && final(vfs).room() + 1 >= old(vfs).room(),
{
    let ghost a = vfs.disk();
    proof {
        vfs.lemma_valid();
        lemma_same_content(a, a);
    }
    let r = vfs.create_file(p, data, None);
    let ghost b = vfs.disk();
    proof {
        vfs.lemma_valid();
    }
    match r {
        Ok(m) => {
            proof {
                let object = Object::File { data: data@, mode: m.mode };
                let id = choose|id: FileId| #[trigger] created_at(a, b, p@, id, object) && m.id == b.shows(id);
                lemma_private_create(a, b, p@, id, object);
                lemma_created_is_found(a, b, p@, id, object);
            }
            Ok(())
        },
        Err(e) => {
            proof {
                if b != a {
                    let (id, object) = choose|id: FileId, object: Object| #[trigger] created_at(a, b, p@, id, object);
                    lemma_private_create(a, b, p@, id, object);
                }
            }
            Err(e)
        },
    }
}

/// Syncing a file leaves names and objects as they were.
fn settle_file<V: Vfs>(vfs: &mut V, p: &RelPath) -> (r: IoResult<()>)
    requires
        old(vfs).valid(),
    ensures
        final(vfs).valid(),
        same_volume(old(vfs).disk(), final(vfs).disk()),
        same_tree(old(vfs).disk(), final(vfs).disk()),
        final(vfs).disk().names == old(vfs).disk().names,
        final(vfs).disk().objects == old(vfs).disk().objects,
        r is Ok ==> file_synced_at(old(vfs).disk(), final(vfs).disk(), p@),
        old(vfs).serves() && old(vfs).disk().file_at(p@) is Some ==> r is Ok,
        old(vfs).serves() ==> final(vfs).serves() && final(vfs).room() >= old(vfs).room(),
{
    let ghost a = vfs.disk();
    let r = vfs.sync_file(p);
    proof {
        lemma_same_content(a, vfs.disk());
    }
    r
}

/// Syncing a directory leaves names and objects as they were.
fn settle_dir<V: Vfs>(vfs: &mut V, p: &RelPath) -> (r: IoResult<()>)
    requires
        old(vfs).valid(),
    ensures
        final(vfs).valid(),
        same_volume(old(vfs).disk(), final(vfs).disk()),
        same_tree(old(vfs).disk(), final(vfs).disk()),
        final(vfs).disk().names == old(vfs).disk().names,
        final(vfs).disk().objects == old(vfs).disk().objects,
        r is Ok ==> dir_synced_at(old(vfs).disk(), final(vfs).disk(), p@),
        old(vfs).serves() && old(vfs).disk().dir_at(p@) is Some ==> r is Ok,
        old(vfs).serves() ==> final(vfs).serves() && final(vfs).room() >= old(vfs).room(),
{
    let ghost a = vfs.disk();
    let r = vfs.sync_dir(p);
    proof {
        lemma_same_content(a, vfs.disk());
    }
    r
}

/// Makes every token and the journal durable before the first tree mutation.
#[verifier::rlimit(60)]
pub fn prepare<V: Vfs>(vfs: &mut V, tx: &TxDir, j: &Journal) -> (r: IoResult<()>)
    requires
        old(vfs).valid(),
        j@.plan.has_locations(),
        proper_plan(j@.plan),
    ensures
        final(vfs).valid(),
        same_volume(old(vfs).disk(), final(vfs).disk()),
        same_tree(old(vfs).disk(), final(vfs).disk()),
        r is Ok ==> journaled(final(vfs).disk(), *tx, j@),
        r is Ok ==> readied(old(vfs).disk(), final(vfs).disk(), *tx, j@),
        old(vfs).serves() && old(vfs).room() >= 2 && can_prepare(old(vfs).disk(), *tx, j@.plan) ==> r is Ok,
        old(vfs).serves() ==> final(vfs).serves() && final(vfs).room() + 2 >= old(vfs).room(),
{
    let ghost a = vfs.disk();
    let ghost sure = vfs.serves() && vfs.room() >= 2 && can_prepare(a, *tx, j@.plan);
    let ghost p = j@.plan;
    let plan = &j.plan;
    proof {
        lemma_same_content(a, a);
    }
    let n = plan.tokens.len();
    let mut t: usize = 0;
    while t < n
        invariant
            t <= n,
            n == plan.tokens@.len(),
            p == plan@,
            p.has_locations(),
            vfs.valid(),
            a == old(vfs).disk(),
            same_volume(a, vfs.disk()),
            same_tree(a, vfs.disk()),
            tokens_settled(a, vfs.disk(), p, t as int),
            old(vfs).serves() ==> vfs.serves() && vfs.room() >= old(vfs).room(),
            p == j@.plan,
            sure == (old(vfs).serves() && old(vfs).room() >= 2 && can_prepare(a, *tx, p)),
            vfs.disk().names == a.names,
            vfs.disk().objects == a.objects,
        decreases n - t,
    {
        let tok = &plan.tokens[t];
        assert(p.tokens[t as int] == tok@);
        assert(p.tokens[t as int].locs.len() == tok.locs@.len());
        let ghost m = vfs.disk();
        assert(p.tokens[t as int].locs[0] == tok.locs@[0]@);
        proof {
            lemma_same_prospects(a, m, *tx, p);
        }
        if tok.kind == Kind::File && tok.locs[0].path.is_private() {
            let r = settle_file(vfs, &tok.locs[0].path);
            proof {
                lemma_same_tree_transitive(a, m, vfs.disk());
            }
            match r {
                Ok(_) => {},
                Err(e) => return Err(e),
            }
        }
        assert(token_settled(m, vfs.disk(), p.tokens[t as int]));
        proof {
            lemma_one_more_token(a, m, vfs.disk(), p, t as int);
        }
        t = t + 1;
    }
    let ghost m = vfs.disk();
    let ghost mut x = seq![a, m];
    proof {
        lemma_same_prospects(a, m, *tx, p);
    }
    let r = settle_dir(vfs, &tx.staged());
    proof {
        lemma_same_prospects(m, vfs.disk(), *tx, p);
        lemma_same_tree_transitive(a, m, vfs.disk());
        x = x.push(vfs.disk());
    }
    match r {
        Ok(_) => {},
        Err(e) => return Err(e),
    }
    let ghost m = vfs.disk();
    let r = settle_dir(vfs, &tx.backup());
    proof {
        lemma_same_prospects(m, vfs.disk(), *tx, p);
        lemma_same_tree_transitive(a, m, vfs.disk());
        x = x.push(vfs.disk());
    }
    match r {
        Ok(_) => {},
        Err(e) => return Err(e),
    }
    let ghost m = vfs.disk();
    let empty: Vec<u8> = Vec::new();
    proof {
        vfs.lemma_valid();
        lemma_names_are_free(m, *tx, p);
    }
    let r = make_file(vfs, &tx.progress(), &empty);
    proof {
        vfs.lemma_valid();
        lemma_same_tree_transitive(a, m, vfs.disk());
        x = x.push(vfs.disk());
    }
    match r {
        Ok(_) => {},
        Err(e) => return Err(e),
    }
    proof {
        if sure {
            lemma_log_made(m, vfs.disk(), *tx, p, empty@);
        }
    }
    let ghost m = vfs.disk();
    let r = settle_file(vfs, &tx.progress());
    proof {
        lemma_same_prospects(m, vfs.disk(), *tx, p);
        lemma_same_tree_transitive(a, m, vfs.disk());
        x = x.push(vfs.disk());
    }
    match r {
        Ok(_) => {},
        Err(e) => return Err(e),
    }
    // Everything the journal refers to (the transaction directory itself, staged, backup,
    // progress) must be durable before the journal can be: unsynced entries of one directory
    // persist independently of each other.
    let ghost m = vfs.disk();
    let r = settle_dir(vfs, &tx.dir());
    proof {
        lemma_same_prospects(m, vfs.disk(), *tx, p);
        lemma_same_tree_transitive(a, m, vfs.disk());
        x = x.push(vfs.disk());
    }
    match r {
        Ok(_) => {},
        Err(e) => return Err(e),
    }
    let ghost m = vfs.disk();
    let r = settle_dir(vfs, &private_dir());
    proof {
        lemma_same_prospects(m, vfs.disk(), *tx, p);
        lemma_same_tree_transitive(a, m, vfs.disk());
        x = x.push(vfs.disk());
    }
    match r {
        Ok(_) => {},
        Err(e) => return Err(e),
    }
    let ghost m = vfs.disk();
    assert(laid_out(x, a, m, *tx, p));
    let bytes = encode(j);
    let draft = tx.journal_tmp();
    let place = tx.journal();
    proof {
        vfs.lemma_valid();
        lemma_names_are_free(m, *tx, p);
    }
    let r = make_file(vfs, &draft, &bytes);
    let ghost b = vfs.disk();
    proof {
        vfs.lemma_valid();
        lemma_same_tree_transitive(a, m, b);
    }
    match r {
        Ok(_) => {},
        Err(e) => return Err(e),
    }
    proof {
        if sure {
            lemma_draft_made(m, b, *tx, bytes@);
        }
    }
    let r = settle_file(vfs, &draft);
    let ghost c = vfs.disk();
    proof {
        lemma_same_tree_transitive(a, b, c);
        vfs.lemma_valid();
        lemma_same_prospects(b, c, *tx, p);
        if sure {
            lemma_same_movable(b, c, draft@, place@);
        }
    }
    match r {
        Ok(_) => {},
        Err(e) => return Err(e),
    }
    let r = vfs.rename_noreplace(&draft, None, &place, None);
    let ghost d = vfs.disk();
    match r {
        Ok(_) => {
            proof {
                vfs.lemma_valid();
                lemma_private_move(c, d, draft@, None, place@, None);
                lemma_same_tree_transitive(a, c, d);
                lemma_moved_within(c, d, tx.at(), journal_tmp_name(), journal_name());
                lemma_child_off_path(c, tx.at(), journal_tmp_name());
                lemma_child_off_path(c, tx.at(), journal_name());
                lemma_frame_move(c, d, draft@, None, place@, None, tx.at());
                assert(place@.drop_last() =~= tx.at());
            }
        },
        Err(e) => return Err(e),
    }
    let r = settle_dir(vfs, &tx.dir());
    proof {
        lemma_same_tree_transitive(a, d, vfs.disk());
        lemma_same_prospects(d, vfs.disk(), *tx, p);
        if r is Ok {
            let y = seq![m, b, c, d, vfs.disk()];
            assert(written_out(y, m, vfs.disk(), *tx, bytes@));
        }
    }
    r
}

/// Step `s` has been taken: its token moved forward.
pub open spec fn step_taken(a: Disk, b: Disk, p: PlanView, s: Step) -> bool {
    moved_at(a, b, p.src(s).path, Some(p.src(s).parent), p.dst(s).path, Some(p.dst(s).parent))
}

/// The first `n` steps of the wave have been taken.
pub open spec fn steps_taken(a: Disk, b: Disk, p: PlanView, wave: Seq<Step>, n: int) -> bool
    decreases n,
{
    if n <= 0 {
        b == a
    } else {
        exists|m: Disk| steps_taken(a, m, p, wave, n - 1) && #[trigger] step_taken(m, b, p, wave[n - 1])
    }
}

/// One more step.
pub proof fn lemma_one_more_step(a: Disk, m: Disk, b: Disk, p: PlanView, wave: Seq<Step>, n: int)
    requires
        0 <= n,
        steps_taken(a, m, p, wave, n),
        step_taken(m, b, p, wave[n]),
    ensures
        steps_taken(a, b, p, wave, n + 1),
{
    reveal_with_fuel(steps_taken, 2);
    assert(step_taken(m, b, p, wave[(n + 1) - 1]));
}

/// All steps of wave `w` have been taken and made durable.
pub open spec fn wave_settled(a: Disk, b: Disk, p: PlanView, w: int) -> bool {
    exists|m: Disk| #[trigger]
        steps_taken(a, m, p, p.waves[w], p.waves[w].len() as int) && parents_synced(m, b, wave_ends(p, p.waves[w]))
}

/// Wave `w` has been applied: its steps taken, made durable, and logged.
pub open spec fn wave_applied(a: Disk, b: Disk, tx: TxDir, p: PlanView, w: int) -> bool {
    exists|m: Disk| #[trigger] wave_settled(a, m, p, w) && logged(m, b, tx, Record::ApplyDone(w as u32))
}

/// The first `w` waves have been applied.
pub open spec fn waves_applied(a: Disk, b: Disk, tx: TxDir, p: PlanView, w: int) -> bool
    decreases w,
{
    if w <= 0 {
        b == a
    } else {
        exists|m: Disk| waves_applied(a, m, tx, p, w - 1) && #[trigger] wave_applied(m, b, tx, p, w - 1)
    }
}

/// One more wave.
pub proof fn lemma_one_more_wave(a: Disk, m: Disk, b: Disk, tx: TxDir, p: PlanView, w: int)
    requires
        0 <= w,
        waves_applied(a, m, tx, p, w),
        wave_applied(m, b, tx, p, w),
    ensures
        waves_applied(a, b, tx, p, w + 1),
{
    reveal_with_fuel(waves_applied, 2);
    assert(wave_applied(m, b, tx, p, (w + 1) - 1));
}

/// Within wave `w`, that starts at `a`: some of its steps have been taken; or all of them, and
/// some directories have been synced; or it is durable, and something has been written to
/// the log.
pub open spec fn within_wave(a: Disk, b: Disk, tx: TxDir, p: PlanView, w: int) -> bool {
    let wave = p.waves[w];
    ||| exists|n: int| 0 <= n <= wave.len() && #[trigger] steps_taken(a, b, p, wave, n)
    ||| exists|m: Disk| #[trigger] steps_taken(a, m, p, wave, wave.len() as int) && some_synced(m, b)
    ||| exists|m: Disk| #[trigger] wave_settled(a, m, p, w) && only_log_changed(m, b, tx.at().push(progress_name()))
}

/// Applying has begun at `a` and stopped at `b`, within wave `w`.
pub open spec fn stopped_in(a: Disk, b: Disk, tx: TxDir, p: PlanView, w: int) -> bool {
    exists|m: Disk| #[trigger] waves_applied(a, m, tx, p, w) && within_wave(m, b, tx, p, w)
}

/// Applying has begun at `a` and stopped at `b`.
pub open spec fn applying(a: Disk, b: Disk, tx: TxDir, p: PlanView) -> bool {
    exists|w: int| 0 <= w < p.waves.len() && #[trigger] stopped_in(a, b, tx, p, w)
}

/// Nothing stands in the way of applying wave `w`: however far that has got, the next step can be
/// taken; and afterwards the directories can be synced, and the log is there.
pub open spec fn wave_ready(a: Disk, tx: TxDir, p: PlanView, w: int) -> bool {
    let wave = p.waves[w];
    &&& forall|b: Disk, n: int|
        0 <= n < wave.len() && #[trigger] steps_taken(a, b, p, wave, n) ==> movable(
            b,
            p.src(wave[n]).path,
            Some(p.src(wave[n]).parent),
            p.dst(wave[n]).path,
            Some(p.dst(wave[n]).parent),
        )
    &&& forall|b: Disk, l: LocView|
        #![trigger steps_taken(a, b, p, wave, wave.len() as int), approachable(b, l)]
        steps_taken(a, b, p, wave, wave.len() as int) && wave_ends(p, wave).contains(l) ==> approachable(b, l)
    &&& forall|b: Disk| #[trigger] wave_settled(a, b, p, w) ==> b.file_at(tx.at().push(progress_name())) is Some
}

/// Nothing stands in the way of applying the waves: however many have been applied, the next one
/// can be.
pub open spec fn waves_ready(a: Disk, tx: TxDir, p: PlanView) -> bool {
    forall|b: Disk, w: int|
        0 <= w < p.waves.len() && #[trigger] waves_applied(a, b, tx, p, w) ==> wave_ready(b, tx, p, w)
}

/// Runs the waves forward with a barrier after each.
pub fn apply<V: Vfs>(vfs: &mut V, tx: &TxDir, plan: &Plan) -> (r: IoResult<()>)
    requires
        old(vfs).valid(),
        plan@.steps_in_range(),
    ensures
        final(vfs).valid(),
        same_volume(old(vfs).disk(), final(vfs).disk()),
        r is Ok ==> waves_applied(old(vfs).disk(), final(vfs).disk(), *tx, plan@, plan@.waves.len() as int),
        r is Err ==> applying(old(vfs).disk(), final(vfs).disk(), *tx, plan@),
        old(vfs).serves() && waves_ready(old(vfs).disk(), *tx, plan@) ==> r is Ok,
        old(vfs).serves() ==> final(vfs).serves() && final(vfs).room() >= old(vfs).room(),
{
    let ghost a = vfs.disk();
    let ghost p = plan@;
    let n = plan.waves.len();
    let mut w: usize = 0;
    while w < n
        invariant
            w <= n,
            n == p.waves.len(),
            p == plan@,
            p.steps_in_range(),
            vfs.valid(),
            a == old(vfs).disk(),
            same_volume(a, vfs.disk()),
            waves_applied(a, vfs.disk(), *tx, p, w as int),
            old(vfs).serves() ==> vfs.serves() && vfs.room() >= old(vfs).room(),
        decreases n - w,
    {
        let ghost start = vfs.disk();
        let wave = &plan.waves[w];
        assert(p.waves[w as int] == wave@);
        let k = wave.len();
        let mut i: usize = 0;
        while i < k
            invariant
                i <= k,
                w < n,
                n == p.waves.len(),
                k == wave@.len(),
                p == plan@,
                p.waves[w as int] == wave@,
                p.steps_in_range(),
                vfs.valid(),
                a == old(vfs).disk(),
                same_volume(a, vfs.disk()),
                waves_applied(a, start, *tx, p, w as int),
                steps_taken(start, vfs.disk(), p, wave@, i as int),
                old(vfs).serves() ==> vfs.serves() && vfs.room() >= old(vfs).room(),
            decreases k - i,
        {
            let s = wave[i];
            assert(p.has(w as int, i as int) && p.waves[w as int][i as int] == s);
            let src = plan.src(s);
            let dst = plan.dst(s);
            let ghost m = vfs.disk();
            assert(p.src(s) == src@ && p.dst(s) == dst@);
            match vfs.rename_noreplace(&src.path, Some(src.parent), &dst.path, Some(dst.parent)) {
                Ok(_) => {},
                Err(e) => {
                    proof {
                        assert(within_wave(start, vfs.disk(), *tx, p, w as int));
                        assert(stopped_in(a, vfs.disk(), *tx, p, w as int));
                    }
                    return Err(e);
                },
            }
            assert(step_taken(m, vfs.disk(), p, wave@[i as int]));
            proof {
                lemma_one_more_step(start, m, vfs.disk(), p, wave@, i as int);
            }
            i = i + 1;
        }
        let ghost m = vfs.disk();
        match barrier(vfs, plan, w) {
            Ok(_) => {},
            Err(e) => {
                proof {
                    assert(within_wave(start, vfs.disk(), *tx, p, w as int));
                    assert(stopped_in(a, vfs.disk(), *tx, p, w as int));
                }
                return Err(e);
            },
        }
        let ghost s = vfs.disk();
        assert(wave_settled(start, s, p, w as int));
        match append_progress(vfs, tx, Record::ApplyDone(w as u32)) {
            Ok(_) => {},
            Err(e) => {
                proof {
                    assert(within_wave(start, vfs.disk(), *tx, p, w as int));
                    assert(stopped_in(a, vfs.disk(), *tx, p, w as int));
                }
                return Err(e);
            },
        }
        assert(wave_applied(start, vfs.disk(), *tx, p, w as int));
        proof {
            lemma_one_more_wave(a, start, vfs.disk(), *tx, p, w as int);
        }
        w = w + 1;
    }
    Ok(())
}

} // verus!
