//! Layout of the private area and the durable markers.
//!
//! ```text
//! <root>/.fstx/lock                 advisory lock
//! <root>/.fstx/tx-<id>/             one transaction
//!     staged/b<n>, staged/d<n>      new files / new directories (tokens)
//!     backup/<k>                    detached base entries (tokens)
//!     journal (via journal.tmp)     the plan, published by atomic rename
//!     progress                      APPLY/UNDO wave records (lower bound only)
//!     COMMITTED | ROLLING_BACK | ROLLED_BACK   markers (exclusive create + dir sync)
//! <root>/.fstx/gc-tx-<id>/          settled transaction being deleted
//! <root>/.fstx/probe-*/             capability probe scratch space
//! ```
use vstd::prelude::*;
use vstd::utf8::encode_utf8;

use crate::bytes::{folded, Name};
use crate::disk::{Disk, FileId, Key, Object};
use crate::error::{IoErrorKind, IoResult};
use crate::path::{private_dir_name, private_name, private_path, views, PathView, RelPath};
use crate::text::string_bytes;
use crate::tree::{alike, alike_paths, goes_through, pruned_below, same_tree};
use crate::tree::{
    lemma_child_off_path, lemma_frame_create, lemma_frame_move, lemma_lookup, lemma_private_create, lemma_private_move,
    lemma_private_remove, lemma_pruned_above, lemma_pruned_further, lemma_resolve_key, lemma_same_content,
    lemma_same_tree_transitive, lemma_way_to,
};
use crate::vfs::{created_at, dir_synced_at, free_at, movable, moved_at, passes, removed_at, same_volume, way_clear};
use crate::vfs::{Kind, Vfs};

verus! {

/// `staged`.
pub open spec fn staged_name() -> Name {
    seq![115u8, 116u8, 97u8, 103u8, 101u8, 100u8]
}

/// `staged`.
pub fn staged_bytes() -> (r: Vec<u8>)
    ensures
        r@ == staged_name(),
{
    let r: Vec<u8> = vec![115, 116, 97, 103, 101, 100];
    assert(r@ =~= staged_name());
    r
}

/// `backup`.
pub open spec fn backup_name() -> Name {
    seq![98u8, 97u8, 99u8, 107u8, 117u8, 112u8]
}

/// `backup`.
pub fn backup_bytes() -> (r: Vec<u8>)
    ensures
        r@ == backup_name(),
{
    let r: Vec<u8> = vec![98, 97, 99, 107, 117, 112];
    assert(r@ =~= backup_name());
    r
}

/// `journal`.
pub open spec fn journal_name() -> Name {
    seq![106u8, 111u8, 117u8, 114u8, 110u8, 97u8, 108u8]
}

/// `journal`.
fn journal_bytes() -> (r: Vec<u8>)
    ensures
        r@ == journal_name(),
{
    let r: Vec<u8> = vec![106, 111, 117, 114, 110, 97, 108];
    assert(r@ =~= journal_name());
    r
}

/// `journal.tmp`.
pub open spec fn journal_tmp_name() -> Name {
    seq![106u8, 111u8, 117u8, 114u8, 110u8, 97u8, 108u8, 46u8, 116u8, 109u8, 112u8]
}

/// `journal.tmp`.
fn journal_tmp_bytes() -> (r: Vec<u8>)
    ensures
        r@ == journal_tmp_name(),
{
    let r: Vec<u8> = vec![106, 111, 117, 114, 110, 97, 108, 46, 116, 109, 112];
    assert(r@ =~= journal_tmp_name());
    r
}

/// `progress`.
pub open spec fn progress_name() -> Name {
    seq![112u8, 114u8, 111u8, 103u8, 114u8, 101u8, 115u8, 115u8]
}

/// `progress`.
fn progress_bytes() -> (r: Vec<u8>)
    ensures
        r@ == progress_name(),
{
    let r: Vec<u8> = vec![112, 114, 111, 103, 114, 101, 115, 115];
    assert(r@ =~= progress_name());
    r
}

/// `COMMITTED`.
pub open spec fn committed_name() -> Name {
    seq![67u8, 79u8, 77u8, 77u8, 73u8, 84u8, 84u8, 69u8, 68u8]
}

/// `COMMITTED`.
fn committed_bytes() -> (r: Vec<u8>)
    ensures
        r@ == committed_name(),
{
    let r: Vec<u8> = vec![67, 79, 77, 77, 73, 84, 84, 69, 68];
    assert(r@ =~= committed_name());
    r
}

/// `ROLLING_BACK`.
pub open spec fn rolling_back_name() -> Name {
    seq![82u8, 79u8, 76u8, 76u8, 73u8, 78u8, 71u8, 95u8, 66u8, 65u8, 67u8, 75u8]
}

/// `ROLLING_BACK`.
fn rolling_back_bytes() -> (r: Vec<u8>)
    ensures
        r@ == rolling_back_name(),
{
    let r: Vec<u8> = vec![82, 79, 76, 76, 73, 78, 71, 95, 66, 65, 67, 75];
    assert(r@ =~= rolling_back_name());
    r
}

/// `ROLLED_BACK`.
pub open spec fn rolled_back_name() -> Name {
    seq![82u8, 79u8, 76u8, 76u8, 69u8, 68u8, 95u8, 66u8, 65u8, 67u8, 75u8]
}

/// `ROLLED_BACK`.
fn rolled_back_bytes() -> (r: Vec<u8>)
    ensures
        r@ == rolled_back_name(),
{
    let r: Vec<u8> = vec![82, 79, 76, 76, 69, 68, 95, 66, 65, 67, 75];
    assert(r@ =~= rolled_back_name());
    r
}

/// `tx-`.
pub open spec fn tx_prefix_name() -> Name {
    seq![116u8, 120u8, 45u8]
}

/// `tx-`.
pub fn tx_prefix_bytes() -> (r: Vec<u8>)
    ensures
        r@ == tx_prefix_name(),
{
    let r: Vec<u8> = vec![116, 120, 45];
    assert(r@ =~= tx_prefix_name());
    r
}

/// `gc-`.
pub open spec fn gc_prefix_name() -> Name {
    seq![103u8, 99u8, 45u8]
}

/// `gc-`.
pub fn gc_prefix_bytes() -> (r: Vec<u8>)
    ensures
        r@ == gc_prefix_name(),
{
    let r: Vec<u8> = vec![103, 99, 45];
    assert(r@ =~= gc_prefix_name());
    r
}

/// `probe-`.
pub open spec fn probe_prefix_name() -> Name {
    seq![112u8, 114u8, 111u8, 98u8, 101u8, 45u8]
}

/// `probe-`.
pub fn probe_prefix_bytes() -> (r: Vec<u8>)
    ensures
        r@ == probe_prefix_name(),
{
    let r: Vec<u8> = vec![112, 114, 111, 98, 101, 45];
    assert(r@ =~= probe_prefix_name());
    r
}

/// The path of the private directory.
pub open spec fn private_root() -> PathView {
    seq![private_name()]
}

/// The path of the private directory.
pub fn private_dir() -> (r: RelPath)
    ensures
        r@ == private_root(),
        private_path(r@),
{
    let r = RelPath::root().join(private_dir_name());
    assert(r@ =~= private_root());
    proof {
        lemma_private_name();
    }
    r
}

/// `.fstx` is private.
pub proof fn lemma_private_name()
    ensures
        folded(private_name()) == private_name(),
{
    assert(folded(private_name()) =~= private_name());
}

/// A durable decision about a transaction.
#[derive(Clone, Copy, Debug, PartialEq, Eq, Structural)]
pub enum Marker {
    Committed,
    RollingBack,
    RolledBack,
}

impl Marker {
    /// The name of the marker's file.
    pub open spec fn file(self) -> Name {
        match self {
            Marker::Committed => committed_name(),
            Marker::RollingBack => rolling_back_name(),
            Marker::RolledBack => rolled_back_name(),
        }
    }

    /// The name of the marker's file.
    pub fn name(self) -> (r: Vec<u8>)
        ensures
            r@ == self.file(),
    {
        match self {
            Marker::Committed => committed_bytes(),
            Marker::RollingBack => rolling_back_bytes(),
            Marker::RolledBack => rolled_back_bytes(),
        }
    }
}

/// Paths of one transaction directory.
#[derive(Debug)]
pub struct TxDir {
    pub name: String,
}

/// The directory of the transaction `name` inside the private area.
pub open spec fn tx_path(name: Name) -> PathView {
    private_root().push(name)
}

impl TxDir {
    /// The transaction's name as bytes.
    pub open spec fn id(self) -> Name {
        encode_utf8(self.name@)
    }

    /// The transaction's directory.
    pub open spec fn at(self) -> PathView {
        tx_path(self.id())
    }

    /// The transaction's directory.
    pub fn dir(&self) -> (r: RelPath)
        ensures
            r@ == self.at(),
            private_path(r@),
    {
        proof {
            lemma_private_name();
        }
        private_dir().join(string_bytes(self.name.as_str()))
    }

    /// `staged` in the transaction's directory.
    pub fn staged(&self) -> (r: RelPath)
        ensures
            r@ == self.at().push(staged_name()),
            private_path(r@),
    {
        proof {
            lemma_private_name();
        }
        self.dir().join(staged_bytes())
    }

    /// `backup` in the transaction's directory.
    pub fn backup(&self) -> (r: RelPath)
        ensures
            r@ == self.at().push(backup_name()),
            private_path(r@),
    {
        proof {
            lemma_private_name();
        }
        self.dir().join(backup_bytes())
    }

    /// `journal` in the transaction's directory.
    pub fn journal(&self) -> (r: RelPath)
        ensures
            r@ == self.at().push(journal_name()),
            private_path(r@),
    {
        proof {
            lemma_private_name();
        }
        self.dir().join(journal_bytes())
    }

    /// `journal.tmp` in the transaction's directory.
    pub fn journal_tmp(&self) -> (r: RelPath)
        ensures
            r@ == self.at().push(journal_tmp_name()),
            private_path(r@),
    {
        proof {
            lemma_private_name();
        }
        self.dir().join(journal_tmp_bytes())
    }

    /// `progress` in the transaction's directory.
    pub fn progress(&self) -> (r: RelPath)
        ensures
            r@ == self.at().push(progress_name()),
            private_path(r@),
    {
        proof {
            lemma_private_name();
        }
        self.dir().join(progress_bytes())
    }

    /// The path of a marker.
    pub fn marker(&self, m: Marker) -> (r: RelPath)
        ensures
            r@ == self.at().push(m.file()),
            private_path(r@),
    {
        proof {
            lemma_private_name();
        }
        self.dir().join(m.name())
    }
}

/// The disk after a marker of `tx` has been set: created unless it was there, and durable.
pub open spec fn marked(a: Disk, b: Disk, tx: TxDir, m: Marker) -> bool {
    exists|mid: Disk| #[trigger]
        dir_synced_at(mid, b, tx.at()) && (mid == a && a.key_at(tx.at().push(m.file())) is Some || made_marker(
            a,
            mid,
            tx,
            m,
        ))
}

/// The disk right after a marker of `tx` has been created.
pub open spec fn made_marker(a: Disk, b: Disk, tx: TxDir, m: Marker) -> bool {
    exists|id: FileId, mode: u32| #[trigger]
        created_at(a, b, tx.at().push(m.file()), id, Object::File { data: Seq::empty(), mode })
}

impl TxDir {
    /// Whether the marker is there.
    pub fn has_marker<V: Vfs>(&self, vfs: &V, m: Marker) -> (r: IoResult<bool>)
        requires
            vfs.valid(),
        ensures
            r matches Ok(b) ==> b == (vfs.disk().resolve(self.at().push(m.file())) is Some),
            vfs.serves() && way_clear(vfs.disk(), self.at().push(m.file())) ==> r is Ok,
    {
        match vfs.stat(&self.marker(m)) {
            Ok(found) => Ok(found.is_some()),
            Err(e) => Err(e),
        }
    }

    /// Creates a marker durably (exclusive create, then sync of the transaction directory).
    pub fn set_marker<V: Vfs>(&self, vfs: &mut V, m: Marker) -> (r: IoResult<()>)
        requires
            old(vfs).valid(),
        ensures
            final(vfs).valid(),
            same_volume(old(vfs).disk(), final(vfs).disk()),
            same_tree(old(vfs).disk(), final(vfs).disk()),
            r is Ok ==> marked(old(vfs).disk(), final(vfs).disk(), *self, m),
            r is Err ==> final(vfs).disk() == old(vfs).disk() || exists|id: FileId, object: Object|
                #[trigger] created_at(
                    old(vfs).disk(),
                    final(vfs).disk(),
                    self.at().push(m.file()),
                    id,
                    object,
                ),
            r is Ok ==> forall|q: PathView|
                q.len() < 3 ==> (#[trigger] final(vfs).disk().resolve(q)) == old(vfs).disk().resolve(q)
                    && final(vfs).disk().dir_at(q) == old(vfs).disk().dir_at(q),
            old(vfs).serves() && old(vfs).disk().dir_at(self.at()) is Some && (old(vfs).room() > 0
                || old(vfs).disk().resolve(self.at().push(m.file())) is Some) ==> r is Ok,
            old(vfs).serves() ==> final(vfs).serves() && final(vfs).room() + 1 >= old(vfs).room(),
    {
        let ghost a = vfs.disk();
        let path = self.marker(m);
        assert(path@.drop_last() =~= self.at());
        let empty: Vec<u8> = Vec::new();
        assert(empty@ =~= Seq::<u8>::empty());
        proof {
            vfs.lemma_valid();
            lemma_same_content(a, a);
        }
        match vfs.create_file(&path, &empty, None) {
            Ok(meta) => {
                proof {
                    vfs.lemma_valid();
                    let object = Object::File { data: Seq::empty(), mode: meta.mode };
                    let id = choose|id: FileId| #[trigger]
                        created_at(a, vfs.disk(), path@, id, object) && meta.id == vfs.disk().shows(id);
                    assert(created_at(a, vfs.disk(), path@, id, object));
                    lemma_private_create(a, vfs.disk(), path@, id, object);
                    assert(made_marker(a, vfs.disk(), *self, m));
                }
            },
            Err(e) => {
                if e.kind != IoErrorKind::AlreadyExists {
                    proof {
                        vfs.lemma_valid();
                        if vfs.disk() != a {
                            let (id, object) = choose|id: FileId, object: Object| #[trigger]
                                created_at(a, vfs.disk(), path@, id, object);
                            lemma_private_create(a, vfs.disk(), path@, id, object);
                        }
                    }
                    return Err(e);
                }
            },
        }
        let ghost mid = vfs.disk();
        proof {
            if mid != a {
                let (id, mode) = choose|id: FileId, mode: u32| #[trigger]
                    created_at(a, mid, path@, id, Object::File { data: Seq::empty(), mode });
                lemma_child_off_path(a, self.at(), m.file());
                lemma_frame_create(a, mid, path@, id, Object::File { data: Seq::empty(), mode }, self.at());
                assert forall|q: PathView| q.len() < 3 implies (#[trigger] mid.resolve(q)) == a.resolve(q)
                    && mid.dir_at(q) == a.dir_at(q) by {
                    if goes_through(a, q, path@) {
                        let j = choose|j: int| 0 < j <= q.len() && alike_paths(a, path@, #[trigger] q.take(j));
                    }
                    lemma_frame_create(a, mid, path@, id, Object::File { data: Seq::empty(), mode }, q);
                }
            }
        }
        let r = vfs.sync_dir(&self.dir());
        proof {
            lemma_same_content(mid, vfs.disk());
            lemma_same_tree_transitive(a, mid, vfs.disk());
        }
        r
    }

    /// The path to which a settled transaction is moved before it is deleted.
    pub open spec fn gc_at(self) -> PathView {
        private_root().push(gc_prefix_name() + self.id())
    }

    /// The transaction's directory has been moved away, and what it held may be partly deleted;
    /// that was begun only after the move was durable.
    pub open spec fn put_away(self, a: Disk, b: Disk) -> bool {
        exists|m: Disk| #[trigger]
            moved_at(a, m, self.at(), None, self.gc_at(), None) && (b == m || exists|c: Disk| #[trigger]
                dir_synced_at(m, c, private_root()) && pruned_below(c, b, self.gc_at()))
    }

    /// The transaction's directory has been moved away, which was made durable; what it held has
    /// been deleted, and that was made durable.
    pub open spec fn cleared_away(self, a: Disk, b: Disk) -> bool {
        exists|m: Disk, c: Disk, d: Disk|
            #![trigger dir_synced_at(m, c, private_root()), dir_synced_at(d, b, private_root())]
            moved_at(a, m, self.at(), None, self.gc_at(), None) && dir_synced_at(m, c, private_root()) && pruned_below(
                c,
                d,
                self.gc_at(),
            ) && dir_synced_at(d, b, private_root())
    }

    /// Settles the transaction: one atomic rename to `gc-<name>` (after which its contents
    /// are garbage), then deletion.
    pub fn gc<V: Vfs>(&self, vfs: &mut V) -> (r: IoResult<()>)
        requires
            old(vfs).valid(),
        ensures
            final(vfs).valid(),
            same_volume(old(vfs).disk(), final(vfs).disk()),
            same_tree(old(vfs).disk(), final(vfs).disk()),
            r is Ok ==> final(vfs).disk().resolve(self.at()) is None && final(vfs).disk().resolve(self.gc_at()) is None,
            r is Ok ==> self.cleared_away(old(vfs).disk(), final(vfs).disk()),
            r is Err ==> final(vfs).disk() == old(vfs).disk() || self.put_away(old(vfs).disk(), final(vfs).disk()),
            old(vfs).serves() && old(vfs).disk().resolve(self.at()) is Some && free_at(old(vfs).disk(), self.gc_at())
                ==> r is Ok,
            old(vfs).serves() ==> final(vfs).serves() && final(vfs).room() >= old(vfs).room(),
    {
        let ghost a = vfs.disk();
        let mut gc_name = gc_prefix_bytes();
        let mut name = string_bytes(self.name.as_str());
        gc_name.append(&mut name);
        let gc = private_dir().join(gc_name);
        let dir = self.dir();
        proof {
            vfs.lemma_valid();
            lemma_same_content(a, a);
            lemma_private_name();
        }
        proof {
            assert(dir@.drop_last() =~= private_root() && gc@.drop_last() =~= private_root());
            if a.resolve(dir@) is Some && free_at(a, gc@) {
                lemma_can_be_put_away(a, *self);
            }
        }
        let moved = vfs.rename_noreplace(&dir, None, &gc, None);
        let ghost b = vfs.disk();
        if let Err(e) = moved {
            return Err(e);
        }
        proof {
            vfs.lemma_valid();
            lemma_child_off_path(a, private_root(), self.id());
            lemma_child_off_path(a, private_root(), gc_prefix_name() + self.id());
            lemma_frame_move(a, b, dir@, None, gc@, None, private_root());
            lemma_private_move(a, b, dir@, None, gc@, None);
            lemma_settled_is_gone(a, b, self.id());
        }
        let synced = vfs.sync_dir(&private_dir());
        let ghost c = vfs.disk();
        proof {
            lemma_same_content(b, c);
            lemma_same_tree_transitive(a, b, c);
        }
        if let Err(e) = synced {
            return Err(e);
        }
        proof {
            vfs.lemma_valid();
            assert(c.resolve(private_root()) == b.resolve(private_root()));
            lemma_way_to(c, gc@);
        }
        let deleted = delete_tree(vfs, &gc);
        let ghost d = vfs.disk();
        proof {
            vfs.lemma_valid();
            lemma_pruned_above(c, d, gc@, private_root());
            lemma_same_tree_transitive(a, c, d);
            assert(dir_synced_at(b, c, private_root()) && pruned_below(c, d, self.gc_at()));
            if d.resolve(self.at()) is Some {
                crate::tree::lemma_pruned_resolve(c, d, self.at());
            }
        }
        if let Err(e) = deleted {
            return Err(e);
        }
        let last = vfs.sync_dir(&private_dir());
        proof {
            lemma_same_content(d, vfs.disk());
            lemma_same_tree_transitive(a, d, vfs.disk());
        }
        last
    }
}

/// A transaction's directory can be moved away if the name for that is free.
proof fn lemma_can_be_put_away(d: Disk, tx: TxDir)
    requires
        d.well_formed(),
        d.resolve(tx.at()) is Some,
        free_at(d, tx.gc_at()),
    ensures
        movable(d, tx.at(), None, tx.gc_at(), None),
{
    let p = tx.at();
    let area = private_root();
    assert(p.drop_last() =~= area && tx.gc_at().drop_last() =~= area);
    assert(area.drop_last() =~= Seq::<Name>::empty());
    lemma_resolve_key(d, p);
    let k = d.key_at(p)->0;
    let id = d.names[k];
    lemma_lookup(d, d.dir_at(area)->0, p.last());
    lemma_resolve_key(d, area);
    let l = d.key_at(area)->0;
    lemma_lookup(d, d.root, area.last());
    if d.is_dir(id) && passes(d, area, id) {
        let j = choose|j: int| 0 <= j <= area.len() && #[trigger] d.resolve(area.take(j)) == Some(id);
        if j == 0 {
            assert(d.resolve(area.take(0)) == Some(d.root));
        } else {
            assert(area.take(1) =~= area);
            assert(k == l);
        }
    }
}

/// Once a transaction has been moved away, its old path leads nowhere.
proof fn lemma_settled_is_gone(a: Disk, b: Disk, id: Name)
    requires
        a.well_formed(),
        b.well_formed(),
        moved_at(a, b, tx_path(id), None, private_root().push(gc_prefix_name() + id), None),
    ensures
        b.resolve(tx_path(id)) is None,
{
    reveal_with_fuel(Disk::resolve, 3);
    let p = tx_path(id);
    let gc = private_root().push(gc_prefix_name() + id);
    assert(p.drop_last() =~= private_root());
    assert(gc.drop_last() =~= private_root());
    assert(private_root().drop_last() =~= Seq::<Name>::empty());
    let root = a.root;
    let dir = a.dir_at(private_root())->0;
    let k = a.key_at(p)->0;
    lemma_lookup(a, dir, id);
    lemma_lookup(a, root, private_name());
    lemma_lookup(b, root, private_name());
    if b.resolve(p) is Some {
        let area = b.lookup(root, private_name())->0;
        let there = b.names[area];
        lemma_lookup(b, there, id);
        let l = b.lookup(there, id)->0;
        let to = Key { dir, name: gc_prefix_name() + id };
        assert(b.names.contains_key(area));
        assert(b.names.contains_key(l));
        // The private directory has one name, in the root.
        lemma_area_kept(a, b, k, to, area);
        assert(there == dir);
        if l != to {
            assert(a.names.contains_key(l));
            assert(alike(a, l.name, id));
        } else {
            assert(folded(l.name).len() == folded(id).len());
        }
    }
}

/// Moving a name inside the private directory leaves the private directory where it was.
proof fn lemma_area_kept(a: Disk, b: Disk, k: Key, to: Key, area: Key)
    requires
        a.well_formed(),
        b.well_formed(),
        same_volume(a, b),
        a.names.contains_key(k),
        b.names == a.names.remove(k).insert(to, a.names[k]),
        a.dir_at(private_root()) == Some(k.dir),
        to.dir == k.dir,
        b.lookup(b.root, private_name()) == Some(area),
    ensures
        a.dir_at(private_root()) == Some(b.names[area]),
{
    reveal_with_fuel(Disk::resolve, 2);
    assert(private_root().drop_last() =~= Seq::<Name>::empty());
    let root = a.root;
    lemma_lookup(a, root, private_name());
    lemma_lookup(b, root, private_name());
    let old_area = a.lookup(root, private_name())->0;
    // The private directory is not the root, so names in it are not names in the root.
    assert(a.names.contains_key(old_area));
    assert(k.dir != root);
    assert(area != to);
    assert(b.names.contains_key(area));
    assert(a.names.contains_key(area));
    assert(alike(a, area.name, private_name()));
}

/// Deletes `p` and everything below it, given a bound on the number of names.
fn delete_below<V: Vfs>(vfs: &mut V, p: &RelPath, Ghost(bound): Ghost<nat>) -> (r: IoResult<()>)
    requires
        old(vfs).valid(),
        private_path(p@),
        old(vfs).disk().names.dom().len() <= bound,
        p@.len() <= bound + 1,
    ensures
        final(vfs).valid(),
        same_tree(old(vfs).disk(), final(vfs).disk()),
        pruned_below(old(vfs).disk(), final(vfs).disk(), p@),
        final(vfs).disk().names.dom().len() <= bound,
        r is Ok ==> final(vfs).disk().resolve(p@) is None,
        old(vfs).serves() && way_clear(old(vfs).disk(), p@) ==> r is Ok,
        old(vfs).serves() ==> final(vfs).serves() && final(vfs).room() >= old(vfs).room(),
        old(vfs).runs() ==> final(vfs).runs() && final(vfs).room() >= old(vfs).room(),
        final(vfs).features() == old(vfs).features(),
        final(vfs).distrusted() == old(vfs).distrusted() && final(vfs).cache_key() == old(vfs).cache_key(),
    decreases bound + 1 - p@.len(),
{
    let ghost a = vfs.disk();
    let ghost sure = vfs.serves() && way_clear(a, p@);
    proof {
        vfs.lemma_valid();
        lemma_same_content(a, a);
    }
    let here = match vfs.stat(p) {
        Ok(x) => x,
        Err(e) => return Err(e),
    };
    match here {
        None => Ok(()),
        Some(m) => {
            proof {
                crate::tree::lemma_path_length(a, p@);
            }
            if m.kind == Kind::Dir {
                let names = match vfs.read_dir(p) {
                    Ok(x) => x,
                    Err(e) => return Err(e),
                };
                let ghost dir = a.dir_at(p@)->0;
                let n = names.len();
                let mut i: usize = 0;
                while i < n
                    invariant
                        i <= n,
                        n == names@.len(),
                        vfs.valid(),
                        old(vfs).serves() ==> vfs.serves() && vfs.room() >= old(vfs).room(),
                        old(vfs).runs() ==> vfs.runs() && vfs.room() >= old(vfs).room(),
                        vfs.features() == old(vfs).features(),
                        vfs.distrusted() == old(vfs).distrusted() && vfs.cache_key() == old(vfs).cache_key(),
                        sure ==> old(vfs).serves(),
                        a.dir_at(p@) == Some(dir),
                        vfs.disk().dir_at(p@) == Some(dir),
                        forall|u: int| 0 <= u < i ==> !vfs.disk().names.contains_key(
                            Key { dir, name: (#[trigger] names@[u])@ },
                        ),
                        private_path(p@),
                        a.well_formed(),
                        p@.len() <= bound,
                        a == old(vfs).disk(),
                        same_tree(a, vfs.disk()),
                        pruned_below(a, vfs.disk(), p@),
                        vfs.disk().names.dom().len() <= bound,
                    decreases n - i,
                {
                    let child = p.join(names[i].clone());
                    let ghost b = vfs.disk();
                    proof {
                        vfs.lemma_valid();
                    }
                    assert(child@[0] == p@[0]);
                    assert(child@.take(p@.len() as int) =~= p@);
                    assert(child@.drop_last() =~= p@);
                    proof {
                        lemma_way_to(b, child@);
                    }
                    let r = delete_below(vfs, &child, Ghost(bound));
                    proof {
                        lemma_same_tree_transitive(a, b, vfs.disk());
                        lemma_pruned_further(a, b, vfs.disk(), p@, child@);
                        vfs.lemma_valid();
                        lemma_pruned_above(b, vfs.disk(), child@, p@);
                    }
                    match r {
                        Ok(_) => {},
                        Err(e) => return Err(e),
                    }
                    assert(!vfs.disk().names.contains_key(Key { dir, name: names@[i as int]@ }));
                    i = i + 1;
                }
                let ghost b = vfs.disk();
                proof {
                    vfs.lemma_valid();
                    lemma_resolve_key(b, p@);
                    assert forall|l: Key| #[trigger] b.names.contains_key(l) implies l.dir != dir by {
                        if l.dir == dir {
                            assert(l == (Key { dir, name: l.name }));
                            assert(views(names@).contains(l.name));
                            let u = choose|u: int| 0 <= u < names@.len() && views(names@)[u] == l.name;
                            assert(!b.names.contains_key(Key { dir, name: names@[u]@ }));
                        }
                    }
                }
                let r = vfs.rmdir(p);
                proof {
                    lemma_after_removal::<V>(a, b, *vfs, p@, None, r is Ok);
                }
                r
            } else {
                proof {
                    lemma_resolve_key(a, p@);
                }
                let r = vfs.unlink(p, None);
                proof {
                    lemma_after_removal::<V>(a, a, *vfs, p@, None, r is Ok);
                }
                r
            }
        },
    }
}

proof fn lemma_after_removal<V: Vfs>(a: Disk, b: Disk, vfs: V, p: PathView, parent: Option<FileId>, ok: bool)
    requires
        vfs.valid(),
        a.well_formed(),
        b.well_formed(),
        private_path(p),
        same_tree(a, b),
        pruned_below(a, b, p),
        same_volume(b, vfs.disk()),
        ok ==> removed_at(b, vfs.disk(), p, parent),
        !ok ==> vfs.disk() == b,
    ensures
        same_tree(a, vfs.disk()),
        pruned_below(a, vfs.disk(), p),
        vfs.disk().names.dom().len() <= b.names.dom().len(),
        ok ==> vfs.disk().resolve(p) is None,
{
    let c = vfs.disk();
    vfs.lemma_valid();
    if ok {
        lemma_private_remove(b, c, p, parent);
        crate::tree::lemma_removed_is_gone(b, c, p, parent);
        lemma_same_tree_transitive(a, b, c);
        assert(p.take(p.len() as int) =~= p);
        lemma_pruned_further(a, b, c, p, p);
        vstd::set_lib::lemma_len_subset(c.names.dom(), b.names.dom());
    }
}

/// Recursively deletes `p` without following symlinks. Only used inside the private area.
pub fn delete_tree<V: Vfs>(vfs: &mut V, p: &RelPath) -> (r: IoResult<()>)
    requires
        old(vfs).valid(),
        private_path(p@),
    ensures
        final(vfs).valid(),
        same_volume(old(vfs).disk(), final(vfs).disk()),
        same_tree(old(vfs).disk(), final(vfs).disk()),
        pruned_below(old(vfs).disk(), final(vfs).disk(), p@),
        r is Ok ==> final(vfs).disk().resolve(p@) is None,
        old(vfs).serves() && way_clear(old(vfs).disk(), p@) ==> r is Ok,
        old(vfs).serves() ==> final(vfs).serves() && final(vfs).room() >= old(vfs).room(),
        old(vfs).runs() ==> final(vfs).runs() && final(vfs).room() >= old(vfs).room(),
        final(vfs).features() == old(vfs).features(),
        final(vfs).distrusted() == old(vfs).distrusted() && final(vfs).cache_key() == old(vfs).cache_key(),
{
    let ghost bound = vfs.disk().names.dom().len() + p@.len();
    delete_below(vfs, p, Ghost(bound))
}

} // verus!
