//! `SimFs`: an in-memory filesystem that keeps the crash-consistency contract of [`crate::crash`]
//! exactly and is otherwise adversarial.
//!
//! * Every namespace mutation (create, mkdir, rename, unlink, rmdir) is recorded as a pending
//!   change. It becomes guaranteed durable once every directory it touches has been synced
//!   after it.
//! * File data is durable only after `sync_file`; unsynced data comes back as one of several
//!   adversarial variants (old, new, torn, garbage).
//! * Crashes are injected by a budget of calls; afterwards every call fails.
//!
//! The simulator also flags protocol violations: re-using a name whose removal is not yet
//! durable for a different inode within the same sync window.
use vstd::prelude::*;

use crate::bytes::{bytes_eq, starts_with};
use crate::bytes::{begins_with, Name};
use crate::caps::{cached, literals, probe_fails, probe_name, probe_passes, shortfall, suits, Session};
use crate::crash::{lost_with, possible, power_lost, survivors};
use crate::disk::{outcome, settle, without_dir, Change, Disk, Fate, FileId, Key, Kind, Object};
use crate::error::{Error, IoError, IoErrorKind, IoResult, Result};
use crate::inspect::inspected;
use crate::inspect::Inspection;
use crate::links::{copy_links, find, find_exact, Link};
use crate::links::{
    distinct, fid, lemma_entry, lemma_fid, lemma_finite, lemma_key, lemma_push, lemma_remove, lemma_update, names_of,
};
use crate::path::{private_dir_name, split_slashes, RelPath};
use crate::path::{private_name, segments, views, PathView};
use crate::pathmap::PathMap;
use crate::state::private_dir;
use crate::state::private_root;
use crate::probing::spotless;
use crate::recover::{tidy, RecoveryReport};
use crate::{can_settle, cannot_settle, nothing_recovered, recovery_outcome};
use crate::transaction::Options;
use crate::tree::{alike, lemma_lookup};
use crate::vfs::{describes, parent_mismatch, Features, Meta, Vfs};
use crate::vfs::{created_at, fresh, lists, mentions, passes, same_but_shown, same_volume};

verus! {

/// How renames may persist across a power loss.
#[derive(Clone, Copy, Debug, PartialEq, Eq, Structural)]
pub enum Profile {
    /// A rename persists entirely or not at all.
    Strict,
    /// A rename of a non-directory may also persist as "both names".
    Weak,
}

/// Simulator configuration; the flags model filesystems that fail capability probes.
#[derive(Clone, Copy, Debug)]
pub struct SimConfig {
    pub profile: Profile,
    /// No-replace renames are supported.
    pub noreplace: bool,
    /// Inode numbers survive renames.
    pub stable_ids: bool,
    /// Name lookups fold ASCII case.
    pub case_insensitive: bool,
}

impl Default for SimConfig {
    fn default() -> (r: Self)
        ensures
            r.profile == Profile::Strict,
            r.noreplace,
            r.stable_ids,
            !r.case_insensitive,
    {
        SimConfig { profile: Profile::Strict, noreplace: true, stable_ids: true, case_insensitive: false }
    }
}

/// An inode.
#[derive(Debug)]
pub enum Node {
    File { data: Vec<u8>, mode: u32 },
    Dir { mode: u32 },
    Symlink,
}

impl View for Node {
    type V = Object;

    open spec fn view(&self) -> Object {
        match self {
            Node::File { data, mode } => Object::File { data: data@, mode: *mode },
            Node::Dir { mode } => Object::Dir { mode: *mode },
            Node::Symlink => Object::Symlink,
        }
    }
}

impl Clone for Node {
    fn clone(&self) -> (r: Self)
        ensures
            r@ == self@,
    {
        match self {
            Node::File { data, mode } => Node::File { data: data.clone(), mode: *mode },
            Node::Dir { mode } => Node::Dir { mode: *mode },
            Node::Symlink => Node::Symlink,
        }
    }
}

/// A name in a directory.
#[derive(Debug)]
pub struct Spot {
    pub dir: usize,
    pub name: Vec<u8>,
}

impl Spot {
    /// The name.
    pub open spec fn key(self) -> Key {
        Key { dir: fid(self.dir), name: self.name@ }
    }
}

impl Clone for Spot {
    fn clone(&self) -> (r: Self)
        ensures
            r.key() == self.key(),
            r.dir == self.dir,
    {
        Spot { dir: self.dir, name: self.name.clone() }
    }
}

/// A change of names that is not known to be durable.
#[derive(Debug)]
pub struct Pending {
    pub from: Option<Spot>,
    pub to: Option<Spot>,
    pub ino: usize,
    /// The directories that must still be synced.
    pub unsynced: Vec<usize>,
    /// Whether a power loss may keep both names.
    pub both: bool,
}

/// The identities of the inodes.
pub open spec fn fids(v: Seq<usize>) -> Set<FileId> {
    Set::new(|id: FileId| exists|i: int| 0 <= i < v.len() && fid(#[trigger] v[i]) == id)
}

/// The name of a spot, if there is one.
pub open spec fn key_of(s: Option<Spot>) -> Option<Key> {
    match s {
        Some(x) => Some(x.key()),
        None => None,
    }
}

impl View for Pending {
    type V = Change;

    open spec fn view(&self) -> Change {
        Change {
            from: key_of(self.from),
            to: key_of(self.to),
            id: fid(self.ino),
            unsynced: fids(self.unsynced@),
            both: self.both,
        }
    }
}

impl Pending {
    /// The inodes that the change mentions are below `n`.
    pub open spec fn below(self, n: int) -> bool {
        &&& 1 <= self.ino < n
        &&& self.from matches Some(s) ==> 1 <= s.dir < n
        &&& self.to matches Some(s) ==> 1 <= s.dir < n
    }
}

impl Clone for Pending {
    fn clone(&self) -> (r: Self)
        ensures
            r@ == self@,
            forall|n: int| self.below(n) ==> r.below(n),
    {
        let from = match &self.from {
            Some(s) => Some(s.clone()),
            None => None,
        };
        let to = match &self.to {
            Some(s) => Some(s.clone()),
            None => None,
        };
        Pending { from, to, ino: self.ino, unsynced: self.unsynced.clone(), both: self.both }
    }
}

/// A breach of the rules for using names.
#[derive(Clone, Debug)]
pub enum Violation {
    /// A name was re-used for another inode before the removal of the first was durable.
    Reused { dir: usize, name: Vec<u8>, ino: usize, removed: usize },
    /// A durable name was overwritten.
    Overwritten { dir: usize, name: Vec<u8> },
}

/// The next count; the last one stays.
pub open spec fn one_more(n: u64) -> u64 {
    if n < u64::MAX {
        (n + 1) as u64
    } else {
        n
    }
}

/// The state of a simulated filesystem. Inode numbers are indices into `nodes`; number 0 is
/// not used, and 1 is the root.
#[derive(Debug)]
pub struct State {
    cfg: SimConfig,
    links: Vec<Link>,
    nodes: Vec<Node>,
    /// How often an inode has changed its number.
    salts: Vec<u64>,
    durable: Vec<Link>,
    pending: Vec<Pending>,
    /// The content of files that would survive.
    saved: Vec<Option<Vec<u8>>>,
    dirty: Vec<bool>,
}

/// The inode with this identity.
pub open spec fn ino_of(id: FileId) -> int {
    id.ino as int
}

/// The identity belongs to one of the first `n` inodes.
pub open spec fn is_inode(id: FileId, n: int) -> bool {
    id.dev == 1 && 1 <= id.ino < n
}

/// The identity that inode `i` reports after `salt` changes.
pub open spec fn shown_id(i: usize, salt: u64) -> FileId {
    FileId { dev: 1, ino: (i as u64).wrapping_add(salt.wrapping_mul(1_000_000_000)) }
}

/// With one more change an inode reports another identity.
proof fn lemma_shown_differs(i: usize, salt: u64)
    ensures
        shown_id(i, salt.wrapping_add(1)) != shown_id(i, salt),
{
    let m = 0x1_0000_0000_0000_0000int;
    let k = 1_000_000_000int;
    let x = (salt * k) % m;
    let y = (salt.wrapping_add(1) * k) % m;
    if salt < u64::MAX {
        vstd::arithmetic::div_mod::lemma_add_mod_noop(salt * k, k, m);
        assert(salt * k + k == (salt + 1) * k);
        assert(y == (x + k) % m);
    } else {
        vstd::arithmetic::div_mod::lemma_mod_multiples_vanish(k - 1, m - k, m);
        assert(salt * k == m * (k - 1) + (m - k));
        assert(x == m - k);
        assert(y == 0);
    }
    assert(y == x + k || y == x + k - m);
}

impl State {
    /// The disk that is simulated.
    pub closed spec fn disk(self) -> Disk {
        let n = self.nodes@.len() as int;
        Disk {
            root: fid(1),
            folds: self.cfg.case_insensitive,
            steady: self.cfg.stable_ids,
            shown: Map::new(
                |id: FileId| is_inode(id, n),
                |id: FileId| shown_id(ino_of(id) as usize, self.salts@[ino_of(id)]),
            ),
            weak: self.cfg.profile == Profile::Weak,
            names: names_of(self.links@),
            objects: Map::new(|id: FileId| is_inode(id, n), |id: FileId| self.nodes@[ino_of(id)]@),
            durable: names_of(self.durable@),
            pending: self.pending@.map_values(|p: Pending| p@),
            saved: Map::new(
                |id: FileId| is_inode(id, n) && self.saved@[ino_of(id)] is Some,
                |id: FileId| self.saved@[ino_of(id)]->0@,
            ),
            dirty: Set::new(|id: FileId| is_inode(id, n) && self.dirty@[ino_of(id)]),
        }
    }

    /// The tables belong together.
    pub closed spec fn well_typed(self) -> bool {
        let n = self.nodes@.len() as int;
        &&& n >= 2
        &&& self.nodes@[1] is Dir
        &&& self.salts@.len() == n
        &&& self.saved@.len() == n
        &&& self.dirty@.len() == n
        &&& self.cfg.stable_ids ==> forall|i: int| 0 <= i < n ==> #[trigger] self.salts@[i] == 0
        &&& distinct(self.links@)
        &&& distinct(self.durable@)
        &&& forall|i: int|
            0 <= i < self.links@.len() ==> 1 <= (#[trigger] self.links@[i]).dir < n && 1 <= self.links@[i].ino < n
        &&& forall|i: int|
            0 <= i < self.durable@.len() ==> 1 <= (#[trigger] self.durable@[i]).dir < n && 1 <= self.durable@[i].ino
                < n
        &&& forall|i: int| 0 <= i < self.pending@.len() ==> (#[trigger] self.pending@[i]).below(n)
    }

    /// The tables belong together, and the names form a tree.
    pub closed spec fn valid(self) -> bool {
        self.well_typed() && self.disk().well_formed()
    }

    /// The root directory alone.
    fn new(cfg: SimConfig) -> (r: State)
        ensures
            r.valid(),
            r.cfg == cfg,
            r.nodes@.len() == 2,
            r.disk().names == Map::<Key, FileId>::empty(),
            r.disk().durable == Map::<Key, FileId>::empty(),
            r.disk().pending == Seq::<Change>::empty(),
            r.disk().folds == cfg.case_insensitive,
            r.disk().steady == cfg.stable_ids,
            r.disk().weak == (cfg.profile == Profile::Weak),
            r.disk().dirty == Set::<FileId>::empty(),
    {
        let mut nodes: Vec<Node> = Vec::new();
        nodes.push(Node::Symlink);
        nodes.push(Node::Dir { mode: 0o755 });
        let mut salts: Vec<u64> = Vec::new();
        salts.push(0);
        salts.push(0);
        let mut saved: Vec<Option<Vec<u8>>> = Vec::new();
        saved.push(None);
        saved.push(None);
        let mut dirty: Vec<bool> = Vec::new();
        dirty.push(false);
        dirty.push(false);
        let r = State {
            cfg,
            links: Vec::new(),
            nodes,
            salts,
            durable: Vec::new(),
            pending: Vec::new(),
            saved,
            dirty,
        };
        proof {
            lemma_finite(r.links@);
            assert forall|k: Key| !r.disk().names.contains_key(k) by {
                if r.disk().names.contains_key(k) {
                    let i = lemma_key(r.links@, k);
                }
            }
            assert forall|k: Key| !r.disk().durable.contains_key(k) by {
                if r.disk().durable.contains_key(k) {
                    let i = lemma_key(r.durable@, k);
                }
            }
            assert(r.disk().names =~= Map::<Key, FileId>::empty());
            assert(r.disk().durable =~= Map::<Key, FileId>::empty());
            assert(r.disk().pending =~= Seq::<Change>::empty());
            assert(r.disk().dirty =~= Set::<FileId>::empty());
        }
        r
    }

    /// The identity that an inode reports.
    fn file_id(&self, ino: usize) -> (r: FileId)
        requires
            self.well_typed(),
            1 <= ino < self.nodes@.len(),
        ensures
            r == self.disk().shows(fid(ino)),
    {
        let salt = self.salts[ino];
        let r = FileId { dev: 1, ino: (ino as u64).wrapping_add(salt.wrapping_mul(1_000_000_000)) };
        proof {
            assert(is_inode(fid(ino), self.nodes@.len() as int));
            assert(ino_of(fid(ino)) == ino);
            if self.cfg.stable_ids {
                assert(salt == 0);
                assert((ino as u64).wrapping_add((0u64).wrapping_mul(1_000_000_000)) == ino as u64);
            }
        }
        r
    }
}

/// A path through something that is not a directory leads to no directory.
proof fn lemma_stuck(d: Disk, p: PathView, j: int)
    requires
        0 <= j < p.len(),
        d.dir_at(p.take(j)) is None,
    ensures
        d.resolve(p) is None,
    decreases p.len() - j,
{
    if j == p.len() - 1 {
        assert(p.take(j) =~= p.drop_last());
    } else {
        assert(p.take(j + 1).drop_last() =~= p.take(j));
        assert(d.resolve(p.take(j + 1)) is None);
        lemma_stuck(d, p, j + 1);
    }
}

/// An error with a fixed text.
fn fault(kind: IoErrorKind, message: &str) -> (r: IoError)
    ensures
        r.kind == kind,
{
    IoError::new(kind, message)
}

/// What a path that cannot be followed leads through.
pub open spec fn blocked(d: Disk, p: PathView, e: IoError) -> bool {
    match e.kind {
        IoErrorKind::NotFound => exists|j: int|
            0 < j <= p.len() && d.dir_at(p.take(j - 1)) is Some && (#[trigger] d.resolve(p.take(j))) is None,
        IoErrorKind::InvalidInput => exists|j: int|
            0 < j <= p.len() && ((#[trigger] d.resolve(p.take(j))) matches Some(id) && d.objects[id] is Symlink),
        IoErrorKind::NotADirectory => exists|j: int|
            0 < j <= p.len() && ((#[trigger] d.resolve(p.take(j))) matches Some(id) && d.objects[id] is File),
        _ => false,
    }
}

impl State {
    /// Finds the entry that a lookup of `name` in `dir` finds.
    fn find(&self, dir: usize, name: &[u8]) -> (r: Option<usize>)
        requires
            self.valid(),
        ensures
            match r {
                Some(i) => i < self.links@.len() && self.links@[i as int].dir == dir && self.disk().lookup(
                    fid(dir),
                    name@,
                ) == Some(self.links@[i as int].key()) && self.disk().names[self.links@[i as int].key()] == fid(
                    self.links@[i as int].ino,
                ),
                None => self.disk().lookup(fid(dir), name@) is None,
            },
    {
        let r = find(&self.links, self.cfg.case_insensitive, dir, name);
        proof {
            if let Some(i) = r {
                let d = self.disk();
                lemma_lookup(d, fid(dir), name@);
                lemma_entry(self.links@, i as int);
                let k = self.links@[i as int].key();
                assert(alike(d, k.name, name@));
                assert(d.names.contains_key(k));
            }
        }
        r
    }

    /// Resolves a directory path; symlinks in components are refused.
    fn resolve_dir(&self, p: &RelPath) -> (r: IoResult<usize>)
        requires
            self.valid(),
        ensures
            match r {
                Ok(dir) => 1 <= dir < self.nodes@.len() && self.disk().dir_at(p@) == Some(fid(dir)),
                Err(e) => self.disk().dir_at(p@) is None && blocked(self.disk(), p@, e),
            },
    {
        let ghost d = self.disk();
        let parts = p.components();
        let n = parts.len();
        let mut cur: usize = 1;
        let mut i: usize = 0;
        assert(p@.take(0) =~= Seq::<Name>::empty());
        proof {
            assert(is_inode(fid(1), self.nodes@.len() as int));
        }
        while i < n
            invariant
                i <= n,
                n == p@.len(),
                n == parts@.len(),
                self.valid(),
                d == self.disk(),
                forall|j: int| 0 <= j < n ==> (#[trigger] parts@[j])@ == p@[j],
                1 <= cur < self.nodes@.len(),
                d.dir_at(p@.take(i as int)) == Some(fid(cur)),
            decreases n - i,
        {
            let ghost q = p@.take(i + 1);
            assert(q.drop_last() =~= p@.take(i as int));
            assert(q.last() == parts@[i as int]@);
            match self.find(cur, &parts[i]) {
                Some(x) => {
                    let ino = self.links[x].ino;
                    assert(d.resolve(q) == Some(fid(ino)));
                    proof {
                        assert(is_inode(fid(ino), self.nodes@.len() as int));
                        assert(ino_of(fid(ino)) == ino);
                        assert(d.objects[fid(ino)] == self.nodes@[ino as int]@);
                    }
                    match &self.nodes[ino] {
                        Node::Dir { .. } => {
                            cur = ino;
                        },
                        Node::Symlink => {
                            proof {
                                if i + 1 < n {
                                    lemma_stuck(d, p@, i + 1);
                                } else {
                                    assert(q =~= p@);
                                }
                                assert(blocked_at(d, p@, i + 1));
                            }
                            return Err(fault(IoErrorKind::InvalidInput, "symlink in path (ELOOP)"));
                        },
                        Node::File { .. } => {
                            proof {
                                if i + 1 < n {
                                    lemma_stuck(d, p@, i + 1);
                                } else {
                                    assert(q =~= p@);
                                }
                                assert(blocked_at(d, p@, i + 1));
                            }
                            return Err(fault(IoErrorKind::NotADirectory, "not a directory"));
                        },
                    }
                },
                None => {
                    proof {
                        assert(d.resolve(q) is None);
                        if i + 1 < n {
                            lemma_stuck(d, p@, i + 1);
                        } else {
                            assert(q =~= p@);
                        }
                        assert(d.dir_at(p@.take((i + 1) - 1)) is Some);
                    }
                    return Err(fault(IoErrorKind::NotFound, "no such directory"));
                },
            }
            i = i + 1;
        }
        assert(p@.take(n as int) =~= p@);
        Ok(cur)
    }

    /// The parent directory of a path.
    fn parent_of(&self, p: &RelPath) -> (r: IoResult<usize>)
        requires
            self.valid(),
        ensures
            match r {
                Ok(dir) => p@.len() > 0 && 1 <= dir < self.nodes@.len() && self.disk().dir_at(p@.drop_last()) == Some(
                    fid(dir),
                ),
                Err(e) => p@.len() == 0 && e.kind == IoErrorKind::InvalidInput || p@.len() > 0 && self.disk().dir_at(
                    p@.drop_last(),
                ) is None && blocked(self.disk(), p@.drop_last(), e),
            },
    {
        match p.parent() {
            Some(q) => self.resolve_dir(&q),
            None => Err(fault(IoErrorKind::InvalidInput, "root")),
        }
    }

    /// The inode that a path leads to.
    fn lookup_leaf(&self, p: &RelPath) -> (r: IoResult<Option<usize>>)
        requires
            self.valid(),
        ensures
            match r {
                Ok(Some(ino)) => 1 <= ino < self.nodes@.len() && self.disk().resolve(p@) == Some(fid(ino)),
                Ok(None) => self.disk().resolve(p@) is None,
                Err(e) => self.disk().resolve(p@) is None && p@.len() > 0 && e.kind == IoErrorKind::InvalidInput
                    && blocked(self.disk(), p@.drop_last(), e),
            },
    {
        if p.is_root() {
            return Ok(Some(1));
        }
        let dir = match self.parent_of(p) {
            Ok(x) => x,
            Err(e) => {
                if e.kind == IoErrorKind::NotFound || e.kind == IoErrorKind::NotADirectory {
                    return Ok(None);
                }
                return Err(e);
            },
        };
        match p.file_name() {
            Some(leaf) => match self.find(dir, leaf) {
                Some(i) => Ok(Some(self.links[i].ino)),
                None => Ok(None),
            },
            None => Ok(None),
        }
    }

    /// How many names an inode has.
    fn count_links(&self, ino: usize) -> (r: u64)
        ensures
            r == links_to(self.links@, ino, self.links@.len() as int),
    {
        let n = self.links.len();
        let mut i: usize = 0;
        let mut c: u64 = 0;
        while i < n
            invariant
                i <= n,
                n == self.links@.len(),
                c <= i,
                c == links_to(self.links@, ino, i as int),
            decreases n - i,
        {
            if self.links[i].ino == ino {
                c = c + 1;
            }
            i = i + 1;
        }
        c
    }

    /// The object that an inode is.
    proof fn lemma_object(self, ino: usize)
        requires
            1 <= ino < self.nodes@.len(),
        ensures
            self.disk().objects.contains_key(fid(ino)),
            self.disk().objects[fid(ino)] == self.nodes@[ino as int]@,
    {
        assert(is_inode(fid(ino), self.nodes@.len() as int));
        assert(ino_of(fid(ino)) == ino);
    }

    /// The metadata of an inode.
    fn meta(&self, ino: usize) -> (r: Meta)
        requires
            self.well_typed(),
            1 <= ino < self.nodes@.len(),
        ensures
            describes(self.disk(), fid(ino), r),
            r.nlink == links_to(self.links@, ino, self.links@.len() as int),
    {
        let id = self.file_id(ino);
        let nlink = self.count_links(ino);
        proof {
            self.lemma_object(ino);
        }
        match &self.nodes[ino] {
            Node::File { data, mode } => Meta { kind: Kind::File, id, len: data.len() as u64, mode: *mode, nlink },
            Node::Dir { mode } => Meta { kind: Kind::Dir, id, len: 0, mode: *mode, nlink },
            Node::Symlink => Meta { kind: Kind::Symlink, id, len: 0, mode: 0o777, nlink },
        }
    }
}

/// How many of the first `n` entries lead to the inode.
spec fn links_to(links: Seq<Link>, ino: usize, n: int) -> nat
    decreases n,
{
    if n <= 0 {
        0
    } else {
        links_to(links, ino, n - 1) + (if links[n - 1].ino == ino {
            1nat
        } else {
            0nat
        })
    }
}

/// The path is blocked at its `j`-th component.
spec fn blocked_at(d: Disk, p: PathView, j: int) -> bool {
    0 < j <= p.len() && d.dir_at(p.take(j)) is None
}

/// Creating something keeps the names a tree.
proof fn lemma_created_is_tree(a: Disk, k: Key, id: FileId, object: Object)
    requires
        a.well_formed(),
        a.is_dir(k.dir),
        a.lookup(k.dir, k.name) is None,
        fresh(a, id),
        !a.objects.contains_key(id),
    ensures
        a.created(k, id, object).well_formed(),
{
    let b = a.created(k, id, object);
    lemma_lookup(a, k.dir, k.name);
    assert forall|l: Key| #[trigger] b.names.contains_key(l) implies b.is_dir(l.dir) && b.objects.contains_key(b.names[l])
        && b.names[l] != b.root by {
        if l != k {
            assert(a.names.contains_key(l));
        }
    }
    assert forall|x: Key, y: Key|
        #![trigger b.names.contains_key(x), b.names.contains_key(y)]
        b.names.contains_key(x) && b.names.contains_key(y) && b.names[x] == b.names[y] && b.is_dir(
            b.names[x],
        ) implies x == y by {
        if x != k {
            assert(a.names.contains_key(x));
        }
        if y != k {
            assert(a.names.contains_key(y));
        }
    }
    if b.folds {
        assert forall|x: Key, y: Key|
            #![trigger b.names.contains_key(x), b.names.contains_key(y)]
            b.names.contains_key(x) && b.names.contains_key(y) && x.dir == y.dir && crate::bytes::folded(x.name)
                == crate::bytes::folded(y.name) implies x == y by {
            if x != k {
                assert(a.names.contains_key(x));
            }
            if y != k {
                assert(a.names.contains_key(y));
            }
        }
    }
}

/// Moving something to a free name keeps the names a tree.
proof fn lemma_moved_is_tree(a: Disk, from: Key, to: Key)
    requires
        a.well_formed(),
        a.names.contains_key(from),
        a.is_dir(to.dir),
        a.lookup(to.dir, to.name) is None,
    ensures
        a.moved(from, to).well_formed(),
{
    let b = a.moved(from, to);
    lemma_lookup(a, to.dir, to.name);
    assert forall|l: Key| #[trigger] b.names.contains_key(l) implies b.is_dir(l.dir) && b.objects.contains_key(b.names[l])
        && b.names[l] != b.root by {
        if l != to {
            assert(a.names.contains_key(l));
        }
    }
    assert forall|x: Key, y: Key|
        #![trigger b.names.contains_key(x), b.names.contains_key(y)]
        b.names.contains_key(x) && b.names.contains_key(y) && b.names[x] == b.names[y] && b.is_dir(
            b.names[x],
        ) implies x == y by {
        assert(x != to ==> a.names.contains_key(x));
        assert(y != to ==> a.names.contains_key(y));
        assert(a.names.contains_key(from));
    }
    if b.folds {
        assert forall|x: Key, y: Key|
            #![trigger b.names.contains_key(x), b.names.contains_key(y)]
            b.names.contains_key(x) && b.names.contains_key(y) && x.dir == y.dir && crate::bytes::folded(x.name)
                == crate::bytes::folded(y.name) implies x == y by {
            assert(x != to ==> a.names.contains_key(x));
            assert(y != to ==> a.names.contains_key(y));
        }
    }
}

/// Removing a name keeps the names a tree.
proof fn lemma_removed_is_tree(a: Disk, k: Key)
    requires
        a.well_formed(),
    ensures
        a.removed(k).well_formed(),
{
    let b = a.removed(k);
    assert forall|l: Key| #[trigger] b.names.contains_key(l) implies a.names.contains_key(l) && b.names[l] == a.names[l] by {
    }
}

/// Whether a tree is well-formed does not depend on what is durable, or on reported identities.
proof fn lemma_tree_only(a: Disk, b: Disk)
    requires
        a.well_formed(),
        b.root == a.root,
        b.folds == a.folds,
        b.names == a.names,
        b.objects == a.objects,
    ensures
        b.well_formed(),
{
    assert forall|id: FileId| #[trigger] b.is_dir(id) == a.is_dir(id) by {
    }
}

/// The set of one or two inodes.
proof fn lemma_fids(a: usize, b: usize, v: Seq<usize>)
    requires
        v == seq![a, b] || (a == b && v == seq![a]),
    ensures
        fids(v) == set![fid(a), fid(b)],
{
    assert forall|id: FileId| #[trigger] fids(v).contains(id) <==> id == fid(a) || id == fid(b) by {
        if id == fid(a) {
            assert(fid(v[0]) == id);
        }
        if id == fid(b) {
            assert(fid(v[v.len() - 1]) == id);
        }
    }
    assert(fids(v) =~= set![fid(a), fid(b)]);
}

impl State {
    /// Nothing mentions the next inode.
    proof fn lemma_next_is_fresh(self)
        requires
            self.well_typed(),
            self.nodes@.len() < usize::MAX,
        ensures
            fresh(self.disk(), fid(self.nodes@.len() as usize)),
            !self.disk().objects.contains_key(fid(self.nodes@.len() as usize)),
    {
        let n = self.nodes@.len() as usize;
        let d = self.disk();
        let id = fid(n);
        assert forall|k: Key| #[trigger] d.names.contains_key(k) implies d.names[k] != id && k.dir != id by {
            let i = lemma_key(self.links@, k);
            let l = self.links@[i];
            if fid(l.ino) == id {
                lemma_fid(l.ino, n);
            }
            if fid(l.dir) == id {
                lemma_fid(l.dir, n);
            }
        }
        assert forall|k: Key| #[trigger] d.durable.contains_key(k) implies d.durable[k] != id && k.dir != id by {
            let i = lemma_key(self.durable@, k);
            let l = self.durable@[i];
            if fid(l.ino) == id {
                lemma_fid(l.ino, n);
            }
            if fid(l.dir) == id {
                lemma_fid(l.dir, n);
            }
        }
        assert forall|i: int| 0 <= i < d.pending.len() implies !mentions(#[trigger] d.pending[i], id) by {
            let p = self.pending@[i];
            assert(p.below(n as int));
            assert(d.pending[i] == p@);
            if fid(p.ino) == id {
                lemma_fid(p.ino, n);
            }
            if let Some(s) = p.from {
                if fid(s.dir) == id {
                    lemma_fid(s.dir, n);
                }
            }
            if let Some(s) = p.to {
                if fid(s.dir) == id {
                    lemma_fid(s.dir, n);
                }
            }
        }
    }

    /// Adds an inode at a free name.
    fn add_node(&mut self, dir: usize, name: &[u8], node: Node) -> (r: usize)
        requires
            old(self).valid(),
            1 <= dir < old(self).nodes@.len(),
            old(self).disk().is_dir(fid(dir)),
            old(self).disk().lookup(fid(dir), name@) is None,
            old(self).nodes@.len() < usize::MAX,
        ensures
            final(self).valid(),
            final(self).cfg == old(self).cfg,
            r == old(self).nodes@.len(),
            final(self).nodes@.len() == r + 1,
            fresh(old(self).disk(), fid(r)),
            same_but_shown(
                old(self).disk().created(Key { dir: fid(dir), name: name@ }, fid(r), node@),
                final(self).disk(),
            ),
    {
        let ghost a = *self;
        let ghost object = node@;
        let ino = self.nodes.len();
        let name = vstd::slice::slice_to_vec(name);
        let ghost k = Key { dir: fid(dir), name: name@ };
        proof {
            a.lemma_next_is_fresh();
            lemma_created_is_tree(a.disk(), k, fid(ino), object);
        }
        let is_file = matches!(node, Node::File { .. });
        let spot = Spot { dir, name: name.clone() };
        let link = Link { dir, name, ino };
        let mut unsynced: Vec<usize> = Vec::new();
        unsynced.push(dir);
        proof {
            lemma_push(self.links@, link);
            lemma_fids(dir, dir, unsynced@);
        }
        self.links.push(link);
        self.nodes.push(node);
        self.salts.push(0);
        self.saved.push(None);
        self.dirty.push(is_file);
        self.pending.push(Pending { from: None, to: Some(spot), ino, unsynced, both: false });
        proof {
            let b = self.disk();
            let want = a.disk().created(k, fid(ino), object);
            let n = a.nodes@.len() as int;
            assert forall|id: FileId| is_inode(id, n + 1) <==> is_inode(id, n) || id == fid(ino) by {
            }
            assert(b.names == want.names);
            assert(b.objects =~= want.objects);
            assert(b.pending =~= want.pending) by {
                assert(set![fid(dir), fid(dir)] =~= set![fid(dir)]);
            }
            assert(b.saved =~= want.saved);
            assert(b.dirty =~= want.dirty);
            assert(b.durable == want.durable);
            lemma_tree_only(want, b);
        }
        ino
    }

    /// Moves the `i`-th entry to a free name. Where identities are not stable, what is moved gets
    /// another one.
    fn move_link(&mut self, i: usize, dir: usize, name: &[u8])
        requires
            old(self).valid(),
            i < old(self).links@.len(),
            1 <= dir < old(self).nodes@.len(),
            old(self).disk().is_dir(fid(dir)),
            old(self).disk().lookup(fid(dir), name@) is None,
        ensures
            final(self).valid(),
            final(self).cfg == old(self).cfg,
            final(self).nodes@.len() == old(self).nodes@.len(),
            same_but_shown(
                old(self).disk().moved(old(self).links@[i as int].key(), Key { dir: fid(dir), name: name@ }),
                final(self).disk(),
            ),
            !old(self).cfg.stable_ids ==> {
                let id = fid(old(self).links@[i as int].ino);
                final(self).disk().shows(id) != old(self).disk().shows(id)
            },
    {
        let ghost a = *self;
        let ghost from = self.links@[i as int].key();
        let ghost to = Key { dir: fid(dir), name: name@ };
        proof {
            lemma_entry(self.links@, i as int);
            lemma_moved_is_tree(a.disk(), from, to);
        }
        let old_link = self.links.remove(i);
        let ino = old_link.ino;
        proof {
            lemma_remove(a.links@, i as int);
            a.lemma_object(ino);
            lemma_lookup(a.disk(), fid(dir), name@);
        }
        let new_link = Link { dir, name: vstd::slice::slice_to_vec(name), ino };
        proof {
            assert(new_link.key() == to);
            lemma_push(self.links@, new_link);
        }
        self.links.push(new_link);
        let is_dir = matches!(self.nodes[ino], Node::Dir { .. });
        if !self.cfg.stable_ids {
            let salt = self.salts[ino].wrapping_add(1);
            proof {
                lemma_shown_differs(ino, self.salts@[ino as int]);
            }
            self.salts.set(ino, salt);
        }
        let mut unsynced: Vec<usize> = Vec::new();
        unsynced.push(old_link.dir);
        unsynced.push(dir);
        proof {
            assert(unsynced@ =~= seq![old_link.dir, dir]);
            lemma_fids(old_link.dir, dir, unsynced@);
        }
        let both = self.cfg.profile == Profile::Weak && !is_dir;
        let change = Pending {
            from: Some(Spot { dir: old_link.dir, name: old_link.name }),
            to: Some(Spot { dir, name: vstd::slice::slice_to_vec(name) }),
            ino,
            unsynced,
            both,
        };
        self.pending.push(change);
        proof {
            let b = self.disk();
            let want = a.disk().moved(from, to);
            assert(b.names == want.names);
            assert(b.objects =~= want.objects);
            assert(change@ == want.pending.last());
            assert(b.pending =~= want.pending);
            assert(b.saved =~= want.saved);
            assert(b.dirty =~= want.dirty);
            assert(b.durable == want.durable);
            lemma_tree_only(want, b);
        }
    }

    /// Removes the `i`-th entry.
    fn drop_link(&mut self, i: usize)
        requires
            old(self).valid(),
            i < old(self).links@.len(),
        ensures
            final(self).valid(),
            final(self).cfg == old(self).cfg,
            final(self).nodes@.len() == old(self).nodes@.len(),
            final(self).disk() == old(self).disk().removed(old(self).links@[i as int].key()),
    {
        let ghost a = *self;
        let ghost k = self.links@[i as int].key();
        proof {
            lemma_entry(self.links@, i as int);
            lemma_removed_is_tree(a.disk(), k);
            lemma_remove(a.links@, i as int);
        }
        let link = self.links.remove(i);
        let ino = link.ino;
        let mut unsynced: Vec<usize> = Vec::new();
        unsynced.push(link.dir);
        proof {
            lemma_fids(link.dir, link.dir, unsynced@);
        }
        let change = Pending { from: Some(Spot { dir: link.dir, name: link.name }), to: None, ino, unsynced, both: false };
        self.pending.push(change);
        proof {
            let b = self.disk();
            let want = a.disk().removed(k);
            assert(set![k.dir, k.dir] =~= set![k.dir]);
            assert(change@ == want.pending.last());
            assert(b.pending =~= want.pending);
            assert(b.saved =~= want.saved);
            assert(b.dirty =~= want.dirty);
            assert(b.objects =~= want.objects);
            assert(b.shown =~= want.shown);
            assert(b =~= want);
        }
    }
}

/// The entries lead from and to inodes below `n`.
spec fn links_below(links: Seq<Link>, n: int) -> bool {
    forall|i: int| 0 <= i < links.len() ==> 1 <= (#[trigger] links[i]).dir < n && 1 <= links[i].ino < n
}

/// Makes a name lead to an inode, and reports the name if it led elsewhere.
fn set_link(links: &mut Vec<Link>, spot: &Spot, ino: usize, Ghost(n): Ghost<int>) -> (r: Option<Violation>)
    requires
        distinct(old(links)@),
        links_below(old(links)@, n),
        1 <= spot.dir < n,
        1 <= ino < n,
    ensures
        distinct(final(links)@),
        links_below(final(links)@, n),
        names_of(final(links)@) == names_of(old(links)@).insert(spot.key(), fid(ino)),
        r is Some <==> names_of(old(links)@).contains_key(spot.key()) && names_of(old(links)@)[spot.key()] != fid(ino),
{
    let ghost before = links@;
    let link = Link { dir: spot.dir, name: spot.name.clone(), ino };
    match find_exact(links, spot.dir, &spot.name) {
        Some(i) => {
            let old_ino = links[i].ino;
            proof {
                lemma_entry(before, i as int);
                lemma_update(before, i as int, link);
                if fid(old_ino) == fid(ino) {
                    lemma_fid(old_ino, ino);
                }
            }
            links.set(i, link);
            if old_ino != ino {
                Some(Violation::Overwritten { dir: spot.dir, name: spot.name.clone() })
            } else {
                None
            }
        },
        None => {
            proof {
                lemma_push(before, link);
            }
            links.push(link);
            None
        },
    }
}

/// Removes a name if it leads to the inode.
fn clear_link(links: &mut Vec<Link>, spot: &Spot, ino: usize, Ghost(n): Ghost<int>)
    requires
        distinct(old(links)@),
        links_below(old(links)@, n),
    ensures
        distinct(final(links)@),
        links_below(final(links)@, n),
        names_of(final(links)@) == (if names_of(old(links)@).contains_key(spot.key()) && names_of(old(links)@)[spot.key()]
            == fid(ino) {
            names_of(old(links)@).remove(spot.key())
        } else {
            names_of(old(links)@)
        }),
{
    let ghost before = links@;
    match find_exact(links, spot.dir, &spot.name) {
        Some(i) => {
            let old_ino = links[i].ino;
            proof {
                lemma_entry(before, i as int);
                if fid(old_ino) == fid(ino) {
                    lemma_fid(old_ino, ino);
                }
            }
            if old_ino == ino {
                proof {
                    lemma_remove(before, i as int);
                }
                let _ = links.remove(i);
            }
        },
        None => {},
    }
}

/// Lets a change come out as `fate`.
fn apply_op(links: &mut Vec<Link>, p: &Pending, fate: Fate, Ghost(n): Ghost<int>) -> (r: Option<Violation>)
    requires
        distinct(old(links)@),
        links_below(old(links)@, n),
        p.below(n),
    ensures
        distinct(final(links)@),
        links_below(final(links)@, n),
        names_of(final(links)@) == outcome(names_of(old(links)@), p@, fate),
{
    if fate == Fate::Drop {
        return None;
    }
    if let Some(spot) = &p.from {
        if fate != Fate::BothNames || p.to.is_none() {
            clear_link(links, spot, p.ino, Ghost(n));
        }
    }
    match &p.to {
        Some(spot) => set_link(links, spot, p.ino, Ghost(n)),
        None => None,
    }
}

/// The inodes other than `dir`.
fn others(v: &Vec<usize>, dir: usize) -> (r: Vec<usize>)
    ensures
        fids(r@) == fids(v@).remove(fid(dir)),
{
    let n = v.len();
    let mut out: Vec<usize> = Vec::new();
    let mut i: usize = 0;
    while i < n
        invariant
            i <= n,
            n == v@.len(),
            forall|x: usize| #[trigger] out@.contains(x) <==> v@.take(i as int).contains(x) && x != dir,
        decreases n - i,
    {
        let x = v[i];
        let ghost before = out@;
        if x != dir {
            out.push(x);
        }
        proof {
            assert forall|y: usize| #[trigger] out@.contains(y) <==> v@.take(i + 1).contains(y) && y != dir by {
                let now = v@.take(i + 1);
                if now.contains(y) {
                    let j = choose|j: int| 0 <= j < now.len() && now[j] == y;
                    if j < i {
                        assert(v@.take(i as int)[j] == y);
                        assert(v@.take(i as int).contains(y));
                    }
                }
                if v@.take(i as int).contains(y) {
                    let j = choose|j: int| 0 <= j < i && v@.take(i as int)[j] == y;
                    assert(now[j] == y);
                }
                assert(now[i as int] == x);
                if x != dir {
                    if out@.contains(y) {
                        let j = choose|j: int| 0 <= j < out@.len() && out@[j] == y;
                        if j < before.len() {
                            assert(before[j] == y);
                            assert(before.contains(y));
                        }
                    }
                    if before.contains(y) {
                        let j = choose|j: int| 0 <= j < before.len() && before[j] == y;
                        assert(out@[j] == y);
                    }
                    assert(out@[before.len() as int] == x);
                }
            }
        }
        i = i + 1;
    }
    proof {
        assert(v@.take(n as int) =~= v@);
        assert forall|id: FileId| #[trigger] fids(out@).contains(id) <==> fids(v@).contains(id) && id != fid(dir) by {
            if fids(out@).contains(id) {
                let j = choose|j: int| 0 <= j < out@.len() && fid(#[trigger] out@[j]) == id;
                assert(out@.contains(out@[j]));
                assert(v@.contains(out@[j]));
                let k = choose|k: int| 0 <= k < v@.len() && v@[k] == out@[j];
                assert(fid(v@[k]) == id);
                if id == fid(dir) {
                    lemma_fid(out@[j], dir);
                }
            }
            if fids(v@).contains(id) && id != fid(dir) {
                let k = choose|k: int| 0 <= k < v@.len() && fid(#[trigger] v@[k]) == id;
                assert(v@.contains(v@[k]));
                assert(out@.contains(v@[k]));
                let j = choose|j: int| 0 <= j < out@.len() && out@[j] == v@[k];
                assert(fid(out@[j]) == id);
            }
        }
        assert(fids(out@) =~= fids(v@).remove(fid(dir)));
    }
    out
}

/// There is nothing left to sync exactly if the list is empty.
proof fn lemma_fids_empty(v: Seq<usize>)
    ensures
        fids(v).is_empty() <==> v.len() == 0,
{
    if v.len() > 0 {
        assert(fid(v[0]) == fid(v[0]));
        assert(fids(v).contains(fid(v[0])));
    } else {
        assert(fids(v) =~= Set::<FileId>::empty());
    }
}

/// The changes, mathematically.
spec fn changes(v: Seq<Pending>) -> Seq<Change> {
    v.map_values(|p: Pending| p@)
}

impl State {
    /// Makes the changes of names in a directory durable.
    fn sync(&mut self, dir: usize)
        requires
            old(self).valid(),
        ensures
            final(self).valid(),
            final(self).cfg == old(self).cfg,
            final(self).nodes@.len() == old(self).nodes@.len(),
            final(self).disk() == old(self).disk().dir_synced(fid(dir)),
    {
        let ghost a = *self;
        let ghost n = self.nodes@.len() as int;
        let m = self.pending.len();
        let mut next: Vec<Pending> = Vec::new();
        let mut i: usize = 0;
        while i < m
            invariant
                i <= m,
                m == self.pending@.len(),
                *self == a,
                n == a.nodes@.len(),
                a.well_typed(),
                next@.len() == i,
                forall|j: int| 0 <= j < i ==> (#[trigger] next@[j]).below(n),
                forall|j: int|
                    0 <= j < i ==> (#[trigger] next@[j])@ == (Change {
                        unsynced: a.pending@[j]@.unsynced.remove(fid(dir)),
                        ..a.pending@[j]@
                    }),
            decreases m - i,
        {
            let mut p = self.pending[i].clone();
            assert(self.pending@[i as int].below(n));
            let left = others(&p.unsynced, dir);
            p.unsynced = left;
            next.push(p);
            i = i + 1;
        }
        let ghost all = without_dir(a.disk().pending, fid(dir));
        assert(changes(next@) =~= all);
        while next.len() > 0 && next[0].unsynced.len() == 0
            invariant
                *self == (State { durable: self.durable, ..a }),
                n == a.nodes@.len(),
                a.well_typed(),
                distinct(self.durable@),
                links_below(self.durable@, n),
                forall|j: int| 0 <= j < next@.len() ==> (#[trigger] next@[j]).below(n),
                settle(names_of(self.durable@), changes(next@)) == settle(names_of(a.durable@), all),
            decreases next@.len(),
        {
            proof {
                lemma_fids_empty(next@[0].unsynced@);
                assert(changes(next@)[0] == next@[0]@);
                assert(next@[0].below(n));
            }
            let ghost before = next@;
            let p = next.remove(0);
            assert(changes(next@) =~= changes(before).drop_first());
            let _ = apply_op(&mut self.durable, &p, Fate::Apply, Ghost(n));
        }
        proof {
            if next@.len() > 0 {
                lemma_fids_empty(next@[0].unsynced@);
                assert(changes(next@)[0] == next@[0]@);
            }
        }
        self.pending = next;
        proof {
            let want = a.disk().dir_synced(fid(dir));
            let b = self.disk();
            assert(b.durable == want.durable);
            assert(b.pending =~= want.pending);
            assert(b.objects =~= want.objects);
            assert(b.saved =~= want.saved);
            assert(b.dirty =~= want.dirty);
            assert(b.shown =~= want.shown);
            assert(b =~= want);
            lemma_tree_only(a.disk(), b);
        }
    }
}

/// The name `k` would be re-used for the object `id` before the removal of another object
/// from it is durable.
pub open spec fn reused(d: Disk, k: Key, id: FileId) -> bool {
    exists|i: int| #[trigger] reused_at(d.pending, i, k, id)
}

/// The `i`-th change removes another object from the name `k`, and is not durable.
pub open spec fn reused_at(pending: Seq<Change>, i: int, k: Key, id: FileId) -> bool {
    0 <= i < pending.len() && !pending[i].unsynced.is_empty() && pending[i].from == Some(k) && pending[i].id != id
}

/// The name that leads to a directory.
pub open spec fn name_of_dir(d: Disk, id: FileId) -> Option<Key> {
    if exists|k: Key| #[trigger] d.names.contains_key(k) && d.names[k] == id {
        Some(choose|k: Key| #[trigger] d.names.contains_key(k) && d.names[k] == id)
    } else {
        None
    }
}

/// Climbing from the directory `dir` reaches `id` within `n` steps.
pub open spec fn within(d: Disk, dir: FileId, id: FileId, n: int) -> bool
    decreases n,
{
    dir == id || (dir != d.root && n > 0 && match name_of_dir(d, dir) {
        Some(k) => within(d, k.dir, id, n - 1),
        None => false,
    })
}

/// A directory that climbing reaches is one that the path goes through.
proof fn lemma_within_passes(d: Disk, p: PathView, id: FileId, n: int)
    requires
        d.well_formed(),
        d.dir_at(p) is Some,
        within(d, d.dir_at(p)->0, id, n),
    ensures
        passes(d, p, id),
    decreases p.len(),
{
    let dir = d.dir_at(p)->0;
    assert(p.take(p.len() as int) =~= p);
    if dir != id {
        let q = p.drop_last();
        lemma_lookup(d, d.resolve(q)->0, p.last());
        let k = d.key_at(p)->0;
        let l = name_of_dir(d, dir)->0;
        assert(d.names.contains_key(k) && d.names[k] == dir);
        assert(d.names.contains_key(l) && d.names[l] == dir);
        assert(k == l);
        lemma_within_passes(d, q, id, n - 1);
        let j = choose|j: int| 0 <= j <= q.len() && #[trigger] d.resolve(q.take(j)) == Some(id);
        assert(q.take(j) =~= p.take(j));
    }
}

/// How far to climb when looking for a directory above another.
pub const CLIMB: u64 = 10_001;

/// One simulated filesystem.
pub struct SimFs {
    state: State,
    budget: Option<u64>,
    calls: u64,
    mutations: u64,
    crashed: bool,
    events: Vec<&'static str>,
    violations: Vec<Violation>,
    stabilized: Option<State>,
}

impl SimFs {
    /// The next counted call will not crash.
    pub closed spec fn up(self) -> bool {
        !self.crashed && (self.budget matches Some(b) ==> self.calls < b)
    }

    /// The filesystem has crashed.
    pub closed spec fn down(self) -> bool {
        self.crashed
    }

    /// The filesystem supports no-replace renames.
    pub closed spec fn noreplace(self) -> bool {
        self.state.cfg.noreplace
    }

    /// No breach of the rules for using names was seen.
    pub closed spec fn clean(self) -> bool {
        self.violations@.len() == 0
    }

    /// There is room for another inode.
    pub open spec fn has_room(self) -> bool {
        self.room() > 0
    }

    /// The identity that the next inode will have.
    pub closed spec fn next_inode(self) -> FileId {
        fid(self.state.nodes.len())
    }

    /// `b` runs as `a` does, and has made `n` more inodes.
    pub open spec fn runs_on(self, b: SimFs, n: int) -> bool {
        &&& b.up() == self.up()
        &&& b.down() == self.down()
        &&& b.serves() == self.serves()
        &&& b.runs() == self.runs()
        &&& b.noreplace() == self.noreplace()
        &&& b.room() + n == self.room()
        &&& b.next_inode() == (FileId { dev: 1, ino: (self.next_inode().ino + n) as u64 })
    }

    /// The tables belong together.
    pub closed spec fn well_typed(self) -> bool {
        self.state.well_typed() && (self.stabilized matches Some(s) ==> s.well_typed())
    }

    /// `b` has counted one more call than `self`, if it was carried out, and one more mutation if
    /// there was one.
    pub open spec fn counts(self, b: SimFs, mutated: bool) -> bool {
        &&& b.calls_made() == (if self.up() {
            one_more(self.calls_made())
        } else {
            self.calls_made()
        })
        &&& b.mutations_made() == (if mutated {
            one_more(self.mutations_made())
        } else {
            self.mutations_made()
        })
    }

    /// Counts a call; fails once the budget is used up.
    fn count(&mut self) -> (r: IoResult<()>)
        ensures
            final(self).state == old(self).state,
            final(self).stabilized == old(self).stabilized,
            final(self).violations == old(self).violations,
            final(self).mutations == old(self).mutations,
            final(self).budget == old(self).budget,
            r is Ok <==> old(self).up(),
            r matches Err(e) ==> e.kind == IoErrorKind::Other && final(self).down(),
            r is Ok ==> !final(self).down(),
            old(self).counts(*final(self), false),
    {
        if self.crashed {
            return Err(fault(IoErrorKind::Other, "simulated crash"));
        }
        if let Some(b) = self.budget {
            if self.calls >= b {
                self.crashed = true;
                return Err(fault(IoErrorKind::Other, "simulated crash"));
            }
        }
        if self.calls < u64::MAX {
            self.calls = self.calls + 1;
        }
        Ok(())
    }
}

impl SimFs {
    /// Notes a namespace mutation, and checks the rule for re-using names.
    fn record(&mut self, spot: Option<(usize, &[u8])>, ino: usize)
        requires
            old(self).state.well_typed(),
        ensures
            final(self).state == old(self).state,
            final(self).stabilized == old(self).stabilized,
            final(self).crashed == old(self).crashed,
            final(self).calls == old(self).calls,
            final(self).mutations == one_more(old(self).mutations),
            final(self).budget == old(self).budget,
            final(self).clean() <==> old(self).clean() && !(spot matches Some(x) && reused(
                old(self).state.disk(),
                Key { dir: fid(x.0), name: x.1@ },
                fid(ino),
            )),
    {
        let ghost start = *self;
        if let Some((dir, name)) = spot {
            let ghost k = Key { dir: fid(dir), name: name@ };
            let ghost d = self.state.disk();
            let n = self.state.pending.len();
            let mut i: usize = 0;
            while i < n
                invariant
                    i <= n,
                    n == self.state.pending@.len(),
                    self.state == start.state,
                    self.stabilized == start.stabilized,
                    self.crashed == start.crashed,
                    self.calls == start.calls,
                    self.budget == start.budget,
                    self.mutations == start.mutations,
                    d == self.state.disk(),
                    k == (Key { dir: fid(dir), name: name@ }),
                    self.clean() <==> start.clean() && forall|j: int|
                        0 <= j < i ==> !#[trigger] reused_at(d.pending, j, k, fid(ino)),
                decreases n - i,
            {
                let p = &self.state.pending[i];
                let mut breach: Option<usize> = None;
                if let Some(from) = &p.from {
                    if p.unsynced.len() > 0 && from.dir == dir && crate::bytes::bytes_eq(&from.name, name) && p.ino != ino {
                        breach = Some(p.ino);
                    }
                }
                proof {
                    lemma_fids_empty(p.unsynced@);
                    assert(d.pending[i as int] == p@);
                    if reused_at(d.pending, i as int, k, fid(ino)) {
                        let from = p.from->0;
                        lemma_fid(from.dir, dir);
                    }
                    if breach is Some && fid(p.ino) == fid(ino) {
                        lemma_fid(p.ino, ino);
                    }
                    assert(breach is Some <==> reused_at(d.pending, i as int, k, fid(ino)));
                }
                if let Some(removed) = breach {
                    let name = vstd::slice::slice_to_vec(name);
                    self.violations.push(Violation::Reused { dir, name, ino, removed });
                }
                i = i + 1;
            }
            assert(reused(d, k, fid(ino)) <==> !(forall|j: int|
                0 <= j < n ==> !#[trigger] reused_at(d.pending, j, k, fid(ino))));
        }
        if self.mutations < u64::MAX {
            self.mutations = self.mutations + 1;
        }
    }

    /// Checks the identity of a parent directory.
    fn check_parent(&self, dir: usize, expect: Option<FileId>) -> (r: IoResult<()>)
        requires
            self.state.well_typed(),
            1 <= dir < self.state.nodes@.len(),
        ensures
            r is Ok <==> (expect matches Some(want) ==> self.state.disk().shows(fid(dir)) == want),
            r matches Err(e) ==> e.kind == IoErrorKind::ParentMismatch,
    {
        match expect {
            Some(want) => {
                if self.state.file_id(dir) != want {
                    Err(parent_mismatch())
                } else {
                    Ok(())
                }
            },
            None => Ok(()),
        }
    }

    /// The directory that holds the name of a directory.
    fn parent_dir(&self, dir: usize) -> (r: Option<usize>)
        requires
            self.state.valid(),
            self.state.disk().is_dir(fid(dir)),
        ensures
            match r {
                Some(x) => 1 <= x < self.state.nodes@.len() && self.state.disk().is_dir(fid(x)) && (name_of_dir(
                    self.state.disk(),
                    fid(dir),
                ) matches Some(k) && k.dir == fid(x)),
                None => name_of_dir(self.state.disk(), fid(dir)) is None,
            },
    {
        let ghost d = self.state.disk();
        let ghost links = self.state.links@;
        let n = self.state.links.len();
        let mut i: usize = 0;
        while i < n
            invariant
                i <= n,
                n == self.state.links@.len(),
                links == self.state.links@,
                self.state.valid(),
                d == self.state.disk(),
                d.is_dir(fid(dir)),
                forall|j: int| 0 <= j < i ==> (#[trigger] links[j]).ino != dir,
            decreases n - i,
        {
            if self.state.links[i].ino == dir {
                proof {
                    lemma_entry(links, i as int);
                    let k = links[i as int].key();
                    assert(d.names.contains_key(k) && d.names[k] == fid(dir));
                    let l = name_of_dir(d, fid(dir))->0;
                    assert(d.names.contains_key(l) && d.names[l] == fid(dir));
                    assert(k == l);
                }
                return Some(self.state.links[i].dir);
            }
            i = i + 1;
        }
        proof {
            if name_of_dir(d, fid(dir)) is Some {
                let l = name_of_dir(d, fid(dir))->0;
                assert(d.names.contains_key(l) && d.names[l] == fid(dir));
                let j = lemma_key(links, l);
                lemma_fid(links[j].ino, dir);
            }
        }
        None
    }

    /// Whether `dir` is the directory `ino` or below it, as far as climbing goes.
    fn is_within(&self, dir: usize, ino: usize) -> (r: bool)
        requires
            self.state.valid(),
            self.state.disk().is_dir(fid(dir)),
        ensures
            r == within(self.state.disk(), fid(dir), fid(ino), CLIMB as int),
    {
        let ghost d = self.state.disk();
        let mut cur: usize = dir;
        let mut left: u64 = CLIMB;
        while cur != ino && cur != 1 && left > 0
            invariant
                self.state.valid(),
                d == self.state.disk(),
                d.is_dir(fid(cur)),
                within(d, fid(dir), fid(ino), CLIMB as int) == within(d, fid(cur), fid(ino), left as int),
            decreases left,
        {
            proof {
                if fid(cur) == fid(ino) {
                    lemma_fid(cur, ino);
                }
                if fid(cur) == fid(1) {
                    lemma_fid(cur, 1);
                }
            }
            match self.parent_dir(cur) {
                Some(x) => {
                    cur = x;
                    left = left - 1;
                },
                None => {
                    return false;
                },
            }
        }
        proof {
            if fid(cur) == fid(ino) {
                lemma_fid(cur, ino);
            }
        }
        cur == ino
    }
}

impl Vfs for SimFs {
    type Guard = ();

    closed spec fn disk(&self) -> Disk {
        self.state.disk()
    }

    closed spec fn valid(&self) -> bool {
        self.state.valid() && (self.stabilized matches Some(s) ==> s.well_typed())
    }

    open spec fn distrusted(&self) -> bool {
        false
    }

    open spec fn cache_key(&self) -> Option<FileId> {
        None
    }

    closed spec fn serves(&self) -> bool {
        !self.crashed && self.budget is None && self.state.cfg.noreplace
    }

    closed spec fn room(&self) -> u64 {
        (usize::MAX - self.state.nodes.len()) as u64
    }

    open spec fn features(&self) -> Features {
        Features { noreplace: self.noreplace(), renumbers: !self.disk().steady, dir_sync: true }
    }

    closed spec fn runs(&self) -> bool {
        !self.crashed && self.budget is None
    }

    proof fn lemma_valid(&self) {
    }

    fn root_id(&self) -> (r: IoResult<FileId>)
        ensures
            r is Ok <==> !self.down(),
    {
        if self.crashed {
            return Err(fault(IoErrorKind::Other, "simulated crash"));
        }
        Ok(self.state.file_id(1))
    }

    fn stat(&self, p: &RelPath) -> (r: IoResult<Option<Meta>>)
        ensures
            r is Ok <== !self.down() && self.disk().resolve(p@) is Some,
            r is Err <== self.down(),
            r matches Err(e) ==> self.down() || e.kind == IoErrorKind::InvalidInput && blocked(
                self.disk(),
                p@.drop_last(),
                e,
            ),
    {
        if self.crashed {
            assert(!self.runs());
            return Err(fault(IoErrorKind::Other, "simulated crash"));
        }
        match self.state.lookup_leaf(p) {
            Ok(Some(ino)) => Ok(Some(self.state.meta(ino))),
            Ok(None) => Ok(None),
            Err(e) => {
                proof {
                    let d = self.disk();
                    let q = p@.drop_last();
                    let j = choose|j: int|
                        0 < j <= q.len() && ((#[trigger] d.resolve(q.take(j))) matches Some(id) && d.objects[id] is Symlink);
                    assert(q.take(j) =~= p@.take(j));
                }
                Err(e)
            },
        }
    }

    fn read_file(&self, p: &RelPath) -> (r: IoResult<Vec<u8>>)
        ensures
            r is Ok <==> !self.down() && self.disk().file_at(p@) is Some,
    {
        if self.crashed {
            assert(!self.runs());
            return Err(fault(IoErrorKind::Other, "simulated crash"));
        }
        match self.state.lookup_leaf(p) {
            Ok(Some(ino)) => {
                proof {
                    self.state.lemma_object(ino);
                }
                match &self.state.nodes[ino] {
                    Node::File { data, .. } => Ok(data.clone()),
                    _ => Err(fault(IoErrorKind::InvalidInput, "not a regular file")),
                }
            },
            Ok(None) => Err(fault(IoErrorKind::NotFound, "no such file")),
            Err(e) => Err(e),
        }
    }

    fn read_dir(&self, p: &RelPath) -> (r: IoResult<Vec<Vec<u8>>>)
        ensures
            r is Ok <==> !self.down() && self.disk().dir_at(p@) is Some,
    {
        if self.crashed {
            return Err(fault(IoErrorKind::Other, "simulated crash"));
        }
        let dir = match self.state.resolve_dir(p) {
            Ok(x) => x,
            Err(e) => return Err(e),
        };
        Ok(self.state.names_in(dir))
    }

    fn create_file(&mut self, p: &RelPath, data: &[u8], mode: Option<u32>) -> (r: IoResult<Meta>)
        ensures
            r is Ok <==> old(self).up() && old(self).has_room() && p@.len() > 0 && old(self).disk().dir_at(
                p@.drop_last(),
            ) is Some && old(self).disk().key_at(p@) is None,
            r is Err ==> final(self).disk() == old(self).disk(),
            !old(self).up() ==> final(self).down(),
    {
        let mode = match mode {
            Some(m) => m,
            None => 0o644,
        };
        self.create(p, Node::File { data: vstd::slice::slice_to_vec(data), mode })
    }

    fn append(&mut self, p: &RelPath, data: &[u8]) -> (r: IoResult<()>)
        ensures
            r is Ok <==> old(self).up() && old(self).disk().file_at(p@) is Some,
            r is Err ==> final(self).disk() == old(self).disk(),
            !old(self).up() ==> final(self).down(),
    {
        match self.count() {
            Ok(_) => {},
            Err(e) => return Err(e),
        }
        match self.state.lookup_leaf(p) {
            Ok(Some(ino)) => {
                proof {
                    self.state.lemma_object(ino);
                }
                if !matches!(self.state.nodes[ino], Node::File { .. }) {
                    return Err(fault(IoErrorKind::InvalidInput, "not a regular file"));
                }
                self.state.extend(ino, data);
                Ok(())
            },
            Ok(None) => Err(fault(IoErrorKind::NotFound, "no such file")),
            Err(e) => Err(e),
        }
    }

    fn mkdir(&mut self, p: &RelPath) -> (r: IoResult<Meta>)
        ensures
            r is Ok <==> old(self).up() && old(self).has_room() && p@.len() > 0 && old(self).disk().dir_at(
                p@.drop_last(),
            ) is Some && old(self).disk().key_at(p@) is None,
            r is Err ==> final(self).disk() == old(self).disk(),
            !old(self).up() ==> final(self).down(),
    {
        self.create(p, Node::Dir { mode: 0o755 })
    }

    fn rename_noreplace(
        &mut self,
        from: &RelPath,
        expect_from_parent: Option<FileId>,
        to: &RelPath,
        expect_to_parent: Option<FileId>,
    ) -> (r: IoResult<()>)
        ensures
            r is Ok <==> old(self).up() && old(self).noreplace() && can_move(
                old(self).disk(),
                from@,
                expect_from_parent,
                to@,
                expect_to_parent,
            ),
            !old(self).up() ==> final(self).down(),
            r matches Err(e) ==> if !old(self).up() {
                e.kind == IoErrorKind::Other
            } else if !old(self).noreplace() {
                e.kind == IoErrorKind::Unsupported
            } else {
                move_fault(old(self).disk(), from@, expect_from_parent, to@, expect_to_parent, e)
            },
            old(self).counts(*final(self), r is Ok),
            final(self).clean() <==> old(self).clean() && !(r is Ok && reused(
                old(self).disk(),
                Key { dir: old(self).disk().dir_at(to@.drop_last())->0, name: to@.last() },
                old(self).disk().names[old(self).disk().key_at(from@)->0],
            )),
    {
        match self.count() {
            Ok(_) => {},
            Err(e) => return Err(e),
        }
        if !self.state.cfg.noreplace {
            return Err(fault(IoErrorKind::Unsupported, "no-replace rename unsupported (EINVAL)"));
        }
        let ghost d = self.state.disk();
        let fdir = match self.state.parent_of(from) {
            Ok(x) => x,
            Err(e) => return Err(e),
        };
        let tdir = match self.state.parent_of(to) {
            Ok(x) => x,
            Err(e) => return Err(e),
        };
        match self.check_parent(fdir, expect_from_parent) {
            Ok(_) => {},
            Err(e) => return Err(e),
        }
        match self.check_parent(tdir, expect_to_parent) {
            Ok(_) => {},
            Err(e) => return Err(e),
        }
        let (fleaf, tleaf) = match (from.file_name(), to.file_name()) {
            (Some(f), Some(t)) => (f, t),
            _ => return Err(fault(IoErrorKind::InvalidInput, "root")),
        };
        let i = match self.state.find(fdir, fleaf) {
            Some(i) => i,
            None => return Err(fault(IoErrorKind::NotFound, "no source")),
        };
        if self.state.find(tdir, tleaf).is_some() {
            return Err(fault(IoErrorKind::AlreadyExists, "destination exists"));
        }
        let ino = self.state.links[i].ino;
        proof {
            self.state.lemma_object(ino);
        }
        // Refuse moving a directory into its own subtree.
        if matches!(self.state.nodes[ino], Node::Dir { .. }) && self.is_within(tdir, ino) {
            proof {
                lemma_within_passes(d, to@.drop_last(), fid(ino), CLIMB as int);
            }
            return Err(fault(IoErrorKind::InvalidInput, "into own subtree"));
        }
        self.record(Some((tdir, tleaf)), ino);
        self.state.move_link(i, tdir, tleaf);
        Ok(())
    }

    fn unlink(&mut self, p: &RelPath, expect_parent: Option<FileId>) -> (r: IoResult<()>)
        ensures
            r is Ok <==> old(self).up() && (old(self).disk().key_at(p@) matches Some(k) && (expect_parent matches Some(
                want,
            ) ==> old(self).disk().shows(k.dir) == want) && !old(self).disk().is_dir(old(self).disk().names[k])),
            !old(self).up() ==> final(self).down(),
    {
        match self.count() {
            Ok(_) => {},
            Err(e) => return Err(e),
        }
        let dir = match self.state.parent_of(p) {
            Ok(x) => x,
            Err(e) => return Err(e),
        };
        let leaf = match p.file_name() {
            Some(x) => x,
            None => return Err(fault(IoErrorKind::InvalidInput, "root")),
        };
        proof {
            if old(self).disk().key_at(p@) is Some {
                lemma_lookup(old(self).disk(), fid(dir), p@.last());
            }
        }
        match self.check_parent(dir, expect_parent) {
            Ok(_) => {},
            Err(e) => return Err(e),
        }
        let i = match self.state.find(dir, leaf) {
            Some(i) => i,
            None => return Err(fault(IoErrorKind::NotFound, "no entry")),
        };
        let ino = self.state.links[i].ino;
        proof {
            self.state.lemma_object(ino);
        }
        if matches!(self.state.nodes[ino], Node::Dir { .. }) {
            return Err(fault(IoErrorKind::IsADirectory, "is a directory"));
        }
        self.record(None, ino);
        self.state.drop_link(i);
        Ok(())
    }

    fn rmdir(&mut self, p: &RelPath) -> (r: IoResult<()>)
        ensures
            r is Ok <==> old(self).up() && (old(self).disk().key_at(p@) matches Some(k) && old(self).disk().is_dir(
                old(self).disk().names[k],
            ) && forall|l: Key| #[trigger]
                old(self).disk().names.contains_key(l) ==> l.dir != old(self).disk().names[k]),
            !old(self).up() ==> final(self).down(),
    {
        match self.count() {
            Ok(_) => {},
            Err(e) => return Err(e),
        }
        let dir = match self.state.parent_of(p) {
            Ok(x) => x,
            Err(e) => return Err(e),
        };
        let leaf = match p.file_name() {
            Some(x) => x,
            None => return Err(fault(IoErrorKind::InvalidInput, "root")),
        };
        let i = match self.state.find(dir, leaf) {
            Some(i) => i,
            None => return Err(fault(IoErrorKind::NotFound, "no entry")),
        };
        let ino = self.state.links[i].ino;
        proof {
            self.state.lemma_object(ino);
        }
        if !matches!(self.state.nodes[ino], Node::Dir { .. }) {
            return Err(fault(IoErrorKind::NotADirectory, "not a directory"));
        }
        if !self.state.is_empty_dir(ino) {
            return Err(fault(IoErrorKind::DirectoryNotEmpty, "not empty"));
        }
        self.record(None, ino);
        self.state.drop_link(i);
        Ok(())
    }

    fn sync_file(&mut self, p: &RelPath) -> (r: IoResult<()>)
        ensures
            r is Ok <==> old(self).up() && old(self).disk().file_at(p@) is Some,
            !old(self).up() ==> final(self).down(),
    {
        match self.count() {
            Ok(_) => {},
            Err(e) => return Err(e),
        }
        match self.state.lookup_leaf(p) {
            Ok(Some(ino)) => {
                proof {
                    self.state.lemma_object(ino);
                }
                if !matches!(self.state.nodes[ino], Node::File { .. }) {
                    return Err(fault(IoErrorKind::InvalidInput, "not a regular file"));
                }
                self.state.save(ino);
                Ok(())
            },
            Ok(None) => Err(fault(IoErrorKind::NotFound, "no such file")),
            Err(e) => Err(e),
        }
    }

    fn sync_dir(&mut self, p: &RelPath) -> (r: IoResult<()>)
        ensures
            r is Ok <==> old(self).up() && old(self).disk().dir_at(p@) is Some,
            !old(self).up() ==> final(self).down(),
    {
        match self.count() {
            Ok(_) => {},
            Err(e) => return Err(e),
        }
        let dir = match self.state.resolve_dir(p) {
            Ok(x) => x,
            Err(e) => return Err(e),
        };
        self.state.sync(dir);
        Ok(())
    }

    fn lock(&self, _exclusive: bool) -> (r: IoResult<()>)
        ensures
            r is Ok <==> !self.down(),
    {
        if self.crashed {
            Err(fault(IoErrorKind::Other, "simulated crash"))
        } else {
            Ok(())
        }
    }

    fn untrusted_fs_type(&self) -> (r: IoResult<Option<&'static str>>)
        ensures
            r matches Ok(None),
    {
        Ok(None)
    }

    fn probe_cache_key(&self) -> (r: Option<FileId>) {
        None
    }

    fn event(&mut self, name: &'static str)
        ensures
            final(self).noted() == old(self).noted().push(name),
            final(self).stable_point() == (if name@ == "stabilized"@ {
                Some(old(self).disk())
            } else {
                old(self).stable_point()
            }),
            final(self).up() == old(self).up(),
            final(self).down() == old(self).down(),
            final(self).noreplace() == old(self).noreplace(),
            final(self).clean() == old(self).clean(),
            final(self).has_room() == old(self).has_room(),
            final(self).calls_made() == old(self).calls_made(),
            final(self).mutations_made() == old(self).mutations_made(),
    {
        if crate::text::str_eq(name, "stabilized") {
            self.stabilized = Some(self.state.copy());
        }
        self.events.push(name);
    }
}

/// A rename is possible: both parents are the expected directories, the source is there, the
/// destination is free, and a directory does not move below itself.
pub open spec fn can_move(
    d: Disk,
    from: PathView,
    from_parent: Option<FileId>,
    to: PathView,
    to_parent: Option<FileId>,
) -> bool {
    &&& to.len() > 0
    &&& d.key_at(from) matches Some(k) && d.dir_at(to.drop_last()) matches Some(dir) && {
        &&& from_parent matches Some(want) ==> d.shows(k.dir) == want
        &&& to_parent matches Some(want) ==> d.shows(dir) == want
        &&& d.lookup(dir, to.last()) is None
        &&& !(d.is_dir(d.names[k]) && within(d, dir, d.names[k], CLIMB as int))
    }
}

/// The path has no parent directory, and the error says why.
pub open spec fn no_parent(d: Disk, p: PathView, e: IoError) -> bool {
    if p.len() == 0 {
        e.kind == IoErrorKind::InvalidInput
    } else {
        d.dir_at(p.drop_last()) is None && blocked(d, p.drop_last(), e)
    }
}

/// Why a rename fails, by the first thing that is wrong: a parent is not there, or is not the
/// expected one; nothing is at the source; something is at the destination; or a directory would be
/// moved into itself.
pub open spec fn move_fault(
    d: Disk,
    from: PathView,
    from_parent: Option<FileId>,
    to: PathView,
    to_parent: Option<FileId>,
    e: IoError,
) -> bool {
    if from.len() == 0 || d.dir_at(from.drop_last()) is None {
        no_parent(d, from, e)
    } else if to.len() == 0 || d.dir_at(to.drop_last()) is None {
        no_parent(d, to, e)
    } else if (from_parent matches Some(want) && d.shows(d.dir_at(from.drop_last())->0) != want) || (to_parent matches Some(
        want,
    ) && d.shows(d.dir_at(to.drop_last())->0) != want) {
        e.kind == IoErrorKind::ParentMismatch
    } else if d.key_at(from) is None {
        e.kind == IoErrorKind::NotFound
    } else if d.key_at(to) is Some {
        e.kind == IoErrorKind::AlreadyExists
    } else {
        e.kind == IoErrorKind::InvalidInput
    }
}

impl SimFs {
    /// Creates an inode at a path.
    fn create(&mut self, p: &RelPath, node: Node) -> (r: IoResult<Meta>)
        requires
            old(self).valid(),
        ensures
            final(self).valid(),
            same_volume(old(self).disk(), final(self).disk()),
            r is Ok <==> old(self).up() && old(self).has_room() && p@.len() > 0 && old(self).disk().dir_at(
                p@.drop_last(),
            ) is Some && old(self).disk().key_at(p@) is None,
            r is Err ==> final(self).disk() == old(self).disk(),
            !old(self).up() ==> final(self).down(),
            r matches Ok(m) ==> m.kind == node@.kind() && (node@ matches Object::File { mode, .. } ==> m.mode == mode)
                && (node@ matches Object::Dir { mode } ==> m.mode == mode) && crate::vfs::created_as(
                old(self).disk(),
                final(self).disk(),
                p@,
                m,
                node@,
            ),
            r matches Err(e) ==> e.kind == IoErrorKind::AlreadyExists ==> old(self).disk().key_at(p@) is Some,
            old(self).up() && old(self).disk().key_at(p@) is Some ==> (r matches Err(e) && e.kind
                == IoErrorKind::AlreadyExists),
            old(self).serves() ==> final(self).serves() && final(self).room() + 1 >= old(self).room(),
            old(self).runs() ==> final(self).runs() && final(self).room() + 1 >= old(self).room(),
            final(self).noreplace() == old(self).noreplace(),
    {
        match self.count() {
            Ok(_) => {},
            Err(e) => return Err(e),
        }
        let ghost a = self.state.disk();
        let dir = match self.state.parent_of(p) {
            Ok(x) => x,
            Err(e) => return Err(e),
        };
        let leaf = match p.file_name() {
            Some(x) => x,
            None => return Err(fault(IoErrorKind::InvalidInput, "root")),
        };
        if self.state.find(dir, leaf).is_some() {
            return Err(fault(IoErrorKind::AlreadyExists, "exists"));
        }
        let ino = self.state.nodes.len();
        if ino == usize::MAX {
            return Err(fault(IoErrorKind::Other, "out of inodes"));
        }
        let ghost object = node@;
        self.record(Some((dir, leaf)), ino);
        let ino = self.state.add_node(dir, leaf, node);
        let m = self.state.meta(ino);
        proof {
            assert(created_at(a, self.state.disk(), p@, fid(ino), object));
        }
        Ok(m)
    }
}

impl State {
    /// The names in a directory.
    fn names_in(&self, dir: usize) -> (r: Vec<Vec<u8>>)
        requires
            self.well_typed(),
        ensures
            lists(self.disk(), fid(dir), crate::path::views(r@)),
    {
        let ghost links = self.links@;
        let ghost d = self.disk();
        let n = self.links.len();
        let mut out: Vec<Vec<u8>> = Vec::new();
        let ghost mut at: Seq<int> = Seq::empty();
        let mut i: usize = 0;
        while i < n
            invariant
                i <= n,
                n == links.len(),
                links == self.links@,
                distinct(links),
                at.len() == out@.len(),
                forall|j: int| 0 <= j < at.len() ==> 0 <= #[trigger] at[j] < i && links[at[j]].dir == dir && out@[j]@
                    == links[at[j]].name@,
                forall|j: int, k: int| 0 <= j < k < at.len() ==> at[j] < at[k],
                forall|x: int| 0 <= x < i && (#[trigger] links[x]).dir == dir ==> at.contains(x),
            decreases n - i,
        {
            let ghost before = at;
            if self.links[i].dir == dir {
                out.push(self.links[i].name.clone());
                proof {
                    at = at.push(i as int);
                    assert(at[before.len() as int] == i);
                }
            }
            proof {
                assert forall|x: int| 0 <= x < i + 1 && (#[trigger] links[x]).dir == dir implies at.contains(x) by {
                    if x < i {
                        assert(before.contains(x));
                        let j = choose|j: int| 0 <= j < before.len() && before[j] == x;
                        assert(at[j] == x);
                    }
                }
            }
            i = i + 1;
        }
        proof {
            let names = crate::path::views(out@);
            assert forall|j: int, k: int| 0 <= j < names.len() && 0 <= k < names.len() && j != k implies names[j]
                != names[k] by {
                assert(at[j] != at[k]);
                if names[j] == names[k] {
                    assert(links[at[j]].key() == links[at[k]].key());
                }
            }
            assert forall|x: Name| #[trigger] names.contains(x) <==> d.names.contains_key(Key { dir: fid(dir), name: x }) by {
                let key = Key { dir: fid(dir), name: x };
                if names.contains(x) {
                    let j = choose|j: int| 0 <= j < names.len() && names[j] == x;
                    lemma_entry(links, at[j]);
                    assert(links[at[j]].key() == key);
                }
                if d.names.contains_key(key) {
                    let l = lemma_key(links, key);
                    lemma_fid(links[l].dir, dir);
                    assert(at.contains(l));
                    let j = choose|j: int| 0 <= j < at.len() && at[j] == l;
                    assert(names[j] == x);
                }
            }
        }
        out
    }

    /// Whether a directory is empty.
    fn is_empty_dir(&self, dir: usize) -> (r: bool)
        requires
            self.well_typed(),
        ensures
            r <==> forall|k: Key| #[trigger] self.disk().names.contains_key(k) ==> k.dir != fid(dir),
    {
        let ghost links = self.links@;
        let n = self.links.len();
        let mut i: usize = 0;
        while i < n
            invariant
                i <= n,
                n == links.len(),
                links == self.links@,
                distinct(links),
                forall|j: int| 0 <= j < i ==> (#[trigger] links[j]).dir != dir,
            decreases n - i,
        {
            if self.links[i].dir == dir {
                proof {
                    lemma_entry(links, i as int);
                    assert(self.disk().names.contains_key(links[i as int].key()));
                }
                return false;
            }
            i = i + 1;
        }
        proof {
            assert forall|k: Key| #[trigger] self.disk().names.contains_key(k) implies k.dir != fid(dir) by {
                let j = lemma_key(links, k);
                if k.dir == fid(dir) {
                    lemma_fid(links[j].dir, dir);
                }
            }
        }
        true
    }

    /// Extends a file.
    fn extend(&mut self, ino: usize, data: &[u8])
        requires
            old(self).valid(),
            1 <= ino < old(self).nodes@.len(),
            old(self).nodes@[ino as int] is File,
        ensures
            final(self).valid(),
            final(self).cfg == old(self).cfg,
            final(self).nodes@.len() == old(self).nodes@.len(),
            final(self).disk() == old(self).disk().appended(fid(ino), data@),
    {
        let ghost a = *self;
        let mut content: Vec<u8> = Vec::new();
        let mut bits: u32 = 0;
        if let Node::File { data: d, mode } = &self.nodes[ino] {
            content = d.clone();
            bits = *mode;
        }
        let ghost before = content@;
        content.extend_from_slice(data);
        assert(content@ =~= before + data@);
        self.nodes.set(ino, Node::File { data: content, mode: bits });
        self.dirty.set(ino, true);
        proof {
            a.lemma_object(ino);
            let want = a.disk().appended(fid(ino), data@);
            let b = self.disk();
            self.lemma_other_inodes(a, ino);
            assert(b.objects =~= want.objects);
            assert(b.dirty =~= want.dirty);
            assert(b.saved =~= want.saved);
            assert(b.shown =~= want.shown);
            assert(b.pending =~= want.pending);
            assert(b =~= want);
            lemma_same_kinds(a.disk(), b);
        }
    }

    /// Makes the content of a file durable.
    fn save(&mut self, ino: usize)
        requires
            old(self).valid(),
            1 <= ino < old(self).nodes@.len(),
            old(self).nodes@[ino as int] is File,
        ensures
            final(self).valid(),
            final(self).cfg == old(self).cfg,
            final(self).nodes@.len() == old(self).nodes@.len(),
            final(self).disk() == old(self).disk().file_synced(fid(ino)),
    {
        let ghost a = *self;
        let mut content: Vec<u8> = Vec::new();
        if let Node::File { data, .. } = &self.nodes[ino] {
            content = data.clone();
        }
        self.saved.set(ino, Some(content));
        self.dirty.set(ino, false);
        proof {
            a.lemma_object(ino);
            let want = a.disk().file_synced(fid(ino));
            let b = self.disk();
            self.lemma_other_inodes(a, ino);
            assert(b.objects =~= want.objects);
            assert(b.dirty =~= want.dirty);
            assert(b.saved =~= want.saved);
            assert(b.shown =~= want.shown);
            assert(b.pending =~= want.pending);
            assert(b =~= want);
            lemma_tree_only(a.disk(), b);
        }
    }

    /// Other identities belong to other inodes.
    proof fn lemma_other_inodes(self, a: State, ino: usize)
        ensures
            forall|id: FileId| #[trigger] is_inode(id, a.nodes@.len() as int) && id != fid(ino) ==> ino_of(id) != ino,
            1 <= ino < a.nodes@.len() ==> is_inode(fid(ino), a.nodes@.len() as int) && ino_of(fid(ino)) == ino,
    {
    }

    /// A copy.
    fn copy(&self) -> (r: State)
        requires
            self.well_typed(),
        ensures
            r.disk() == self.disk(),
            r.cfg == self.cfg,
            r.well_typed(),
            self.valid() ==> r.valid(),
            r.nodes@.len() == self.nodes@.len(),
    {
        let links = copy_links(&self.links);
        let durable = copy_links(&self.durable);
        let n = self.nodes.len();
        let mut nodes: Vec<Node> = Vec::new();
        let mut i: usize = 0;
        while i < n
            invariant
                i <= n,
                n == self.nodes@.len(),
                nodes@.len() == i,
                forall|j: int| 0 <= j < i ==> (#[trigger] nodes@[j])@ == self.nodes@[j]@,
            decreases n - i,
        {
            nodes.push(self.nodes[i].clone());
            i = i + 1;
        }
        let m = self.pending.len();
        let mut pending: Vec<Pending> = Vec::new();
        let mut i: usize = 0;
        while i < m
            invariant
                i <= m,
                m == self.pending@.len(),
                pending@.len() == i,
                forall|j: int| 0 <= j < i ==> (#[trigger] pending@[j])@ == self.pending@[j]@,
                forall|j: int, x: int|
                    0 <= j < i && self.pending@[j].below(x) ==> #[trigger] pending@[j].below(x),
            decreases m - i,
        {
            pending.push(self.pending[i].clone());
            i = i + 1;
        }
        let k = self.saved.len();
        let mut saved: Vec<Option<Vec<u8>>> = Vec::new();
        let mut i: usize = 0;
        while i < k
            invariant
                i <= k,
                k == self.saved@.len(),
                saved@.len() == i,
                forall|j: int| 0 <= j < i ==> same_content(#[trigger] saved@[j], self.saved@[j]),
            decreases k - i,
        {
            match &self.saved[i] {
                Some(data) => {
                    saved.push(Some(data.clone()));
                },
                None => {
                    saved.push(None);
                },
            }
            i = i + 1;
        }
        let r = State {
            cfg: self.cfg,
            links,
            nodes,
            salts: self.salts.clone(),
            durable,
            pending,
            saved,
            dirty: self.dirty.clone(),
        };
        proof {
            assert(r.salts@ =~= self.salts@);
            assert(r.dirty@ =~= self.dirty@);
            assert forall|i: int| 0 <= i < r.pending@.len() implies (#[trigger] r.pending@[i]).below(
                r.nodes@.len() as int,
            ) by {
                assert(self.pending@[i].below(self.nodes@.len() as int));
            }
            assert(r.nodes@[1]@ == self.nodes@[1]@);
            assert(r.well_typed());
            let a = self.disk();
            let b = r.disk();
            assert(b.names == a.names);
            assert(b.durable == a.durable);
            assert(b.objects =~= a.objects);
            assert(b.pending =~= a.pending);
            assert forall|id: FileId| a.saved.contains_key(id) <==> b.saved.contains_key(id) by {
                if is_inode(id, self.nodes@.len() as int) {
                    assert(same_content(r.saved@[ino_of(id)], self.saved@[ino_of(id)]));
                }
            }
            assert forall|id: FileId| #[trigger] a.saved.contains_key(id) implies a.saved[id] == b.saved[id] by {
                assert(same_content(r.saved@[ino_of(id)], self.saved@[ino_of(id)]));
            }
            assert(b.saved =~= a.saved);
            assert(b.dirty =~= a.dirty);
            assert(b.shown =~= a.shown);
            assert(b =~= a);
        }
        r
    }
}

/// The two hold the same content.
spec fn same_content(a: Option<Vec<u8>>, b: Option<Vec<u8>>) -> bool {
    match a {
        Some(x) => b matches Some(y) && x@ == y@,
        None => b is None,
    }
}

/// Whether a tree is well-formed depends on the names and the kinds of objects alone.
proof fn lemma_same_kinds(a: Disk, b: Disk)
    requires
        a.well_formed(),
        b.root == a.root,
        b.folds == a.folds,
        b.names == a.names,
        b.objects.dom() == a.objects.dom(),
        forall|id: FileId| #[trigger] b.is_dir(id) == a.is_dir(id),
    ensures
        b.well_formed(),
{
}

/// What unsynced content may come back as, by `seed`: the old content, the new, the new torn
/// in half, or garbage of the same length.
pub open spec fn data_variant_of(old: Seq<u8>, new: Seq<u8>, seed: u8) -> Seq<u8> {
    let base = if begins_with(new, old) {
        old
    } else {
        Seq::empty()
    };
    let tail = new.skip(base.len() as int);
    if seed % 4 == 0 {
        old
    } else if seed % 4 == 1 {
        new
    } else if seed % 4 == 2 {
        base + tail.take(tail.len() as int / 2)
    } else {
        base + tail.map_values(|b: u8| b ^ 0x5a) + (if tail.len() == 0 {
            seq![0xdeu8, 0xadu8]
        } else {
            Seq::empty()
        })
    }
}

/// What unsynced content comes back as.
fn data_variant(old: &[u8], new: &[u8], seed: u8) -> (r: Vec<u8>)
    ensures
        r@ == data_variant_of(old@, new@, seed),
{
    let grows = starts_with(new, old);
    let skip: usize = if grows {
        old.len()
    } else {
        0
    };
    let ghost base = if begins_with(new@, old@) {
        old@
    } else {
        Seq::empty()
    };
    let kind = seed % 4;
    if kind == 0 {
        return vstd::slice::slice_to_vec(old);
    }
    if kind == 1 {
        return vstd::slice::slice_to_vec(new);
    }
    let tail = vstd::slice::slice_subrange(new, skip, new.len());
    assert(tail@ =~= new@.skip(skip as int));
    let mut out: Vec<u8> = Vec::new();
    if grows {
        out.extend_from_slice(old);
    }
    assert(out@ =~= base);
    if kind == 2 {
        let half = vstd::slice::slice_subrange(tail, 0, tail.len() / 2);
        out.extend_from_slice(half);
        assert(out@ =~= base + tail@.take(tail@.len() as int / 2));
        return out;
    }
    let n = tail.len();
    let mut i: usize = 0;
    while i < n
        invariant
            i <= n,
            n == tail@.len(),
            out@ == base + tail@.take(i as int).map_values(|b: u8| b ^ 0x5a),
        decreases n - i,
    {
        out.push(tail[i] ^ 0x5a);
        assert(tail@.take(i + 1) =~= tail@.take(i as int).push(tail@[i as int]));
        assert(out@ =~= base + tail@.take(i + 1).map_values(|b: u8| b ^ 0x5a));
        i = i + 1;
    }
    assert(tail@.take(n as int) =~= tail@);
    if n == 0 {
        out.push(0xde);
        out.push(0xad);
    }
    assert(out@ =~= data_variant_of(old@, new@, seed));
    out
}

/// How many of the changes a power loss may drop.
pub open spec fn volatile_count(pending: Seq<Change>) -> nat
    decreases pending.len(),
{
    if pending.len() == 0 {
        0
    } else {
        volatile_count(pending.drop_last()) + (if pending.last().unsynced.is_empty() {
            0nat
        } else {
            1nat
        })
    }
}

/// The fates of all changes, given those of the changes that a power loss may drop. Where
/// none is given, a change is dropped.
pub open spec fn fates_for(pending: Seq<Change>, given: Seq<Fate>) -> Seq<Fate>
    decreases pending.len(),
{
    if pending.len() == 0 {
        Seq::empty()
    } else {
        let before = pending.drop_last();
        fates_for(before, given).push(
            if pending.last().unsynced.is_empty() {
                Fate::Apply
            } else if volatile_count(before) < given.len() {
                given[volatile_count(before) as int]
            } else {
                Fate::Drop
            },
        )
    }
}

/// The content of a file after a power loss.
pub open spec fn content_after(d: Disk, id: FileId, seed: u8) -> Seq<u8> {
    let old = if d.saved.contains_key(id) {
        d.saved[id]
    } else {
        Seq::empty()
    };
    if d.dirty.contains(id) {
        data_variant_of(old, d.objects[id]->data, seed)
    } else {
        old
    }
}

/// An object after a power loss.
pub open spec fn object_after(d: Disk, id: FileId, seed: u8) -> Object {
    match d.objects[id] {
        Object::File { mode, .. } => Object::File { data: content_after(d, id, seed), mode },
        o => o,
    }
}

/// The disk after a power loss: the durable names plus what becomes of the pending changes.
pub open spec fn after_loss(d: Disk, given: Seq<Fate>, seed: u8) -> Disk {
    let names = survivors(d.durable, d.pending, fates_for(d.pending, given));
    Disk {
        names,
        durable: names,
        pending: Seq::empty(),
        objects: Map::new(|id: FileId| d.objects.contains_key(id), |id: FileId| object_after(d, id, seed)),
        saved: Map::new(|id: FileId| d.is_file(id), |id: FileId| content_after(d, id, seed)),
        dirty: Set::empty(),
        ..d
    }
}

/// A power loss with possible fates is one that a crash allows.
pub proof fn law_simulated_loss_is_a_power_loss(d: Disk, given: Seq<Fate>, seed: u8)
    requires
        possible(d.pending, fates_for(d.pending, given)),
    ensures
        power_lost(d, after_loss(d, given, seed)),
{
    let b = after_loss(d, given, seed);
    assert(b.objects.dom() =~= d.objects.dom());
    assert(lost_with(d, b, fates_for(d.pending, given)));
}

impl State {
    /// The state after a power loss, and the breaches that came to light.
    fn lose_power(&self, given: &[Fate], seed: u8) -> (r: (State, Vec<Violation>))
        requires
            self.well_typed(),
        ensures
            r.0.well_typed(),
            r.0.cfg == self.cfg,
            r.0.nodes@.len() == self.nodes@.len(),
            r.0.disk() == after_loss(self.disk(), given@, seed),
    {
        let ghost d = self.disk();
        let ghost n = self.nodes@.len() as int;
        let mut found: Vec<Violation> = Vec::new();
        let mut links = copy_links(&self.durable);
        let m = self.pending.len();
        let mut next: usize = 0;
        let mut i: usize = 0;
        assert(d.pending.take(0) =~= Seq::<Change>::empty());
        while i < m
            invariant
                i <= m,
                m == self.pending@.len(),
                m == d.pending.len(),
                d == self.disk(),
                n == self.nodes@.len(),
                self.well_typed(),
                distinct(links@),
                links_below(links@, n),
                next <= i,
                next == volatile_count(d.pending.take(i as int)),
                names_of(links@) == survivors(
                    d.durable,
                    d.pending.take(i as int),
                    fates_for(d.pending.take(i as int), given@),
                ),
            decreases m - i,
        {
            let p = &self.pending[i];
            assert(self.pending@[i as int].below(n));
            let ghost now = d.pending.take(i + 1);
            proof {
                assert(now.drop_last() =~= d.pending.take(i as int));
                assert(now.last() == p@);
                lemma_fids_empty(p.unsynced@);
            }
            let fate = if p.unsynced.len() == 0 {
                Fate::Apply
            } else {
                let f = if next < given.len() {
                    given[next]
                } else {
                    Fate::Drop
                };
                next = next + 1;
                f
            };
            proof {
                let all = fates_for(now, given@);
                assert(all.last() == fate);
                assert(all.drop_last() =~= fates_for(d.pending.take(i as int), given@));
            }
            match apply_op(&mut links, p, fate, Ghost(n)) {
                Some(v) => {
                    found.push(v);
                },
                None => {},
            }
            i = i + 1;
        }
        assert(d.pending.take(m as int) =~= d.pending);
        let k = self.nodes.len();
        let mut nodes: Vec<Node> = Vec::new();
        let mut saved: Vec<Option<Vec<u8>>> = Vec::new();
        let mut dirty: Vec<bool> = Vec::new();
        let mut i: usize = 0;
        while i < k
            invariant
                i <= k,
                k == self.nodes@.len(),
                d == self.disk(),
                self.well_typed(),
                nodes@.len() == i,
                saved@.len() == i,
                dirty@.len() == i,
                forall|j: int| 0 <= j < i ==> !#[trigger] dirty@[j],
                forall|j: int|
                    1 <= j < i ==> (#[trigger] nodes@[j])@ == object_after(d, fid(j as usize), seed),
                forall|j: int|
                    1 <= j < i ==> match #[trigger] saved@[j] {
                        Some(x) => self.nodes@[j] is File && x@ == content_after(d, fid(j as usize), seed),
                        None => !(self.nodes@[j] is File),
                    },
            decreases k - i,
        {
            proof {
                if i >= 1 {
                    self.lemma_object(i);
                    self.lemma_other_inodes(*self, i);
                }
            }
            match &self.nodes[i] {
                Node::File { data, mode } => {
                    let none: Vec<u8> = Vec::new();
                    assert(none@ =~= Seq::<u8>::empty());
                    let before: &Vec<u8> = match &self.saved[i] {
                        Some(x) => x,
                        None => &none,
                    };
                    let after = if self.dirty[i] {
                        data_variant(before, data, seed)
                    } else {
                        before.clone()
                    };
                    saved.push(Some(after.clone()));
                    nodes.push(Node::File { data: after, mode: *mode });
                },
                Node::Dir { mode } => {
                    saved.push(None);
                    nodes.push(Node::Dir { mode: *mode });
                },
                Node::Symlink => {
                    saved.push(None);
                    nodes.push(Node::Symlink);
                },
            }
            dirty.push(false);
            i = i + 1;
        }
        let durable = copy_links(&links);
        let r = State {
            cfg: self.cfg,
            links,
            nodes,
            salts: self.salts.clone(),
            durable,
            pending: Vec::new(),
            saved,
            dirty,
        };
        proof {
            assert(r.salts@ =~= self.salts@);
            self.lemma_object(1);
            assert(r.nodes@[1]@ == object_after(d, fid(1), seed));
            let want = after_loss(d, given@, seed);
            let b = r.disk();
            assert forall|id: FileId| is_inode(id, n) implies fid(ino_of(id) as usize) == id by {
            }
            assert forall|id: FileId| is_inode(id, n) implies #[trigger] b.objects[id] == want.objects[id] by {
                assert(r.nodes@[ino_of(id)]@ == object_after(d, fid(ino_of(id) as usize), seed));
            }
            assert(b.objects =~= want.objects);
            assert forall|id: FileId| b.saved.contains_key(id) <==> want.saved.contains_key(id) by {
                if is_inode(id, n) {
                    self.lemma_object(ino_of(id) as usize);
                    assert(r.saved@[ino_of(id)] is Some <==> self.nodes@[ino_of(id)] is File);
                }
            }
            assert forall|id: FileId| #[trigger] b.saved.contains_key(id) implies b.saved[id] == want.saved[id] by {
                assert(r.saved@[ino_of(id)]->0@ == content_after(d, fid(ino_of(id) as usize), seed));
            }
            assert(b.saved =~= want.saved);
            assert(b.dirty =~= want.dirty);
            assert(b.shown =~= want.shown);
            assert(b.pending =~= want.pending);
            assert(b =~= want);
        }
        (r, found)
    }
}

/// The names are copied, so that the two lists hold the same.
fn copy_violations(v: &Vec<Violation>) -> (r: Vec<Violation>)
    ensures
        r@.len() == v@.len(),
{
    let n = v.len();
    let mut out: Vec<Violation> = Vec::new();
    let mut i: usize = 0;
    while i < n
        invariant
            i <= n,
            n == v@.len(),
            out@.len() == i,
        decreases n - i,
    {
        out.push(v[i].clone());
        i = i + 1;
    }
    out
}

impl SimFs {
    /// A filesystem that holds a state, alive and without a budget.
    fn from_state(state: State, violations: Vec<Violation>) -> (r: SimFs)
        requires
            state.well_typed(),
        ensures
            r.state == state,
            r.well_typed(),
            r.up(),
            r.clean() <==> violations@.len() == 0,
            r.budget is None,
            r.calls == 0,
            r.mutations == 0,
            r.events@.len() == 0,
            r.stabilized is None,
    {
        SimFs {
            state,
            budget: None,
            calls: 0,
            mutations: 0,
            crashed: false,
            events: Vec::new(),
            violations,
            stabilized: None,
        }
    }

    /// Calls counted so far (mutations and syncs).
    pub closed spec fn calls_made(self) -> u64 {
        self.calls
    }

    /// Namespace mutations so far.
    pub closed spec fn mutations_made(self) -> u64 {
        self.mutations
    }

    /// The milestones noted so far.
    pub closed spec fn noted(self) -> Seq<&'static str> {
        self.events@
    }

    /// The disk when recovery reported that it had stabilized, if it did.
    pub closed spec fn stable_point(self) -> Option<Disk> {
        match self.stabilized {
            Some(s) => Some(s.disk()),
            None => None,
        }
    }

    /// An empty filesystem.
    pub fn new(cfg: SimConfig) -> (r: SimFs)
        ensures
            r.valid(),
            r.up(),
            r.clean(),
            r.noreplace() == cfg.noreplace,
            r.serves() == cfg.noreplace,
            r.runs(),
            r.room() == usize::MAX - 2,
            r.next_inode() == (FileId { dev: 1, ino: 2 }),
            r.disk().root == (FileId { dev: 1, ino: 1 }),
            r.disk().names == Map::<Key, FileId>::empty(),
            r.disk().durable == Map::<Key, FileId>::empty(),
            r.disk().pending == Seq::<Change>::empty(),
            r.disk().folds == cfg.case_insensitive,
            r.disk().steady == cfg.stable_ids,
            r.disk().weak == (cfg.profile == Profile::Weak),
    {
        SimFs::from_state(State::new(cfg), Vec::new())
    }

    /// Allows `n` more counted calls (mutations and syncs), then crashes.
    pub fn crash_after(&mut self, n: u64)
        ensures
            final(self).disk() == old(self).disk(),
            old(self).valid() ==> final(self).valid(),
            final(self).up() <==> !old(self).down() && (n > 0 && old(self).calls_made() < u64::MAX),
            final(self).down() == old(self).down(),
            final(self).calls_made() == old(self).calls_made(),
    {
        self.budget = Some(
            if n > u64::MAX - self.calls {
                u64::MAX
            } else {
                self.calls + n
            },
        );
    }

    /// Number of counted calls (mutations and syncs) so far.
    pub fn calls(&self) -> (r: u64)
        ensures
            r == self.calls_made(),
    {
        self.calls
    }

    /// Number of namespace mutations so far.
    pub fn mutations(&self) -> (r: u64)
        ensures
            r == self.mutations_made(),
    {
        self.mutations
    }

    /// Whether the filesystem has crashed.
    pub fn crashed(&self) -> (r: bool)
        ensures
            r == self.down(),
    {
        self.crashed
    }

    /// The milestones noted so far.
    pub fn events(&self) -> (r: &Vec<&'static str>)
        ensures
            r@ == self.noted(),
    {
        &self.events
    }

    /// Forgets the milestones noted so far.
    pub fn clear_events(&mut self)
        ensures
            final(self).noted() == Seq::<&'static str>::empty(),
            final(self).disk() == old(self).disk(),
            old(self).valid() ==> final(self).valid(),
    {
        self.events = Vec::new();
        assert(self.events@ =~= Seq::<&'static str>::empty());
    }

    /// Breaches of the rules for using names detected so far (must stay empty).
    pub fn violations(&self) -> (r: &Vec<Violation>)
        ensures
            r@.len() == 0 <==> self.clean(),
    {
        &self.violations
    }

    /// The simulated state, for printing.
    pub fn state(&self) -> (r: &State)
        ensures
            r.disk() == self.disk(),
    {
        &self.state
    }

    /// Pending changes that a power loss may drop, and whether each may persist as both names.
    pub fn volatile_ops(&self) -> (r: Vec<bool>)
        requires
            self.well_typed(),
        ensures
            r@ == volatile_list(self.disk().pending),
    {
        let ghost all = self.state.disk().pending;
        let n = self.state.pending.len();
        let mut out: Vec<bool> = Vec::new();
        let mut i: usize = 0;
        assert(all.take(0) =~= Seq::<Change>::empty());
        while i < n
            invariant
                i <= n,
                n == all.len(),
                n == self.state.pending@.len(),
                all == self.state.disk().pending,
                out@ == volatile_list(all.take(i as int)),
            decreases n - i,
        {
            let p = &self.state.pending[i];
            proof {
                let now = all.take(i + 1);
                assert(now.drop_last() =~= all.take(i as int));
                assert(now.last() == p@);
                lemma_fids_empty(p.unsynced@);
            }
            if p.unsynced.len() > 0 {
                out.push(p.both);
            }
            i = i + 1;
        }
        assert(all.take(n as int) =~= all);
        out
    }

    /// The process dies; the kernel (and its caches) survive. Returns a fresh handle.
    pub fn process_kill(&self) -> (r: SimFs)
        requires
            self.well_typed(),
        ensures
            r.disk() == self.disk(),
            r.well_typed(),
            self.valid() ==> r.valid(),
            r.up(),
            r.clean() == self.clean(),
            r.noreplace() == self.noreplace(),
            r.serves() == self.noreplace(),
            r.runs(),
            r.room() == self.room(),
            r.next_inode() == self.next_inode(),
            r.calls_made() == self.calls_made(),
            r.mutations_made() == self.mutations_made(),
            r.stable_point() is None,
    {
        let mut events: Vec<&'static str> = Vec::new();
        let n = self.events.len();
        let mut i: usize = 0;
        while i < n
            invariant
                i <= n,
                n == self.events@.len(),
            decreases n - i,
        {
            events.push(self.events[i]);
            i = i + 1;
        }
        SimFs {
            state: self.state.copy(),
            budget: None,
            calls: self.calls,
            mutations: self.mutations,
            crashed: false,
            events,
            violations: copy_violations(&self.violations),
            stabilized: None,
        }
    }

    /// Power loss: the durable names plus the given fates for each volatile change (in the
    /// order of [`Self::volatile_ops`]); unsynced file data takes variant `data_seed`.
    pub fn power_loss(&self, fates: &[Fate], data_seed: u8) -> (r: SimFs)
        requires
            self.well_typed(),
        ensures
            r.disk() == after_loss(self.disk(), fates@, data_seed),
            r.well_typed(),
            r.disk().well_formed() ==> r.valid(),
            r.up(),
            r.clean() ==> self.clean(),
            r.noreplace() == self.noreplace(),
            r.serves() == self.noreplace(),
            r.runs(),
            r.room() == self.room(),
            r.calls_made() == 0,
            r.mutations_made() == 0,
            r.stable_point() is None,
    {
        let (state, mut found) = self.state.lose_power(fates, data_seed);
        let mut violations = copy_violations(&self.violations);
        violations.append(&mut found);
        SimFs::from_state(state, violations)
    }

    /// The state that a power loss which drops every volatile change would leave.
    pub fn durable(&self) -> (r: SimFs)
        requires
            self.well_typed(),
        ensures
            r.disk() == after_loss(self.disk(), Seq::<Fate>::empty(), 0),
            r.well_typed(),
            r.disk().well_formed() ==> r.valid(),
            r.up(),
            r.serves() == self.noreplace(),
            r.runs(),
    {
        let none: Vec<Fate> = Vec::new();
        assert(none@ =~= Seq::<Fate>::empty());
        self.power_loss(&none, 0)
    }

    /// The durable state at the moment recovery reported that it had stabilized, if it did.
    pub fn durable_at_stabilize(&self) -> (r: Option<SimFs>)
        requires
            self.well_typed(),
        ensures
            match r {
                Some(x) => x.well_typed() && (self.stable_point() matches Some(d) && x.disk() == after_loss(
                    d,
                    Seq::<Fate>::empty(),
                    0,
                )),
                None => self.stable_point() is None,
            },
    {
        match &self.stabilized {
            Some(s) => {
                let none: Vec<Fate> = Vec::new();
                assert(none@ =~= Seq::<Fate>::empty());
                let (state, found) = s.lose_power(&none, 0);
                Some(SimFs::from_state(state, found))
            },
            None => None,
        }
    }
}

/// The changes that a power loss may drop, and whether each may keep both names.
pub open spec fn volatile_list(pending: Seq<Change>) -> Seq<bool>
    decreases pending.len(),
{
    if pending.len() == 0 {
        Seq::empty()
    } else if pending.last().unsynced.is_empty() {
        volatile_list(pending.drop_last())
    } else {
        volatile_list(pending.drop_last()).push(pending.last().both)
    }
}

/// The directory would survive a power loss.
pub open spec fn durable_dir(d: Disk, dir: FileId) -> bool {
    dir == d.root || exists|k: Key| #[trigger] d.durable.contains_key(k) && d.durable[k] == dir
}

/// The name `k` made to lead to `id`, durably if its directory is durable.
pub open spec fn with_name(d: Disk, k: Key, id: FileId) -> Disk {
    Disk {
        names: d.names.insert(k, id),
        durable: if durable_dir(d, k.dir) {
            d.durable.insert(k, id)
        } else {
            d.durable
        },
        ..d
    }
}

/// The new object `id`, durable.
pub open spec fn with_object(d: Disk, id: FileId, object: Object) -> Disk {
    Disk {
        objects: d.objects.insert(id, object),
        saved: match object {
            Object::File { data, .. } => d.saved.insert(id, data),
            _ => d.saved,
        },
        ..d
    }
}

/// Something can be put at `p`: the directory is there, and no other name is in the way.
pub open spec fn can_put(d: Disk, p: PathView) -> bool {
    p.len() > 0 && (d.dir_at(p.drop_last()) matches Some(dir) && (d.lookup(dir, p.last()) matches Some(k) ==> k.name
        == p.last()))
}

/// The name at which `p` would stand.
pub open spec fn place_of(d: Disk, p: PathView) -> Key {
    Key { dir: d.dir_at(p.drop_last())->0, name: p.last() }
}

/// Making a name lead to an object that is not a directory, or has no other name, keeps the
/// names a tree.
proof fn lemma_named_is_tree(a: Disk, k: Key, id: FileId)
    requires
        a.well_formed(),
        a.is_dir(k.dir),
        a.lookup(k.dir, k.name) matches Some(l) ==> l == k,
        a.objects.contains_key(id),
        id != a.root,
        a.is_dir(id) ==> forall|l: Key| #[trigger] a.names.contains_key(l) ==> a.names[l] != id,
    ensures
        with_name(a, k, id).well_formed(),
{
    let b = with_name(a, k, id);
    lemma_lookup(a, k.dir, k.name);
    assert forall|l: Key| #[trigger] b.names.contains_key(l) implies b.is_dir(l.dir) && b.objects.contains_key(b.names[l])
        && b.names[l] != b.root by {
        if l != k {
            assert(a.names.contains_key(l));
        }
    }
    assert forall|x: Key, y: Key|
        #![trigger b.names.contains_key(x), b.names.contains_key(y)]
        b.names.contains_key(x) && b.names.contains_key(y) && b.names[x] == b.names[y] && b.is_dir(
            b.names[x],
        ) implies x == y by {
        assert(x != k ==> a.names.contains_key(x));
        assert(y != k ==> a.names.contains_key(y));
    }
    if b.folds {
        assert forall|x: Key, y: Key|
            #![trigger b.names.contains_key(x), b.names.contains_key(y)]
            b.names.contains_key(x) && b.names.contains_key(y) && x.dir == y.dir && crate::bytes::folded(x.name)
                == crate::bytes::folded(y.name) implies x == y by {
            assert(x != k ==> a.names.contains_key(x));
            assert(y != k ==> a.names.contains_key(y));
        }
    }
}

impl State {
    /// Whether a directory would survive a power loss.
    fn is_durable_dir(&self, dir: usize) -> (r: bool)
        requires
            self.well_typed(),
        ensures
            r == durable_dir(self.disk(), fid(dir)),
    {
        if dir == 1 {
            return true;
        }
        let ghost links = self.durable@;
        let n = self.durable.len();
        let mut i: usize = 0;
        while i < n
            invariant
                i <= n,
                n == links.len(),
                links == self.durable@,
                distinct(links),
                forall|j: int| 0 <= j < i ==> (#[trigger] links[j]).ino != dir,
            decreases n - i,
        {
            if self.durable[i].ino == dir {
                proof {
                    lemma_entry(links, i as int);
                    assert(self.disk().durable.contains_key(links[i as int].key()));
                }
                return true;
            }
            i = i + 1;
        }
        proof {
            let d = self.disk();
            if durable_dir(d, fid(dir)) {
                if fid(dir) == d.root {
                    lemma_fid(dir, 1);
                } else {
                    let k = choose|k: Key| #[trigger] d.durable.contains_key(k) && d.durable[k] == fid(dir);
                    let j = lemma_key(links, k);
                    lemma_fid(links[j].ino, dir);
                }
            }
        }
        false
    }

    /// Makes a name lead to an inode, durably if its directory is durable.
    fn set_name(&mut self, dir: usize, name: &[u8], ino: usize)
        requires
            old(self).valid(),
            1 <= dir < old(self).nodes@.len(),
            1 < ino < old(self).nodes@.len(),
            old(self).disk().is_dir(fid(dir)),
            old(self).disk().lookup(fid(dir), name@) matches Some(k) ==> k.name == name@,
            old(self).disk().is_dir(fid(ino)) ==> forall|l: Key| #[trigger]
                old(self).disk().names.contains_key(l) ==> old(self).disk().names[l] != fid(ino),
        ensures
            final(self).valid(),
            final(self).nodes@.len() == old(self).nodes@.len(),
            final(self).cfg == old(self).cfg,
            final(self).disk() == with_name(old(self).disk(), Key { dir: fid(dir), name: name@ }, fid(ino)),
    {
        let ghost a = *self;
        let ghost n = self.nodes@.len() as int;
        let ghost k = Key { dir: fid(dir), name: name@ };
        proof {
            a.lemma_object(ino);
            lemma_lookup(a.disk(), fid(dir), name@);
            if fid(ino) == fid(1) {
                lemma_fid(ino, 1);
            }
            lemma_named_is_tree(a.disk(), k, fid(ino));
        }
        let spot = Spot { dir, name: vstd::slice::slice_to_vec(name) };
        let lasting = self.is_durable_dir(dir);
        let _ = set_link(&mut self.links, &spot, ino, Ghost(n));
        if lasting {
            let _ = set_link(&mut self.durable, &spot, ino, Ghost(n));
        }
        proof {
            let want = with_name(a.disk(), k, fid(ino));
            let b = self.disk();
            assert(b.names == want.names);
            assert(b.durable == want.durable);
            assert(b.objects =~= want.objects);
            assert(b.saved =~= want.saved);
            assert(b.dirty =~= want.dirty);
            assert(b.shown =~= want.shown);
            assert(b.pending =~= want.pending);
            assert(b =~= want);
        }
    }

    /// Adds a durable inode.
    fn add_object(&mut self, node: Node) -> (r: usize)
        requires
            old(self).valid(),
            old(self).nodes@.len() < usize::MAX,
        ensures
            final(self).valid(),
            final(self).cfg == old(self).cfg,
            r == old(self).nodes@.len(),
            final(self).nodes@.len() == r + 1,
            fresh(old(self).disk(), fid(r)),
            !old(self).disk().objects.contains_key(fid(r)),
            same_but_shown(with_object(old(self).disk(), fid(r), node@), final(self).disk()),
    {
        let ghost a = *self;
        let ghost object = node@;
        let ino = self.nodes.len();
        proof {
            a.lemma_next_is_fresh();
        }
        let content = match &node {
            Node::File { data, .. } => Some(data.clone()),
            _ => None,
        };
        self.nodes.push(node);
        self.salts.push(0);
        self.saved.push(content);
        self.dirty.push(false);
        proof {
            let want = with_object(a.disk(), fid(ino), object);
            let b = self.disk();
            let n = a.nodes@.len() as int;
            assert forall|id: FileId| is_inode(id, n + 1) <==> is_inode(id, n) || id == fid(ino) by {
            }
            assert(b.objects =~= want.objects);
            assert(b.saved =~= want.saved);
            assert(b.dirty =~= want.dirty);
            assert(b.pending =~= want.pending);
            assert forall|k: Key| #[trigger] b.names.contains_key(k) implies b.is_dir(k.dir) && b.objects.contains_key(
                b.names[k],
            ) && b.names[k] != b.root by {
                assert(a.disk().names.contains_key(k));
            }
            assert(b.is_dir(b.root));
            assert forall|x: Key, y: Key|
                #![trigger b.names.contains_key(x), b.names.contains_key(y)]
                b.names.contains_key(x) && b.names.contains_key(y) && b.names[x] == b.names[y] && b.is_dir(
                    b.names[x],
                ) implies x == y by {
                assert(a.disk().names.contains_key(x) && a.disk().names.contains_key(y));
            }
            assert(b.well_formed());
        }
        ino
    }
}

impl SimFs {
    /// Adds something durable at a path.
    fn put(&mut self, path: &[u8], node: Node)
        requires
            old(self).valid(),
            old(self).has_room(),
            can_put(old(self).disk(), segments(path@)),
        ensures
            final(self).valid(),
            old(self).runs_on(*final(self), 1),
            put_at(old(self).disk(), final(self).disk(), segments(path@), old(self).next_inode(), node@),
    {
        let p = RelPath::from_parts(split_slashes(path));
        let ghost a = self.state.disk();
        let ghost object = node@;
        let dir = match self.state.parent_of(&p) {
            Ok(x) => x,
            Err(_) => return,
        };
        let leaf = match p.file_name() {
            Some(x) => x,
            None => return,
        };
        let ino = self.state.add_object(node);
        let ghost b = self.state.disk();
        let ghost k = Key { dir: fid(dir), name: leaf@ };
        proof {
            lemma_lookup(a, fid(dir), leaf@);
            lemma_lookup(b, fid(dir), leaf@);
            assert(b.lookup(fid(dir), leaf@) == a.lookup(fid(dir), leaf@));
            assert(k == place_of(a, p@));
        }
        self.state.set_name(dir, leaf, ino);
        proof {
            assert(same_but_shown(with_name(with_object(a, fid(ino), object), k, fid(ino)), self.state.disk()));
        }
    }

    /// Adds a durable file (test setup).
    pub fn put_file(&mut self, path: &[u8], data: &[u8])
        requires
            old(self).valid(),
            old(self).has_room(),
            can_put(old(self).disk(), segments(path@)),
        ensures
            final(self).valid(),
            old(self).runs_on(*final(self), 1),
            put_at(
                old(self).disk(),
                final(self).disk(),
                segments(path@),
                old(self).next_inode(),
                Object::File { data: data@, mode: 0o644 },
            ),
    {
        self.put(path, Node::File { data: vstd::slice::slice_to_vec(data), mode: 0o644 })
    }

    /// Adds a durable directory (test setup).
    pub fn put_dir(&mut self, path: &[u8])
        requires
            old(self).valid(),
            old(self).has_room(),
            can_put(old(self).disk(), segments(path@)),
        ensures
            final(self).valid(),
            old(self).runs_on(*final(self), 1),
            put_at(old(self).disk(), final(self).disk(), segments(path@), old(self).next_inode(), Object::Dir { mode: 0o755 }),
    {
        self.put(path, Node::Dir { mode: 0o755 })
    }

    /// Adds a durable symlink (test setup).
    pub fn put_symlink(&mut self, path: &[u8])
        requires
            old(self).valid(),
            old(self).has_room(),
            can_put(old(self).disk(), segments(path@)),
        ensures
            final(self).valid(),
            old(self).runs_on(*final(self), 1),
            put_at(old(self).disk(), final(self).disk(), segments(path@), old(self).next_inode(), Object::Symlink),
    {
        self.put(path, Node::Symlink)
    }

    /// Adds a durable hard link `new` to the existing file `existing` (test setup).
    pub fn put_hardlink(&mut self, existing: &[u8], new: &[u8])
        requires
            old(self).valid(),
            can_put(old(self).disk(), segments(new@)),
            old(self).disk().file_at(segments(existing@)) is Some,
        ensures
            final(self).valid(),
            old(self).runs_on(*final(self), 0),
            final(self).disk() == with_name(
                old(self).disk(),
                place_of(old(self).disk(), segments(new@)),
                old(self).disk().file_at(segments(existing@))->0,
            ),
    {
        let source = RelPath::from_parts(split_slashes(existing));
        let target = RelPath::from_parts(split_slashes(new));
        let ino = match self.state.lookup_leaf(&source) {
            Ok(Some(x)) => x,
            _ => return,
        };
        let dir = match self.state.parent_of(&target) {
            Ok(x) => x,
            Err(_) => return,
        };
        let leaf = match target.file_name() {
            Some(x) => x,
            None => return,
        };
        proof {
            self.state.lemma_object(ino);
            if ino == 1 {
                assert(self.state.disk().is_dir(fid(1)));
            }
        }
        self.state.set_name(dir, leaf, ino);
    }

    /// Overwrites a file's content in place, durably (simulates tampering and outside
    /// writers).
    pub fn tamper_file(&mut self, path: &[u8], data: &[u8])
        requires
            old(self).valid(),
            old(self).disk().file_at(segments(path@)) is Some,
        ensures
            final(self).valid(),
            old(self).runs_on(*final(self), 0),
            final(self).disk() == tampered(
                old(self).disk(),
                old(self).disk().file_at(segments(path@))->0,
                data@,
            ),
    {
        let p = RelPath::from_parts(split_slashes(path));
        let ino = match self.state.lookup_leaf(&p) {
            Ok(Some(x)) => x,
            _ => return,
        };
        let ghost a = self.state;
        proof {
            a.lemma_object(ino);
            a.lemma_other_inodes(a, ino);
        }
        let mode = match &self.state.nodes[ino] {
            Node::File { mode, .. } => *mode,
            _ => 0,
        };
        self.state.nodes.set(ino, Node::File { data: vstd::slice::slice_to_vec(data), mode });
        if self.state.saved[ino].is_some() {
            self.state.saved.set(ino, Some(vstd::slice::slice_to_vec(data)));
        }
        proof {
            let want = tampered(a.disk(), fid(ino), data@);
            let b = self.state.disk();
            assert(b.objects =~= want.objects);
            assert(b.saved =~= want.saved);
            assert(b.dirty =~= want.dirty);
            assert(b.shown =~= want.shown);
            assert(b.pending =~= want.pending);
            assert(b =~= want);
            lemma_same_kinds(a.disk(), b);
        }
    }
}

/// `b` is `a` with the new object `id` durably at the path `p`.
pub open spec fn put_at(a: Disk, b: Disk, p: PathView, id: FileId, object: Object) -> bool {
    fresh(a, id) && same_but_shown(with_name(with_object(a, id, object), place_of(a, p), id), b)
}

/// The disk with the content of the file `id` overwritten, also where it is durable.
pub open spec fn tampered(d: Disk, id: FileId, data: Seq<u8>) -> Disk {
    Disk {
        objects: d.objects.insert(id, Object::File { data, mode: d.objects[id]->File_mode }),
        saved: if d.saved.contains_key(id) {
            d.saved.insert(id, data)
        } else {
            d.saved
        },
        ..d
    }
}

/// One entry of a snapshot of a tree.
#[derive(Clone, Debug, PartialEq, Eq)]
pub struct TreeEntry {
    pub kind: Kind,
    pub data: Vec<u8>,
    pub ino: u64,
}

/// One entry of a snapshot, mathematically.
#[verifier::ext_equal]
pub struct TreeEntryView {
    pub kind: Kind,
    pub data: Seq<u8>,
    pub ino: u64,
}

impl View for TreeEntry {
    type V = TreeEntryView;

    open spec fn view(&self) -> TreeEntryView {
        TreeEntryView { kind: self.kind, data: self.data@, ino: self.ino }
    }
}

/// The object that the path leads to from `top`, where every name is stored exactly as the
/// path writes it.
pub open spec fn stored(d: Disk, top: FileId, p: PathView) -> Option<FileId>
    decreases p.len(),
{
    if p.len() == 0 {
        Some(top)
    } else {
        match stored(d, top, p.drop_last()) {
            Some(dir) => if d.names.contains_key(Key { dir, name: p.last() }) {
                Some(d.names[Key { dir, name: p.last() }])
            } else {
                None
            },
            None => None,
        }
    }
}

/// The snapshot entry for an object.
pub open spec fn snapshot_entry(d: Disk, id: FileId) -> TreeEntryView {
    TreeEntryView {
        kind: d.objects[id].kind(),
        data: match d.objects[id] {
            Object::File { data, .. } => data,
            _ => Seq::empty(),
        },
        ino: id.ino,
    }
}

/// Everything that is stored, by path.
pub open spec fn snapshot(d: Disk) -> Map<PathView, TreeEntryView> {
    Map::new(
        |p: PathView| p.len() > 0 && stored(d, d.root, p) is Some,
        |p: PathView| snapshot_entry(d, stored(d, d.root, p)->0),
    )
}

/// The visible tree: everything that is stored outside the private directory.
pub open spec fn visible_tree(d: Disk) -> Map<PathView, TreeEntryView> {
    Map::new(
        |p: PathView| snapshot(d).contains_key(p) && p[0] != private_name(),
        |p: PathView| snapshot(d)[p],
    )
}

/// Everything that is stored in the private directory, by path relative to it.
pub open spec fn private_part(d: Disk) -> Map<PathView, TreeEntryView> {
    Map::new(
        |p: PathView| p.len() > 0 && snapshot(d).contains_key(seq![private_name()] + p),
        |p: PathView| snapshot(d)[seq![private_name()] + p],
    )
}

/// The path ends at the name `k`.
spec fn ends_at(d: Disk, p: PathView, k: Key) -> bool {
    p.len() > 0 && stored(d, d.root, p.drop_last()) == Some(k.dir) && p.last() == k.name
}

/// A path below `n` in `top` is one below what `n` leads to.
proof fn lemma_stored_front(d: Disk, top: FileId, n: Name, x: FileId, p: PathView)
    requires
        d.names.contains_key(Key { dir: top, name: n }),
        d.names[Key { dir: top, name: n }] == x,
    ensures
        stored(d, top, seq![n] + p) == stored(d, x, p),
    decreases p.len(),
{
    let q = seq![n] + p;
    if p.len() == 0 {
        assert(q.drop_last() =~= Seq::<Name>::empty());
        assert(q.last() == n);
        reveal_with_fuel(stored, 2);
    } else {
        assert(q.drop_last() =~= seq![n] + p.drop_last());
        assert(q.last() == p.last());
        lemma_stored_front(d, top, n, x, p.drop_last());
    }
}

/// What is stored at a path is what the path leads to.
proof fn lemma_stored_resolves(d: Disk, p: PathView)
    requires
        d.well_formed(),
        stored(d, d.root, p) is Some,
    ensures
        d.resolve(p) == stored(d, d.root, p),
    decreases p.len(),
{
    if p.len() > 0 {
        lemma_stored_resolves(d, p.drop_last());
        let dir = stored(d, d.root, p.drop_last())->0;
        assert(d.names.contains_key(Key { dir, name: p.last() }));
    }
}

/// A path that ends at `k` begins with a path to the directory `cur`, where `tail` leads from
/// `cur` to `k`.
spec fn climbs(d: Disk, p: PathView, cur: FileId, tail: PathView) -> bool {
    &&& tail.len() <= p.len()
    &&& p.skip(p.len() - tail.len()) == tail
    &&& stored(d, d.root, p.take(p.len() - tail.len())) == Some(cur)
}

impl State {
    /// The path of the `i`-th entry, if it can be reached from the root.
    fn path_of(&self, i: usize) -> (r: Option<RelPath>)
        requires
            self.valid(),
            i < self.links@.len(),
        ensures
            match r {
                Some(p) => ends_at(self.disk(), p@, self.links@[i as int].key()),
                None => forall|p: PathView| !ends_at(self.disk(), p, self.links@[i as int].key()),
            },
    {
        let ghost d = self.disk();
        let ghost links = self.links@;
        let ghost k = links[i as int].key();
        let mut parts: Vec<Vec<u8>> = Vec::new();
        parts.push(self.links[i].name.clone());
        let mut cur = self.links[i].dir;
        let n = self.links.len();
        let mut left: usize = n;
        proof {
            lemma_entry(links, i as int);
            let tail = views(parts@);
            assert(tail =~= seq![k.name]);
            assert(stored(d, fid(cur), tail.drop_last()) == Some(k.dir)) by {
                assert(tail.drop_last() =~= Seq::<Name>::empty());
            }
            assert forall|p: PathView| #[trigger] ends_at(d, p, k) implies climbs(d, p, fid(cur), tail) by {
                assert(p.skip(p.len() - 1) =~= seq![p.last()]);
                assert(p.take(p.len() - 1) =~= p.drop_last());
            }
        }
        while cur != 1
            invariant
                self.valid(),
                d == self.disk(),
                links == self.links@,
                n == links.len(),
                1 <= cur < self.nodes@.len(),
                d.is_dir(fid(cur)),
                left <= n,
                parts@.len() == n - left + 1,
                i < n,
                k == links[i as int].key(),
                views(parts@).last() == k.name,
                stored(d, fid(cur), views(parts@).drop_last()) == Some(k.dir),
                forall|p: PathView| #[trigger] ends_at(d, p, k) ==> climbs(d, p, fid(cur), views(parts@)),
            decreases left,
        {
            let ghost tail = views(parts@);
            if left == 0 {
                proof {
                    assert forall|p: PathView| !ends_at(d, p, k) by {
                        if ends_at(d, p, k) {
                            lemma_entry(links, i as int);
                            assert(stored(d, d.root, p) is Some);
                            lemma_stored_resolves(d, p);
                            crate::tree::lemma_path_length(d, p);
                            lemma_finite(links);
                        }
                    }
                }
                return None;
            }
            let mut j: usize = 0;
            while j < n && self.links[j].ino != cur
                invariant
                    j <= n,
                    n == links.len(),
                    links == self.links@,
                    forall|x: int| 0 <= x < j ==> (#[trigger] links[x]).ino != cur,
                decreases n - j,
            {
                j = j + 1;
            }
            if j == n {
                proof {
                    assert forall|p: PathView| !ends_at(d, p, k) by {
                        if ends_at(d, p, k) {
                            let q = p.take(p.len() - tail.len());
                            if q.len() == 0 {
                                lemma_fid(cur, 1);
                            } else {
                                let dir = stored(d, d.root, q.drop_last())->0;
                                let x = lemma_key(links, Key { dir, name: q.last() });
                                lemma_fid(links[x].ino, cur);
                            }
                        }
                    }
                }
                return None;
            }
            let up = &self.links[j];
            let ghost m = up.name@;
            let ghost at = links[j as int].key();
            parts.insert(0, up.name.clone());
            proof {
                lemma_entry(links, j as int);
                let more = views(parts@);
                assert(more =~= seq![m] + tail);
                assert(more.drop_last() =~= seq![m] + tail.drop_last());
                lemma_stored_front(d, fid(up.dir), m, fid(cur), tail.drop_last());
                assert forall|p: PathView| #[trigger] ends_at(d, p, k) implies climbs(d, p, fid(up.dir), more) by {
                    let q = p.take(p.len() - tail.len());
                    if q.len() == 0 {
                        lemma_fid(cur, 1);
                    } else {
                        let dir = stored(d, d.root, q.drop_last())->0;
                        let l = Key { dir, name: q.last() };
                        assert(d.names.contains_key(l) && d.names[l] == fid(cur));
                        assert(d.names.contains_key(at) && d.names[at] == fid(cur));
                        assert(l == at);
                        assert(p.take(p.len() - more.len()) =~= q.drop_last());
                        assert(p.skip(p.len() - more.len()) =~= seq![q.last()] + p.skip(p.len() - tail.len()));
                    }
                }
            }
            cur = up.dir;
            left = left - 1;
        }
        Some(RelPath::from_parts(parts))
    }

    /// The snapshot entry for an inode.
    fn entry_for(&self, ino: usize) -> (r: TreeEntry)
        requires
            self.valid(),
            1 <= ino < self.nodes@.len(),
        ensures
            r@ == snapshot_entry(self.disk(), fid(ino)),
    {
        proof {
            self.lemma_object(ino);
        }
        match &self.nodes[ino] {
            Node::File { data, .. } => TreeEntry { kind: Kind::File, data: data.clone(), ino: ino as u64 },
            Node::Dir { .. } => {
                let r = TreeEntry { kind: Kind::Dir, data: Vec::new(), ino: ino as u64 };
                assert(r.data@ =~= Seq::<u8>::empty());
                r
            },
            Node::Symlink => {
                let r = TreeEntry { kind: Kind::Symlink, data: Vec::new(), ino: ino as u64 };
                assert(r.data@ =~= Seq::<u8>::empty());
                r
            },
        }
    }

    /// Everything that is stored, by path, in two parts: the visible tree, and what is in the
    /// private directory.
    fn parts(&self) -> (r: (PathMap<TreeEntry>, PathMap<TreeEntry>))
        requires
            self.valid(),
        ensures
            r.0.well_formed(),
            r.0.map() == visible_tree(self.disk()),
            r.1.well_formed(),
            r.1.map() == private_part(self.disk()),
    {
        let ghost d = self.disk();
        let ghost links = self.links@;
        let private = private_dir_name();
        let mut open: PathMap<TreeEntry> = PathMap::new();
        let mut hidden: PathMap<TreeEntry> = PathMap::new();
        let n = self.links.len();
        let mut i: usize = 0;
        while i < n
            invariant
                i <= n,
                n == links.len(),
                links == self.links@,
                d == self.disk(),
                self.valid(),
                private@ == private_name(),
                open.well_formed(),
                hidden.well_formed(),
                forall|p: PathView| #[trigger]
                    open.map().contains_key(p) <==> found_before(d, links, i as int, p) && p[0] != private_name(),
                forall|p: PathView| #[trigger]
                    open.map().contains_key(p) ==> open.map()[p] == snapshot(d)[p],
                forall|p: PathView| #[trigger]
                    hidden.map().contains_key(p) <==> p.len() > 0 && found_before(
                        d,
                        links,
                        i as int,
                        seq![private_name()] + p,
                    ),
                forall|p: PathView| #[trigger]
                    hidden.map().contains_key(p) ==> hidden.map()[p] == snapshot(d)[seq![private_name()] + p],
            decreases n - i,
        {
            let ino = self.links[i].ino;
            let ghost k = links[i as int].key();
            proof {
                lemma_entry(links, i as int);
                assert forall|p: PathView| found_before(d, links, i + 1, p) <==> found_before(d, links, i as int, p)
                    || ends_at(d, p, k) by {
                    lemma_found_more(d, links, i as int, p);
                }
            }
            match self.path_of(i) {
                Some(p) => {
                    proof {
                        assert(stored(d, d.root, p@) == Some(fid(ino)));
                        assert forall|q: PathView| ends_at(d, q, k) implies q == p@ by {
                            lemma_one_path(d, k, p@, q);
                        }
                    }
                    let e = self.entry_for(ino);
                    let first = &p.components()[0];
                    if bytes_eq(first, &private) {
                        if p.depth() > 1 {
                            match p.strip_prefix(&private_dir()) {
                                Some(rest) => {
                                    proof {
                                        assert(p@ =~= seq![private_name()] + rest@);
                                        assert forall|q: PathView| seq![private_name()] + q == p@ implies q == rest@ by {
                                            assert(q =~= (seq![private_name()] + q).skip(1));
                                            assert(rest@ =~= p@.skip(1));
                                        }
                                    }
                                    hidden.insert(rest, e);
                                },
                                None => {
                                    assert(p@ =~= seq![private_name()] + p@.skip(1));
                                    assert(false) by {
                                        lemma_has_prefix(p@);
                                    }
                                },
                            }
                        } else {
                            assert forall|q: PathView| q.len() > 0 implies seq![private_name()] + q != p@ by {
                            }
                        }
                        proof {
                            assert(p@[0] == private_name());
                        }
                    } else {
                        proof {
                            assert forall|q: PathView| seq![private_name()] + q != p@ by {
                                assert((seq![private_name()] + q)[0] == private_name());
                            }
                        }
                        open.insert(p, e);
                    }
                },
                None => {},
            }
            i = i + 1;
        }
        proof {
            assert forall|p: PathView| found_before(d, links, n as int, p) <==> snapshot(d).contains_key(p) by {
                lemma_found_all(d, links, p);
            }
            assert(open.map() =~= visible_tree(d));
            assert(hidden.map() =~= private_part(d));
        }
        (open, hidden)
    }
}

/// A path that begins with the private directory's name has that prefix.
proof fn lemma_has_prefix(p: PathView)
    requires
        p.len() > 1,
        p[0] == private_name(),
    ensures
        p.take(1) == private_root(),
        crate::path::ancestor(private_root(), p),
{
    assert(p.take(1) =~= private_root());
}

/// The path ends at one of the first `n` entries.
spec fn found_before(d: Disk, links: Seq<Link>, n: int, p: PathView) -> bool {
    exists|j: int| 0 <= j < n && ends_at(d, p, (#[trigger] links[j]).key())
}

proof fn lemma_found_more(d: Disk, links: Seq<Link>, n: int, p: PathView)
    requires
        0 <= n < links.len(),
    ensures
        found_before(d, links, n + 1, p) <==> found_before(d, links, n, p) || ends_at(d, p, links[n].key()),
{
    if ends_at(d, p, links[n].key()) {
        assert(found_before(d, links, n + 1, p));
    }
}

/// The paths that end at some entry are those at which something is stored.
proof fn lemma_found_all(d: Disk, links: Seq<Link>, p: PathView)
    requires
        distinct(links),
        d.names == names_of(links),
    ensures
        found_before(d, links, links.len() as int, p) <==> snapshot(d).contains_key(p),
{
    if found_before(d, links, links.len() as int, p) {
        let j = choose|j: int| 0 <= j < links.len() && ends_at(d, p, (#[trigger] links[j]).key());
        lemma_entry(links, j);
    }
    if snapshot(d).contains_key(p) {
        let dir = stored(d, d.root, p.drop_last())->0;
        let j = lemma_key(links, Key { dir, name: p.last() });
        assert(ends_at(d, p, links[j].key()));
    }
}

/// At most one path leads to a directory, so at most one ends at a name.
proof fn lemma_one_path(d: Disk, k: Key, p: PathView, q: PathView)
    requires
        d.well_formed(),
        d.names.contains_key(k),
        ends_at(d, p, k),
        ends_at(d, q, k),
    ensures
        p == q,
{
    lemma_one_way(d, p.drop_last(), q.drop_last());
    assert(p =~= p.drop_last().push(p.last()));
    assert(q =~= q.drop_last().push(q.last()));
}

/// At most one path leads to a directory.
proof fn lemma_one_way(d: Disk, p: PathView, q: PathView)
    requires
        d.well_formed(),
        stored(d, d.root, p) is Some,
        stored(d, d.root, p) == stored(d, d.root, q),
        d.is_dir(stored(d, d.root, p)->0) || p.len() == 0,
    ensures
        p == q,
    decreases p.len() + q.len(),
{
    if p.len() == 0 && q.len() == 0 {
        assert(p =~= q);
    } else if p.len() == 0 || q.len() == 0 {
        let r = if p.len() == 0 {
            q
        } else {
            p
        };
        let dir = stored(d, d.root, r.drop_last())->0;
        assert(d.names.contains_key(Key { dir, name: r.last() }));
    } else {
        let a = stored(d, d.root, p.drop_last())->0;
        let b = stored(d, d.root, q.drop_last())->0;
        assert(d.names.contains_key(Key { dir: a, name: p.last() }));
        assert(d.names.contains_key(Key { dir: b, name: q.last() }));
        assert(Key { dir: a, name: p.last() } == (Key { dir: b, name: q.last() }));
        lemma_one_way(d, p.drop_last(), q.drop_last());
        assert(p =~= p.drop_last().push(p.last()));
        assert(q =~= q.drop_last().push(q.last()));
    }
}

impl SimFs {
    /// The visible tree (without the private directory), by path.
    pub fn tree(&self) -> (r: PathMap<TreeEntry>)
        requires
            self.valid(),
        ensures
            r.well_formed(),
            r.map() == visible_tree(self.disk()),
    {
        self.state.parts().0
    }

    /// Everything in the private directory, by path relative to it.
    pub fn private_tree(&self) -> (r: PathMap<TreeEntry>)
        requires
            self.valid(),
        ensures
            r.well_formed(),
            r.map() == private_part(self.disk()),
    {
        self.state.parts().1
    }

    /// The names in the private directory other than that of the lock file.
    pub fn private_leftovers(&self) -> (r: Vec<Vec<u8>>)
        requires
            self.valid(),
        ensures
            forall|n: Name| #[trigger]
                views(r@).contains(n) <==> private_part(self.disk()).contains_key(seq![n]) && n != lock_name(),
    {
        let all = self.private_tree();
        let lock = lock_bytes();
        let n = all.len();
        let mut out: Vec<Vec<u8>> = Vec::new();
        let mut i: usize = 0;
        while i < n
            invariant
                i <= n,
                n == all.keys().len(),
                all.well_formed(),
                lock@ == lock_name(),
                forall|x: Name| #[trigger]
                    views(out@).contains(x) <==> all.keys().take(i as int).contains(seq![x]) && x != lock_name(),
            decreases n - i,
        {
            let key = all.key(i);
            let ghost before = views(out@);
            let ghost now = all.keys().take(i + 1);
            if key.depth() == 1 {
                let name = &key.components()[0];
                assert(key@ =~= seq![name@]);
                if !bytes_eq(name, &lock) {
                    out.push(name.clone());
                    assert(views(out@) =~= before.push(name@));
                }
            }
            proof {
                assert forall|x: Name| #[trigger] views(out@).contains(x) <==> now.contains(seq![x]) && x != lock_name() by {
                    if now.contains(seq![x]) {
                        let j = choose|j: int| 0 <= j < now.len() && now[j] == seq![x];
                        if j < i {
                            assert(all.keys().take(i as int)[j] == seq![x]);
                            assert(all.keys().take(i as int).contains(seq![x]));
                        } else {
                            assert(key@ == seq![x]);
                            assert(key@[0] == x);
                        }
                    }
                    if all.keys().take(i as int).contains(seq![x]) {
                        let j = choose|j: int| 0 <= j < i && all.keys().take(i as int)[j] == seq![x];
                        assert(now[j] == seq![x]);
                    }
                    assert(now[i as int] == key@);
                    if before.contains(x) {
                        let j = choose|j: int| 0 <= j < before.len() && before[j] == x;
                        assert(views(out@)[j] == x);
                    }
                    if views(out@).contains(x) && !before.contains(x) {
                        let j = choose|j: int| 0 <= j < views(out@).len() && views(out@)[j] == x;
                        assert(j >= before.len());
                        assert(key@ =~= seq![x]);
                    }
                    if key@ == seq![x] && x != lock_name() {
                        assert(key@[0] == x);
                        assert(views(out@)[before.len() as int] == x);
                    }
                }
            }
            i = i + 1;
        }
        proof {
            assert(all.keys().take(n as int) =~= all.keys());
            assert forall|x: Name| #[trigger] views(out@).contains(x) <==> private_part(self.disk()).contains_key(seq![x])
                && x != lock_name() by {
                assert(all.map().contains_key(seq![x]) <==> all.keys().contains(seq![x]));
            }
        }
        out
    }
}

impl SimFs {
    /// Recovers every interrupted transaction on this filesystem.
    pub fn recover(&mut self, opts: &Options, session: &mut Session) -> (r: Result<RecoveryReport>)
        requires
            old(self).valid(),
        ensures
            final(self).valid(),
            same_volume(old(self).disk(), final(self).disk()),
            recovery_outcome(
                old(self).disk(),
                final(self).disk(),
                probe_name(old(session).pid, old(session).nanos),
                false,
                r,
            ),
            old(self).serves() && old(self).disk().resolve(private_root()) is None ==> r is Ok,
            old(self).serves() && probe_passes(*old(self), false, *old(session)) && can_settle(
                old(self).disk(),
                old(self).room(),
            ) ==> r is Ok,
            old(self).serves() && probe_passes(*old(self), false, *old(session)) && cannot_settle(
                old(self).disk(),
            ) ==> (r matches Err(Error::RecoveryRequired { .. })) && spotless(old(self).disk(), final(self).disk()),
            old(self).serves() && probe_passes(*old(self), false, *old(session)) && tidy(old(self).disk()) ==> (r matches Ok(
                report,
            ) && nothing_recovered(report)) && spotless(old(self).disk(), final(self).disk()),
            probe_fails(*old(self), false, *old(session)) ==> (r matches Err(Error::UnsupportedFilesystem { missing })
                && literals(missing@) == shortfall(old(self).features())),
            r is Ok && old(self).disk().resolve(private_root()) is Some && cached(old(session).cache, old(self).cache_key()) is None
                ==> suits(old(self).features()),
            old(self).serves() ==> final(self).serves(),
    {
        crate::recover_on(self, opts, session)
    }

    /// Tells what recovery would do on this filesystem.
    pub fn inspect(&self) -> (r: Result<Inspection>)
        requires
            self.valid(),
        ensures
            r matches Ok(out) ==> inspected(self.disk(), out),
            r matches Err(e) ==> e is Io,
            self.serves() && crate::inspect::can_inspect(self.disk()) ==> r is Ok,
    {
        crate::inspect_on(self)
    }
}

/// `lock`.
pub open spec fn lock_name() -> Name {
    seq![108u8, 111u8, 99u8, 107u8]
}

/// `lock`.
fn lock_bytes() -> (r: Vec<u8>)
    ensures
        r@ == lock_name(),
{
    let r: Vec<u8> = vec![108, 111, 99, 107];
    assert(r@ =~= lock_name());
    r
}

} // verus!
