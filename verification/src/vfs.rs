//! The filesystem abstraction the protocol is written against.
//!
//! Every method takes paths relative to the root. Implementations must resolve them without
//! following symlinks in any component and must never leave the root. What a call does is
//! stated over the model of `disk`: mutating calls are the only ones that change names or
//! content, and sync calls are the only ones that make changes durable.
use vstd::prelude::*;

pub use crate::disk::{FileId, Kind};

use crate::disk::{Change, Disk, Key, Object};
use crate::error::{IoError, IoErrorKind, IoResult};
use crate::path::{parent_of, private_name, views, PathView, RelPath};

verus! {

/// `lstat`-style metadata (never follows a final symlink).
#[derive(Clone, Copy, Debug, PartialEq, Eq, Structural)]
pub struct Meta {
    pub kind: Kind,
    pub id: FileId,
    pub len: u64,
    /// Permission bits (`st_mode & 0o7777`).
    pub mode: u32,
    pub nlink: u64,
}

/// Result of probing a location while also checking the identity of its parent directory.
#[derive(Clone, Copy, Debug, PartialEq, Eq, Structural)]
pub enum Probe {
    /// The parent does not resolve, or resolves to a different directory than expected.
    ParentMismatch,
    Missing,
    Present(Meta),
}

/// The error for a parent directory whose identity is not the recorded one.
#[derive(Clone, Copy, Debug)]
pub struct ParentMismatch;

/// The error for a parent directory whose identity is not the recorded one.
pub fn parent_mismatch() -> (r: IoError)
    ensures
        r.kind == IoErrorKind::ParentMismatch,
{
    IoError::new(IoErrorKind::ParentMismatch, "parent directory identity does not match the journal")
}

/// `m` describes the object `id`.
pub open spec fn describes(d: Disk, id: FileId, m: Meta) -> bool {
    &&& m.id == d.shows(id)
    &&& d.objects.contains_key(id)
    &&& m.kind == d.objects[id].kind()
    &&& d.objects[id] matches Object::File { data, mode } ==> m.len == data.len() && m.mode == mode
    &&& d.objects[id] matches Object::Dir { mode } ==> m.mode == mode
}

/// The change concerns the object `id` or names in it.
pub open spec fn mentions(c: Change, id: FileId) -> bool {
    c.id == id || (c.from matches Some(k) && k.dir == id) || (c.to matches Some(k) && k.dir == id)
}

/// No name leads to `id` or stands in it, now or after a crash.
pub open spec fn fresh(d: Disk, id: FileId) -> bool {
    &&& id != d.root
    &&& forall|k: Key| #[trigger] d.names.contains_key(k) ==> d.names[k] != id && k.dir != id
    &&& forall|k: Key| #[trigger] d.durable.contains_key(k) ==> d.durable[k] != id && k.dir != id
    &&& forall|i: int| 0 <= i < d.pending.len() ==> !mentions(#[trigger] d.pending[i], id)
}

/// The two states belong to one filesystem.
pub open spec fn same_volume(a: Disk, b: Disk) -> bool {
    a.root == b.root && a.folds == b.folds && a.steady == b.steady && a.weak == b.weak
}

/// `b` is `a` but for the identities that objects report where these are not steady.
pub open spec fn same_but_shown(a: Disk, b: Disk) -> bool {
    b == (Disk { shown: b.shown, ..a })
}

/// `b` is `a` with the new object `id` at the path `p`.
pub open spec fn created_at(a: Disk, b: Disk, p: PathView, id: FileId, object: Object) -> bool {
    &&& p.len() > 0
    &&& a.dir_at(p.drop_last()) matches Some(dir) && a.lookup(dir, p.last()) is None && same_but_shown(
        a.created(Key { dir, name: p.last() }, id, object),
        b,
    )
    &&& fresh(a, id)
}

/// `b` is `a` with a new object of this kind at the path `p`, which `m` describes.
pub open spec fn created_as(a: Disk, b: Disk, p: PathView, m: Meta, object: Object) -> bool {
    exists|id: FileId| #[trigger] created_at(a, b, p, id, object) && m.id == b.shows(id)
}

/// `b` is `a` with what was at `from` now at `to`, under the expected parents.
pub open spec fn moved_at(
    a: Disk,
    b: Disk,
    from: PathView,
    from_parent: Option<FileId>,
    to: PathView,
    to_parent: Option<FileId>,
) -> bool {
    &&& to.len() > 0
    &&& a.key_at(from) matches Some(k) && a.dir_at(to.drop_last()) matches Some(dir) && {
        &&& from_parent matches Some(want) ==> a.shows(k.dir) == want
        &&& to_parent matches Some(want) ==> a.shows(dir) == want
        &&& a.lookup(dir, to.last()) is None
        &&& same_but_shown(a.moved(k, Key { dir, name: to.last() }), b)
    }
}

/// `b` is `a` without the name at the path `p`, under the expected parent.
pub open spec fn removed_at(a: Disk, b: Disk, p: PathView, parent: Option<FileId>) -> bool {
    a.key_at(p) matches Some(k) && (parent matches Some(want) ==> a.shows(k.dir) == want) && b
        == a.removed(k)
}

/// `b` is `a` with the file at `p` extended by `data`.
pub open spec fn appended_at(a: Disk, b: Disk, p: PathView, data: Seq<u8>) -> bool {
    a.file_at(p) matches Some(id) && b == a.appended(id, data)
}

/// `b` is `a` with the content of the file at `p` durable.
pub open spec fn file_synced_at(a: Disk, b: Disk, p: PathView) -> bool {
    a.file_at(p) matches Some(id) && b == a.file_synced(id)
}

/// `b` is `a` with the names of the directory at `p` durable.
pub open spec fn dir_synced_at(a: Disk, b: Disk, p: PathView) -> bool {
    a.dir_at(p) matches Some(dir) && b == a.dir_synced(dir)
}

/// No symlink stands on the way to `p`.
pub open spec fn way_clear(d: Disk, p: PathView) -> bool {
    forall|j: int|
        0 < j < p.len() ==> ((#[trigger] d.resolve(p.take(j))) matches Some(id) ==> !(d.objects[id] is Symlink))
}

/// Something can be created at `p`: its parent is a directory, and the name is free.
pub open spec fn free_at(d: Disk, p: PathView) -> bool {
    p.len() > 0 && d.dir_at(p.drop_last()) is Some && d.key_at(p) is None
}

/// What is at `from` can be moved to `to`: both parents are the expected directories, the source
/// is there, the destination is free, and the source is not a directory on the way to it.
pub open spec fn movable(
    d: Disk,
    from: PathView,
    from_parent: Option<FileId>,
    to: PathView,
    to_parent: Option<FileId>,
) -> bool {
    &&& to.len() > 0
    &&& d.key_at(from) matches Some(k) && d.dir_at(to.drop_last()) matches Some(dir) && {
        &&& from_parent matches Some(want) ==> d.shows(k.dir) == want
        &&& to_parent matches Some(want) ==> d.shows(dir) == want
        &&& d.lookup(dir, to.last()) is None
        &&& !(d.is_dir(d.names[k]) && passes(d, to.drop_last(), d.names[k]))
    }
}

/// What is at `from` would be moved to a name that is taken: both parents are the expected
/// directories, and something is at both ends.
pub open spec fn taken(
    d: Disk,
    from: PathView,
    from_parent: Option<FileId>,
    to: PathView,
    to_parent: Option<FileId>,
) -> bool {
    d.key_at(from) matches Some(k) && d.key_at(to) matches Some(l) && {
        &&& from_parent matches Some(want) ==> d.shows(k.dir) == want
        &&& to_parent matches Some(want) ==> d.shows(l.dir) == want
    }
}

/// The object `id` stands on the way to `p`, or is there.
pub open spec fn passes(d: Disk, p: PathView, id: FileId) -> bool {
    exists|j: int| 0 <= j <= p.len() && #[trigger] d.resolve(p.take(j)) == Some(id)
}

/// The name at `p` can be removed as that of something other than a directory: its parent is the
/// expected directory.
pub open spec fn removable(d: Disk, p: PathView, parent: Option<FileId>) -> bool {
    d.key_at(p) matches Some(k) && (parent matches Some(want) ==> d.shows(k.dir) == want) && !d.is_dir(d.names[k])
}

/// An empty directory is at `p`.
pub open spec fn empty_dir_at(d: Disk, p: PathView) -> bool {
    d.key_at(p) matches Some(k) && d.is_dir(d.names[k]) && forall|l: Key| #[trigger]
        d.names.contains_key(l) ==> l.dir != d.names[k]
}

/// The names listed are exactly those in the directory `dir`, each once.
pub open spec fn lists(d: Disk, dir: FileId, names: PathView) -> bool {
    &&& names.no_duplicates()
    &&& forall|n: crate::bytes::Name| #[trigger] names.contains(n) <==> d.names.contains_key(Key { dir, name: n })
}

/// What a filesystem can do.
pub struct Features {
    /// It has a rename that fails if the destination exists.
    pub noreplace: bool,
    /// A rename gives what is moved another identity.
    pub renumbers: bool,
    /// Directories can be synced.
    pub dir_sync: bool,
}

/// The kind of an error that says that a call is not supported.
pub open spec fn says_unsupported(k: IoErrorKind) -> bool {
    k == IoErrorKind::Unsupported || k == IoErrorKind::InvalidInput
}

/// Filesystem primitives.
///
/// `expect_parent` arguments make the implementation verify, on the same directory handle
/// it then mutates through, that the parent is the directory recorded in the journal.
pub trait Vfs: Sized {
    /// Guard for the root's lock; dropping it releases the lock.
    type Guard;

    /// The state of the filesystem. The lock file is not part of it.
    spec fn disk(&self) -> Disk;

    /// The implementation's own invariant.
    spec fn valid(&self) -> bool;

    /// The filesystem is of a type that is not trusted.
    spec fn distrusted(&self) -> bool;

    /// The key under which probes are cached, if they are.
    spec fn cache_key(&self) -> Option<FileId>;

    /// Calls are carried out wherever the disk allows it, now and from here on: none fails for a
    /// reason of the implementation's own, such as a crash or a call that is not supported.
    spec fn serves(&self) -> bool;

    /// How many more objects there is room for, where calls are carried out.
    spec fn room(&self) -> u64;

    /// What the filesystem can do.
    spec fn features(&self) -> Features;

    /// Calls are carried out wherever the disk and the features allow it, now and from here on.
    spec fn runs(&self) -> bool;

    /// A valid filesystem is a tree.
    proof fn lemma_valid(&self)
        requires
            self.valid(),
        ensures
            self.disk().well_formed(),
            self.serves() ==> self.runs() && self.features().noreplace && self.features().dir_sync,
    ;

    /// Identity of the root directory.
    fn root_id(&self) -> (r: IoResult<FileId>)
        requires
            self.valid(),
        ensures
            r matches Ok(id) ==> id == self.disk().shows(self.disk().root),
            self.serves() ==> r is Ok,
    ;

    /// `lstat`. `Ok(None)` if the entry or any parent component does not exist.
    fn stat(&self, p: &RelPath) -> (r: IoResult<Option<Meta>>)
        requires
            self.valid(),
        ensures
            r matches Ok(None) ==> self.disk().resolve(p@) is None,
            r matches Ok(Some(m)) ==> self.disk().resolve(p@) matches Some(id) && describes(self.disk(), id, m),
            self.runs() && way_clear(self.disk(), p@) ==> r is Ok,
            self.serves() && way_clear(self.disk(), p@) ==> r is Ok,
    ;

    /// Reads a regular file (refuses symlinks, FIFOs, devices).
    fn read_file(&self, p: &RelPath) -> (r: IoResult<Vec<u8>>)
        requires
            self.valid(),
        ensures
            r matches Ok(data) ==> self.disk().file_at(p@) matches Some(id) && data@
                == self.disk().objects[id]->data,
            self.serves() && self.disk().file_at(p@) is Some ==> r is Ok,
    ;

    /// Lists the names in a directory (without `.` and `..`).
    fn read_dir(&self, p: &RelPath) -> (r: IoResult<Vec<Vec<u8>>>)
        requires
            self.valid(),
        ensures
            r matches Ok(names) ==> self.disk().dir_at(p@) matches Some(dir) && lists(
                self.disk(),
                dir,
                views(names@),
            ),
            self.serves() && self.disk().dir_at(p@) is Some ==> r is Ok,
    ;

    /// Creates a new regular file exclusively with `data`. Not synced.
    /// `mode` = exact permission bits, or `None` for the default. A call that fails may
    /// leave a file with some content behind.
    fn create_file(&mut self, p: &RelPath, data: &[u8], mode: Option<u32>) -> (r: IoResult<Meta>)
        requires
            old(self).valid(),
        ensures
            final(self).valid(),
            same_volume(old(self).disk(), final(self).disk()),
            final(self).distrusted() == old(self).distrusted() && final(self).cache_key() == old(self).cache_key()
                && final(self).features() == old(self).features(),
            r matches Ok(m) ==> m.kind == Kind::File && (mode matches Some(x)
                ==> m.mode == x) && created_as(
                old(self).disk(),
                final(self).disk(),
                p@,
                m,
                Object::File { data: data@, mode: m.mode },
            ),
            r is Err ==> final(self).disk() == old(self).disk() || exists|id: FileId, object: Object|
                #[trigger] created_at(old(self).disk(), final(self).disk(), p@, id, object),
            r matches Err(e) ==> e.kind == IoErrorKind::AlreadyExists ==> old(self).disk().key_at(p@) is Some && final(self).disk() == old(self).disk(),
            old(self).serves() && old(self).room() > 0 && free_at(old(self).disk(), p@) ==> r is Ok,
            old(self).serves() && old(self).disk().key_at(p@) is Some ==> (r matches Err(e) && e.kind
                == IoErrorKind::AlreadyExists),
            old(self).serves() ==> final(self).serves() && final(self).room() + 1 >= old(self).room(),
            old(self).runs() && old(self).room() > 0 && free_at(old(self).disk(), p@) ==> r is Ok,
            old(self).runs() ==> final(self).runs() && final(self).room() + 1 >= old(self).room(),
    ;

    /// Appends to an existing regular file. Not synced. A call that fails may have written
    /// a part.
    fn append(&mut self, p: &RelPath, data: &[u8]) -> (r: IoResult<()>)
        requires
            old(self).valid(),
        ensures
            final(self).valid(),
            same_volume(old(self).disk(), final(self).disk()),
            final(self).distrusted() == old(self).distrusted() && final(self).cache_key() == old(self).cache_key()
                && final(self).features() == old(self).features(),
            r is Ok ==> appended_at(old(self).disk(), final(self).disk(), p@, data@),
            r is Err ==> final(self).disk() == old(self).disk() || exists|part: Seq<u8>|
                #[trigger] appended_at(old(self).disk(), final(self).disk(), p@, part),
            old(self).serves() && old(self).disk().file_at(p@) is Some ==> r is Ok,
            old(self).serves() ==> final(self).serves() && final(self).room() >= old(self).room(),
            old(self).runs() ==> final(self).runs() && final(self).room() >= old(self).room(),
    ;

    /// Creates a directory (default permissions). Not synced. A call that fails may leave
    /// the directory behind.
    fn mkdir(&mut self, p: &RelPath) -> (r: IoResult<Meta>)
        requires
            old(self).valid(),
        ensures
            final(self).valid(),
            same_volume(old(self).disk(), final(self).disk()),
            final(self).distrusted() == old(self).distrusted() && final(self).cache_key() == old(self).cache_key()
                && final(self).features() == old(self).features(),
            r matches Ok(m) ==> m.kind == Kind::Dir && created_as(
                old(self).disk(),
                final(self).disk(),
                p@,
                m,
                Object::Dir { mode: m.mode },
            ),
            r is Err ==> final(self).disk() == old(self).disk() || exists|id: FileId, object: Object|
                #[trigger] created_at(old(self).disk(), final(self).disk(), p@, id, object),
            old(self).serves() && old(self).room() > 0 && free_at(old(self).disk(), p@) ==> r is Ok,
            old(self).serves() ==> final(self).serves() && final(self).room() + 1 >= old(self).room(),
            old(self).runs() && old(self).room() > 0 && free_at(old(self).disk(), p@) ==> r is Ok,
            old(self).runs() ==> final(self).runs() && final(self).room() + 1 >= old(self).room(),
    ;

    /// Atomic rename that fails if `to` exists (never replaces).
    fn rename_noreplace(
        &mut self,
        from: &RelPath,
        expect_from_parent: Option<FileId>,
        to: &RelPath,
        expect_to_parent: Option<FileId>,
    ) -> (r: IoResult<()>)
        requires
            old(self).valid(),
        ensures
            final(self).valid(),
            same_volume(old(self).disk(), final(self).disk()),
            final(self).distrusted() == old(self).distrusted() && final(self).cache_key() == old(self).cache_key()
                && final(self).features() == old(self).features(),
            r is Ok ==> moved_at(
                old(self).disk(),
                final(self).disk(),
                from@,
                expect_from_parent,
                to@,
                expect_to_parent,
            ),
            r is Err ==> final(self).disk() == old(self).disk(),
            old(self).serves() && movable(old(self).disk(), from@, expect_from_parent, to@, expect_to_parent)
                ==> r is Ok,
            old(self).serves() && taken(old(self).disk(), from@, expect_from_parent, to@, expect_to_parent) ==> (
            r matches Err(e) && e.kind == IoErrorKind::AlreadyExists),
            old(self).serves() ==> final(self).serves() && final(self).room() >= old(self).room(),
            old(self).runs() ==> final(self).runs() && final(self).room() >= old(self).room(),
            !old(self).features().noreplace ==> r is Err,
            old(self).runs() && old(self).features().noreplace && movable(
                old(self).disk(),
                from@,
                expect_from_parent,
                to@,
                expect_to_parent,
            ) ==> r is Ok,
            old(self).runs() && taken(old(self).disk(), from@, expect_from_parent, to@, expect_to_parent) ==> (
            r matches Err(e) && if old(self).features().noreplace {
                e.kind == IoErrorKind::AlreadyExists
            } else {
                says_unsupported(e.kind)
            }),
            !old(self).features().noreplace ==> !(r matches Err(e) && e.kind == IoErrorKind::AlreadyExists),
            r is Ok && old(self).features().renumbers ==> {
                let id = old(self).disk().names[old(self).disk().key_at(from@)->0];
                final(self).disk().shows(id) != old(self).disk().shows(id)
            },
    ;

    /// Removes a non-directory entry (a symlink itself, never its target).
    fn unlink(&mut self, p: &RelPath, expect_parent: Option<FileId>) -> (r: IoResult<()>)
        requires
            old(self).valid(),
        ensures
            final(self).valid(),
            same_volume(old(self).disk(), final(self).disk()),
            final(self).distrusted() == old(self).distrusted() && final(self).cache_key() == old(self).cache_key()
                && final(self).features() == old(self).features(),
            r is Ok ==> removed_at(
                old(self).disk(),
                final(self).disk(),
                p@,
                expect_parent,
            ) && !old(self).disk().is_dir(old(self).disk().names[old(self).disk().key_at(p@)->0]),
            r is Err ==> final(self).disk() == old(self).disk(),
            old(self).serves() && removable(old(self).disk(), p@, expect_parent) ==> r is Ok,
            old(self).serves() ==> final(self).serves() && final(self).room() >= old(self).room(),
            old(self).runs() ==> final(self).runs() && final(self).room() >= old(self).room(),
    ;

    /// Removes an empty directory.
    fn rmdir(&mut self, p: &RelPath) -> (r: IoResult<()>)
        requires
            old(self).valid(),
        ensures
            final(self).valid(),
            same_volume(old(self).disk(), final(self).disk()),
            final(self).distrusted() == old(self).distrusted() && final(self).cache_key() == old(self).cache_key()
                && final(self).features() == old(self).features(),
            r is Ok ==> removed_at(old(self).disk(), final(self).disk(), p@, None) && {
                let id = old(self).disk().names[old(self).disk().key_at(p@)->0];
                &&& old(self).disk().is_dir(id)
                &&& forall|k: Key| #[trigger] old(self).disk().names.contains_key(k) ==> k.dir != id
            },
            r is Err ==> final(self).disk() == old(self).disk(),
            old(self).serves() && empty_dir_at(old(self).disk(), p@) ==> r is Ok,
            old(self).serves() ==> final(self).serves() && final(self).room() >= old(self).room(),
            old(self).runs() ==> final(self).runs() && final(self).room() >= old(self).room(),
    ;

    /// Makes the content of a regular file durable.
    fn sync_file(&mut self, p: &RelPath) -> (r: IoResult<()>)
        requires
            old(self).valid(),
        ensures
            final(self).valid(),
            same_volume(old(self).disk(), final(self).disk()),
            final(self).distrusted() == old(self).distrusted() && final(self).cache_key() == old(self).cache_key()
                && final(self).features() == old(self).features(),
            r is Ok ==> file_synced_at(old(self).disk(), final(self).disk(), p@),
            r is Err ==> final(self).disk() == old(self).disk(),
            old(self).serves() && old(self).disk().file_at(p@) is Some ==> r is Ok,
            old(self).serves() ==> final(self).serves() && final(self).room() >= old(self).room(),
            old(self).runs() ==> final(self).runs() && final(self).room() >= old(self).room(),
    ;

    /// Makes the changes of names in a directory durable.
    fn sync_dir(&mut self, p: &RelPath) -> (r: IoResult<()>)
        requires
            old(self).valid(),
        ensures
            final(self).valid(),
            same_volume(old(self).disk(), final(self).disk()),
            final(self).distrusted() == old(self).distrusted() && final(self).cache_key() == old(self).cache_key()
                && final(self).features() == old(self).features(),
            r is Ok ==> dir_synced_at(old(self).disk(), final(self).disk(), p@),
            r is Err ==> final(self).disk() == old(self).disk(),
            old(self).serves() && old(self).disk().dir_at(p@) is Some ==> r is Ok,
            old(self).serves() ==> final(self).serves() && final(self).room() >= old(self).room(),
            old(self).runs() ==> final(self).runs() && final(self).room() >= old(self).room(),
            !old(self).features().dir_sync ==> r is Err,
            old(self).runs() && old(self).disk().dir_at(p@) is Some ==> if old(self).features().dir_sync {
                r is Ok
            } else {
                r matches Err(e) && says_unsupported(e.kind)
            },
    ;

    /// Takes the root's lock (exclusive or shared). The private directory must exist for an
    /// exclusive lock; a shared lock on a root without one returns a guard that does nothing.
    fn lock(&self, exclusive: bool) -> (r: IoResult<Self::Guard>)
        requires
            self.valid(),
        ensures
            self.serves() && (exclusive ==> self.disk().dir_at(seq![private_name()]) is Some) ==> r is Ok,
            self.runs() && (exclusive ==> self.disk().dir_at(seq![private_name()]) is Some) ==> r is Ok,
    ;

    /// Name of the filesystem type if it is a network or FUSE filesystem that is not trusted.
    fn untrusted_fs_type(&self) -> (r: IoResult<Option<&'static str>>)
        requires
            self.valid(),
        ensures
            r matches Ok(x) ==> (x is Some) == self.distrusted(),
            self.serves() ==> r is Ok,
            self.runs() ==> r is Ok,
    ;

    /// Key for caching capability probes, or `None` to probe every time.
    fn probe_cache_key(&self) -> (r: Option<FileId>)
        requires
            self.valid(),
        ensures
            r == self.cache_key(),
    ;

    /// Stats `p`, but only if its parent is the directory `expect_parent`.
    fn probe(&self, p: &RelPath, expect_parent: FileId) -> (r: IoResult<Probe>)
        requires
            self.valid(),
        ensures
            r matches Ok(Probe::ParentMismatch) ==> !self.disk().dir_shows(parent_of(p@), expect_parent),
            r matches Ok(Probe::Missing) ==> self.disk().dir_shows(parent_of(p@), expect_parent)
                && self.disk().resolve(p@) is None,
            r matches Ok(Probe::Present(m)) ==> self.disk().dir_shows(parent_of(p@), expect_parent)
                && (self.disk().resolve(p@) matches Some(id) && describes(self.disk(), id, m)),
            self.serves() && way_clear(self.disk(), p@) ==> r is Ok,
    {
        let parent = p.parent_or_root();
        proof {
            assert forall|j: int| 0 < j < parent@.len() implies parent@.take(j) == p@.take(j) by {
                assert(parent@.take(j) =~= p@.take(j));
            }
        }
        let here = match self.stat(&parent) {
            Ok(m) => m,
            Err(e) => return Err(e),
        };
        match here {
            Some(m) => {
                if m.kind != Kind::Dir || m.id != expect_parent {
                    return Ok(Probe::ParentMismatch);
                }
            },
            None => return Ok(Probe::ParentMismatch),
        }
        match self.stat(p) {
            Ok(Some(m)) => Ok(Probe::Present(m)),
            Ok(None) => Ok(Probe::Missing),
            Err(e) => Err(e),
        }
    }

    /// Notes a protocol milestone (the simulator records these).
    fn event(&mut self, name: &'static str)
        requires
            old(self).valid(),
        ensures
            final(self).valid(),
            final(self).disk() == old(self).disk(),
            final(self).distrusted() == old(self).distrusted() && final(self).cache_key() == old(self).cache_key()
                && final(self).features() == old(self).features(),
            old(self).serves() ==> final(self).serves() && final(self).room() >= old(self).room(),
            old(self).runs() ==> final(self).runs() && final(self).room() >= old(self).room(),
    ;
}

} // verus!
