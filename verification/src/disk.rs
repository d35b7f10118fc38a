//! The mathematical model of a filesystem: its names, its objects, and what of them would
//! survive a crash.
use vstd::prelude::*;

use crate::bytes::{folded, Name};
use crate::path::PathView;

verus! {

/// Stable identity of a filesystem object: `(st_dev, st_ino)`.
#[derive(Clone, Copy, Debug, PartialEq, Eq, PartialOrd, Ord, Hash, Structural)]
pub struct FileId {
    pub dev: u64,
    pub ino: u64,
}

/// The kind of a filesystem object.
#[derive(Clone, Copy, Debug, PartialEq, Eq, Structural)]
pub enum Kind {
    File,
    Dir,
    Symlink,
    /// FIFO, socket, device.
    Other,
}

/// A name in a directory.
#[verifier::ext_equal]
pub struct Key {
    pub dir: FileId,
    pub name: Name,
}

/// What an object is.
#[verifier::ext_equal]
pub enum Object {
    File { data: Seq<u8>, mode: u32 },
    Dir { mode: u32 },
    Symlink,
    Other,
}

impl Object {
    /// The kind of the object.
    pub open spec fn kind(self) -> Kind {
        match self {
            Object::File { .. } => Kind::File,
            Object::Dir { .. } => Kind::Dir,
            Object::Symlink => Kind::Symlink,
            Object::Other => Kind::Other,
        }
    }
}

/// A change of names that has been made but is not known to be durable: `id` leaves `from`
/// (if it is given) and appears at `to` (if it is given).
#[verifier::ext_equal]
pub struct Change {
    pub from: Option<Key>,
    pub to: Option<Key>,
    pub id: FileId,
    /// The directories that must still be synced before the change is durable.
    pub unsynced: Set<FileId>,
    /// Whether a crash may keep both names.
    pub both: bool,
}

/// How a pending change comes out of a power loss.
#[derive(Clone, Copy, Debug, PartialEq, Eq, Structural)]
pub enum Fate {
    Drop,
    Apply,
    /// The new name is added but the old one is kept.
    BothNames,
}

/// The names after `c` has come out as `fate`.
pub open spec fn outcome(names: Map<Key, FileId>, c: Change, fate: Fate) -> Map<Key, FileId> {
    if fate == Fate::Drop {
        names
    } else {
        let gone = match c.from {
            Some(k) => if (fate != Fate::BothNames || c.to is None) && names.contains_key(k) && names[k] == c.id {
                names.remove(k)
            } else {
                names
            },
            None => names,
        };
        match c.to {
            Some(k) => gone.insert(k, c.id),
            None => gone,
        }
    }
}

/// The state of a filesystem.
#[verifier::ext_equal]
pub struct Disk {
    pub root: FileId,
    /// Name lookups ignore ASCII case.
    pub folds: bool,
    /// Objects report the same identity throughout.
    pub steady: bool,
    /// The identity that an object reports, where identities are not steady.
    pub shown: Map<FileId, FileId>,
    /// A crash may keep both names of a moved non-directory.
    pub weak: bool,
    /// The names as they are now.
    pub names: Map<Key, FileId>,
    /// The objects as they are now.
    pub objects: Map<FileId, Object>,
    /// The names that are known to be durable.
    pub durable: Map<Key, FileId>,
    /// Changes since then, oldest first.
    pub pending: Seq<Change>,
    /// The durable content of files.
    pub saved: Map<FileId, Seq<u8>>,
    /// Files whose content has changed since it was last made durable.
    pub dirty: Set<FileId>,
}

/// `k` is a name in `dir` that differs from `name` at most in ASCII case.
pub open spec fn folds_to(names: Map<Key, FileId>, k: Key, dir: FileId, name: Name) -> bool {
    names.contains_key(k) && k.dir == dir && folded(k.name) == folded(name)
}

/// The stored name that `name` finds in `dir`: the same name, or on a filesystem that
/// ignores case one that differs in case only.
pub open spec fn lookup_in(names: Map<Key, FileId>, folds: bool, dir: FileId, name: Name) -> Option<Key> {
    if names.contains_key(Key { dir, name }) {
        Some(Key { dir, name })
    } else if folds && (exists|k: Key| folds_to(names, k, dir, name)) {
        Some(choose|k: Key| folds_to(names, k, dir, name))
    } else {
        None
    }
}

/// Folds the durable changes at the front of `pending` into `durable`.
pub open spec fn settle(durable: Map<Key, FileId>, pending: Seq<Change>) -> (Map<Key, FileId>, Seq<Change>)
    decreases pending.len(),
{
    if pending.len() > 0 && pending[0].unsynced.is_empty() {
        settle(outcome(durable, pending[0], Fate::Apply), pending.drop_first())
    } else {
        (durable, pending)
    }
}

/// `pending` after the directory `d` has been synced.
pub open spec fn without_dir(pending: Seq<Change>, d: FileId) -> Seq<Change> {
    pending.map_values(|c: Change| Change { unsynced: c.unsynced.remove(d), ..c })
}

impl Disk {
    /// The identity that the object `id` reports.
    pub open spec fn shows(self, id: FileId) -> FileId {
        if self.steady {
            id
        } else {
            self.shown[id]
        }
    }

    /// `id` is a directory.
    pub open spec fn is_dir(self, id: FileId) -> bool {
        self.objects.contains_key(id) && self.objects[id] is Dir
    }

    /// `id` is a regular file.
    pub open spec fn is_file(self, id: FileId) -> bool {
        self.objects.contains_key(id) && self.objects[id] is File
    }

    /// The stored name that `name` finds in `dir`.
    pub open spec fn lookup(self, dir: FileId, name: Name) -> Option<Key> {
        lookup_in(self.names, self.folds, dir, name)
    }

    /// The object that the path leads to.
    pub open spec fn resolve(self, p: PathView) -> Option<FileId>
        decreases p.len(),
    {
        if p.len() == 0 {
            Some(self.root)
        } else {
            match self.resolve(p.drop_last()) {
                Some(d) => if self.is_dir(d) {
                    match self.lookup(d, p.last()) {
                        Some(k) => Some(self.names[k]),
                        None => None,
                    }
                } else {
                    None
                },
                None => None,
            }
        }
    }

    /// The directory that the path leads to.
    pub open spec fn dir_at(self, p: PathView) -> Option<FileId> {
        match self.resolve(p) {
            Some(d) => if self.is_dir(d) {
                Some(d)
            } else {
                None
            },
            None => None,
        }
    }

    /// The path leads to a directory that reports the identity `want`.
    pub open spec fn dir_shows(self, p: PathView, want: FileId) -> bool {
        self.dir_at(p) matches Some(d) && self.shows(d) == want
    }

    /// The regular file that the path leads to.
    pub open spec fn file_at(self, p: PathView) -> Option<FileId> {
        match self.resolve(p) {
            Some(id) => if self.is_file(id) {
                Some(id)
            } else {
                None
            },
            None => None,
        }
    }

    /// The stored name that the path ends at.
    pub open spec fn key_at(self, p: PathView) -> Option<Key> {
        if p.len() == 0 {
            None
        } else {
            match self.dir_at(p.drop_last()) {
                Some(d) => self.lookup(d, p.last()),
                None => None,
            }
        }
    }

    /// There are finitely many names. Every name stands in a directory and leads to an object; the root is a directory
    /// without a name; a directory has at most one name; and on a filesystem that ignores
    /// case no two names in a directory differ in case only.
    pub open spec fn well_formed(self) -> bool {
        &&& self.is_dir(self.root)
        &&& self.names.dom().finite()
        &&& forall|k: Key| #[trigger]
            self.names.contains_key(k) ==> self.is_dir(k.dir) && self.objects.contains_key(self.names[k])
                && self.names[k] != self.root
        &&& forall|k: Key, l: Key|
            #![trigger self.names.contains_key(k), self.names.contains_key(l)]
            self.names.contains_key(k) && self.names.contains_key(l) && self.names[k] == self.names[l]
                && self.is_dir(self.names[k]) ==> k == l
        &&& self.folds ==> forall|k: Key, l: Key|
            #![trigger self.names.contains_key(k), self.names.contains_key(l)]
            self.names.contains_key(k) && self.names.contains_key(l) && k.dir == l.dir && folded(k.name)
                == folded(l.name) ==> k == l
    }

    /// A new object `id` at the name `k`.
    pub open spec fn created(self, k: Key, id: FileId, object: Object) -> Disk {
        Disk {
            names: self.names.insert(k, id),
            objects: self.objects.insert(id, object),
            pending: self.pending.push(
                Change { from: None, to: Some(k), id, unsynced: set![k.dir], both: false },
            ),
            dirty: if object is File {
                self.dirty.insert(id)
            } else {
                self.dirty
            },
            ..self
        }
    }

    /// What is at `from` now stands at `to`.
    pub open spec fn moved(self, from: Key, to: Key) -> Disk {
        let id = self.names[from];
        Disk {
            names: self.names.remove(from).insert(to, id),
            pending: self.pending.push(
                Change {
                    from: Some(from),
                    to: Some(to),
                    id,
                    unsynced: set![from.dir, to.dir],
                    both: self.weak && !self.is_dir(id),
                },
            ),
            ..self
        }
    }

    /// The name `k` is gone.
    pub open spec fn removed(self, k: Key) -> Disk {
        Disk {
            names: self.names.remove(k),
            pending: self.pending.push(
                Change { from: Some(k), to: None, id: self.names[k], unsynced: set![k.dir], both: false },
            ),
            ..self
        }
    }

    /// The file `id` extended by `data`.
    pub open spec fn appended(self, id: FileId, data: Seq<u8>) -> Disk {
        let old = self.objects[id];
        Disk {
            objects: self.objects.insert(
                id,
                Object::File { data: old->data + data, mode: old->File_mode },
            ),
            dirty: self.dirty.insert(id),
            ..self
        }
    }

    /// The content of the file `id` made durable.
    pub open spec fn file_synced(self, id: FileId) -> Disk {
        Disk { saved: self.saved.insert(id, self.objects[id]->data), dirty: self.dirty.remove(id), ..self }
    }

    /// The changes of names in the directory `d` made durable.
    pub open spec fn dir_synced(self, d: FileId) -> Disk {
        let (durable, pending) = settle(self.durable, without_dir(self.pending, d));
        Disk { durable, pending, ..self }
    }
}

} // verus!
