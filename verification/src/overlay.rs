//! The logical layer: which *directory entry* occupies each path once the transaction's
//! operations are applied. Nothing on disk changes before commit.
//!
//! * `placed` holds explicit decisions at view paths (a moved/new entry, or `Absent`).
//!   Paths without an explicit decision inherit from the nearest ancestor: a base
//!   directory's untouched children stay inside it, even when that directory moved.
//! * `detached` holds base entries that no longer sit at their original base path
//!   (moved, replaced or removed), keyed by base path.
//!
//! Equality is identity, never content: a path is unchanged only if the same base entry
//! is still there.
use vstd::prelude::*;

use crate::bytes::{bytes_eq, folded, lower, to_lower, Name};
use crate::disk::{Disk, FileId, Key, Kind, Object};
use crate::error::{Error, IoError, IoErrorKind, Result};
use crate::path::{ancestor, is_component, parent_of, private_path, proper_path, tree_path, views, PathView, RelPath};
use crate::pathmap::{ascending, PathMap};
use crate::text::{decimal, lemma_numeral_digits, lemma_numeral_injective, write_decimal};
use crate::tree::{lemma_lookup, lemma_way_to};
use crate::tree::{alike, listed_in, same_tree};
use crate::vfs::{lists, Vfs};

verus! {

/// Where an entry's inode comes from.
#[derive(Debug)]
pub enum Src {
    /// An existing entry found at base path `origin`.
    Base { origin: RelPath, id: FileId, mode: u32 },
    /// A staged file `staged/b<n>`.
    Blob { n: u64, mode: Option<u32> },
    /// A directory created in this transaction, staged as `staged/d<n>`.
    NewDir { n: u64 },
}

/// The kind of an entry, as far as operations distinguish it.
#[derive(Clone, Copy, Debug, PartialEq, Eq, Structural)]
pub enum EKind {
    File,
    Dir,
    /// Symlink, FIFO, socket or device: may live inside moved/removed directories, but
    /// cannot be operated on directly.
    Special,
}

/// A directory entry.
#[derive(Debug)]
pub struct Entry {
    pub kind: EKind,
    pub src: Src,
}

/// A decision about a path.
#[derive(Debug)]
pub enum Slot {
    Absent,
    Present(Entry),
}

/// A base entry that has left its base path.
#[derive(Clone, Copy, Debug, PartialEq, Eq, Structural)]
pub struct Gone {
    pub id: FileId,
    pub kind: EKind,
}

/// Where an entry comes from, mathematically.
#[verifier::ext_equal]
pub enum SrcView {
    Base { origin: PathView, id: FileId, mode: u32 },
    Blob { n: u64, mode: Option<u32> },
    NewDir { n: u64 },
}

/// A directory entry, mathematically. The permission bits of special files are not modelled.
#[verifier::ext_equal]
pub struct EntryView {
    pub kind: EKind,
    pub src: SrcView,
}

/// A decision, mathematically.
#[verifier::ext_equal]
pub enum SlotView {
    Absent,
    Present(EntryView),
}

impl View for Entry {
    type V = EntryView;

    open spec fn view(&self) -> EntryView {
        EntryView {
            kind: self.kind,
            src: match self.src {
                Src::Base { origin, id, mode } => SrcView::Base {
                    origin: origin@,
                    id,
                    mode: if self.kind == EKind::Special {
                        0
                    } else {
                        mode
                    },
                },
                Src::Blob { n, mode } => SrcView::Blob { n, mode },
                Src::NewDir { n } => SrcView::NewDir { n },
            },
        }
    }
}

impl View for Slot {
    type V = SlotView;

    open spec fn view(&self) -> SlotView {
        match self {
            Slot::Absent => SlotView::Absent,
            Slot::Present(e) => SlotView::Present(e@),
        }
    }
}

impl View for Gone {
    type V = Gone;

    open spec fn view(&self) -> Gone {
        *self
    }
}

impl Clone for Entry {
    fn clone(&self) -> (r: Self)
        ensures
            r@ == self@,
    {
        let src = match &self.src {
            Src::Base { origin, id, mode } => Src::Base { origin: origin.clone(), id: *id, mode: *mode },
            Src::Blob { n, mode } => Src::Blob { n: *n, mode: *mode },
            Src::NewDir { n } => Src::NewDir { n: *n },
        };
        Entry { kind: self.kind, src }
    }
}

impl Clone for Slot {
    fn clone(&self) -> (r: Self)
        ensures
            r@ == self@,
    {
        match self {
            Slot::Absent => Slot::Absent,
            Slot::Present(e) => Slot::Present(e.clone()),
        }
    }
}

/// The logical state of a transaction.
#[derive(Debug)]
pub struct Overlay {
    placed: PathMap<Slot>,
    detached: PathMap<Gone>,
    root_id: FileId,
    case_insensitive: bool,
    next_dir: u64,
}

/// The logical state of a transaction, mathematically.
#[verifier::ext_equal]
pub struct OverlayView {
    pub placed: Map<PathView, SlotView>,
    pub detached: Map<PathView, Gone>,
    pub root_id: FileId,
    pub case_insensitive: bool,
    pub next_dir: u64,
}

impl View for Overlay {
    type V = OverlayView;

    closed spec fn view(&self) -> OverlayView {
        OverlayView {
            placed: self.placed.map(),
            detached: self.detached.map(),
            root_id: self.root_id,
            case_insensitive: self.case_insensitive,
            next_dir: self.next_dir,
        }
    }
}

/// The kind of an entry for an object of kind `k`.
pub open spec fn ekind_of(k: Kind) -> EKind {
    match k {
        Kind::File => EKind::File,
        Kind::Dir => EKind::Dir,
        Kind::Symlink | Kind::Other => EKind::Special,
    }
}

/// The kind of an entry for an object of kind `k`.
pub fn ekind(k: Kind) -> (r: EKind)
    ensures
        r == ekind_of(k),
{
    match k {
        Kind::File => EKind::File,
        Kind::Dir => EKind::Dir,
        Kind::Symlink | Kind::Other => EKind::Special,
    }
}

/// The permission bits of an object, 0 for special files.
pub open spec fn mode_of(o: Object) -> u32 {
    match o {
        Object::File { mode, .. } => mode,
        Object::Dir { mode } => mode,
        _ => 0,
    }
}

/// The entry for the object `id` found at base path `b`.
pub open spec fn base_entry(d: Disk, b: PathView, id: FileId) -> EntryView {
    EntryView {
        kind: ekind_of(d.objects[id].kind()),
        src: SrcView::Base { origin: b, id: d.shows(id), mode: mode_of(d.objects[id]) },
    }
}

/// What is found at a path.
#[verifier::ext_equal]
pub enum Look {
    Found(EntryView),
    Nothing,
    /// A name that differs in case only is in the way at this base path.
    Clash(PathView),
}

/// The name is stored exactly as it is written.
pub open spec fn stored_exactly(d: Disk, b: PathView) -> bool {
    d.dir_at(parent_of(b)) matches Some(dir) && d.names.contains_key(Key { dir, name: b.last() })
}

/// `other` is a stored name beside `b` that differs from it at most in case.
pub open spec fn stored_alike(d: Disk, b: PathView, other: Name) -> bool {
    folded(other) == folded(b.last()) && (d.dir_at(parent_of(b)) matches Some(dir) && d.names.contains_key(
        Key { dir, name: other },
    ))
}

/// What is found on disk at the base path `b`.
pub open spec fn base_look(d: Disk, case_insensitive: bool, b: PathView) -> Look {
    if private_path(b) {
        Look::Nothing
    } else if case_insensitive && !stored_exactly(d, b) {
        if exists|other: Name| stored_alike(d, b, other) {
            Look::Clash(b)
        } else {
            Look::Nothing
        }
    } else {
        match d.resolve(b) {
            Some(id) => Look::Found(base_entry(d, b, id)),
            None => Look::Nothing,
        }
    }
}

/// The base path at which an entry was found, if it comes from the disk.
pub open spec fn origin_of(e: EntryView) -> Option<PathView> {
    match e.src {
        SrcView::Base { origin, .. } => Some(origin),
        _ => None,
    }
}

/// Why an operation is refused.
#[verifier::ext_equal]
pub enum Fault {
    NotFound(PathView),
    AlreadyExists(PathView),
    NotADirectory(PathView),
    IsADirectory(PathView),
    DirectoryNotEmpty(PathView),
    UnsupportedFileType(PathView),
    InvalidMove(PathView, PathView),
    Clash(PathView),
}

/// `x` stands beside `p` and differs from it at most in case.
pub open spec fn beside(x: PathView, p: PathView) -> bool {
    x.len() > 0 && x.drop_last() == parent_of(p) && folded(x.last()) == folded(p.last())
}

/// The error reports the fault.
pub open spec fn reports(e: Error, f: Fault) -> bool {
    match f {
        Fault::NotFound(p) => e matches Error::NotFound(q) && q@ == p,
        Fault::AlreadyExists(p) => e matches Error::AlreadyExists(q) && q@ == p,
        Fault::NotADirectory(p) => e matches Error::NotADirectory(q) && q@ == p,
        Fault::IsADirectory(p) => e matches Error::IsADirectory(q) && q@ == p,
        Fault::DirectoryNotEmpty(p) => e matches Error::DirectoryNotEmpty(q) && q@ == p,
        Fault::UnsupportedFileType(p) => e matches Error::UnsupportedFileType(q) && q@ == p,
        Fault::InvalidMove(a, b) => e matches Error::InvalidMove { from, to } && from@ == a && to@ == b,
        Fault::Clash(p) => e matches Error::CaseCollision { path, existing } && path@ == p && beside(existing@, p),
    }
}

/// `r` is the outcome `want`, unless the filesystem failed.
pub open spec fn comes_to<T>(r: Result<T>, want: core::result::Result<T, Fault>) -> bool {
    r matches Err(Error::Io(_)) || match want {
        Ok(x) => r == Ok::<T, Error>(x),
        Err(f) => r matches Err(e) && reports(e, f),
    }
}

/// The filesystem did not fail.
pub open spec fn answered<T>(r: Result<T>) -> bool {
    !(r matches Err(Error::Io(_)))
}

/// An entry that comes from the disk is still of its kind at its base path.
pub open spec fn entry_rooted(d: Disk, e: EntryView) -> bool {
    origin_of(e) matches Some(o) ==> (e.kind == EKind::Dir ==> d.dir_at(o) is Some) && (e.kind == EKind::File
        ==> d.file_at(o) is Some)
}

impl OverlayView {
    /// Every entry that comes from the disk and was placed is still of its kind at its base path.
    pub open spec fn rooted(self, d: Disk) -> bool {
        forall|k: PathView| #[trigger]
            self.placed.contains_key(k) ==> (self.placed[k] matches SlotView::Present(e) ==> entry_rooted(d, e))
    }

    /// The files of the blobs that were placed are in `staged`.
    pub open spec fn backed(self, d: Disk, staged: PathView) -> bool {
        forall|k: PathView| #[trigger]
            self.placed.contains_key(k) ==> (self.placed[k] matches SlotView::Present(e) ==> (
            e.src matches SrcView::Blob { n, .. } ==> d.file_at(staged.push(blob_name(n))) is Some))
    }

    /// The root of the tree.
    pub open spec fn root_entry(self) -> EntryView {
        EntryView {
            kind: EKind::Dir,
            src: SrcView::Base { origin: Seq::empty(), id: self.root_id, mode: 0 },
        }
    }

    /// What is found at `p` inside the directory entry `dir`, by inheritance from the disk.
    pub open spec fn inherited(self, d: Disk, dir: EntryView, name: Name) -> Look {
        match origin_of(dir) {
            Some(origin) => if self.detached.contains_key(origin.push(name)) {
                Look::Nothing
            } else {
                base_look(d, self.case_insensitive, origin.push(name))
            },
            None => Look::Nothing,
        }
    }

    /// What the transaction sees at `p`: an explicit decision, or what the directory above
    /// holds on disk.
    pub open spec fn look(self, d: Disk, p: PathView) -> Look
        decreases p.len(),
    {
        if p.len() == 0 {
            Look::Found(self.root_entry())
        } else {
            match self.look(d, p.drop_last()) {
                Look::Found(dir) => if dir.kind != EKind::Dir {
                    Look::Nothing
                } else if self.placed.contains_key(p) {
                    match self.placed[p] {
                        SlotView::Absent => Look::Nothing,
                        SlotView::Present(e) => Look::Found(e),
                    }
                } else {
                    self.inherited(d, dir, p.last())
                },
                other => other,
            }
        }
    }

    /// What is wrong with the directory that would hold `p`, if anything.
    pub open spec fn parent_fault(self, d: Disk, p: PathView) -> Option<Fault> {
        match self.look(d, parent_of(p)) {
            Look::Found(e) => if e.kind == EKind::Dir {
                None
            } else {
                Some(Fault::NotADirectory(parent_of(p)))
            },
            Look::Nothing => Some(Fault::NotFound(parent_of(p))),
            Look::Clash(b) => Some(Fault::Clash(b)),
        }
    }

    /// The name is visible in the view directory `dir`, whose entry is `e`.
    pub open spec fn visible(self, d: Disk, dir: PathView, e: EntryView, name: Name) -> bool {
        if self.placed.contains_key(dir.push(name)) {
            self.placed[dir.push(name)] is Present
        } else {
            &&& origin_of(e) matches Some(origin) && (d.dir_at(origin) matches Some(id) && d.names.contains_key(
                Key { dir: id, name },
            )) && !self.detached.contains_key(origin.push(name))
            &&& !private_path(dir.push(name))
        }
    }

    /// A new name at `p` would fold onto a sibling, where case is ignored.
    pub open spec fn name_clash(self, d: Disk, p: PathView) -> bool {
        self.case_insensitive && (self.look(d, parent_of(p)) matches Look::Found(e) && exists|n: Name| #[trigger]
            self.visible(d, parent_of(p), e, n) && folded(n) == folded(p.last()))
    }

    /// Whether a write to `p` is allowed, and the permission bits it inherits.
    pub open spec fn write_check(self, d: Disk, p: PathView) -> core::result::Result<Option<u32>, Fault> {
        match self.parent_fault(d, p) {
            Some(f) => Err(f),
            None => match self.look(d, p) {
                Look::Clash(b) => Err(Fault::Clash(b)),
                Look::Found(e) => match e.kind {
                    EKind::Dir => Err(Fault::IsADirectory(p)),
                    EKind::Special => Err(Fault::UnsupportedFileType(p)),
                    EKind::File => match e.src {
                        SrcView::Base { mode, .. } => Ok(Some(mode)),
                        SrcView::Blob { mode, .. } => Ok(mode),
                        SrcView::NewDir { .. } => Ok(None),
                    },
                },
                Look::Nothing => if self.name_clash(d, p) {
                    Err(Fault::Clash(p))
                } else {
                    Ok(None)
                },
            },
        }
    }

    /// The base entry `e` has left its base path.
    pub open spec fn detach(self, e: EntryView) -> OverlayView {
        match e.src {
            SrcView::Base { origin, id, .. } => OverlayView {
                detached: self.detached.insert(origin, Gone { id, kind: e.kind }),
                ..self
            },
            _ => self,
        }
    }

    /// The decision `s` at `p`.
    pub open spec fn place(self, p: PathView, s: SlotView) -> OverlayView {
        OverlayView { placed: self.placed.insert(p, s), ..self }
    }

    /// Blob `n` written at `p`.
    pub open spec fn written(self, d: Disk, p: PathView, n: u64, mode: Option<u32>) -> OverlayView {
        let ov = match self.look(d, p) {
            Look::Found(e) => self.detach(e),
            _ => self,
        };
        ov.place(p, SlotView::Present(EntryView { kind: EKind::File, src: SrcView::Blob { n, mode } }))
    }

    /// The decisions strictly below `p` dropped.
    pub open spec fn cleared_under(self, p: PathView) -> OverlayView {
        OverlayView {
            placed: Map::new(
                |k: PathView| self.placed.contains_key(k) && !ancestor(p, k),
                |k: PathView| self.placed[k],
            ),
            ..self
        }
    }

    /// The entry `e` at `p` gone, with everything below it.
    pub open spec fn removed(self, p: PathView, e: EntryView) -> OverlayView {
        self.cleared_under(p).place(p, SlotView::Absent).detach(e)
    }

    /// The decision that applied to `k` before everything below `from` moved below `to`.
    pub open spec fn source_of(self, from: PathView, to: PathView, k: PathView) -> PathView {
        from + k.skip(to.len() as int)
    }

    /// The entry `e` at `from` moved to `to`, with everything below it.
    pub open spec fn moved(self, from: PathView, to: PathView, e: EntryView) -> OverlayView {
        let left = self.removed(from, e);
        OverlayView {
            placed: Map::new(
                |k: PathView|
                    k == to || ancestor(to, k) && self.placed.contains_key(self.source_of(from, to, k))
                        || left.placed.contains_key(k),
                |k: PathView|
                    if k == to {
                        SlotView::Present(e)
                    } else if ancestor(to, k) && self.placed.contains_key(self.source_of(from, to, k)) {
                        self.placed[self.source_of(from, to, k)]
                    } else {
                        left.placed[k]
                    },
            ),
            ..left
        }
    }

    /// Moving `from` to `to`.
    pub open spec fn rename(self, d: Disk, from: PathView, to: PathView) -> core::result::Result<
        OverlayView,
        Fault,
    > {
        match self.look(d, from) {
            Look::Clash(b) => Err(Fault::Clash(b)),
            Look::Nothing => Err(Fault::NotFound(from)),
            Look::Found(e) => if e.kind == EKind::Special {
                Err(Fault::UnsupportedFileType(from))
            } else if from == to {
                Ok(self)
            } else if ancestor(from, to) {
                Err(Fault::InvalidMove(from, to))
            } else {
                match self.parent_fault(d, to) {
                    Some(f) => Err(f),
                    None => match self.look(d, to) {
                        Look::Clash(b) => Err(Fault::Clash(b)),
                        Look::Found(_) => Err(Fault::AlreadyExists(to)),
                        Look::Nothing => if self.name_clash(d, to) {
                            Err(Fault::Clash(to))
                        } else {
                            Ok(self.moved(from, to, e))
                        },
                    },
                }
            },
        }
    }

    /// Removing the file or empty directory at `p`.
    pub open spec fn remove(self, d: Disk, p: PathView) -> core::result::Result<OverlayView, Fault> {
        match self.look(d, p) {
            Look::Clash(b) => Err(Fault::Clash(b)),
            Look::Nothing => Err(Fault::NotFound(p)),
            Look::Found(e) => if e.kind == EKind::Special {
                Err(Fault::UnsupportedFileType(p))
            } else if e.kind == EKind::Dir && (exists|n: Name| self.visible(d, p, e, n)) {
                Err(Fault::DirectoryNotEmpty(p))
            } else {
                Ok(self.removed(p, e))
            },
        }
    }

    /// Removing the directory at `p` and everything in it.
    pub open spec fn remove_dir_all(self, d: Disk, p: PathView) -> core::result::Result<OverlayView, Fault> {
        match self.look(d, p) {
            Look::Clash(b) => Err(Fault::Clash(b)),
            Look::Nothing => Err(Fault::NotFound(p)),
            Look::Found(e) => match e.kind {
                EKind::Dir => Ok(self.removed(p, e)),
                EKind::File => Err(Fault::NotADirectory(p)),
                EKind::Special => Err(Fault::UnsupportedFileType(p)),
            },
        }
    }

    /// A new directory at `p`.
    pub open spec fn with_new_dir(self, p: PathView) -> OverlayView {
        let e = EntryView { kind: EKind::Dir, src: SrcView::NewDir { n: self.next_dir } };
        OverlayView { next_dir: (self.next_dir + 1) as u64, ..self.place(p, SlotView::Present(e)) }
    }

    /// Making the directory at `p`, whose parent is there.
    pub open spec fn create_dir(self, d: Disk, p: PathView) -> core::result::Result<OverlayView, Fault> {
        match self.look(d, p) {
            Look::Clash(b) => Err(Fault::Clash(b)),
            Look::Found(e) => if e.kind == EKind::Dir {
                Ok(self)
            } else {
                Err(Fault::NotADirectory(p))
            },
            Look::Nothing => match self.parent_fault(d, p) {
                Some(f) => Err(f),
                None => if self.name_clash(d, p) {
                    Err(Fault::Clash(p))
                } else {
                    Ok(self.with_new_dir(p))
                },
            },
        }
    }

    /// Making the first `n` directories on the way to `p`: the state that results, and the
    /// fault that stopped it, if one did.
    pub open spec fn create_dirs(self, d: Disk, p: PathView, n: int) -> (OverlayView, Option<Fault>)
        decreases n,
    {
        if n <= 0 {
            (self, None)
        } else {
            let (ov, fault) = self.create_dirs(d, p, n - 1);
            match fault {
                Some(f) => (ov, Some(f)),
                None => match ov.create_dir(d, p.take(n)) {
                    Ok(next) => (next, None),
                    Err(f) => (ov, Some(f)),
                },
            }
        }
    }

    /// Decisions and departures are at paths in the tree, entries are sound, and a base entry
    /// that stands somewhere by decision has left its base path.
    pub open spec fn sound(self) -> bool {
        &&& forall|k: PathView| #[trigger]
            self.placed.contains_key(k) ==> tree_path(k) && (self.placed[k] matches SlotView::Present(e)
                ==> sound_entry(e) && (origin_of(e) matches Some(origin) ==> self.detached.contains_key(origin)))
        &&& forall|k: PathView| #[trigger] self.detached.contains_key(k) ==> tree_path(k)
    }
}

/// The entry has the kind that its source says, and a base entry comes from the tree.
pub open spec fn sound_entry(e: EntryView) -> bool {
    &&& e.src matches SrcView::Base { origin, .. } ==> tree_path(origin)
    &&& e.src is NewDir ==> e.kind == EKind::Dir
    &&& e.src is Blob ==> e.kind == EKind::File
}

/// What a path leads to is known.
pub proof fn lemma_resolved_is_known(d: Disk, p: PathView)
    requires
        d.well_formed(),
        d.resolve(p) is Some,
    ensures
        d.objects.contains_key(d.resolve(p)->0),
{
    if p.len() > 0 {
        lemma_lookup(d, d.resolve(p.drop_last())->0, p.last());
    }
}

/// What is found is of its kind at its base path, if it comes from the disk.
pub proof fn lemma_found_is_rooted(ov: OverlayView, d: Disk, p: PathView)
    requires
        d.well_formed(),
        ov.rooted(d),
        ov.look(d, p) is Found,
    ensures
        entry_rooted(d, ov.look(d, p)->Found_0),
{
    if p.len() > 0 && !ov.placed.contains_key(p) {
        let dir = ov.look(d, p.drop_last())->Found_0;
        let b = origin_of(dir)->0.push(p.last());
        lemma_resolved_is_known(d, b);
    }
}

/// A path below something that is not a directory, or not there, leads nowhere.
pub proof fn lemma_look_stops(ov: OverlayView, d: Disk, p: PathView, i: int)
    requires
        0 <= i < p.len(),
        ov.look(d, p.take(i)) matches Look::Found(e) ==> e.kind != EKind::Dir,
    ensures
        ov.look(d, p) == (match ov.look(d, p.take(i)) {
            Look::Clash(b) => Look::Clash(b),
            _ => Look::Nothing,
        }),
    decreases p.len() - i,
{
    if i == p.len() - 1 {
        assert(p.drop_last() =~= p.take(i));
    } else {
        assert(p.take(i + 1).drop_last() =~= p.take(i));
        lemma_look_stops(ov, d, p, i + 1);
    }
}

impl Overlay {
    /// The maps are in order, and the overlay is sound.
    pub closed spec fn well_formed(self) -> bool {
        self.placed.well_formed() && self.detached.well_formed() && self@.sound()
    }

    /// An overlay in order is sound.
    pub proof fn lemma_sound(self)
        requires
            self.well_formed(),
        ensures
            self@.sound(),
    {
    }

    /// An overlay that changes nothing.
    pub fn new(root_id: FileId, case_insensitive: bool) -> (r: Overlay)
        ensures
            r.well_formed(),
            r@ == (OverlayView {
                placed: Map::empty(),
                detached: Map::empty(),
                root_id,
                case_insensitive,
                next_dir: 0,
            }),
    {
        Overlay { placed: PathMap::new(), detached: PathMap::new(), root_id, case_insensitive, next_dir: 0 }
    }

    /// The root of the tree.
    pub fn root_entry(&self) -> (r: Entry)
        ensures
            r@ == self@.root_entry(),
    {
        Entry { kind: EKind::Dir, src: Src::Base { origin: RelPath::root(), id: self.root_id, mode: 0 } }
    }

    /// What is on disk at the base path `b`.
    fn base_lookup<V: Vfs>(&self, vfs: &V, b: &RelPath) -> (r: Result<Option<Entry>>)
        requires
            vfs.valid(),
            b@.len() > 0,
        ensures
            r is Err && r->Err_0 is Io || match base_look(vfs.disk(), self@.case_insensitive, b@) {
                Look::Found(e) => r matches Ok(Some(x)) && x@ == e,
                Look::Nothing => r matches Ok(None),
                Look::Clash(_) => r matches Err(Error::CaseCollision { path, existing }) && path@ == b@
                    && existing@.len() > 0 && existing@.drop_last() == parent_of(b@) && stored_alike(
                    vfs.disk(),
                    b@,
                    existing@.last(),
                ),
            },
            vfs.serves() && vfs.disk().dir_at(parent_of(b@)) is Some ==> answered(r),
    {
        proof {
            assert(parent_of(b@) =~= b@.drop_last());
            if vfs.disk().dir_at(parent_of(b@)) is Some {
                lemma_way_to(vfs.disk(), b@);
            }
        }
        let ghost d = vfs.disk();
        if b.is_private() {
            return Ok(None);
        }
        if self.case_insensitive {
            let parent = b.parent_or_root();
            let name = match b.file_name() {
                Some(n) => n,
                None => return Ok(None),
            };
            let names = match vfs.read_dir(&parent) {
                Ok(x) => x,
                Err(e) => return Err(Error::Io(e)),
            };
            let ghost all = views(names@);
            let ghost dir = d.dir_at(parent@)->0;
            let n = names.len();
            let low = to_lower(name);
            let mut exact = false;
            let mut other: Option<usize> = None;
            let mut i: usize = 0;
            while i < n
                invariant
                    i <= n,
                    n == names@.len(),
                    all == views(names@),
                    name@ == b@.last(),
                    low@ == folded(name@),
                    exact <==> exists|k: int| 0 <= k < i && #[trigger] all[k] == name@,
                    other matches Some(k) ==> k < n && folded(all[k as int]) == low@,
                    other is None ==> forall|k: int| 0 <= k < i ==> folded(#[trigger] all[k]) != low@,
                decreases n - i,
            {
                assert(all[i as int] == names@[i as int]@);
                if bytes_eq(&names[i], name) {
                    exact = true;
                }
                if other.is_none() {
                    let this = to_lower(&names[i]);
                    if bytes_eq(&this, &low) {
                        other = Some(i);
                    }
                }
                i = i + 1;
            }
            proof {
                assert(d.dir_at(parent_of(b@)) == Some(dir));
                assert(exact <==> all.contains(name@));
                assert(stored_exactly(d, b@) <==> exact);
            }
            if !exact {
                if let Some(k) = other {
                    proof {
                        assert(all.contains(all[k as int]));
                        assert(stored_alike(d, b@, all[k as int]));
                    }
                    let existing = parent.join(names[k].clone());
                    assert(existing@.drop_last() =~= parent@);
                    return Err(Error::CaseCollision { path: b.clone(), existing });
                }
                proof {
                    assert forall|x: Name| !stored_alike(d, b@, x) by {
                        if stored_alike(d, b@, x) {
                            assert(all.contains(x));
                            let k = choose|k: int| 0 <= k < all.len() && all[k] == x;
                            assert(folded(all[k]) != low@);
                        }
                    }
                }
                return Ok(None);
            }
        }
        let found = match vfs.stat(b) {
            Ok(x) => x,
            Err(e) => return Err(Error::Io(e)),
        };
        match found {
            Some(m) => {
                let e = Entry {
                    kind: ekind(m.kind),
                    src: Src::Base { origin: b.clone(), id: m.id, mode: m.mode },
                };
                assert(e@ == base_entry(d, b@, d.resolve(b@)->0));
                Ok(Some(e))
            },
            None => Ok(None),
        }
    }

    /// The entry at view path `p`, or `None` if nothing is there (or a parent is not a dir).
    pub fn resolve<V: Vfs>(&self, vfs: &V, p: &RelPath) -> (r: Result<Option<Entry>>)
        requires
            vfs.valid(),
            self.well_formed(),
        ensures
            resolved(r, self@.look(vfs.disk(), p@)),
            p@.len() == 0 ==> r is Ok,
            vfs.serves() && self@.rooted(vfs.disk()) ==> answered(r),
    {
        proof {
            vfs.lemma_valid();
        }
        let ghost d = vfs.disk();
        let ghost ov = self@;
        let mut cur = self.root_entry();
        let mut view = RelPath::root();
        let parts = p.components();
        let n = parts.len();
        let mut i: usize = 0;
        assert(p@.take(0) =~= view@);
        while i < n
            invariant
                i <= n,
                n == parts@.len(),
                n == p@.len(),
                vfs.valid(),
                d == vfs.disk(),
                d.well_formed(),
                ov == self@,
                self.well_formed(),
                forall|k: int| 0 <= k < n ==> (#[trigger] parts@[k])@ == p@[k],
                view@ == p@.take(i as int),
                ov.look(d, p@.take(i as int)) == Look::Found(cur@),
            decreases n - i,
        {
            let c = &parts[i];
            if cur.kind != EKind::Dir {
                proof {
                    lemma_look_stops(ov, d, p@, i as int);
                }
                return Ok(None);
            }
            view = view.join(c.clone());
            proof {
                assert(p@.take(i as int).push(p@[i as int]) =~= p@.take(i + 1));
                assert(p@.take(i + 1).drop_last() =~= p@.take(i as int));
            }
            let placed = self.placed.get(&view);
            if let Some(slot) = placed {
                match slot {
                    Slot::Absent => {
                        proof {
                            if i + 1 < n {
                                lemma_look_stops(ov, d, p@, i + 1);
                            } else {
                                assert(p@.take(i + 1) =~= p@);
                            }
                        }
                        return Ok(None);
                    },
                    Slot::Present(e) => {
                        cur = e.clone();
                    },
                }
            } else {
                let origin = match &cur.src {
                    Src::Base { origin, .. } => origin.join(c.clone()),
                    _ => {
                        proof {
                            if i + 1 < n {
                                lemma_look_stops(ov, d, p@, i + 1);
                            } else {
                                assert(p@.take(i + 1) =~= p@);
                            }
                        }
                        return Ok(None);
                    },
                };
                if self.detached.contains_key(&origin) {
                    proof {
                        if i + 1 < n {
                            lemma_look_stops(ov, d, p@, i + 1);
                        } else {
                            assert(p@.take(i + 1) =~= p@);
                        }
                    }
                    return Ok(None);
                }
                proof {
                    if ov.rooted(d) {
                        lemma_found_is_rooted(ov, d, p@.take(i as int));
                        assert(parent_of(origin@) =~= origin_of(cur@)->0);
                    }
                }
                match self.base_lookup(vfs, &origin) {
                    Ok(Some(e)) => {
                        cur = e;
                    },
                    Ok(None) => {
                        proof {
                            if i + 1 < n {
                                lemma_look_stops(ov, d, p@, i + 1);
                            } else {
                                assert(p@.take(i + 1) =~= p@);
                            }
                        }
                        return Ok(None);
                    },
                    Err(e) => {
                        proof {
                            if i + 1 < n {
                                if !(e is Io) {
                                    lemma_look_stops(ov, d, p@, i + 1);
                                }
                            } else {
                                assert(p@.take(i + 1) =~= p@);
                            }
                        }
                        return Err(e);
                    },
                }
            }
            i = i + 1;
        }
        assert(p@.take(n as int) =~= p@);
        Ok(Some(cur))
    }
}

/// `k` is among the first `n` paths.
pub open spec fn has_path(v: Seq<RelPath>, n: int, k: PathView) -> bool {
    exists|i: int| 0 <= i < n && (#[trigger] v[i])@ == k
}

/// What resolving a path comes to, unless the filesystem failed.
pub open spec fn resolved(r: Result<Option<Entry>>, l: Look) -> bool {
    r is Err && r->Err_0 is Io || match l {
        Look::Found(e) => r matches Ok(Some(x)) && x@ == e,
        Look::Nothing => r matches Ok(None),
        Look::Clash(b) => r is Err && reports(r->Err_0, Fault::Clash(b)),
    }
}

impl Overlay {
    /// The entry of the directory that holds `p`.
    fn require_parent_dir<V: Vfs>(&self, vfs: &V, p: &RelPath) -> (r: Result<Entry>)
        requires
            vfs.valid(),
            self.well_formed(),
        ensures
            r is Err && r->Err_0 is Io || match self@.parent_fault(vfs.disk(), p@) {
                Some(f) => r matches Err(e) && reports(e, f),
                None => r matches Ok(x) && self@.look(vfs.disk(), parent_of(p@)) == Look::Found(x@),
            },
            vfs.serves() && self@.rooted(vfs.disk()) ==> answered(r),
    {
        let parent = p.parent_or_root();
        match self.resolve(vfs, &parent) {
            Ok(Some(e)) => if e.kind == EKind::Dir {
                Ok(e)
            } else {
                Err(Error::NotADirectory(parent))
            },
            Ok(None) => Err(Error::NotFound(parent)),
            Err(e) => Err(e),
        }
    }

    /// The paths strictly below `dir` at which a decision stands.
    fn children_of_placed(&self, dir: &RelPath) -> (r: Vec<RelPath>)
        requires
            self.well_formed(),
        ensures
            forall|i: int|
                0 <= i < r@.len() ==> self@.placed.contains_key((#[trigger] r@[i])@) && ancestor(dir@, r@[i]@),
            forall|k: PathView|
                self@.placed.contains_key(k) && #[trigger] ancestor(dir@, k) ==> has_path(r@, r@.len() as int, k),
    {
        let n = self.placed.len();
        let ghost keys = self.placed.keys();
        let mut out: Vec<RelPath> = Vec::new();
        let mut i: usize = 0;
        while i < n
            invariant
                i <= n,
                n == keys.len(),
                keys == self.placed.keys(),
                forall|k: int| 0 <= k < out@.len() ==> ancestor(dir@, (#[trigger] out@[k])@) && keys.contains(out@[k]@),
                forall|j: int|
                    0 <= j < i && ancestor(dir@, keys[j]) ==> exists|k: int|
                        0 <= k < out@.len() && (#[trigger] out@[k])@ == #[trigger] keys[j],
            decreases n - i,
        {
            let k = self.placed.key(i);
            if dir.is_ancestor_of(k) {
                let ghost before = out@;
                out.push(k.clone());
                proof {
                    assert(keys.contains(keys[i as int]));
                    assert forall|j: int| 0 <= j < i + 1 && ancestor(dir@, keys[j]) implies exists|k: int|
                        0 <= k < out@.len() && (#[trigger] out@[k])@ == #[trigger] keys[j] by {
                        if j < i {
                            let k = choose|k: int| 0 <= k < before.len() && (#[trigger] before[k])@ == keys[j];
                            assert(out@[k]@ == keys[j]);
                        } else {
                            assert(out@[out@.len() - 1]@ == keys[j]);
                        }
                    }
                }
            }
            i = i + 1;
        }
        proof {
            assert forall|k: PathView| self@.placed.contains_key(k) && #[trigger] ancestor(dir@, k) implies has_path(
                out@,
                out@.len() as int,
                k,
            ) by {
                let j = choose|j: int| 0 <= j < keys.len() && keys[j] == k;
                assert(ancestor(dir@, keys[j]));
            }
        }
        out
    }

    /// Names visible in the view directory `dir` (whose entry is `e`).
    pub fn list<V: Vfs>(&self, vfs: &V, dir: &RelPath, e: &Entry) -> (r: Result<Vec<Vec<u8>>>)
        requires
            vfs.valid(),
            self.well_formed(),
        ensures
            r matches Ok(names) ==> forall|n: Name| #[trigger]
                views(names@).contains(n) <==> self@.visible(vfs.disk(), dir@, e@, n),
            r matches Err(x) ==> x is Io,
            origin_of(e@) is None ==> r is Ok,
            vfs.serves() && (origin_of(e@) matches Some(o) ==> vfs.disk().dir_at(o) is Some) ==> r is Ok,
    {
        let ghost d = vfs.disk();
        let ghost ov = self@;
        let mut out: Vec<Vec<u8>> = Vec::new();
        let n = self.placed.len();
        let ghost keys = self.placed.keys();
        let ghost base = dir@;
        let mut i: usize = 0;
        assert(views(out@) =~= Seq::<Name>::empty());
        while i < n
            invariant
                i <= n,
                n == keys.len(),
                keys == self.placed.keys(),
                ov == self@,
                base == dir@,
                self.well_formed(),
                forall|x: Name| #[trigger]
                    views(out@).contains(x) <==> ov.placed.contains_key(base.push(x)) && ov.placed[base.push(x)] is Present
                        && keys.take(i as int).contains(base.push(x)),
            decreases n - i,
        {
            let k = self.placed.key(i);
            proof {
                self.placed.lemma_at(i as int);
                assert forall|x: PathView| #[trigger] keys.take(i + 1).contains(x) <==> x == keys[i as int] || keys.take(
                    i as int,
                ).contains(x) by {
                    lemma_take_contains(keys, i as int, x);
                }
            }
            let ghost before = views(out@);
            let direct = dir.is_ancestor_of(k) && k.depth() - 1 == dir.depth();
            let mut pushed = false;
            if direct {
                match self.placed.value(i) {
                    Slot::Present(_) => {
                        if let Some(name) = k.file_name() {
                            out.push(name.clone());
                            pushed = true;
                            assert(views(out@) =~= before.push(keys[i as int].last()));
                        }
                    },
                    Slot::Absent => {},
                }
            }
            proof {
                let key = keys[i as int];
                if direct {
                    assert(key =~= base.push(key.last()));
                }
                assert forall|x: Name| #[trigger] views(out@).contains(x) <==> ov.placed.contains_key(base.push(x))
                    && ov.placed[base.push(x)] is Present && keys.take(i + 1).contains(base.push(x)) by {
                    if base.push(x) == key {
                        assert(key.take(base.len() as int) =~= base);
                        assert(key.last() == x);
                        assert(direct);
                    }
                    if pushed {
                        lemma_push_contains(before, key.last(), x);
                    }
                }
            }
            i = i + 1;
        }
        assert(keys.take(n as int) =~= keys);
        let origin = match &e.src {
            Src::Base { origin, .. } => origin,
            _ => {
                return Ok(out);
            },
        };
        let names = match vfs.read_dir(origin) {
            Ok(x) => x,
            Err(x) => return Err(Error::Io(x)),
        };
        let ghost id = d.dir_at(origin@)->0;
        let ghost stored = views(names@);
        let m = names.len();
        let mut j: usize = 0;
        while j < m
            invariant
                j <= m,
                m == names@.len(),
                ov == self@,
                d == vfs.disk(),
                base == dir@,
                self.well_formed(),
                stored == views(names@),
                origin_of(e@) == Some(origin@),
                d.dir_at(origin@) == Some(id),
                lists(d, id, stored),
                forall|x: Name| #[trigger]
                    views(out@).contains(x) <==> ov.visible(d, base, e@, x) && (ov.placed.contains_key(base.push(x))
                        || stored.take(j as int).contains(x)),
            decreases m - j,
        {
            let v = dir.join(names[j].clone());
            let o = origin.join(names[j].clone());
            let ghost x0 = stored[j as int];
            assert(x0 == names@[j as int]@);
            let ghost before = views(out@);
            let take = !(v.is_private() || self.placed.contains_key(&v) || self.detached.contains_key(&o));
            if take {
                out.push(names[j].clone());
                assert(views(out@) =~= before.push(x0));
            }
            proof {
                assert(stored.contains(x0));
                assert forall|x: Name| #[trigger] views(out@).contains(x) <==> ov.visible(d, base, e@, x) && (
                ov.placed.contains_key(base.push(x)) || stored.take(j + 1).contains(x)) by {
                    lemma_take_contains(stored, j as int, x);
                    if take {
                        lemma_push_contains(before, x0, x);
                    }
                }
            }
            j = j + 1;
        }
        proof {
            assert(stored.take(m as int) =~= stored);
            assert forall|x: Name| #[trigger] views(out@).contains(x) <==> ov.visible(d, base, e@, x) by {
                if ov.visible(d, base, e@, x) && !ov.placed.contains_key(base.push(x)) {
                    assert(stored.contains(x));
                }
            }
        }
        Ok(out)
    }

    /// On case-insensitive filesystems, refuses a new name that folds onto a sibling.
    fn check_new_name<V: Vfs>(&self, vfs: &V, p: &RelPath, parent: &Entry) -> (r: Result<()>)
        requires
            vfs.valid(),
            self.well_formed(),
            p@.len() > 0,
            self@.look(vfs.disk(), parent_of(p@)) == Look::Found(parent@),
        ensures
            r is Ok ==> !self@.name_clash(vfs.disk(), p@),
            r matches Err(e) ==> e is Io || self@.name_clash(vfs.disk(), p@) && reports(e, Fault::Clash(p@)),
            vfs.serves() && self@.rooted(vfs.disk()) && parent@.kind == EKind::Dir ==> answered(r),
    {
        proof {
            vfs.lemma_valid();
            if self@.rooted(vfs.disk()) {
                lemma_found_is_rooted(self@, vfs.disk(), parent_of(p@));
            }
        }
        if !self.case_insensitive {
            return Ok(());
        }
        let dir = p.parent_or_root();
        let name = match p.file_name() {
            Some(n) => n,
            None => return Ok(()),
        };
        let low = to_lower(name);
        let names = match self.list(vfs, &dir, parent) {
            Ok(x) => x,
            Err(e) => return Err(e),
        };
        let ghost all = views(names@);
        let n = names.len();
        let mut i: usize = 0;
        while i < n
            invariant
                i <= n,
                n == names@.len(),
                all == views(names@),
                low@ == folded(p@.last()),
                dir@ == parent_of(p@),
                self@.case_insensitive,
                self@.look(vfs.disk(), parent_of(p@)) == Look::Found(parent@),
                forall|x: Name| #[trigger] all.contains(x) <==> self@.visible(vfs.disk(), dir@, parent@, x),
                forall|k: int| 0 <= k < i ==> folded(#[trigger] all[k]) != low@,
            decreases n - i,
        {
            assert(all[i as int] == names@[i as int]@);
            let this = to_lower(&names[i]);
            if bytes_eq(&this, &low) {
                proof {
                    assert(all.contains(all[i as int]));
                    assert(self@.visible(vfs.disk(), parent_of(p@), parent@, all[i as int]));
                }
                let existing = dir.join(names[i].clone());
                assert(existing@.drop_last() =~= dir@);
                return Err(Error::CaseCollision { path: p.clone(), existing });
            }
            i = i + 1;
        }
        proof {
            assert forall|x: Name| #[trigger] self@.visible(vfs.disk(), parent_of(p@), parent@, x) implies folded(x)
                != folded(p@.last()) by {
                assert(all.contains(x));
                let k = choose|k: int| 0 <= k < all.len() && all[k] == x;
                assert(folded(all[k]) != low@);
            }
        }
        Ok(())
    }

    /// Notes that a base entry has left its base path.
    fn detach(&mut self, e: &Entry)
        requires
            old(self).well_formed(),
            sound_entry(e@),
        ensures
            final(self).well_formed(),
            final(self)@ == old(self)@.detach(e@),
    {
        if let Src::Base { origin, id, .. } = &e.src {
            self.detached.insert(origin.clone(), Gone { id: *id, kind: e.kind });
        }
        assert(self@ =~= old(self)@.detach(e@));
    }

    /// Places a decision.
    fn place(&mut self, p: RelPath, s: Slot)
        requires
            old(self).well_formed(),
            tree_path(p@),
            s@ matches SlotView::Present(e) ==> sound_entry(e) && (origin_of(e) matches Some(origin) ==> old(
                self,
            )@.detached.contains_key(origin)),
        ensures
            final(self).well_formed(),
            final(self)@ == old(self)@.place(p@, s@),
    {
        let ghost ov = self@;
        self.placed.insert(p, s);
        assert(self@ =~= ov.place(p@, s@));
    }

    /// Drops the decisions strictly below `p`, and returns them.
    fn drop_placed_under(&mut self, p: &RelPath) -> (r: Vec<(RelPath, Slot)>)
        requires
            old(self).well_formed(),
        ensures
            final(self).well_formed(),
            final(self)@ == old(self)@.cleared_under(p@),
            forall|i: int|
                0 <= i < r@.len() ==> ancestor(p@, (#[trigger] r@[i]).0@) && old(self)@.placed.contains_key(r@[i].0@)
                    && old(self)@.placed[r@[i].0@] == r@[i].1@,
            forall|k: PathView|
                old(self)@.placed.contains_key(k) && #[trigger] ancestor(p@, k) ==> exists|i: int|
                    0 <= i < r@.len() && (#[trigger] r@[i]).0@ == k,
    {
        let ghost start = self@;
        let keys = self.children_of_placed(p);
        let n = keys.len();
        let mut out: Vec<(RelPath, Slot)> = Vec::new();
        let mut i: usize = 0;
        while i < n
            invariant
                i <= n,
                n == keys@.len(),
                start == old(self)@,
                start.sound(),
                self.well_formed(),
                self@ == (OverlayView { placed: self@.placed, ..start }),
                forall|j: int|
                    0 <= j < keys@.len() ==> start.placed.contains_key((#[trigger] keys@[j])@) && ancestor(
                        p@,
                        keys@[j]@,
                    ),
                forall|k: PathView|
                    start.placed.contains_key(k) && #[trigger] ancestor(p@, k) ==> has_path(
                        keys@,
                        keys@.len() as int,
                        k,
                    ),
                forall|k: PathView| #[trigger]
                    self@.placed.contains_key(k) <==> start.placed.contains_key(k) && !has_path(keys@, i as int, k),
                forall|k: PathView| #[trigger] self@.placed.contains_key(k) ==> self@.placed[k] == start.placed[k],
                forall|j: int|
                    0 <= j < out@.len() ==> ancestor(p@, (#[trigger] out@[j]).0@) && start.placed.contains_key(out@[j].0@)
                        && start.placed[out@[j].0@] == out@[j].1@,
                forall|j: int|
                    0 <= j < i ==> exists|k: int|
                        0 <= k < out@.len() && (#[trigger] out@[k]).0@ == (#[trigger] keys@[j])@,
            decreases n - i,
        {
            let k = keys[i].clone();
            let ghost before = self@;
            let ghost outs = out@;
            let removed = self.placed.remove(&k);
            proof {
                assert(self@ =~= (OverlayView { placed: before.placed.remove(k@), ..before }));
                assert forall|x: PathView| #[trigger] self@.placed.contains_key(x) <==> start.placed.contains_key(x)
                    && !has_path(keys@, i + 1, x) by {
                    assert(keys@[i as int]@ == k@);
                    if has_path(keys@, i + 1, x) && x != k@ {
                        let j = choose|j: int| 0 <= j < i + 1 && (#[trigger] keys@[j])@ == x;
                        assert(keys@[j]@ == x && j < i);
                    }
                    if has_path(keys@, i as int, x) {
                        let j = choose|j: int| 0 <= j < i && (#[trigger] keys@[j])@ == x;
                        assert(keys@[j]@ == x);
                    }
                }
                assert(keys@[i as int]@ == k@);
                assert(start.placed.contains_key(k@) && ancestor(p@, k@));
            }
            if let Some(s) = removed {
                out.push((k, s));
                proof {
                    assert forall|j: int| 0 <= j < i + 1 implies exists|m: int|
                        0 <= m < out@.len() && (#[trigger] out@[m]).0@ == (#[trigger] keys@[j])@ by {
                        if j < i {
                            let m = choose|m: int| 0 <= m < outs.len() && (#[trigger] outs[m]).0@ == keys@[j]@;
                            assert(out@[m].0@ == keys@[j]@);
                        } else {
                            assert(out@[out@.len() - 1].0@ == keys@[j]@);
                        }
                    }
                }
            } else {
                proof {
                    // The key was removed before, so it is among those returned.
                    assert(!before.placed.contains_key(k@));
                    let j0 = choose|j: int| 0 <= j < i && (#[trigger] keys@[j])@ == k@;
                    let m0 = choose|m: int| 0 <= m < out@.len() && (#[trigger] out@[m]).0@ == keys@[j0]@;
                    assert(out@[m0].0@ == keys@[i as int]@);
                }
            }
            i = i + 1;
        }
        proof {
            let want = start.cleared_under(p@);
            assert forall|k: PathView| #[trigger] self@.placed.contains_key(k) <==> want.placed.contains_key(k) by {
                if has_path(keys@, n as int, k) {
                    let j = choose|j: int| 0 <= j < n && (#[trigger] keys@[j])@ == k;
                    assert(ancestor(p@, keys@[j]@));
                }
            }
            assert(self@.placed =~= want.placed);
            assert(self@ =~= want);
            assert forall|k: PathView| start.placed.contains_key(k) && #[trigger] ancestor(p@, k) implies exists|i: int|
                0 <= i < out@.len() && (#[trigger] out@[i]).0@ == k by {
                let j = choose|j: int| 0 <= j < keys@.len() && (#[trigger] keys@[j])@ == k;
                let m = choose|m: int| 0 <= m < out@.len() && (#[trigger] out@[m]).0@ == keys@[j]@;
                assert(out@[m].0@ == k);
            }
        }
        out
    }

    /// Validates a write to `p`; returns the permission bits the new file must inherit.
    pub fn check_write<V: Vfs>(&self, vfs: &V, p: &RelPath) -> (r: Result<Option<u32>>)
        requires
            vfs.valid(),
            self.well_formed(),
            p@.len() > 0,
        ensures
            comes_to(r, self@.write_check(vfs.disk(), p@)),
            vfs.serves() && self@.rooted(vfs.disk()) ==> answered(r),
    {
        let parent = match self.require_parent_dir(vfs, p) {
            Ok(x) => x,
            Err(e) => return Err(e),
        };
        match self.resolve(vfs, p) {
            Err(e) => Err(e),
            Ok(Some(e)) => match e.kind {
                EKind::Dir => Err(Error::IsADirectory(p.clone())),
                EKind::Special => Err(Error::UnsupportedFileType(p.clone())),
                EKind::File => match e.src {
                    Src::Base { mode, .. } => Ok(Some(mode)),
                    Src::Blob { mode, .. } => Ok(mode),
                    Src::NewDir { .. } => Ok(None),
                },
            },
            Ok(None) => match self.check_new_name(vfs, p, &parent) {
                Ok(_) => Ok(None),
                Err(e) => Err(e),
            },
        }
    }

    /// Records a write whose data is staged as blob `n` (after `check_write`).
    pub fn apply_write<V: Vfs>(&mut self, vfs: &V, p: &RelPath, n: u64, mode: Option<u32>) -> (r: Result<()>)
        requires
            vfs.valid(),
            old(self).well_formed(),
            tree_path(p@),
        ensures
            final(self).well_formed(),
            r is Ok ==> !(old(self)@.look(vfs.disk(), p@) is Clash) && final(self)@ == old(self)@.written(
                vfs.disk(),
                p@,
                n,
                mode,
            ),
            r matches Err(e) ==> final(self)@ == old(self)@ && (e is Io || (old(self)@.look(
                vfs.disk(),
                p@,
            ) matches Look::Clash(b) && reports(e, Fault::Clash(b)))),
            vfs.serves() && old(self)@.rooted(vfs.disk()) ==> answered(r),
            old(self)@.rooted(vfs.disk()) ==> final(self)@.rooted(vfs.disk()),
            forall|staged: PathView|
                old(self)@.backed(vfs.disk(), staged) && vfs.disk().file_at(staged.push(blob_name(n))) is Some
                    ==> #[trigger] final(self)@.backed(vfs.disk(), staged),
    {
        proof {
            lemma_found_is_sound(self@, vfs.disk(), p@);
        }
        match self.resolve(vfs, p) {
            Ok(Some(e)) => {
                self.detach(&e);
            },
            Ok(None) => {},
            Err(e) => return Err(e),
        }
        self.place(p.clone(), Slot::Present(Entry { kind: EKind::File, src: Src::Blob { n, mode } }));
        Ok(())
    }

    /// Creates `p` and any missing parents as directories. On an error, the directories made
    /// before it stay.
    pub fn create_dir_all<V: Vfs>(&mut self, vfs: &V, p: &RelPath) -> (r: Result<()>)
        requires
            vfs.valid(),
            old(self).well_formed(),
            tree_path(p@),
        ensures
            final(self).well_formed(),
            ({
                let (ov, fault) = old(self)@.create_dirs(vfs.disk(), p@, p@.len() as int);
                match r {
                    Ok(_) => fault is None && final(self)@ == ov,
                    Err(Error::Io(_)) => exists|n: int|
                        0 <= n < p@.len() && final(self)@ == (#[trigger] old(self)@.create_dirs(vfs.disk(), p@, n)).0,
                    Err(e) => fault matches Some(f) && reports(e, f) && final(self)@ == ov,
                }
            }),
            vfs.serves() && old(self)@.rooted(vfs.disk()) && old(self)@.next_dir + p@.len() <= u64::MAX ==> answered(r),
            old(self)@.rooted(vfs.disk()) ==> final(self)@.rooted(vfs.disk()),
            forall|staged: PathView|
                old(self)@.backed(vfs.disk(), staged) ==> #[trigger] final(self)@.backed(vfs.disk(), staged),
            final(self)@.next_dir <= old(self)@.next_dir + p@.len(),
    {
        let ghost d = vfs.disk();
        let ghost start = self@;
        let mut qs = p.proper_prefixes();
        qs.push(p.clone());
        let n = qs.len();
        let mut i: usize = 0;
        assert(p@.take(p@.len() as int) =~= p@);
        while i < n
            invariant
                i <= n,
                n == qs@.len(),
                n == p@.len(),
                vfs.valid(),
                d == vfs.disk(),
                start == old(self)@,
                self.well_formed(),
                tree_path(p@),
                forall|k: int| 0 <= k < n ==> (#[trigger] qs@[k])@ == p@.take(k + 1),
                start.create_dirs(d, p@, i as int) == (self@, None::<Fault>),
                start.rooted(d) ==> self@.rooted(d),
                forall|staged: PathView| start.backed(d, staged) ==> #[trigger] self@.backed(d, staged),
                self@.next_dir <= start.next_dir + i,
            decreases n - i,
        {
            let q = qs[i].clone();
            let ghost ov = self@;
            assert(q@ == p@.take(i + 1));
            proof {
                lemma_prefix_in_tree(p@, i + 1);
            }
            let seen = match self.resolve(vfs, &q) {
                Ok(x) => x,
                Err(e) => {
                    proof {
                        if !(e is Io) {
                            lemma_create_dirs_stops(start, d, p@, i + 1, n as int);
                        } else {
                            assert(self@ == start.create_dirs(d, p@, i as int).0);
                        }
                    }
                    return Err(e);
                },
            };
            match seen {
                Some(e) => {
                    if e.kind != EKind::Dir {
                        proof {
                            lemma_create_dirs_stops(start, d, p@, i + 1, n as int);
                        }
                        return Err(Error::NotADirectory(q));
                    }
                },
                None => {
                    let parent = match self.require_parent_dir(vfs, &q) {
                        Ok(x) => x,
                        Err(e) => {
                            proof {
                                if !(e is Io) {
                                    lemma_create_dirs_stops(start, d, p@, i + 1, n as int);
                                } else {
                                    assert(self@ == start.create_dirs(d, p@, i as int).0);
                                }
                            }
                            return Err(e);
                        },
                    };
                    match self.check_new_name(vfs, &q, &parent) {
                        Ok(_) => {},
                        Err(e) => {
                            proof {
                                if !(e is Io) {
                                    lemma_create_dirs_stops(start, d, p@, i + 1, n as int);
                                } else {
                                    assert(self@ == start.create_dirs(d, p@, i as int).0);
                                }
                            }
                            return Err(e);
                        },
                    }
                    let k = self.next_dir;
                    if k == u64::MAX {
                        assert(self@ == start.create_dirs(d, p@, i as int).0);
                        return Err(Error::Io(IoError::new(IoErrorKind::Other, "too many new directories")));
                    }
                    self.next_dir = k + 1;
                    self.place(q, Slot::Present(Entry { kind: EKind::Dir, src: Src::NewDir { n: k } }));
                    assert(self@ =~= ov.with_new_dir(q@));
                    proof {
                        assert forall|staged: PathView| start.backed(d, staged) implies #[trigger] self@.backed(d, staged) by {
                            assert(ov.backed(d, staged));
                        }
                    }
                },
            }
            i = i + 1;
        }
        Ok(())
    }

    /// Moves a file or directory. Fails if `to` exists.
    pub fn rename<V: Vfs>(&mut self, vfs: &V, from: &RelPath, to: &RelPath) -> (r: Result<()>)
        requires
            vfs.valid(),
            old(self).well_formed(),
            tree_path(from@),
            tree_path(to@),
        ensures
            final(self).well_formed(),
            match r {
                Ok(_) => old(self)@.rename(vfs.disk(), from@, to@) == Ok::<OverlayView, Fault>(final(self)@),
                Err(e) => final(self)@ == old(self)@ && (e is Io || (old(self)@.rename(
                    vfs.disk(),
                    from@,
                    to@,
                ) matches Err(f) && reports(e, f))),
            },
            vfs.serves() && old(self)@.rooted(vfs.disk()) ==> answered(r),
            old(self)@.rooted(vfs.disk()) ==> final(self)@.rooted(vfs.disk()),
            forall|staged: PathView|
                old(self)@.backed(vfs.disk(), staged) ==> #[trigger] final(self)@.backed(vfs.disk(), staged),
    {
        proof {
            vfs.lemma_valid();
        }
        let ghost d = vfs.disk();
        let ghost start = self@;
        let e = match self.resolve(vfs, from) {
            Ok(Some(e)) => e,
            Ok(None) => return Err(Error::NotFound(from.clone())),
            Err(e) => return Err(e),
        };
        if e.kind == EKind::Special {
            return Err(Error::UnsupportedFileType(from.clone()));
        }
        if from.same(to) {
            return Ok(());
        }
        if from.is_ancestor_of(to) {
            return Err(Error::InvalidMove { from: from.clone(), to: to.clone() });
        }
        let parent = match self.require_parent_dir(vfs, to) {
            Ok(x) => x,
            Err(e) => return Err(e),
        };
        match self.resolve(vfs, to) {
            Ok(Some(_)) => return Err(Error::AlreadyExists(to.clone())),
            Ok(None) => {},
            Err(e) => return Err(e),
        }
        match self.check_new_name(vfs, to, &parent) {
            Ok(_) => {},
            Err(e) => return Err(e),
        }
        proof {
            lemma_found_is_sound(start, d, from@);
            if start.rooted(d) {
                lemma_found_is_rooted(start, d, from@);
            }
        }
        let moved = self.drop_placed_under(from);
        self.place(from.clone(), Slot::Absent);
        self.detach(&e);
        let ghost left = self@;
        assert(left =~= start.removed(from@, e@));
        let n = moved.len();
        let mut i: usize = 0;
        while i < n
            invariant
                i <= n,
                n == moved@.len(),
                start.sound(),
                forall|o: PathView| #[trigger] start.detached.contains_key(o) ==> left.detached.contains_key(o),
                self.well_formed(),
                from@ != to@,
                !ancestor(from@, to@),
                tree_path(to@),
                forall|j: int|
                    0 <= j < n ==> ancestor(from@, (#[trigger] moved@[j]).0@) && start.placed.contains_key(moved@[j].0@)
                        && start.placed[moved@[j].0@] == moved@[j].1@,
                self@ == (OverlayView { placed: self@.placed, ..left }),
                forall|k: PathView| #[trigger]
                    self@.placed.contains_key(k) <==> left.placed.contains_key(k) || moved_to(
                        moved@,
                        from@,
                        to@,
                        i as int,
                        k,
                    ),
                forall|k: PathView| #[trigger]
                    self@.placed.contains_key(k) ==> self@.placed[k] == (if moved_to(moved@, from@, to@, i as int, k) {
                        start.placed[start.source_of(from@, to@, k)]
                    } else {
                        left.placed[k]
                    }),
            decreases n - i,
        {
            let k = &moved[i].0;
            let slot = moved[i].1.clone();
            let ghost before = self@;
            match k.strip_prefix(from) {
                Some(rest) => {
                    let target = to.join_path(&rest);
                    proof {
                        assert(k@ == from@ + rest@);
                        lemma_move_target(start, from@, to@, rest@);
                        assert(start.placed.contains_key(k@));
                        assert forall|x: int| 0 <= x < rest@.len() implies is_component(#[trigger] rest@[x]) by {
                            assert(k@[from@.len() + x] == rest@[x]);
                        }
                        lemma_below_in_tree(to@, rest@);
                    }
                    self.place(target, slot);
                    proof {
                        assert forall|x: PathView| #[trigger] moved_to(moved@, from@, to@, i + 1, x) <==> x == target@
                            || moved_to(moved@, from@, to@, i as int, x) by {
                            if moved_to(moved@, from@, to@, i + 1, x) {
                                let j = choose|j: int|
                                    0 <= j < i + 1 && (#[trigger] moved@[j]).0@ == from@ + x.skip(to@.len() as int);
                                if j == i {
                                    assert(rest@ =~= x.skip(to@.len() as int)) by {
                                        assert(k@.skip(from@.len() as int) =~= rest@);
                                        assert((from@ + x.skip(to@.len() as int)).skip(from@.len() as int)
                                            =~= x.skip(to@.len() as int));
                                    }
                                    assert(x =~= to@ + rest@);
                                }
                            }
                            if x == target@ {
                                assert(moved@[i as int].0@ == from@ + x.skip(to@.len() as int));
                            }
                        }
                    }
                },
                None => {},
            }
            i = i + 1;
        }
        self.place(to.clone(), Slot::Present(e));
        proof {
            let want = start.moved(from@, to@, e@);
            assert forall|k: PathView| #[trigger] moved_to(moved@, from@, to@, n as int, k) <==> ancestor(to@, k)
                && start.placed.contains_key(start.source_of(from@, to@, k)) by {
                let src = start.source_of(from@, to@, k);
                if ancestor(to@, k) && start.placed.contains_key(src) {
                    assert(src.take(from@.len() as int) =~= from@);
                    assert(ancestor(from@, src));
                    let j = choose|j: int| 0 <= j < moved@.len() && (#[trigger] moved@[j]).0@ == src;
                    assert(moved@[j].0@ == from@ + k.skip(to@.len() as int));
                }
            }
            assert(self@.placed =~= want.placed);
            assert(self@ =~= want);
        }
        Ok(())
    }

    /// Removes a file or an empty directory.
    pub fn remove<V: Vfs>(&mut self, vfs: &V, p: &RelPath) -> (r: Result<()>)
        requires
            vfs.valid(),
            old(self).well_formed(),
            tree_path(p@),
        ensures
            final(self).well_formed(),
            match r {
                Ok(_) => old(self)@.remove(vfs.disk(), p@) == Ok::<OverlayView, Fault>(final(self)@),
                Err(e) => final(self)@ == old(self)@ && (e is Io || (old(self)@.remove(vfs.disk(), p@) matches Err(f)
                    && reports(e, f))),
            },
            vfs.serves() && old(self)@.rooted(vfs.disk()) ==> answered(r),
            old(self)@.rooted(vfs.disk()) ==> final(self)@.rooted(vfs.disk()),
            forall|staged: PathView|
                old(self)@.backed(vfs.disk(), staged) ==> #[trigger] final(self)@.backed(vfs.disk(), staged),
    {
        proof {
            vfs.lemma_valid();
        }
        let ghost start = self@;
        let e = match self.resolve(vfs, p) {
            Ok(Some(e)) => e,
            Ok(None) => return Err(Error::NotFound(p.clone())),
            Err(e) => return Err(e),
        };
        match e.kind {
            EKind::Special => return Err(Error::UnsupportedFileType(p.clone())),
            EKind::Dir => {
                proof {
                    if self@.rooted(vfs.disk()) {
                        lemma_found_is_rooted(self@, vfs.disk(), p@);
                    }
                }
                let names = match self.list(vfs, p, &e) {
                    Ok(x) => x,
                    Err(x) => return Err(x),
                };
                if names.len() > 0 {
                    assert(views(names@).contains(views(names@)[0]));
                    return Err(Error::DirectoryNotEmpty(p.clone()));
                }
                proof {
                    assert forall|x: Name| !self@.visible(vfs.disk(), p@, e@, x) by {
                        if self@.visible(vfs.disk(), p@, e@, x) {
                            assert(views(names@).contains(x));
                        }
                    }
                }
            },
            EKind::File => {},
        }
        proof {
            lemma_found_is_sound(self@, vfs.disk(), p@);
        }
        let _ = self.drop_placed_under(p);
        self.place(p.clone(), Slot::Absent);
        self.detach(&e);
        Ok(())
    }

    /// Removes a directory and everything in it.
    pub fn remove_dir_all<V: Vfs>(&mut self, vfs: &V, p: &RelPath) -> (r: Result<()>)
        requires
            vfs.valid(),
            old(self).well_formed(),
            tree_path(p@),
        ensures
            final(self).well_formed(),
            match r {
                Ok(_) => old(self)@.remove_dir_all(vfs.disk(), p@) == Ok::<OverlayView, Fault>(final(self)@),
                Err(e) => final(self)@ == old(self)@ && (e is Io || (old(self)@.remove_dir_all(
                    vfs.disk(),
                    p@,
                ) matches Err(f) && reports(e, f))),
            },
            vfs.serves() && old(self)@.rooted(vfs.disk()) ==> answered(r),
            old(self)@.rooted(vfs.disk()) ==> final(self)@.rooted(vfs.disk()),
            forall|staged: PathView|
                old(self)@.backed(vfs.disk(), staged) ==> #[trigger] final(self)@.backed(vfs.disk(), staged),
    {
        proof {
            vfs.lemma_valid();
        }
        let e = match self.resolve(vfs, p) {
            Ok(Some(e)) => e,
            Ok(None) => return Err(Error::NotFound(p.clone())),
            Err(e) => return Err(e),
        };
        match e.kind {
            EKind::Dir => {},
            EKind::File => return Err(Error::NotADirectory(p.clone())),
            EKind::Special => return Err(Error::UnsupportedFileType(p.clone())),
        }
        proof {
            lemma_found_is_sound(self@, vfs.disk(), p@);
        }
        let _ = self.drop_placed_under(p);
        self.place(p.clone(), Slot::Absent);
        self.detach(&e);
        Ok(())
    }
}

/// One of the first `n` moved decisions lands at `k`.
spec fn moved_to(moved: Seq<(RelPath, Slot)>, from: PathView, to: PathView, n: int, k: PathView) -> bool {
    ancestor(to, k) && exists|j: int| 0 <= j < n && (#[trigger] moved[j]).0@ == from + k.skip(to.len() as int)
}

/// What stood below `from` at `rest` lands below `to` at `rest`.
proof fn lemma_move_target(ov: OverlayView, from: PathView, to: PathView, rest: PathView)
    requires
        ancestor(from, from + rest),
    ensures
        ancestor(to, to + rest),
        ov.source_of(from, to, to + rest) == from + rest,
{
    assert((to + rest).take(to.len() as int) =~= to);
    assert((to + rest).skip(to.len() as int) =~= rest);
}

/// What is found in the tree is sound.
pub proof fn lemma_found_is_sound(ov: OverlayView, d: Disk, p: PathView)
    requires
        ov.sound(),
        proper_path(p),
    ensures
        p.len() > 0 ==> (ov.look(d, p) matches Look::Found(e) ==> sound_entry(e)),
        ov.look(d, p) matches Look::Found(e) ==> (origin_of(e) matches Some(o) ==> proper_path(o)),
    decreases p.len(),
{
    if p.len() > 0 {
        let q = p.drop_last();
        assert forall|i: int| 0 <= i < q.len() implies is_component(#[trigger] q[i]) by {
            assert(q[i] == p[i]);
        }
        lemma_found_is_sound(ov, d, q);
        match ov.look(d, q) {
            Look::Found(dir) => match origin_of(dir) {
                Some(o) => {
                    let b = o.push(p.last());
                    assert(proper_path(b)) by {
                        assert forall|i: int| 0 <= i < b.len() implies is_component(#[trigger] b[i]) by {
                            if i < o.len() {
                                assert(b[i] == o[i]);
                            } else {
                                assert(b[i] == p[p.len() - 1]);
                            }
                        }
                    }
                },
                None => {},
            },
            _ => {},
        }
    }
}

/// A non-empty prefix of a path in the tree is in the tree.
pub proof fn lemma_prefix_in_tree(p: PathView, n: int)
    requires
        tree_path(p),
        0 < n <= p.len(),
    ensures
        tree_path(p.take(n)),
{
    let q = p.take(n);
    assert(q[0] == p[0]);
    assert forall|i: int| 0 <= i < q.len() implies is_component(#[trigger] q[i]) by {
        assert(q[i] == p[i]);
    }
}

/// What is below a path in the tree is in the tree if its names are proper.
pub proof fn lemma_below_in_tree(p: PathView, rest: PathView)
    requires
        tree_path(p),
        proper_path(rest),
    ensures
        tree_path(p + rest),
{
    let q = p + rest;
    assert(q[0] == p[0]);
    assert forall|i: int| 0 <= i < q.len() implies is_component(#[trigger] q[i]) by {
        if i < p.len() {
            assert(q[i] == p[i]);
        } else {
            assert(q[i] == rest[i - p.len()]);
        }
    }
}

proof fn lemma_create_dirs_stops(ov: OverlayView, d: Disk, p: PathView, i: int, n: int)
    requires
        0 <= i <= n,
        ov.create_dirs(d, p, i).1 is Some,
    ensures
        ov.create_dirs(d, p, n) == ov.create_dirs(d, p, i),
    decreases n - i,
{
    if i < n {
        lemma_create_dirs_stops(ov, d, p, i, n - 1);
    }
}

proof fn lemma_take_contains<A>(s: Seq<A>, i: int, x: A)
    requires
        0 <= i < s.len(),
    ensures
        s.take(i + 1).contains(x) <==> x == s[i] || s.take(i).contains(x),
{
    let more = s.take(i + 1);
    let less = s.take(i);
    if more.contains(x) {
        let k = choose|k: int| 0 <= k < more.len() && more[k] == x;
        if k < i {
            assert(less[k] == x);
        }
    }
    if less.contains(x) {
        let k = choose|k: int| 0 <= k < less.len() && less[k] == x;
        assert(more[k] == x);
    }
    assert(more[i] == s[i]);
}

proof fn lemma_push_contains<A>(s: Seq<A>, a: A, x: A)
    ensures
        s.push(a).contains(x) <==> x == a || s.contains(x),
{
    let more = s.push(a);
    if more.contains(x) {
        let k = choose|k: int| 0 <= k < more.len() && more[k] == x;
        if k < s.len() {
            assert(s[k] == x);
        }
    }
    if s.contains(x) {
        let k = choose|k: int| 0 <= k < s.len() && s[k] == x;
        assert(more[k] == x);
    }
    assert(more[s.len() as int] == a);
}

/// The name of a staged file: `b<n>`.
pub open spec fn blob_name(n: u64) -> Name {
    seq![98u8] + decimal(n as nat)
}

/// The name of a staged directory: `d<n>`.
pub open spec fn new_dir_name(n: u64) -> Name {
    seq![100u8] + decimal(n as nat)
}

/// Numbered names with one prefix are not alike.
proof fn lemma_numbered_unlike(d: Disk, prefix: u8, m: u64, n: u64)
    requires
        m != n,
    ensures
        !alike(d, seq![prefix] + decimal(m as nat), seq![prefix] + decimal(n as nat)),
{
    let x = seq![prefix] + decimal(m as nat);
    let y = seq![prefix] + decimal(n as nat);
    lemma_numeral_digits(m as nat, 10);
    lemma_numeral_digits(n as nat, 10);
    if alike(d, x, y) {
        assert(folded(x).len() == x.len() && folded(y).len() == y.len());
        assert(x.len() == y.len());
        assert forall|i: int| 0 <= i < decimal(m as nat).len() implies decimal(m as nat)[i] == decimal(n as nat)[i] by {
            assert(x[i + 1] == decimal(m as nat)[i] && y[i + 1] == decimal(n as nat)[i]);
            assert(folded(x)[i + 1] == lower(x[i + 1]) && folded(y)[i + 1] == lower(y[i + 1]));
        }
        assert(decimal(m as nat) =~= decimal(n as nat));
        lemma_numeral_injective(m as nat, n as nat, 10);
    }
}

/// The names of staged files are not alike.
pub proof fn lemma_blob_names_unlike(d: Disk, m: u64, n: u64)
    requires
        m != n,
    ensures
        !alike(d, blob_name(m), blob_name(n)),
{
    lemma_numbered_unlike(d, 98, m, n);
}

/// The names of staged directories are not alike.
pub proof fn lemma_new_dir_names_unlike(d: Disk, m: u64, n: u64)
    requires
        m != n,
    ensures
        !alike(d, new_dir_name(m), new_dir_name(n)),
{
    lemma_numbered_unlike(d, 100, m, n);
}

/// A change that leaves the visible tree alone leaves the placed entries where they were.
pub proof fn lemma_rooted_by_tree(ov: OverlayView, a: Disk, b: Disk)
    requires
        a.well_formed(),
        b.well_formed(),
        ov.sound(),
        same_tree(a, b),
        ov.rooted(a),
    ensures
        ov.rooted(b),
{
    assert forall|k: PathView| #[trigger] ov.placed.contains_key(k) implies (ov.placed[k] matches SlotView::Present(e)
        ==> entry_rooted(b, e)) by {
        if let SlotView::Present(e) = ov.placed[k] {
            if let Some(o) = origin_of(e) {
                assert(tree_path(o));
                assert(b.resolve(o) == a.resolve(o));
                if a.resolve(o) is Some {
                    lemma_resolved_is_known(b, o);
                }
            }
        }
    }
}

/// The name of a staged file.
pub fn blob_file(n: u64) -> (r: Vec<u8>)
    ensures
        r@ == blob_name(n),
{
    let mut r: Vec<u8> = vec![98];
    let mut digits = write_decimal(n);
    r.append(&mut digits);
    assert(r@ =~= blob_name(n));
    r
}

/// The name of a staged directory.
pub fn new_dir_file(n: u64) -> (r: Vec<u8>)
    ensures
        r@ == new_dir_name(n),
{
    let mut r: Vec<u8> = vec![100];
    let mut digits = write_decimal(n);
    r.append(&mut digits);
    assert(r@ =~= new_dir_name(n));
    r
}

impl OverlayView {
    /// Where the content of the file at `p` is kept, with new files staged in `staged`.
    pub open spec fn content_at(self, d: Disk, p: PathView, staged: PathView) -> core::result::Result<
        PathView,
        Fault,
    > {
        match self.look(d, p) {
            Look::Clash(b) => Err(Fault::Clash(b)),
            Look::Nothing => Err(Fault::NotFound(p)),
            Look::Found(e) => match e.kind {
                EKind::Dir => Err(Fault::IsADirectory(p)),
                EKind::Special => Err(Fault::UnsupportedFileType(p)),
                EKind::File => match e.src {
                    SrcView::Base { origin, .. } => Ok(origin),
                    SrcView::Blob { n, .. } => Ok(staged.push(blob_name(n))),
                    SrcView::NewDir { .. } => Err(Fault::IsADirectory(p)),
                },
            },
        }
    }
}

impl Overlay {
    /// Reads the file at `p` through the overlay (read-your-writes).
    pub fn read<V: Vfs>(&self, vfs: &V, p: &RelPath, staged: &RelPath) -> (r: Result<Vec<u8>>)
        requires
            vfs.valid(),
            self.well_formed(),
        ensures
            r is Err && r->Err_0 is Io || match self@.content_at(vfs.disk(), p@, staged@) {
                Ok(q) => r matches Ok(data) && (vfs.disk().file_at(q) matches Some(id) && data@
                    == vfs.disk().objects[id]->data),
                Err(f) => r matches Err(e) && reports(e, f),
            },
            vfs.serves() && self@.rooted(vfs.disk()) && (self@.content_at(vfs.disk(), p@, staged@) matches Ok(q)
                ==> vfs.disk().file_at(q) is Some) ==> answered(r),
    {
        match self.resolve(vfs, p) {
            Err(e) => Err(e),
            Ok(None) => Err(Error::NotFound(p.clone())),
            Ok(Some(e)) => match e.kind {
                EKind::Dir => Err(Error::IsADirectory(p.clone())),
                EKind::Special => Err(Error::UnsupportedFileType(p.clone())),
                EKind::File => {
                    let path = match e.src {
                        Src::Base { origin, .. } => origin,
                        Src::Blob { n, .. } => staged.join(blob_file(n)),
                        Src::NewDir { .. } => return Err(Error::IsADirectory(p.clone())),
                    };
                    match vfs.read_file(&path) {
                        Ok(data) => Ok(data),
                        Err(e) => Err(Error::Io(e)),
                    }
                },
            },
        }
    }

    /// The paths at which decisions stand, in order.
    pub closed spec fn placed_keys(self) -> Seq<PathView> {
        self.placed.keys()
    }

    /// The base paths that entries have left, in order.
    pub closed spec fn detached_keys(self) -> Seq<PathView> {
        self.detached.keys()
    }

    /// The keys are those of the maps, in order.
    pub proof fn lemma_keys(self)
        requires
            self.well_formed(),
        ensures
            ascending(self.placed_keys()),
            ascending(self.detached_keys()),
            forall|k: PathView| #[trigger] self.placed_keys().contains(k) <==> self@.placed.contains_key(k),
            forall|k: PathView| #[trigger] self.detached_keys().contains(k) <==> self@.detached.contains_key(k),
            self@.sound(),
    {
    }

    /// The number of decisions.
    pub fn placed_len(&self) -> (r: usize)
        ensures
            r == self.placed_keys().len(),
    {
        self.placed.len()
    }

    /// The `i`-th path at which a decision stands.
    pub fn placed_path(&self, i: usize) -> (r: &RelPath)
        requires
            self.well_formed(),
            i < self.placed_keys().len(),
        ensures
            r@ == self.placed_keys()[i as int],
    {
        self.placed.key(i)
    }

    /// The `i`-th decision.
    pub fn placed_slot(&self, i: usize) -> (r: &Slot)
        requires
            self.well_formed(),
            i < self.placed_keys().len(),
        ensures
            self@.placed.contains_key(self.placed_keys()[i as int]),
            r@ == self@.placed[self.placed_keys()[i as int]],
    {
        proof {
            self.placed.lemma_at(i as int);
        }
        self.placed.value(i)
    }

    /// The number of base paths that entries have left.
    pub fn detached_len(&self) -> (r: usize)
        ensures
            r == self.detached_keys().len(),
    {
        self.detached.len()
    }

    /// The `i`-th base path that an entry has left.
    pub fn detached_path(&self, i: usize) -> (r: &RelPath)
        requires
            self.well_formed(),
            i < self.detached_keys().len(),
        ensures
            r@ == self.detached_keys()[i as int],
    {
        self.detached.key(i)
    }

    /// The entry that has left the `i`-th base path.
    pub fn detached_entry(&self, i: usize) -> (r: Gone)
        requires
            self.well_formed(),
            i < self.detached_keys().len(),
        ensures
            self@.detached.contains_key(self.detached_keys()[i as int]),
            r == self@.detached[self.detached_keys()[i as int]],
    {
        proof {
            self.detached.lemma_at(i as int);
        }
        *self.detached.value(i)
    }

    /// Whether an entry has left the base path `b`.
    pub fn is_detached(&self, b: &RelPath) -> (r: bool)
        requires
            self.well_formed(),
        ensures
            r == self@.detached.contains_key(b@),
    {
        self.detached.contains_key(b)
    }

    /// The decision at `p`.
    pub fn decision(&self, p: &RelPath) -> (r: Option<&Slot>)
        requires
            self.well_formed(),
        ensures
            r is Some <==> self@.placed.contains_key(p@),
            r matches Some(s) ==> s@ == self@.placed[p@],
    {
        self.placed.get(p)
    }
}

/// The two findings are the same but for the identity that the disk reports.
pub open spec fn alike_look(x: Look, y: Look) -> bool {
    match x {
        Look::Found(e) => y matches Look::Found(f) && e.kind == f.kind && origin_of(e) == origin_of(f) && (
        origin_of(e) is None ==> e == f),
        _ => y == x,
    }
}

/// What is found on disk depends on the visible tree alone, and on the identities that the
/// disk reports.
pub proof fn lemma_base_look_same(a: Disk, b: Disk, ci: bool, p: PathView)
    requires
        same_tree(a, b),
        p.len() > 0,
    ensures
        alike_look(base_look(a, ci, p), base_look(b, ci, p)),
        a.steady && b.steady ==> base_look(a, ci, p) == base_look(b, ci, p),
{
    if !private_path(p) {
        let q = parent_of(p);
        assert(q =~= p.drop_last());
        assert(p =~= q.push(p.last()));
        if q.len() > 0 {
            assert(q[0] == p[0]);
        }
        assert(!private_path(q));
        assert(b.resolve(q) == a.resolve(q));
        assert(b.resolve(p) == a.resolve(p));
        assert(listed_in(a, q, p.last()) == stored_exactly(a, p));
        assert(listed_in(b, q, p.last()) == stored_exactly(b, p));
        assert(listed_in(b, q, p.last()) == listed_in(a, q, p.last()));
        assert forall|other: Name| stored_alike(a, p, other) == stored_alike(b, p, other) by {
            if folded(other) == folded(p.last()) {
                let r = q.push(other);
                if q.len() == 0 {
                    assert(r[0] == other && p[0] == p.last());
                } else {
                    assert(r[0] == p[0]);
                }
                assert(!private_path(r));
                assert(listed_in(b, q, other) == listed_in(a, q, other));
            }
        }
        if exists|other: Name| stored_alike(a, p, other) {
            let other = choose|other: Name| stored_alike(a, p, other);
            assert(stored_alike(b, p, other));
        }
        if exists|other: Name| stored_alike(b, p, other) {
            let other = choose|other: Name| stored_alike(b, p, other);
            assert(stored_alike(a, p, other));
        }
    }
}

/// What a transaction sees depends on what it has staged and on the visible tree alone, but
/// for the identities that the disk reports; so nothing that happens in the private area can
/// change it.
pub proof fn law_view_depends_on_the_tree(ov: OverlayView, a: Disk, b: Disk, p: PathView)
    requires
        same_tree(a, b),
    ensures
        alike_look(ov.look(a, p), ov.look(b, p)),
        a.steady && b.steady ==> ov.look(a, p) == ov.look(b, p),
    decreases p.len(),
{
    if p.len() > 0 {
        law_view_depends_on_the_tree(ov, a, b, p.drop_last());
        match ov.look(a, p.drop_last()) {
            Look::Found(dir) => {
                match origin_of(dir) {
                    Some(origin) => {
                        lemma_base_look_same(a, b, ov.case_insensitive, origin.push(p.last()));
                    },
                    None => {},
                }
            },
            _ => {},
        }
    }
}

/// Detaching a base entry that is not a directory leaves the directories as they were.
proof fn lemma_detach_keeps_dirs(ov: OverlayView, d: Disk, p: PathView, q: PathView)
    requires
        ov.sound(),
        ov.look(d, p) matches Look::Found(e) && e.kind != EKind::Dir,
        ov.look(d, q) matches Look::Found(f) && f.kind == EKind::Dir,
    ensures
        ov.detach(ov.look(d, p)->Found_0).look(d, q) == ov.look(d, q),
    decreases q.len(),
{
    if q.len() > 0 {
        let e = ov.look(d, p)->Found_0;
        lemma_detach_keeps_dirs(ov, d, p, q.drop_last());
        match origin_of(e) {
            Some(o) => {
                if !ov.detached.contains_key(o) {
                    lemma_undetached_is_on_disk(ov, d, p);
                }
            },
            None => {},
        }
    }
}

/// A base entry that has not left its base path is found there.
proof fn lemma_undetached_is_on_disk(ov: OverlayView, d: Disk, p: PathView)
    requires
        ov.sound(),
        p.len() > 0,
        ov.look(d, p) matches Look::Found(e) && (origin_of(e) matches Some(o) && !ov.detached.contains_key(o)),
    ensures
        base_look(d, ov.case_insensitive, origin_of(ov.look(d, p)->Found_0)->0) == ov.look(d, p),
{
}

/// A file that was just written is what is seen at its path.
pub proof fn lemma_written_is_seen(ov: OverlayView, d: Disk, p: PathView, n: u64, mode: Option<u32>)
    requires
        ov.sound(),
        p.len() > 0,
        ov.parent_fault(d, p) is None,
        ov.look(d, p) matches Look::Found(e) ==> e.kind != EKind::Dir,
    ensures
        ov.written(d, p, n, mode).look(d, p) == Look::Found(
            EntryView { kind: EKind::File, src: SrcView::Blob { n, mode } },
        ),
{
    let q = p.drop_last();
    assert(q =~= parent_of(p));
    let gone = match ov.look(d, p) {
        Look::Found(e) => ov.detach(e),
        _ => ov,
    };
    match ov.look(d, p) {
        Look::Found(e) => {
            lemma_detach_keeps_dirs(ov, d, p, q);
        },
        _ => {},
    }
    let w = ov.written(d, p, n, mode);
    lemma_place_keeps_shorter(gone, d, p, w.placed[p], q);
}

/// A decision at `p` does not matter for shorter paths.
proof fn lemma_place_keeps_shorter(ov: OverlayView, d: Disk, p: PathView, s: SlotView, q: PathView)
    requires
        q.len() < p.len(),
    ensures
        ov.place(p, s).look(d, q) == ov.look(d, q),
    decreases q.len(),
{
    if q.len() > 0 {
        lemma_place_keeps_shorter(ov, d, p, s, q.drop_last());
    }
}

} // verus!
