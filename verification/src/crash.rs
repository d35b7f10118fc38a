//! What a crash may leave of a disk.
//!
//! * A change of names is guaranteed durable once every directory it touches has been synced
//!   after it. Until then a power loss may keep or drop it, independently of every other
//!   change; a moved non-directory may also keep both names, where the disk is weak.
//! * The content of a file is durable only once the file has been synced.
use vstd::prelude::*;

use crate::disk::{outcome, Change, Disk, Fate, FileId, Key, Object};
use crate::vfs::same_volume;

verus! {

/// A power loss may treat the change `c` like this.
pub open spec fn may_come_out(c: Change, f: Fate) -> bool {
    &&& c.unsynced.is_empty() ==> f == Fate::Apply
    &&& f == Fate::BothNames ==> c.both
}

/// The names that are left when the changes come out as `fates`.
pub open spec fn survivors(durable: Map<Key, FileId>, pending: Seq<Change>, fates: Seq<Fate>) -> Map<Key, FileId>
    decreases pending.len(),
{
    if pending.len() == 0 {
        durable
    } else {
        outcome(survivors(durable, pending.drop_last(), fates.drop_last()), pending.last(), fates.last())
    }
}

/// The fates are possible for the pending changes.
pub open spec fn possible(pending: Seq<Change>, fates: Seq<Fate>) -> bool {
    &&& fates.len() == pending.len()
    &&& forall|i: int| 0 <= i < pending.len() ==> may_come_out(#[trigger] pending[i], fates[i])
}

/// The content that a file is certain to have after a power loss is the one it had when it
/// was last synced, if it has not changed since.
pub open spec fn keeps_content(a: Disk, b: Disk, id: FileId) -> bool {
    a.objects[id] matches Object::File { data, mode } ==> (b.objects[id] matches Object::File {
        data: after,
        mode: same,
    } && same == mode && (!a.dirty.contains(id) && a.saved.contains_key(id) ==> after == a.saved[id]))
}

/// The content of the file is durable.
pub open spec fn durable_file(d: Disk, id: FileId) -> bool {
    &&& d.objects.contains_key(id)
    &&& d.objects[id] is File
    &&& !d.dirty.contains(id)
    &&& d.saved.contains_key(id)
    &&& d.saved[id] == d.objects[id]->data
}

/// `b` is a state in which a power loss may leave `a`, with these fates.
pub open spec fn lost_with(a: Disk, b: Disk, fates: Seq<Fate>) -> bool {
    &&& possible(a.pending, fates)
    &&& same_volume(a, b)
    &&& b.names == survivors(a.durable, a.pending, fates)
    &&& b.durable == b.names
    &&& b.pending.len() == 0
    &&& b.shown == a.shown
    &&& b.objects.dom() == a.objects.dom()
    &&& forall|id: FileId| #[trigger]
        a.objects.contains_key(id) ==> b.objects[id].kind() == a.objects[id].kind() && keeps_content(a, b, id) && (
        a.objects[id] is File ==> durable_file(b, id))
}

/// `b` is a state in which a power loss may leave `a`.
pub open spec fn power_lost(a: Disk, b: Disk) -> bool {
    exists|fates: Seq<Fate>| #[trigger] lost_with(a, b, fates)
}

} // verus!
