//! What the operations of a transaction mean, in terms of what is seen before and after them: when each
//! succeeds, what it does then, and why it is refused otherwise.
use vstd::prelude::*;

use crate::bytes::{folded, Name};
use crate::changes::{finds, mkdir_step, reads, remove_step, rename_step};
use crate::disk::{Disk, FileId, Object};
use crate::error::{Error, Result};
use crate::outcome::untouched;
use crate::overlay::{
    base_look, law_view_depends_on_the_tree, lemma_base_look_same, origin_of, EKind, EntryView, Fault, Look, OverlayView, SlotView, SrcView,
};
use crate::path::{ancestor, parent_of, private_path, tree_path, user_parts, user_path_fault, PathView};
use crate::path::law_accepted_paths_are_confined;
use crate::sight::{
    can_rename, came_from, connected, faithful, law_a_new_directory_is_empty, law_listed_is_seen, law_making_a_directory_stays_faithful,
    law_what_was_moved_is_seen_at_its_new_place, law_what_was_removed_is_gone, lemma_dirs_made, lemma_moved_entry, lemma_put_look,
};
use crate::transaction::{wrote, Transaction};
use crate::tree::{leads_on, same_tree};
use crate::vfs::Vfs;
use crate::vocabulary::{law_above_is_by_whole_components, lemma_within, within};

verus! {

/// The filesystem failed.
pub open spec fn broke<T>(r: Result<T>) -> bool {
    r matches Err(Error::Io(_))
}

/// A directory is seen at `p`.
pub open spec fn sees_dir(ov: OverlayView, d: Disk, p: PathView) -> bool {
    ov.look(d, p) matches Look::Found(e) && e.kind == EKind::Dir
}

/// A file is seen at `p`.
pub open spec fn sees_file(ov: OverlayView, d: Disk, p: PathView) -> bool {
    ov.look(d, p) matches Look::Found(e) && e.kind == EKind::File
}

/// Nothing is seen at `p`, and where case is ignored no name beside it is that of something but for case.
pub open spec fn is_free(ov: OverlayView, d: Disk, p: PathView) -> bool {
    &&& ov.look(d, p) is Nothing
    &&& ov.case_insensitive ==> forall|n: Name|
        folded(n) == folded(p.last()) ==> !((#[trigger] ov.look(d, p.subrange(0, p.len() - 1).push(n))) is Found)
}

/// Where a directory holds no name like that of `p`, there is no clash.
proof fn lemma_no_clash(ov: OverlayView, d: Disk, p: PathView)
    requires
        tree_path(p),
        is_free(ov, d, p),
        ov.case_insensitive ==> faithful(ov, d),
        d.folds ==> ov.case_insensitive,
        sees_dir(ov, d, p.subrange(0, p.len() - 1)),
    ensures
        !ov.name_clash(d, p),
        ov.parent_fault(d, p) is None,
        parent_of(p) == p.subrange(0, p.len() - 1),
{
    let up = p.subrange(0, p.len() - 1);
    assert(parent_of(p) =~= up);
    if ov.name_clash(d, p) {
        let e = ov.look(d, up)->Found_0;
        let n = choose|n: Name| #[trigger] ov.visible(d, parent_of(p), e, n) && folded(n) == folded(p.last());
        if up.len() > 0 {
            crate::overlay::lemma_prefix_in_tree(p, up.len() as int);
            assert(p.take(up.len() as int) =~= up);
        }
        law_listed_is_seen(ov, d, up, n);
        assert(ov.look(d, up.push(n)) is Found);
    }
}

// Moving.

/// A move succeeds where it can. If a file or a directory is seen at `from`, `to` is another path that does
/// not lead on from `from` by whole components, a directory is seen above `to` and the name is free, then
/// the move is made, unless the filesystem fails.
pub proof fn law_a_move_to_a_free_name_succeeds<'a, V: Vfs>(
    a: Transaction<'a, V>,
    b: Transaction<'a, V>,
    from: Name,
    to: Name,
    r: Result<()>,
)
    requires
        rename_step(a, b, from, to, r),
        user_path_fault(from) is None,
        user_path_fault(to) is None,
        sees_file(a.staging(), a.disk(), user_parts(from)) || sees_dir(a.staging(), a.disk(), user_parts(from)),
        !within(user_parts(to), user_parts(from)),
        sees_dir(a.staging(), a.disk(), user_parts(to).subrange(0, user_parts(to).len() - 1)),
        is_free(a.staging(), a.disk(), user_parts(to)),
        a.staging().case_insensitive ==> faithful(a.staging(), a.disk()),
        a.disk().folds ==> a.staging().case_insensitive,
    ensures
        r is Ok || broke(r),
{
    let (x, y) = (user_parts(from), user_parts(to));
    law_accepted_paths_are_confined(to);
    lemma_no_clash(a.staging(), a.disk(), y);
    law_above_is_by_whole_components(x, y);
    assert(x != y);
}

/// What a move does. What was at `from` is seen at `to`, with everything below it; nothing is seen at
/// `from`; and everything else is seen as before. Moving something to where it is does nothing.
pub proof fn law_a_move_moves_everything_below<'a, V: Vfs>(
    a: Transaction<'a, V>,
    b: Transaction<'a, V>,
    from: Name,
    to: Name,
    rest: PathView,
    q: PathView,
)
    requires
        rename_step(a, b, from, to, Ok::<(), Error>(())),
        faithful(a.staging(), a.disk()),
    ensures
        ({
            let (x, y) = (user_parts(from), user_parts(to));
            let (before, after) = (a.staging(), b.staging());
            let d = a.disk();
            &&& user_path_fault(from) is None && user_path_fault(to) is None
            &&& before.look(d, x) is Found
            &&& x == y ==> after == before
            &&& x != y ==> {
                &&& before.look(d, y) is Nothing
                &&& after.look(d, y + rest) == before.look(d, x + rest)
                &&& within(q, x) ==> after.look(d, q) is Nothing
                &&& !within(q, x) && !within(q, y) ==> after.look(d, q) == before.look(d, q)
            }
        }),
        b.disk() == a.disk(),
{
    let (x, y) = (user_parts(from), user_parts(to));
    let (before, d) = (a.staging(), a.disk());
    let e = before.look(d, x)->Found_0;
    law_accepted_paths_are_confined(from);
    law_accepted_paths_are_confined(to);
    if x != y {
        assert(can_rename(before, d, x, y));
        let z = y + rest;
        assert(z.take(y.len() as int) =~= y);
        assert(z.skip(y.len() as int) =~= rest);
        assert(came_from(x, y, z) =~= x + rest);
        law_what_was_moved_is_seen_at_its_new_place(before, d, x, y, z);
        law_what_was_moved_is_seen_at_its_new_place(before, d, x, y, q);
        lemma_within(q, x);
        lemma_within(q, y);
        if within(q, x) && within(q, y) {
            // Neither leads on from the other.
            if x.len() <= y.len() {
                assert(y.take(x.len() as int) =~= q.take(x.len() as int));
                assert(leads_on(y, x));
                if x.len() == y.len() {
                    assert(x =~= y);
                } else {
                    assert(ancestor(x, y));
                }
            } else {
                assert(x.take(y.len() as int) =~= q.take(y.len() as int));
                crate::overlay::lemma_look_stops(before, d, x, y.len() as int);
            }
        }
    }
}

/// Why a move is refused. Each error says what is so: nothing at `from`, or nothing above `to`; a special
/// file; a target that leads on from the source by whole components; something that is no directory above
/// the target; something at the target; or a name that differs in case only.
pub proof fn law_why_a_move_is_refused<'a, V: Vfs>(a: Transaction<'a, V>, b: Transaction<'a, V>, from: Name, to: Name, e: Error)
    requires
        rename_step(a, b, from, to, Err::<(), Error>(e)),
        user_path_fault(from) is None,
        user_path_fault(to) is None,
    ensures
        ({
            let (x, y) = (user_parts(from), user_parts(to));
            let up = y.subrange(0, y.len() - 1);
            let (ov, d) = (a.staging(), a.disk());
            match e {
                Error::Io(_) => true,
                Error::NotFound(p) => p@ == x && ov.look(d, x) is Nothing || p@ == up && ov.look(d, up) is Nothing,
                Error::UnsupportedFileType(p) => p@ == x && (ov.look(d, x) matches Look::Found(f) && f.kind == EKind::Special),
                Error::InvalidMove { from: f, to: t } => f@ == x && t@ == y && x.len() < y.len() && within(y, x),
                Error::NotADirectory(p) => p@ == up && (ov.look(d, up) matches Look::Found(f) && f.kind != EKind::Dir),
                Error::AlreadyExists(p) => p@ == y && x != y && ov.look(d, y) is Found,
                Error::CaseCollision { path, existing } => ov.case_insensitive || ov.look(d, x) is Clash || ov.look(d, y) is Clash
                    || ov.look(d, up) is Clash,
                _ => false,
            }
        }),
        b.staging() == a.staging() && b.disk() == a.disk(),
{
    let (x, y) = (user_parts(from), user_parts(to));
    law_accepted_paths_are_confined(to);
    assert(parent_of(y) =~= y.subrange(0, y.len() - 1));
    law_above_is_by_whole_components(x, y);
}

// Removing.

/// Removing succeeds where it can: a file, or a directory in which nothing is seen; with everything in it,
/// any directory.
pub proof fn law_removing_succeeds_where_it_can<'a, V: Vfs>(
    a: Transaction<'a, V>,
    b: Transaction<'a, V>,
    path: Name,
    all: bool,
    r: Result<()>,
)
    requires
        remove_step(a, b, path, all, r),
        user_path_fault(path) is None,
        if all {
            sees_dir(a.staging(), a.disk(), user_parts(path))
        } else {
            sees_file(a.staging(), a.disk(), user_parts(path)) || sees_dir(a.staging(), a.disk(), user_parts(path)) && faithful(
                a.staging(),
                a.disk(),
            ) && (a.disk().folds ==> a.staging().case_insensitive) && forall|n: Name|
                !((#[trigger] a.staging().look(a.disk(), user_parts(path).push(n))) is Found)
        },
    ensures
        r is Ok || broke(r),
{
    let p = user_parts(path);
    law_accepted_paths_are_confined(path);
    let (ov, d) = (a.staging(), a.disk());
    if !all && sees_dir(ov, d, p) {
        let e = ov.look(d, p)->Found_0;
        assert forall|n: Name| !ov.visible(d, p, e, n) by {
            law_listed_is_seen(ov, d, p, n);
        }
    }
}

/// What removing does: nothing is seen at the path and below it any more, and everything else is seen as
/// before. Without everything in it, only a file or an empty directory is removed.
pub proof fn law_removing_removes_what_is_below<'a, V: Vfs>(a: Transaction<'a, V>, b: Transaction<'a, V>, path: Name, all: bool, q: PathView)
    requires
        remove_step(a, b, path, all, Ok::<(), Error>(())),
        faithful(a.staging(), a.disk()),
        a.disk().folds ==> a.staging().case_insensitive,
    ensures
        user_path_fault(path) is None,
        within(q, user_parts(path)) ==> b.staging().look(a.disk(), q) is Nothing,
        !within(q, user_parts(path)) ==> b.staging().look(a.disk(), q) == a.staging().look(a.disk(), q),
        all ==> sees_dir(a.staging(), a.disk(), user_parts(path)),
        !all ==> sees_file(a.staging(), a.disk(), user_parts(path)) || sees_dir(a.staging(), a.disk(), user_parts(path)) && forall|
            n: Name,
        | !((#[trigger] a.staging().look(a.disk(), user_parts(path).push(n))) is Found),
        b.disk() == a.disk(),
{
    let p = user_parts(path);
    law_accepted_paths_are_confined(path);
    let (ov, d) = (a.staging(), a.disk());
    law_what_was_removed_is_gone(ov, d, p, q);
    lemma_within(q, p);
    let e = ov.look(d, p)->Found_0;
    if !all && e.kind == EKind::Dir {
        assert forall|n: Name| !((#[trigger] ov.look(d, p.push(n))) is Found) by {
            law_listed_is_seen(ov, d, p, n);
            assert(!ov.visible(d, p, e, n));
        }
    }
}

/// Why removing is refused.
pub proof fn law_why_removing_is_refused<'a, V: Vfs>(a: Transaction<'a, V>, b: Transaction<'a, V>, path: Name, all: bool, e: Error)
    requires
        remove_step(a, b, path, all, Err::<(), Error>(e)),
        user_path_fault(path) is None,
        faithful(a.staging(), a.disk()),
        a.disk().folds ==> a.staging().case_insensitive,
    ensures
        ({
            let p = user_parts(path);
            let (ov, d) = (a.staging(), a.disk());
            match e {
                Error::Io(_) => true,
                Error::NotFound(q) => q@ == p && ov.look(d, p) is Nothing,
                Error::UnsupportedFileType(q) => q@ == p && (ov.look(d, p) matches Look::Found(f) && f.kind == EKind::Special),
                Error::NotADirectory(q) => q@ == p && all && sees_file(ov, d, p),
                Error::DirectoryNotEmpty(q) => q@ == p && !all && sees_dir(ov, d, p) && exists|n: Name|
                    (#[trigger] ov.look(d, p.push(n))) is Found,
                Error::CaseCollision { .. } => ov.look(d, p) is Clash,
                _ => false,
            }
        }),
        b.staging() == a.staging() && b.disk() == a.disk(),
{
    let p = user_parts(path);
    law_accepted_paths_are_confined(path);
    let (ov, d) = (a.staging(), a.disk());
    if e is DirectoryNotEmpty {
        let f = ov.look(d, p)->Found_0;
        let n = choose|n: Name| ov.visible(d, p, f, n);
        law_listed_is_seen(ov, d, p, n);
        assert(ov.look(d, p.push(n)) is Found);
    }
}

// Writing.

/// Writing succeeds where it can: a directory is seen above the path, and at the path a file, or nothing
/// and the name is free.
pub proof fn law_writing_succeeds_where_it_can<'a, V: Vfs>(
    a: Transaction<'a, V>,
    b: Transaction<'a, V>,
    path: Name,
    data: Seq<u8>,
    mode: Option<u32>,
    r: Result<()>,
)
    requires
        wrote(a, b, path, data, mode, r),
        user_path_fault(path) is None,
        sees_dir(a.staging(), a.disk(), user_parts(path).subrange(0, user_parts(path).len() - 1)),
        sees_file(a.staging(), a.disk(), user_parts(path)) || is_free(a.staging(), a.disk(), user_parts(path)),
        a.staging().case_insensitive ==> faithful(a.staging(), a.disk()),
        a.disk().folds ==> a.staging().case_insensitive,
    ensures
        r is Ok || broke(r),
{
    let p = user_parts(path);
    law_accepted_paths_are_confined(path);
    assert(parent_of(p) =~= p.subrange(0, p.len() - 1));
    if is_free(a.staging(), a.disk(), p) {
        lemma_no_clash(a.staging(), a.disk(), p);
    }
}

/// What writing does: the path reads back as the data that was written, and as nothing else; nothing is
/// seen below it; everything else is seen as before; and the visible tree is as it was.
pub proof fn law_what_is_written_reads_back<'a, V: Vfs>(
    a: Transaction<'a, V>,
    b: Transaction<'a, V>,
    path: Name,
    data: Seq<u8>,
    mode: Option<u32>,
    other: Seq<u8>,
    q: PathView,
)
    requires
        wrote(a, b, path, data, mode, Ok::<(), Error>(())),
        faithful(a.staging(), a.disk()),
        a.disk().steady,
    ensures
        user_path_fault(path) is None,
        reads(b, path, data),
        reads(b, path, other) ==> other == data,
        sees_file(b.staging(), b.disk(), user_parts(path)),
        q != user_parts(path) && within(q, user_parts(path)) ==> b.staging().look(b.disk(), q) is Nothing,
        !within(q, user_parts(path)) ==> b.staging().look(b.disk(), q) == a.staging().look(a.disk(), q),
        same_tree(a.disk(), b.disk()),
{
    let p = user_parts(path);
    let (ov, x, y) = (a.staging(), a.disk(), b.disk());
    law_accepted_paths_are_confined(path);
    law_view_depends_on_the_tree(ov, x, y, p);
    law_view_depends_on_the_tree(ov, x, y, parent_of(p));
    law_view_depends_on_the_tree(ov, x, y, q);
    let inherited = ov.write_check(x, p)->Ok_0;
    let bits = if mode is Some {
        mode
    } else {
        inherited
    };
    let f = EntryView { kind: EKind::File, src: SrcView::Blob { n: a.stage.next(), mode: bits } };
    lemma_faithful_by_tree(ov, x, y);
    lemma_put_look(ov, y, p, f, q);
    lemma_put_look(ov, y, p, f, p);
    lemma_within(q, p);
    lemma_within(p, p);
}

/// A consistent story of the disk stays one as long as the tree does.
pub proof fn lemma_faithful_by_tree(ov: OverlayView, x: Disk, y: Disk)
    requires
        faithful(ov, x),
        same_tree(x, y),
        x.steady && y.steady,
    ensures
        faithful(ov, y),
{
    assert forall|p: PathView| #[trigger] ov.look(y, p) == ov.look(x, p) by {
        law_view_depends_on_the_tree(ov, x, y, p);
    }
    assert forall|k: PathView| #[trigger] ov.placed.contains_key(k) implies (ov.look(y, k.drop_last()) matches Look::Found(e)
        && e.kind == EKind::Dir) by {
        assert(ov.look(y, k.drop_last()) == ov.look(x, k.drop_last()));
    }
    assert forall|v: PathView, n: Name|
        #![trigger ov.placed.contains_key(v.push(n))]
        ov.placed.contains_key(v.push(n)) implies (ov.look(y, v) matches Look::Found(e) && (origin_of(e) matches Some(o)
        ==> ov.detached.contains_key(o.push(n)) || !(base_look(y, ov.case_insensitive, o.push(n)) is Found))) by {
        assert(ov.look(y, v) == ov.look(x, v));
        if let Some(o) = origin_of(ov.look(x, v)->Found_0) {
            lemma_base_look_same(x, y, ov.case_insensitive, o.push(n));
        }
    }
    assert(connected(ov, y));
}

/// Why writing is refused.
pub proof fn law_why_writing_is_refused<'a, V: Vfs>(
    a: Transaction<'a, V>,
    b: Transaction<'a, V>,
    path: Name,
    data: Seq<u8>,
    mode: Option<u32>,
    e: Error,
)
    requires
        wrote(a, b, path, data, mode, Err::<(), Error>(e)),
        user_path_fault(path) is None,
    ensures
        ({
            let p = user_parts(path);
            let up = p.subrange(0, p.len() - 1);
            let (ov, d) = (a.staging(), a.disk());
            match e {
                Error::Io(_) => true,
                Error::NotFound(q) => q@ == up && ov.look(d, up) is Nothing,
                Error::NotADirectory(q) => q@ == up && (ov.look(d, up) matches Look::Found(f) && f.kind != EKind::Dir),
                Error::IsADirectory(q) => q@ == p && sees_dir(ov, d, p),
                Error::UnsupportedFileType(q) => q@ == p && (ov.look(d, p) matches Look::Found(f) && f.kind == EKind::Special),
                Error::CaseCollision { .. } => ov.case_insensitive || ov.look(d, p) is Clash || ov.look(d, up) is Clash,
                _ => false,
            }
        }),
        b.staging() == a.staging(),
        same_tree(a.disk(), b.disk()),
{
    let p = user_parts(path);
    law_accepted_paths_are_confined(path);
    assert(parent_of(p) =~= p.subrange(0, p.len() - 1));
}

// Permission bits.

/// The bits are those of the object.
pub open spec fn has_bits(o: Object, bits: u32) -> bool {
    match o {
        Object::File { mode, .. } => bits == mode,
        Object::Dir { mode } => bits == mode,
        _ => bits == 0,
    }
}

/// An entry from the disk carries the bits of the object at its base path.
pub open spec fn bits_right(d: Disk, e: EntryView) -> bool {
    e.src matches SrcView::Base { origin, mode, .. } ==> origin.len() > 0 ==> (d.resolve(origin) matches Some(id) && has_bits(
        d.objects[id],
        mode,
    ))
}

/// Whatever was placed from the disk carries its bits.
pub open spec fn bits_kept(ov: OverlayView, d: Disk) -> bool {
    forall|k: PathView| #[trigger] ov.placed.contains_key(k) ==> (ov.placed[k] matches SlotView::Present(e) ==> bits_right(d, e))
}

/// What is seen from the disk carries its bits.
proof fn lemma_bits_seen(ov: OverlayView, d: Disk, p: PathView)
    requires
        bits_kept(ov, d),
        ov.look(d, p) is Found,
    ensures
        bits_right(d, ov.look(d, p)->Found_0),
{
}

/// A replaced file keeps its bits. A write that asks for none, over a file that is seen from the disk,
/// stages a file with the very bits of that file's object.
pub proof fn law_a_replaced_file_keeps_its_bits<'a, V: Vfs>(
    a: Transaction<'a, V>,
    b: Transaction<'a, V>,
    path: Name,
    data: Seq<u8>,
    from: PathView,
)
    requires
        wrote(a, b, path, data, None, Ok::<(), Error>(())),
        bits_kept(a.staging(), a.disk()),
        a.staging().rooted(a.disk()),
        a.disk().well_formed(),
        sees_file(a.staging(), a.disk(), user_parts(path)),
        origin_of(a.staging().look(a.disk(), user_parts(path))->Found_0) == Some(from),
        from.len() > 0,
    ensures
        a.disk().resolve(from) matches Some(id) && a.disk().objects[id] is File && (b.sees(user_parts(path)) matches Ok(q) && (
        b.disk().file_at(q) matches Some(new) && b.disk().objects[new]->File_mode == a.disk().objects[id]->File_mode
            && b.disk().objects[new]->data == data)),
{
    let p = user_parts(path);
    let (ov, d) = (a.staging(), a.disk());
    lemma_bits_seen(ov, d, p);
    crate::overlay::lemma_found_is_rooted(ov, d, p);
    assert(d.file_at(from) is Some);
}

/// On a tree in which nothing was decided yet, that is the file at the path itself.
pub proof fn law_a_file_of_the_tree_keeps_its_bits<'a, V: Vfs>(
    a: Transaction<'a, V>,
    b: Transaction<'a, V>,
    path: Name,
    data: Seq<u8>,
)
    requires
        wrote(a, b, path, data, None, Ok::<(), Error>(())),
        untouched(a.staging()),
        !a.staging().case_insensitive,
        a.disk().file_at(user_parts(path)) is Some,
    ensures
        ({
            let id = a.disk().file_at(user_parts(path))->0;
            b.sees(user_parts(path)) matches Ok(q) && (b.disk().file_at(q) matches Some(new) && b.disk().objects[new]->File_mode
                == a.disk().objects[id]->File_mode)
        }),
{
    let p = user_parts(path);
    let (ov, d) = (a.staging(), a.disk());
    law_accepted_paths_are_confined(path);
    law_an_untouched_tree_is_seen(ov, d, p);
}

/// Bits that are asked for are the ones that the file gets, and a file that was staged before keeps those
/// it was staged with.
pub proof fn law_bits_asked_for_are_given<'a, V: Vfs>(
    a: Transaction<'a, V>,
    b: Transaction<'a, V>,
    path: Name,
    data: Seq<u8>,
    mode: Option<u32>,
    bits: u32,
)
    requires
        wrote(a, b, path, data, mode, Ok::<(), Error>(())),
        mode == Some(bits) || mode is None && sees_file(a.staging(), a.disk(), user_parts(path)) && (a.staging().look(
            a.disk(),
            user_parts(path),
        )->Found_0.src matches SrcView::Blob { mode: m, .. } && m == Some(bits)),
    ensures
        b.sees(user_parts(path)) matches Ok(q) && (b.disk().file_at(q) matches Some(new) && b.disk().objects[new]->File_mode
            == bits),
        b.staging().look(b.disk(), user_parts(path)) matches Look::Found(e) && (e.src matches SrcView::Blob { mode: m, .. } && m
            == Some(bits)),
{
    let p = user_parts(path);
    let (x, y) = (a.disk(), b.disk());
    assert(b.sees(p) is Ok);
}

// The tree as it is.

/// Where nothing was decided, what is seen is what is on the disk: at every path outside the private area
/// the object that is there, of its kind, with its identity and its bits, or nothing.
pub proof fn law_an_untouched_tree_is_seen(ov: OverlayView, d: Disk, q: PathView)
    requires
        untouched(ov),
        !ov.case_insensitive,
        q.len() > 0,
        !private_path(q),
    ensures
        match d.resolve(q) {
            Some(id) => ov.look(d, q) matches Look::Found(e) && {
                &&& e.kind == (match d.objects[id] {
                    Object::File { .. } => EKind::File,
                    Object::Dir { .. } => EKind::Dir,
                    _ => EKind::Special,
                })
                &&& e.src matches SrcView::Base { origin, id: shown, mode } && origin == q && shown == (if d.steady {
                    id
                } else {
                    d.shown[id]
                }) && has_bits(d.objects[id], mode)
            },
            None => ov.look(d, q) is Nothing,
        },
    decreases q.len(),
{
    let up = q.drop_last();
    assert(up.push(q.last()) =~= q);
    if up.len() > 0 {
        assert(up[0] == q[0]);
        law_an_untouched_tree_is_seen(ov, d, up);
    } else {
        assert(up =~= Seq::empty());
    }
}

/// Where nothing was decided, a path reads as the content of the file on the disk, and something is found
/// exactly where something is.
pub proof fn law_an_untouched_tree_reads_as_it_is<'a, V: Vfs>(tx: Transaction<'a, V>, path: Name, data: Seq<u8>, there: bool)
    requires
        untouched(tx.staging()),
        !tx.staging().case_insensitive,
        tx.disk().well_formed(),
        user_path_fault(path) is None,
    ensures
        reads(tx, path, data) <==> (tx.disk().resolve(user_parts(path)) matches Some(id) && (tx.disk().objects[id] matches Object::File {
            data: held,
            ..
        } && held == data)),
        finds(tx, path, there) <==> there == (tx.disk().resolve(user_parts(path)) is Some),
{
    let p = user_parts(path);
    law_accepted_paths_are_confined(path);
    law_an_untouched_tree_is_seen(tx.staging(), tx.disk(), p);
    if tx.disk().resolve(p) is Some {
        crate::overlay::lemma_resolved_is_known(tx.disk(), p);
    }
}

/// Carrying the bits of the disk starts with nothing placed, and is kept by every change.
pub proof fn law_bits_are_kept_by_every_change(ov: OverlayView, d: Disk, p: PathView, to: PathView, n: u64, mode: Option<u32>)
    ensures
        untouched(ov) ==> bits_kept(ov, d),
        bits_kept(ov, d) && ov.look(d, p) is Found ==> bits_kept(ov.removed(p, ov.look(d, p)->Found_0), d),
        bits_kept(ov, d) ==> bits_kept(ov.written(d, p, n, mode), d),
        bits_kept(ov, d) ==> bits_kept(ov.with_new_dir(p), d),
        bits_kept(ov, d) && faithful(ov, d) && can_rename(ov, d, p, to) ==> bits_kept(
            ov.moved(p, to, ov.look(d, p)->Found_0),
            d,
        ),
{
    if bits_kept(ov, d) {
        if ov.look(d, p) is Found {
            let e = ov.look(d, p)->Found_0;
            lemma_bits_seen(ov, d, p);
            let now = ov.removed(p, e);
            assert forall|k: PathView| #[trigger] now.placed.contains_key(k) implies (now.placed[k] matches SlotView::Present(x)
                ==> bits_right(d, x)) by {
                if now.placed[k] is Present {
                    assert(ov.placed.contains_key(k) && ov.placed[k] == now.placed[k]);
                }
            }
            if faithful(ov, d) && can_rename(ov, d, p, to) {
                let then = ov.moved(p, to, e);
                assert forall|k: PathView| #[trigger] then.placed.contains_key(k) implies (then.placed[k] matches SlotView::Present(
                    x,
                ) ==> bits_right(d, x)) by {
                    if then.placed[k] is Present {
                        let was = lemma_moved_entry(ov, d, p, to, k);
                        if k != to {
                            assert(ov.placed.contains_key(was));
                        }
                    }
                }
            }
        }
        let now = ov.written(d, p, n, mode);
        assert forall|k: PathView| #[trigger] now.placed.contains_key(k) implies (now.placed[k] matches SlotView::Present(x)
            ==> bits_right(d, x)) by {
            if k != p {
                assert(ov.placed.contains_key(k));
            }
        }
        let made = ov.with_new_dir(p);
        assert forall|k: PathView| #[trigger] made.placed.contains_key(k) implies (made.placed[k] matches SlotView::Present(x)
            ==> bits_right(d, x)) by {
            if k != p {
                assert(ov.placed.contains_key(k));
            }
        }
    }
}

/// So it is by staging a file, which leaves the tree as it is.
pub proof fn law_bits_are_kept_while_the_tree_is(ov: OverlayView, x: Disk, y: Disk)
    requires
        bits_kept(ov, x),
        ov.sound(),
        same_tree(x, y),
    ensures
        bits_kept(ov, y),
{
    assert forall|k: PathView| #[trigger] ov.placed.contains_key(k) implies (ov.placed[k] matches SlotView::Present(e)
        ==> bits_right(y, e)) by {
        if let SlotView::Present(e) = ov.placed[k] {
            if let SrcView::Base { origin, .. } = e.src {
                assert(tree_path(origin));
                assert(y.resolve(origin) == x.resolve(origin));
                assert(bits_right(x, e));
            }
        }
    }
}

// Making directories.

/// Making directories succeeds where it can: at every step of the way a directory is seen, or nothing and
/// the name is free.
pub proof fn law_making_directories_succeeds_where_it_can<'a, V: Vfs>(
    a: Transaction<'a, V>,
    b: Transaction<'a, V>,
    path: Name,
    r: Result<()>,
)
    requires
        mkdir_step(a, b, path, r),
        user_path_fault(path) is None,
        faithful(a.staging(), a.disk()),
        !a.staging().case_insensitive,
        !a.disk().folds,
        a.staging().next_dir + user_parts(path).len() <= u64::MAX,
        forall|i: int|
            0 < i <= user_parts(path).len() ==> {
                let q = #[trigger] user_parts(path).subrange(0, i);
                sees_dir(a.staging(), a.disk(), q) || a.staging().look(a.disk(), q) is Nothing
            },
    ensures
        r is Ok || broke(r),
        r is Ok ==> forall|i: int|
            0 <= i <= user_parts(path).len() ==> sees_dir(b.staging(), b.disk(), #[trigger] user_parts(path).subrange(0, i)),
{
    let p = user_parts(path);
    law_accepted_paths_are_confined(path);
    lemma_dirs_succeed(a.staging(), a.disk(), p, p.len() as int);
    if r is Ok {
        assert forall|i: int| 0 <= i <= p.len() implies sees_dir(b.staging(), b.disk(), #[trigger] p.subrange(0, i)) by {
            crate::sight::law_all_directories_are_made(a.staging(), a.disk(), p, i);
            assert(p.take(i) =~= p.subrange(0, i));
        }
    }
}

proof fn lemma_dirs_succeed(ov: OverlayView, d: Disk, p: PathView, n: int)
    requires
        faithful(ov, d),
        !ov.case_insensitive,
        tree_path(p),
        0 <= n <= p.len(),
        ov.next_dir + n <= u64::MAX,
        forall|i: int|
            0 < i <= p.len() ==> {
                let q = #[trigger] p.subrange(0, i);
                sees_dir(ov, d, q) || ov.look(d, q) is Nothing
            },
    ensures
        ov.create_dirs(d, p, n).1 is None,
        faithful(ov.create_dirs(d, p, n).0, d),
        !ov.create_dirs(d, p, n).0.case_insensitive,
        ov.create_dirs(d, p, n).0.next_dir <= ov.next_dir + n,
        n > 0 ==> sees_dir(ov.create_dirs(d, p, n).0, d, p.take(n)),
        forall|i: int|
            n < i <= p.len() ==> {
                let q = #[trigger] p.subrange(0, i);
                sees_dir(ov.create_dirs(d, p, n).0, d, q) || ov.create_dirs(d, p, n).0.look(d, q) is Nothing
            },
    decreases n,
{
    if n > 0 {
        lemma_dirs_succeed(ov, d, p, n - 1);
        let was = ov.create_dirs(d, p, n - 1).0;
        let q = p.take(n);
        assert(q =~= p.subrange(0, n));
        crate::overlay::lemma_prefix_in_tree(p, n);
        assert(q.drop_last() =~= p.take(n - 1));
        assert(parent_of(q) =~= p.take(n - 1));
        assert(sees_dir(was, d, p.take(n - 1))) by {
            if n == 1 {
                assert(p.take(0).len() == 0);
            }
        }
        if was.look(d, q) is Nothing {
            assert(was.parent_fault(d, q) is None);
            assert(!was.name_clash(d, q));
            law_making_a_directory_stays_faithful(was, d, q);
            let now = was.with_new_dir(q);
            assert(ov.create_dirs(d, p, n) == (now, None::<Fault>));
            law_a_new_directory_is_empty(was, d, q, q);
            assert forall|i: int| n < i <= p.len() implies ({
                let z = #[trigger] p.subrange(0, i);
                sees_dir(now, d, z) || now.look(d, z) is Nothing
            }) by {
                let z = p.subrange(0, i);
                assert(sees_dir(was, d, z) || was.look(d, z) is Nothing);
                law_a_new_directory_is_empty(was, d, q, z);
            }
        }
    }
}

/// Making directories leaves the rest alone: a path that is not one of the steps of the way is seen as
/// before.
pub proof fn law_making_directories_leaves_the_rest<'a, V: Vfs>(a: Transaction<'a, V>, b: Transaction<'a, V>, path: Name, q: PathView)
    requires
        mkdir_step(a, b, path, Ok::<(), Error>(())),
        faithful(a.staging(), a.disk()),
        a.staging().next_dir + user_parts(path).len() <= u64::MAX,
        !within(user_parts(path), q),
    ensures
        user_path_fault(path) is None,
        b.staging().look(b.disk(), q) == a.staging().look(a.disk(), q),
        b.disk() == a.disk(),
{
    let p = user_parts(path);
    law_accepted_paths_are_confined(path);
    lemma_dirs_elsewhere(a.staging(), a.disk(), p, p.len() as int, q);
}

proof fn lemma_dirs_elsewhere(ov: OverlayView, d: Disk, p: PathView, n: int, q: PathView)
    requires
        faithful(ov, d),
        tree_path(p),
        0 <= n <= p.len(),
        ov.next_dir + n <= u64::MAX,
        ov.create_dirs(d, p, n).1 is None,
        !within(p, q),
    ensures
        ov.create_dirs(d, p, n).0.look(d, q) == ov.look(d, q),
    decreases n,
{
    if n > 0 {
        lemma_dirs_elsewhere(ov, d, p, n - 1, q);
        lemma_dirs_made(ov, d, p, n - 1);
        let was = ov.create_dirs(d, p, n - 1).0;
        let z = p.take(n);
        crate::overlay::lemma_prefix_in_tree(p, n);
        lemma_within(p, q);
        if was.look(d, z) is Nothing {
            law_a_new_directory_is_empty(was, d, z, q);
            if q == z {
                assert(p.take(q.len() as int) =~= q);
            } else if leads_on(q, z) {
                if q.len() > z.len() {
                    crate::overlay::lemma_look_stops(was, d, q, z.len() as int);
                } else {
                    assert(q =~= z);
                }
            }
        }
    }
}

/// Why making directories is refused: at a step of the way something is seen that is no directory; or a
/// name differs in case only.
pub proof fn law_why_making_directories_is_refused<'a, V: Vfs>(a: Transaction<'a, V>, b: Transaction<'a, V>, path: Name, e: Error)
    requires
        mkdir_step(a, b, path, Err::<(), Error>(e)),
        user_path_fault(path) is None,
        faithful(a.staging(), a.disk()),
        a.staging().next_dir + user_parts(path).len() <= u64::MAX,
        !a.staging().case_insensitive,
        !a.disk().folds,
    ensures
        match e {
            Error::Io(_) => true,
            Error::NotADirectory(q) => within(user_parts(path), q@) && (a.staging().look(a.disk(), q@) matches Look::Found(f) && f.kind
                != EKind::Dir),
            _ => exists|i: int| 0 < i <= user_parts(path).len() && (#[trigger] a.staging().look(
                a.disk(),
                user_parts(path).subrange(0, i),
            )) is Clash,
        },
        b.disk() == a.disk(),
{
    let p = user_parts(path);
    law_accepted_paths_are_confined(path);
    if !(e is Io) {
        lemma_dirs_refused(a.staging(), a.disk(), p, p.len() as int);
    }
}

proof fn lemma_dirs_refused(ov: OverlayView, d: Disk, p: PathView, n: int)
    requires
        faithful(ov, d),
        tree_path(p),
        !ov.case_insensitive,
        0 <= n <= p.len(),
        ov.next_dir + n <= u64::MAX,
        ov.create_dirs(d, p, n).1 is Some,
    ensures
        match ov.create_dirs(d, p, n).1->0 {
            Fault::NotADirectory(q) => within(p, q) && (ov.look(d, q) matches Look::Found(f) && f.kind != EKind::Dir),
            Fault::Clash(_) => exists|i: int| 0 < i <= p.len() && (#[trigger] ov.look(d, p.subrange(0, i))) is Clash,
            _ => false,
        },
    decreases n,
{
    if ov.create_dirs(d, p, n - 1).1 is Some {
        lemma_dirs_refused(ov, d, p, n - 1);
    } else {
        let was = ov.create_dirs(d, p, n - 1).0;
        let q = p.take(n);
        lemma_dirs_made(ov, d, p, n - 1);
        lemma_way_ahead(ov, d, p, n - 1, n);
        lemma_same_fold(ov, d, p, n - 1);
        lemma_within(p, q);
        assert(q =~= p.subrange(0, n));
        assert(parent_of(q) =~= p.take(n - 1));
        assert(sees_dir(was, d, p.take(n - 1)));
        if was.look(d, q) is Clash {
            assert(ov.look(d, p.subrange(0, n)) is Clash);
        }
    }
}

/// The setting for case stays.
proof fn lemma_same_fold(ov: OverlayView, d: Disk, p: PathView, n: int)
    ensures
        ov.create_dirs(d, p, n).0.case_insensitive == ov.case_insensitive,
    decreases n,
{
    if n > 0 {
        lemma_same_fold(ov, d, p, n - 1);
    }
}

/// What is seen further on is what was seen there, or nothing.
proof fn lemma_way_ahead(ov: OverlayView, d: Disk, p: PathView, n: int, i: int)
    requires
        faithful(ov, d),
        tree_path(p),
        0 <= n < i <= p.len(),
        ov.next_dir + n <= u64::MAX,
        ov.create_dirs(d, p, n).1 is None,
    ensures
        ov.create_dirs(d, p, n).0.look(d, p.take(i)) == ov.look(d, p.take(i)) || ov.create_dirs(d, p, n).0.look(d, p.take(i)) is Nothing,
    decreases n,
{
    if n > 0 {
        lemma_way_ahead(ov, d, p, n - 1, i);
        lemma_dirs_made(ov, d, p, n - 1);
        let was = ov.create_dirs(d, p, n - 1).0;
        let z = p.take(n);
        crate::overlay::lemma_prefix_in_tree(p, n);
        if was.look(d, z) is Nothing {
            law_a_new_directory_is_empty(was, d, z, p.take(i));
            assert(p.take(i).len() == i);
        }
    }
}

// Which answer comes first, where there are several.

/// The result is this error, unless the filesystem failed.
pub open spec fn is_not_found<T>(r: Result<T>, p: PathView) -> bool {
    broke(r) || (r matches Err(Error::NotFound(q)) && q@ == p)
}

/// A name beside `p` is that of something, and differs from its name in case only.
pub open spec fn crowded(ov: OverlayView, d: Disk, p: PathView) -> bool {
    ov.case_insensitive && exists|n: Name|
        folded(n) == folded(p.last()) && (#[trigger] ov.look(d, p.subrange(0, p.len() - 1).push(n))) is Found
}

/// Where a name like that of `p` is seen beside it, there is a clash.
proof fn lemma_clash(ov: OverlayView, d: Disk, p: PathView)
    requires
        tree_path(p),
        crowded(ov, d, p),
        faithful(ov, d),
        d.folds ==> ov.case_insensitive,
        sees_dir(ov, d, p.subrange(0, p.len() - 1)),
    ensures
        ov.name_clash(d, p),
        parent_of(p) == p.subrange(0, p.len() - 1),
{
    let up = p.subrange(0, p.len() - 1);
    assert(parent_of(p) =~= up);
    let e = ov.look(d, up)->Found_0;
    let n = choose|n: Name| folded(n) == folded(p.last()) && (#[trigger] ov.look(d, up.push(n))) is Found;
    if up.len() > 0 {
        crate::overlay::lemma_prefix_in_tree(p, up.len() as int);
        assert(p.take(up.len() as int) =~= up);
    }
    law_listed_is_seen(ov, d, up, n);
    assert(ov.visible(d, parent_of(p), e, n));
}

/// Which answer a move gets, by the first thing that is so: nothing at the source; a special file there;
/// the target is the source, and nothing is to be done; the target leads on from the source; nothing, or
/// no directory, above the target; something at the target; a name beside it that differs in case only.
pub proof fn law_which_answer_a_move_gets<'a, V: Vfs>(a: Transaction<'a, V>, b: Transaction<'a, V>, from: Name, to: Name, r: Result<()>)
    requires
        rename_step(a, b, from, to, r),
        user_path_fault(from) is None,
        user_path_fault(to) is None,
        faithful(a.staging(), a.disk()),
        a.disk().folds ==> a.staging().case_insensitive,
    ensures
        ({
            let (x, y) = (user_parts(from), user_parts(to));
            let up = y.subrange(0, y.len() - 1);
            let (ov, d) = (a.staging(), a.disk());
            if ov.look(d, x) is Clash {
                r is Err
            } else if ov.look(d, x) is Nothing {
                is_not_found(r, x)
            } else if !sees_file(ov, d, x) && !sees_dir(ov, d, x) {
                broke(r) || (r matches Err(Error::UnsupportedFileType(q)) && q@ == x)
            } else if x == y {
                broke(r) || r is Ok && b.staging() == a.staging()
            } else if within(y, x) {
                broke(r) || (r matches Err(Error::InvalidMove { from: f, to: t }) && f@ == x && t@ == y)
            } else if ov.look(d, up) is Nothing {
                is_not_found(r, up)
            } else if ov.look(d, up) is Clash || ov.look(d, y) is Clash {
                r is Err
            } else if !sees_dir(ov, d, up) {
                broke(r) || (r matches Err(Error::NotADirectory(q)) && q@ == up)
            } else if ov.look(d, y) is Found {
                broke(r) || (r matches Err(Error::AlreadyExists(q)) && q@ == y)
            } else if crowded(ov, d, y) {
                broke(r) || (r matches Err(Error::CaseCollision { path, .. }) && path@ == y)
            } else {
                broke(r) || r is Ok
            }
        }),
{
    let (x, y) = (user_parts(from), user_parts(to));
    let (ov, d) = (a.staging(), a.disk());
    let up = y.subrange(0, y.len() - 1);
    law_accepted_paths_are_confined(to);
    assert(parent_of(y) =~= up);
    law_above_is_by_whole_components(x, y);
    if within(y, x) && x.len() == y.len() {
        assert(x =~= y);
    }
    if ov.look(d, y) is Nothing && sees_dir(ov, d, up) {
        if crowded(ov, d, y) {
            lemma_clash(ov, d, y);
        } else {
            assert(is_free(ov, d, y));
            lemma_no_clash(ov, d, y);
        }
    }
}

/// Which answer a write gets, by the first thing that is so: nothing, or no directory, above the path; a
/// directory at the path, or a special file; nothing there and a name beside it that differs in case only.
pub proof fn law_which_answer_a_write_gets<'a, V: Vfs>(
    a: Transaction<'a, V>,
    b: Transaction<'a, V>,
    path: Name,
    data: Seq<u8>,
    mode: Option<u32>,
    r: Result<()>,
)
    requires
        wrote(a, b, path, data, mode, r),
        user_path_fault(path) is None,
        faithful(a.staging(), a.disk()),
        a.disk().folds ==> a.staging().case_insensitive,
    ensures
        ({
            let p = user_parts(path);
            let up = p.subrange(0, p.len() - 1);
            let (ov, d) = (a.staging(), a.disk());
            if ov.look(d, up) is Nothing {
                is_not_found(r, up)
            } else if ov.look(d, up) is Clash || ov.look(d, p) is Clash {
                r is Err
            } else if !sees_dir(ov, d, up) {
                broke(r) || (r matches Err(Error::NotADirectory(q)) && q@ == up)
            } else if sees_dir(ov, d, p) {
                broke(r) || (r matches Err(Error::IsADirectory(q)) && q@ == p)
            } else if ov.look(d, p) is Found && !sees_file(ov, d, p) {
                broke(r) || (r matches Err(Error::UnsupportedFileType(q)) && q@ == p)
            } else if ov.look(d, p) is Nothing && crowded(ov, d, p) {
                broke(r) || (r matches Err(Error::CaseCollision { path, .. }) && path@ == p)
            } else {
                broke(r) || r is Ok
            }
        }),
{
    let p = user_parts(path);
    let (ov, d) = (a.staging(), a.disk());
    let up = p.subrange(0, p.len() - 1);
    law_accepted_paths_are_confined(path);
    assert(parent_of(p) =~= up);
    if ov.look(d, p) is Nothing && sees_dir(ov, d, up) {
        if crowded(ov, d, p) {
            lemma_clash(ov, d, p);
        } else {
            assert(is_free(ov, d, p));
            lemma_no_clash(ov, d, p);
        }
    }
}

/// Which answer removing gets.
pub proof fn law_which_answer_removing_gets<'a, V: Vfs>(a: Transaction<'a, V>, b: Transaction<'a, V>, path: Name, all: bool, r: Result<()>)
    requires
        remove_step(a, b, path, all, r),
        user_path_fault(path) is None,
        faithful(a.staging(), a.disk()),
        a.disk().folds ==> a.staging().case_insensitive,
    ensures
        ({
            let p = user_parts(path);
            let (ov, d) = (a.staging(), a.disk());
            if ov.look(d, p) is Clash {
                r is Err
            } else if ov.look(d, p) is Nothing {
                is_not_found(r, p)
            } else if !sees_file(ov, d, p) && !sees_dir(ov, d, p) {
                broke(r) || (r matches Err(Error::UnsupportedFileType(q)) && q@ == p)
            } else if all && sees_file(ov, d, p) {
                broke(r) || (r matches Err(Error::NotADirectory(q)) && q@ == p)
            } else if !all && sees_dir(ov, d, p) && exists|n: Name| (#[trigger] ov.look(d, p.push(n))) is Found {
                broke(r) || (r matches Err(Error::DirectoryNotEmpty(q)) && q@ == p)
            } else {
                broke(r) || r is Ok
            }
        }),
{
    let p = user_parts(path);
    let (ov, d) = (a.staging(), a.disk());
    law_accepted_paths_are_confined(path);
    if !all && sees_dir(ov, d, p) {
        let e = ov.look(d, p)->Found_0;
        assert forall|n: Name| ov.visible(d, p, e, n) <==> (#[trigger] ov.look(d, p.push(n))) is Found by {
            law_listed_is_seen(ov, d, p, n);
        }
        if exists|n: Name| (#[trigger] ov.look(d, p.push(n))) is Found {
            let n = choose|n: Name| (#[trigger] ov.look(d, p.push(n))) is Found;
            assert(ov.visible(d, p, e, n));
        }
        if exists|n: Name| ov.visible(d, p, e, n) {
            let n = choose|n: Name| ov.visible(d, p, e, n);
            assert(ov.look(d, p.push(n)) is Found);
        }
    }
}

/// Which answer reading gets: the content of a file, or why there is none.
pub proof fn law_which_answer_reading_gets<'a, V: Vfs>(tx: Transaction<'a, V>, p: PathView)
    ensures
        ({
            let (ov, d) = (tx.staging(), tx.disk());
            match tx.sees(p) {
                Ok(q) => sees_file(ov, d, p),
                Err(f) => match f {
                    Fault::NotFound(x) => x == p && ov.look(d, p) is Nothing,
                    Fault::IsADirectory(x) => x == p && (sees_dir(ov, d, p) || ov.look(d, p)->Found_0.src is NewDir),
                    Fault::UnsupportedFileType(x) => x == p && ov.look(d, p) is Found && !sees_dir(ov, d, p) && !sees_file(ov, d, p),
                    Fault::Clash(_) => ov.look(d, p) is Clash,
                    _ => false,
                },
            }
        }),
        sees_file(tx.staging(), tx.disk(), p) && origin_of(tx.staging().look(tx.disk(), p)->Found_0) is Some ==> tx.sees(p) == Ok::<
            PathView,
            Fault,
        >(origin_of(tx.staging().look(tx.disk(), p)->Found_0)->0),
{
}

/// Names that differ in case only are told apart exactly where the filesystem tells them apart: where it
/// does not, what is seen at a path has the very name that is stored.
pub proof fn law_a_name_in_another_case_is_not_seen(ov: OverlayView, d: Disk, q: PathView)
    requires
        untouched(ov),
        ov.case_insensitive,
        q.len() > 0,
        !private_path(q),
        ov.look(d, q) is Found,
    ensures
        exists|dir: FileId| #[trigger] d.names.contains_key(crate::disk::Key { dir, name: q.last() }) && d.resolve(
            q.drop_last(),
        ) == Some(dir),
    decreases q.len(),
{
    let up = q.drop_last();
    crate::outcome::lemma_seen_at_home(ov, d, up);
    assert(up.push(q.last()) =~= q);
    assert(parent_of(q) =~= up);
    let dir = d.dir_at(up)->0;
    assert(d.names.contains_key(crate::disk::Key { dir, name: q.last() }));
}

} // verus!
