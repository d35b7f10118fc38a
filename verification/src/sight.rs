//! What a transaction sees after each change: a write shows the new file, a new directory is empty,
//! what was removed is gone, and what was moved is seen at its new place, with everything below.
use vstd::prelude::*;

use crate::bytes::Name;
use crate::disk::Disk;
use crate::overlay::{
    base_look, lemma_below_in_tree, lemma_found_is_sound, lemma_look_stops, lemma_prefix_in_tree, origin_of, sound_entry, EKind, EntryView, Fault, Gone, Look, OverlayView, SlotView,
    SrcView,
};
use crate::path::{ancestor, is_component, parent_of, tree_path, PathView};
use crate::tree::leads_on;

verus! {

/// What is noted of an entry from the disk that has left its base path.
pub open spec fn gone_of(e: EntryView) -> Gone {
    Gone { id: e.src->Base_id, kind: e.kind }
}

/// Decisions stand in directories that are seen.
pub open spec fn connected(ov: OverlayView, d: Disk) -> bool {
    forall|k: PathView| #[trigger]
        ov.placed.contains_key(k) ==> (ov.look(d, k.drop_last()) matches Look::Found(e) && e.kind == EKind::Dir)
}

/// A decision on a name in a directory from the disk stands for what is there: that has left its
/// base path, or nothing is there.
pub open spec fn overlaid(ov: OverlayView, d: Disk) -> bool {
    forall|v: PathView, n: Name|
        #![trigger ov.placed.contains_key(v.push(n))]
        ov.placed.contains_key(v.push(n)) ==> (ov.look(d, v) matches Look::Found(e) && (origin_of(e) matches Some(o)
            ==> ov.detached.contains_key(o.push(n)) || !(base_look(d, ov.case_insensitive, o.push(n)) is Found)))
}

/// What was placed from the disk is noted as it was found, and nothing is placed twice.
pub open spec fn coherent(ov: OverlayView) -> bool {
    &&& forall|k: PathView| #[trigger]
        ov.placed.contains_key(k) ==> (ov.placed[k] matches SlotView::Present(e) ==> (origin_of(e) matches Some(o)
            ==> ov.detached.contains_key(o) && ov.detached[o] == gone_of(e)) && (e.src matches SrcView::NewDir { n } ==> n
            < ov.next_dir))
    &&& forall|k: PathView, l: PathView|
        #![trigger ov.placed.contains_key(k), ov.placed.contains_key(l)]
        ov.placed.contains_key(k) && ov.placed.contains_key(l) && once(ov.placed[k], ov.placed[l]) ==> k == l
}

/// The two decisions place one entry from the disk, or one new directory.
pub open spec fn once(a: SlotView, b: SlotView) -> bool {
    a matches SlotView::Present(e) && b matches SlotView::Present(f) && {
        ||| origin_of(e) is Some && origin_of(e) == origin_of(f)
        ||| e.src is NewDir && e.src == f.src
    }
}

/// The decisions tell a consistent story of the disk.
pub open spec fn faithful(ov: OverlayView, d: Disk) -> bool {
    ov.sound() && connected(ov, d) && overlaid(ov, d) && coherent(ov)
}

/// Without decisions the story is consistent.
pub proof fn law_nothing_decided_is_faithful(ov: OverlayView, d: Disk)
    requires
        ov.placed == Map::<PathView, SlotView>::empty(),
        ov.detached == Map::<PathView, Gone>::empty(),
    ensures
        faithful(ov, d),
{
}

/// An entry from the disk is seen at one place.
pub proof fn law_seen_once(ov: OverlayView, d: Disk, x: PathView, y: PathView)
    requires
        ov.sound(),
        coherent(ov),
        ov.look(d, x) matches Look::Found(e) && ov.look(d, y) matches Look::Found(f) && origin_of(e) is Some && origin_of(e)
            == origin_of(f),
    ensures
        x == y,
    decreases x.len(),
{
    let e = ov.look(d, x)->Found_0;
    let f = ov.look(d, y)->Found_0;
    let o = origin_of(e)->0;
    if x.len() == 0 {
        if y.len() > 0 {
            assert(o.len() == 0);
            if ov.placed.contains_key(y) {
                assert(sound_entry(f));
            }
        }
        assert(x =~= y);
    } else if y.len() == 0 {
        if ov.placed.contains_key(x) {
            assert(sound_entry(e));
        }
    } else if ov.placed.contains_key(x) && ov.placed.contains_key(y) {
        assert(once(ov.placed[x], ov.placed[y]));
    } else if ov.placed.contains_key(x) {
        assert(ov.detached.contains_key(o));
    } else if ov.placed.contains_key(y) {
        assert(ov.detached.contains_key(o));
    } else {
        let u = origin_of(ov.look(d, x.drop_last())->Found_0)->0;
        let v = origin_of(ov.look(d, y.drop_last())->Found_0)->0;
        assert(o == u.push(x.last()) && o == v.push(y.last()));
        assert(u =~= o.drop_last() && v =~= o.drop_last());
        assert(o.last() == x.last() && o.last() == y.last());
        law_seen_once(ov, d, x.drop_last(), y.drop_last());
        assert(x =~= x.drop_last().push(x.last()));
        assert(y =~= y.drop_last().push(y.last()));
    }
}

/// What is seen depends on the decisions on the way, and on what has left its base path.
proof fn lemma_prefix_look(a: OverlayView, b: OverlayView, d: Disk, q: PathView)
    requires
        a.detached == b.detached,
        a.root_id == b.root_id,
        a.case_insensitive == b.case_insensitive,
        forall|i: int|
            0 < i <= q.len() ==> a.placed.contains_key(#[trigger] q.take(i)) == b.placed.contains_key(q.take(i)) && (
            a.placed.contains_key(q.take(i)) ==> a.placed[q.take(i)] == b.placed[q.take(i)]),
    ensures
        a.look(d, q) == b.look(d, q),
    decreases q.len(),
{
    if q.len() > 0 {
        let r = q.drop_last();
        assert forall|i: int| 0 < i <= r.len() implies a.placed.contains_key(#[trigger] r.take(i))
            == b.placed.contains_key(r.take(i)) && (a.placed.contains_key(r.take(i)) ==> a.placed[r.take(i)]
            == b.placed[r.take(i)]) by {
            assert(r.take(i) =~= q.take(i));
        }
        lemma_prefix_look(a, b, d, r);
        assert(q.take(q.len() as int) =~= q);
    }
}

/// Noting that what is seen at `p` has left its base path changes nothing elsewhere.
proof fn lemma_detach_look(ov: OverlayView, d: Disk, p: PathView, q: PathView)
    requires
        ov.sound(),
        coherent(ov),
        p.len() > 0,
        ov.look(d, p) is Found,
        !leads_on(q, p),
    ensures
        ov.detach(ov.look(d, p)->Found_0).look(d, q) == ov.look(d, q),
    decreases q.len(),
{
    let e = ov.look(d, p)->Found_0;
    if q.len() > 0 {
        let r = q.drop_last();
        if leads_on(r, p) {
            assert(q.take(p.len() as int) =~= r.take(p.len() as int));
        }
        lemma_detach_look(ov, d, p, r);
        if let Look::Found(dir) = ov.look(d, r) {
            if dir.kind == EKind::Dir && !ov.placed.contains_key(q) && origin_of(dir) is Some {
                let b = origin_of(dir)->0.push(q.last());
                if origin_of(e) == Some(b) && !ov.detached.contains_key(b) {
                    // It is inherited at `p`, so it is on disk, and would be seen here too.
                    assert(!ov.placed.contains_key(p));
                    let up = ov.look(d, p.drop_last())->Found_0;
                    assert(origin_of(up)->0.push(p.last()) == b);
                    assert(ov.look(d, q) == ov.look(d, p));
                    law_seen_once(ov, d, q, p);
                    assert(q.take(p.len() as int) =~= p);
                }
            }
        }
    }
}

/// What is seen after `p` was removed: nothing there and below, and the same elsewhere.
pub proof fn law_what_was_removed_is_gone(ov: OverlayView, d: Disk, p: PathView, q: PathView)
    requires
        faithful(ov, d),
        p.len() > 0,
        ov.look(d, p) is Found,
    ensures
        ov.removed(p, ov.look(d, p)->Found_0).look(d, q) == (if leads_on(q, p) {
            Look::Nothing
        } else {
            ov.look(d, q)
        }),
{
    let e = ov.look(d, p)->Found_0;
    let now = ov.removed(p, e);
    if leads_on(q, p) {
        let r = p.drop_last();
        assert(!leads_on(r, p));
        lemma_removed_elsewhere(ov, d, p, r);
        assert(now.placed.contains_key(p) && now.placed[p] is Absent);
        assert(now.look(d, p) is Nothing);
        if q.len() > p.len() {
            lemma_look_stops(now, d, q, p.len() as int);
        } else {
            assert(q =~= p);
        }
    } else {
        lemma_removed_elsewhere(ov, d, p, q);
    }
}

proof fn lemma_removed_elsewhere(ov: OverlayView, d: Disk, p: PathView, q: PathView)
    requires
        ov.sound(),
        coherent(ov),
        p.len() > 0,
        ov.look(d, p) is Found,
        !leads_on(q, p),
    ensures
        ov.removed(p, ov.look(d, p)->Found_0).look(d, q) == ov.look(d, q),
{
    let e = ov.look(d, p)->Found_0;
    let now = ov.removed(p, e);
    let mid = ov.detach(e);
    lemma_detach_look(ov, d, p, q);
    assert forall|i: int| 0 < i <= q.len() implies now.placed.contains_key(#[trigger] q.take(i)) == mid.placed.contains_key(
        q.take(i),
    ) && (now.placed.contains_key(q.take(i)) ==> now.placed[q.take(i)] == mid.placed[q.take(i)]) by {
        let k = q.take(i);
        if k == p {
            assert(q.take(p.len() as int) =~= p);
        }
        if ancestor(p, k) {
            assert(q.take(p.len() as int) =~= k.take(p.len() as int));
        }
    }
    lemma_prefix_look(now, mid, d, q);
}

/// A decision that stands below a path that is not seen as a directory there is none.
proof fn lemma_none_below(ov: OverlayView, d: Disk, p: PathView, k: PathView)
    requires
        connected(ov, d),
        ov.placed.contains_key(k),
        ancestor(p, k),
    ensures
        ov.look(d, p) matches Look::Found(e) && e.kind == EKind::Dir,
{
    let r = k.drop_last();
    if r.len() > p.len() {
        if !(ov.look(d, p) matches Look::Found(e) && e.kind == EKind::Dir) {
            assert(r.take(p.len() as int) =~= k.take(p.len() as int));
            lemma_look_stops(ov, d, r, p.len() as int);
        }
    } else {
        assert(r =~= k.take(p.len() as int));
    }
}

/// What is seen after something was put at `p`, where no directory is seen: what was put, nothing
/// below it, and the same elsewhere.
pub proof fn lemma_put_look(ov: OverlayView, d: Disk, p: PathView, f: EntryView, q: PathView)
    requires
        faithful(ov, d),
        p.len() > 0,
        ov.parent_fault(d, p) is None,
        ov.look(d, p) matches Look::Found(e) ==> e.kind != EKind::Dir,
        origin_of(f) is None,
    ensures
        ({
            let gone = match ov.look(d, p) {
                Look::Found(e) => ov.detach(e),
                _ => ov,
            };
            gone.place(p, SlotView::Present(f)).look(d, q) == (if q == p {
                Look::Found(f)
            } else if leads_on(q, p) {
                Look::Nothing
            } else {
                ov.look(d, q)
            })
        }),
{
    let gone = match ov.look(d, p) {
        Look::Found(e) => ov.detach(e),
        _ => ov,
    };
    let now = gone.place(p, SlotView::Present(f));
    let r = p.drop_last();
    assert(r =~= parent_of(p));
    lemma_put_elsewhere(ov, d, p, f, r);
    assert(now.look(d, p) == Look::Found(f));
    if leads_on(q, p) {
        if q != p {
            if q.len() == p.len() {
                assert(q =~= p);
            }
            assert(ancestor(p, q));
            lemma_empty_below(now, ov, d, p, f, q);
        }
    } else {
        lemma_put_elsewhere(ov, d, p, f, q);
    }
}

/// Nothing is seen below something new at `p`, where no decisions stand below it.
proof fn lemma_empty_below(now: OverlayView, ov: OverlayView, d: Disk, p: PathView, f: EntryView, q: PathView)
    requires
        connected(ov, d),
        ov.look(d, p) matches Look::Found(e) ==> e.kind != EKind::Dir,
        forall|k: PathView| ancestor(p, k) ==> (#[trigger] now.placed.contains_key(k) ==> ov.placed.contains_key(k)),
        origin_of(f) is None,
        now.look(d, p) == Look::Found(f),
        ancestor(p, q),
    ensures
        now.look(d, q) is Nothing,
    decreases q.len(),
{
    let r = q.drop_last();
    if now.placed.contains_key(q) {
        lemma_none_below(ov, d, p, q);
    }
    if r.len() > p.len() {
        assert(r.take(p.len() as int) =~= q.take(p.len() as int));
        lemma_empty_below(now, ov, d, p, f, r);
    } else {
        assert(r =~= q.take(p.len() as int));
    }
}

proof fn lemma_put_elsewhere(ov: OverlayView, d: Disk, p: PathView, f: EntryView, q: PathView)
    requires
        ov.sound(),
        coherent(ov),
        p.len() > 0,
        !leads_on(q, p),
    ensures
        ({
            let gone = match ov.look(d, p) {
                Look::Found(e) => ov.detach(e),
                _ => ov,
            };
            gone.place(p, SlotView::Present(f)).look(d, q) == ov.look(d, q)
        }),
{
    let gone = match ov.look(d, p) {
        Look::Found(e) => ov.detach(e),
        _ => ov,
    };
    let now = gone.place(p, SlotView::Present(f));
    if ov.look(d, p) is Found {
        lemma_detach_look(ov, d, p, q);
    }
    assert forall|i: int| 0 < i <= q.len() implies now.placed.contains_key(#[trigger] q.take(i)) == gone.placed.contains_key(
        q.take(i),
    ) && (now.placed.contains_key(q.take(i)) ==> now.placed[q.take(i)] == gone.placed[q.take(i)]) by {
        if q.take(i) == p {
            assert(q.take(p.len() as int) =~= p);
        }
    }
    lemma_prefix_look(now, gone, d, q);
}

/// What is seen after a write to `p`: the new file, nothing below it, and the same elsewhere.
pub proof fn law_what_was_written_is_seen(ov: OverlayView, d: Disk, p: PathView, n: u64, mode: Option<u32>, q: PathView)
    requires
        faithful(ov, d),
        p.len() > 0,
        ov.write_check(d, p) is Ok,
    ensures
        ov.written(d, p, n, mode).look(d, q) == (if q == p {
            Look::Found(EntryView { kind: EKind::File, src: SrcView::Blob { n, mode } })
        } else if leads_on(q, p) {
            Look::Nothing
        } else {
            ov.look(d, q)
        }),
{
    lemma_put_look(ov, d, p, EntryView { kind: EKind::File, src: SrcView::Blob { n, mode } }, q);
}

/// What is seen after a directory was made at `p`: an empty directory, and the same elsewhere.
pub proof fn law_a_new_directory_is_empty(ov: OverlayView, d: Disk, p: PathView, q: PathView)
    requires
        faithful(ov, d),
        p.len() > 0,
        ov.look(d, p) is Nothing,
        ov.parent_fault(d, p) is None,
    ensures
        ov.with_new_dir(p).look(d, q) == (if q == p {
            Look::Found(EntryView { kind: EKind::Dir, src: SrcView::NewDir { n: ov.next_dir } })
        } else if leads_on(q, p) {
            Look::Nothing
        } else {
            ov.look(d, q)
        }),
{
    let f = EntryView { kind: EKind::Dir, src: SrcView::NewDir { n: ov.next_dir } };
    let now = ov.with_new_dir(p);
    let mid = ov.place(p, SlotView::Present(f));
    lemma_put_look(ov, d, p, f, q);
    lemma_prefix_look(now, mid, d, q);
}

/// Where something at `q` was before `from` was moved to `to`.
pub open spec fn came_from(from: PathView, to: PathView, q: PathView) -> PathView {
    from + q.skip(to.len() as int)
}

/// A rename from `from` to `to` is possible.
pub open spec fn can_rename(ov: OverlayView, d: Disk, from: PathView, to: PathView) -> bool {
    &&& from.len() > 0
    &&& to.len() > 0
    &&& from != to
    &&& !ancestor(from, to)
    &&& ov.look(d, from) is Found
    &&& ov.look(d, to) is Nothing
    &&& ov.parent_fault(d, to) is None
}

/// What is seen after `from` was moved to `to`: at the new place what was at the old one, with
/// everything below; nothing at the old place; and the same elsewhere.
pub proof fn law_what_was_moved_is_seen_at_its_new_place(ov: OverlayView, d: Disk, from: PathView, to: PathView, q: PathView)
    requires
        faithful(ov, d),
        can_rename(ov, d, from, to),
    ensures
        ov.moved(from, to, ov.look(d, from)->Found_0).look(d, q) == (if leads_on(q, to) {
            ov.look(d, came_from(from, to, q))
        } else if leads_on(q, from) {
            Look::Nothing
        } else {
            ov.look(d, q)
        }),
{
    let e = ov.look(d, from)->Found_0;
    let left = ov.removed(from, e);
    let now = ov.moved(from, to, e);
    if leads_on(q, to) {
        lemma_moved_below(ov, d, from, to, q);
    } else {
        lemma_moved_elsewhere(ov, d, from, to, q);
        law_what_was_removed_is_gone(ov, d, from, q);
    }
}

/// Neither end of a rename is on the way to the other.
proof fn lemma_ends_apart(ov: OverlayView, d: Disk, from: PathView, to: PathView)
    requires
        can_rename(ov, d, from, to),
    ensures
        !leads_on(from, to),
        !leads_on(to, from),
        !leads_on(to.drop_last(), from),
        !leads_on(to.drop_last(), to),
{
    if leads_on(from, to) {
        if from.len() == to.len() {
            assert(from =~= to);
        } else {
            lemma_look_stops(ov, d, from, to.len() as int);
        }
    }
    if leads_on(to, from) {
        if from.len() == to.len() {
            assert(from =~= to);
        }
    }
    if leads_on(to.drop_last(), from) {
        assert(to.take(from.len() as int) =~= to.drop_last().take(from.len() as int));
    }
}

proof fn lemma_moved_elsewhere(ov: OverlayView, d: Disk, from: PathView, to: PathView, q: PathView)
    requires
        !leads_on(q, to),
    ensures
        ov.moved(from, to, ov.look(d, from)->Found_0).look(d, q) == ov.removed(from, ov.look(d, from)->Found_0).look(d, q),
{
    let e = ov.look(d, from)->Found_0;
    let left = ov.removed(from, e);
    let now = ov.moved(from, to, e);
    assert forall|i: int| 0 < i <= q.len() implies now.placed.contains_key(#[trigger] q.take(i)) == left.placed.contains_key(
        q.take(i),
    ) && (now.placed.contains_key(q.take(i)) ==> now.placed[q.take(i)] == left.placed[q.take(i)]) by {
        let k = q.take(i);
        if k == to {
            assert(q.take(to.len() as int) =~= to);
        }
        if ancestor(to, k) {
            assert(q.take(to.len() as int) =~= k.take(to.len() as int));
        }
    }
    lemma_prefix_look(now, left, d, q);
}

/// One step further, in two overlays that agree so far.
proof fn lemma_look_step(a: OverlayView, b: OverlayView, d: Disk, q: PathView, k: PathView)
    requires
        q.len() > 0,
        k.len() > 0,
        q.last() == k.last(),
        a.look(d, q.drop_last()) == b.look(d, k.drop_last()),
        a.placed.contains_key(q) == b.placed.contains_key(k),
        a.placed.contains_key(q) ==> a.placed[q] == b.placed[k],
        !b.placed.contains_key(k) ==> (b.look(d, k.drop_last()) matches Look::Found(dir) ==> (dir.kind == EKind::Dir
            ==> a.inherited(d, dir, q.last()) == b.inherited(d, dir, q.last()))),
    ensures
        a.look(d, q) == b.look(d, k),
{
}

/// Something inherited below `from` has not left its base path by `from` leaving its own.
proof fn lemma_inherited_below(ov: OverlayView, d: Disk, from: PathView, k: PathView)
    requires
        faithful(ov, d),
        from.len() > 0,
        ov.look(d, from) is Found,
        ancestor(from, k),
        !ov.placed.contains_key(k),
        ov.look(d, k.drop_last()) matches Look::Found(dir) && dir.kind == EKind::Dir,
    ensures
        ov.detach(ov.look(d, from)->Found_0).inherited(d, ov.look(d, k.drop_last())->Found_0, k.last()) == ov.inherited(
            d,
            ov.look(d, k.drop_last())->Found_0,
            k.last(),
        ),
{
    let e = ov.look(d, from)->Found_0;
    let dir = ov.look(d, k.drop_last())->Found_0;
    if origin_of(dir) is Some {
        let b = origin_of(dir)->0.push(k.last());
        if origin_of(e) == Some(b) && !ov.detached.contains_key(b) {
            assert(!ov.placed.contains_key(from));
            assert(ov.look(d, k) == ov.look(d, from));
            law_seen_once(ov, d, k, from);
        }
    }
}

/// The decisions below the new place are those that stood below the old one.
proof fn lemma_moved_decisions(ov: OverlayView, d: Disk, from: PathView, to: PathView, q: PathView)
    requires
        connected(ov, d),
        can_rename(ov, d, from, to),
        ancestor(to, q),
    ensures
        ({
            let now = ov.moved(from, to, ov.look(d, from)->Found_0);
            let src = came_from(from, to, q);
            now.placed.contains_key(q) == ov.placed.contains_key(src) && (now.placed.contains_key(q) ==> now.placed[q]
                == ov.placed[src])
        }),
{
    // No decision stood below the new place.
    if ov.placed.contains_key(q) {
        lemma_none_below(ov, d, to, q);
    }
    if q == from {
        lemma_ends_apart(ov, d, from, to);
    }
}

/// What was moved is seen at its new place.
proof fn lemma_moved_top(ov: OverlayView, d: Disk, from: PathView, to: PathView)
    requires
        faithful(ov, d),
        can_rename(ov, d, from, to),
    ensures
        ov.moved(from, to, ov.look(d, from)->Found_0).look(d, to) == ov.look(d, from),
{
    let r = to.drop_last();
    lemma_ends_apart(ov, d, from, to);
    lemma_moved_elsewhere(ov, d, from, to, r);
    law_what_was_removed_is_gone(ov, d, from, r);
    assert(r =~= parent_of(to));
}

/// One step further below the new place.
#[verifier::spinoff_prover]
#[verifier::rlimit(80)]
proof fn lemma_moved_step(ov: OverlayView, d: Disk, from: PathView, to: PathView, q: PathView)
    requires
        faithful(ov, d),
        can_rename(ov, d, from, to),
        ancestor(to, q),
        ov.moved(from, to, ov.look(d, from)->Found_0).look(d, q.drop_last()) == ov.look(
            d,
            came_from(from, to, q.drop_last()),
        ),
    ensures
        ov.moved(from, to, ov.look(d, from)->Found_0).look(d, q) == ov.look(d, came_from(from, to, q)),
{
    let e = ov.look(d, from)->Found_0;
    let now = ov.moved(from, to, e);
    let src = came_from(from, to, q);
    let up = came_from(from, to, q.drop_last());
    lemma_one_less(from, to, q);
    lemma_moved_decisions(ov, d, from, to, q);
    assert(now.detached == ov.detach(e).detached);
    if !ov.placed.contains_key(src) && (ov.look(d, up) matches Look::Found(dir) && dir.kind == EKind::Dir) {
        assert(src.take(from.len() as int) =~= from);
        lemma_inherited_below(ov, d, from, src);
        let dir = ov.look(d, up)->Found_0;
        assert(now.inherited(d, dir, q.last()) == ov.detach(e).inherited(d, dir, q.last()));
    }
    lemma_look_step(now, ov, d, q, src);
}

proof fn lemma_moved_below(ov: OverlayView, d: Disk, from: PathView, to: PathView, q: PathView)
    requires
        faithful(ov, d),
        can_rename(ov, d, from, to),
        leads_on(q, to),
    ensures
        ov.moved(from, to, ov.look(d, from)->Found_0).look(d, q) == ov.look(d, came_from(from, to, q)),
    decreases q.len(),
{
    if q.len() == to.len() {
        assert(q =~= to);
        assert(came_from(from, to, q) =~= from);
        lemma_moved_top(ov, d, from, to);
    } else {
        let r = q.drop_last();
        assert(r.take(to.len() as int) =~= q.take(to.len() as int));
        lemma_moved_below(ov, d, from, to, r);
        lemma_moved_step(ov, d, from, to, q);
    }
}

/// What is noted of the entry seen at `p` agrees with what was noted before.
proof fn lemma_noted_alike(ov: OverlayView, d: Disk, p: PathView, k: PathView)
    requires
        ov.sound(),
        coherent(ov),
        p.len() > 0,
        ov.look(d, p) matches Look::Found(e) && ov.placed.contains_key(k) && (ov.placed[k] matches SlotView::Present(f)
            && origin_of(f) is Some && origin_of(f) == origin_of(e)),
    ensures
        gone_of(ov.placed[k]->Present_0) == gone_of(ov.look(d, p)->Found_0),
        ov.placed.contains_key(p),
        k == p,
{
    let e = ov.look(d, p)->Found_0;
    let o = origin_of(e)->0;
    assert(ov.detached.contains_key(o));
    assert(ov.placed.contains_key(p));
    assert(once(ov.placed[p], ov.placed[k]));
}

/// Removing keeps the story consistent.
#[verifier::spinoff_prover]
#[verifier::rlimit(80)]
pub proof fn law_removing_stays_faithful(ov: OverlayView, d: Disk, p: PathView)
    requires
        faithful(ov, d),
        tree_path(p),
        ov.look(d, p) is Found,
    ensures
        faithful(ov.removed(p, ov.look(d, p)->Found_0), d),
{
    let e = ov.look(d, p)->Found_0;
    let now = ov.removed(p, e);
    lemma_found_is_sound(ov, d, p);
    assert(now.sound());
    assert forall|k: PathView| #[trigger] now.placed.contains_key(k) implies (now.look(d, k.drop_last()) matches Look::Found(
        x,
    ) && x.kind == EKind::Dir) by {
        lemma_off_removed(ov, d, p, k);
        law_what_was_removed_is_gone(ov, d, p, k.drop_last());
        if k == p {
            assert(ov.look(d, p.drop_last()) is Found);
        }
    }
    assert forall|v: PathView, n: Name| now.placed.contains_key(#[trigger] v.push(n)) implies (now.look(
        d,
        v,
    ) matches Look::Found(x) && (origin_of(x) matches Some(o) ==> now.detached.contains_key(o.push(n)) || !(base_look(
        d,
        now.case_insensitive,
        o.push(n),
    ) is Found))) by {
        let k = v.push(n);
        assert(k.drop_last() =~= v);
        lemma_off_removed(ov, d, p, k);
        law_what_was_removed_is_gone(ov, d, p, v);
        if k == p {
            assert(p.last() == n);
            if !ov.placed.contains_key(p) {
                let dir = ov.look(d, v)->Found_0;
                assert(origin_of(dir) is Some);
                assert(origin_of(e) == Some(origin_of(dir)->0.push(n)));
            }
        }
    }
    assert forall|k: PathView| #[trigger] now.placed.contains_key(k) implies (now.placed[k] matches SlotView::Present(f)
        ==> (origin_of(f) matches Some(o) ==> now.detached.contains_key(o) && now.detached[o] == gone_of(f)) && (
    f.src matches SrcView::NewDir { n } ==> n < now.next_dir)) by {
        if let SlotView::Present(f) = now.placed[k] {
            assert(ov.placed.contains_key(k) && ov.placed[k] == now.placed[k]);
            if origin_of(f) is Some && origin_of(f) == origin_of(e) {
                lemma_noted_alike(ov, d, p, k);
            }
        }
    }
    assert(coherent(now));
}

/// A decision that stays when `p` is removed stands in a directory outside.
proof fn lemma_off_removed(ov: OverlayView, d: Disk, p: PathView, k: PathView)
    requires
        ov.sound(),
        p.len() > 0,
        ov.removed(p, ov.look(d, p)->Found_0).placed.contains_key(k),
    ensures
        k.len() > 0,
        k == p || ov.placed.contains_key(k),
        !leads_on(k.drop_last(), p),
{
    let r = k.drop_last();
    if leads_on(r, p) {
        assert(k.take(p.len() as int) =~= r.take(p.len() as int));
    }
}

/// Putting something new at `p` keeps the story consistent.
proof fn lemma_put_stays_faithful(ov: OverlayView, d: Disk, p: PathView, f: EntryView, next: u64)
    requires
        faithful(ov, d),
        tree_path(p),
        ov.parent_fault(d, p) is None,
        ov.look(d, p) matches Look::Found(e) ==> e.kind != EKind::Dir,
        !(ov.look(d, p) is Clash),
        sound_entry(f),
        f.src matches SrcView::NewDir { n } ==> n == ov.next_dir && n < next,
        !(f.src is Base),
        ov.next_dir <= next,
    ensures
        ({
            let gone = match ov.look(d, p) {
                Look::Found(e) => ov.detach(e),
                _ => ov,
            };
            faithful(OverlayView { next_dir: next, ..gone.place(p, SlotView::Present(f)) }, d)
        }),
{
    let gone = match ov.look(d, p) {
        Look::Found(e) => ov.detach(e),
        _ => ov,
    };
    let mid = gone.place(p, SlotView::Present(f));
    let now = OverlayView { next_dir: next, ..mid };
    if ov.look(d, p) is Found {
        lemma_found_is_sound(ov, d, p);
    }
    assert(now.sound());
    assert forall|v: PathView| !leads_on(v, p) implies #[trigger] now.look(d, v) == ov.look(d, v) by {
        assert(p.take(p.len() as int) =~= p);
        lemma_put_look(ov, d, p, f, v);
        lemma_prefix_look(now, mid, d, v);
    }
    assert forall|k: PathView| #[trigger] now.placed.contains_key(k) implies !leads_on(k.drop_last(), p) by {
        if leads_on(k.drop_last(), p) {
            assert(k.take(p.len() as int) =~= k.drop_last().take(p.len() as int));
            lemma_none_below(ov, d, p, k);
        }
    }
    assert forall|k: PathView| #[trigger] now.placed.contains_key(k) implies (now.look(d, k.drop_last()) matches Look::Found(
        x,
    ) && x.kind == EKind::Dir) by {
        assert(now.look(d, k.drop_last()) == ov.look(d, k.drop_last()));
        if k == p {
            assert(p.drop_last() =~= parent_of(p));
        }
    }
    assert forall|v: PathView, n: Name| now.placed.contains_key(#[trigger] v.push(n)) implies (now.look(
        d,
        v,
    ) matches Look::Found(x) && (origin_of(x) matches Some(o) ==> now.detached.contains_key(o.push(n)) || !(base_look(
        d,
        now.case_insensitive,
        o.push(n),
    ) is Found))) by {
        let k = v.push(n);
        assert(k.drop_last() =~= v);
        assert(now.look(d, v) == ov.look(d, v));
        if k == p {
            assert(p.last() == n);
            assert(v =~= parent_of(p));
            if !ov.placed.contains_key(p) {
                let dir = ov.look(d, v)->Found_0;
                if origin_of(dir) is Some && ov.look(d, p) is Found {
                    assert(origin_of(ov.look(d, p)->Found_0) == Some(origin_of(dir)->0.push(n)));
                }
            }
        }
    }
    assert forall|k: PathView| #[trigger] now.placed.contains_key(k) implies (now.placed[k] matches SlotView::Present(g)
        ==> (origin_of(g) matches Some(o) ==> now.detached.contains_key(o) && now.detached[o] == gone_of(g)) && (
    g.src matches SrcView::NewDir { n } ==> n < now.next_dir)) by {
        if let SlotView::Present(g) = now.placed[k] {
            if k != p && origin_of(g) is Some && (ov.look(d, p) matches Look::Found(e) && origin_of(e) == origin_of(g)) {
                lemma_noted_alike(ov, d, p, k);
            }
        }
    }
    assert forall|k: PathView, l: PathView|
        #![trigger now.placed.contains_key(k), now.placed.contains_key(l)]
        now.placed.contains_key(k) && now.placed.contains_key(l) && once(now.placed[k], now.placed[l]) implies k == l by {
        if k != p && l != p {
            assert(ov.placed.contains_key(k) && ov.placed.contains_key(l));
        } else if k != l {
            let other = if k == p {
                l
            } else {
                k
            };
            assert(ov.placed.contains_key(other));
        }
    }
}

/// Writing keeps the story consistent.
pub proof fn law_writing_stays_faithful(ov: OverlayView, d: Disk, p: PathView, n: u64, mode: Option<u32>)
    requires
        faithful(ov, d),
        tree_path(p),
        ov.write_check(d, p) is Ok,
    ensures
        faithful(ov.written(d, p, n, mode), d),
{
    let f = EntryView { kind: EKind::File, src: SrcView::Blob { n, mode } };
    lemma_put_stays_faithful(ov, d, p, f, ov.next_dir);
    let gone = match ov.look(d, p) {
        Look::Found(e) => ov.detach(e),
        _ => ov,
    };
    assert(gone.place(p, SlotView::Present(f)) == (OverlayView {
        next_dir: ov.next_dir,
        ..gone.place(p, SlotView::Present(f))
    }));
}

/// Making a directory keeps the story consistent.
pub proof fn law_making_a_directory_stays_faithful(ov: OverlayView, d: Disk, p: PathView)
    requires
        faithful(ov, d),
        tree_path(p),
        ov.next_dir < u64::MAX,
        ov.look(d, p) is Nothing,
        ov.parent_fault(d, p) is None,
    ensures
        faithful(ov.with_new_dir(p), d),
{
    let f = EntryView { kind: EKind::Dir, src: SrcView::NewDir { n: ov.next_dir } };
    lemma_put_stays_faithful(ov, d, p, f, (ov.next_dir + 1) as u64);
}

/// Where a decision stood before `from` was moved to `to`.
proof fn lemma_moved_key(ov: OverlayView, d: Disk, from: PathView, to: PathView, k: PathView)
    requires
        faithful(ov, d),
        can_rename(ov, d, from, to),
        ov.moved(from, to, ov.look(d, from)->Found_0).placed.contains_key(k),
    ensures
        ({
            let e = ov.look(d, from)->Found_0;
            let now = ov.moved(from, to, e);
            let src = came_from(from, to, k);
            ||| k == to && now.placed[k] == SlotView::Present(e)
            ||| ancestor(to, k) && ancestor(from, src) && ov.placed.contains_key(src) && now.placed[k] == ov.placed[src]
            ||| k == from && now.placed[k] is Absent && !leads_on(k, to)
            ||| ov.placed.contains_key(k) && !leads_on(k, from) && !leads_on(k, to) && now.placed[k] == ov.placed[k]
        }),
{
    let e = ov.look(d, from)->Found_0;
    let src = came_from(from, to, k);
    lemma_ends_apart(ov, d, from, to);
    if k != to {
        if ancestor(to, k) {
            lemma_moved_decisions(ov, d, from, to, k);
            assert(src.take(from.len() as int) =~= from);
        } else {
            assert(ov.removed(from, e).placed.contains_key(k));
            if leads_on(k, to) && k.len() == to.len() {
                assert(k =~= to);
            }
            if leads_on(k, from) && k.len() == from.len() {
                assert(k =~= from);
            }
        }
    }
}

/// The decisions after a move stand in the tree.
#[verifier::spinoff_prover]
#[verifier::rlimit(80)]
proof fn lemma_moved_in_tree(ov: OverlayView, d: Disk, from: PathView, to: PathView, k: PathView)
    requires
        faithful(ov, d),
        tree_path(from),
        tree_path(to),
        can_rename(ov, d, from, to),
        ov.moved(from, to, ov.look(d, from)->Found_0).placed.contains_key(k),
    ensures
        tree_path(k),
{
    lemma_moved_key(ov, d, from, to, k);
    let src = came_from(from, to, k);
    if ancestor(to, k) && ov.placed.contains_key(src) && ancestor(from, src) {
        let rest = k.skip(to.len() as int);
        assert(tree_path(src));
        assert forall|i: int| 0 <= i < rest.len() implies is_component(#[trigger] rest[i]) by {
            assert(src[from.len() + i] == rest[i]);
        }
        lemma_below_in_tree(to, rest);
        assert(k =~= to + rest);
    }
}

/// A directory that holds a decision after a move is seen as one that held it, or as the one into
/// which something was moved.
proof fn lemma_moved_holder(ov: OverlayView, d: Disk, from: PathView, to: PathView, k: PathView)
    requires
        faithful(ov, d),
        tree_path(from),
        tree_path(to),
        can_rename(ov, d, from, to),
        ov.moved(from, to, ov.look(d, from)->Found_0).placed.contains_key(k),
    ensures
        ({
            let seen = ov.moved(from, to, ov.look(d, from)->Found_0).look(d, k.drop_last());
            let src = came_from(from, to, k);
            &&& seen matches Look::Found(x) && x.kind == EKind::Dir
            &&& {
                ||| k == to && seen == ov.look(d, to.drop_last())
                ||| ov.placed.contains_key(src) && src.len() > 0 && src.last() == k.last() && seen == ov.look(d, src.drop_last())
                ||| k == from && seen == ov.look(d, from.drop_last())
                ||| ov.placed.contains_key(k) && seen == ov.look(d, k.drop_last())
            }
        }),
{
    let src = came_from(from, to, k);
    lemma_moved_key(ov, d, from, to, k);
    if k == to {
        lemma_holder_of_target(ov, d, from, to);
    } else if ancestor(to, k) {
        lemma_holder_below(ov, d, from, to, k);
    } else {
        lemma_holder_elsewhere(ov, d, from, to, k);
    }
}

proof fn lemma_holder_of_target(ov: OverlayView, d: Disk, from: PathView, to: PathView)
    requires
        faithful(ov, d),
        can_rename(ov, d, from, to),
    ensures
        ov.moved(from, to, ov.look(d, from)->Found_0).look(d, to.drop_last()) == ov.look(d, to.drop_last()),
        ov.look(d, to.drop_last()) matches Look::Found(x) && x.kind == EKind::Dir,
{
    lemma_ends_apart(ov, d, from, to);
    law_what_was_moved_is_seen_at_its_new_place(ov, d, from, to, to.drop_last());
    assert(to.drop_last() =~= parent_of(to));
}

#[verifier::spinoff_prover]
#[verifier::rlimit(80)]
proof fn lemma_holder_below(ov: OverlayView, d: Disk, from: PathView, to: PathView, k: PathView)
    requires
        faithful(ov, d),
        can_rename(ov, d, from, to),
        ancestor(to, k),
        ov.placed.contains_key(came_from(from, to, k)),
    ensures
        ov.moved(from, to, ov.look(d, from)->Found_0).look(d, k.drop_last()) == ov.look(
            d,
            came_from(from, to, k).drop_last(),
        ),
        ov.look(d, came_from(from, to, k).drop_last()) matches Look::Found(x) && x.kind == EKind::Dir,
        came_from(from, to, k).len() > 0,
        came_from(from, to, k).last() == k.last(),
{
    lemma_one_less(from, to, k);
    lemma_moved_below(ov, d, from, to, k.drop_last());
}

/// Where something below `to` came from, one name less.
proof fn lemma_one_less(from: PathView, to: PathView, k: PathView)
    requires
        ancestor(to, k),
    ensures
        leads_on(k.drop_last(), to),
        came_from(from, to, k.drop_last()) == came_from(from, to, k).drop_last(),
        came_from(from, to, k).len() > 0,
        came_from(from, to, k).last() == k.last(),
{
    let up = k.drop_last();
    assert(up.take(to.len() as int) =~= k.take(to.len() as int));
    assert(came_from(from, to, up) =~= came_from(from, to, k).drop_last());
}

proof fn lemma_holder_elsewhere(ov: OverlayView, d: Disk, from: PathView, to: PathView, k: PathView)
    requires
        faithful(ov, d),
        can_rename(ov, d, from, to),
        !leads_on(k, to),
        k == from || ov.placed.contains_key(k) && !leads_on(k, from),
    ensures
        ov.moved(from, to, ov.look(d, from)->Found_0).look(d, k.drop_last()) == ov.look(d, k.drop_last()),
        ov.look(d, k.drop_last()) matches Look::Found(x) && x.kind == EKind::Dir,
{
    let up = k.drop_last();
    if k != from {
        assert(tree_path(k));
    }
    if leads_on(up, to) {
        assert(k.take(to.len() as int) =~= up.take(to.len() as int));
    }
    if leads_on(up, from) && k != from {
        assert(k.take(from.len() as int) =~= up.take(from.len() as int));
    }
    law_what_was_moved_is_seen_at_its_new_place(ov, d, from, to, up);
    if k == from {
        assert(ov.look(d, from.drop_last()) is Found);
    }
}

/// What is placed after a move was placed before it, or is what was moved.
pub proof fn lemma_moved_entry(ov: OverlayView, d: Disk, from: PathView, to: PathView, k: PathView) -> (was: PathView)
    requires
        faithful(ov, d),
        can_rename(ov, d, from, to),
        ov.moved(from, to, ov.look(d, from)->Found_0).placed.contains_key(k),
        ov.moved(from, to, ov.look(d, from)->Found_0).placed[k] is Present,
    ensures
        k == to ==> was == from,
        k != to && leads_on(k, to) ==> was == came_from(from, to, k) && was != from,
        !leads_on(k, to) ==> was == k && !leads_on(k, from),
        k != to ==> ov.placed.contains_key(was) && ov.placed[was] == ov.moved(from, to, ov.look(d, from)->Found_0).placed[k],
        k == to ==> ov.moved(from, to, ov.look(d, from)->Found_0).placed[k] == SlotView::Present(ov.look(d, from)->Found_0),
{
    lemma_moved_key(ov, d, from, to, k);
    lemma_ends_apart(ov, d, from, to);
    assert(to.take(to.len() as int) =~= to);
    if k == to {
        from
    } else if leads_on(k, to) {
        if k.len() == to.len() {
            assert(k =~= to);
        }
        came_from(from, to, k)
    } else {
        k
    }
}

/// Two decisions after a move that place one entry are one.
proof fn lemma_moved_once(ov: OverlayView, d: Disk, from: PathView, to: PathView, k: PathView, l: PathView)
    requires
        faithful(ov, d),
        can_rename(ov, d, from, to),
        ({
            let now = ov.moved(from, to, ov.look(d, from)->Found_0);
            now.placed.contains_key(k) && now.placed.contains_key(l) && once(now.placed[k], now.placed[l])
        }),
    ensures
        k == l,
{
    let e = ov.look(d, from)->Found_0;
    let a = lemma_moved_entry(ov, d, from, to, k);
    let b = lemma_moved_entry(ov, d, from, to, l);
    if k != to && l != to {
        assert(once(ov.placed[a], ov.placed[b]));
        assert(a == b);
        lemma_one_source(from, to, k, l);
    } else if k != l {
        let other = if k == to {
            b
        } else {
            a
        };
        let f = ov.placed[other]->Present_0;
        if origin_of(e) is Some {
            lemma_noted_alike(ov, d, from, other);
        } else {
            assert(e.src is NewDir);
            assert(ov.placed.contains_key(from)) by {
                if !ov.placed.contains_key(from) {
                    assert(origin_of(e) is Some);
                }
            }
            assert(once(ov.placed[from], ov.placed[other]));
        }
    }
}

/// Places with one source are one.
pub proof fn lemma_one_source(from: PathView, to: PathView, k: PathView, l: PathView)
    requires
        !leads_on(k, to) ==> !leads_on(k, from),
        !leads_on(l, to) ==> !leads_on(l, from),
        (if leads_on(k, to) { came_from(from, to, k) } else { k }) == (if leads_on(l, to) { came_from(from, to, l) } else { l }),
    ensures
        k == l,
{
    if leads_on(k, to) && leads_on(l, to) {
        let a = k.skip(to.len() as int);
        let b = l.skip(to.len() as int);
        assert((from + a).skip(from.len() as int) =~= a);
        assert((from + b).skip(from.len() as int) =~= b);
        assert(k =~= to + a);
        assert(l =~= to + b);
    } else if leads_on(k, to) {
        assert(came_from(from, to, k).take(from.len() as int) =~= from);
    } else if leads_on(l, to) {
        assert(came_from(from, to, l).take(from.len() as int) =~= from);
    }
}

/// Moving keeps the story consistent.
pub proof fn law_moving_stays_faithful(ov: OverlayView, d: Disk, from: PathView, to: PathView)
    requires
        faithful(ov, d),
        tree_path(from),
        tree_path(to),
        can_rename(ov, d, from, to),
    ensures
        faithful(ov.moved(from, to, ov.look(d, from)->Found_0), d),
{
    let e = ov.look(d, from)->Found_0;
    let now = ov.moved(from, to, e);
    lemma_found_is_sound(ov, d, from);
    assert(now.detached == ov.detach(e).detached);
    assert forall|k: PathView| #[trigger] now.placed.contains_key(k) implies tree_path(k) && (
    now.placed[k] matches SlotView::Present(f) ==> sound_entry(f) && (origin_of(f) matches Some(o)
        ==> now.detached.contains_key(o) && now.detached[o] == gone_of(f)) && (f.src matches SrcView::NewDir { n } ==> n
        < now.next_dir)) by {
        lemma_moved_in_tree(ov, d, from, to, k);
        if let SlotView::Present(f) = now.placed[k] {
            let was = lemma_moved_entry(ov, d, from, to, k);
            if k != to {
                assert(ov.placed.contains_key(was));
                if origin_of(f) is Some && origin_of(f) == origin_of(e) {
                    lemma_noted_alike(ov, d, from, was);
                }
            } else if e.src is NewDir {
                assert(ov.placed.contains_key(from));
            }
        }
    }
    assert forall|k: PathView| #[trigger] now.detached.contains_key(k) implies tree_path(k) by {}
    assert(now.sound());
    assert forall|k: PathView, l: PathView|
        #![trigger now.placed.contains_key(k), now.placed.contains_key(l)]
        now.placed.contains_key(k) && now.placed.contains_key(l) && once(now.placed[k], now.placed[l]) implies k == l by {
        lemma_moved_once(ov, d, from, to, k, l);
    }
    assert(coherent(now));
    assert forall|k: PathView| #[trigger] now.placed.contains_key(k) implies (now.look(d, k.drop_last()) matches Look::Found(
        x,
    ) && x.kind == EKind::Dir) by {
        lemma_moved_holder(ov, d, from, to, k);
    }
    assert(connected(now, d));
    assert forall|v: PathView, n: Name| now.placed.contains_key(#[trigger] v.push(n)) implies (now.look(
        d,
        v,
    ) matches Look::Found(x) && (origin_of(x) matches Some(o) ==> now.detached.contains_key(o.push(n)) || !(base_look(
        d,
        now.case_insensitive,
        o.push(n),
    ) is Found))) by {
        let k = v.push(n);
        assert(k.drop_last() =~= v);
        assert(k.last() == n);
        lemma_moved_holder(ov, d, from, to, k);
        let src = came_from(from, to, k);
        if k == to && now.look(d, v) == ov.look(d, to.drop_last()) {
            lemma_free_name(ov, d, to);
        } else if ov.placed.contains_key(src) && src.len() > 0 && now.look(d, v) == ov.look(d, src.drop_last()) && src.last()
            == n {
            assert(src =~= src.drop_last().push(n));
            assert(ov.placed.contains_key(src.drop_last().push(n)));
        } else if k == from && now.look(d, v) == ov.look(d, from.drop_last()) {
            lemma_left_name(ov, d, from);
        } else {
            assert(ov.placed.contains_key(v.push(n)));
        }
    }
}

/// A name that is free in a directory from the disk is free there, or what it named has left.
proof fn lemma_free_name(ov: OverlayView, d: Disk, p: PathView)
    requires
        overlaid(ov, d),
        p.len() > 0,
        ov.look(d, p) is Nothing,
    ensures
        ov.look(d, p.drop_last()) matches Look::Found(x) ==> x.kind == EKind::Dir ==> (origin_of(x) matches Some(o)
            ==> ov.detached.contains_key(o.push(p.last())) || !(base_look(d, ov.case_insensitive, o.push(p.last())) is Found)),
{
    assert(p =~= p.drop_last().push(p.last()));
    if ov.placed.contains_key(p) {
        assert(ov.placed.contains_key(p.drop_last().push(p.last())));
    }
}

/// What a name in a directory from the disk named has left once what is seen there has.
proof fn lemma_left_name(ov: OverlayView, d: Disk, p: PathView)
    requires
        overlaid(ov, d),
        p.len() > 0,
        ov.look(d, p) is Found,
    ensures
        ov.look(d, p.drop_last()) matches Look::Found(x) && (origin_of(x) matches Some(o) ==> ov.detach(
            ov.look(d, p)->Found_0,
        ).detached.contains_key(o.push(p.last())) || !(base_look(d, ov.case_insensitive, o.push(p.last())) is Found)),
{
    assert(p =~= p.drop_last().push(p.last()));
    if ov.placed.contains_key(p) {
        assert(ov.placed.contains_key(p.drop_last().push(p.last())));
    }
}

/// A name is listed in a directory exactly if it leads to something there.
pub proof fn law_listed_is_seen(ov: OverlayView, d: Disk, v: PathView, n: Name)
    requires
        faithful(ov, d),
        d.folds ==> ov.case_insensitive,
        v.len() == 0 || tree_path(v),
        ov.look(d, v) matches Look::Found(e) && e.kind == EKind::Dir,
    ensures
        ov.visible(d, v, ov.look(d, v)->Found_0, n) <==> ov.look(d, v.push(n)) is Found,
{
    let e = ov.look(d, v)->Found_0;
    let q = v.push(n);
    assert(q.drop_last() =~= v);
    assert(q.last() == n);
    if !ov.placed.contains_key(q) && origin_of(e) is Some {
        let o = origin_of(e)->0;
        let b = o.push(n);
        assert(b.drop_last() =~= o);
        assert(b.last() == n);
        assert(parent_of(b) =~= o);
        if v.len() > 0 {
            lemma_found_is_sound(ov, d, v);
            assert(q[0] == v[0]);
        }
        if o.len() > 0 {
            assert(b[0] == o[0]);
        } else if v.len() > 0 {
            let top: PathView = Seq::empty();
            assert(o =~= top);
            law_seen_once(ov, d, v, top);
        }
        assert(v.len() == 0 ==> o.len() == 0 && q[0] == b[0]);
    }
}

/// Making the directories on the way to `p` leaves each of them there, and makes at most as many.
pub proof fn lemma_dirs_made(ov: OverlayView, d: Disk, p: PathView, n: int)
    requires
        faithful(ov, d),
        tree_path(p),
        0 <= n <= p.len(),
        ov.next_dir + n <= u64::MAX,
        ov.create_dirs(d, p, n).1 is None,
    ensures
        faithful(ov.create_dirs(d, p, n).0, d),
        ov.create_dirs(d, p, n).0.next_dir <= ov.next_dir + n,
        forall|i: int|
            0 <= i <= n ==> (ov.create_dirs(d, p, n).0.look(d, #[trigger] p.take(i)) matches Look::Found(e) && e.kind == EKind::Dir),
    decreases n,
{
    if n > 0 {
        lemma_dirs_made(ov, d, p, n - 1);
        let was = ov.create_dirs(d, p, n - 1).0;
        let now = ov.create_dirs(d, p, n).0;
        let q = p.take(n);
        lemma_prefix_in_tree(p, n);
        if was.look(d, q) is Nothing {
            law_making_a_directory_stays_faithful(was, d, q);
            assert forall|i: int| 0 <= i <= n implies (now.look(d, #[trigger] p.take(i)) matches Look::Found(e) && e.kind
                == EKind::Dir) by {
                law_a_new_directory_is_empty(was, d, q, p.take(i));
            }
        }
    }
}

/// After all directories on the way to `p` have been made, `p` and all above it are directories.
pub proof fn law_all_directories_are_made(ov: OverlayView, d: Disk, p: PathView, i: int)
    requires
        faithful(ov, d),
        tree_path(p),
        ov.next_dir + p.len() <= u64::MAX,
        ov.create_dirs(d, p, p.len() as int).1 is None,
        0 <= i <= p.len(),
    ensures
        faithful(ov.create_dirs(d, p, p.len() as int).0, d),
        ov.create_dirs(d, p, p.len() as int).0.look(d, p.take(i)) matches Look::Found(e) && e.kind == EKind::Dir,
{
    lemma_dirs_made(ov, d, p, p.len() as int);
}

/// Making directories that are there changes nothing.
proof fn lemma_dirs_there(ov: OverlayView, d: Disk, p: PathView, n: int)
    requires
        0 <= n <= p.len(),
        forall|i: int| 0 <= i <= n ==> (ov.look(d, #[trigger] p.take(i)) matches Look::Found(e) && e.kind == EKind::Dir),
    ensures
        ov.create_dirs(d, p, n) == (ov, None::<Fault>),
    decreases n,
{
    if n > 0 {
        lemma_dirs_there(ov, d, p, n - 1);
        assert(ov.look(d, p.take(n)) is Found);
    }
}

/// Making all directories on the way to `p` a second time changes nothing.
pub proof fn law_making_directories_again_changes_nothing(ov: OverlayView, d: Disk, p: PathView)
    requires
        faithful(ov, d),
        tree_path(p),
        ov.next_dir + p.len() <= u64::MAX,
        ov.create_dirs(d, p, p.len() as int).1 is None,
    ensures
        ({
            let made = ov.create_dirs(d, p, p.len() as int).0;
            made.create_dirs(d, p, p.len() as int) == (made, None::<Fault>)
        }),
{
    lemma_dirs_made(ov, d, p, p.len() as int);
    lemma_dirs_there(ov.create_dirs(d, p, p.len() as int).0, d, p, p.len() as int);
}

} // verus!
