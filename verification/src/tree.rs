//! The visible tree: everything that paths outside the private area lead to, and why changes
//! inside the private area leave it alone.
use vstd::prelude::*;

use crate::bytes::{folded, Name};
use crate::disk::{folds_to, Disk, FileId, Key, Object};
use crate::path::{private_path, PathView};
use crate::vfs::{appended_at, created_at, moved_at, removed_at, same_volume, way_clear};

verus! {

/// The two names mean the same on this filesystem.
pub open spec fn alike(d: Disk, a: Name, b: Name) -> bool {
    if d.folds {
        folded(a) == folded(b)
    } else {
        a == b
    }
}

/// The two paths are alike component by component.
pub open spec fn alike_paths(d: Disk, p: PathView, q: PathView) -> bool {
    &&& p.len() == q.len()
    &&& forall|i: int| 0 <= i < p.len() ==> alike(d, #[trigger] p[i], q[i])
}

/// What a lookup finds: the one stored name in the directory that is like the given one.
pub proof fn lemma_lookup(d: Disk, dir: FileId, name: Name)
    requires
        d.well_formed(),
    ensures
        match d.lookup(dir, name) {
            Some(k) => d.names.contains_key(k) && k.dir == dir && alike(d, k.name, name) && forall|l: Key| #[trigger]
                d.names.contains_key(l) && l.dir == dir && alike(d, l.name, name) ==> l == k,
            None => forall|l: Key| #[trigger] d.names.contains_key(l) && l.dir == dir ==> !alike(d, l.name, name),
        },
{
    let exact = Key { dir, name };
    if d.names.contains_key(exact) {
        assert forall|l: Key| #[trigger] d.names.contains_key(l) && l.dir == dir && alike(d, l.name, name) implies l
            == exact by {
            assert(d.names.contains_key(exact));
        }
    } else if d.folds && (exists|k: Key| folds_to(d.names, k, dir, name)) {
        let k = d.lookup(dir, name)->0;
        assert(folds_to(d.names, k, dir, name));
    } else {
        assert forall|l: Key| #[trigger] d.names.contains_key(l) && l.dir == dir implies !alike(d, l.name, name) by {
            if d.folds {
                assert(!folds_to(d.names, l, dir, name));
            } else if l.name == name {
                assert(l == exact);
            }
        }
    }
}

/// A path that leads somewhere leads there through the name found at its end.
pub proof fn lemma_resolve_key(d: Disk, p: PathView)
    requires
        p.len() > 0,
    ensures
        d.resolve(p) is Some <==> d.key_at(p) is Some,
        d.key_at(p) matches Some(k) ==> d.resolve(p) == Some(d.names[k]),
{
}

/// Two paths to one directory are alike: a directory has one name, and the root none.
pub proof fn lemma_unique_path(d: Disk, p: PathView, q: PathView)
    requires
        d.well_formed(),
        d.dir_at(p) is Some,
        d.dir_at(p) == d.dir_at(q),
    ensures
        alike_paths(d, p, q),
    decreases p.len(),
{
    if p.len() > 0 {
        lemma_resolve_key(d, p);
        let k = d.key_at(p)->0;
        lemma_lookup(d, d.dir_at(p.drop_last())->0, p.last());
        assert(d.names.contains_key(k));
        if q.len() > 0 {
            lemma_resolve_key(d, q);
            let l = d.key_at(q)->0;
            lemma_lookup(d, d.dir_at(q.drop_last())->0, q.last());
            assert(d.names.contains_key(l));
            assert(k == l);
            lemma_unique_path(d, p.drop_last(), q.drop_last());
            assert forall|i: int| 0 <= i < p.len() implies alike(d, #[trigger] p[i], q[i]) by {
                if i < p.len() - 1 {
                    assert(p[i] == p.drop_last()[i] && q[i] == q.drop_last()[i]);
                }
            }
        }
    } else if q.len() > 0 {
        lemma_resolve_key(d, q);
        let l = d.key_at(q)->0;
        lemma_lookup(d, d.dir_at(q.drop_last())->0, q.last());
        assert(d.names.contains_key(l));
    }
}

/// The name stands at a path inside the private area (or is that of the area itself).
pub open spec fn private_key(d: Disk, k: Key) -> bool {
    exists|p: PathView| #[trigger] private_place(d, k, p)
}

/// The name stands at the private path `p`.
pub open spec fn private_place(d: Disk, k: Key, p: PathView) -> bool {
    private_path(p) && d.dir_at(p.drop_last()) == Some(k.dir) && alike(d, k.name, p.last())
}

/// Paths that are alike are both private or both not.
proof fn lemma_alike_private(d: Disk, p: PathView, q: PathView)
    requires
        p.len() > 0,
        alike_paths(d, p.drop_last(), q.drop_last()),
        q.len() > 0,
        alike(d, p.last(), q.last()),
    ensures
        private_path(p) == private_path(q),
{
    if p.len() == 1 {
        assert(p[0] == p.last() && q[0] == q.last());
    } else {
        assert(p.drop_last()[0] == p[0] && q.drop_last()[0] == q[0]);
    }
}

/// A path outside the private area never ends at a private name.
proof fn lemma_visible_key(d: Disk, k: Key, q: PathView)
    requires
        d.well_formed(),
        q.len() > 0,
        !private_path(q),
        d.dir_at(q.drop_last()) == Some(k.dir),
        alike(d, k.name, q.last()),
    ensures
        !private_key(d, k),
{
    if private_key(d, k) {
        let p = choose|p: PathView| #[trigger] private_place(d, k, p);
        lemma_unique_path(d, p.drop_last(), q.drop_last());
        lemma_alike_private(d, p, q);
    }
}

/// The two maps agree at `k`.
pub open spec fn agree_at(a: Map<Key, FileId>, b: Map<Key, FileId>, k: Key) -> bool {
    a.contains_key(k) == b.contains_key(k) && (a.contains_key(k) ==> a[k] == b[k])
}

/// The object is in use: it is the root or has a name.
pub open spec fn linked(d: Disk, id: FileId) -> bool {
    id == d.root || exists|k: Key| #[trigger] d.names.contains_key(k) && d.names[k] == id
}

/// Every path outside the private area leads to the same object in both states, and to one
/// of the same kind.
pub open spec fn same_names(a: Disk, b: Disk) -> bool {
    forall|p: PathView|
        !private_path(p) ==> (#[trigger] b.resolve(p)) == a.resolve(p) && (a.resolve(p) matches Some(id)
            ==> a.objects[id].kind() == b.objects[id].kind())
}

/// The name is listed in the directory at `p`.
pub open spec fn listed_in(d: Disk, p: PathView, name: Name) -> bool {
    d.dir_at(p) matches Some(dir) && d.names.contains_key(Key { dir, name })
}

/// The visible tree is the same in both states: every path outside the private area leads to
/// the same object, with the same content and permissions, and directories list the same
/// names.
pub open spec fn same_tree(a: Disk, b: Disk) -> bool {
    &&& same_names(a, b)
    &&& forall|p: PathView|
        !private_path(p) ==> ((#[trigger] a.resolve(p)) matches Some(id) ==> b.objects[id] == a.objects[id])
    &&& forall|p: PathView, n: Name|
        !private_path(p.push(n)) ==> #[trigger] listed_in(b, p, n) == listed_in(a, p, n)
}

/// What is found at a name is the same if the two states agree on all names like it.
pub proof fn lemma_lookup_agrees(a: Disk, b: Disk, dir: FileId, name: Name)
    requires
        a.well_formed(),
        b.well_formed(),
        a.folds == b.folds,
        forall|k: Key| #[trigger] alike(a, k.name, name) && k.dir == dir ==> agree_at(a.names, b.names, k),
    ensures
        a.lookup(dir, name) == b.lookup(dir, name),
        a.lookup(dir, name) matches Some(k) ==> a.names[k] == b.names[k],
{
    lemma_lookup(a, dir, name);
    lemma_lookup(b, dir, name);
    match (a.lookup(dir, name), b.lookup(dir, name)) {
        (Some(k), _) => {
            assert(alike(a, k.name, name));
            assert(b.names.contains_key(k));
            assert(alike(b, k.name, name));
        },
        (None, Some(l)) => {
            assert(alike(a, l.name, name));
            assert(a.names.contains_key(l));
        },
        _ => {},
    }
}

/// A change of private names alone leaves every path outside the private area as it was.
pub proof fn lemma_private_change(a: Disk, b: Disk, p: PathView)
    requires
        a.well_formed(),
        b.well_formed(),
        same_volume(a, b),
        forall|k: Key| !private_key(a, k) ==> #[trigger] agree_at(a.names, b.names, k),
        forall|id: FileId| #[trigger]
            linked(a, id) ==> b.objects.contains_key(id) && b.objects[id].kind() == a.objects[id].kind(),
        !private_path(p),
    ensures
        b.resolve(p) == a.resolve(p),
        a.resolve(p) matches Some(id) ==> linked(a, id),
    decreases p.len(),
{
    if p.len() > 0 {
        let q = p.drop_last();
        assert(!private_path(q)) by {
            if q.len() > 0 {
                assert(q[0] == p[0]);
            }
        }
        lemma_private_change(a, b, q);
        match a.resolve(q) {
            Some(dir) => {
                assert(linked(a, dir));
                if a.is_dir(dir) {
                    assert forall|k: Key| #[trigger] alike(a, k.name, p.last()) && k.dir == dir implies agree_at(
                        a.names,
                        b.names,
                        k,
                    ) by {
                        lemma_visible_key(a, k, p);
                    }
                    lemma_lookup_agrees(a, b, dir, p.last());
                    lemma_lookup(a, dir, p.last());
                } else if b.is_dir(dir) {
                    // A linked object is known, so its kind is the same in both states.
                    assert(a.objects.contains_key(dir)) by {
                        if dir != a.root {
                            let k = choose|k: Key| #[trigger] a.names.contains_key(k) && a.names[k] == dir;
                            assert(a.names.contains_key(k));
                        }
                    }
                }
            },
            None => {},
        }
    }
}

/// A change of private names alone leaves the visible tree as it was.
pub proof fn lemma_private_change_same_tree(a: Disk, b: Disk)
    requires
        a.well_formed(),
        b.well_formed(),
        same_volume(a, b),
        forall|k: Key| !private_key(a, k) ==> #[trigger] agree_at(a.names, b.names, k),
        forall|id: FileId| #[trigger] linked(a, id) ==> b.objects.contains_key(id) && b.objects[id] == a.objects[id],
    ensures
        same_tree(a, b),
{
    assert forall|p: PathView| !private_path(p) implies (#[trigger] b.resolve(p)) == a.resolve(p) && (a.resolve(
        p,
    ) matches Some(id) ==> a.objects[id].kind() == b.objects[id].kind()) by {
        lemma_private_change(a, b, p);
    }
    assert forall|p: PathView| !private_path(p) implies ((#[trigger] a.resolve(p)) matches Some(id)
        ==> b.objects[id] == a.objects[id]) by {
        lemma_private_change(a, b, p);
    }
    assert forall|p: PathView, n: Name| !private_path(p.push(n)) implies #[trigger] listed_in(b, p, n) == listed_in(
        a,
        p,
        n,
    ) by {
        let q = p.push(n);
        assert(q.drop_last() =~= p);
        assert(!private_path(p)) by {
            if p.len() > 0 {
                assert(q[0] == p[0]);
            }
        }
        lemma_private_change(a, b, p);
        match a.resolve(p) {
            Some(dir) => {
                lemma_linked_known(a, dir);
                lemma_kind_dir(a.objects[dir], b.objects[dir]);
                if a.is_dir(dir) {
                    let k = Key { dir, name: n };
                    lemma_visible_key(a, k, q);
                    assert(agree_at(a.names, b.names, k));
                }
            },
            None => {},
        }
    }
}

/// Creating something inside the private area leaves the visible tree as it was.
pub proof fn lemma_private_create(a: Disk, b: Disk, p: PathView, id: FileId, object: Object)
    requires
        a.well_formed(),
        b.well_formed(),
        created_at(a, b, p, id, object),
        private_path(p),
    ensures
        same_tree(a, b),
{
    let dir = a.dir_at(p.drop_last())->0;
    let k = Key { dir, name: p.last() };
    assert(private_place(a, k, p));
    lemma_private_change_same_tree(a, b);
}

/// Moving something inside the private area leaves the visible tree as it was.
pub proof fn lemma_private_move(a: Disk, b: Disk, from: PathView, fp: Option<FileId>, to: PathView, tp: Option<FileId>)
    requires
        a.well_formed(),
        b.well_formed(),
        moved_at(a, b, from, fp, to, tp),
        private_path(from),
        private_path(to),
    ensures
        same_tree(a, b),
{
    let k = a.key_at(from)->0;
    lemma_lookup(a, a.dir_at(from.drop_last())->0, from.last());
    assert(private_place(a, k, from));
    let l = Key { dir: a.dir_at(to.drop_last())->0, name: to.last() };
    assert(private_place(a, l, to));
    lemma_private_change_same_tree(a, b);
}

/// Removing something inside the private area leaves the visible tree as it was.
pub proof fn lemma_private_remove(a: Disk, b: Disk, p: PathView, parent: Option<FileId>)
    requires
        a.well_formed(),
        b.well_formed(),
        removed_at(a, b, p, parent),
        private_path(p),
    ensures
        same_tree(a, b),
{
    let k = a.key_at(p)->0;
    lemma_lookup(a, a.dir_at(p.drop_last())->0, p.last());
    assert(private_place(a, k, p));
    lemma_private_change_same_tree(a, b);
}

/// Sync calls and other changes that touch neither names nor objects leave the visible tree
/// as it was.
pub proof fn lemma_same_content(a: Disk, b: Disk)
    requires
        a.names == b.names,
        a.objects == b.objects,
        a.root == b.root,
        a.folds == b.folds,
    ensures
        same_tree(a, b),
        forall|p: PathView| (#[trigger] b.resolve(p)) == a.resolve(p),
{
    assert forall|p: PathView| (#[trigger] b.resolve(p)) == a.resolve(p) by {
        lemma_same_resolve(a, b, p);
    }
    assert forall|p: PathView, n: Name| #[trigger] listed_in(b, p, n) == listed_in(a, p, n) by {
        assert(b.resolve(p) == a.resolve(p));
    }
}

/// Resolution depends on the root, the names and the kinds of objects alone.
pub proof fn lemma_same_resolve(a: Disk, b: Disk, p: PathView)
    requires
        a.names == b.names,
        forall|id: FileId| #[trigger] a.is_dir(id) == b.is_dir(id),
        a.root == b.root,
        a.folds == b.folds,
    ensures
        b.resolve(p) == a.resolve(p),
    decreases p.len(),
{
    if p.len() > 0 {
        lemma_same_resolve(a, b, p.drop_last());
        match a.resolve(p.drop_last()) {
            Some(d) => {
                assert(a.is_dir(d) == b.is_dir(d));
                lemma_same_lookup(a, b, d, p.last());
            },
            None => {},
        }
    }
}

/// A lookup depends on the names alone.
pub proof fn lemma_same_lookup(a: Disk, b: Disk, dir: FileId, name: Name)
    requires
        a.names == b.names,
        a.folds == b.folds,
    ensures
        a.lookup(dir, name) == b.lookup(dir, name),
{
}

/// Extending a file leaves every path as it was.
pub proof fn lemma_append_names(a: Disk, b: Disk, p: PathView, data: Seq<u8>)
    requires
        appended_at(a, b, p, data),
    ensures
        same_names(a, b),
        forall|q: PathView| (#[trigger] b.resolve(q)) == a.resolve(q),
{
    assert forall|q: PathView| (#[trigger] b.resolve(q)) == a.resolve(q) by {
        lemma_same_resolve(a, b, q);
    }
}

/// Being the same visible tree carries over.
pub proof fn lemma_same_tree_transitive(a: Disk, b: Disk, c: Disk)
    requires
        same_tree(a, b),
        same_tree(b, c),
    ensures
        same_tree(a, c),
{
    assert forall|p: PathView| !private_path(p) implies (#[trigger] c.resolve(p)) == a.resolve(p) && (a.resolve(
        p,
    ) matches Some(id) ==> a.objects[id].kind() == c.objects[id].kind()) by {
        assert(b.resolve(p) == a.resolve(p));
    }
    assert forall|p: PathView| !private_path(p) implies ((#[trigger] a.resolve(p)) matches Some(id)
        ==> c.objects[id] == a.objects[id]) by {
        assert(b.resolve(p) == a.resolve(p));
    }
    assert forall|p: PathView, n: Name| !private_path(p.push(n)) implies #[trigger] listed_in(c, p, n) == listed_in(
        a,
        p,
        n,
    ) by {
        assert(listed_in(b, p, n) == listed_in(a, p, n));
    }
}

/// Having the same names carries over.
pub proof fn lemma_same_names_transitive(a: Disk, b: Disk, c: Disk)
    requires
        same_names(a, b),
        same_names(b, c),
    ensures
        same_names(a, c),
{
    assert forall|p: PathView| !private_path(p) implies (#[trigger] c.resolve(p)) == a.resolve(p) && (a.resolve(
        p,
    ) matches Some(id) ==> a.objects[id].kind() == c.objects[id].kind()) by {
        assert(b.resolve(p) == a.resolve(p));
    }
}

/// `b` is `a` with some names removed; nothing else of the present state differs.
pub open spec fn pruned(a: Disk, b: Disk) -> bool {
    &&& same_volume(a, b)
    &&& a.objects == b.objects
    &&& forall|k: Key| #[trigger] b.names.contains_key(k) ==> a.names.contains_key(k) && a.names[k] == b.names[k]
}

/// What a path leads to after names have been removed, it led to before.
pub proof fn lemma_pruned_resolve(a: Disk, b: Disk, p: PathView)
    requires
        a.well_formed(),
        b.well_formed(),
        pruned(a, b),
        b.resolve(p) is Some,
    ensures
        a.resolve(p) == b.resolve(p),
    decreases p.len(),
{
    if p.len() > 0 {
        lemma_pruned_resolve(a, b, p.drop_last());
        let dir = b.resolve(p.drop_last())->0;
        lemma_lookup(a, dir, p.last());
        lemma_lookup(b, dir, p.last());
        let k = b.lookup(dir, p.last())->0;
        assert(b.names.contains_key(k));
        assert(a.names.contains_key(k));
        assert(alike(a, k.name, p.last()));
    }
}

/// A name that a path ends at after names have been removed, it ended at before.
pub proof fn lemma_pruned_key(a: Disk, b: Disk, p: PathView)
    requires
        a.well_formed(),
        b.well_formed(),
        pruned(a, b),
        b.key_at(p) is Some,
    ensures
        a.key_at(p) == b.key_at(p),
{
    lemma_pruned_resolve(a, b, p.drop_last());
    let dir = b.resolve(p.drop_last())->0;
    lemma_lookup(a, dir, p.last());
    lemma_lookup(b, dir, p.last());
    let k = b.lookup(dir, p.last())->0;
    assert(b.names.contains_key(k));
    assert(a.names.contains_key(k));
    assert(alike(a, k.name, p.last()));
}

/// The path is `p` or leads on from it.
pub open spec fn leads_on(q: PathView, p: PathView) -> bool {
    p.len() <= q.len() && q.take(p.len() as int) == p
}

/// The name is that at `p` or one below it.
pub open spec fn lies_below(d: Disk, k: Key, p: PathView) -> bool {
    exists|q: PathView| leads_on(q, p) && #[trigger] d.key_at(q) == Some(k)
}

/// `b` is `a` with some names removed, all of them at `p` or below it; nothing else of the
/// present state differs.
pub open spec fn pruned_below(a: Disk, b: Disk, p: PathView) -> bool {
    &&& pruned(a, b)
    &&& forall|k: Key| #[trigger] a.names.contains_key(k) && !b.names.contains_key(k) ==> lies_below(a, k, p)
}

/// Removing more below `p`.
pub proof fn lemma_pruned_further(a: Disk, b: Disk, c: Disk, p: PathView, q: PathView)
    requires
        a.well_formed(),
        b.well_formed(),
        pruned_below(a, b, p),
        pruned_below(b, c, q),
        leads_on(q, p),
    ensures
        pruned_below(a, c, p),
{
    assert forall|k: Key| #[trigger] a.names.contains_key(k) && !c.names.contains_key(k) implies lies_below(a, k, p) by {
        if b.names.contains_key(k) {
            let r = choose|r: PathView| leads_on(r, q) && #[trigger] b.key_at(r) == Some(k);
            lemma_pruned_key(a, b, r);
            assert(r.take(p.len() as int) =~= r.take(q.len() as int).take(p.len() as int));
            assert(leads_on(r, p));
        }
    }
}

/// After its name has been removed, a path leads nowhere.
pub proof fn lemma_removed_is_gone(a: Disk, b: Disk, p: PathView, parent: Option<FileId>)
    requires
        a.well_formed(),
        b.well_formed(),
        removed_at(a, b, p, parent),
    ensures
        b.resolve(p) is None,
        pruned_below(a, b, p),
{
    let k = a.key_at(p)->0;
    let dir = a.dir_at(p.drop_last())->0;
    lemma_lookup(a, dir, p.last());
    assert(p.take(p.len() as int) =~= p);
    assert(leads_on(p, p));
    if b.resolve(p) is Some {
        lemma_pruned_resolve(a, b, p.drop_last());
        lemma_lookup(b, dir, p.last());
        let l = b.lookup(dir, p.last())->0;
        assert(b.names.contains_key(l));
        assert(a.names.contains_key(l));
        assert(alike(a, l.name, p.last()));
    }
}

/// The names that a path goes through.
pub open spec fn keys_on(d: Disk, p: PathView) -> Set<Key>
    decreases p.len(),
{
    if p.len() == 0 {
        Set::empty()
    } else {
        keys_on(d, p.drop_last()).insert(d.key_at(p)->0)
    }
}

proof fn lemma_keys_on_prefix(d: Disk, p: PathView, k: Key)
    requires
        keys_on(d, p).contains(k),
    ensures
        exists|j: int| 0 < j <= p.len() && #[trigger] d.key_at(p.take(j)) == Some(d.key_at(p.take(j))->0) && d.key_at(
            p.take(j),
        )->0 == k || 0 < j <= p.len() && d.key_at(p.take(j)) is None,
    decreases p.len(),
{
    if p.len() > 0 {
        let n = p.len() as int;
        assert(p.take(n) =~= p);
        if d.key_at(p)->0 == k {
            assert(d.key_at(p.take(n)) is None || d.key_at(p.take(n)) == Some(k));
        } else {
            let q = p.drop_last();
            lemma_keys_on_prefix(d, q, k);
            let j = choose|j: int|
                0 < j <= q.len() && #[trigger] d.key_at(q.take(j)) == Some(d.key_at(q.take(j))->0) && d.key_at(
                    q.take(j),
                )->0 == k || 0 < j <= q.len() && d.key_at(q.take(j)) is None;
            assert(q.take(j) =~= p.take(j));
            assert(d.key_at(p.take(j)) == d.key_at(q.take(j)));
        }
    }
}

/// Every prefix of a path that leads somewhere leads somewhere, to a directory unless it is
/// the whole.
pub proof fn lemma_prefix_resolves(d: Disk, p: PathView, j: int)
    requires
        d.resolve(p) is Some,
        0 <= j <= p.len(),
    ensures
        d.resolve(p.take(j)) is Some,
        j < p.len() ==> d.dir_at(p.take(j)) is Some,
    decreases p.len(),
{
    if j < p.len() {
        assert(p.drop_last().take(j) =~= p.take(j));
        lemma_prefix_resolves(d, p.drop_last(), j);
        if j == p.len() - 1 {
            assert(p.take(j) =~= p.drop_last());
        }
    } else {
        assert(p.take(j) =~= p);
    }
}

/// The way is clear to what is there, and to every name in a directory.
pub proof fn lemma_way_to(d: Disk, p: PathView)
    requires
        d.resolve(p) is Some || p.len() > 0 && d.dir_at(p.drop_last()) is Some,
    ensures
        way_clear(d, p),
{
    assert forall|j: int| 0 < j < p.len() implies ((#[trigger] d.resolve(p.take(j))) matches Some(id) ==> !(
    d.objects[id] is Symlink)) by {
        let q = p.drop_last();
        assert(q.take(j) =~= p.take(j));
        lemma_prefix_resolves(d, q, j);
        if j == q.len() {
            assert(q.take(j) =~= q);
        }
    }
}

/// The way to one name in a directory is the way to another.
pub proof fn lemma_way_beside(d: Disk, path: PathView, m: Name, n: Name)
    requires
        way_clear(d, path.push(m)),
    ensures
        way_clear(d, path.push(n)),
{
    let p = path.push(m);
    let q = path.push(n);
    assert forall|j: int| 0 < j < q.len() implies ((#[trigger] d.resolve(q.take(j))) matches Some(id) ==> !(
    d.objects[id] is Symlink)) by {
        assert(q.take(j) =~= p.take(j));
    }
}

/// Removing names at `p` or below it leaves shorter paths as they were.
pub proof fn lemma_pruned_above(a: Disk, b: Disk, p: PathView, q: PathView)
    requires
        a.well_formed(),
        b.well_formed(),
        pruned_below(a, b, p),
        q.len() < p.len(),
        a.resolve(q) is Some,
    ensures
        b.resolve(q) == a.resolve(q),
    decreases q.len(),
{
    if q.len() > 0 {
        let up = q.drop_last();
        lemma_pruned_above(a, b, p, up);
        let dir = a.resolve(up)->0;
        lemma_lookup(a, dir, q.last());
        lemma_lookup(b, dir, q.last());
        let k = a.key_at(q)->0;
        if !b.names.contains_key(k) {
            let r = choose|r: PathView| leads_on(r, p) && #[trigger] a.key_at(r) == Some(k);
            lemma_lookup(a, a.dir_at(r.drop_last())->0, r.last());
            lemma_unique_path(a, up, r.drop_last());
        }
        assert(alike(b, k.name, q.last()));
    }
}

/// A path that leads somewhere is no longer than there are names: it never goes through a
/// name twice.
pub proof fn lemma_path_length(d: Disk, p: PathView)
    requires
        d.well_formed(),
        d.resolve(p) is Some,
    ensures
        keys_on(d, p).finite(),
        keys_on(d, p).len() == p.len(),
        keys_on(d, p).subset_of(d.names.dom()),
        p.len() <= d.names.dom().len(),
    decreases p.len(),
{
    if p.len() > 0 {
        let q = p.drop_last();
        lemma_path_length(d, q);
        lemma_resolve_key(d, p);
        let k = d.key_at(p)->0;
        lemma_lookup(d, d.dir_at(q)->0, p.last());
        if keys_on(d, q).contains(k) {
            lemma_keys_on_prefix(d, q, k);
            let j = choose|j: int|
                0 < j <= q.len() && #[trigger] d.key_at(q.take(j)) == Some(d.key_at(q.take(j))->0) && d.key_at(
                    q.take(j),
                )->0 == k || 0 < j <= q.len() && d.key_at(q.take(j)) is None;
            lemma_prefix_resolves(d, q, j);
            lemma_resolve_key(d, q.take(j));
            assert(d.key_at(q.take(j)) == Some(k));
            let r = q.take(j).drop_last();
            lemma_lookup(d, d.dir_at(r)->0, q.take(j).last());
            assert(d.dir_at(r) == d.dir_at(q));
            lemma_unique_path(d, r, q);
        }
    }
    vstd::set_lib::lemma_len_subset(keys_on(d, p), d.names.dom());
}

/// The name `k` stands at the path `f`.
pub open spec fn placed_key(d: Disk, k: Key, f: PathView) -> bool {
    f.len() > 0 && d.dir_at(f.drop_last()) == Some(k.dir) && alike(d, k.name, f.last())
}

/// The path `q` goes through the place `f`: one of its prefixes is like it.
pub open spec fn goes_through(d: Disk, q: PathView, f: PathView) -> bool {
    exists|j: int| 0 < j <= q.len() && alike_paths(d, f, #[trigger] q.take(j))
}

/// A child is not on the way to its directory.
pub proof fn lemma_child_off_path(d: Disk, path: PathView, name: Name)
    ensures
        !goes_through(d, path, path.push(name)),
{
    if goes_through(d, path, path.push(name)) {
        let j = choose|j: int| 0 < j <= path.len() && alike_paths(d, path.push(name), #[trigger] path.take(j));
    }
}

/// Changing names at two places leaves every path that goes through neither as it was.
pub proof fn lemma_frame(a: Disk, b: Disk, f: PathView, g: PathView, q: PathView)
    requires
        a.well_formed(),
        b.well_formed(),
        same_volume(a, b),
        forall|k: Key| !placed_key(a, k, f) && !placed_key(a, k, g) ==> #[trigger] agree_at(a.names, b.names, k),
        forall|id: FileId| #[trigger]
            linked(a, id) ==> b.objects.contains_key(id) && b.objects[id].kind() == a.objects[id].kind(),
        !goes_through(a, q, f),
        !goes_through(a, q, g),
    ensures
        b.resolve(q) == a.resolve(q),
        a.resolve(q) matches Some(id) ==> linked(a, id) && b.is_dir(id) == a.is_dir(id),
    decreases q.len(),
{
    if q.len() > 0 {
        let r = q.drop_last();
        assert forall|j: int, h: PathView| 0 < j <= r.len() && #[trigger] alike_paths(a, h, r.take(j)) implies goes_through(
            a,
            q,
            h,
        ) by {
            assert(r.take(j) =~= q.take(j));
        }
        assert(!goes_through(a, r, f)) by {
            if goes_through(a, r, f) {
                let j = choose|j: int| 0 < j <= r.len() && alike_paths(a, f, #[trigger] r.take(j));
                assert(alike_paths(a, f, r.take(j)));
            }
        }
        assert(!goes_through(a, r, g)) by {
            if goes_through(a, r, g) {
                let j = choose|j: int| 0 < j <= r.len() && alike_paths(a, g, #[trigger] r.take(j));
                assert(alike_paths(a, g, r.take(j)));
            }
        }
        lemma_frame(a, b, f, g, r);
        match a.resolve(r) {
            Some(dir) => {
                if a.is_dir(dir) {
                    assert forall|k: Key| #[trigger] alike(a, k.name, q.last()) && k.dir == dir implies agree_at(
                        a.names,
                        b.names,
                        k,
                    ) by {
                        if placed_key(a, k, f) {
                            lemma_same_place(a, k, f, q);
                        }
                        if placed_key(a, k, g) {
                            lemma_same_place(a, k, g, q);
                        }
                    }
                    lemma_lookup_agrees(a, b, dir, q.last());
                    lemma_lookup(a, dir, q.last());
                }
            },
            None => {},
        }
    }
    if a.resolve(q) is Some {
        let id = a.resolve(q)->0;
        lemma_linked_known(a, id);
        assert(linked(a, id));
        lemma_kind_dir(a.objects[id], b.objects[id]);
    }
}

/// Objects of one kind are both directories or both not.
pub proof fn lemma_kind_dir(x: Object, y: Object)
    ensures
        x.kind() == y.kind() ==> (x is Dir) == (y is Dir),
{
}

pub proof fn lemma_linked_known(a: Disk, id: FileId)
    requires
        a.well_formed(),
        linked(a, id),
    ensures
        a.objects.contains_key(id),
{
    if id != a.root {
        let k = choose|k: Key| #[trigger] a.names.contains_key(k) && a.names[k] == id;
        assert(a.names.contains_key(k));
    }
}

proof fn lemma_same_place(a: Disk, k: Key, f: PathView, q: PathView)
    requires
        a.well_formed(),
        placed_key(a, k, f),
        q.len() > 0,
        a.dir_at(q.drop_last()) == Some(k.dir),
        alike(a, k.name, q.last()),
    ensures
        goes_through(a, q, f),
{
    lemma_unique_path(a, f.drop_last(), q.drop_last());
    assert forall|i: int| 0 <= i < f.len() implies alike(a, #[trigger] f[i], q[i]) by {
        if i < f.len() - 1 {
            assert(f[i] == f.drop_last()[i] && q[i] == q.drop_last()[i]);
        }
    }
    assert(q.take(q.len() as int) =~= q);
    assert(alike_paths(a, f, q.take(q.len() as int)));
}

/// Moving something leaves every path that goes through neither end as it was.
pub proof fn lemma_frame_move(
    a: Disk,
    b: Disk,
    from: PathView,
    fp: Option<FileId>,
    to: PathView,
    tp: Option<FileId>,
    q: PathView,
)
    requires
        a.well_formed(),
        b.well_formed(),
        moved_at(a, b, from, fp, to, tp),
        !goes_through(a, q, from),
        !goes_through(a, q, to),
    ensures
        b.resolve(q) == a.resolve(q),
        b.dir_at(q) == a.dir_at(q),
{
    let k = a.key_at(from)->0;
    lemma_lookup(a, a.dir_at(from.drop_last())->0, from.last());
    assert(placed_key(a, k, from));
    let l = Key { dir: a.dir_at(to.drop_last())->0, name: to.last() };
    assert(placed_key(a, l, to));
    assert forall|id: FileId| #[trigger] linked(a, id) implies b.objects.contains_key(id) && b.objects[id].kind()
        == a.objects[id].kind() by {
        lemma_linked_known(a, id);
    }
    lemma_frame(a, b, from, to, q);
}

/// Removing something leaves every path that does not go through it as it was.
pub proof fn lemma_frame_remove(a: Disk, b: Disk, p: PathView, parent: Option<FileId>, q: PathView)
    requires
        a.well_formed(),
        b.well_formed(),
        removed_at(a, b, p, parent),
        !goes_through(a, q, p),
    ensures
        b.resolve(q) == a.resolve(q),
        b.dir_at(q) == a.dir_at(q),
{
    let k = a.key_at(p)->0;
    lemma_lookup(a, a.dir_at(p.drop_last())->0, p.last());
    assert(placed_key(a, k, p));
    assert forall|id: FileId| #[trigger] linked(a, id) implies b.objects.contains_key(id) && b.objects[id].kind()
        == a.objects[id].kind() by {
        lemma_linked_known(a, id);
    }
    lemma_frame(a, b, p, p, q);
}

/// Creating something leaves every path that does not go through it as it was.
pub proof fn lemma_frame_create(a: Disk, b: Disk, p: PathView, id: FileId, object: Object, q: PathView)
    requires
        a.well_formed(),
        b.well_formed(),
        created_at(a, b, p, id, object),
        !goes_through(a, q, p),
    ensures
        b.resolve(q) == a.resolve(q),
        b.dir_at(q) == a.dir_at(q),
{
    let l = Key { dir: a.dir_at(p.drop_last())->0, name: p.last() };
    assert(placed_key(a, l, p));
    assert forall|x: FileId| #[trigger] linked(a, x) implies b.objects.contains_key(x) && b.objects[x].kind()
        == a.objects[x].kind() by {
        lemma_linked_known(a, x);
    }
    lemma_frame(a, b, p, p, q);
}

} // verus!
