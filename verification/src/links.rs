//! Tables of directory entries: which name in which directory leads to which inode.
use vstd::prelude::*;

use crate::bytes::{bytes_eq, to_lower};
use crate::bytes::folded;
use crate::disk::{lookup_in, folds_to, FileId, Key};

verus! {

/// A directory entry.
#[derive(Debug)]
pub struct Link {
    pub dir: usize,
    pub name: Vec<u8>,
    pub ino: usize,
}

/// The identity of an inode.
pub open spec fn fid(ino: usize) -> FileId {
    FileId { dev: 1, ino: ino as u64 }
}

/// Different inodes have different identities.
pub proof fn lemma_fid(a: usize, b: usize)
    requires
        fid(a) == fid(b),
    ensures
        a == b,
{
    assert(fid(a).ino == fid(b).ino);
    assert(a as u64 as usize == a);
}

impl Link {
    /// The name that the entry stands at.
    pub open spec fn key(self) -> Key {
        Key { dir: fid(self.dir), name: self.name@ }
    }
}

impl Clone for Link {
    fn clone(&self) -> (r: Self)
        ensures
            r.key() == self.key(),
            r.dir == self.dir,
            r.ino == self.ino,
    {
        Link { dir: self.dir, name: self.name.clone(), ino: self.ino }
    }
}

/// The `i`-th entry stands at `k`.
pub open spec fn stands_at(links: Seq<Link>, i: int, k: Key) -> bool {
    0 <= i < links.len() && links[i].key() == k
}

/// Some entry stands at `k`.
pub open spec fn has_key(links: Seq<Link>, k: Key) -> bool {
    exists|i: int| #[trigger] stands_at(links, i, k)
}

/// The entry at `k`.
pub open spec fn entry_at(links: Seq<Link>, k: Key) -> int {
    choose|i: int| #[trigger] stands_at(links, i, k)
}

/// No two entries stand at the same name.
pub open spec fn distinct(links: Seq<Link>) -> bool {
    forall|i: int, j: int|
        #![trigger links[i], links[j]]
        0 <= i < links.len() && 0 <= j < links.len() && links[i].key() == links[j].key() ==> i == j
}

/// The names of a table.
pub open spec fn names_of(links: Seq<Link>) -> Map<Key, FileId> {
    Map::new(|k: Key| has_key(links, k), |k: Key| fid(links[entry_at(links, k)].ino))
}

/// What stands at the name of the `i`-th entry is that entry.
pub proof fn lemma_entry(links: Seq<Link>, i: int)
    requires
        distinct(links),
        0 <= i < links.len(),
    ensures
        names_of(links).contains_key(links[i].key()),
        names_of(links)[links[i].key()] == fid(links[i].ino),
        entry_at(links, links[i].key()) == i,
{
    let k = links[i].key();
    assert(stands_at(links, i, k));
    let j = entry_at(links, k);
    assert(stands_at(links, j, k));
    assert(links[i].key() == links[j].key());
}

/// A name that is there belongs to an entry.
pub proof fn lemma_key(links: Seq<Link>, k: Key) -> (i: int)
    requires
        distinct(links),
        names_of(links).contains_key(k),
    ensures
        stands_at(links, i, k),
        names_of(links)[k] == fid(links[i].ino),
{
    let i = entry_at(links, k);
    assert(stands_at(links, i, k));
    i
}

/// Adding an entry at a free name.
pub proof fn lemma_push(links: Seq<Link>, l: Link)
    requires
        distinct(links),
        !names_of(links).contains_key(l.key()),
    ensures
        distinct(links.push(l)),
        names_of(links.push(l)) == names_of(links).insert(l.key(), fid(l.ino)),
{
    let more = links.push(l);
    assert forall|i: int, j: int|
        #![trigger more[i], more[j]]
        0 <= i < more.len() && 0 <= j < more.len() && more[i].key() == more[j].key() implies i == j by {
        if i < links.len() && j == links.len() {
            assert(stands_at(links, i, l.key()));
        }
        if j < links.len() && i == links.len() {
            assert(stands_at(links, j, l.key()));
        }
        if i < links.len() && j < links.len() {
            assert(links[i].key() == links[j].key());
        }
    }
    assert forall|k: Key| has_key(more, k) <==> has_key(links, k) || k == l.key() by {
        if has_key(more, k) {
            let i = entry_at(more, k);
            assert(stands_at(more, i, k));
            if i < links.len() {
                assert(stands_at(links, i, k));
            }
        }
        if has_key(links, k) {
            let i = entry_at(links, k);
            assert(stands_at(links, i, k));
            assert(stands_at(more, i, k));
        }
        if k == l.key() {
            assert(stands_at(more, links.len() as int, k));
        }
    }
    assert forall|k: Key| names_of(more).contains_key(k) implies names_of(more)[k] == names_of(links).insert(
        l.key(),
        fid(l.ino),
    )[k] by {
        if k == l.key() {
            lemma_entry(more, links.len() as int);
        } else {
            let i = lemma_key(links, k);
            assert(more[i] == links[i]);
            lemma_entry(more, i);
        }
    }
    assert(names_of(more) =~= names_of(links).insert(l.key(), fid(l.ino)));
}

/// Taking an entry out.
pub proof fn lemma_remove(links: Seq<Link>, i: int)
    requires
        distinct(links),
        0 <= i < links.len(),
    ensures
        distinct(links.remove(i)),
        names_of(links.remove(i)) == names_of(links).remove(links[i].key()),
{
    let less = links.remove(i);
    let gone = links[i].key();
    assert forall|a: int, b: int|
        #![trigger less[a], less[b]]
        0 <= a < less.len() && 0 <= b < less.len() && less[a].key() == less[b].key() implies a == b by {
        let x = if a < i {
            a
        } else {
            a + 1
        };
        let y = if b < i {
            b
        } else {
            b + 1
        };
        assert(links[x].key() == links[y].key());
    }
    assert forall|k: Key| has_key(less, k) <==> has_key(links, k) && k != gone by {
        if has_key(less, k) {
            let a = entry_at(less, k);
            assert(stands_at(less, a, k));
            let x = if a < i {
                a
            } else {
                a + 1
            };
            assert(stands_at(links, x, k));
            if k == gone {
                assert(links[x].key() == links[i].key());
            }
        }
        if has_key(links, k) && k != gone {
            let x = entry_at(links, k);
            assert(stands_at(links, x, k));
            let a = if x < i {
                x
            } else {
                x - 1
            };
            assert(stands_at(less, a, k));
        }
    }
    assert forall|k: Key| names_of(less).contains_key(k) implies names_of(less)[k] == names_of(links)[k] by {
        let a = lemma_key(less, k);
        let x = if a < i {
            a
        } else {
            a + 1
        };
        assert(less[a] == links[x]);
        lemma_entry(links, x);
    }
    assert(names_of(less) =~= names_of(links).remove(gone));
}

/// Making an entry lead elsewhere.
pub proof fn lemma_update(links: Seq<Link>, i: int, l: Link)
    requires
        distinct(links),
        0 <= i < links.len(),
        l.key() == links[i].key(),
    ensures
        distinct(links.update(i, l)),
        names_of(links.update(i, l)) == names_of(links).insert(l.key(), fid(l.ino)),
{
    let new = links.update(i, l);
    assert forall|a: int, b: int|
        #![trigger new[a], new[b]]
        0 <= a < new.len() && 0 <= b < new.len() && new[a].key() == new[b].key() implies a == b by {
        assert(links[a].key() == links[b].key());
    }
    assert forall|k: Key| has_key(new, k) <==> has_key(links, k) by {
        if has_key(new, k) {
            let a = entry_at(new, k);
            assert(stands_at(new, a, k));
            assert(stands_at(links, a, k));
        }
        if has_key(links, k) {
            let a = entry_at(links, k);
            assert(stands_at(links, a, k));
            assert(stands_at(new, a, k));
        }
    }
    assert(stands_at(links, i, l.key()));
    assert forall|k: Key| names_of(new).contains_key(k) implies names_of(new)[k] == names_of(links).insert(
        l.key(),
        fid(l.ino),
    )[k] by {
        let a = lemma_key(new, k);
        lemma_entry(links, a);
    }
    assert(names_of(new) =~= names_of(links).insert(l.key(), fid(l.ino)));
}

/// A table has finitely many names.
pub proof fn lemma_finite(links: Seq<Link>)
    requires
        distinct(links),
    ensures
        names_of(links).dom().finite(),
        names_of(links).dom().len() <= links.len(),
    decreases links.len(),
{
    if links.len() == 0 {
        assert forall|k: Key| !has_key(links, k) by {
            if has_key(links, k) {
                assert(stands_at(links, entry_at(links, k), k));
            }
        }
        assert(names_of(links).dom() =~= Set::<Key>::empty());
    } else {
        let last = links.len() - 1;
        lemma_remove(links, last);
        let less = links.remove(last);
        lemma_finite(less);
        let k = links[last].key();
        lemma_entry(links, last);
        assert(names_of(links).dom() =~= names_of(less).dom().insert(k));
    }
}

/// Tables with the same entries have the same names.
pub proof fn lemma_same_entries(a: Seq<Link>, b: Seq<Link>)
    requires
        distinct(a),
        a.len() == b.len(),
        forall|i: int| 0 <= i < a.len() ==> (#[trigger] b[i]).key() == a[i].key() && b[i].ino == a[i].ino,
    ensures
        distinct(b),
        names_of(b) == names_of(a),
{
    assert forall|i: int, j: int|
        #![trigger b[i], b[j]]
        0 <= i < b.len() && 0 <= j < b.len() && b[i].key() == b[j].key() implies i == j by {
        assert(a[i].key() == a[j].key());
    }
    assert forall|k: Key| has_key(a, k) <==> has_key(b, k) by {
        if has_key(a, k) {
            assert(stands_at(a, entry_at(a, k), k));
            assert(stands_at(b, entry_at(a, k), k));
        }
        if has_key(b, k) {
            assert(stands_at(b, entry_at(b, k), k));
            assert(stands_at(a, entry_at(b, k), k));
        }
    }
    assert forall|k: Key| names_of(b).contains_key(k) implies names_of(b)[k] == names_of(a)[k] by {
        let i = lemma_key(b, k);
        lemma_entry(a, i);
    }
    assert(names_of(b) =~= names_of(a));
}

/// A copy of a table.
pub fn copy_links(links: &Vec<Link>) -> (r: Vec<Link>)
    ensures
        r@.len() == links@.len(),
        forall|i: int|
            0 <= i < r@.len() ==> (#[trigger] r@[i]).key() == links@[i].key() && r@[i].ino == links@[i].ino && r@[i].dir
                == links@[i].dir,
        distinct(links@) ==> distinct(r@) && names_of(r@) == names_of(links@),
{
    let n = links.len();
    let mut out: Vec<Link> = Vec::new();
    let mut i: usize = 0;
    while i < n
        invariant
            i <= n,
            n == links@.len(),
            out@.len() == i,
            forall|k: int|
                0 <= k < i ==> (#[trigger] out@[k]).key() == links@[k].key() && out@[k].ino == links@[k].ino
                    && out@[k].dir == links@[k].dir,
        decreases n - i,
    {
        out.push(links[i].clone());
        i = i + 1;
    }
    proof {
        if distinct(links@) {
            lemma_same_entries(links@, out@);
        }
    }
    out
}

/// Finds the entry at exactly this name.
pub fn find_exact(links: &Vec<Link>, dir: usize, name: &[u8]) -> (r: Option<usize>)
    requires
        distinct(links@),
    ensures
        match r {
            Some(i) => i < links@.len() && links@[i as int].key() == (Key { dir: fid(dir), name: name@ })
                && links@[i as int].dir == dir,
            None => !names_of(links@).contains_key(Key { dir: fid(dir), name: name@ }),
        },
{
    let n = links.len();
    let mut i: usize = 0;
    let ghost k = Key { dir: fid(dir), name: name@ };
    while i < n
        invariant
            i <= n,
            n == links@.len(),
            k == (Key { dir: fid(dir), name: name@ }),
            forall|j: int| 0 <= j < i ==> (#[trigger] links@[j]).key() != k,
        decreases n - i,
    {
        if links[i].dir == dir && bytes_eq(&links[i].name, name) {
            return Some(i);
        }
        proof {
            if links@[i as int].key() == k {
                lemma_fid(links@[i as int].dir, dir);
            }
        }
        i = i + 1;
    }
    proof {
        if names_of(links@).contains_key(k) {
            let j = lemma_key(links@, k);
            assert(links@[j].key() == k);
        }
    }
    None
}

/// Finds the entry that a lookup of `name` in `dir` finds, where no two names in a directory
/// differ in case only if case is ignored.
pub fn find(links: &Vec<Link>, folds: bool, dir: usize, name: &[u8]) -> (r: Option<usize>)
    requires
        distinct(links@),
    ensures
        r matches Some(i) ==> i < links@.len() && links@[i as int].dir == dir && (lookup_in(
            names_of(links@),
            folds,
            fid(dir),
            name@,
        ) is Some) && (links@[i as int].name@ == name@ || folds && folds_to(
            names_of(links@),
            links@[i as int].key(),
            fid(dir),
            name@,
        )),
        r is None ==> lookup_in(names_of(links@), folds, fid(dir), name@) is None,
{
    if let Some(i) = find_exact(links, dir, name) {
        proof {
            lemma_entry(links@, i as int);
        }
        return Some(i);
    }
    if !folds {
        return None;
    }
    let low = to_lower(name);
    let n = links.len();
    let mut i: usize = 0;
    while i < n
        invariant
            i <= n,
            n == links@.len(),
            distinct(links@),
            folds,
            low@ == folded(name@),
            !names_of(links@).contains_key(Key { dir: fid(dir), name: name@ }),
            forall|j: int|
                0 <= j < i ==> !((#[trigger] links@[j]).key().dir == fid(dir) && folded(links@[j].name@) == folded(
                    name@,
                )),
        decreases n - i,
    {
        if links[i].dir == dir {
            let other = to_lower(&links[i].name);
            if bytes_eq(&other, &low) {
                proof {
                    lemma_entry(links@, i as int);
                    assert(folds_to(names_of(links@), links@[i as int].key(), fid(dir), name@));
                }
                return Some(i);
            }
        } else {
            proof {
                if links@[i as int].key().dir == fid(dir) {
                    lemma_fid(links@[i as int].dir, dir);
                }
            }
        }
        i = i + 1;
    }
    proof {
        assert forall|k: Key| !folds_to(names_of(links@), k, fid(dir), name@) by {
            if folds_to(names_of(links@), k, fid(dir), name@) {
                let j = lemma_key(links@, k);
                assert(links@[j].key() == k);
            }
        }
    }
    None
}

} // verus!
