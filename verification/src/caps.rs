//! Capability probing. Support is decided by testing the required semantics on the root's own
//! filesystem, never by filesystem name. Probes cannot test crash durability; that remains a
//! documented assumption.
use vstd::prelude::*;

use crate::apply::{lemma_created_is_found, lemma_moved_within};
use crate::bytes::{folded, lower, Name};
use crate::disk::{Disk, FileId, Key, Object};
use crate::error::{Error, IoError, IoErrorKind, Result};
use crate::path::{private_name, private_path, PathView, RelPath};
use crate::probing::{
    lemma_probed_area, lemma_probed_begins, lemma_probed_create, lemma_probed_move, lemma_probed_pruned, lemma_probed_same,
    lemma_probed_self, lemma_spotless, probed, spotless, unknown,
};
use crate::recover::is_garbage;
use crate::state::{delete_tree, private_dir, probe_prefix_bytes};
use crate::state::{private_root, probe_prefix_name};
use crate::text::{decimal, numeral, write_decimal, write_numeral};
use crate::tree::{agree_at, alike, alike_paths, goes_through, pruned_below, same_tree};
use crate::tree::{
    lemma_child_off_path, lemma_frame_create, lemma_frame_move, lemma_lookup, lemma_private_create, lemma_private_move, lemma_pruned_above, lemma_resolve_key,
    lemma_same_content, lemma_same_tree_transitive, lemma_way_to,
};
use crate::vfs::{created_at, describes, free_at, movable, moved_at, same_volume, taken, Features, Meta, Vfs};

verus! {

/// What the probe learned about the filesystem.
#[derive(Clone, Copy, Debug, PartialEq, Eq, Structural)]
pub struct Caps {
    /// Name lookups ignore ASCII case (colliding names are then rejected).
    pub case_insensitive: bool,
}

impl Default for Caps {
    fn default() -> (r: Self)
        ensures
            !r.case_insensitive,
    {
        Caps { case_insensitive: false }
    }
}

/// Capabilities already probed, by filesystem.
#[derive(Debug)]
pub struct ProbeCache {
    entries: Vec<(FileId, Caps)>,
}

impl ProbeCache {
    /// What is known of the filesystem `key`: the entry made last.
    pub closed spec fn known(self, key: FileId) -> Option<Caps> {
        self.known_among(key, self.entries@.len() as int)
    }

    spec fn known_among(self, key: FileId, n: int) -> Option<Caps>
        decreases n,
    {
        if n <= 0 {
            None
        } else if self.entries@[n - 1].0 == key {
            Some(self.entries@[n - 1].1)
        } else {
            self.known_among(key, n - 1)
        }
    }

    /// A cache that knows nothing.
    pub fn new() -> (r: ProbeCache)
        ensures
            forall|key: FileId| (#[trigger] r.known(key)) is None,
    {
        ProbeCache { entries: Vec::new() }
    }

    /// What is known of the filesystem `key`.
    pub fn get(&self, key: FileId) -> (r: Option<Caps>)
        ensures
            r == self.known(key),
    {
        let n = self.entries.len();
        let mut i: usize = n;
        while i > 0
            invariant
                i <= n,
                n == self.entries@.len(),
                self.known_among(key, n as int) == self.known_among(key, i as int),
            decreases i,
        {
            i = i - 1;
            if self.entries[i].0 == key {
                return Some(self.entries[i].1);
            }
        }
        None
    }

    /// Remembers what was learned of the filesystem `key`.
    pub fn insert(&mut self, key: FileId, caps: Caps)
        ensures
            final(self).known(key) == Some(caps),
            forall|other: FileId| other != key ==> #[trigger] final(self).known(other) == old(self).known(other),
    {
        let ghost before = *self;
        self.entries.push((key, caps));
        proof {
            let n = before.entries@.len() as int;
            assert forall|other: FileId| other != key implies #[trigger] self.known(other) == before.known(other) by {
                lemma_known_among_same(before, *self, other, n);
            }
        }
    }
}

proof fn lemma_known_among_same(a: ProbeCache, b: ProbeCache, key: FileId, n: int)
    requires
        0 <= n <= a.entries@.len(),
        n <= b.entries@.len(),
        forall|i: int| 0 <= i < n ==> a.entries@[i] == b.entries@[i],
    ensures
        a.known_among(key, n) == b.known_among(key, n),
    decreases n,
{
    if n > 0 {
        lemma_known_among_same(a, b, key, n - 1);
    }
}

/// What a process knows of itself and of the moment: it goes into names that must be new, and
/// it remembers probes.
#[derive(Debug)]
pub struct Session {
    /// Nanoseconds since the epoch.
    pub nanos: u128,
    pub pid: u32,
    /// Transactions begun so far.
    pub counter: u64,
    pub cache: ProbeCache,
}

/// The name of the probe's scratch directory: `probe-<pid>-<nanos>`.
pub open spec fn probe_name(pid: u32, nanos: u128) -> Name {
    probe_prefix_name() + decimal(pid as nat) + seq![45u8] + numeral(nanos as nat, 16)
}

/// EINVAL/EOPNOTSUPP/ENOSYS mean "not supported"; any other error (EIO, ENOSPC, ...) is a
/// real failure and must not be mistaken for a missing capability.
pub fn unsupported(e: &IoError) -> (r: bool)
    ensures
        r == (e.kind == IoErrorKind::Unsupported || e.kind == IoErrorKind::InvalidInput),
{
    e.kind == IoErrorKind::Unsupported || e.kind == IoErrorKind::InvalidInput
}

/// How a no-replace rename onto an existing name came out.
#[derive(Clone, Copy, Debug, PartialEq, Eq, Structural)]
pub enum Onto {
    /// It was refused, as it must be.
    Refused,
    /// The existing name was replaced.
    Replaced,
    /// The filesystem has no such rename.
    Unsupported,
}

/// What is missing, by what was seen: how a no-replace rename onto an existing name came out;
/// whether a file kept its identity across a rename; and whether a directory could be synced.
pub open spec fn lacking(onto: Onto, stable: bool, synced: bool) -> Seq<Seq<char>> {
    (match onto {
        Onto::Refused => if stable {
            Seq::empty()
        } else {
            seq!["file identities that are stable across rename"@]
        },
        Onto::Replaced => seq!["no-replace rename (an existing destination was replaced)"@],
        Onto::Unsupported => seq!["no-replace rename (RENAME_NOREPLACE)"@],
    }) + (if synced {
        Seq::empty()
    } else {
        seq!["directory fsync"@]
    })
}

/// The characters of each literal.
pub open spec fn literals(v: Seq<&'static str>) -> Seq<Seq<char>> {
    v.map_values(|s: &'static str| s@)
}

/// Lists what is missing, by what was seen.
pub fn missing_features(onto: Onto, stable: bool, synced: bool) -> (r: Vec<&'static str>)
    ensures
        literals(r@) == lacking(onto, stable, synced),
{
    let mut missing: Vec<&'static str> = Vec::new();
    match onto {
        Onto::Refused => {
            if !stable {
                missing.push("file identities that are stable across rename");
            }
        },
        Onto::Replaced => {
            missing.push("no-replace rename (an existing destination was replaced)");
        },
        Onto::Unsupported => {
            missing.push("no-replace rename (RENAME_NOREPLACE)");
        },
    }
    if !synced {
        missing.push("directory fsync");
    }
    assert(literals(missing@) =~= lacking(onto, stable, synced));
    missing
}

/// The list names what a filesystem lacks. An implementation that keeps its contract never
/// replaces, and on one with steady identities a rename keeps them.
pub open spec fn found_lacking(d: Disk, missing: Seq<Seq<char>>) -> bool {
    missing.len() > 0 && exists|onto: Onto, stable: bool, synced: bool| #[trigger]
        lacking(onto, stable, synced) == missing && onto != Onto::Replaced && (d.steady ==> stable)
}

/// What a filesystem with these features lacks.
pub open spec fn shortfall(f: Features) -> Seq<Seq<char>> {
    lacking(
        if f.noreplace {
            Onto::Refused
        } else {
            Onto::Unsupported
        },
        !f.renumbers,
        f.dir_sync,
    )
}

/// A filesystem with these features can be used: a rename never replaces, what is moved keeps its
/// identity, and directories can be synced.
pub open spec fn suits(f: Features) -> bool {
    f.noreplace && !f.renumbers && f.dir_sync
}

/// The filesystem cannot be used: it lacks what the list names, or it is refused as not local.
pub open spec fn cannot_use(d: Disk, refused: bool, missing: Seq<Seq<char>>) -> bool {
    if refused {
        missing == seq![not_local()]
    } else {
        found_lacking(d, missing)
    }
}

/// Why a network filesystem is refused.
pub open spec fn not_local() -> Seq<char> {
    "a local filesystem (network/FUSE filesystem detected; see Options::allow_untested_fs)"@
}

/// A move keeps the identity that an object reports, where identities are steady.
proof fn lemma_identity_kept(a: Disk, b: Disk, path: PathView, from: Name, to: Name, before: Meta, after: Meta)
    requires
        a.well_formed(),
        b.well_formed(),
        same_volume(a, b),
        moved_at(a, b, path.push(from), None, path.push(to), None),
        a.resolve(path.push(from)) matches Some(x) && describes(a, x, before),
        b.resolve(path.push(to)) matches Some(x) && describes(b, x, after),
        a.steady,
    ensures
        before.id == after.id,
{
    lemma_moved_within(a, b, path, from, to);
}

/// The scratch directory `dir` holds nothing but short names.
spec fn scratch(d: Disk, path: PathView, dir: FileId) -> bool {
    &&& d.dir_at(path) == Some(dir)
    &&& forall|k: Key| #[trigger] d.names.contains_key(k) && k.dir == dir ==> k.name.len() == 1
}

/// Creating a short name in the scratch directory keeps it scratch.
proof fn lemma_scratch_create(a: Disk, b: Disk, path: PathView, dir: FileId, name: Name)
    requires
        a.well_formed(),
        b.well_formed(),
        scratch(a, path, dir),
        private_path(path),
        name.len() == 1,
        b == a || exists|id: FileId, object: Object| #[trigger] created_at(a, b, path.push(name), id, object),
    ensures
        scratch(b, path, dir),
        same_tree(a, b),
{
    if b != a {
        let p = path.push(name);
        let (id, object) = choose|id: FileId, object: Object| #[trigger] created_at(a, b, p, id, object);
        assert(p.drop_last() =~= path);
        assert(p[0] == path[0]);
        lemma_child_off_path(a, path, name);
        lemma_frame_create(a, b, p, id, object, path);
        lemma_private_create(a, b, p, id, object);
    } else {
        lemma_same_content(a, a);
    }
}

/// Moving within the scratch directory to a short name keeps it scratch.
proof fn lemma_scratch_move(a: Disk, b: Disk, path: PathView, dir: FileId, from: Name, to: Name)
    requires
        a.well_formed(),
        b.well_formed(),
        scratch(a, path, dir),
        private_path(path),
        to.len() == 1,
        b == a || moved_at(a, b, path.push(from), None, path.push(to), None),
    ensures
        scratch(b, path, dir),
        same_tree(a, b),
{
    if moved_at(a, b, path.push(from), None, path.push(to), None) {
        let f = path.push(from);
        let t = path.push(to);
        assert(f.drop_last() =~= path && t.drop_last() =~= path);
        assert(f[0] == path[0] && t[0] == path[0]);
        lemma_child_off_path(a, path, from);
        lemma_child_off_path(a, path, to);
        lemma_frame_move(a, b, f, None, t, None, path);
        lemma_private_move(a, b, f, None, t, None);
    } else {
        lemma_same_content(a, a);
    }
}

/// Nothing stands in the directory `dir`.
pub open spec fn bare(d: Disk, dir: FileId) -> bool {
    forall|k: Key| #[trigger] d.names.contains_key(k) ==> k.dir != dir
}

/// Names that stand elsewhere than in the directory `dir` are the same.
pub open spec fn same_outside(a: Disk, b: Disk, dir: FileId) -> bool {
    forall|k: Key| k.dir != dir ==> #[trigger] agree_at(a.names, b.names, k)
}

/// A name that is like none in the directory is free there.
pub proof fn lemma_free_name(d: Disk, path: PathView, dir: FileId, name: Name)
    requires
        d.well_formed(),
        d.dir_at(path) == Some(dir),
        forall|k: Key| #[trigger] d.names.contains_key(k) && k.dir == dir ==> !alike(d, k.name, name),
    ensures
        free_at(d, path.push(name)),
{
    assert(path.push(name).drop_last() =~= path);
    lemma_lookup(d, dir, name);
}

/// Names of different lengths are not alike, nor are names that differ in their first letter.
pub proof fn lemma_unlike(d: Disk, m: Name, n: Name)
    requires
        m.len() != n.len() || m.len() > 0 && lower(m[0]) != lower(n[0]),
    ensures
        !alike(d, m, n),
{
    assert(folded(m).len() == m.len() && folded(n).len() == n.len());
    if m.len() > 0 && n.len() > 0 {
        assert(folded(m)[0] == lower(m[0]) && folded(n)[0] == lower(n[0]));
    }
}

/// Creating a name in the directory `dir` leaves names elsewhere as they were.
proof fn lemma_created_inside(a: Disk, b: Disk, path: PathView, dir: FileId, name: Name)
    requires
        a.dir_at(path) == Some(dir),
        b == a || exists|id: FileId, object: Object| #[trigger] created_at(a, b, path.push(name), id, object),
    ensures
        same_outside(a, b, dir),
        forall|k: Key| #[trigger] b.names.contains_key(k) ==> a.names.contains_key(k) || k == (Key { dir, name }),
{
    assert(path.push(name).drop_last() =~= path);
}

/// Moving within the directory `dir` leaves names elsewhere as they were.
proof fn lemma_moved_inside(a: Disk, b: Disk, path: PathView, dir: FileId, from: Name, to: Name)
    requires
        a.well_formed(),
        a.dir_at(path) == Some(dir),
        b == a || moved_at(a, b, path.push(from), None, path.push(to), None),
    ensures
        same_outside(a, b, dir),
{
    assert(path.push(from).drop_last() =~= path);
    assert(path.push(to).drop_last() =~= path);
    lemma_lookup(a, dir, from);
}

proof fn lemma_same_outside_transitive(a: Disk, b: Disk, c: Disk, dir: FileId)
    requires
        same_outside(a, b, dir),
        same_outside(b, c, dir),
    ensures
        same_outside(a, c, dir),
{
    assert forall|k: Key| k.dir != dir implies #[trigger] agree_at(a.names, c.names, k) by {
        assert(agree_at(a.names, b.names, k));
        assert(agree_at(b.names, c.names, k));
    }
}

/// Tests the required semantics in the scratch directory `dir`.
fn run_probe<V: Vfs>(
    vfs: &mut V,
    dir: &RelPath,
    Ghost(id): Ghost<FileId>,
    Ghost(base): Ghost<Disk>,
    Ghost(name): Ghost<Name>,
) -> (r: Result<Caps>)
    requires
        old(vfs).valid(),
        private_path(dir@),
        scratch(old(vfs).disk(), dir@, id),
        probed(base, old(vfs).disk(), name),
        unknown(base, id),
    ensures
        probed(base, final(vfs).disk(), name),
        final(vfs).features() == old(vfs).features(),
        final(vfs).distrusted() == old(vfs).distrusted() && final(vfs).cache_key() == old(vfs).cache_key(),
        r is Ok ==> suits(old(vfs).features()),
        old(vfs).runs() && old(vfs).room() >= 3 && bare(old(vfs).disk(), id) && (old(vfs).disk().steady
            || old(vfs).features().renumbers) && !suits(old(vfs).features()) ==> (
        r matches Err(Error::UnsupportedFilesystem { missing }) && literals(missing@) == shortfall(old(vfs).features())),
        old(vfs).runs() ==> final(vfs).runs() && final(vfs).room() + 3 >= old(vfs).room(),
        final(vfs).valid(),
        same_volume(old(vfs).disk(), final(vfs).disk()),
        same_tree(old(vfs).disk(), final(vfs).disk()),
        r matches Ok(caps) ==> caps.case_insensitive == old(vfs).disk().folds,
        r matches Err(e) ==> match e {
            Error::UnsupportedFilesystem { missing } => found_lacking(old(vfs).disk(), literals(missing@)),
            _ => e is Io,
        },
        final(vfs).disk().dir_at(dir@) == Some(id),
        same_outside(old(vfs).disk(), final(vfs).disk(), id),
        old(vfs).serves() && old(vfs).room() >= 3 && old(vfs).disk().steady && bare(old(vfs).disk(), id) ==> r is Ok,
        old(vfs).serves() ==> final(vfs).serves() && final(vfs).room() + 3 >= old(vfs).room(),
{
    let ghost d0 = vfs.disk();
    let ghost sure = vfs.serves() && vfs.room() >= 3 && d0.steady && bare(d0, id);
    let ghost f = vfs.features();
    let ghost live = vfs.runs() && vfs.room() >= 3 && bare(d0, id) && (d0.steady || f.renumbers);
    let a = dir.join(vec![97]);
    let b = dir.join(vec![98]);
    let c = dir.join(vec![99]);
    let content_a: Vec<u8> = vec![97];
    let content_b: Vec<u8> = vec![98];
    proof {
        vfs.lemma_valid();
        lemma_same_content(d0, d0);
        assert(a@ =~= dir@.push(seq![97u8])) by {
            assert(a@.last() =~= seq![97u8]);
        }
        assert(b@ =~= dir@.push(seq![98u8])) by {
            assert(b@.last() =~= seq![98u8]);
        }
        assert(c@ =~= dir@.push(seq![99u8])) by {
            assert(c@.last() =~= seq![99u8]);
        }
        if sure || live {
            lemma_free_name(d0, dir@, id, seq![97u8]);
        }
    }
    let made = vfs.create_file(&a, &content_a, None);
    let ghost d1 = vfs.disk();
    proof {
        vfs.lemma_valid();
        lemma_scratch_create(d0, d1, dir@, id, seq![97u8]);
        lemma_created_inside(d0, d1, dir@, id, seq![97u8]);
        lemma_probed_step(base, d0, d1, name, dir@, id, seq![97u8]);
    }
    if let Err(e) = made {
        return Err(Error::Io(e));
    }
    let ghost (ia, oa) = choose|x: FileId, object: Object| #[trigger]
        created_at(d0, d1, a@, x, object) && object is File;
    proof {
        lemma_created_is_found(d0, d1, a@, ia, oa);
        lemma_unlike(d1, seq![97u8], seq![98u8]);
        lemma_unlike(d1, seq![97u8], seq![99u8]);
        lemma_unlike(d1, seq![98u8], seq![99u8]);
        if sure || live {
            lemma_free_name(d1, dir@, id, seq![98u8]);
        }
    }
    let made = vfs.create_file(&b, &content_b, None);
    let ghost d2 = vfs.disk();
    proof {
        vfs.lemma_valid();
        lemma_scratch_create(d1, d2, dir@, id, seq![98u8]);
        lemma_same_tree_transitive(d0, d1, d2);
        lemma_created_inside(d1, d2, dir@, id, seq![98u8]);
        lemma_probed_step(base, d1, d2, name, dir@, id, seq![98u8]);
        lemma_same_outside_transitive(d0, d1, d2, id);
    }
    if let Err(e) = made {
        return Err(Error::Io(e));
    }
    proof {
        let (x, object) = choose|x: FileId, object: Object| #[trigger] created_at(d1, d2, b@, x, object);
        lemma_created_is_found(d1, d2, b@, x, object);
        lemma_kept_beside(d1, d2, dir@, id, seq![97u8], seq![98u8], x, object);
        lemma_resolve_key(d2, a@);
        lemma_resolve_key(d2, b@);
        assert(taken(d2, a@, None, b@, None));
    }
    let tried = vfs.rename_noreplace(&a, None, &b, None);
    let ghost d3 = vfs.disk();
    proof {
        vfs.lemma_valid();
        lemma_scratch_move(d2, d3, dir@, id, seq![97u8], seq![98u8]);
        lemma_same_tree_transitive(d0, d2, d3);
        lemma_moved_inside(d2, d3, dir@, id, seq![97u8], seq![98u8]);
        lemma_same_outside_transitive(d0, d2, d3, id);
        assert(b@.drop_last() =~= dir@);
        assert(d2.resolve(b@) is Some) by {
            let (x, object) = choose|x: FileId, object: Object| #[trigger] created_at(d1, d2, b@, x, object);
            lemma_created_is_found(d1, d2, b@, x, object);
        }
        lemma_lookup(d2, id, b@.last());
    }
    let onto = match tried {
        Ok(_) => Onto::Replaced,
        Err(e) => {
            if e.kind == IoErrorKind::AlreadyExists {
                Onto::Refused
            } else if unsupported(&e) {
                Onto::Unsupported
            } else {
                return Err(Error::Io(e));
            }
        },
    };
    assert(onto != Onto::Replaced);
    let ghost mut d4 = d3;
    let mut stable = true;
    if onto == Onto::Refused {
        proof {
            assert(d3 == d2);
            lemma_way_to(d3, a@);
            if sure || live {
                assert forall|k: Key| #[trigger] d3.names.contains_key(k) && k.dir == id implies !alike(
                    d3,
                    k.name,
                    seq![99u8],
                ) by {
                    assert(d1.names.contains_key(k) || k == (Key { dir: id, name: seq![98u8] }));
                }
                lemma_free_name(d3, dir@, id, seq![99u8]);
                assert(movable(d3, a@, None, c@, None));
            }
        }
        let before = match vfs.stat(&a) {
            Ok(x) => x,
            Err(e) => return Err(Error::Io(e)),
        };
        let moved = vfs.rename_noreplace(&a, None, &c, None);
        proof {
            vfs.lemma_valid();
            d4 = vfs.disk();
            lemma_scratch_move(d3, d4, dir@, id, seq![97u8], seq![99u8]);
            lemma_same_tree_transitive(d0, d3, d4);
            lemma_moved_inside(d3, d4, dir@, id, seq![97u8], seq![99u8]);
            if d4 != d3 {
                assert(a@.drop_last() =~= dir@ && c@.drop_last() =~= dir@);
                lemma_probed_move(base, d3, d4, name, a@, c@);
            }
            lemma_same_outside_transitive(d0, d3, d4, id);
        }
        if let Err(e) = moved {
            return Err(Error::Io(e));
        }
        proof {
            lemma_resolve_key(d3, a@);
            lemma_moved_within(d3, d4, dir@, seq![97u8], seq![99u8]);
            lemma_way_to(d4, c@);
        }
        stable = match before {
            None => false,
            Some(m) => match vfs.stat(&c) {
                Ok(Some(n)) => {
                    proof {
                        if d3.steady {
                            lemma_identity_kept(d3, d4, dir@, seq![97u8], seq![99u8], m, n);
                        }
                        assert(f.renumbers ==> m.id != n.id);
                    }
                    m.id == n.id
                },
                Ok(None) => false,
                Err(e) => return Err(Error::Io(e)),
            },
        };
        assert(d0.steady ==> stable);
        assert(f.renumbers ==> !stable);
    }
    let tried = vfs.sync_dir(dir);
    let ghost d5 = vfs.disk();
    proof {
        lemma_same_content(d4, d5);
        assert(d5.resolve(dir@) == d4.resolve(dir@));
        assert(same_outside(d4, d5, id));
        lemma_probed_same(base, d4, d5, name);
        lemma_same_outside_transitive(d0, d4, d5, id);
        lemma_same_tree_transitive(d0, d4, d5);
    }
    let synced = match tried {
        Ok(_) => true,
        Err(e) => {
            if unsupported(&e) {
                false
            } else {
                return Err(Error::Io(e));
            }
        },
    };
    let missing = missing_features(onto, stable, synced);
    assert(literals(missing@).len() == missing@.len());
    if missing.len() > 0 {
        assert(found_lacking(d0, literals(missing@)));
        return Err(Error::UnsupportedFilesystem { missing });
    }
    assert(scratch(d5, dir@, id)) by {
        assert(d5.resolve(dir@) == d4.resolve(dir@));
    }
    let big = dir.join(vec![67, 97, 115, 101, 80, 114, 111, 98, 101]);
    let small = dir.join(vec![99, 97, 115, 101, 112, 114, 111, 98, 101]);
    let empty: Vec<u8> = Vec::new();
    proof {
        vfs.lemma_valid();
        assert(big@ =~= dir@.push(big_name())) by {
            assert(big@.last() =~= big_name());
        }
        assert(small@ =~= dir@.push(small_name())) by {
            assert(small@.last() =~= small_name());
        }
        assert forall|k: Key| #[trigger] d5.names.contains_key(k) && k.dir == id implies !alike(
            d5,
            k.name,
            big_name(),
        ) by {
            lemma_unlike(d5, k.name, big_name());
        }
        lemma_free_name(d5, dir@, id, big_name());
    }
    let made = vfs.create_file(&big, &empty, None);
    let ghost d6 = vfs.disk();
    proof {
        vfs.lemma_valid();
        assert(big@[0] == dir@[0]);
        if d6 != d5 {
            crate::compile::lemma_made_privately(d5, d6, big@);
        } else {
            lemma_same_content(d5, d5);
        }
        lemma_same_tree_transitive(d0, d5, d6);
        lemma_created_inside(d5, d6, dir@, id, big_name());
        lemma_probed_step(base, d5, d6, name, dir@, id, big_name());
        lemma_same_outside_transitive(d0, d5, d6, id);
        if d6 != d5 {
            let (x, object) = choose|x: FileId, object: Object| #[trigger] created_at(d5, d6, big@, x, object);
            lemma_child_off_path(d5, dir@, big_name());
            lemma_frame_create(d5, d6, big@, x, object, dir@);
        }
        assert(small@.drop_last() =~= dir@);
        lemma_way_to(d6, small@);
    }
    match made {
        Ok(m) => {
            proof {
                let (x, object) = choose|x: FileId, object: Object| #[trigger] created_at(d5, d6, big@, x, object);
                lemma_case_probe(d5, d6, dir@, id, x, object);
            }
        },
        Err(e) => return Err(Error::Io(e)),
    }
    match vfs.stat(&small) {
        Ok(found) => Ok(Caps { case_insensitive: found.is_some() }),
        Err(e) => Err(Error::Io(e)),
    }
}

/// Creating something in the scratch directory.
proof fn lemma_probed_step(base: Disk, a: Disk, b: Disk, name: Name, path: PathView, dir: FileId, n: Name)
    requires
        probed(base, a, name),
        unknown(base, dir),
        a.dir_at(path) == Some(dir),
        b == a || exists|id: FileId, object: Object| #[trigger] created_at(a, b, path.push(n), id, object),
    ensures
        probed(base, b, name),
{
    if b != a {
        let (id, object) = choose|id: FileId, object: Object| #[trigger] created_at(a, b, path.push(n), id, object);
        assert(path.push(n).drop_last() =~= path);
        lemma_probed_create(base, a, b, name, path.push(n), id, object);
    }
}

/// Creating one name in a directory leaves another that is not like it as it was.
proof fn lemma_kept_beside(
    a: Disk,
    b: Disk,
    path: PathView,
    dir: FileId,
    name: Name,
    other: Name,
    id: FileId,
    object: Object,
)
    requires
        a.well_formed(),
        b.well_formed(),
        a.dir_at(path) == Some(dir),
        created_at(a, b, path.push(other), id, object),
        !alike(a, name, other),
        a.resolve(path.push(name)) is Some,
    ensures
        b.resolve(path.push(name)) == a.resolve(path.push(name)),
        b.dir_at(path) == Some(dir),
        b.objects[a.resolve(path.push(name))->0] == a.objects[a.resolve(path.push(name))->0],
{
    let p = path.push(other);
    let q = path.push(name);
    assert(p.drop_last() =~= path && q.drop_last() =~= path);
    if goes_through(a, q, p) {
        let j = choose|j: int| 0 < j <= q.len() && alike_paths(a, p, #[trigger] q.take(j));
        assert(q.take(j) =~= q);
        assert(alike(a, p[path.len() as int], q[path.len() as int]));
    }
    lemma_frame_create(a, b, p, id, object, q);
    lemma_child_off_path(a, path, other);
    lemma_frame_create(a, b, p, id, object, path);
    lemma_resolve_key(a, q);
    lemma_lookup(a, dir, name);
    assert(a.names.contains_key(a.key_at(q)->0));
}

/// `CaseProbe`.
spec fn big_name() -> Name {
    seq![67u8, 97u8, 115u8, 101u8, 80u8, 114u8, 111u8, 98u8, 101u8]
}

/// `caseprobe`.
spec fn small_name() -> Name {
    seq![99u8, 97u8, 115u8, 101u8, 112u8, 114u8, 111u8, 98u8, 101u8]
}

/// The name in lower case finds the name in mixed case exactly if case is ignored.
proof fn lemma_case_probe(a: Disk, b: Disk, path: PathView, dir: FileId, id: FileId, object: Object)
    requires
        a.well_formed(),
        b.well_formed(),
        scratch(a, path, dir),
        created_at(a, b, path.push(big_name()), id, object),
    ensures
        b.resolve(path.push(small_name())) is Some <==> b.folds,
{
    let p = path.push(big_name());
    let q = path.push(small_name());
    assert(p.drop_last() =~= path && q.drop_last() =~= path);
    lemma_child_off_path(a, path, big_name());
    lemma_frame_create(a, b, p, id, object, path);
    let k = Key { dir, name: big_name() };
    assert(b.names.contains_key(k));
    assert(folded(big_name()) =~= folded(small_name()));
    assert(big_name()[0] != small_name()[0]);
    lemma_lookup(b, dir, small_name());
    if b.folds {
        assert(alike(b, k.name, small_name()));
    } else if b.lookup(dir, small_name()) is Some {
        let l = b.lookup(dir, small_name())->0;
        assert(b.names.contains_key(l));
        assert(l.name == small_name());
        assert(a.names.contains_key(l));
    }
}

/// The cache `b` is `a`; under the key, if there is one, it knows these capabilities besides.
pub open spec fn learned(a: ProbeCache, b: ProbeCache, key: Option<FileId>, caps: Caps) -> bool {
    match key {
        Some(k) => b.known(k) == Some(caps) && forall|other: FileId|
            other != k ==> #[trigger] b.known(other) == a.known(other),
        None => b == a,
    }
}

/// What is known already under the key.
pub open spec fn cached(c: ProbeCache, key: Option<FileId>) -> Option<Caps> {
    match key {
        Some(k) => c.known(k),
        None => None,
    }
}

/// The private directory is where it was, and nothing stands in it that did not before.
pub open spec fn nothing_left(a: Disk, b: Disk) -> bool {
    &&& b.dir_at(private_root()) == a.dir_at(private_root())
    &&& forall|k: Key| #[trigger]
        b.names.contains_key(k) && a.dir_at(private_root()) == Some(k.dir) ==> a.names.contains_key(k)
}

/// Making a directory in the private directory, changing names in it, and deleting it leaves
/// nothing there.
proof fn lemma_nothing_left(d0: Disk, d1: Disk, d2: Disk, d3: Disk, name: Name, id: FileId, object: Object)
    requires
        d0.well_formed(),
        d1.well_formed(),
        d2.well_formed(),
        d3.well_formed(),
        created_at(d0, d1, private_root().push(name), id, object),
        same_volume(d1, d2),
        same_outside(d1, d2, id),
        d2.dir_at(private_root().push(name)) == Some(id),
        pruned_below(d2, d3, private_root().push(name)),
        d3.resolve(private_root().push(name)) is None,
    ensures
        nothing_left(d0, d3),
{
    let p = private_root().push(name);
    let area = private_root();
    assert(p.drop_last() =~= area);
    assert(area.drop_last() =~= Seq::<Name>::empty());
    let dir = d0.dir_at(area)->0;
    lemma_child_off_path(d0, area, name);
    lemma_frame_create(d0, d1, p, id, object, area);
    lemma_resolve_key(d0, area);
    lemma_lookup(d0, d0.root, private_name());
    assert(d0.names.contains_key(d0.key_at(area)->0));
    assert(dir != id);
    // The private directory has a name in the root, and that is the same.
    assert(d2.dir_at(area) == Some(dir)) by {
        lemma_resolve_key(d1, area);
        lemma_lookup(d1, d1.root, private_name());
        let k = d1.key_at(area)->0;
        assert(agree_at(d1.names, d2.names, k));
        lemma_lookup(d2, d2.root, private_name());
        assert(alike(d2, k.name, private_name()));
        assert(d2.names.contains_key(k));
        assert(d2.resolve(Seq::<Name>::empty()) == Some(d2.root));
        assert(d2.resolve(area) == Some(dir));
        assert(d2.is_dir(dir));
    }
    lemma_pruned_above(d2, d3, p, area);
    assert forall|k: Key| #[trigger] d3.names.contains_key(k) && k.dir == dir implies d0.names.contains_key(k) by {
        assert(d2.names.contains_key(k));
        assert(agree_at(d1.names, d2.names, k));
        assert(d1.names.contains_key(k));
        if !d0.names.contains_key(k) {
            assert(k == (Key { dir, name }));
            lemma_lookup(d3, dir, name);
            assert(alike(d3, k.name, name));
        }
    }
}

/// A probe of the filesystem is certain to pass, where calls are carried out: the filesystem is
/// trusted or need not be, and the answer is known or there is room and a free name for finding it.
pub open spec fn probe_passes<V: Vfs>(vfs: V, allow: bool, session: Session) -> bool {
    &&& vfs.distrusted() ==> allow
    &&& vfs.disk().steady
    &&& vfs.disk().dir_at(private_root()) is Some
    &&& cached(session.cache, vfs.cache_key()) is Some || vfs.room() >= 4 && free_at(
        vfs.disk(),
        private_root().push(probe_name(session.pid, session.nanos)),
    )
}

/// A probe of the filesystem is certain to find that it cannot be used: calls are carried out, but
/// a feature is missing.
pub open spec fn probe_fails<V: Vfs>(vfs: V, allow: bool, session: Session) -> bool {
    &&& vfs.runs()
    &&& !suits(vfs.features())
    &&& vfs.distrusted() ==> allow
    &&& vfs.disk().steady || vfs.features().renumbers
    &&& cached(session.cache, vfs.cache_key()) is None
    &&& vfs.room() >= 4
    &&& vfs.disk().dir_at(private_root()) is Some
    &&& free_at(vfs.disk(), private_root().push(probe_name(session.pid, session.nanos)))
}

/// The probe's scratch directory is named as scratch space.
pub proof fn lemma_probe_name(pid: u32, nanos: u128)
    ensures
        is_garbage(probe_name(pid, nanos)),
{
    let name = probe_name(pid, nanos);
    assert(name.take(probe_prefix_name().len() as int) =~= probe_prefix_name());
}

/// Probes the filesystem under the private directory (which must exist and be locked), unless
/// the answer is known.
pub fn probe<V: Vfs>(vfs: &mut V, allow_untested_fs: bool, session: &mut Session) -> (r: Result<Caps>)
    requires
        old(vfs).valid(),
    ensures
        final(vfs).valid(),
        same_volume(old(vfs).disk(), final(vfs).disk()),
        same_tree(old(vfs).disk(), final(vfs).disk()),
        probed(old(vfs).disk(), final(vfs).disk(), probe_name(old(session).pid, old(session).nanos)),
        old(vfs).distrusted() && !allow_untested_fs ==> *final(vfs) == *old(vfs),
        final(vfs).features() == old(vfs).features(),
        final(vfs).distrusted() == old(vfs).distrusted() && final(vfs).cache_key() == old(vfs).cache_key(),
        final(session).nanos == old(session).nanos,
        final(session).pid == old(session).pid,
        final(session).counter == old(session).counter,
        r is Ok && cached(old(session).cache, old(vfs).cache_key()) is None ==> suits(old(vfs).features()),
        probe_fails(*old(vfs), allow_untested_fs, *old(session)) ==> (r matches Err(
            Error::UnsupportedFilesystem { missing },
        ) && literals(missing@) == shortfall(old(vfs).features())),
        old(vfs).runs() ==> final(vfs).runs() && final(vfs).room() + 4 >= old(vfs).room(),
        r matches Ok(caps) ==> (old(vfs).distrusted() ==> allow_untested_fs) && match cached(
            old(session).cache,
            old(vfs).cache_key(),
        ) {
            Some(c) => caps == c && final(session).cache == old(session).cache && *final(vfs) == *old(vfs),
            None => caps.case_insensitive == old(vfs).disk().folds && learned(
                old(session).cache,
                final(session).cache,
                old(vfs).cache_key(),
                caps,
            ),
        },
        r is Err ==> final(session).cache == old(session).cache,
        r matches Err(e) ==> match e {
            Error::UnsupportedFilesystem { missing } => cannot_use(
                old(vfs).disk(),
                old(vfs).distrusted() && !allow_untested_fs,
                literals(missing@),
            ),
            _ => e is Io,
        },
        old(vfs).serves() && old(vfs).distrusted() && !allow_untested_fs ==> (
        r matches Err(Error::UnsupportedFilesystem { missing }) && literals(missing@) == seq![not_local()]),
        old(vfs).runs() && old(vfs).distrusted() && !allow_untested_fs ==> (
        r matches Err(Error::UnsupportedFilesystem { missing }) && literals(missing@) == seq![not_local()]),
        old(vfs).serves() && (old(vfs).distrusted() ==> allow_untested_fs) && cached(
            old(session).cache,
            old(vfs).cache_key(),
        ) is Some ==> r is Ok,
        old(vfs).serves() && (old(vfs).distrusted() ==> allow_untested_fs) && old(vfs).room() >= 4
            && old(vfs).disk().steady && free_at(
            old(vfs).disk(),
            private_root().push(probe_name(old(session).pid, old(session).nanos)),
        ) ==> r is Ok,
        old(vfs).serves() ==> final(vfs).serves() && final(vfs).room() + 4 >= old(vfs).room(),
        old(vfs).serves() && r is Ok ==> nothing_left(old(vfs).disk(), final(vfs).disk()) && spotless(
            old(vfs).disk(),
            final(vfs).disk(),
        ),
{
    let ghost d0 = vfs.disk();
    proof {
        vfs.lemma_valid();
        lemma_same_content(d0, d0);
        crate::state::lemma_private_name();
        lemma_probed_self(d0, probe_name(session.pid, session.nanos));
    }
    let untrusted = match vfs.untrusted_fs_type() {
        Ok(x) => x,
        Err(e) => return Err(Error::Io(e)),
    };
    if untrusted.is_some() && !allow_untested_fs {
        let mut missing: Vec<&'static str> = Vec::new();
        missing.push(
            "a local filesystem (network/FUSE filesystem detected; see Options::allow_untested_fs)",
        );
        assert(literals(missing@) =~= seq![not_local()]);
        return Err(Error::UnsupportedFilesystem { missing });
    }
    let key = vfs.probe_cache_key();
    if let Some(k) = key {
        if let Some(c) = session.cache.get(k) {
            return Ok(c);
        }
    }
    let mut name = probe_prefix_bytes();
    let mut pid = write_decimal(session.pid as u64);
    let mut nonce = write_numeral(session.nanos, 16);
    name.append(&mut pid);
    name.push(45);
    name.append(&mut nonce);
    assert(name@ =~= probe_name(session.pid, session.nanos));
    let dir = private_dir().join(name);
    assert(dir@ =~= private_root().push(dir@.last()));
    let made = vfs.mkdir(&dir);
    let ghost d1 = vfs.disk();
    proof {
        vfs.lemma_valid();
        assert(dir@[0] == private_root()[0]);
        if d1 != d0 {
            crate::compile::lemma_made_privately(d0, d1, dir@);
            let (x, object) = choose|x: FileId, object: Object| #[trigger] created_at(d0, d1, dir@, x, object);
            lemma_probed_begins(d0, d1, probe_name(session.pid, session.nanos), x, object);
        }
    }
    if let Err(e) = made {
        return Err(Error::Io(e));
    }
    let ghost id = d1.resolve(dir@)->0;
    let ghost name = probe_name(session.pid, session.nanos);
    let ghost (x, object) = choose|x: FileId, object: Object|
        #[trigger] created_at(d0, d1, dir@, x, object) && object is Dir;
    proof {
        lemma_fresh_dir(d0, d1, dir@, x, object);
        lemma_probed_begins(d0, d1, name, x, object);
        assert(dir@.drop_last() =~= private_root());
    }
    let result = run_probe(vfs, &dir, Ghost(id), Ghost(d0), Ghost(name));
    let ghost d2 = vfs.disk();
    proof {
        lemma_same_tree_transitive(d0, d1, d2);
        vfs.lemma_valid();
        lemma_way_to(d2, dir@);
    }
    let _ = delete_tree(vfs, &dir);
    proof {
        vfs.lemma_valid();
        lemma_probed_area(d0, d2, name);
        lemma_probed_pruned(d0, d2, vfs.disk(), name);
        if vfs.disk().resolve(dir@) is None {
            lemma_nothing_left(d0, d1, d2, vfs.disk(), dir@.last(), x, object);
            lemma_spotless(d0, vfs.disk(), name);
        }
        lemma_same_tree_transitive(d0, d2, vfs.disk());
    }
    let caps = match result {
        Ok(c) => c,
        Err(e) => return Err(e),
    };
    if let Some(k) = key {
        session.cache.insert(k, caps);
    }
    Ok(caps)
}

/// A directory just made is empty.
pub(crate) proof fn lemma_fresh_dir(a: Disk, b: Disk, path: PathView, id: FileId, object: Object)
    requires
        a.well_formed(),
        b.well_formed(),
        object is Dir,
        created_at(a, b, path, id, object),
    ensures
        b.dir_at(path) == Some(id),
        bare(b, id),
{
    let parent = path.drop_last();
    let dir = a.dir_at(parent)->0;
    assert(path =~= parent.push(path.last()));
    lemma_child_off_path(a, parent, path.last());
    lemma_frame_create(a, b, path, id, object, parent);
    let k = Key { dir, name: path.last() };
    lemma_lookup(b, dir, path.last());
    assert(b.names.contains_key(k));
    assert(alike(b, k.name, path.last()));
    assert(b.lookup(dir, path.last()) == Some(k));
    assert(dir != id) by {
        if dir != a.root {
            lemma_resolve_key(a, parent);
            if parent.len() > 0 {
                lemma_lookup(a, a.dir_at(parent.drop_last())->0, parent.last());
            }
        }
    }
}

} // verus!
