//! Transactions: staging changes and committing them.
use vstd::prelude::*;
use vstd::utf8::encode_utf8;

use crate::apply::{apply, prepare};
use crate::apply::{
    applying, can_prepare, journaled, lemma_created_is_found, readied, waves_applied, waves_ready,
};
use crate::bytes::{lower, Name};
use crate::caps::{bare, cached, cannot_use, learned, lemma_free_name, lemma_fresh_dir, lemma_probe_name, lemma_unlike, literals, not_local, nothing_left, probe_fails, probe_name, shortfall, suits};
use crate::caps::{probe, Caps, Session};
use crate::compile::{compile, IdTable};
use crate::compile::{can_compile, can_try, compile_failed, lemma_made_privately, plans_for};
use crate::disk::{Disk, FileId, Key, Kind, Object};
use crate::error::{Error, IoError, IoErrorKind, Result};
use crate::journal::{locations_allowed, proper_plan, JournalView};
use crate::journal::{Journal, FORMAT};
use crate::overlay::{blob_file, Overlay};
use crate::overlay::{
    blob_name, law_view_depends_on_the_tree, lemma_blob_names_unlike, lemma_found_is_rooted, lemma_rooted_by_tree,
    lemma_written_is_seen,
};
use crate::overlay::{answered, reports, Fault, Look, OverlayView, SlotView, SrcView};
use crate::path::{is_component, private_path, user_parts, user_path_fault, PathView};
use crate::path::{law_accepted_paths_are_confined, validate_user_path, RelPath};
use crate::plan::{Plan, PlanView};
use crate::positions::Pos;
use crate::probing::{
    lemma_probed_area, lemma_probed_quiet, lemma_probed_self, lemma_spotless_entries, lemma_spotless_resolves, lemma_spotless_tidy,
    probed, spotless,
};
use crate::recover::{
    can_recover, cleared, entries_to_recover, interrupted, law_nothing_interrupted_is_left_alone, no_transactions, quiet, recovered,
    rolled_back, tidy,
};
use crate::recover::{recover_locked, rollback, RecoveryReport};
use crate::state::{private_dir, tx_prefix_bytes, Marker, TxDir};
use crate::state::{backup_name, marked, private_root, staged_name, tx_path, tx_prefix_name};
use crate::text::{ascii_string, write_numeral};
use crate::text::{is_ascii, lemma_numeral_digits, numeral};
use crate::tree::{alike, alike_paths, goes_through, same_tree};
use crate::tree::{
    lemma_child_off_path, lemma_frame_create, lemma_lookup, lemma_resolve_key, lemma_same_content,
    lemma_same_tree_transitive, lemma_way_to,
};
use crate::vfs::{created_at, dir_synced_at, free_at, same_volume, Vfs};

verus! {

/// Options for starting a transaction and for recovery.
#[derive(Clone, Copy, Debug)]
pub struct Options {
    allow_untested_fs: bool,
}

impl Default for Options {
    fn default() -> (r: Self)
        ensures
            !r.allows(),
    {
        Options { allow_untested_fs: false }
    }
}

impl Options {
    /// Network and FUSE filesystems are allowed.
    pub closed spec fn allows(self) -> bool {
        self.allow_untested_fs
    }

    /// The default options.
    pub fn new() -> (r: Self)
        ensures
            !r.allows(),
    {
        Options { allow_untested_fs: false }
    }

    /// Whether network and FUSE filesystems are allowed.
    pub fn allow_untested(&self) -> (r: bool)
        ensures
            r == self.allows(),
    {
        self.allow_untested_fs
    }

    /// Allow network and FUSE filesystems. Their crash behaviour is outside the tested
    /// contract.
    pub fn allow_untested_fs(self, yes: bool) -> (r: Self)
        ensures
            r.allows() == yes,
    {
        Options { allow_untested_fs: yes }
    }
}

/// The name of a transaction: `tx-<nanos>-<pid>-<counter>`, in hex.
pub open spec fn tx_name_of(nanos: u128, pid: u32, counter: u64) -> Name {
    tx_prefix_name() + numeral(nanos as nat, 16) + seq![45u8] + numeral(pid as nat, 16) + seq![45u8] + numeral(
        counter as nat,
        16,
    )
}

/// A transaction's name is a proper name.
proof fn lemma_tx_name(nanos: u128, pid: u32, counter: u64)
    ensures
        is_ascii(tx_name_of(nanos, pid, counter)),
        is_component(tx_name_of(nanos, pid, counter)),
{
    lemma_numeral_digits(nanos as nat, 16);
    lemma_numeral_digits(pid as nat, 16);
    lemma_numeral_digits(counter as nat, 16);
    let name = tx_name_of(nanos, pid, counter);
    let a = tx_prefix_name() + numeral(nanos as nat, 16) + seq![45u8];
    let b = a + numeral(pid as nat, 16) + seq![45u8];
    assert forall|i: int| 0 <= i < name.len() implies 45 <= #[trigger] name[i] < 128 && name[i] != 47 by {
        if i < 3 {
            assert(name[i] == tx_prefix_name()[i]);
        } else if i < a.len() - 1 {
            assert(name[i] == numeral(nanos as nat, 16)[i - 3]);
        } else if i == a.len() - 1 {
            assert(name[i] == 45);
        } else if i < b.len() - 1 {
            assert(name[i] == numeral(pid as nat, 16)[i - a.len()]);
        } else if i == b.len() - 1 {
            assert(name[i] == 45);
        } else {
            assert(name[i] == numeral(counter as nat, 16)[i - b.len()]);
        }
    }
    assert(name[0] == tx_prefix_name()[0]);
    if name.contains(0u8) {
        let i = choose|i: int| 0 <= i < name.len() && name[i] == 0u8;
        assert(name[i] >= 45);
    }
    if name.contains(47u8) {
        let i = choose|i: int| 0 <= i < name.len() && name[i] == 47u8;
        assert(name[i] != 47);
    }
}

/// Names a new transaction.
fn tx_name(session: &mut Session) -> (r: String)
    ensures
        encode_utf8(r@) == tx_name_of(old(session).nanos, old(session).pid, old(session).counter),
        is_component(encode_utf8(r@)),
        final(session).counter == old(session).counter.wrapping_add(1),
        final(session).nanos == old(session).nanos,
        final(session).pid == old(session).pid,
        final(session).cache == old(session).cache,
{
    let mut name = tx_prefix_bytes();
    let mut nanos = write_numeral(session.nanos, 16);
    let mut pid = write_numeral(session.pid as u128, 16);
    let mut counter = write_numeral(session.counter as u128, 16);
    name.append(&mut nanos);
    name.push(45);
    name.append(&mut pid);
    name.push(45);
    name.append(&mut counter);
    proof {
        assert(name@ =~= tx_name_of(session.nanos, session.pid, session.counter));
        lemma_tx_name(session.nanos, session.pid, session.counter);
    }
    session.counter = session.counter.wrapping_add(1);
    ascii_string(name)
}

/// The private directory has been made, durably.
pub open spec fn private_made(a: Disk, b: Disk) -> bool {
    exists|m: Disk| #[trigger] made_dir(a, m, private_root()) && dir_synced_at(m, b, Seq::empty())
}

/// `b` is `a` with a new directory at `p`.
pub open spec fn made_dir(a: Disk, b: Disk, p: PathView) -> bool {
    exists|id: FileId, mode: u32| #[trigger] created_at(a, b, p, id, Object::Dir { mode })
}

/// Nothing stands in the way of starting the transaction `name`, with `scratch` as the name for
/// probing: the private directory is not there; or it holds no transaction, and the two names are
/// free; or what was interrupted can be recovered, and then the name is free.
pub open spec fn can_start(d: Disk, scratch: Name, name: Name, room: u64) -> bool {
    ||| d.resolve(private_root()) is None
    ||| quiet(d) && free_at(d, private_root().push(scratch)) && free_at(d, private_root().push(name))
    ||| d.dir_at(private_root()) is Some && free_at(d, private_root().push(scratch)) && starts_after_recovery(d, name, room)
}

/// Whatever is left of the disk once probing has cleaned up after itself, what was interrupted can
/// be recovered, and then the name is free.
pub open spec fn starts_after_recovery(d: Disk, name: Name, room: u64) -> bool {
    forall|m: Disk, names: Seq<String>| #[trigger]
        entries_to_recover(d, names) && #[trigger] spotless(d, m) && m.well_formed() ==> can_recover(m, names) && room >= 8
            + 2 * names.len() && forall|n: Disk, report: RecoveryReport|
            n.well_formed() && #[trigger] recovered(m, n, Ok::<RecoveryReport, Error>(report)) ==> free_at(
                n,
                private_root().push(name),
            )
}

/// A free name stays free as long as nothing is left in the private directory.
proof fn lemma_still_free(a: Disk, b: Disk, name: Name)
    requires
        a.well_formed(),
        b.well_formed(),
        same_volume(a, b),
        nothing_left(a, b),
        free_at(a, private_root().push(name)),
    ensures
        free_at(b, private_root().push(name)),
{
    assert(private_root().push(name).drop_last() =~= private_root());
    let dir = a.dir_at(private_root())->0;
    lemma_lookup(a, dir, name);
    assert forall|k: Key| #[trigger] b.names.contains_key(k) && k.dir == dir implies !alike(b, k.name, name) by {
        assert(a.names.contains_key(k));
    }
    lemma_free_name(b, private_root(), dir, name);
}

/// The private directory that was just made is empty.
proof fn lemma_private_made(a: Disk, b: Disk)
    requires
        a.well_formed(),
        b.well_formed(),
        private_made(a, b),
    ensures
        b.dir_at(private_root()) matches Some(dir) && bare(b, dir),
{
    let m = choose|m: Disk| #[trigger] made_dir(a, m, private_root()) && dir_synced_at(m, b, Seq::empty());
    assert(m.well_formed());
    let (id, mode) = choose|id: FileId, mode: u32| #[trigger]
        created_at(a, m, private_root(), id, Object::Dir { mode });
    lemma_fresh_dir(a, m, private_root(), id, Object::Dir { mode });
    lemma_same_content(m, b);
    assert(b.resolve(private_root()) == m.resolve(private_root()));
}

/// Makes the private directory unless it is there.
pub fn ensure_private_dir<V: Vfs>(vfs: &mut V) -> (r: Result<()>)
    requires
        old(vfs).valid(),
    ensures
        final(vfs).valid(),
        same_volume(old(vfs).disk(), final(vfs).disk()),
        same_tree(old(vfs).disk(), final(vfs).disk()),
        r is Ok ==> old(vfs).disk().dir_at(private_root()) is Some && final(vfs).disk() == old(vfs).disk() || old(
            vfs,
        ).disk().resolve(private_root()) is None && private_made(old(vfs).disk(), final(vfs).disk()),
        r is Err ==> final(vfs).disk() == old(vfs).disk() || old(vfs).disk().resolve(private_root()) is None && (left_made(
            old(vfs).disk(),
            final(vfs).disk(),
            private_root(),
        )),
        r matches Err(e) ==> match e {
            Error::UnsupportedFileType(q) => q@ == private_root() && *final(vfs) == *old(vfs)
                && old(vfs).disk().resolve(private_root()) is Some && old(vfs).disk().dir_at(private_root()) is None,
            _ => e is Io,
        },
        final(vfs).distrusted() == old(vfs).distrusted() && final(vfs).cache_key() == old(vfs).cache_key(),
        final(vfs).features() == old(vfs).features(),
        old(vfs).disk().resolve(private_root()) is Some ==> *final(vfs) == *old(vfs),
        old(vfs).runs() ==> final(vfs).runs() && final(vfs).room() + 1 >= old(vfs).room(),
        old(vfs).runs() && old(vfs).disk().dir_at(private_root()) is Some ==> r is Ok,
        old(vfs).runs() && old(vfs).features().dir_sync && old(vfs).room() > 0 && old(vfs).disk().resolve(
            private_root(),
        ) is None ==> r is Ok,
        old(vfs).serves() && old(vfs).disk().dir_at(private_root()) is Some ==> r is Ok,
        old(vfs).serves() && old(vfs).disk().resolve(private_root()) is Some && old(vfs).disk().dir_at(
            private_root(),
        ) is None ==> r matches Err(Error::UnsupportedFileType(_)),
        old(vfs).serves() && old(vfs).room() > 0 && old(vfs).disk().resolve(private_root()) is None ==> r is Ok && (
        final(vfs).disk().dir_at(private_root()) matches Some(dir) && bare(final(vfs).disk(), dir)),
        old(vfs).serves() ==> final(vfs).serves() && final(vfs).room() + 1 >= old(vfs).room(),
{
    let ghost a = vfs.disk();
    let dir = private_dir();
    proof {
        vfs.lemma_valid();
        lemma_same_content(a, a);
        assert(dir@.drop_last() =~= Seq::<Name>::empty());
        lemma_way_to(a, dir@);
        lemma_resolve_key(a, dir@);
    }
    let here = match vfs.stat(&dir) {
        Ok(x) => x,
        Err(e) => return Err(Error::Io(e)),
    };
    match here {
        Some(m) => {
            if m.kind == Kind::Dir {
                Ok(())
            } else {
                Err(Error::UnsupportedFileType(dir))
            }
        },
        None => {
            let made = make_private(vfs, &dir);
            let ghost b = vfs.disk();
            match made {
                Ok(_) => {},
                Err(e) => return Err(e),
            }
            proof {
                let (id, mode) = choose|id: FileId, mode: u32| #[trigger]
                    created_at(a, b, private_root(), id, Object::Dir { mode });
                vfs.lemma_valid();
                lemma_fresh_dir(a, b, private_root(), id, Object::Dir { mode });
            }
            let r = vfs.sync_dir(&RelPath::root());
            proof {
                lemma_same_content(b, vfs.disk());
                assert(vfs.disk().resolve(private_root()) == b.resolve(private_root()));
                lemma_same_tree_transitive(a, b, vfs.disk());
            }
            match r {
                Ok(_) => Ok(()),
                Err(e) => Err(Error::Io(e)),
            }
        },
    }
}

/// Makes a directory in the private area.
fn make_private<V: Vfs>(vfs: &mut V, p: &RelPath) -> (r: Result<()>)
    requires
        old(vfs).valid(),
        private_path(p@),
    ensures
        final(vfs).valid(),
        same_volume(old(vfs).disk(), final(vfs).disk()),
        same_tree(old(vfs).disk(), final(vfs).disk()),
        r is Ok ==> made_dir(old(vfs).disk(), final(vfs).disk(), p@),
        left_made(old(vfs).disk(), final(vfs).disk(), p@),
        r matches Err(e) ==> e is Io,
        final(vfs).distrusted() == old(vfs).distrusted() && final(vfs).cache_key() == old(vfs).cache_key(),
        final(vfs).features() == old(vfs).features(),
        old(vfs).runs() && old(vfs).room() > 0 && free_at(old(vfs).disk(), p@) ==> r is Ok,
        old(vfs).runs() ==> final(vfs).runs() && final(vfs).room() + 1 >= old(vfs).room(),
        old(vfs).serves() && old(vfs).room() > 0 && free_at(old(vfs).disk(), p@) ==> r is Ok,
        old(vfs).serves() ==> final(vfs).serves() && final(vfs).room() + 1 >= old(vfs).room(),
{
    let ghost a = vfs.disk();
    proof {
        vfs.lemma_valid();
        lemma_same_content(a, a);
    }
    let made = vfs.mkdir(p);
    proof {
        vfs.lemma_valid();
        if vfs.disk() != a {
            lemma_made_privately(a, vfs.disk(), p@);
        }
    }
    match made {
        Ok(_) => Ok(()),
        Err(e) => Err(Error::Io(e)),
    }
}

/// In a directory just made, the name for staging is free.
proof fn lemma_new_home(a: Disk, b: Disk, p: PathView)
    requires
        a.well_formed(),
        b.well_formed(),
        made_dir(a, b, p),
    ensures
        b.dir_at(p) matches Some(dir) && bare(b, dir),
        free_at(b, p.push(staged_name())),
{
    let (id, mode) = choose|id: FileId, mode: u32| #[trigger] created_at(a, b, p, id, Object::Dir { mode });
    lemma_fresh_dir(a, b, p, id, Object::Dir { mode });
    lemma_free_name(b, p, id, staged_name());
}

/// A directory for staging just made, with one for backup beside it, is there and empty.
proof fn lemma_staging_is_empty(a: Disk, b: Disk, c: Disk, p: PathView)
    requires
        a.well_formed(),
        b.well_formed(),
        c.well_formed(),
        made_dir(a, b, p.push(staged_name())),
        made_dir(b, c, p.push(backup_name())),
    ensures
        c.dir_at(p.push(staged_name())) is Some,
        forall|n: u64| c.resolve(p.push(staged_name()).push(#[trigger] blob_name(n))) is None,
{
    let q = p.push(staged_name());
    let r = p.push(backup_name());
    let (id, mode) = choose|id: FileId, mode: u32| #[trigger] created_at(a, b, q, id, Object::Dir { mode });
    lemma_fresh_dir(a, b, q, id, Object::Dir { mode });
    let (other, bits) = choose|id: FileId, mode: u32| #[trigger] created_at(b, c, r, id, Object::Dir { mode });
    assert(lower(staged_name()[0]) != lower(backup_name()[0]));
    lemma_unlike(b, backup_name(), staged_name());
    if goes_through(b, q, r) {
        let j = choose|j: int| 0 < j <= q.len() && alike_paths(b, r, #[trigger] q.take(j));
        assert(q.take(j) =~= q);
        assert(alike(b, r[p.len() as int], q[p.len() as int]));
    }
    lemma_frame_create(b, c, r, other, Object::Dir { mode: bits }, q);
    assert(r.drop_last() =~= p && q.drop_last() =~= p);
    // The directory above is not the one for staging.
    let up = b.dir_at(p)->0;
    assert(bare(c, id)) by {
        lemma_resolve_key(b, q);
        lemma_lookup(b, up, staged_name());
        assert(b.names.contains_key(b.key_at(q)->0));
        assert(up != id);
    }
    assert forall|n: u64| c.resolve(q.push(#[trigger] blob_name(n))) is None by {
        assert(q.push(blob_name(n)).drop_last() =~= q);
        lemma_lookup(c, id, blob_name(n));
    }
}

/// In a directory that holds nothing but the one for staging, the name for the backup is free.
proof fn lemma_second_home(a: Disk, b: Disk, p: PathView)
    requires
        a.well_formed(),
        b.well_formed(),
        a.dir_at(p) matches Some(dir) && bare(a, dir),
        made_dir(a, b, p.push(staged_name())),
    ensures
        free_at(b, p.push(backup_name())),
{
    let q = p.push(staged_name());
    let (id, mode) = choose|id: FileId, mode: u32| #[trigger] created_at(a, b, q, id, Object::Dir { mode });
    let dir = a.dir_at(p)->0;
    assert(q.drop_last() =~= p);
    lemma_child_off_path(a, p, staged_name());
    lemma_frame_create(a, b, q, id, Object::Dir { mode }, p);
    assert(lower(staged_name()[0]) != lower(backup_name()[0]));
    lemma_unlike(b, staged_name(), backup_name());
    assert forall|k: Key| #[trigger] b.names.contains_key(k) && k.dir == dir implies !alike(
        b,
        k.name,
        backup_name(),
    ) by {
        assert(k == (Key { dir, name: staged_name() }));
    }
    lemma_free_name(b, p, dir, backup_name());
}

/// All directories of the transaction whose own is at `p` were made.
pub open spec fn home_made(n: Disk, b: Disk, p: PathView) -> bool {
    exists|x: Disk, y: Disk|
        #![trigger made_dir(n, x, p), made_dir(x, y, p.push(staged_name()))]
        made_dir(n, x, p) && made_dir(x, y, p.push(staged_name())) && made_dir(y, b, p.push(backup_name()))
}

/// Makes the directories of a transaction.
fn make_home<V: Vfs>(vfs: &mut V, tx: &TxDir) -> (r: Result<()>)
    requires
        old(vfs).valid(),
    ensures
        final(vfs).valid(),
        same_volume(old(vfs).disk(), final(vfs).disk()),
        housed(old(vfs).disk(), final(vfs).disk(), tx.at()),
        r is Ok ==> home_made(old(vfs).disk(), final(vfs).disk(), tx.at()) && final(vfs).disk().dir_at(
            tx.at().push(staged_name()),
        ) is Some && forall|n: u64|
            final(vfs).disk().resolve(tx.at().push(staged_name()).push(#[trigger] blob_name(n))) is None,
        r matches Err(e) ==> e is Io,
        old(vfs).serves() && old(vfs).room() >= 3 && free_at(old(vfs).disk(), tx.at()) ==> r is Ok,
        old(vfs).serves() ==> final(vfs).serves() && final(vfs).room() + 3 >= old(vfs).room(),
{
    let ghost n = vfs.disk();
    proof {
        crate::state::lemma_private_name();
        vfs.lemma_valid();
        lemma_same_content(n, n);
    }
    let made = make_private(vfs, &tx.dir());
    let ghost x = vfs.disk();
    match made {
        Ok(_) => {},
        Err(e) => return Err(e),
    }
    proof {
        vfs.lemma_valid();
        lemma_new_home(n, x, tx.at());
    }
    let made = make_private(vfs, &tx.staged());
    let ghost y = vfs.disk();
    proof {
        lemma_same_tree_transitive(n, x, y);
        assert(housed(n, y, tx.at()));
    }
    match made {
        Ok(_) => {},
        Err(e) => return Err(e),
    }
    proof {
        vfs.lemma_valid();
        lemma_second_home(x, y, tx.at());
    }
    let made = make_private(vfs, &tx.backup());
    let ghost z = vfs.disk();
    proof {
        lemma_same_tree_transitive(n, y, z);
        assert(made_dir(n, x, tx.at()) && made_dir(x, y, tx.at().push(staged_name())));
        assert(housed(n, z, tx.at()));
    }
    match made {
        Ok(_) => {},
        Err(e) => return Err(e),
    }
    proof {
        vfs.lemma_valid();
        lemma_staging_is_empty(x, y, z, tx.at());
    }
    Ok(())
}

/// A set of changes to a directory tree that becomes visible all at once, or not at all.
///
/// Operations are staged; nothing inside the tree changes until [`commit`](Self::commit).
/// [`discard`](Self::discard) drops the transaction.
pub struct Transaction<'a, V: Vfs> {
    pub vfs: &'a mut V,
    pub stage: Stage,
    /// Held until the transaction is over.
    pub lock: V::Guard,
}

/// What a transaction has staged, and what it knows of its filesystem.
pub struct Stage {
    tx: TxDir,
    overlay: Overlay,
    blobs: IdTable,
    next_blob: u64,
    caps: Caps,
    recovered: RecoveryReport,
}

impl Stage {
    /// What has been staged.
    pub closed spec fn overlay(self) -> OverlayView {
        self.overlay@
    }

    /// The transaction's directory.
    pub closed spec fn dir(self) -> TxDir {
        self.tx
    }

    /// The identities of the staged files.
    pub closed spec fn ids(self) -> Map<u64, FileId> {
        self.blobs@
    }

    /// The number of the next staged file.
    pub closed spec fn next(self) -> u64 {
        self.next_blob
    }

    /// What was recovered at the start.
    pub closed spec fn report(self) -> RecoveryReport {
        self.recovered
    }

    /// What the probe learned.
    pub closed spec fn caps(self) -> Caps {
        self.caps
    }

    /// The paths at which decisions stand, in order.
    pub closed spec fn decisions(self) -> Seq<PathView> {
        self.overlay.placed_keys()
    }

    /// The overlay is in order, and the transaction has a proper name.
    pub closed spec fn well_formed(self) -> bool {
        self.overlay.well_formed() && is_component(self.tx.id())
    }
}

/// The private directory was made unless it was there, and the filesystem was probed in the
/// directory `scratch` in it; everything else is as it was.
pub open spec fn approached(a: Disk, m: Disk, scratch: Name) -> bool {
    &&& same_tree(a, m)
    &&& if a.resolve(private_root()) is Some {
        probed(a, m, scratch)
    } else {
        exists|c: Disk| #[trigger] private_made(a, c) && probed(c, m, scratch)
    }
}

/// Starting a transaction took the disk from `a` to `b`: what was interrupted was recovered, and
/// nothing else was touched but that directories for the transaction `name` may have been made.
pub open spec fn started(a: Disk, b: Disk, scratch: Name, name: Name, report: RecoveryReport) -> bool {
    exists|m: Disk, n: Disk| #[trigger]
        recovered(m, n, Ok::<RecoveryReport, Error>(report)) && approached(a, m, scratch) && housed(n, b, tx_path(name))
}

/// Some of the directories of the transaction whose own is at `p` were made.
pub open spec fn housed(n: Disk, b: Disk, p: PathView) -> bool {
    &&& same_tree(n, b)
    &&& {
        ||| left_made(n, b, p)
        ||| exists|x: Disk| #[trigger] made_dir(n, x, p) && left_made(x, b, p.push(staged_name()))
        ||| exists|x: Disk, y: Disk|
            #![trigger made_dir(n, x, p), made_dir(x, y, p.push(staged_name()))]
            made_dir(n, x, p) && made_dir(x, y, p.push(staged_name())) && left_made(y, b, p.push(backup_name()))
    }
}

/// Something may have been made at `p`.
pub open spec fn left_made(a: Disk, b: Disk, p: PathView) -> bool {
    b == a || exists|id: FileId, object: Object| #[trigger] created_at(a, b, p, id, object)
}

/// Starting the transaction `tx` took the disk from `a` to `b`: after recovery its directory was
/// made, with one for staging and one for backup in it.
pub open spec fn opened(a: Disk, b: Disk, scratch: Name, tx: TxDir, report: RecoveryReport) -> bool {
    exists|m: Disk, n: Disk| #[trigger]
        recovered(m, n, Ok::<RecoveryReport, Error>(report)) && approached(a, m, scratch) && home_made(n, b, tx.at())
}

/// Starting a transaction failed and took the disk from `a` to `b`. The tree is as it was, and but
/// for scratch space so is the private directory: something else than a directory is in its place,
/// or the filesystem cannot be used, where `refused` tells that it is not trusted, or it failed. Or
/// recovery failed; or something was recovered, and then the filesystem failed.
pub open spec fn start_failed(a: Disk, b: Disk, scratch: Name, name: Name, refused: bool, e: Error) -> bool {
    ||| (approached(a, b, scratch) || a.resolve(private_root()) is None && same_tree(a, b) && left_made(a, b, private_root()))
        && match e {
        Error::UnsupportedFileType(q) => q@ == private_root() && b == a && a.resolve(private_root()) is Some && a.dir_at(
            private_root(),
        ) is None,
        Error::UnsupportedFilesystem { missing } => cannot_use(a, refused, literals(missing@)),
        _ => e is Io,
    }
    ||| !refused && exists|m: Disk| #[trigger]
        recovered(m, b, Err::<RecoveryReport, Error>(e)) && approached(a, m, scratch)
    ||| !refused && e is Io && exists|report: RecoveryReport| #[trigger] started(a, b, scratch, name, report)
}

/// The transaction `tx` was made ready for the plan `p`, from `d` to `m`, and the journal holds the
/// plan.
pub open spec fn plan_journaled(d: Disk, m: Disk, tx: TxDir, p: PlanView) -> bool {
    let j = JournalView { format: FORMAT, tx: tx.name@, root: d.shows(d.root), plan: p };
    readied(d, m, tx, j) && journaled(m, tx, j) && same_tree(d, m) && m.well_formed()
}

/// The transaction `tx` was made ready for the plan `p`, from `d` to `m`, and applied it, from `m`
/// to `n`.
pub open spec fn brought_about(d: Disk, m: Disk, n: Disk, tx: TxDir, p: PlanView) -> bool {
    plan_journaled(d, m, tx, p) && waves_applied(m, n, tx, p, p.waves.len() as int)
}

/// The directory of the transaction `tx` was put away, as far as that went.
pub open spec fn put_out(a: Disk, b: Disk, tx: TxDir) -> bool {
    same_tree(a, b) && (b == a || tx.put_away(a, b) || tx.cleared_away(a, b))
}

/// The transaction `tx` carried out the plan `p`, from `d` to `b`: it was applied, then the marker
/// that says so was set durably, and then its directory was put away.
pub open spec fn carried_out(d: Disk, b: Disk, tx: TxDir, p: PlanView) -> bool {
    exists|m: Disk, n: Disk, c: Disk|
        #![trigger brought_about(d, m, n, tx, p), marked(n, c, tx, Marker::Committed)]
        brought_about(d, m, n, tx, p) && marked(n, c, tx, Marker::Committed) && c.well_formed() && same_tree(n, c) && put_out(
            c,
            b,
            tx,
        )
}

/// The transaction `tx` applied the plan `p`, but the marker that says so may be missing, or not
/// be durable.
pub open spec fn carried_unmarked(d: Disk, b: Disk, tx: TxDir, p: PlanView) -> bool {
    exists|m: Disk, n: Disk| #[trigger]
        brought_about(d, m, n, tx, p) && same_tree(n, b) && (b == n || exists|id: FileId, object: Object| #[trigger]
            created_at(n, b, tx.at().push(Marker::Committed.file()), id, object))
}

/// The transaction `tx` began to apply the plan `p` and left the disk at `n`, from `d`.
pub open spec fn broke_off(d: Disk, n: Disk, tx: TxDir, p: PlanView) -> bool {
    exists|m: Disk| #[trigger] applying(m, n, tx, p) && plan_journaled(d, m, tx, p)
}

/// The transaction `tx` broke off while applying the plan `p`, and was rolled back.
pub open spec fn taken_back(d: Disk, b: Disk, tx: TxDir, p: PlanView) -> bool {
    exists|n: Disk, pos: Seq<Pos>| #[trigger]
        rolled_back(n, b, tx, p, pos) && broke_off(d, n, tx, p) && cleared(n, tx, p, pos)
}

/// The transaction `tx` broke off while applying the plan `p`, and rolling back failed.
pub open spec fn left_undecided(d: Disk, b: Disk, tx: TxDir, p: PlanView) -> bool {
    broke_off(d, b, tx, p) || exists|n: Disk, pos: Seq<Pos>| #[trigger]
        interrupted(n, b, tx, p, pos) && broke_off(d, n, tx, p) && cleared(n, tx, p, pos)
}

/// The overlay calls for the plan `p` on the disk `a`; staging its new directories led to `d`.
pub open spec fn calls_for(ov: OverlayView, a: Disk, d: Disk, tx: TxDir, blobs: Map<u64, FileId>, p: PlanView) -> bool {
    p.valid() && same_tree(a, d) && plans_for(ov, a, d, tx.id(), blobs, p)
}

impl<'a, V: Vfs> Transaction<'a, V> {
    /// The state of the filesystem.
    pub open spec fn disk(self) -> Disk {
        self.vfs.disk()
    }

    /// The filesystem serves.
    pub open spec fn serves(self) -> bool {
        self.vfs.serves()
    }

    /// How many more objects there is room for on the filesystem.
    pub open spec fn room(self) -> u64 {
        self.vfs.room()
    }

    /// What has been staged.
    pub open spec fn staging(self) -> OverlayView {
        self.stage.overlay()
    }

    /// The transaction's directory.
    pub open spec fn dir(self) -> TxDir {
        self.stage.dir()
    }

    /// Where new files are staged.
    pub open spec fn staged(self) -> PathView {
        self.dir().at().push(staged_name())
    }

    /// The transaction is in order.
    pub open spec fn well_formed(self) -> bool {
        self.vfs.valid() && self.stage.well_formed()
    }

    /// The content of the file at `p` as the transaction sees it, or why there is none.
    pub open spec fn sees(self, p: PathView) -> core::result::Result<PathView, Fault> {
        self.staging().content_at(self.disk(), p, self.staged())
    }

    /// Only the disk can stop the transaction: its filesystem serves, everything that was placed is
    /// where it was found or staged, and the names for new files are free.
    pub open spec fn ready(self) -> bool {
        &&& self.serves()
        &&& self.staging().rooted(self.disk())
        &&& self.staging().backed(self.disk(), self.staged())
        &&& self.disk().dir_at(self.staged()) is Some
        &&& forall|n: u64|
            n >= self.stage.next() ==> self.disk().resolve(self.staged().push(#[trigger] blob_name(n))) is None
    }

    /// No file has been staged.
    pub open spec fn same_files(self, next: Self) -> bool {
        next.stage.ids() == self.stage.ids() && next.stage.next() == self.stage.next()
    }

    /// Nothing but what is staged has changed.
    pub open spec fn goes_on(self, next: Self) -> bool {
        &&& next.well_formed()
        &&& next.dir() == self.dir()
        &&& next.stage.report() == self.stage.report()
        &&& next.stage.caps() == self.stage.caps()
    }

    /// Starts a transaction: takes the root's lock, probes the filesystem, and recovers any
    /// interrupted transaction first.
    #[verifier::rlimit(60)]
    pub fn begin_on(vfs: &'a mut V, opts: &Options, session: &mut Session) -> (r: Result<Transaction<'a, V>>)
        requires
            old(vfs).valid(),
        ensures
            match r {
                Ok(t) => {
                    &&& *final(t.vfs) == *final(vfs)
                    &&& t.well_formed()
                    &&& same_volume(old(vfs).disk(), t.disk())
                    &&& opened(
                        old(vfs).disk(),
                        t.disk(),
                        probe_name(old(session).pid, old(session).nanos),
                        t.dir(),
                        t.stage.report(),
                    )
                    &&& old(vfs).disk().resolve(private_root()) is None || quiet(old(vfs).disk()) ==> same_tree(
                        old(vfs).disk(),
                        t.disk(),
                    ) && no_transactions(t.stage.report())
                    &&& old(vfs).serves() && (old(vfs).disk().resolve(private_root()) is None || tidy(old(vfs).disk()))
                        ==> t.stage.report().garbage_removed == 0
                    &&& cached(old(session).cache, old(vfs).cache_key()) is None ==> suits(old(vfs).features())
                    &&& t.staging().placed == Map::<PathView, crate::overlay::SlotView>::empty()
                    &&& t.staging().detached == Map::<PathView, crate::overlay::Gone>::empty()
                    &&& t.staging().root_id == t.disk().shows(t.disk().root)
                    &&& t.staging().case_insensitive == t.stage.caps().case_insensitive
                    &&& t.stage.ids() == Map::<u64, FileId>::empty()
                    &&& t.dir().id() == tx_name_of(old(session).nanos, old(session).pid, old(session).counter)
                    &&& final(session).counter == old(session).counter.wrapping_add(1)
                    &&& old(vfs).distrusted() ==> opts.allows()
                    &&& match cached(old(session).cache, old(vfs).cache_key()) {
                        Some(c) => t.stage.caps() == c && final(session).cache == old(session).cache,
                        None => t.stage.caps().case_insensitive == old(vfs).disk().folds && learned(
                            old(session).cache,
                            final(session).cache,
                            old(vfs).cache_key(),
                            t.stage.caps(),
                        ),
                    }
                },
                Err(e) => {
                    &&& final(vfs).valid()
                    &&& same_volume(old(vfs).disk(), final(vfs).disk())
                    &&& start_failed(
                        old(vfs).disk(),
                        final(vfs).disk(),
                        probe_name(old(session).pid, old(session).nanos),
                        tx_name_of(old(session).nanos, old(session).pid, old(session).counter),
                        old(vfs).distrusted() && !opts.allows(),
                        e,
                    )
                    &&& final(session).counter == old(session).counter || final(session).counter
                        == old(session).counter.wrapping_add(1)
                    &&& final(session).cache == old(session).cache || exists|caps: Caps| #[trigger]
                        learned(old(session).cache, final(session).cache, old(vfs).cache_key(), caps)
                },
            },
            final(session).nanos == old(session).nanos,
            final(session).pid == old(session).pid,
            r matches Ok(t) ==> t.stage.next() == 0 && t.staging().next_dir == 0,
            old(vfs).serves() ==> (r matches Ok(t) ==> t.ready()),
            old(vfs).serves() && old(vfs).disk().resolve(private_root()) is Some && old(vfs).disk().dir_at(
                private_root(),
            ) is None ==> r matches Err(Error::UnsupportedFileType(_)),
            old(vfs).serves() && old(vfs).room() >= 1 && old(vfs).distrusted() && !opts.allows() && (old(
                vfs,
            ).disk().resolve(private_root()) is Some ==> old(vfs).disk().dir_at(private_root()) is Some) ==> (
            r matches Err(Error::UnsupportedFilesystem { missing }) && literals(missing@) == seq![not_local()]),
            old(vfs).disk().resolve(private_root()) is Some && (old(vfs).disk().dir_at(private_root()) is None || old(
                vfs,
            ).distrusted() && !opts.allows()) ==> r is Err && *final(vfs) == *old(vfs),
            probe_fails(*old(vfs), opts.allows(), *old(session)) ==> (r matches Err(
                Error::UnsupportedFilesystem { missing },
            ) && literals(missing@) == shortfall(old(vfs).features())),
            old(vfs).runs() && old(vfs).disk().resolve(private_root()) is None && (old(vfs).distrusted()
                ==> opts.allows()) && cached(old(session).cache, old(vfs).cache_key()) is None && !suits(old(vfs).features())
                && old(vfs).features().dir_sync && (old(vfs).disk().steady || old(vfs).features().renumbers) && old(
                vfs,
            ).room() >= 5 ==> (r matches Err(Error::UnsupportedFilesystem { missing }) && literals(missing@) == shortfall(
                old(vfs).features(),
            )),
            old(vfs).serves() && (old(vfs).distrusted() ==> opts.allows()) && old(vfs).room() >= 8 && old(
                vfs,
            ).disk().steady && can_start(
                old(vfs).disk(),
                probe_name(old(session).pid, old(session).nanos),
                tx_name_of(old(session).nanos, old(session).pid, old(session).counter),
                old(vfs).room(),
            ) ==> r is Ok,
            old(vfs).serves() && (old(vfs).disk().resolve(private_root()) is None || quiet(old(vfs).disk())) ==> (
            r matches Ok(t) ==> t.room() + 8 >= old(vfs).room()),
    {
        let ghost a = vfs.disk();
        let ghost scratch = probe_name(session.pid, session.nanos);
        let ghost name = tx_name_of(session.nanos, session.pid, session.counter);
        let ghost sure = vfs.serves() && (vfs.distrusted() ==> opts.allows()) && vfs.room() >= 8 && a.steady && can_start(
            a,
            scratch,
            name,
            vfs.room(),
        );
        let ghost still = a.resolve(private_root()) is None || quiet(a);
        let ghost empty = a.resolve(private_root()) is None || tidy(a);
        proof {
            vfs.lemma_valid();
            lemma_same_content(a, a);
            lemma_probed_self(a, scratch);
        }
        match ensure_private_dir(vfs) {
            Ok(_) => {},
            Err(e) => return Err(e),
        }
        let ghost b = vfs.disk();
        let ghost plainly = quiet(b) && free_at(b, private_root().push(name));
        proof {
            vfs.lemma_valid();
            lemma_probed_self(b, scratch);
            if a.resolve(private_root()) is None {
                lemma_private_made(a, b);
                lemma_free_name(b, private_root(), b.dir_at(private_root())->0, scratch);
                lemma_free_name(b, private_root(), b.dir_at(private_root())->0, name);
            }
            assert(approached(a, b, scratch));
            assert(still ==> quiet(b));
            assert(empty ==> tidy(b));
            assert(sure ==> free_at(b, private_root().push(scratch)));
        }
        let lock = match vfs.lock(true) {
            Ok(x) => x,
            Err(e) => return Err(Error::Io(e)),
        };
        let probe_result = probe(vfs, opts.allow_untested(), session);
        let ghost m = vfs.disk();
        proof {
            lemma_same_tree_transitive(a, b, m);
            assert(approached(a, m, scratch));
        }
        let caps = match probe_result {
            Ok(x) => x,
            Err(e) => return Err(e),
        };
        proof {
            vfs.lemma_valid();
            lemma_probed_area(b, m, scratch);
            if quiet(b) {
                lemma_probe_name(session.pid, session.nanos);
                lemma_probed_quiet(b, m, scratch);
                if sure && plainly {
                    lemma_still_free(b, m, name);
                }
            }
            if spotless(b, m) {
                lemma_spotless_resolves(b, m, private_root());
                if tidy(b) {
                    lemma_spotless_tidy(b, m);
                }
            }
            if sure && !plainly {
                assert(starts_after_recovery(b, name, old(vfs).room()));
                assert forall|names: Seq<String>| #[trigger] entries_to_recover(m, names) implies can_recover(m, names)
                    && vfs.room() >= 2 * names.len() by {
                    lemma_spotless_entries(b, m, names);
                }
            }
        }
        let report = match recover_locked(vfs) {
            Ok(x) => x,
            Err(e) => {
                assert(recovered(m, vfs.disk(), Err::<RecoveryReport, Error>(e)));
                return Err(e);
            },
        };
        let ghost n = vfs.disk();
        proof {
            vfs.lemma_valid();
            assert(recovered(m, n, Ok::<RecoveryReport, Error>(report)));
            if still {
                law_nothing_interrupted_is_left_alone(m, n, report);
            }
            if sure {
                if plainly {
                    lemma_still_free(m, n, name);
                } else {
                    let names = choose|names: Seq<String>| #[trigger]
                        entries_to_recover(m, names) && vfs.room() + 2 * names.len() + 4 >= old(vfs).room();
                    lemma_spotless_entries(b, m, names);
                }
            }
            lemma_same_content(n, n);
        }
        let tx = TxDir { name: tx_name(session) };
        assert(tx.at() == tx_path(name));
        let made = make_home(vfs, &tx);
        let ghost z = vfs.disk();
        assert(started(a, z, scratch, name, report));
        match made {
            Ok(_) => {},
            Err(e) => return Err(e),
        }
        assert(opened(a, z, scratch, tx, report));
        proof {
            if still {
                lemma_same_tree_transitive(a, m, n);
                lemma_same_tree_transitive(a, n, z);
            }
        }
        let root = match vfs.root_id() {
            Ok(x) => x,
            Err(e) => return Err(Error::Io(e)),
        };
        let overlay = Overlay::new(root, caps.case_insensitive);
        let stage = Stage { tx, overlay, blobs: IdTable::new(), next_blob: 0, caps, recovered: report };
        Ok(Transaction { vfs, stage, lock })
    }

    /// What starting recovered from earlier, interrupted transactions.
    pub fn recovered(&self) -> (r: &RecoveryReport)
        ensures
            *r == self.stage.report(),
    {
        &self.stage.recovered
    }

    /// Whether the probe found a case-insensitive filesystem.
    pub fn case_insensitive(&self) -> (r: bool)
        ensures
            r == self.stage.caps().case_insensitive,
    {
        self.stage.caps.case_insensitive
    }

    /// Replaces or creates the file at `path` (atomic-save semantics: a new inode).
    ///
    /// A replaced file keeps its permission bits; a new file gets the default.
    pub fn write(&mut self, path: &[u8], data: &[u8]) -> (r: Result<()>)
        requires
            old(self).well_formed(),
        ensures
            *final(final(self).vfs) == *final(old(self).vfs),
            old(self).goes_on(*final(self)),
            wrote(*old(self), *final(self), path@, data@, None, r),
            final(self).stage.next() <= old(self).stage.next() + 1,
            final(self).staging().next_dir == old(self).staging().next_dir,
            old(self).ready() && old(self).room() > 0 && old(self).stage.next() < u64::MAX ==> answered(r),
            old(self).ready() ==> final(self).ready() && final(self).room() + 1 >= old(self).room(),
    {
        self.write_impl(path, data, None)
    }

    /// Like [`write`](Self::write), but sets the file's permission bits exactly (e.g. `0o755`
    /// for a script). Only the lower 12 bits (`0o7777`) are used.
    pub fn write_with_mode(&mut self, path: &[u8], data: &[u8], mode: u32) -> (r: Result<()>)
        requires
            old(self).well_formed(),
        ensures
            *final(final(self).vfs) == *final(old(self).vfs),
            old(self).goes_on(*final(self)),
            wrote(*old(self), *final(self), path@, data@, Some(mode & 0o7777), r),
            final(self).stage.next() <= old(self).stage.next() + 1,
            final(self).staging().next_dir == old(self).staging().next_dir,
            old(self).ready() && old(self).room() > 0 && old(self).stage.next() < u64::MAX ==> answered(r),
            old(self).ready() ==> final(self).ready() && final(self).room() + 1 >= old(self).room(),
    {
        self.write_impl(path, data, Some(mode & 0o7777))
    }

    /// Stages a file and notes where it goes.
    fn write_impl(&mut self, path: &[u8], data: &[u8], mode: Option<u32>) -> (r: Result<()>)
        requires
            old(self).well_formed(),
        ensures
            *final(final(self).vfs) == *final(old(self).vfs),
            old(self).goes_on(*final(self)),
            wrote(*old(self), *final(self), path@, data@, mode, r),
            final(self).stage.next() <= old(self).stage.next() + 1,
            final(self).staging().next_dir == old(self).staging().next_dir,
            old(self).ready() && old(self).room() > 0 && old(self).stage.next() < u64::MAX ==> answered(r),
            old(self).ready() ==> final(self).ready() && final(self).room() + 1 >= old(self).room(),
    {
        let ghost start = *self;
        let ghost a = self.vfs.disk();
        proof {
            lemma_same_content(a, a);
        }
        let p = match validate_user_path(path) {
            Ok(x) => x,
            Err(e) => return Err(e),
        };
        proof {
            law_accepted_paths_are_confined(path@);
            self.vfs.lemma_valid();
            self.stage.overlay.lemma_sound();
        }
        let inherited = match self.stage.overlay.check_write(self.vfs, &p) {
            Ok(x) => x,
            Err(e) => return Err(e),
        };
        let mode = match mode {
            Some(m) => Some(m),
            None => inherited,
        };
        let n = self.stage.next_blob;
        if n == u64::MAX {
            return Err(Error::Io(IoError::new(IoErrorKind::Other, "too many staged files")));
        }
        self.stage.next_blob = n + 1;
        let staged = self.stage.tx.staged();
        let file = staged.join(blob_file(n));
        assert(file@[0] == staged@[0]);
        proof {
            assert(file@.drop_last() =~= staged@);
            lemma_resolve_key(a, file@);
            assert(start.ready() ==> a.resolve(start.staged().push(blob_name(n))) is None);
        }
        let made = self.vfs.create_file(&file, data, mode);
        let ghost b = self.vfs.disk();
        proof {
            self.vfs.lemma_valid();
            if b != a {
                lemma_made_privately(a, b, file@);
            }
        }
        let meta = match made {
            Ok(m) => m,
            Err(e) => {
                proof {
                    if start.ready() && b != a {
                        let (id, object) = choose|id: FileId, object: Object| #[trigger] created_at(a, b, file@, id, object);
                        lemma_blob_staged(start.staging(), a, b, staged@, n, id, object);
                        lemma_rooted_by_tree(start.staging(), a, b);
                    }
                }
                return Err(Error::Io(e));
            },
        };
        proof {
            let object = Object::File { data: data@, mode: meta.mode };
            let id = choose|id: FileId| #[trigger] created_at(a, b, file@, id, object) && meta.id == b.shows(id);
            lemma_created_is_found(a, b, file@, id, object);
            if start.ready() {
                lemma_blob_staged(start.staging(), a, b, staged@, n, id, object);
                lemma_rooted_by_tree(start.staging(), a, b);
            }
        }
        self.stage.blobs.insert(n, meta.id);
        let r = self.stage.overlay.apply_write(self.vfs, &p, n, mode);
        proof {
            let ov = start.staging();
            law_view_depends_on_the_tree(ov, a, b, p@);
            if r is Ok {
                law_view_depends_on_the_tree(ov, a, b, crate::path::parent_of(p@));
                lemma_written_is_seen(ov, b, p@, n, mode);
            }
        }
        r
    }

    /// Creates `path` and any missing parents as directories.
    pub fn create_dir_all(&mut self, path: &[u8]) -> (r: Result<()>)
        requires
            old(self).well_formed(),
        ensures
            *final(final(self).vfs) == *final(old(self).vfs),
            old(self).goes_on(*final(self)),
            old(self).same_files(*final(self)),
            final(self).disk() == old(self).disk(),
            match user_path_fault(path@) {
                Some(why) => refuses_path(r, path@, why) && final(self).staging() == old(self).staging(),
                None => made_dirs(old(self).staging(), final(self).staging(), old(self).disk(), user_parts(path@), r),
            },
            final(self).staging().next_dir <= old(self).staging().next_dir + user_parts(path@).len(),
            old(self).ready() && old(self).staging().next_dir + user_parts(path@).len() <= u64::MAX ==> answered(r),
            old(self).ready() ==> final(self).ready() && final(self).room() == old(self).room(),
    {
        let p = match validate_user_path(path) {
            Ok(x) => x,
            Err(e) => return Err(e),
        };
        proof {
            law_accepted_paths_are_confined(path@);
        }
        self.stage.overlay.create_dir_all(self.vfs, &p)
    }

    /// Moves a file or directory. Fails if `to` exists. Moving a directory is one rename.
    pub fn rename(&mut self, from: &[u8], to: &[u8]) -> (r: Result<()>)
        requires
            old(self).well_formed(),
        ensures
            *final(final(self).vfs) == *final(old(self).vfs),
            old(self).goes_on(*final(self)),
            old(self).same_files(*final(self)),
            final(self).disk() == old(self).disk(),
            match (user_path_fault(from@), user_path_fault(to@)) {
                (Some(why), _) => refuses_path(r, from@, why) && final(self).staging() == old(self).staging(),
                (None, Some(why)) => refuses_path(r, to@, why) && final(self).staging() == old(self).staging(),
                (None, None) => changed(
                    old(self).staging(),
                    final(self).staging(),
                    old(self).staging().rename(old(self).disk(), user_parts(from@), user_parts(to@)),
                    r,
                ),
            },
            final(self).staging().next_dir == old(self).staging().next_dir,
            old(self).ready() ==> answered(r) && final(self).ready() && final(self).room() == old(self).room(),
    {
        let source = match validate_user_path(from) {
            Ok(x) => x,
            Err(e) => return Err(e),
        };
        let target = match validate_user_path(to) {
            Ok(x) => x,
            Err(e) => return Err(e),
        };
        proof {
            law_accepted_paths_are_confined(from@);
            law_accepted_paths_are_confined(to@);
        }
        self.stage.overlay.rename(self.vfs, &source, &target)
    }

    /// Removes a file or an empty directory.
    pub fn remove(&mut self, path: &[u8]) -> (r: Result<()>)
        requires
            old(self).well_formed(),
        ensures
            *final(final(self).vfs) == *final(old(self).vfs),
            old(self).goes_on(*final(self)),
            old(self).same_files(*final(self)),
            final(self).disk() == old(self).disk(),
            match user_path_fault(path@) {
                Some(why) => refuses_path(r, path@, why) && final(self).staging() == old(self).staging(),
                None => changed(
                    old(self).staging(),
                    final(self).staging(),
                    old(self).staging().remove(old(self).disk(), user_parts(path@)),
                    r,
                ),
            },
            final(self).staging().next_dir == old(self).staging().next_dir,
            old(self).ready() ==> answered(r) && final(self).ready() && final(self).room() == old(self).room(),
    {
        let p = match validate_user_path(path) {
            Ok(x) => x,
            Err(e) => return Err(e),
        };
        proof {
            law_accepted_paths_are_confined(path@);
        }
        self.stage.overlay.remove(self.vfs, &p)
    }

    /// Removes a directory and everything in it.
    pub fn remove_dir_all(&mut self, path: &[u8]) -> (r: Result<()>)
        requires
            old(self).well_formed(),
        ensures
            *final(final(self).vfs) == *final(old(self).vfs),
            old(self).goes_on(*final(self)),
            old(self).same_files(*final(self)),
            final(self).disk() == old(self).disk(),
            match user_path_fault(path@) {
                Some(why) => refuses_path(r, path@, why) && final(self).staging() == old(self).staging(),
                None => changed(
                    old(self).staging(),
                    final(self).staging(),
                    old(self).staging().remove_dir_all(old(self).disk(), user_parts(path@)),
                    r,
                ),
            },
            final(self).staging().next_dir == old(self).staging().next_dir,
            old(self).ready() ==> answered(r) && final(self).ready() && final(self).room() == old(self).room(),
    {
        let p = match validate_user_path(path) {
            Ok(x) => x,
            Err(e) => return Err(e),
        };
        proof {
            law_accepted_paths_are_confined(path@);
        }
        self.stage.overlay.remove_dir_all(self.vfs, &p)
    }

    /// Reads a file as the transaction currently sees it (read-your-writes).
    pub fn read(&self, path: &[u8]) -> (r: Result<Vec<u8>>)
        requires
            self.well_formed(),
        ensures
            match user_path_fault(path@) {
                Some(why) => refuses_path(r, path@, why),
                None => r matches Err(Error::Io(_)) || match self.sees(user_parts(path@)) {
                    Ok(q) => r matches Ok(data) && holds_file(self.disk(), q, data@),
                    Err(f) => r matches Err(e) && reports(e, f),
                },
            },
            self.ready() ==> answered(r),
    {
        let p = match validate_user_path(path) {
            Ok(x) => x,
            Err(e) => return Err(e),
        };
        proof {
            self.vfs.lemma_valid();
            if self.ready() && self.staging().look(self.disk(), p@) is Found {
                lemma_found_is_rooted(self.staging(), self.disk(), p@);
            }
        }
        self.stage.overlay.read(self.vfs, &p, &self.stage.tx.staged())
    }

    /// Whether something exists at `path` in the transaction's view.
    pub fn path_exists(&self, path: &[u8]) -> (r: Result<bool>)
        requires
            self.well_formed(),
        ensures
            match user_path_fault(path@) {
                Some(why) => refuses_path(r, path@, why),
                None => r matches Err(Error::Io(_)) || match self.staging().look(self.disk(), user_parts(path@)) {
                    Look::Found(_) => r == Ok::<bool, Error>(true),
                    Look::Nothing => r == Ok::<bool, Error>(false),
                    Look::Clash(b) => r matches Err(e) && reports(e, Fault::Clash(b)),
                },
            },
            self.ready() ==> answered(r),
    {
        let p = match validate_user_path(path) {
            Ok(x) => x,
            Err(e) => return Err(e),
        };
        match self.stage.overlay.resolve(self.vfs, &p) {
            Ok(found) => Ok(found.is_some()),
            Err(e) => Err(e),
        }
    }

    /// Applies every staged change atomically. Returns `Ok` only after the commit is durable.
    ///
    /// On an error the tree is back in its before-state, except for
    /// [`Error::CommitOutcomeUnknown`] and [`Error::RollbackFailed`], which leave the
    /// decision to the next recovery.
    pub fn commit(self) -> (r: Result<()>)
        requires
            self.well_formed(),
        ensures
            final(self.vfs).valid(),
            same_volume(self.disk(), final(self.vfs).disk()),
            commit_outcome(self.stage, self.disk(), final(self.vfs).disk(), r),
            self.serves() && self.room() >= self.stage.decisions().len() + 3 && can_commit(self.stage, self.disk())
                ==> r is Ok,
            self.serves() && self.room() >= self.stage.decisions().len() && can_try(
                self.staging(),
                self.disk(),
                self.dir(),
            ) && !comes_to_plan(self.stage, self.disk()) ==> r is Err && answered(r) && same_tree(
                self.disk(),
                final(self.vfs).disk(),
            ),
            self.serves() ==> final(self.vfs).serves(),
    {
        let Transaction { vfs, stage, lock } = self;
        let r = commit_stage(vfs, &stage);
        let _held_until_here = lock;
        r
    }

    /// Drops the transaction: what was staged is removed, and the tree stays as it is.
    pub fn discard(self)
        requires
            self.well_formed(),
        ensures
            final(self.vfs).valid(),
            same_volume(self.disk(), final(self.vfs).disk()),
            same_tree(self.disk(), final(self.vfs).disk()),
            final(self.vfs).disk() == self.disk() || self.dir().put_away(self.disk(), final(self.vfs).disk())
                || self.dir().cleared_away(self.disk(), final(self.vfs).disk()),
            self.serves() && self.disk().resolve(self.dir().at()) is Some && free_at(
                self.disk(),
                self.dir().gc_at(),
            ) ==> self.dir().cleared_away(self.disk(), final(self.vfs).disk()) && final(self.vfs).disk().resolve(
                self.dir().at(),
            ) is None && final(self.vfs).disk().resolve(self.dir().gc_at()) is None,
            self.serves() ==> final(self.vfs).serves(),
    {
        let Transaction { vfs, stage, lock } = self;
        // Never prepared, so the tree was never touched.
        let _ = stage.tx.gc(vfs);
        let _held_until_here = lock;
    }
}

/// Making the file for blob `n` leaves the other staged files as they were, and later names free.
proof fn lemma_blob_staged(ov: OverlayView, a: Disk, b: Disk, staged: PathView, n: u64, id: FileId, object: Object)
    requires
        a.well_formed(),
        b.well_formed(),
        created_at(a, b, staged.push(blob_name(n)), id, object),
        ov.backed(a, staged),
        forall|m: u64| m >= n ==> a.resolve(staged.push(#[trigger] blob_name(m))) is None,
    ensures
        ov.backed(b, staged),
        b.dir_at(staged) is Some,
        forall|m: u64| m > n ==> b.resolve(staged.push(#[trigger] blob_name(m))) is None,
{
    let p = staged.push(blob_name(n));
    assert(p.drop_last() =~= staged);
    lemma_child_off_path(a, staged, blob_name(n));
    lemma_frame_create(a, b, p, id, object, staged);
    assert forall|m: u64| m != n implies b.resolve(staged.push(#[trigger] blob_name(m))) == a.resolve(
        staged.push(blob_name(m)),
    ) by {
        let q = staged.push(blob_name(m));
        lemma_blob_names_unlike(a, n, m);
        if goes_through(a, q, p) {
            let j = choose|j: int| 0 < j <= q.len() && alike_paths(a, p, #[trigger] q.take(j));
            assert(q.take(j) =~= q);
            assert(alike(a, p[staged.len() as int], q[staged.len() as int]));
        }
        lemma_frame_create(a, b, p, id, object, q);
    }
    assert forall|k: PathView| #[trigger] ov.placed.contains_key(k) implies (ov.placed[k] matches SlotView::Present(e)
        ==> (e.src matches SrcView::Blob { n: m, .. } ==> b.file_at(staged.push(blob_name(m))) is Some)) by {
        if let SlotView::Present(e) = ov.placed[k] {
            if let SrcView::Blob { n: m, .. } = e.src {
                let q = staged.push(blob_name(m));
                assert(a.file_at(q) is Some);
                assert(m != n);
                let x = a.resolve(q)->0;
                assert(q.drop_last() =~= staged);
                lemma_lookup(a, a.dir_at(staged)->0, blob_name(m));
                assert(a.names.contains_key(a.key_at(q)->0));
                assert(x != id);
            }
        }
    }
}

/// What a commit comes to, from `a` to `b`. It fails with the tree as it was, because the staged
/// changes cannot be compiled. Or the plan they come to, with the very disk that compiling left,
/// ends in one of these:
///
/// * `Ok`: the tree is what the plan makes of it, and the marker that says so was set durably.
/// * The outcome is unknown: so it is, but the marker may be missing.
/// * Rolling back failed: applying broke off.
/// * Any other error: the tree was not touched, or was rolled back.
pub open spec fn commit_outcome(stage: Stage, a: Disk, b: Disk, r: Result<()>) -> bool {
    ||| exists|d: Disk, p: PlanView| #[trigger]
        calls_for(stage.overlay(), a, d, stage.dir(), stage.ids(), p) && plan_outcome(stage.dir(), d, b, p, r)
    ||| same_tree(a, b) && (r matches Err(e) && compile_failed(
        stage.overlay(),
        stage.decisions(),
        a,
        stage.dir(),
        stage.ids(),
        e,
    ))
}

/// Nothing stands in the way of carrying out the plan `p`: it can be prepared, from wherever it
/// has been every wave can be applied in turn, and afterwards the transaction's directory is
/// still there.
pub open spec fn can_carry_out(d: Disk, tx: TxDir, p: PlanView) -> bool {
    &&& can_prepare(d, tx, p)
    &&& forall|m: Disk, root: FileId| #[trigger]
        readied(d, m, tx, JournalView { format: FORMAT, tx: tx.name@, root, plan: p }) ==> waves_ready(m, tx, p) && forall|
            n: Disk,
        | #[trigger]
            waves_applied(m, n, tx, p, p.waves.len() as int) ==> n.dir_at(tx.at()) is Some
}

/// Nothing stands in the way of the commit: the staged changes can be compiled, and whatever
/// plan that comes to can be carried out, or if it is empty the transaction's directory can be
/// put away.
pub open spec fn can_commit(stage: Stage, d: Disk) -> bool {
    &&& can_compile(stage.overlay(), d, stage.dir(), stage.ids())
    &&& forall|b: Disk, p: PlanView| #[trigger]
        plans_for(stage.overlay(), d, b, stage.dir().id(), stage.ids(), p) ==> if p.waves.len() == 0 {
            b.resolve(stage.dir().at()) is Some && free_at(b, stage.dir().gc_at())
        } else {
            can_carry_out(b, stage.dir(), p)
        }
}

/// The staged changes come to a plan.
pub open spec fn comes_to_plan(stage: Stage, a: Disk) -> bool {
    exists|d: Disk, p: PlanView| #[trigger] calls_for(stage.overlay(), a, d, stage.dir(), stage.ids(), p)
}

/// What rolling back after `cause` comes to, from `a` to `b`.
pub open spec fn back_outcome(tx: TxDir, a: Disk, b: Disk, p: PlanView, cause: IoError, e: Error) -> bool {
    match e {
        Error::Io(x) => x == cause && exists|pos: Seq<Pos>| #[trigger]
            cleared(a, tx, p, pos) && rolled_back(a, b, tx, p, pos),
        Error::RollbackFailed { cause: c, rollback: x } => *c == Error::Io(cause) && (*x is Io || *x is RecoveryRequired) && (b
            == a || exists|pos: Seq<Pos>| #[trigger] cleared(a, tx, p, pos) && interrupted(a, b, tx, p, pos)),
        _ => false,
    }
}

/// What rolling back comes to is what carrying out the plan comes to.
proof fn lemma_back_outcome(tx: TxDir, a: Disk, n: Disk, b: Disk, p: PlanView, cause: IoError, e: Error)
    requires
        broke_off(a, n, tx, p),
        back_outcome(tx, n, b, p, cause, e),
        p.waves.len() > 0,
    ensures
        plan_outcome(tx, a, b, p, Err(e)),
{
    if e is Io {
        let pos = choose|pos: Seq<Pos>| #[trigger] cleared(n, tx, p, pos) && rolled_back(n, b, tx, p, pos);
        assert(rolled_back(n, b, tx, p, pos));
        assert(taken_back(a, b, tx, p));
    } else {
        assert(left_undecided(a, b, tx, p)) by {
            if b != n {
                let pos = choose|pos: Seq<Pos>| #[trigger] cleared(n, tx, p, pos) && interrupted(n, b, tx, p, pos);
                assert(interrupted(n, b, tx, p, pos));
            }
        }
    }
}

/// Rolls back after applying failed with `cause`, and says what came of it.
fn take_back<V: Vfs>(vfs: &mut V, tx: &TxDir, j: &Journal, cause: IoError) -> (r: Error)
    requires
        old(vfs).valid(),
        j@.plan.valid(),
        locations_allowed(j@.plan, tx.id()),
    ensures
        final(vfs).valid(),
        same_volume(old(vfs).disk(), final(vfs).disk()),
        back_outcome(*tx, old(vfs).disk(), final(vfs).disk(), j@.plan, cause, r),
        old(vfs).serves() ==> final(vfs).serves(),
{
    match rollback(vfs, tx, j) {
        Ok(_) => Error::Io(cause),
        Err(failed) => Error::RollbackFailed { cause: Box::new(Error::Io(cause)), rollback: Box::new(failed) },
    }
}

/// What carrying out the plan `p` comes to, from `d` to `b`. If it is empty there is nothing to do
/// but to put the transaction's directory away.
pub open spec fn plan_outcome(tx: TxDir, d: Disk, b: Disk, p: PlanView, r: Result<()>) -> bool {
    if p.waves.len() == 0 {
        put_out(d, b, tx) && match r {
            Ok(_) => tx.cleared_away(d, b),
            Err(e) => e is Io,
        }
    } else {
        match r {
            Ok(_) => carried_out(d, b, tx, p),
            Err(Error::CommitOutcomeUnknown { tx: name, .. }) => name@ == tx.name@ && carried_unmarked(d, b, tx, p),
            Err(Error::RollbackFailed { cause, rollback }) => *cause is Io && (*rollback is Io
                || *rollback is RecoveryRequired) && left_undecided(d, b, tx, p),
            Err(e) => e is Io && (same_tree(d, b) || taken_back(d, b, tx, p)),
        }
    }
}

/// Carries out a plan.
fn carry_out<V: Vfs>(vfs: &mut V, tx: &TxDir, plan: Plan) -> (r: Result<()>)
    requires
        old(vfs).valid(),
        plan@.valid(),
        plan@.waves.len() > 0,
        locations_allowed(plan@, tx.id()),
        proper_plan(plan@),
    ensures
        final(vfs).valid(),
        same_volume(old(vfs).disk(), final(vfs).disk()),
        plan_outcome(*tx, old(vfs).disk(), final(vfs).disk(), plan@, r),
        old(vfs).serves() && old(vfs).room() >= 3 && can_carry_out(old(vfs).disk(), *tx, plan@) ==> r is Ok,
        old(vfs).serves() ==> final(vfs).serves(),
{
    let ghost a = vfs.disk();
    let ghost b = a;
    let ghost p = plan@;
    proof {
        lemma_same_content(a, a);
    }
    let root = match vfs.root_id() {
        Ok(x) => x,
        Err(e) => return Err(Error::Io(e)),
    };
    let j = Journal { format: FORMAT, tx: tx.name.clone(), root, plan };
    let ready = prepare(vfs, tx, &j);
    let ghost m = vfs.disk();
    proof {
        vfs.lemma_valid();
        lemma_same_tree_transitive(a, b, m);
    }
    match ready {
        Ok(_) => {},
        Err(e) => {
            // The tree has not been touched yet.
            let _ = tx.gc(vfs);
            proof {
                lemma_same_tree_transitive(a, m, vfs.disk());
            }
            return Err(Error::Io(e));
        },
    }
    assert(plan_journaled(a, m, *tx, p)) by {
        assert(j@ == (JournalView { format: FORMAT, tx: tx.name@, root, plan: p }));
    }
    vfs.event("prepared");
    match apply(vfs, tx, &j.plan) {
        Ok(_) => {},
        Err(cause) => {
            let ghost n = vfs.disk();
            assert(broke_off(a, n, *tx, p));
            let e = take_back(vfs, tx, &j, cause);
            proof {
                lemma_back_outcome(*tx, a, n, vfs.disk(), p, cause, e);
            }
            return Err(e);
        },
    }
    let ghost n = vfs.disk();
    let set = tx.set_marker(vfs, Marker::Committed);
    let ghost q = vfs.disk();
    proof {
        vfs.lemma_valid();
    }
    assert(brought_about(a, m, n, *tx, p));
    match set {
        Ok(_) => {},
        Err(source) => return Err(Error::CommitOutcomeUnknown { tx: tx.name.clone(), source }),
    }
    vfs.event("committed");
    // Best effort: leftovers are settled by the next recovery otherwise.
    let _ = tx.gc(vfs);
    proof {
        assert(brought_about(a, m, n, *tx, p) && marked(n, q, *tx, Marker::Committed));
        assert(carried_out(a, vfs.disk(), *tx, p));
    }
    Ok(())
}

/// Commits what is staged.
fn commit_stage<V: Vfs>(vfs: &mut V, stage: &Stage) -> (r: Result<()>)
    requires
        old(vfs).valid(),
        stage.well_formed(),
    ensures
        final(vfs).valid(),
        same_volume(old(vfs).disk(), final(vfs).disk()),
        commit_outcome(*stage, old(vfs).disk(), final(vfs).disk(), r),
        old(vfs).serves() && old(vfs).room() >= stage.decisions().len() + 3 && can_commit(*stage, old(vfs).disk())
            ==> r is Ok,
        old(vfs).serves() && old(vfs).room() >= stage.decisions().len() && can_try(
            stage.overlay(),
            old(vfs).disk(),
            stage.dir(),
        ) && !comes_to_plan(*stage, old(vfs).disk()) ==> r is Err && answered(r) && same_tree(
            old(vfs).disk(),
            final(vfs).disk(),
        ),
        old(vfs).serves() ==> final(vfs).serves(),
{
    let ghost a = vfs.disk();
    let tx = &stage.tx;
    let compiled = compile(vfs, &stage.overlay, tx, &stage.blobs);
    let ghost b = vfs.disk();
    let plan = match compiled {
        Ok(p) => p,
        Err(e) => {
            let _ = tx.gc(vfs);
            proof {
                lemma_same_tree_transitive(a, b, vfs.disk());
            }
            return Err(e);
        },
    };
    let ghost p = plan@;
    assert(calls_for(stage.overlay(), a, b, *tx, stage.ids(), p));
    assert(p.waves.len() == plan.waves@.len());
    if plan.waves.len() == 0 {
        let r = match tx.gc(vfs) {
            Ok(_) => Ok(()),
            Err(e) => Err(Error::Io(e)),
        };
        assert(calls_for(stage.overlay(), a, b, stage.dir(), stage.ids(), p));
        assert(plan_outcome(stage.dir(), b, vfs.disk(), p, r));
        return r;
    }
    let r = carry_out(vfs, tx, plan);
    assert(calls_for(stage.overlay(), a, b, stage.dir(), stage.ids(), p));
    assert(plan_outcome(stage.dir(), b, vfs.disk(), p, r));
    r
}

/// The path is refused for this reason.
pub open spec fn refuses_path<T>(r: Result<T>, path: Name, why: Seq<char>) -> bool {
    r matches Err(Error::InvalidPath { path: p, reason }) && p@ == path && reason@ == why
}

/// The path leads to a regular file with this content.
pub open spec fn holds_file(d: Disk, p: PathView, data: Seq<u8>) -> bool {
    d.file_at(p) matches Some(id) && d.objects[id]->data == data
}

/// An operation came to `want`: it changed what is staged accordingly, or was refused, or the
/// filesystem failed; in the latter two cases nothing was staged.
pub open spec fn changed(
    before: OverlayView,
    after: OverlayView,
    want: core::result::Result<OverlayView, Fault>,
    r: Result<()>,
) -> bool {
    match r {
        Ok(_) => want == Ok::<OverlayView, Fault>(after),
        Err(e) => after == before && (e is Io || (want matches Err(f) && reports(e, f))),
    }
}

/// Directories were staged down to `p`, as far as possible.
pub open spec fn made_dirs(before: OverlayView, after: OverlayView, d: Disk, p: PathView, r: Result<()>) -> bool {
    let (ov, fault) = before.create_dirs(d, p, p.len() as int);
    match r {
        Ok(_) => fault is None && after == ov,
        Err(Error::Io(_)) => exists|n: int|
            0 <= n < p.len() && after == (#[trigger] before.create_dirs(d, p, n)).0,
        Err(e) => fault matches Some(f) && reports(e, f) && after == ov,
    }
}

/// The file at `p` has these permission bits, if any are asked for.
pub open spec fn staged_with(d: Disk, p: PathView, mode: Option<u32>) -> bool {
    d.file_at(p) matches Some(id) && (mode matches Some(m) ==> d.objects[id]->File_mode == m)
}

/// A write of `data` to `path` took the transaction from `a` to `b`. The visible tree is as it
/// was. A write that succeeds is what the transaction sees from then on; one that fails
/// stages nothing.
pub open spec fn wrote<'a, V: Vfs>(
    a: Transaction<'a, V>,
    b: Transaction<'a, V>,
    path: Name,
    data: Seq<u8>,
    mode: Option<u32>,
    r: Result<()>,
) -> bool {
    let p = user_parts(path);
    let check = a.staging().write_check(a.disk(), p);
    &&& same_volume(a.disk(), b.disk())
    &&& same_tree(a.disk(), b.disk())
    &&& match r {
        Ok(_) => {
            &&& user_path_fault(path) is None
            &&& check matches Ok(inherited) && b.staging() == a.staging().written(
                b.disk(),
                p,
                a.stage.next(),
                if mode is Some {
                    mode
                } else {
                    inherited
                },
            )
            &&& b.sees(p) == Ok::<PathView, Fault>(a.staged().push(blob_name(a.stage.next())))
            &&& holds_file(b.disk(), a.staged().push(blob_name(a.stage.next())), data)
            &&& staged_with(b.disk(), a.staged().push(blob_name(a.stage.next())), if mode is Some {
                mode
            } else {
                check->Ok_0
            })
            &&& b.stage.next() == a.stage.next() + 1
            &&& b.stage.ids() == a.stage.ids().insert(
                a.stage.next(),
                b.disk().shows(b.disk().file_at(a.staged().push(blob_name(a.stage.next())))->0),
            )
        },
        Err(e) => {
            &&& b.staging() == a.staging()
            &&& match user_path_fault(path) {
                Some(why) => refuses_path(r, path, why),
                None => e is Io || (check matches Err(f) && reports(e, f)),
            }
        },
    }
}

} // verus!
