//! # Atomic, crash-safe multi-file transactions
//!
//! Stage any number of writes, renames and removals inside a directory tree, then
//! [`commit`](Transaction::commit): after any crash, [`recover`] leaves the tree exactly in
//! its before-state or exactly in its after-state (after only if `commit` returned `Ok`).
//!
//! Every change to the tree is a no-replace rename of an entry whose identity was recorded in
//! a durable journal beforehand; renames run in waves separated by fsync barriers; recovery
//! locates entries by identity and undoes waves in reverse under the same discipline.
//!
//! The library works on any [`vfs::Vfs`]; [`sim`] is one that lives in memory and can crash.
pub mod apply;
pub mod atomicity;
pub mod bearings;
pub mod bytes;
pub mod caps;
pub mod changes;
pub mod checksum;
pub mod classify;
pub mod compile;
pub mod contents;
pub mod crash;
pub mod disk;
pub mod durability;
pub mod edits;
pub mod error;
pub mod findings;
pub mod grounding;
pub mod guarantee;
pub mod hex;
pub mod inspect;
pub mod intent;
pub mod journal;
pub mod json;
pub mod links;
pub mod logbook;
pub mod marking;
pub mod meaning;
pub mod messages;
pub mod moves;
pub mod node;
pub mod order;
pub mod outcome;
pub mod overlay;
pub mod path;
pub mod pathmap;
pub mod plan;
pub mod positions;
pub mod probing;
pub mod progress;
pub mod readiness;
pub mod recover;
pub mod restoration;
pub mod result;
pub mod retreat;
pub mod rulings;
pub mod sight;
pub mod sim;
pub mod state;
pub mod storage;
pub mod telling;
pub mod text;
pub mod transaction;
pub mod tree;
pub mod turns;
pub mod upkeep;
pub mod verdict;
pub mod vfs;
pub mod vocabulary;

use vstd::prelude::*;

pub use crate::caps::{Caps, Session};
pub use crate::error::{Error, Result};
pub use crate::inspect::{Inspection, RecoveryAction, TokenInspection, TokenPosition, TxInspection};
pub use crate::path::RelPath;
pub use crate::recover::RecoveryReport;
pub use crate::transaction::{Options, Transaction};

use crate::bytes::Name;
use crate::caps::{cached, cannot_use, literals, not_local, probe_fails, probe_name, probe_passes, shortfall, suits};
use crate::disk::Disk;
use crate::inspect::{can_inspect, inspected};
use crate::probing::{
    lemma_probed_self, lemma_spotless_all, lemma_spotless_entries, lemma_spotless_quiet, lemma_spotless_resolves,
    lemma_spotless_tidy, probed, spotless,
};
use crate::recover::{
    all_examinable, can_recover, entries_to_recover, law_nothing_interrupted_is_left_alone, quiet, recovered, some_refused, tidy,
};
use crate::state::private_root;
use crate::tree::{lemma_same_content, same_tree};
use crate::vfs::{same_volume, way_clear, Vfs};

verus! {

/// What recovery comes to, from `a` to `b`. Without a private directory there is nothing to
/// do. Otherwise the filesystem is probed in a directory `scratch`, which leaves everything else as
/// it was, and what was interrupted is recovered; `refused` tells that the filesystem is not
/// trusted, and then nothing is touched.
pub open spec fn recovery_outcome(a: Disk, b: Disk, scratch: Name, refused: bool, r: Result<RecoveryReport>) -> bool {
    if a.resolve(private_root()) is None {
        b == a && match r {
            Ok(report) => nothing_recovered(report),
            Err(e) => e is Io,
        }
    } else {
        ||| !refused && exists|m: Disk| #[trigger] recovered(m, b, r) && same_tree(a, m) && probed(a, m, scratch)
        ||| same_tree(a, b) && probed(a, b, scratch) && (refused ==> b == a) && (r matches Err(e) && match e {
            Error::UnsupportedFilesystem { missing } => cannot_use(a, refused, literals(missing@)),
            _ => e is Io,
        })
    }
}

/// The report tells of nothing.
pub open spec fn nothing_recovered(r: RecoveryReport) -> bool {
    r.rolled_back@.len() == 0 && r.completed@.len() == 0 && r.discarded@.len() == 0 && r.garbage_removed == 0
}

/// Nothing stands in the way of recovering what is on the disk: whatever is left once probing has
/// cleaned up after itself, every entry of the private directory can be dealt with.
pub open spec fn can_settle(d: Disk, room: u64) -> bool {
    quiet(d) || forall|m: Disk, names: Seq<String>| #[trigger]
        entries_to_recover(d, names) && #[trigger] spotless(d, m) && m.well_formed() ==> can_recover(m, names) && room
            >= 4 + 2 * names.len()
}

/// Everything in the private directory can be looked at, and a transaction there cannot be
/// recovered.
pub open spec fn cannot_settle(d: Disk) -> bool {
    forall|names: Seq<String>| #[trigger]
        entries_to_recover(d, names) ==> all_examinable(d, names) && some_refused(d, names)
}

/// Recovers every interrupted transaction (also done when a transaction starts).
pub fn recover<V: Vfs>(vfs: &mut V, session: &mut Session) -> (r: Result<RecoveryReport>)
    requires
        old(vfs).valid(),
    ensures
        final(vfs).valid(),
        same_volume(old(vfs).disk(), final(vfs).disk()),
        recovery_outcome(
            old(vfs).disk(),
            final(vfs).disk(),
            probe_name(old(session).pid, old(session).nanos),
            old(vfs).distrusted(),
            r,
        ),
        old(vfs).serves() && old(vfs).disk().resolve(private_root()) is None ==> r is Ok,
        old(vfs).serves() && probe_passes(*old(vfs), false, *old(session)) && can_settle(
            old(vfs).disk(),
            old(vfs).room(),
        ) ==> r is Ok,
        old(vfs).serves() && probe_passes(*old(vfs), false, *old(session)) && cannot_settle(
            old(vfs).disk(),
        ) ==> (r matches Err(Error::RecoveryRequired { .. })) && spotless(old(vfs).disk(), final(vfs).disk()),
        old(vfs).serves() && probe_passes(*old(vfs), false, *old(session)) && tidy(old(vfs).disk()) ==> (r matches Ok(
            report,
        ) && nothing_recovered(report)) && spotless(old(vfs).disk(), final(vfs).disk()),
        old(vfs).disk().resolve(private_root()) is Some && old(vfs).distrusted() ==> *final(vfs) == *old(vfs) && (
        old(vfs).runs() && old(vfs).disk().dir_at(private_root()) is Some ==> (r matches Err(
            Error::UnsupportedFilesystem { missing },
        ) && literals(missing@) == seq![not_local()])),
        probe_fails(*old(vfs), false, *old(session)) ==> (r matches Err(Error::UnsupportedFilesystem { missing })
            && literals(missing@) == shortfall(old(vfs).features())),
        r is Ok && old(vfs).disk().resolve(private_root()) is Some && cached(old(session).cache, old(vfs).cache_key()) is None
            ==> suits(old(vfs).features()),
        old(vfs).serves() ==> final(vfs).serves(),
{
    recover_with(vfs, &Options::new(), session)
}

/// [`recover`] with options.
pub fn recover_with<V: Vfs>(vfs: &mut V, opts: &Options, session: &mut Session) -> (r: Result<RecoveryReport>)
    requires
        old(vfs).valid(),
    ensures
        final(vfs).valid(),
        same_volume(old(vfs).disk(), final(vfs).disk()),
        recovery_outcome(
            old(vfs).disk(),
            final(vfs).disk(),
            probe_name(old(session).pid, old(session).nanos),
            old(vfs).distrusted() && !opts.allows(),
            r,
        ),
        old(vfs).serves() && old(vfs).disk().resolve(private_root()) is None ==> r is Ok,
        old(vfs).serves() && probe_passes(*old(vfs), opts.allows(), *old(session)) && can_settle(
            old(vfs).disk(),
            old(vfs).room(),
        ) ==> r is Ok,
        old(vfs).serves() && probe_passes(*old(vfs), opts.allows(), *old(session)) && cannot_settle(
            old(vfs).disk(),
        ) ==> (r matches Err(Error::RecoveryRequired { .. })) && spotless(old(vfs).disk(), final(vfs).disk()),
        old(vfs).serves() && probe_passes(*old(vfs), opts.allows(), *old(session)) && tidy(old(vfs).disk()) ==> (r matches Ok(
            report,
        ) && nothing_recovered(report)) && spotless(old(vfs).disk(), final(vfs).disk()),
        old(vfs).disk().resolve(private_root()) is Some && old(vfs).distrusted() && !opts.allows() ==> *final(vfs) == *old(vfs) && (
        old(vfs).runs() && old(vfs).disk().dir_at(private_root()) is Some ==> (r matches Err(
            Error::UnsupportedFilesystem { missing },
        ) && literals(missing@) == seq![not_local()])),
        probe_fails(*old(vfs), opts.allows(), *old(session)) ==> (r matches Err(Error::UnsupportedFilesystem { missing })
            && literals(missing@) == shortfall(old(vfs).features())),
        r is Ok && old(vfs).disk().resolve(private_root()) is Some && cached(old(session).cache, old(vfs).cache_key()) is None
            ==> suits(old(vfs).features()),
        old(vfs).serves() ==> final(vfs).serves(),
{
    recover_on(vfs, opts, session)
}

/// Recovers every interrupted transaction on the given filesystem.
pub fn recover_on<V: Vfs>(vfs: &mut V, opts: &Options, session: &mut Session) -> (r: Result<RecoveryReport>)
    requires
        old(vfs).valid(),
    ensures
        final(vfs).valid(),
        same_volume(old(vfs).disk(), final(vfs).disk()),
        recovery_outcome(
            old(vfs).disk(),
            final(vfs).disk(),
            probe_name(old(session).pid, old(session).nanos),
            old(vfs).distrusted() && !opts.allows(),
            r,
        ),
        old(vfs).serves() && old(vfs).disk().resolve(private_root()) is None ==> r is Ok,
        old(vfs).serves() && probe_passes(*old(vfs), opts.allows(), *old(session)) && can_settle(
            old(vfs).disk(),
            old(vfs).room(),
        ) ==> r is Ok,
        old(vfs).serves() && probe_passes(*old(vfs), opts.allows(), *old(session)) && cannot_settle(
            old(vfs).disk(),
        ) ==> (r matches Err(Error::RecoveryRequired { .. })) && spotless(old(vfs).disk(), final(vfs).disk()),
        old(vfs).serves() && probe_passes(*old(vfs), opts.allows(), *old(session)) && tidy(old(vfs).disk()) ==> (r matches Ok(
            report,
        ) && nothing_recovered(report)) && spotless(old(vfs).disk(), final(vfs).disk()),
        old(vfs).disk().resolve(private_root()) is Some && old(vfs).distrusted() && !opts.allows() ==> *final(vfs) == *old(vfs) && (
        old(vfs).runs() && old(vfs).disk().dir_at(private_root()) is Some ==> (r matches Err(
            Error::UnsupportedFilesystem { missing },
        ) && literals(missing@) == seq![not_local()])),
        probe_fails(*old(vfs), opts.allows(), *old(session)) ==> (r matches Err(Error::UnsupportedFilesystem { missing })
            && literals(missing@) == shortfall(old(vfs).features())),
        r is Ok && old(vfs).disk().resolve(private_root()) is Some && cached(old(session).cache, old(vfs).cache_key()) is None
            ==> suits(old(vfs).features()),
        old(vfs).serves() ==> final(vfs).serves(),
{
    let ghost a = vfs.disk();
    let ghost able = vfs.serves() && can_settle(a, vfs.room());
    let ghost scratch = probe_name(session.pid, session.nanos);
    proof {
        vfs.lemma_valid();
        lemma_same_content(a, a);
        lemma_probed_self(a, scratch);
        assert(way_clear(a, private_root()));
    }
    match vfs.stat(&crate::state::private_dir()) {
        Ok(Some(_)) => {},
        Ok(None) => return Ok(RecoveryReport::default()),
        Err(e) => return Err(Error::Io(e)),
    }
    let _lock = match vfs.lock(true) {
        Ok(x) => x,
        Err(e) => return Err(Error::Io(e)),
    };
    match crate::caps::probe(vfs, opts.allow_untested(), session) {
        Ok(_) => {},
        Err(e) => return Err(e),
    }
    let ghost m = vfs.disk();
    proof {
        vfs.lemma_valid();
        if spotless(a, m) {
            lemma_spotless_resolves(a, m, private_root());
            assert forall|names: Seq<String>| entries_to_recover(m, names) == #[trigger] entries_to_recover(a, names) by {
                lemma_spotless_entries(a, m, names);
            }
            if a.steady && cannot_settle(a) {
                assert forall|names: Seq<String>| #[trigger] entries_to_recover(m, names) implies all_examinable(m, names)
                    && some_refused(m, names) by {
                    assert(entries_to_recover(a, names));
                    lemma_spotless_all(a, m, names);
                }
            }
            if tidy(a) {
                lemma_spotless_tidy(a, m);
            }
            if quiet(a) {
                lemma_spotless_quiet(a, m);
            }
            if able && !quiet(a) {
                assert forall|names: Seq<String>| #[trigger] entries_to_recover(m, names) implies can_recover(m, names)
                    && vfs.room() >= 2 * names.len() by {
                    assert(entries_to_recover(a, names));
                }
            }
        }
    }
    let r = crate::recover::recover_locked(vfs);
    proof {
        if spotless(a, m) && tidy(m) {
            if r is Ok {
                law_nothing_interrupted_is_left_alone(m, vfs.disk(), r->Ok_0);
            }
        }
    }
    r
}

/// Read-only report of what [`recover`] would do. Never modifies anything.
pub fn inspect<V: Vfs>(vfs: &V) -> (r: Result<Inspection>)
    requires
        vfs.valid(),
    ensures
        r matches Ok(out) ==> inspected(vfs.disk(), out),
        r matches Err(e) ==> e is Io,
        vfs.serves() && can_inspect(vfs.disk()) ==> r is Ok,
{
    inspect_on(vfs)
}

/// [`inspect`] on the given filesystem.
pub fn inspect_on<V: Vfs>(vfs: &V) -> (r: Result<Inspection>)
    requires
        vfs.valid(),
    ensures
        r matches Ok(out) ==> inspected(vfs.disk(), out),
        r matches Err(e) ==> e is Io,
        vfs.serves() && can_inspect(vfs.disk()) ==> r is Ok,
{
    crate::inspect::inspect_on(vfs)
}

} // verus!
