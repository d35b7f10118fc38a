//! One test per row of the recovery decision table, plus capability probing and the read-only
//! guarantee of inspecting.
use std::collections::BTreeMap;

use fstx::caps::{missing_features, Onto, ProbeCache, Session};
use fstx::classify::classify;
use fstx::compile::{compile, IdTable};
use fstx::disk::FileId;
use fstx::error::{Error, Reason};
use fstx::overlay::Overlay;
use fstx::pathmap::PathMap;
use fstx::plan::{Loc, Plan, Token};
use fstx::positions::Pos;
use fstx::progress::Record;
use fstx::recover::{append_progress, decide, recover_locked, Decision};
use fstx::sim::{SimConfig, SimFs, TreeEntry};
use fstx::state::{delete_tree, Marker, TxDir};
use fstx::vfs::{Kind, Probe, Vfs};
use fstx::{inspect_on, recover_on, Options, RecoveryAction, RecoveryReport, RelPath, Transaction};

type Tree = BTreeMap<String, TreeEntry>;

fn text(map: PathMap<TreeEntry>) -> Tree {
    (0..map.len())
        .map(|i| {
            (String::from_utf8(map.key(i).to_path_buf()).unwrap(), map.value(i).clone())
        })
        .collect()
}

fn tree(fs: &SimFs) -> Tree {
    text(fs.tree())
}

fn private_tree(fs: &SimFs) -> Tree {
    text(fs.private_tree())
}

fn session() -> Session {
    Session { nanos: 1_700_000_000_000_000_000, pid: 4242, counter: 0, cache: ProbeCache::new() }
}

fn base() -> SimFs {
    let mut fs = SimFs::new(SimConfig::default());
    fs.put_file(b"a", b"old");
    fs.put_dir(b"d");
    fs.put_file(b"d/x", b"x");
    fs
}

fn ops(tx: &mut Transaction<SimFs>) -> fstx::Result<()> {
    tx.write(b"a", b"new")?;
    tx.rename(b"d", b"e")?;
    tx.write(b"e/y", b"y")
}

fn run(fs: &mut SimFs) -> fstx::Result<()> {
    let mut tx = Transaction::begin_on(fs, &Options::new(), &mut session())?;
    ops(&mut tx)?;
    tx.commit()
}

/// Runs the transaction until the first call after `event` has happened, then kills the process.
fn crash_after_event(event: &str, extra: u64) -> (SimFs, SimFs) {
    for budget in 0.. {
        let mut fs = base();
        fs.crash_after(budget);
        let _ = run(&mut fs);
        if fs.events().iter().any(|e| *e == event) {
            let mut fs = base();
            fs.crash_after(budget + extra);
            let _ = run(&mut fs);
            return (fs.process_kill(), before_after());
        }
    }
    unreachable!()
}

fn before_after() -> SimFs {
    let mut fs = base();
    run(&mut fs).unwrap();
    fs
}

/// Stages the changes, and dies before the commit.
fn staged_only(fs: &mut SimFs) {
    let mut tx = Transaction::begin_on(fs, &Options::new(), &mut session()).unwrap();
    ops(&mut tx).unwrap();
    std::mem::forget(tx);
}

fn tx_name(fs: &SimFs) -> String {
    private_tree(fs).keys().find(|k| k.starts_with("tx-") && !k.contains('/')).expect("tx dir").clone()
}

fn recover(fs: &mut SimFs) -> fstx::Result<RecoveryReport> {
    recover_on(fs, &Options::new(), &mut session())
}

fn assert_untouched(
    fs: &mut SimFs,
    f: impl FnOnce(&mut SimFs) -> fstx::Result<RecoveryReport>,
) -> Error {
    let before_tree = tree(fs);
    let name = tx_name(fs);
    let txdir = |fs: &SimFs| -> Vec<(String, TreeEntry)> {
        private_tree(fs).into_iter().filter(|(k, _)| k.starts_with(&name)).collect()
    };
    let before = txdir(fs);
    let err = f(fs).expect_err("must refuse");
    assert!(matches!(err, Error::RecoveryRequired { .. }), "{}", err.text());
    assert_eq!(tree(fs), before_tree, "tree touched");
    assert_eq!(txdir(fs), before, "transaction directory touched");
    err
}

#[test]
fn never_prepared_is_discarded() {
    let mut fs = base();
    let before = tree(&fs);
    staged_only(&mut fs);
    let mut fs = fs.process_kill();
    assert_eq!(inspect_on(&fs).unwrap().transactions[0].action, RecoveryAction::Discard);
    let r = recover(&mut fs).unwrap();
    assert_eq!(r.discarded.len(), 1);
    assert_eq!(tree(&fs), before);
    assert!(private_tree(&fs).is_empty());
}

#[test]
fn torn_journal_tmp_only_is_discarded() {
    let mut fs = base();
    let before = tree(&fs);
    staged_only(&mut fs);
    let name = tx_name(&fs);
    fs.put_file(format!(".fstx/{name}/journal.tmp").as_bytes(), b"{\"format\":1,\"tx\"");
    assert_eq!(recover(&mut fs).unwrap().discarded, vec![name]);
    assert_eq!(tree(&fs), before);
}

#[test]
fn backup_without_journal_requires_intervention() {
    let mut fs = base();
    staged_only(&mut fs);
    let name = tx_name(&fs);
    fs.put_file(format!(".fstx/{name}/backup/0").as_bytes(), b"someone's data");
    assert_untouched(&mut fs, recover);
    assert_eq!(inspect_on(&fs).unwrap().transactions[0].action, RecoveryAction::RecoveryRequired);
}

#[test]
fn corrupt_journal_requires_intervention_and_touches_nothing() {
    let (mut fs, _) = crash_after_event("prepared", 3);
    let name = tx_name(&fs);
    fs.tamper_file(format!(".fstx/{name}/journal").as_bytes(), b"{\"format\":1} garbage");
    let err = assert_untouched(&mut fs, recover);
    assert!(err.text().contains("checksum"), "{}", err.text());
    // Starting refuses too, and still touches nothing.
    assert_untouched(&mut fs, |fs| {
        Transaction::begin_on(fs, &Options::new(), &mut session()).map(|_| RecoveryReport::default())
    });
}

#[test]
fn prepared_uncommitted_rolls_back() {
    let (mut fs, _) = crash_after_event("prepared", 2);
    assert_eq!(inspect_on(&fs).unwrap().transactions[0].action, RecoveryAction::RollBack);
    let r = recover(&mut fs).unwrap();
    assert_eq!(r.rolled_back.len(), 1);
    assert_eq!(tree(&fs), tree(&base()));
    assert!(private_tree(&fs).is_empty());
}

#[test]
fn committed_is_only_cleaned_up() {
    let (mut fs, after) = crash_after_event("committed", 0);
    assert_eq!(inspect_on(&fs).unwrap().transactions[0].action, RecoveryAction::CleanUpCommitted);
    let r = recover(&mut fs).unwrap();
    assert_eq!(r.completed.len(), 1);
    assert_eq!(tree(&fs), tree(&after));
}

#[test]
fn committed_plus_rollback_marker_requires_intervention() {
    let (mut fs, _) = crash_after_event("committed", 0);
    let name = tx_name(&fs);
    fs.put_file(format!(".fstx/{name}/ROLLING_BACK").as_bytes(), b"");
    let err = assert_untouched(&mut fs, recover);
    assert!(matches!(
        err,
        Error::RecoveryRequired { reason: Reason::CommittedAndRolledBack, .. }
    ));
}

#[test]
fn foreign_entry_at_a_token_location_requires_intervention() {
    let (mut fs, _) = crash_after_event("prepared", 0);
    // An outside writer drops a file at the backup slot of a base entry not yet detached.
    let insp = inspect_on(&fs).unwrap();
    let tok = insp.transactions[0]
        .tokens
        .iter()
        .find(|t| t.position.as_ref().unwrap().index == 0 && !t.locations[0].starts_with(b".fstx"))
        .expect("a base token still at its origin");
    fs.put_file(&tok.locations[1], b"intruder");
    let err = assert_untouched(&mut fs, recover);
    assert!(err.text().contains("unknown entry"), "{}", err.text());
}

#[test]
fn rolled_back_is_only_cleaned_up() {
    let (mut fs, _) = crash_after_event("prepared", 0);
    let name = tx_name(&fs);
    let before = tree(&fs);
    fs.put_file(format!(".fstx/{name}/ROLLED_BACK").as_bytes(), b"");
    assert_eq!(inspect_on(&fs).unwrap().transactions[0].action, RecoveryAction::CleanUpRolledBack);
    assert_eq!(recover(&mut fs).unwrap().rolled_back, vec![name]);
    assert_eq!(tree(&fs), before);
    assert!(private_tree(&fs).is_empty());
}

#[test]
fn garbage_is_removed_and_strangers_are_left_alone() {
    let mut fs = base();
    fs.put_dir(b".fstx");
    fs.put_dir(b".fstx/gc-tx-1");
    fs.put_file(b".fstx/gc-tx-1/f", b"f");
    fs.put_dir(b".fstx/probe-1-2");
    fs.put_file(b".fstx/notes", b"mine");
    let insp = inspect_on(&fs).unwrap();
    assert_eq!(insp.garbage, vec!["gc-tx-1".to_string(), "probe-1-2".to_string()]);
    let r = recover(&mut fs).unwrap();
    assert_eq!(r.garbage_removed, 2);
    assert_eq!(private_tree(&fs).keys().cloned().collect::<Vec<_>>(), vec!["notes".to_string()]);
}

#[test]
fn inspect_never_mutates() {
    for (event, extra) in [("prepared", 0), ("prepared", 3), ("committed", 0)] {
        let (fs, _) = crash_after_event(event, extra);
        let m = fs.mutations();
        let c = fs.calls();
        inspect_on(&fs).unwrap();
        assert_eq!((fs.mutations(), fs.calls()), (m, c));
    }
}

#[test]
fn probe_rejects_filesystems_without_required_semantics() {
    for (cfg, what) in [
        (SimConfig { noreplace: false, ..SimConfig::default() }, "no-replace"),
        (SimConfig { stable_ids: false, ..SimConfig::default() }, "stable"),
    ] {
        let mut fs = SimFs::new(cfg);
        let mut session = session();
        let r = Transaction::begin_on(&mut fs, &Options::new(), &mut session);
        match r {
            Err(Error::UnsupportedFilesystem { missing }) => {
                assert!(missing.iter().any(|m| m.contains(what)), "{missing:?}")
            }
            _ => panic!("expected UnsupportedFilesystem"),
        }
        assert!(fs.tree().len() == 0);
    }
}

#[test]
fn case_insensitive_filesystem_rejects_colliding_names() {
    let mut fs = SimFs::new(SimConfig { case_insensitive: true, ..SimConfig::default() });
    fs.put_file(b"Readme", b"r");
    let mut tx = Transaction::begin_on(&mut fs, &Options::new(), &mut session()).unwrap();
    assert!(tx.case_insensitive());
    assert!(matches!(tx.write(b"README", b"x"), Err(Error::CaseCollision { .. })));
    assert!(matches!(tx.create_dir_all(b"readme"), Err(Error::CaseCollision { .. })));
    tx.write(b"Readme", b"ok").unwrap();
    tx.write(b"other", b"o").unwrap();
    tx.commit().unwrap();
    assert_eq!(tree(&fs)["Readme"].data, b"ok");
}

/// Plants bytes as a transaction's journal: no panic, and on refusal the tree is untouched.
#[test]
fn planted_journals_never_hurt() {
    let good = {
        let (fs, _) = crash_after_event("prepared", 0);
        let name = tx_name(&fs);
        private_tree(&fs)[&format!("{name}/journal")].data.clone()
    };
    let mut seed = 5u64;
    let mut next = || {
        seed = seed.wrapping_mul(6364136223846793005).wrapping_add(1442695040888963407);
        (seed >> 33) as usize
    };
    let mut planted: Vec<Vec<u8>> = vec![Vec::new(), b"\nblake3:".to_vec(), good.clone()];
    for _ in 0..60 {
        let mut bytes = good.clone();
        let i = next() % bytes.len();
        bytes[i] = next() as u8;
        bytes.truncate(1 + next() % good.len());
        planted.push(bytes);
    }
    for bytes in planted {
        let mut fs = SimFs::new(SimConfig::default());
        fs.put_file(b"a", b"a");
        for d in [".fstx", ".fstx/tx-1", ".fstx/tx-1/staged", ".fstx/tx-1/backup"] {
            fs.put_dir(d.as_bytes());
        }
        fs.put_file(b".fstx/tx-1/journal", &bytes);
        let before = tree(&fs);
        let _ = inspect_on(&fs);
        if recover(&mut fs).is_err() {
            assert_eq!(tree(&fs), before);
        }
    }
}

/// Whatever the progress log holds, inspecting and recovering do not panic.
#[test]
fn planted_progress_logs_never_hurt() {
    let mut seed = 11u64;
    for n in 0..64usize {
        let bytes: Vec<u8> = (0..n)
            .map(|_| {
                seed = seed.wrapping_mul(6364136223846793005).wrapping_add(1442695040888963407);
                (seed >> 40) as u8
            })
            .collect();
        let mut fs = SimFs::new(SimConfig::default());
        fs.put_dir(b".fstx");
        fs.put_dir(b".fstx/tx-1");
        fs.put_file(b".fstx/tx-1/progress", &bytes);
        let _ = inspect_on(&fs);
        let _ = recover(&mut fs);
    }
}

#[test]
fn what_the_probe_saw_decides_what_is_missing() {
    assert!(missing_features(Onto::Refused, true, true).is_empty());
    assert_eq!(
        missing_features(Onto::Refused, false, true),
        vec!["file identities that are stable across rename"]
    );
    assert_eq!(
        missing_features(Onto::Replaced, true, true),
        vec!["no-replace rename (an existing destination was replaced)"]
    );
    assert_eq!(
        missing_features(Onto::Unsupported, true, false),
        vec!["no-replace rename (RENAME_NOREPLACE)", "directory fsync"]
    );
}

#[test]
fn a_fresh_root_always_starts_a_transaction() {
    for case_insensitive in [false, true] {
        let mut fs = SimFs::new(SimConfig { case_insensitive, ..SimConfig::default() });
        let mut session = session();
        let tx = Transaction::begin_on(&mut fs, &Options::new(), &mut session).unwrap();
        assert_eq!(tx.case_insensitive(), case_insensitive);
        std::mem::forget(tx);
        assert_eq!(session.counter, 1);
    }
}

#[test]
fn a_simulated_filesystem_is_trusted_and_probed_every_time() {
    let fs = base();
    assert!(matches!(fs.untrusted_fs_type(), Ok(None)));
    assert!(fs.probe_cache_key().is_none());
}

#[test]
fn probing_a_location_checks_its_parent() {
    let mut fs = base();
    let root = fs.root_id().ok().unwrap();
    let d = fs.stat(&RelPath::from_parts(vec![b"d".to_vec()])).ok().unwrap().unwrap().id;
    let x = RelPath::from_parts(vec![b"d".to_vec(), b"x".to_vec()]);
    let y = RelPath::from_parts(vec![b"d".to_vec(), b"y".to_vec()]);
    assert!(matches!(fs.probe(&x, d), Ok(Probe::Present(m)) if m.kind == Kind::File && m.len == 1));
    assert!(matches!(fs.probe(&y, d), Ok(Probe::Missing)));
    assert!(matches!(fs.probe(&x, root), Ok(Probe::ParentMismatch)));
    assert!(matches!(fs.probe(&RelPath::root(), root), Ok(Probe::Present(m)) if m.id == root));
    fs.crash_after(0);
    assert!(fs.sync_dir(&RelPath::root()).is_err());
    assert!(fs.probe(&x, d).is_err());
}

#[test]
fn milestones_are_noted_in_order() {
    let mut fs = base();
    fs.event("one");
    assert!(fs.durable_at_stabilize().is_none());
    fs.event("stabilized");
    fs.event("two");
    assert_eq!(fs.events(), &vec!["one", "stabilized", "two"]);
    assert!(fs.durable_at_stabilize().is_some());
    assert_eq!(fs.mutations(), base().mutations());
}

#[test]
fn a_marker_can_be_set_again() {
    let mut fs = base();
    staged_only(&mut fs);
    let tx = TxDir { name: tx_name(&fs) };
    assert!(matches!(tx.has_marker(&fs, Marker::RolledBack), Ok(false)));
    assert!(tx.set_marker(&mut fs, Marker::RolledBack).is_ok());
    let marked = private_tree(&fs);
    assert!(matches!(tx.has_marker(&fs, Marker::RolledBack), Ok(true)));
    assert!(tx.set_marker(&mut fs, Marker::RolledBack).is_ok());
    assert_eq!(private_tree(&fs), marked);
    assert!(TxDir { name: "tx-none".to_string() }.set_marker(&mut fs, Marker::RolledBack).is_err());
}

#[test]
fn a_transaction_is_put_away_whole() {
    let mut fs = base();
    staged_only(&mut fs);
    let before = tree(&fs);
    let tx = TxDir { name: tx_name(&fs) };
    assert!(matches!(decide(&fs, &tx), Ok(Decision::Discard)));
    assert!(tx.gc(&mut fs).is_ok());
    assert!(fs.private_leftovers().is_empty());
    assert_eq!(tree(&fs), before);
    assert!(tx.gc(&mut fs).is_err());
}

#[test]
fn the_log_is_appended_to_only_if_it_is_there() {
    let mut fs = base();
    staged_only(&mut fs);
    let tx = TxDir { name: tx_name(&fs) };
    assert!(append_progress(&mut fs, &tx, Record::ApplyDone(0)).is_err());
    assert!(fs.create_file(&tx.progress(), b"", None).is_ok());
    assert!(append_progress(&mut fs, &tx, Record::ApplyDone(0)).is_ok());
    assert!(!fs.read_file(&tx.progress()).ok().unwrap().is_empty());
}

#[test]
fn a_tree_is_deleted_with_everything_below() {
    let mut fs = base();
    for p in [&b".fstx"[..], b".fstx/gc-1", b".fstx/gc-1/a", b".fstx/gc-1/a/b"] {
        fs.put_dir(p);
    }
    fs.put_file(b".fstx/gc-1/a/f", b"f");
    fs.put_symlink(b".fstx/gc-1/a/b/l");
    let before = tree(&fs);
    let top = RelPath::from_parts(vec![b".fstx".to_vec(), b"gc-1".to_vec()]);
    assert!(delete_tree(&mut fs, &top).is_ok());
    assert!(matches!(fs.stat(&top), Ok(None)));
    assert_eq!(tree(&fs), before);
    assert!(delete_tree(&mut fs, &top).is_ok());
}

/// A transaction directory whose journal cannot be read.
fn broken(fs: &mut SimFs) {
    for p in [&b".fstx"[..], b".fstx/tx-1"] {
        fs.put_dir(p);
    }
    fs.put_file(b".fstx/tx-1/journal", b"garbage");
    fs.put_dir(b".fstx/tx-2");
}

#[test]
fn one_uninterpretable_transaction_leaves_everything_untouched() {
    let mut fs = SimFs::new(SimConfig::default());
    broken(&mut fs);
    match recover_locked(&mut fs) {
        Err(Error::RecoveryRequired { tx, .. }) => assert_eq!(tx, "tx-1"),
        other => panic!("{}", other.is_ok()),
    }
    assert_eq!(fs.mutations(), 0);
    let left: Vec<String> = private_tree(&fs).into_keys().collect();
    assert_eq!(left, vec!["tx-1", "tx-1/journal", "tx-2"]);
    let shown = inspect_on(&fs).unwrap();
    assert_eq!(shown.transactions[0].action, RecoveryAction::RecoveryRequired);
    assert_eq!(shown.transactions[1].action, RecoveryAction::Discard);
}

#[test]
fn what_is_shown_is_what_recovery_does() {
    for (event, extra) in [("prepared", 0), ("prepared", 1), ("prepared", 3), ("prepared", 6), ("committed", 0)] {
        let (mut fs, _) = crash_after_event(event, extra);
        let shown = inspect_on(&fs).unwrap();
        let report = recover(&mut fs).unwrap();
        for t in &shown.transactions {
            let list = match t.action {
                RecoveryAction::Discard => &report.discarded,
                RecoveryAction::CleanUpCommitted => &report.completed,
                RecoveryAction::RollBack | RecoveryAction::CleanUpRolledBack => &report.rolled_back,
                RecoveryAction::RecoveryRequired => panic!("{}", t.name),
            };
            assert!(list.contains(&t.name), "{}", t.name);
        }
    }
}

#[test]
fn a_log_that_contradicts_the_tree_is_shown_as_refused() {
    let (mut fs, _) = crash_after_event("prepared", 0);
    let tx = TxDir { name: tx_name(&fs) };
    assert!(append_progress(&mut fs, &tx, Record::ApplyDone(0)).is_ok());
    let shown = inspect_on(&fs).unwrap();
    assert_eq!(shown.transactions[0].action, RecoveryAction::RecoveryRequired);
    assert!(shown.transactions[0].reason.is_some());
    assert!(matches!(recover(&mut fs), Err(Error::RecoveryRequired { .. })));
}

fn rel(p: &str) -> RelPath {
    RelPath::from_parts(p.split('/').map(|c| c.as_bytes().to_vec()).collect())
}

fn loc(p: &str, parent: u64) -> Loc {
    Loc { path: rel(p), parent: FileId { dev: 1, ino: parent } }
}

#[test]
fn before_the_first_wave_a_hard_link_does_not_confuse() {
    let mut fs = SimFs::new(SimConfig::default());
    fs.put_file(b"a", b"x");
    fs.put_hardlink(b"a", b"link");
    for p in [&b".fstx"[..], b".fstx/tx-1", b".fstx/tx-1/backup"] {
        fs.put_dir(p);
    }
    let id = FileId { dev: 1, ino: 2 };
    let plan = Plan {
        tokens: vec![
            Token { kind: Kind::File, id, locs: vec![loc("a", 1), loc(".fstx/tx-1/backup/0", 5)] },
            Token { kind: Kind::File, id, locs: vec![loc("link", 1), loc(".fstx/tx-1/backup/1", 5), loc("a", 1)] },
        ],
        waves: vec![],
    };
    let seen = classify(&fs, &plan).ok().unwrap();
    assert!(matches!(seen[..], [Ok(Pos::At(0)), Ok(Pos::At(0))]));
}

#[test]
fn what_leaves_a_moved_directory_leaves_on_its_own() {
    let mut fs = SimFs::new(SimConfig::default());
    fs.put_dir(b"d");
    fs.put_dir(b"d/s");
    fs.put_file(b"d/s/f", b"f");
    for p in [&b".fstx"[..], b".fstx/tx-1", b".fstx/tx-1/staged", b".fstx/tx-1/backup"] {
        fs.put_dir(p);
    }
    let mut ov = Overlay::new(FileId { dev: 1, ino: 1 }, false);
    assert!(ov.rename(&fs, &rel("d/s"), &rel("t")).is_ok());
    assert!(ov.remove(&fs, &rel("t/f")).is_ok());
    assert!(ov.remove_dir_all(&fs, &rel("d")).is_ok());
    let tx = TxDir { name: "tx-1".to_string() };
    let plan = compile(&mut fs, &ov, &tx, &IdTable::new()).ok().unwrap();
    let ways: Vec<(u64, Vec<String>)> = plan
        .tokens
        .iter()
        .map(|t| {
            let way = t.locs.iter().map(|l| String::from_utf8(l.path.to_path_buf()).unwrap()).collect();
            (t.id.ino, way)
        })
        .collect();
    let b = |k: u32| format!(".fstx/tx-1/backup/{k}");
    assert_eq!(
        ways,
        vec![
            (2, vec!["d".to_string(), b(0)]),
            (3, vec!["d/s".to_string(), b(1), "t".to_string()]),
            (4, vec!["d/s/f".to_string(), b(2)]),
        ]
    );
    let waves: Vec<Vec<(usize, usize)>> =
        plan.waves.iter().map(|w| w.iter().map(|s| (s.token, s.from)).collect()).collect();
    assert_eq!(waves, vec![vec![(2, 0)], vec![(1, 0)], vec![(0, 0)], vec![(1, 1)]]);
}

#[test]
fn the_tree_is_what_the_transaction_saw() {
    let mut fs = SimFs::new(SimConfig::default());
    fs.put_dir(b"d");
    fs.put_dir(b"d/s");
    fs.put_file(b"d/s/f", b"f");
    fs.put_file(b"d/s/g", b"g");
    let mut s = session();
    let mut tx = Transaction::begin_on(&mut fs, &Options::new(), &mut s).unwrap();
    tx.rename(b"d/s", b"t").unwrap();
    tx.remove(b"t/f").unwrap();
    tx.remove_dir_all(b"d").unwrap();
    assert!(!tx.path_exists(b"t/f").unwrap());
    assert!(tx.path_exists(b"t/g").unwrap());
    tx.commit().unwrap();
    let names: Vec<String> = tree(&fs).into_keys().collect();
    assert_eq!(names, vec!["t", "t/g"]);
}

#[test]
fn what_was_moved_written_and_removed_is_seen_and_committed() {
    let mut fs = SimFs::new(SimConfig::default());
    fs.put_dir(b"d");
    fs.put_dir(b"d/s");
    fs.put_file(b"d/s/f", b"f");
    fs.put_file(b"k", b"kept");
    let mut s = session();
    let mut tx = Transaction::begin_on(&mut fs, &Options::new(), &mut s).unwrap();
    tx.rename(b"d/s", b"t").unwrap();
    assert!(tx.path_exists(b"t/f").unwrap() && !tx.path_exists(b"d/s").unwrap());
    tx.write(b"t/f", b"new").unwrap();
    tx.rename(b"t", b"d/u").unwrap();
    assert_eq!(tx.read(b"d/u/f").unwrap(), b"new");
    assert!(!tx.path_exists(b"t").unwrap());
    tx.create_dir_all(b"n/m").unwrap();
    tx.create_dir_all(b"n/m").unwrap();
    assert!(tx.path_exists(b"n").unwrap() && tx.path_exists(b"n/m").unwrap());
    tx.commit().unwrap();
    let names: Vec<String> = tree(&fs).into_keys().collect();
    assert_eq!(names, vec!["d", "d/u", "d/u/f", "k", "n", "n/m"]);
    // Everything is durable: a power loss that drops all it may changes nothing.
    let before = tree(&fs);
    assert_eq!(tree(&fs.power_loss(&[], 0)), before);
}

#[test]
fn a_second_recovery_finds_nothing() {
    let mut fs = base();
    fs.put_dir(b".fstx");
    fs.put_dir(b".fstx/tx-1");
    fs.put_dir(b".fstx/probe-1-2");
    let mut s = session();
    let first = recover_on(&mut fs, &Options::new(), &mut s).unwrap();
    assert_eq!(first.discarded, vec!["tx-1".to_string()]);
    assert_eq!(first.garbage_removed, 1);
    let (seen, own) = (tree(&fs), private_tree(&fs));
    let second = recover_on(&mut fs, &Options::new(), &mut s).unwrap();
    assert!(second.rolled_back.is_empty() && second.completed.is_empty() && second.discarded.is_empty());
    assert_eq!(second.garbage_removed, 0);
    assert_eq!((tree(&fs), private_tree(&fs)), (seen, own));
}

#[test]
fn starting_on_a_root_where_nothing_was_interrupted_changes_nothing() {
    let mut fs = base();
    let before = tree(&fs);
    let mut s = session();
    let tx = Transaction::begin_on(&mut fs, &Options::new(), &mut s).unwrap();
    assert_eq!(tx.read(b"a").unwrap(), b"old");
    assert!(tx.recovered().rolled_back.is_empty() && tx.recovered().garbage_removed == 0);
    tx.discard();
    assert_eq!(tree(&fs), before);
}

#[test]
fn what_a_filesystem_lacks_is_reported() {
    for (noreplace, stable_ids, expected) in [
        (false, true, "no-replace rename (RENAME_NOREPLACE)"),
        (true, false, "file identities that are stable across rename"),
    ] {
        let mut fs = SimFs::new(SimConfig { noreplace, stable_ids, ..SimConfig::default() });
        let mut s = session();
        match Transaction::begin_on(&mut fs, &Options::new(), &mut s) {
            Err(Error::UnsupportedFilesystem { missing }) => assert_eq!(missing, vec![expected]),
            _ => panic!("a filesystem that lacks something was accepted"),
        };
    }
}

#[test]
fn counters_start_anew_after_a_power_loss() {
    let fs = base();
    let mut after = fs.power_loss(&[], 0);
    assert_eq!((after.calls(), after.mutations()), (0, 0));
    after.mkdir(&RelPath::from_parts(vec![b"n".to_vec()])).unwrap();
    assert_eq!((after.calls(), after.mutations()), (1, 1));
}
