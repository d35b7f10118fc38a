//! Transactions from the outside: staging, reading, committing, and errors.
use std::collections::{BTreeMap, BTreeSet};

use fstx::caps::{ProbeCache, Session};
use fstx::disk::{Fate, FileId, Kind};
use fstx::error::{Error, IoErrorKind, Reason};
use fstx::node;
use fstx::path::RelPath;
use fstx::pathmap::PathMap;
use fstx::recover::RecoveryReport;
use fstx::sim::{Profile, SimConfig, SimFs, TreeEntry};
use fstx::vfs::{Probe, Vfs};
use fstx::{inspect, recover, recover_with, Options, Transaction};

type Tree = BTreeMap<String, TreeEntry>;

fn text(map: PathMap<TreeEntry>) -> Tree {
    (0..map.len())
        .map(|i| (String::from_utf8_lossy(&map.key(i).to_path_buf()).into_owned(), map.value(i).clone()))
        .collect()
}

fn tree(fs: &SimFs) -> Tree {
    text(fs.tree())
}

fn session() -> Session {
    Session { nanos: 255, pid: 16, counter: 10, cache: ProbeCache::new() }
}

fn sim() -> SimFs {
    SimFs::new(SimConfig::default())
}

fn begin<'a>(fs: &'a mut SimFs) -> Transaction<'a, SimFs> {
    Transaction::begin_on(fs, &Options::new(), &mut session()).unwrap()
}

fn rel(s: &str) -> RelPath {
    RelPath::from_parts(s.split('/').map(|c| c.as_bytes().to_vec()).collect())
}

#[test]
fn commit_makes_all_changes_visible_at_once() {
    let mut fs = sim();
    fs.put_file(b"old.rs", b"old");
    fs.put_file(b"tmp.log", b"log");
    let before = tree(&fs);
    let mut tx = begin(&mut fs);
    tx.write(b"config.toml", b"v = 2").unwrap();
    tx.create_dir_all(b"src/gen").unwrap();
    tx.rename(b"old.rs", b"src/gen/new.rs").unwrap();
    tx.remove(b"tmp.log").unwrap();
    // Nothing visible before commit.
    assert_eq!(tree(tx.vfs), before);
    tx.commit().unwrap();
    let t = tree(&fs);
    assert_eq!(t["config.toml"].data, b"v = 2");
    assert_eq!(t["src/gen/new.rs"].data, b"old");
    assert!(!t.contains_key("old.rs"));
    assert!(!t.contains_key("tmp.log"));
    assert!(fs.private_leftovers().is_empty());
    assert!(fs.violations().is_empty());
    assert_eq!(fs.events(), &vec!["prepared", "committed"]);
}

#[test]
fn drop_discards_everything() {
    let mut fs = sim();
    fs.put_file(b"a", b"a");
    let before = tree(&fs);
    let mut tx = begin(&mut fs);
    tx.write(b"a", b"changed").unwrap();
    tx.write(b"b", b"new").unwrap();
    tx.remove(b"a").unwrap();
    tx.discard();
    assert_eq!(tree(&fs), before);
    assert!(fs.private_leftovers().is_empty());
}

#[test]
fn read_your_writes() {
    let mut fs = sim();
    fs.put_file(b"a", b"base");
    let mut tx = begin(&mut fs);
    assert_eq!(tx.read(b"a").unwrap(), b"base");
    tx.write(b"a", b"staged").unwrap();
    assert_eq!(tx.read(b"a").unwrap(), b"staged");
    tx.rename(b"a", b"b").unwrap();
    assert!(matches!(tx.read(b"a"), Err(Error::NotFound(_))));
    assert_eq!(tx.read(b"b").unwrap(), b"staged");
    assert!(!tx.path_exists(b"a").unwrap());
    assert!(tx.path_exists(b"b").unwrap());
}

#[test]
fn directory_move_is_one_rename_and_keeps_identity() {
    let mut fs = sim();
    fs.put_dir(b"a");
    fs.put_dir(b"a/b");
    fs.put_file(b"a/b/f", b"f");
    let before = tree(&fs);
    let mut tx = begin(&mut fs);
    tx.rename(b"a", b"z").unwrap();
    tx.write(b"z/b/g", b"g").unwrap();
    assert_eq!(tx.read(b"z/b/f").unwrap(), b"f");
    tx.commit().unwrap();
    let t = tree(&fs);
    assert_eq!(t["z"].ino, before["a"].ino);
    assert_eq!(t["z/b/f"].ino, before["a/b/f"].ino);
    assert_eq!(t["z/b/g"].data, b"g");
    assert!(!t.contains_key("a"));
}

#[test]
fn swapping_identical_files_swaps_identities() {
    let mut fs = sim();
    fs.put_file(b"a", b"same");
    fs.put_file(b"b", b"same");
    let before = tree(&fs);
    let mut tx = begin(&mut fs);
    tx.rename(b"a", b"tmp").unwrap();
    tx.rename(b"b", b"a").unwrap();
    tx.rename(b"tmp", b"b").unwrap();
    tx.commit().unwrap();
    let t = tree(&fs);
    assert_eq!(t["a"].ino, before["b"].ino);
    assert_eq!(t["b"].ino, before["a"].ino);
}

#[test]
fn round_trip_rename_is_a_no_op() {
    let mut fs = sim();
    fs.put_file(b"a", b"a");
    let before = tree(&fs);
    let mut tx = begin(&mut fs);
    tx.rename(b"a", b"t").unwrap();
    tx.rename(b"t", b"a").unwrap();
    tx.commit().unwrap();
    assert_eq!(tree(&fs), before);
    // Nothing was even prepared.
    assert!(fs.events().is_empty());
}

#[test]
fn hard_links_elsewhere_keep_their_content() {
    let mut fs = sim();
    fs.put_file(b"a", b"v1");
    fs.put_hardlink(b"a", b"link");
    let mut tx = begin(&mut fs);
    tx.write(b"a", b"v2").unwrap();
    tx.commit().unwrap();
    let t = tree(&fs);
    assert_eq!(t["a"].data, b"v2");
    assert_eq!(t["link"].data, b"v1");
}

#[test]
fn replaced_file_keeps_its_permissions() {
    let mut fs = sim();
    let mut tx = begin(&mut fs);
    tx.write_with_mode(b"s.sh", b"old", 0o750).unwrap();
    tx.commit().unwrap();
    let mut tx = begin(&mut fs);
    tx.write(b"s.sh", b"new").unwrap();
    tx.commit().unwrap();
    assert_eq!(fs.stat(&rel("s.sh")).unwrap().unwrap().mode, 0o750);
    // Only the lower 12 bits are used.
    let mut tx = begin(&mut fs);
    tx.write_with_mode(b"s.sh", b"again", 0o100_644).unwrap();
    tx.commit().unwrap();
    assert_eq!(fs.stat(&rel("s.sh")).unwrap().unwrap().mode, 0o644);
}

#[test]
fn remove_dir_all_and_errors() {
    let mut fs = sim();
    fs.put_dir(b"d");
    fs.put_dir(b"d/e");
    fs.put_file(b"d/e/f", b"f");
    fs.put_file(b"file", b"x");
    let mut tx = begin(&mut fs);
    assert!(matches!(tx.remove(b"d"), Err(Error::DirectoryNotEmpty(_))));
    assert!(matches!(tx.rename(b"d", b"file"), Err(Error::AlreadyExists(_))));
    assert!(matches!(tx.rename(b"d", b"d/e/x"), Err(Error::InvalidMove { .. })));
    assert!(matches!(tx.write(b"file/x", b"y"), Err(Error::NotADirectory(_))));
    assert!(matches!(tx.write(b"d", b"y"), Err(Error::IsADirectory(_))));
    assert!(matches!(tx.write(b".fstx/x", b"y"), Err(Error::InvalidPath { .. })));
    tx.remove_dir_all(b"d").unwrap();
    tx.commit().unwrap();
    assert!(!tree(&fs).contains_key("d"));
    assert!(fs.private_leftovers().is_empty());
}

#[test]
fn empty_commit_and_inspect() {
    let mut fs = sim();
    begin(&mut fs).commit().unwrap();
    let insp = inspect(&fs).unwrap();
    assert!(insp.transactions.is_empty());
    assert!(recover(&mut fs, &mut session()).unwrap().rolled_back.is_empty());
}

#[test]
fn non_utf8_names() {
    let mut fs = sim();
    let mut tx = begin(&mut fs);
    tx.write(b"caf\xe9", b"x").unwrap();
    tx.commit().unwrap();
    assert_eq!(fs.read_file(&RelPath::from_parts(vec![b"caf\xe9".to_vec()])).unwrap(), b"x");
}

#[test]
fn lexically_invalid_paths_are_rejected() {
    let mut fs = sim();
    let mut tx = begin(&mut fs);
    for bad in ["", "/etc/passwd", "../escape", "a/../../b", ".fstx/lock", ".FSTX/x"] {
        assert!(matches!(tx.write(bad.as_bytes(), b"x"), Err(Error::InvalidPath { .. })), "{bad:?}");
        assert!(matches!(tx.rename(b"a", bad.as_bytes()), Err(Error::InvalidPath { .. })), "{bad:?}");
    }
}

#[test]
fn symlinked_directory_component_is_never_followed() {
    let mut fs = sim();
    fs.put_symlink(b"link");
    let mut tx = begin(&mut fs);
    assert!(tx.write(b"link/pwned", b"x").is_err());
    assert!(tx.create_dir_all(b"link/sub").is_err());
    assert!(tx.read(b"link/anything").is_err());
    tx.commit().unwrap();
    assert_eq!(tree(&fs).len(), 1);
}

#[test]
fn symlink_targets_are_refused() {
    let mut fs = sim();
    fs.put_symlink(b"sym");
    let mut tx = begin(&mut fs);
    assert!(matches!(tx.write(b"sym", b"x"), Err(Error::UnsupportedFileType(_))));
    assert!(matches!(tx.remove(b"sym"), Err(Error::UnsupportedFileType(_))));
    assert!(matches!(tx.rename(b"sym", b"t"), Err(Error::UnsupportedFileType(_))));
    assert!(matches!(tx.read(b"sym"), Err(Error::UnsupportedFileType(_))));
    tx.discard();
}

#[test]
fn private_dir_replaced_by_symlink_is_refused() {
    let mut fs = sim();
    fs.put_symlink(b".fstx");
    let mut s = session();
    match Transaction::begin_on(&mut fs, &Options::new(), &mut s) {
        Err(Error::UnsupportedFileType(p)) => assert!(p.same(&rel(".fstx"))),
        _ => panic!("accepted"),
    };
}

#[test]
fn transactions_are_named_by_time_process_and_counter() {
    let mut fs = sim();
    let tx = begin(&mut fs);
    std::mem::forget(tx);
    assert!(text(fs.private_tree()).contains_key("tx-ff-10-a"));
    let r = recover_with(&mut fs, &Options::new().allow_untested_fs(true), &mut session()).unwrap();
    assert_eq!(r.discarded, vec!["tx-ff-10-a".to_string()]);
}

#[test]
fn an_outside_change_is_a_conflict() {
    let mut fs = sim();
    fs.put_file(b"a", b"a");
    let mut tx = begin(&mut fs);
    tx.rename(b"a", b"b").unwrap();
    tx.vfs.put_file(b"a", b"somebody else");
    match tx.commit() {
        Err(Error::Conflict(p)) => assert!(p.same(&rel("a"))),
        other => panic!("{other:?}"),
    }
    assert_eq!(tree(&fs)["a"].data, b"somebody else");
    assert!(fs.private_leftovers().is_empty());
}

#[test]
fn a_failing_disk_rolls_back_or_leaves_the_decision_to_recovery() {
    let mut reference = sim();
    reference.put_file(b"a", b"old");
    let before = tree(&reference);
    let mut tx = begin(&mut reference);
    tx.write(b"a", b"new").unwrap();
    tx.commit().unwrap();
    let total = reference.calls();
    let mut seen = BTreeSet::new();
    for i in 0..total {
        let mut fs = sim();
        fs.put_file(b"a", b"old");
        fs.crash_after(i);
        let mut s = session();
        let r = match Transaction::begin_on(&mut fs, &Options::new(), &mut s) {
            Ok(mut tx) => match tx.write(b"a", b"new") {
                Ok(()) => tx.commit(),
                Err(e) => Err(e),
            },
            Err(e) => Err(e),
        };
        if let Err(e) = r {
            seen.insert(node::code_of(&e));
        }
        let mut fs = fs.process_kill();
        recover(&mut fs, &mut Session { nanos: 1, ..session() }).unwrap();
        let now = tree(&fs);
        assert!(now == before || now["a"].data == b"new");
    }
    for code in ["IO", "ROLLBACK_FAILED", "COMMIT_OUTCOME_UNKNOWN"] {
        assert!(seen.contains(code), "{seen:?}");
    }
}

#[test]
fn errors_in_words_and_codes() {
    let cases = [
        (Error::NotFound(rel("a/b")), "NOT_FOUND", "not found: \"a/b\""),
        (Error::AlreadyExists(rel("a")), "ALREADY_EXISTS", "already exists: \"a\""),
        (Error::NotADirectory(rel("a")), "NOT_A_DIRECTORY", "not a directory: \"a\""),
        (Error::IsADirectory(rel("a")), "IS_A_DIRECTORY", "is a directory: \"a\""),
        (Error::DirectoryNotEmpty(rel("a")), "DIRECTORY_NOT_EMPTY", "directory not empty: \"a\""),
        (
            Error::UnsupportedFileType(rel("a")),
            "UNSUPPORTED_FILE_TYPE",
            "unsupported file type at \"a\" (symlinks and special files are out of scope)",
        ),
        (
            Error::InvalidMove { from: rel("a"), to: rel("a/b") },
            "INVALID_MOVE",
            "cannot move \"a\" into its own subtree \"a/b\"",
        ),
        (
            Error::CaseCollision { path: rel("A"), existing: rel("a") },
            "CASE_COLLISION",
            "\"A\" collides with existing entry \"a\" on a case-insensitive filesystem",
        ),
        (Error::Conflict(rel("a")), "CONFLICT", "\"a\" was changed outside the transaction"),
        (
            Error::UnsupportedFilesystem { missing: vec!["x", "y"] },
            "UNSUPPORTED_FILESYSTEM",
            "unsupported filesystem: missing [\"x\", \"y\"]",
        ),
        (Error::UnsupportedPlatform, "UNSUPPORTED_PLATFORM", "fstx v0.1 only has a Linux backend"),
        (
            Error::RecoveryRequired { tx: "tx-1".to_string(), reason: Reason::NoChecksum },
            "RECOVERY_REQUIRED",
            "recovery required for tx-1: journal has no checksum",
        ),
        (
            Error::InvalidPath { path: b"/x\"".to_vec(), reason: "must be relative" },
            "INVALID_PATH",
            "invalid path \"/x\\\"\": must be relative",
        ),
    ];
    for (e, code, words) in cases {
        assert_eq!(node::code_of(&e), code);
        assert_eq!(e.text(), words);
        assert_eq!(node::js_err(&e), format!("[{code}] {words}"));
    }
    let nested = Error::RollbackFailed {
        cause: Box::new(Error::UnsupportedPlatform),
        rollback: Box::new(Error::NotFound(rel("a"))),
    };
    assert_eq!(
        nested.text(),
        "commit failed (fstx v0.1 only has a Linux backend) and rollback failed (not found: \"a\"); run fstx::recover"
    );
    assert_eq!(
        Reason::TokenSeveral { id: FileId { dev: 1, ino: 2 }, hits: vec![0, 2] }.text(),
        "token FileId { dev: 1, ino: 2 } found at several locations [0, 2]"
    );
    assert_eq!(
        Reason::ParentNotInPlace { wave: 3, path: rel("a/b") }.text(),
        "wave 3: parent \"a\" of \"a/b\" not in place yet"
    );
}

#[test]
fn plain_values_for_scripts() {
    assert!(node::finished().starts_with("[TRANSACTION_FINISHED] "));
    let none = node::commit_outcome(None);
    assert_eq!(none.code.as_deref(), Some("TRANSACTION_FINISHED"));
    assert!(node::commit_outcome(Some(Ok(()))).ok);
    let failed = node::commit_outcome(Some(Err(Error::NotFound(rel("x")))));
    assert_eq!(failed.code.as_deref(), Some("NOT_FOUND"));
    assert_eq!(failed.message.as_deref(), Some("not found: \"x\""));
    assert!(!node::opts(None).allow_untested());
    assert!(!node::opts(Some(node::BeginOptions::default())).allow_untested());
    assert!(node::opts(Some(node::BeginOptions { allow_untested_fs: Some(true) })).allow_untested());
    assert_eq!(node::garbage_count(&RecoveryReport::default()), 0);
    let mut fs = sim();
    let mut tx = begin(&mut fs);
    node::write(&mut tx, "f", b"x", Some(node::WriteOptions { mode: Some(0o700) })).unwrap();
    node::write(&mut tx, "g", b"y", None).unwrap();
    tx.commit().unwrap();
    assert_eq!(fs.stat(&rel("f")).unwrap().unwrap().mode, 0o700);
    assert_eq!(fs.stat(&rel("g")).unwrap().unwrap().mode, 0o644);
    let tx = begin(&mut fs);
    std::mem::forget(tx);
    let all = node::summaries(&inspect(&fs).unwrap());
    assert_eq!(all.len(), 1);
    assert_eq!(all[0].action, "Discard");
    assert_eq!((all[0].reason.is_none(), all[0].entries), (true, 0));
}

/// A directory entry of the reference model: what it holds and which base inode it is.
#[derive(Clone, Debug)]
enum Node {
    File { data: Vec<u8>, tag: Option<u64> },
    Dir { tag: Option<u64> },
}

type Model = BTreeMap<String, Node>;

#[derive(Clone, Debug)]
enum Op {
    Write(String, u8),
    Mkdirs(String),
    Rename(String, String),
    Remove(String),
    RemoveAll(String),
    Read(String),
}

fn under(p: &str, dir: &str) -> bool {
    p.len() > dir.len() && p.starts_with(dir) && p.as_bytes()[dir.len()] == b'/'
}

fn parent_is_dir(m: &Model, p: &str) -> bool {
    match p.rfind('/') {
        None => true,
        Some(i) => matches!(m.get(&p[..i]), Some(Node::Dir { .. })),
    }
}

/// Applies `op` to the model; `Err` if the transaction must reject it.
fn apply(m: &mut Model, op: &Op) -> Result<Option<Vec<u8>>, ()> {
    match op {
        Op::Write(p, b) => {
            if !parent_is_dir(m, p) || matches!(m.get(p), Some(Node::Dir { .. })) {
                return Err(());
            }
            m.insert(p.clone(), Node::File { data: vec![*b; 3], tag: None });
        }
        Op::Mkdirs(p) => {
            let parts: Vec<&str> = p.split('/').collect();
            for i in 1..=parts.len() {
                let q = parts[..i].join("/");
                match m.get(&q) {
                    Some(Node::Dir { .. }) => {}
                    Some(Node::File { .. }) => return Err(()),
                    None => {
                        m.insert(q, Node::Dir { tag: None });
                    }
                }
            }
        }
        Op::Rename(f, t) => {
            if !m.contains_key(f) {
                return Err(());
            }
            if f == t {
                return Ok(None);
            }
            if under(t, f) || !parent_is_dir(m, t) || m.contains_key(t) {
                return Err(());
            }
            let moved: Vec<String> = m.keys().filter(|k| *k == f || under(k, f)).cloned().collect();
            for k in moved {
                let n = m.remove(&k).unwrap();
                m.insert(format!("{t}{}", &k[f.len()..]), n);
            }
        }
        Op::Remove(p) => match m.get(p) {
            None => return Err(()),
            Some(Node::Dir { .. }) if m.keys().any(|k| under(k, p)) => return Err(()),
            Some(_) => {
                m.remove(p);
            }
        },
        Op::RemoveAll(p) => match m.get(p) {
            Some(Node::Dir { .. }) => m.retain(|k, _| k != p && !under(k, p)),
            _ => return Err(()),
        },
        Op::Read(p) => {
            return match m.get(p) {
                Some(Node::File { data, .. }) => Ok(Some(data.clone())),
                _ => Err(()),
            };
        }
    }
    Ok(None)
}

fn perform(tx: &mut Transaction<SimFs>, op: &Op) -> fstx::Result<Option<Vec<u8>>> {
    match op {
        Op::Write(p, b) => tx.write(p.as_bytes(), &[*b; 3]).map(|_| None),
        Op::Mkdirs(p) => tx.create_dir_all(p.as_bytes()).map(|_| None),
        Op::Rename(f, t) => tx.rename(f.as_bytes(), t.as_bytes()).map(|_| None),
        Op::Remove(p) => tx.remove(p.as_bytes()).map(|_| None),
        Op::RemoveAll(p) => tx.remove_dir_all(p.as_bytes()).map(|_| None),
        Op::Read(p) => tx.read(p.as_bytes()).map(Some),
    }
}

fn model_base() -> (SimFs, Model) {
    let mut fs = sim();
    fs.put_dir(b"a");
    fs.put_file(b"a/b", b"ab");
    fs.put_dir(b"a/c");
    fs.put_file(b"a/c/a", b"aca");
    fs.put_file(b"b", b"b");
    fs.put_hardlink(b"b", b"a/l");
    fs.put_dir(b"c");
    let mut m = Model::new();
    for (path, e) in tree(&fs) {
        let node = match e.kind {
            Kind::Dir => Node::Dir { tag: Some(e.ino) },
            _ => Node::File { data: e.data, tag: Some(e.ino) },
        };
        m.insert(path, node);
    }
    (fs, m)
}

/// Random operation sequences against the library and against a small reference model that
/// tracks identities, not just bytes. Accept and reject decisions, reads, and the committed
/// tree must match exactly.
#[test]
fn fstx_matches_identity_model() {
    let mut seed = 0x2545_F491_4F6C_DD1Du64;
    let mut rnd = move |n: usize| {
        seed ^= seed << 13;
        seed ^= seed >> 7;
        seed ^= seed << 17;
        (seed % n as u64) as usize
    };
    for _ in 0..2000 {
        let (mut fs, mut model) = model_base();
        let base_inos: BTreeSet<u64> = tree(&fs).values().map(|e| e.ino).collect();
        let mut ops = Vec::new();
        for _ in 0..1 + rnd(9) {
            let mut path = || {
                let n = 1 + rnd(3);
                (0..n).map(|_| ["a", "b", "c", "l"][rnd(4)]).collect::<Vec<_>>().join("/")
            };
            let (p, q) = (path(), path());
            ops.push(match rnd(13) {
                0..=2 => Op::Write(p, rnd(256) as u8),
                3 => Op::Mkdirs(p),
                4..=7 => Op::Rename(p, q),
                8..=9 => Op::Remove(p),
                10 => Op::RemoveAll(p),
                _ => Op::Read(p),
            });
        }
        let mut tx = begin(&mut fs);
        for (i, op) in ops.iter().enumerate() {
            let want = apply(&mut model, op);
            let got = perform(&mut tx, op);
            assert_eq!(want.is_ok(), got.is_ok(), "op {i} {op:?}: model {want:?} library {got:?}");
            if let (Ok(Some(w)), Ok(Some(g))) = (&want, &got) {
                assert_eq!(w, g);
            }
        }
        if let Err(e) = tx.commit() {
            panic!("{ops:?}: {}", e.text());
        }
        let t = tree(&fs);
        assert_eq!(t.keys().collect::<Vec<_>>(), model.keys().collect::<Vec<_>>(), "{ops:?}");
        for (p, node) in &model {
            let e = &t[p];
            let tag = match node {
                Node::Dir { tag } => {
                    assert_eq!(e.kind, Kind::Dir);
                    tag
                }
                Node::File { data, tag } => {
                    assert_eq!(e.kind, Kind::File);
                    assert_eq!(&e.data, data, "content at {p}");
                    tag
                }
            };
            match tag {
                Some(x) => assert_eq!(e.ino, *x, "identity at {p}"),
                None => assert!(!base_inos.contains(&e.ino), "new entry at {p} reuses a base inode"),
            }
        }
        assert!(fs.private_leftovers().is_empty());
        assert!(fs.violations().is_empty());
    }
}

/// Whatever the path, nothing ever lands in the private directory.
#[test]
fn no_path_reaches_the_private_directory() {
    let parts: [&[u8]; 8] = [b".fstx", b".FsTx", b"..", b".", b"", b"a", b"\xff", b"lock"];
    for x in parts {
        for y in parts {
            let mut fs = sim();
            let path = [x, b"/", y].concat();
            let mut tx = begin(&mut fs);
            let _ = tx.write(&path, b"x");
            let _ = tx.create_dir_all(&path);
            let _ = tx.commit();
            assert!(fs.private_leftovers().is_empty(), "{path:?}");
        }
    }
}

#[test]
fn the_simulator_keeps_what_is_synced() {
    let mut fs = SimFs::new(SimConfig { profile: Profile::Weak, ..SimConfig::default() });
    fs.create_file(&rel("f"), b"one", None).unwrap();
    assert_eq!(fs.volatile_ops(), vec![false]);
    assert_eq!(fs.durable().tree().len(), 0);
    fs.sync_dir(&RelPath::root()).unwrap();
    assert!(fs.volatile_ops().is_empty());
    // The name is durable, the content is not.
    assert_eq!(tree(&fs.power_loss(&[], 0))["f"].data, b"");
    assert_eq!(tree(&fs.power_loss(&[], 1))["f"].data, b"one");
    assert_eq!(tree(&fs.power_loss(&[], 2))["f"].data, b"o");
    assert_eq!(tree(&fs.power_loss(&[], 3))["f"].data, vec![b'o' ^ 0x5a, b'n' ^ 0x5a, b'e' ^ 0x5a]);
    fs.sync_file(&rel("f")).unwrap();
    fs.append(&rel("f"), b"+two").unwrap();
    assert_eq!(tree(&fs.power_loss(&[], 0))["f"].data, b"one");
    assert_eq!(tree(&fs.power_loss(&[], 2))["f"].data, b"one+t");
    // A rename may come out three ways.
    fs.rename_noreplace(&rel("f"), None, &rel("g"), None).unwrap();
    assert_eq!(fs.volatile_ops(), vec![true]);
    let names = |f: Fate| tree(&fs.power_loss(&[f], 0)).into_keys().collect::<Vec<_>>();
    assert_eq!(names(Fate::Drop), vec!["f"]);
    assert_eq!(names(Fate::Apply), vec!["g"]);
    assert_eq!(names(Fate::BothNames), vec!["f", "g"]);
}

#[test]
fn the_simulator_refuses_what_a_filesystem_refuses() {
    let mut fs = sim();
    fs.put_dir(b"d");
    fs.put_dir(b"d/e");
    fs.put_file(b"f", b"x");
    fs.put_symlink(b"s");
    let kind = |r: fstx::error::IoResult<()>| r.unwrap_err().kind;
    assert_eq!(kind(fs.rename_noreplace(&rel("d"), None, &rel("f"), None)), IoErrorKind::AlreadyExists);
    assert_eq!(kind(fs.rename_noreplace(&rel("d"), None, &rel("d/e/x"), None)), IoErrorKind::InvalidInput);
    assert_eq!(kind(fs.rename_noreplace(&rel("x"), None, &rel("y"), None)), IoErrorKind::NotFound);
    assert_eq!(
        kind(fs.rename_noreplace(&rel("f"), Some(FileId { dev: 1, ino: 99 }), &rel("y"), None)),
        IoErrorKind::ParentMismatch
    );
    assert_eq!(kind(fs.unlink(&rel("d"), None)), IoErrorKind::IsADirectory);
    assert_eq!(kind(fs.rmdir(&rel("d"))), IoErrorKind::DirectoryNotEmpty);
    assert_eq!(kind(fs.rmdir(&rel("f"))), IoErrorKind::NotADirectory);
    assert_eq!(kind(fs.append(&rel("s"), b"x")), IoErrorKind::InvalidInput);
    assert_eq!(fs.mkdir(&rel("f/x")).unwrap_err().kind, IoErrorKind::NotADirectory);
    assert_eq!(fs.mkdir(&rel("s/x")).unwrap_err().kind, IoErrorKind::InvalidInput);
    assert_eq!(fs.create_file(&rel("f"), b"", None).unwrap_err().kind, IoErrorKind::AlreadyExists);
    assert!(fs.stat(&rel("f/x")).unwrap().is_none());
    assert_eq!(fs.stat(&rel("s/x")).unwrap_err().kind, IoErrorKind::InvalidInput);
    let root = fs.root_id().unwrap();
    assert!(matches!(fs.probe(&rel("f"), root), Ok(Probe::Present(_))));
    assert!(matches!(fs.probe(&rel("g"), root), Ok(Probe::Missing)));
    assert!(matches!(fs.probe(&rel("d/e"), root), Ok(Probe::ParentMismatch)));
    fs.crash_after(0);
    assert_eq!(fs.mkdir(&rel("n")).unwrap_err().kind, IoErrorKind::Other);
    assert!(fs.crashed());
    assert!(fs.stat(&rel("f")).is_err());
}

#[test]
fn reusing_a_name_too_early_is_flagged() {
    let mut fs = sim();
    fs.put_file(b"f", b"x");
    fs.unlink(&rel("f"), None).unwrap();
    fs.create_file(&rel("f"), b"y", None).unwrap();
    assert_eq!(fs.violations().len(), 1);
    let mut fs = sim();
    fs.put_file(b"f", b"x");
    fs.unlink(&rel("f"), None).unwrap();
    fs.sync_dir(&RelPath::root()).unwrap();
    fs.create_file(&rel("f"), b"y", None).unwrap();
    assert!(fs.violations().is_empty());
}
