//! Change sets: what they ask for, when they are refused, and copying trees.
use std::collections::BTreeMap;

use fstx::caps::{ProbeCache, Session};
use fstx::changes::{
    check_expectations, is_excluded, sha256_hex, stage, stage_sync, ChangeSet, Done, Expect, FailKind, Failure,
    FromFile, Op, SourceEntry, SourceKind, SyncWalk,
};
use fstx::edits::{count_matches, parse_mode, replace_all};
use fstx::error::{Error, IoError, IoErrorKind};
use fstx::path::RelPath;
use fstx::sim::{SimConfig, SimFs};
use fstx::vfs::Vfs;
use fstx::{Options, Transaction};

fn session() -> Session {
    Session { nanos: 1, pid: 2, counter: 3, cache: ProbeCache::new() }
}

fn tree(fs: &SimFs) -> BTreeMap<String, String> {
    let map = fs.tree();
    (0..map.len())
        .map(|i| {
            let name = String::from_utf8(map.key(i).to_path_buf()).unwrap();
            let e = map.value(i);
            let is_dir = matches!(e.kind, fstx::disk::Kind::Dir);
            (name, if is_dir { "<dir>".to_string() } else { String::from_utf8_lossy(&e.data).into_owned() })
        })
        .collect()
}

fn rel(s: &str) -> RelPath {
    RelPath::from_parts(s.split('/').map(|c| c.as_bytes().to_vec()).collect())
}

fn seed() -> SimFs {
    let mut fs = SimFs::new(SimConfig::default());
    fs.put_file(b"app.toml", b"name = \"demo\"\nversion = 1\n");
    fs.put_file(b"old.txt", b"old");
    fs.put_dir(b"cache");
    fs.put_file(b"cache/x", b"x");
    fs
}

fn write(path: &str, content: &str) -> Op {
    Op::Write {
        path: path.to_string(),
        content: Some(content.to_string()),
        content_base64: None,
        from_file: None,
        mode: None,
    }
}

fn replace(path: &str, find: &str, with: &str, count: usize) -> Op {
    Op::Replace {
        path: path.to_string(),
        find: find.to_string(),
        replace: with.to_string(),
        count,
    }
}

fn mkdir(path: &str) -> Op {
    Op::Mkdir { path: path.to_string() }
}

fn rename(from: &str, to: &str) -> Op {
    Op::Rename { from: from.to_string(), to: to.to_string() }
}

fn base64(path: &str, text: &str) -> Op {
    Op::Write {
        path: path.to_string(),
        content: None,
        content_base64: Some(text.to_string()),
        from_file: None,
        mode: None,
    }
}

fn with_mode(path: &str, content: &str, mode: &str) -> Op {
    Op::Write {
        path: path.to_string(),
        content: Some(content.to_string()),
        content_base64: None,
        from_file: None,
        mode: Some(mode.to_string()),
    }
}

fn run(fs: &mut SimFs, expect: Vec<(String, Expect)>, ops: Vec<Op>) -> Result<Vec<Done>, Failure> {
    let mut s = session();
    let mut tx = Transaction::begin_on(fs, &Options::new(), &mut s)
        .map_err(|e| Failure::from_fstx(None, e))?;
    match stage(&mut tx, &ChangeSet { expect, ops }) {
        Ok(done) => {
            tx.commit().map_err(|e| Failure::from_fstx(None, e))?;
            Ok(done)
        }
        Err(f) => {
            tx.discard();
            Err(f)
        }
    }
}

#[test]
fn applies_every_op_together() {
    let mut fs = seed();
    let before = tree(&fs);
    // A rename into a missing directory is refused: nothing applied.
    let f = run(
        &mut fs,
        vec![],
        vec![
            replace("app.toml", "version = 1", "version = 2", 1),
            mkdir("bin"),
            with_mode("bin/run.sh", "echo run\n", "755"),
            base64("logo.bin", "AAEC"),
            rename("old.txt", "archive/old.txt"),
        ],
    )
    .unwrap_err();
    assert_eq!(f.kind.exit_code(), 1);
    assert_eq!(f.op, Some(4));
    assert_eq!(tree(&fs), before);

    let done = run(
        &mut fs,
        vec![],
        vec![
            replace("app.toml", "version = 1", "version = 2", 1),
            mkdir("bin"),
            with_mode("bin/run.sh", "echo run\n", "755"),
            base64("logo.bin", "AAEC"),
            mkdir("archive"),
            rename("old.txt", "archive/old.txt"),
            Op::RemoveAll { path: "cache".to_string() },
        ],
    )
    .unwrap();
    assert_eq!(done.len(), 7);
    assert_eq!(
        done.iter().map(|d| d.op).collect::<Vec<_>>(),
        vec!["replace", "mkdir", "write", "write", "mkdir", "rename", "remove_all"]
    );
    assert_eq!(done[5].to.as_deref(), Some("archive/old.txt"));
    let t = tree(&fs);
    assert_eq!(t["app.toml"], "name = \"demo\"\nversion = 2\n");
    assert_eq!(fs.stat(&rel("bin/run.sh")).unwrap().unwrap().mode & 0o777, 0o755);
    assert_eq!(fs.read_file(&rel("logo.bin")).unwrap(), vec![0, 1, 2]);
    assert_eq!(t["archive/old.txt"], "old");
    assert!(!t.contains_key("cache"));
    assert!(fs.private_leftovers().is_empty());
}

#[test]
fn any_failure_changes_nothing() {
    let bad_digest = Expect { exists_there: None, sha256: Some("00".to_string()) };
    let must_not_exist = Expect { exists_there: Some(false), sha256: None };
    let must_exist = Expect { exists_there: Some(true), sha256: None };
    let absent_digest = Expect { exists_there: None, sha256: Some("00".to_string()) };
    let nothing = Op::Write {
        path: "a".to_string(),
        content: None,
        content_base64: None,
        from_file: None,
        mode: None,
    };
    let two = Op::Write {
        path: "a".to_string(),
        content: Some("x".to_string()),
        content_base64: Some("eA==".to_string()),
        from_file: None,
        mode: None,
    };
    let unreadable = Op::Write {
        path: "a".to_string(),
        content: None,
        content_base64: None,
        from_file: Some(FromFile { name: "p".to_string(), content: Err("gone".to_string()) }),
        mode: None,
    };
    let cases: Vec<(Vec<(String, Expect)>, Vec<Op>, i32)> = vec![
        (vec![], vec![write("new", "n"), Op::Remove { path: "missing".to_string() }], 1),
        (vec![], vec![write("new", "n"), replace("app.toml", "nope", "x", 1)], 1),
        (vec![], vec![replace("app.toml", "\n", ";", 1)], 1),
        (vec![("app.toml".to_string(), bad_digest)], vec![write("app.toml", "x")], 1),
        (vec![("old.txt".to_string(), must_not_exist)], vec![write("old.txt", "x")], 1),
        (vec![("none".to_string(), must_exist)], vec![write("old.txt", "x")], 1),
        (vec![("none".to_string(), absent_digest)], vec![write("old.txt", "x")], 1),
        (vec![], vec![write("../escape", "x")], 1),
        (vec![], vec![write(".fstx/x", "x")], 1),
        (vec![], vec![unreadable], 1),
        (vec![], vec![nothing], 2),
        (vec![], vec![two], 2),
        (vec![], vec![with_mode("a", "x", "999")], 2),
        (vec![], vec![base64("a", "not base64!")], 2),
        (vec![], vec![replace("app.toml", "", "x", 1)], 2),
    ];
    for (i, (expect, ops, code)) in cases.into_iter().enumerate() {
        let mut fs = seed();
        let before = tree(&fs);
        let f = run(&mut fs, expect, ops).unwrap_err();
        assert_eq!(f.kind.exit_code(), code, "case {i}: {}", f.message);
        assert_eq!(tree(&fs), before, "case {i} changed the tree");
    }
}

#[test]
fn matching_precondition_applies() {
    let mut fs = seed();
    let digest = sha256_hex(b"name = \"demo\"\nversion = 1\n");
    run(
        &mut fs,
        vec![
            ("app.toml".to_string(), Expect { exists_there: Some(true), sha256: Some(digest.to_uppercase()) }),
            ("new.txt".to_string(), Expect { exists_there: Some(false), sha256: None }),
        ],
        vec![replace("app.toml", "demo", "prod", 1), write("new.txt", "n")],
    )
    .unwrap();
    assert!(tree(&fs)["app.toml"].contains("prod"));
}

#[test]
fn dry_run_changes_nothing() {
    let mut fs = seed();
    let before = tree(&fs);
    let mut s = session();
    let mut tx = Transaction::begin_on(&mut fs, &Options::new(), &mut s).unwrap();
    let done = stage(
        &mut tx,
        &ChangeSet {
            expect: vec![],
            ops: vec![Op::RemoveAll { path: "cache".to_string() }, write("n", "n")],
        },
    )
    .unwrap();
    assert_eq!(done.len(), 2);
    tx.discard();
    assert_eq!(tree(&fs), before);
}

#[test]
fn from_file_is_relative_to_the_change_set() {
    let mut fs = seed();
    let op = Op::Write {
        path: "p.txt".to_string(),
        content: None,
        content_base64: None,
        from_file: Some(FromFile { name: "payload.txt".to_string(), content: Ok(b"payload".to_vec()) }),
        mode: None,
    };
    run(&mut fs, vec![], vec![op]).unwrap();
    assert_eq!(tree(&fs)["p.txt"], "payload");
}

fn dir(name: &str) -> SourceEntry {
    SourceEntry { name: name.as_bytes().to_vec(), kind: SourceKind::Dir }
}

fn file(name: &str, data: &str, mode: Option<u32>) -> SourceEntry {
    SourceEntry {
        name: name.as_bytes().to_vec(),
        kind: SourceKind::File { data: data.as_bytes().to_vec(), mode },
    }
}

fn listing(dir_name: &[u8]) -> Vec<SourceEntry> {
    match dir_name {
        b"" => vec![
            dir(".config"),
            SourceEntry { name: b"link".to_vec(), kind: SourceKind::Other },
            file("install.sh", "#!/bin/sh\n", Some(0o100_755)),
            file(".bashrc", "alias ll='ls -l'\n", None),
            dir(".git"),
        ],
        b".config" => vec![dir("app")],
        b".config/app" => vec![file("settings.json", "{}", Some(0o644))],
        other => panic!("{other:?} was read"),
    }
}

#[test]
fn sync_copies_a_dotfiles_tree_atomically() {
    let mut fs = SimFs::new(SimConfig::default());
    fs.put_file(b".bashrc", b"old");
    fs.put_dir(b".config");
    fs.put_file(b".config/keep", b"untouched");
    let exclude = vec![".git".to_string()];
    assert!(is_excluded(&exclude, b".git") && !is_excluded(&exclude, b"git"));
    let mut s = session();
    let mut tx = Transaction::begin_on(&mut fs, &Options::new(), &mut s).unwrap();
    let mut walk = SyncWalk::new();
    while let Some(d) = walk.next_dir() {
        stage_sync(&mut tx, &mut walk, &d, &listing(&d), &exclude).unwrap();
    }
    tx.commit().unwrap();
    let t = tree(&fs);
    assert_eq!(t[".bashrc"], "alias ll='ls -l'\n");
    assert_eq!(t[".config/keep"], "untouched");
    assert_eq!(t[".config/app/settings.json"], "{}");
    assert!(!t.contains_key(".git"));
    assert!(!t.contains_key("link"));
    assert_eq!(walk.skipped, vec!["link".to_string()]);
    assert_eq!(
        walk.done.iter().map(|d| format!("{} {}", d.op, d.path)).collect::<Vec<_>>(),
        vec![
            "write .bashrc",
            "mkdir .config",
            "write install.sh",
            "mkdir .config/app",
            "write .config/app/settings.json",
        ]
    );
    assert_eq!(fs.stat(&rel("install.sh")).unwrap().unwrap().mode, 0o755);
}

#[test]
fn sync_refuses_to_replace_a_directory_with_a_file() {
    let mut fs = SimFs::new(SimConfig::default());
    fs.put_dir(b"conf");
    let before = tree(&fs);
    let mut s = session();
    let mut tx = Transaction::begin_on(&mut fs, &Options::new(), &mut s).unwrap();
    let mut walk = SyncWalk::new();
    walk.next_dir();
    let entries = vec![file("a", "a", None), file("conf", "file where a dir is", None)];
    let f = stage_sync(&mut tx, &mut walk, b"", &entries, &vec![]).unwrap_err();
    assert_eq!((f.kind, f.op, f.kind.exit_code()), (FailKind::Refused, None, 1));
    assert_eq!(walk.done.len(), 1);
    assert_eq!(f.message, Error::IsADirectory(rel("conf")).text());
    tx.discard();
    assert_eq!(tree(&fs), before);
}

#[test]
fn names_that_are_not_text_are_shown_with_replacements() {
    let mut fs = SimFs::new(SimConfig::default());
    let mut s = session();
    let mut tx = Transaction::begin_on(&mut fs, &Options::new(), &mut s).unwrap();
    let mut walk = SyncWalk::new();
    let entry = SourceEntry { name: b"caf\xe9".to_vec(), kind: SourceKind::Other };
    stage_sync(&mut tx, &mut walk, b"d", &vec![entry], &vec![]).unwrap();
    assert_eq!(walk.skipped, vec!["d/caf\u{fffd}".to_string()]);
}

#[test]
fn preconditions_are_checked_in_order() {
    let mut fs = seed();
    let mut s = session();
    let tx = Transaction::begin_on(&mut fs, &Options::new(), &mut s).unwrap();
    let expect = vec![
        ("old.txt".to_string(), Expect { exists_there: Some(true), sha256: None }),
        ("old.txt".to_string(), Expect { exists_there: Some(false), sha256: None }),
        ("/bad".to_string(), Expect { exists_there: None, sha256: None }),
    ];
    let f = check_expectations(&tx, &expect).unwrap_err();
    assert_eq!(f.message, "expect old.txt: exists");
    let f = check_expectations(&tx, &expect[2..].iter().map(|(p, e)| (p.clone(), Expect { exists_there: e.exists_there, sha256: None })).collect()).unwrap_err();
    assert_eq!(f.message, "invalid path \"/bad\": must be relative");
    let absent = vec![("gone".to_string(), Expect { exists_there: None, sha256: Some("00".to_string()) })];
    assert_eq!(check_expectations(&tx, &absent).unwrap_err().message, "expect gone: does not exist");
    tx.discard();
}

#[test]
fn failures_by_kind() {
    assert_eq!(FailKind::Refused.exit_code(), 1);
    assert_eq!(FailKind::InvalidInput.exit_code(), 2);
    assert_eq!(FailKind::Io.exit_code(), 3);
    let io = Error::Io(IoError::new(IoErrorKind::Other, "disk on fire"));
    let f = Failure::from_fstx(Some(2), io);
    assert_eq!((f.kind, f.op, f.message.as_str()), (FailKind::Io, Some(2), "disk on fire"));
    let f = Failure::from_fstx(None, Error::NotFound(rel("a")));
    assert_eq!((f.kind, f.message.as_str()), (FailKind::Refused, "not found: \"a\""));
    assert_eq!(Failure::from_fstx(None, Error::UnsupportedPlatform).kind, FailKind::Io);
    let f = Failure::new(FailKind::InvalidInput, None, "m".to_string());
    assert_eq!((f.kind, f.message.as_str()), (FailKind::InvalidInput, "m"));
}

#[test]
fn replacing_text() {
    assert_eq!(count_matches(b"aaaa", b"aa"), 2);
    assert_eq!(replace_all(b"aaaa", b"aa", b"b"), b"bb");
    assert_eq!(count_matches(b"abcabc", b"bc"), 2);
    assert_eq!(replace_all(b"abcabc", b"bc", b""), b"aa");
    assert_eq!(count_matches(b"abc", b"x"), 0);
    assert_eq!(replace_all(b"abc", b"x", b"y"), b"abc");
    assert_eq!(count_matches(b"", b"x"), 0);
    // Growing by as much as the texts differ, once for every occurrence.
    assert_eq!(replace_all(b"a.b.c", b".", b"->").len(), 5 + 2);
}

#[test]
fn permission_bits() {
    assert_eq!(parse_mode(b"755"), Some(0o755));
    assert_eq!(parse_mode(b"0o644"), Some(0o644));
    assert_eq!(parse_mode(b"+644"), Some(0o644));
    assert_eq!(parse_mode(b"7777"), Some(0o7777));
    assert_eq!(parse_mode(b"00000000000000000755"), Some(0o755));
    for bad in ["", "0o", "+", "-1", "8", "10000", "99999999999999", "rwx"] {
        assert_eq!(parse_mode(bad.as_bytes()), None, "{bad}");
    }
}

#[test]
fn digests_are_the_known_ones() {
    assert_eq!(sha256_hex(b""), "e3b0c44298fc1c149afbf4c8996fb92427ae41e4649b934ca495991b7852b855");
    assert_eq!(sha256_hex(b"abc"), "ba7816bf8f01cfea414140de5dae2223b00361a396177a9cb410ff61f20015ad");
}
