//! The journal, paths, plans and the progress log.
use fstx::bytes::name_before;
use fstx::disk::{FileId, Kind};
use fstx::error::{Error, Reason};
use fstx::hex::{hex, path_from_hex, path_to_hex, unhex};
use fstx::journal::{decode, encode, journal_from_json, Journal, FORMAT};
use fstx::json::Json;
use fstx::path::{validate_user_path, RelPath};
use fstx::plan::{validate, Loc, Plan, Step, Token};
use fstx::progress::{self, Record};

fn fid(i: u64) -> FileId {
    FileId { dev: 1, ino: i }
}

fn p(s: &str) -> RelPath {
    RelPath::from_parts(s.split('/').map(|c| c.as_bytes().to_vec()).collect())
}

fn journal() -> Journal {
    Journal {
        format: FORMAT,
        tx: "tx-1".to_string(),
        root: fid(1),
        plan: Plan {
            tokens: vec![Token {
                kind: Kind::File,
                id: fid(5),
                locs: vec![
                    Loc { path: p(".fstx/tx-1/staged/b0"), parent: fid(3) },
                    Loc { path: p("a"), parent: fid(1) },
                ],
            }],
            waves: vec![vec![Step { token: 0, from: 0 }]],
        },
    }
}

#[test]
fn roundtrip() {
    let j = journal();
    let back = decode(&encode(&j), "tx-1", fid(1)).unwrap();
    assert_eq!(back.format, j.format);
    assert_eq!(back.tx, j.tx);
    assert_eq!(back.root, j.root);
    assert_eq!(back.plan, j.plan);
}

#[test]
fn rejects_corruption_and_foreign_paths() {
    let bytes = encode(&journal());
    let mut flipped = bytes.clone();
    flipped[10] ^= 1;
    assert!(decode(&flipped, "tx-1", fid(1)).is_err());
    assert!(decode(&bytes[..bytes.len() - 3], "tx-1", fid(1)).is_err());
    assert!(decode(&bytes, "tx-2", fid(1)).is_err());
    assert!(decode(&bytes, "tx-1", fid(2)).is_err());

    let mut j = journal();
    j.plan.tokens[0].locs[1].path = p(".fstx/lock");
    assert!(decode(&encode(&j), "tx-1", fid(1)).is_err());
    let mut j = journal();
    j.plan.tokens[0].locs[0].path = p(".fstx/tx-9/staged/b0");
    assert!(decode(&encode(&j), "tx-1", fid(1)).is_err());
}

fn sealed(body: &str) -> Vec<u8> {
    let mut bytes = body.as_bytes().to_vec();
    bytes.extend_from_slice(b"\nblake3:");
    bytes.extend_from_slice(hex(blake3::hash(body.as_bytes()).as_bytes()).as_bytes());
    bytes.push(b'\n');
    bytes
}

fn body() -> String {
    let text = String::from_utf8(encode(&journal())).unwrap();
    text.split("\nblake3:").next().unwrap().to_string()
}

#[test]
fn rejects_escaping_component_even_with_valid_checksum() {
    let text = body().replace("\"61\"", "\"2e2e\"");
    assert!(decode(&sealed(&text), "tx-1", fid(1)).is_err());
}

#[test]
fn every_reason_to_reject_a_journal() {
    let good = encode(&journal());
    assert!(matches!(decode(b"{}", "tx-1", fid(1)), Err(Reason::NoChecksum)));
    assert!(matches!(
        decode(&good[..good.len() - 1], "tx-1", fid(1)),
        Err(Reason::TornChecksum)
    ));
    let mut flipped = good.clone();
    flipped[10] ^= 1;
    assert!(matches!(decode(&flipped, "tx-1", fid(1)), Err(Reason::ChecksumMismatch)));
    assert!(matches!(
        decode(&sealed("{\"format\":1}"), "tx-1", fid(1)),
        Err(Reason::DoesNotParse { .. })
    ));
    assert!(matches!(
        decode(&sealed("nonsense"), "tx-1", fid(1)),
        Err(Reason::DoesNotParse { .. })
    ));
    assert!(matches!(
        decode(&sealed(&body().replace("\"format\":1", "\"format\":2")), "tx-1", fid(1)),
        Err(Reason::UnknownFormat { format: 2 })
    ));
    assert!(matches!(decode(&good, "tx-2", fid(1)), Err(Reason::OtherTransaction)));
    assert!(matches!(decode(&good, "tx-1", fid(2)), Err(Reason::OtherRoot)));
    let mut j = journal();
    j.plan.tokens[0].locs.pop();
    j.plan.waves.clear();
    assert!(matches!(decode(&encode(&j), "tx-1", fid(1)), Err(Reason::TooFewLocations)));
    let mut j = journal();
    j.plan.tokens[0].locs[1].path = RelPath::root();
    assert!(matches!(decode(&encode(&j), "tx-1", fid(1)), Err(Reason::RootLocation)));
    let mut j = journal();
    j.plan.tokens[0].locs[1].path = p(".fstx/lock");
    assert!(matches!(
        decode(&encode(&j), "tx-1", fid(1)),
        Err(Reason::ForeignLocation { .. })
    ));
    let mut j = journal();
    j.plan.waves[0][0].token = 7;
    assert!(matches!(decode(&encode(&j), "tx-1", fid(1)), Err(Reason::UnknownToken)));
}

#[test]
fn journal_survives_garbage_and_mutations() {
    let mut seed = 1u64;
    let mut next = || {
        seed = seed.wrapping_mul(6364136223846793005).wrapping_add(1442695040888963407);
        (seed >> 33) as usize
    };
    for _ in 0..200 {
        let n = next() % 512;
        let bytes: Vec<u8> = (0..n).map(|_| next() as u8).collect();
        let _ = decode(&bytes, "tx-1", fid(1));
    }
    for _ in 0..400 {
        let mut bytes = encode(&journal());
        let i = next() % bytes.len();
        bytes[i] = next() as u8;
        let _ = decode(&bytes, "tx-1", fid(1));
    }
}

#[test]
fn journal_is_sealed_with_its_checksum() {
    assert_eq!(encode(&journal()), sealed(&body()));
    for part in ["\"format\":1", "\"tx\":\"tx-1\"", "\"path\":[\"61\"]", "\"waves\":[[{\"from\":0,\"t\":0}]]"] {
        assert!(body().contains(part), "{}", body());
    }
}

#[test]
fn rejects_escapes_and_reserved() {
    for bad in ["", "/etc/passwd", "../x", "a/../../b", "a/..", ".fstx", ".FSTX/x", ".", "./"] {
        assert!(validate_user_path(bad.as_bytes()).is_err(), "{bad:?} accepted");
    }
}

#[test]
fn accepts_normal_paths() {
    let q = validate_user_path(b"./a/./b.txt").unwrap();
    assert_eq!(q.components().len(), 2);
    assert!(validate_user_path(b".fstxfoo").is_ok());
    assert!(validate_user_path(b"a/.fstx").is_ok());
}

#[test]
fn says_why_a_path_is_refused() {
    match validate_user_path(b"/etc") {
        Err(Error::InvalidPath { path, reason }) => {
            assert_eq!(path, b"/etc");
            assert_eq!(reason, "must be relative");
        }
        other => panic!("{other:?}"),
    }
    assert!(matches!(validate_user_path(b"a\0b"), Err(Error::InvalidPath { .. })));
}

#[test]
fn non_utf8_roundtrip() {
    let q = validate_user_path(b"a/\xff\xfe").unwrap();
    let back = path_from_hex(&path_to_hex(&q)).unwrap();
    assert!(q.same(&back));
}

#[test]
fn serde_rejects_escape_components() {
    for bad in ["2e2e", "2f", "", "00", "zz"] {
        assert!(path_from_hex(&vec![bad.to_string()]).is_none(), "{bad} accepted");
    }
}

#[test]
fn hex_round_trip() {
    assert_eq!(hex(&[0, 15, 16, 255]), "000f10ff");
    assert_eq!(unhex("000f10ff"), Some(vec![0, 15, 16, 255]));
    assert_eq!(unhex("000F10fF"), Some(vec![0, 15, 16, 255]));
    assert_eq!(unhex("0"), None);
    assert_eq!(unhex("0g"), None);
}

#[test]
fn names_are_ordered_by_bytes() {
    assert!(name_before(b"a", b"ab"));
    assert!(name_before(b"a-", b"a/"));
    assert!(!name_before(b"b", b"a"));
    assert!(!name_before(b"a", b"a"));
}

#[test]
fn paths_relate_as_expected() {
    let ab = p("a/b");
    assert_eq!(ab.depth(), 2);
    assert!(ab.parent().unwrap().same(&p("a")));
    assert!(RelPath::root().parent().is_none());
    assert_eq!(ab.file_name().unwrap(), &b"b".to_vec());
    assert!(p("a").is_ancestor_of(&ab));
    assert!(!ab.is_ancestor_of(&ab));
    assert!(ab.overlaps(&ab) && ab.overlaps(&p("a")) && !ab.overlaps(&p("a/c")));
    assert!(ab.strip_prefix(&p("a")).unwrap().same(&p("b")));
    assert!(ab.strip_prefix(&p("b")).is_none());
    assert_eq!(ab.to_path_buf(), b"a/b");
    assert!(p(".FsTx/x").is_private() && !p("a/.fstx").is_private());
    assert_eq!(p("a/b/c").proper_prefixes().len(), 2);
}

const ROOT: u64 = 1;
const BK: u64 = 2;
const ST: u64 = 3;

/// Rename a to z (directory 10), then write z/new (file 20) and remove a/old (file 11).
fn sample() -> Plan {
    Plan {
        tokens: vec![
            Token {
                kind: Kind::File,
                id: fid(11),
                locs: vec![
                    Loc { path: p("a/old"), parent: fid(10) },
                    Loc { path: p(".fstx/tx-1/backup/0"), parent: fid(BK) },
                ],
            },
            Token {
                kind: Kind::Dir,
                id: fid(10),
                locs: vec![
                    Loc { path: p("a"), parent: fid(ROOT) },
                    Loc { path: p(".fstx/tx-1/backup/1"), parent: fid(BK) },
                    Loc { path: p("z"), parent: fid(ROOT) },
                ],
            },
            Token {
                kind: Kind::File,
                id: fid(20),
                locs: vec![
                    Loc { path: p(".fstx/tx-1/staged/b0"), parent: fid(ST) },
                    Loc { path: p("z/new"), parent: fid(10) },
                ],
            },
        ],
        waves: vec![
            vec![Step { token: 0, from: 0 }],
            vec![Step { token: 1, from: 0 }],
            vec![Step { token: 1, from: 1 }],
            vec![Step { token: 2, from: 0 }],
        ],
    }
}

#[test]
fn sample_is_valid() {
    assert!(validate(&sample()).is_ok());
}

#[test]
fn rejects_ancestor_overlap_in_one_wave() {
    // Detaching a/old and a in the same wave: a is an ancestor of a/old.
    let mut plan = sample();
    plan.waves = vec![
        vec![Step { token: 0, from: 0 }, Step { token: 1, from: 0 }],
        vec![Step { token: 1, from: 1 }],
        vec![Step { token: 2, from: 0 }],
    ];
    let e = validate(&plan).unwrap_err();
    assert!(e.text().contains("overlap"), "{}", e.text());
}

#[test]
fn rejects_parent_produced_in_same_wave() {
    // z (attach of directory 10) and z/new in one wave.
    let mut plan = sample();
    plan.waves = vec![
        vec![Step { token: 0, from: 0 }],
        vec![Step { token: 1, from: 0 }],
        vec![Step { token: 1, from: 1 }, Step { token: 2, from: 0 }],
    ];
    assert!(validate(&plan).is_err());
}

#[test]
fn rejects_swapped_waves() {
    let mut plan = sample();
    plan.waves.swap(2, 3);
    assert!(validate(&plan).is_err());
    let mut plan = sample();
    plan.waves.swap(0, 1);
    assert!(validate(&plan).is_err());
}

#[test]
fn rejects_occupied_destination_and_duplicate_finals() {
    let mut plan = sample();
    plan.tokens[2].locs[1].path = p("z");
    assert!(validate(&plan).is_err());
}

#[test]
fn shared_ancestors_are_allowed() {
    let plan = Plan {
        tokens: vec![
            Token {
                kind: Kind::File,
                id: fid(11),
                locs: vec![
                    Loc { path: p("d/x"), parent: fid(9) },
                    Loc { path: p(".fstx/t/backup/0"), parent: fid(BK) },
                ],
            },
            Token {
                kind: Kind::File,
                id: fid(12),
                locs: vec![
                    Loc { path: p("d/y"), parent: fid(9) },
                    Loc { path: p(".fstx/t/backup/1"), parent: fid(BK) },
                ],
            },
        ],
        waves: vec![vec![Step { token: 0, from: 0 }, Step { token: 1, from: 0 }]],
    };
    assert!(validate(&plan).is_ok());
}

#[test]
fn merged_waves_are_caught() {
    for merge in 0..3 {
        let mut plan = sample();
        let w = plan.waves.remove(merge + 1);
        plan.waves[merge].extend(w);
        assert!(validate(&plan).is_err());
    }
}

#[test]
fn every_defect_of_a_plan() {
    let mut plan = sample();
    plan.waves[0][0].token = 9;
    assert!(matches!(validate(&plan), Err(Reason::UnknownToken)));
    let mut plan = sample();
    plan.waves[0][0].from = 1;
    assert!(matches!(validate(&plan), Err(Reason::BeyondLastLocation)));
    let mut plan = sample();
    plan.waves.push(vec![Step { token: 2, from: 0 }]);
    assert!(matches!(validate(&plan), Err(Reason::MovedTwice)));
    let mut plan = sample();
    plan.waves.pop();
    assert!(matches!(validate(&plan), Err(Reason::MissingStep { token: 2, from: 0 })));
    let mut plan = sample();
    plan.waves.swap(1, 2);
    assert!(matches!(validate(&plan), Err(Reason::WavesNotIncreasing { token: 1 })));
    let mut plan = sample();
    plan.waves.swap(2, 3);
    assert!(matches!(validate(&plan), Err(Reason::ParentNotInPlace { .. })));
    let mut plan = sample();
    plan.tokens[2].locs[1].parent = fid(99);
    assert!(matches!(validate(&plan), Err(Reason::ParentIdentity { .. })));
    let mut plan = sample();
    plan.tokens[2].locs[1] = Loc { path: p("z"), parent: fid(ROOT) };
    assert!(matches!(validate(&plan), Err(Reason::Occupied { .. })));
}

#[test]
fn roundtrip_and_torn_tail() {
    let mut b: Vec<u8> = Vec::new();
    b.extend_from_slice(&progress::encode(Record::ApplyDone(0)));
    b.extend_from_slice(&progress::encode(Record::UndoDone(7)));
    b.extend_from_slice(&progress::encode(Record::ApplyDone(3))[..9]);
    assert_eq!(progress::parse(&b), vec![Record::ApplyDone(0), Record::UndoDone(7)]);
    // A record appended after a torn tail is still found.
    b.extend_from_slice(&progress::encode(Record::UndoDone(2)));
    assert_eq!(
        progress::parse(&b),
        vec![Record::ApplyDone(0), Record::UndoDone(7), Record::UndoDone(2)]
    );
    b[20] ^= 0xff;
    assert_eq!(progress::parse(&b), vec![Record::ApplyDone(0), Record::UndoDone(2)]);
}

#[test]
fn progress_survives_garbage() {
    let mut seed = 7u64;
    for n in 0..256usize {
        let bytes: Vec<u8> = (0..n)
            .map(|_| {
                seed = seed.wrapping_mul(6364136223846793005).wrapping_add(1442695040888963407);
                (seed >> 40) as u8
            })
            .collect();
        assert!(progress::parse(&bytes).is_empty());
    }
}

fn record(fields: Vec<(&str, Json)>) -> Json {
    Json::Record(fields.into_iter().map(|(k, v)| (k.to_string(), v)).collect())
}

fn journal_value(root: Json, steps: Vec<Json>) -> Json {
    record(vec![
        ("format", Json::Number(1)),
        ("root", root),
        ("tokens", Json::List(Vec::new())),
        ("tx", Json::Text("tx-1".to_string())),
        ("waves", Json::List(vec![Json::List(steps)])),
    ])
}

#[test]
fn members_may_be_listed_in_order() {
    let root = Json::List(vec![Json::Number(7), Json::Number(9)]);
    let step = Json::List(vec![Json::Number(3), Json::Number(1)]);
    let j = journal_from_json(&journal_value(root, vec![step])).unwrap();
    assert_eq!(j.root, FileId { dev: 7, ino: 9 });
    assert_eq!(j.plan.waves, vec![vec![Step { token: 3, from: 1 }]]);
    let named = record(vec![("dev", Json::Number(7)), ("ino", Json::Number(9))]);
    assert!(journal_from_json(&journal_value(named, Vec::new())).is_some());
    for bad in [
        Json::List(vec![Json::Number(7)]),
        Json::List(vec![Json::Number(7), Json::Number(9), Json::Number(1)]),
        Json::List(vec![Json::Number(7), Json::Text("9".to_string())]),
    ] {
        assert!(journal_from_json(&journal_value(bad, Vec::new())).is_none());
    }
}

#[test]
fn bytes_that_are_not_text_are_shown_by_their_numbers() {
    let shown = |bytes: &[u8]| Error::NotFound(RelPath::from_parts(vec![bytes.to_vec()])).text();
    assert_eq!(shown(b"plain"), "not found: \"plain\"");
    assert_eq!(shown("\u{e9}t\u{e9}".as_bytes()), "not found: \"\u{e9}t\u{e9}\"");
    assert_eq!(shown(b"a\xffb"), "not found: \"a\\xFFb\"");
    assert_eq!(shown(b"\xe2\x82"), "not found: \"\\xE2\\x82\"");
    assert_eq!(shown(b"a\"b"), "not found: \"a\\\"b\"");
}

#[test]
fn the_first_defect_is_reported() {
    let id = |i: u64| FileId { dev: 1, ino: i };
    let loc = |p: &str| Loc { path: RelPath::from_parts(vec![p.as_bytes().to_vec()]), parent: id(1) };
    let plan = Plan {
        tokens: vec![Token { kind: Kind::File, id: id(2), locs: vec![loc("a"), loc("b"), loc("c")] }],
        // The first wave names no token there is; the second repeats a step.
        waves: vec![vec![Step { token: 5, from: 0 }], vec![Step { token: 0, from: 0 }, Step { token: 0, from: 0 }]],
    };
    assert_eq!(validate(&plan), Err(Reason::UnknownToken));
    let plan = Plan {
        tokens: vec![Token { kind: Kind::File, id: id(2), locs: vec![loc("a"), loc("b"), loc("c")] }],
        waves: vec![vec![Step { token: 0, from: 1 }]],
    };
    assert_eq!(validate(&plan), Err(Reason::MissingStep { token: 0, from: 0 }));
}
