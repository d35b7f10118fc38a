//! Crash-consistency checking on the simulated filesystem.
//!
//! For each scenario and profile: run the transaction once without crashing to get the before
//! and after snapshots; crash the commit at every counted call, and for each crash take every
//! power-loss outcome (all combinations when few enough, else a deterministic sample) plus a
//! process kill; from each outcome, run recovery to completion and check the invariant; then
//! crash recovery itself at every call and recurse (bounded depth, memoized).
//!
//! Checked everywhere: the tree is that before or that after (after if the commit returned
//! `Ok`), the private directory is empty after a completed recovery, no violations, and, once
//! a recovery run has stabilized, the durable potential never increases.
use std::collections::{BTreeMap, HashMap};

use fstx::caps::{ProbeCache, Session};
use fstx::disk::Fate;
use fstx::path::RelPath;
use fstx::pathmap::PathMap;
use fstx::sim::{Profile, SimConfig, SimFs, TreeEntry};
use fstx::vfs::Vfs;
use fstx::{inspect_on, Options, RecoveryAction, Transaction};

type Tree = BTreeMap<String, TreeEntry>;
type Ops = fn(&mut Transaction<SimFs>) -> fstx::Result<()>;

struct Scenario {
    name: &'static str,
    base: fn(&mut SimFs),
    ops: Ops,
}

fn text(map: PathMap<TreeEntry>) -> Tree {
    (0..map.len())
        .map(|i| (String::from_utf8(map.key(i).to_path_buf()).unwrap(), map.value(i).clone()))
        .collect()
}

fn tree(fs: &SimFs) -> Tree {
    text(fs.tree())
}

/// The process that runs at the given time.
fn session(time: usize) -> Session {
    Session { nanos: time as u128, pid: 77, counter: 0, cache: ProbeCache::new() }
}

fn recover(fs: &mut SimFs, time: usize) -> fstx::Result<fstx::RecoveryReport> {
    fs.recover(&Options::new(), &mut session(time))
}

fn scenarios() -> Vec<Scenario> {
    vec![
        Scenario {
            name: "replace + create",
            base: |fs| {
                fs.put_file(b"a", b"old-a");
                fs.put_dir(b"d");
            },
            ops: |tx| {
                tx.write(b"a", b"new-a")?;
                tx.write(b"d/b", b"new-b")
            },
        },
        Scenario {
            name: "move dir + edit inside",
            base: |fs| {
                fs.put_dir(b"a");
                fs.put_file(b"a/x", b"x");
                fs.put_file(b"a/y", b"y");
            },
            ops: |tx| {
                tx.rename(b"a", b"z")?;
                tx.remove(b"z/x")?;
                tx.write(b"z/n", b"n")
            },
        },
        Scenario {
            name: "swap identical files",
            base: |fs| {
                fs.put_file(b"a", b"same");
                fs.put_file(b"b", b"same");
            },
            ops: |tx| {
                tx.rename(b"a", b"t")?;
                tx.rename(b"b", b"a")?;
                tx.rename(b"t", b"b")
            },
        },
        Scenario {
            name: "remove tree + new nested dirs",
            base: |fs| {
                fs.put_dir(b"old");
                fs.put_dir(b"old/sub");
                fs.put_file(b"old/sub/f", b"f");
                fs.put_symlink(b"old/link");
            },
            ops: |tx| {
                tx.remove_dir_all(b"old")?;
                tx.create_dir_all(b"new/deep")?;
                tx.write(b"new/deep/g", b"g")
            },
        },
    ]
}

fn run_tx(fs: &mut SimFs, ops: Ops) -> fstx::Result<()> {
    let mut tx = Transaction::begin_on(fs, &Options::new(), &mut session(0))?;
    match ops(&mut tx) {
        Ok(()) => tx.commit(),
        Err(e) => {
            tx.discard();
            Err(e)
        }
    }
}

/// Deterministic outcome enumeration: all fate combinations if at most `cap`, else a sample.
fn outcomes(fs: &SimFs, cap: usize) -> Vec<SimFs> {
    let ops = fs.volatile_ops();
    let choices: Vec<Vec<Fate>> = ops
        .iter()
        .map(|&weak| {
            if weak {
                vec![Fate::Drop, Fate::Apply, Fate::BothNames]
            } else {
                vec![Fate::Drop, Fate::Apply]
            }
        })
        .collect();
    let total: u128 = choices.iter().map(|c| c.len() as u128).product();
    let mut combos: Vec<Vec<Fate>> = Vec::new();
    if total <= cap as u128 {
        for mut idx in 0..total {
            combos.push(
                choices
                    .iter()
                    .map(|c| {
                        let f = c[(idx % c.len() as u128) as usize];
                        idx /= c.len() as u128;
                        f
                    })
                    .collect(),
            );
        }
    } else {
        combos.push(vec![Fate::Drop; ops.len()]);
        combos.push(vec![Fate::Apply; ops.len()]);
        let mut seed = 0x9E37_79B9_7F4A_7C15u64 ^ ops.len() as u64;
        while combos.len() < cap {
            combos.push(
                choices
                    .iter()
                    .map(|c| {
                        seed = seed
                            .wrapping_mul(6364136223846793005)
                            .wrapping_add(1442695040888963407);
                        c[((seed >> 33) as usize) % c.len()]
                    })
                    .collect(),
            );
        }
    }
    let mut out = vec![fs.process_kill()];
    out.extend(combos.iter().enumerate().map(|(i, f)| fs.power_loss(f, (i % 4) as u8)));
    out
}

/// The potential of the durable image: the phase, then the sum of the token positions.
fn phi(d: &SimFs) -> (u8, usize) {
    let private = text(d.private_tree());
    let insp = d.inspect().expect("inspect");
    let Some(tx) = insp.transactions.first() else {
        return (0, 0);
    };
    let has = |m: &str| private.contains_key(&format!("{}/{m}", tx.name));
    let rank = if has("COMMITTED") || has("ROLLED_BACK") {
        1
    } else if has("ROLLING_BACK") {
        2
    } else {
        3
    };
    let remaining =
        tx.tokens.iter().map(|t| t.position.as_ref().map(|p| p.index).unwrap_or(0)).sum();
    (rank, remaining)
}

fn add_map(key: &mut Vec<u8>, map: &PathMap<TreeEntry>) {
    for i in 0..map.len() {
        let e = map.value(i);
        key.extend_from_slice(&map.key(i).to_path_buf());
        key.extend_from_slice(&e.ino.to_be_bytes());
        key.extend_from_slice(&e.data.len().to_be_bytes());
        key.extend_from_slice(&e.data);
    }
    key.extend_from_slice(b"\0\0");
}

/// Canonical fingerprint of what recovery can see, for memoization.
fn fingerprint(fs: &SimFs) -> Vec<u8> {
    if !fs.volatile_ops().is_empty() {
        return format!("{:?}", fs.state()).into_bytes();
    }
    let mut key = Vec::new();
    add_map(&mut key, &fs.tree());
    add_map(&mut key, &fs.private_tree());
    key
}

struct Ctx {
    before: Tree,
    after: Tree,
    caps: Vec<usize>,
    memo: HashMap<Vec<u8>, usize>,
    phis: HashMap<Vec<u8>, (u8, usize)>,
    recoveries: usize,
}

impl Ctx {
    fn new(before: Tree, after: Tree, caps: Vec<usize>) -> Ctx {
        Ctx { before, after, caps, memo: HashMap::new(), phis: HashMap::new(), recoveries: 0 }
    }

    fn phi(&mut self, fs: &SimFs) -> (u8, usize) {
        let d = fs.durable();
        *self.phis.entry(fingerprint(&d)).or_insert_with(|| phi(&d))
    }
}

fn check_final(ctx: &Ctx, fs: &SimFs, committed_ok: bool, trail: &str) {
    let now = tree(fs);
    let is_before = now == ctx.before;
    let is_after = now == ctx.after;
    assert!(is_before || is_after, "{trail}: tree is neither before nor after:\n{now:#?}");
    if committed_ok {
        assert!(is_after, "{trail}: commit returned Ok but recovery produced the before-state");
    }
    assert!(
        fs.private_leftovers().is_empty(),
        "{trail}: leftovers {:?}",
        fs.private_leftovers()
    );
    assert!(fs.violations().is_empty(), "{trail}: {:?}", fs.violations());
}

fn explore(
    ctx: &mut Ctx,
    state: &SimFs,
    committed_ok: bool,
    depth: usize,
    bound: Option<(u8, usize)>,
    trail: &str,
) {
    let key = fingerprint(state);
    if ctx.memo.get(&key).is_some_and(|&d| d <= depth) {
        return;
    }
    ctx.memo.insert(key, depth);
    assert!(state.violations().is_empty(), "{trail}: {:?}", state.violations());

    // Recovery to completion.
    let mut clean = state.process_kill();
    let start = clean.calls();
    let insp = clean.inspect().expect("inspect");
    for tx in &insp.transactions {
        assert_ne!(tx.action, RecoveryAction::RecoveryRequired, "{trail}: {:?}", tx.reason);
    }
    if let Err(e) = recover(&mut clean, depth + 1) {
        panic!("{trail}: recovery failed: {}", e.text());
    }
    ctx.recoveries += 1;
    check_final(ctx, &clean, committed_ok, trail);
    let n = clean.calls() - start;

    if depth >= ctx.caps.len() {
        return;
    }
    for j in 0..n {
        let mut s = state.process_kill();
        s.crash_after(j);
        let _ = recover(&mut s, depth + 1);
        ctx.recoveries += 1;
        let mut next_bound = bound;
        let durable_phi = ctx.phi(&s);
        if let Some(b) = bound {
            assert!(durable_phi <= b, "{trail}/r{j}: potential rose from {b:?} to {durable_phi:?}");
        }
        if let Some(stab) = s.durable_at_stabilize() {
            let at_stab = ctx.phi(&stab);
            assert!(
                durable_phi <= at_stab,
                "{trail}/r{j}: potential rose after stabilize {at_stab:?} -> {durable_phi:?}"
            );
            next_bound = Some(next_bound.map_or(durable_phi, |b| b.min(durable_phi)));
        }
        for (k, o) in outcomes(&s, ctx.caps[depth]).into_iter().enumerate() {
            if let Some(b) = next_bound {
                let p = ctx.phi(&o);
                assert!(p <= b, "{trail}/r{j}/o{k}: outcome potential {p:?} above bound {b:?}");
            }
            explore(ctx, &o, committed_ok, depth + 1, next_bound, &format!("{trail}/r{j}/o{k}"));
        }
    }
}

fn check_scenario(sc: &Scenario, profile: Profile, apply_cap: usize, caps: Vec<usize>) -> usize {
    let cfg = SimConfig { profile, ..SimConfig::default() };
    let mut reference = SimFs::new(cfg);
    (sc.base)(&mut reference);
    let before = tree(&reference);
    run_tx(&mut reference, sc.ops).expect("reference run");
    let after = tree(&reference);
    assert_ne!(before, after);
    let total = reference.calls();
    let mut ctx = Ctx::new(before, after, caps);

    for i in 0..=total {
        let mut fs = SimFs::new(cfg);
        (sc.base)(&mut fs);
        fs.crash_after(i);
        let committed_ok = run_tx(&mut fs, sc.ops).is_ok();
        assert!(fs.violations().is_empty(), "{} crash@{i}: {:?}", sc.name, fs.violations());
        for (k, o) in outcomes(&fs, apply_cap).into_iter().enumerate() {
            explore(
                &mut ctx,
                &o,
                committed_ok,
                0,
                None,
                &format!("{} {profile:?} crash@{i}/o{k}", sc.name),
            );
        }
    }
    ctx.recoveries
}

#[test]
fn every_crash_point_strict() {
    for sc in scenarios() {
        let n = check_scenario(&sc, Profile::Strict, 64, vec![4]);
        println!("{} (Strict): {n} recoveries checked", sc.name);
    }
}

#[test]
fn every_crash_point_weak() {
    for sc in scenarios() {
        let n = check_scenario(&sc, Profile::Weak, 64, vec![4]);
        println!("{} (Weak): {n} recoveries checked", sc.name);
    }
}

fn tiny() -> Scenario {
    Scenario {
        name: "tiny",
        base: |fs| fs.put_file(b"a", b"old"),
        ops: |tx| {
            tx.write(b"a", b"new")?;
            tx.write(b"b", b"b")
        },
    }
}

/// Stress: long random chains of crashes during recovery (up to 20 in a row, each a random
/// call with a random power-loss outcome or process kill), then a clean recovery.
#[test]
fn random_deep_nesting() {
    let mut seed = 0xD1B5_4A32_D192_ED03u64;
    let mut rnd = move |n: u64| {
        seed ^= seed << 13;
        seed ^= seed >> 7;
        seed ^= seed << 17;
        seed % n.max(1)
    };
    for sc in scenarios().into_iter().chain([tiny()]) {
        for profile in [Profile::Strict, Profile::Weak] {
            let cfg = SimConfig { profile, ..SimConfig::default() };
            let mut reference = SimFs::new(cfg);
            (sc.base)(&mut reference);
            let before = tree(&reference);
            run_tx(&mut reference, sc.ops).unwrap();
            let ctx = Ctx::new(before, tree(&reference), vec![]);
            for walk in 0..150 {
                let mut fs = SimFs::new(cfg);
                (sc.base)(&mut fs);
                fs.crash_after(rnd(reference.calls() + 1));
                let committed_ok = run_tx(&mut fs, sc.ops).is_ok();
                let mut outs = outcomes(&fs, 16);
                let mut state = outs.swap_remove(rnd(outs.len() as u64) as usize);
                let crashes = 1 + rnd(20);
                for time in 0..crashes as usize {
                    let mut probe = state.process_kill();
                    let start = probe.calls();
                    let _ = recover(&mut probe, time + 1);
                    let n = probe.calls() - start;
                    let mut s = state.process_kill();
                    s.crash_after(rnd(n + 1));
                    let _ = recover(&mut s, time + 1);
                    let mut outs = outcomes(&s, 8);
                    state = outs.swap_remove(rnd(outs.len() as u64) as usize);
                }
                let mut fin = state.process_kill();
                if let Err(e) = recover(&mut fin, crashes as usize + 1) {
                    panic!("{} walk {walk}: {}", sc.name, e.text());
                }
                check_final(
                    &ctx,
                    &fin,
                    committed_ok,
                    &format!("{} {profile:?} walk {walk}", sc.name),
                );
            }
        }
    }
}

fn rel(path: &[u8]) -> RelPath {
    RelPath::from_parts(path.split(|b| *b == b'/').map(|c| c.to_vec()).collect())
}

/// Classification matches the simulator's ground truth for every crash point of the apply
/// phase.
#[test]
fn classification_matches_ground_truth() {
    let sc = &scenarios()[1];
    let mut reference = SimFs::new(SimConfig::default());
    (sc.base)(&mut reference);
    run_tx(&mut reference, sc.ops).unwrap();
    for i in 0..=reference.calls() {
        let mut fs = SimFs::new(SimConfig::default());
        (sc.base)(&mut fs);
        fs.crash_after(i);
        let _ = run_tx(&mut fs, sc.ops);
        for o in outcomes(&fs, 64) {
            let insp = inspect_on(&o).unwrap();
            for tx in &insp.transactions {
                for tok in &tx.tokens {
                    let pos = tok.position.as_ref().expect("classified");
                    // Ground truth: the entry at the classified location has the token's identity.
                    let m = o
                        .stat(&rel(&tok.locations[pos.index]))
                        .unwrap()
                        .expect("present at classified location");
                    assert_eq!(m.id, tok.id);
                    // And it is not also at any other location, unless both-names.
                    for (k, other) in tok.locations.iter().enumerate() {
                        if k == pos.index || (pos.both_names && k == pos.index + 1) {
                            continue;
                        }
                        assert!(o.stat(&rel(other)).unwrap().is_none_or(|m| m.id != tok.id));
                    }
                }
            }
        }
    }
}

/// Every crash point of the commit, with a small sample of outcomes and no crash of recovery.
#[test]
fn quick_smoke() {
    for profile in [Profile::Strict, Profile::Weak] {
        for sc in scenarios() {
            let n = check_scenario(&sc, profile, 8, vec![]);
            println!("{} {profile:?}: {n} recoveries", sc.name);
        }
    }
}
