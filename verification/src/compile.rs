//! Net diff → physical plan.
//!
//! Base entries that must leave their base path become tokens that are detached into
//! `backup/`, deepest first; tokens are then attached at their final paths from `backup/` or
//! `staged/`, shallowest first. Each depth forms one wave.
use vstd::prelude::*;

use crate::bytes::Name;
use crate::disk::{Disk, FileId, Kind, Object};
use crate::error::{Error, Reason, Result};
use crate::journal::{location_allowed, locations_allowed, proper_plan, proper_token};
use crate::overlay::{new_dir_file, blob_file, EKind, Entry, Gone, Overlay, Slot, Src};
use crate::overlay::{
    answered, blob_name, law_view_depends_on_the_tree, lemma_new_dir_names_unlike, lemma_resolved_is_known,
    lemma_rooted_by_tree, new_dir_name, origin_of, reports, EntryView, Fault, Look, OverlayView, SrcView,
};
use crate::path::{is_component, parent_of, private_name, private_path, proper_path, tree_path, PathView, RelPath};
use crate::pathmap::ascending;
use crate::plan::{validate, Loc, LocView, Plan, PlanView, Step, Token, TokenView};
use crate::state::{backup_name, staged_name, TxDir};
use crate::text::{decimal, write_decimal};
use crate::tree::{alike, alike_paths, goes_through, same_tree};
use crate::tree::{
    lemma_child_off_path, lemma_frame_create, lemma_private_create, lemma_resolve_key, lemma_same_content,
    lemma_same_tree_transitive, lemma_way_to,
};
use crate::vfs::{created_at, free_at, same_volume, way_clear, Vfs};

verus! {

/// An entry stands at `p` by an explicit decision.
pub open spec fn is_placed(ov: OverlayView, p: PathView) -> bool {
    ov.placed.contains_key(p) && ov.placed[p] is Present
}

/// The entry that stands at `p` by an explicit decision.
pub open spec fn placed_entry(ov: OverlayView, p: PathView) -> EntryView {
    ov.placed[p]->Present_0
}

/// The base entry of `q` is still seen at `q`.
pub open spec fn unmoved(ov: OverlayView, d: Disk, q: PathView) -> bool {
    ov.look(d, q) matches Look::Found(a) && origin_of(a) == Some(q)
}

/// Identity no-op: the same base entry is back at its base path under an unchanged chain.
pub open spec fn is_noop(ov: OverlayView, d: Disk, p: PathView) -> bool {
    &&& is_placed(ov, p)
    &&& origin_of(placed_entry(ov, p)) == Some(p)
    &&& forall|i: int| 0 < i < p.len() ==> unmoved(ov, d, #[trigger] p.take(i))
}

/// Something must be attached at `p`.
pub open spec fn attaching(ov: OverlayView, d: Disk, p: PathView) -> bool {
    is_placed(ov, p) && !is_noop(ov, d, p)
}

/// The paths among the first `n` at which something must be attached.
pub open spec fn attach_list(ov: OverlayView, d: Disk, keys: Seq<PathView>, n: int) -> Seq<PathView>
    decreases n,
{
    if n <= 0 {
        Seq::empty()
    } else if attaching(ov, d, keys[n - 1]) {
        attach_list(ov, d, keys, n - 1).push(keys[n - 1])
    } else {
        attach_list(ov, d, keys, n - 1)
    }
}

/// Where the entry from base path `o` is attached, among the first `n` of the list.
pub open spec fn new_home(ov: OverlayView, list: Seq<PathView>, o: PathView, n: int) -> Option<PathView>
    decreases n,
{
    if n <= 0 {
        None
    } else if origin_of(placed_entry(ov, list[n - 1])) == Some(o) {
        Some(list[n - 1])
    } else {
        new_home(ov, list, o, n - 1)
    }
}

/// The base entry of `b` is removed for good.
pub open spec fn is_removed(ov: OverlayView, d: Disk, list: Seq<PathView>, b: PathView) -> bool {
    ov.detached.contains_key(b) && new_home(ov, list, b, list.len() as int) is None && !is_noop(ov, d, b)
}

/// A directory above `b`, among the first `n` of them, is removed for good, and nothing between
/// it and `b` moves elsewhere, so that `b` leaves with it.
pub open spec fn is_covered_by(ov: OverlayView, d: Disk, list: Seq<PathView>, b: PathView, n: int) -> bool {
    exists|i: int|
        0 < i <= n && is_removed(ov, d, list, #[trigger] b.take(i)) && forall|j: int|
            i < j <= n ==> new_home(ov, list, #[trigger] b.take(j), list.len() as int) is None
}

/// `b` leaves with a directory above it that is removed for good.
pub open spec fn is_covered(ov: OverlayView, d: Disk, list: Seq<PathView>, b: PathView) -> bool {
    is_covered_by(ov, d, list, b, b.len() - 1)
}

/// The base entry of `b` must be detached.
pub open spec fn detaching(ov: OverlayView, d: Disk, list: Seq<PathView>, b: PathView) -> bool {
    &&& !is_noop(ov, d, b)
    &&& new_home(ov, list, b, list.len() as int) is Some || !is_covered(ov, d, list, b)
}

/// The base paths among the first `n` whose entries must be detached.
pub open spec fn detach_list(ov: OverlayView, d: Disk, list: Seq<PathView>, keys: Seq<PathView>, n: int) -> Seq<
    PathView,
>
    decreases n,
{
    if n <= 0 {
        Seq::empty()
    } else if detaching(ov, d, list, keys[n - 1]) {
        detach_list(ov, d, list, keys, n - 1).push(keys[n - 1])
    } else {
        detach_list(ov, d, list, keys, n - 1)
    }
}

/// What the compiler works from: the overlay, the disk before and after the staging of new
/// directories, the transaction, and the identities of staged files and directories.
pub struct Sources {
    pub ov: OverlayView,
    pub before: Disk,
    pub after: Disk,
    pub tx: Name,
    pub blobs: Map<u64, FileId>,
    pub dirs: Map<u64, FileId>,
    /// What is attached, in order.
    pub attach: Seq<PathView>,
    /// What is detached, in order.
    pub detach: Seq<PathView>,
}

impl Sources {
    /// The transaction's `staged` directory.
    pub open spec fn staged(self) -> PathView {
        crate::state::tx_path(self.tx).push(staged_name())
    }

    /// The transaction's `backup` directory.
    pub open spec fn backup(self) -> PathView {
        crate::state::tx_path(self.tx).push(backup_name())
    }

    /// What is attached, as decided.
    pub open spec fn entries(self) -> Seq<EntryView> {
        self.attach.map_values(|p: PathView| placed_entry(self.ov, p))
    }

    /// The identity of the directory at `p`.
    pub open spec fn dir_id(self, d: Disk, p: PathView) -> FileId {
        d.shows(d.dir_at(p)->0)
    }

    /// The identity that the parent of `p` will have when the transaction is applied.
    pub open spec fn parent_id(self, p: PathView) -> FileId {
        if parent_of(p).len() == 0 {
            self.before.shows(self.before.root)
        } else {
            match self.ov.look(self.after, parent_of(p)) {
                Look::Found(e) => match e.src {
                    SrcView::Base { id, .. } => id,
                    SrcView::NewDir { n } => self.dirs[n],
                    SrcView::Blob { n, .. } => self.blobs[n],
                },
                _ => self.before.shows(self.before.root),
            }
        }
    }

    /// The location at `p` in the tree.
    pub open spec fn target(self, p: PathView) -> LocView {
        LocView { path: p, parent: self.parent_id(p) }
    }

    /// The token for the `k`-th detached entry.
    pub open spec fn base_token(self, k: int) -> TokenView {
        let b = self.detach[k];
        let gone = self.ov.detached[b];
        let start = LocView {
            path: b,
            parent: if parent_of(b).len() == 0 {
                self.before.shows(self.before.root)
            } else {
                self.dir_id(self.after, parent_of(b))
            },
        };
        let kept = LocView {
            path: self.backup().push(decimal(k as nat)),
            parent: self.dir_id(self.before, self.backup()),
        };
        TokenView {
            kind: if gone.kind == EKind::File {
                Kind::File
            } else {
                Kind::Dir
            },
            id: gone.id,
            locs: match new_home(self.ov, self.attach, b, self.attach.len() as int) {
                Some(p) => seq![start, kept, self.target(p)],
                None => seq![start, kept],
            },
        }
    }

    /// Something new is attached at `p`.
    pub open spec fn is_new(self, p: PathView) -> bool {
        !(placed_entry(self.ov, p).src is Base)
    }

    /// The token for something new that is attached at `p`.
    pub open spec fn new_token(self, p: PathView) -> TokenView {
        let (name, id, kind) = match placed_entry(self.ov, p).src {
            SrcView::NewDir { n } => (new_dir_name(n), self.dirs[n], Kind::Dir),
            SrcView::Blob { n, .. } => (blob_name(n), self.blobs[n], Kind::File),
            SrcView::Base { .. } => (Seq::empty(), self.before.root, Kind::Other),
        };
        TokenView {
            kind,
            id,
            locs: seq![
                LocView { path: self.staged().push(name), parent: self.dir_id(self.before, self.staged()) },
                self.target(p),
            ],
        }
    }

    /// The tokens for what is new among the first `n` of the attached.
    pub open spec fn new_tokens(self, n: int) -> Seq<TokenView>
        decreases n,
    {
        if n <= 0 {
            Seq::empty()
        } else if self.is_new(self.attach[n - 1]) {
            self.new_tokens(n - 1).push(self.new_token(self.attach[n - 1]))
        } else {
            self.new_tokens(n - 1)
        }
    }

    /// All tokens: the detached entries, then what is new.
    pub open spec fn tokens(self) -> Seq<TokenView> {
        Seq::new(self.detach.len(), |k: int| self.base_token(k)) + self.new_tokens(self.attach.len() as int)
    }
}

/// The steps that detach entries of the given depth, among the first `n` tokens.
pub open spec fn detach_steps(tokens: Seq<TokenView>, depth: int, n: int) -> Seq<Step>
    decreases n,
{
    if n <= 0 {
        Seq::empty()
    } else if tokens[n - 1].locs[0].path.len() == depth {
        detach_steps(tokens, depth, n - 1).push(Step { token: (n - 1) as usize, from: 0 })
    } else {
        detach_steps(tokens, depth, n - 1)
    }
}

/// Token `t` is attached at the given depth; the first `base` tokens are detached entries.
pub open spec fn attaches_at(tokens: Seq<TokenView>, base: int, t: int, depth: int) -> bool {
    if t < base {
        tokens[t].locs.len() == 3 && tokens[t].locs[2].path.len() == depth
    } else {
        tokens[t].locs[1].path.len() == depth
    }
}

/// The steps that attach tokens at the given depth, among the first `n` tokens.
pub open spec fn attach_steps(tokens: Seq<TokenView>, base: int, depth: int, n: int) -> Seq<Step>
    decreases n,
{
    if n <= 0 {
        Seq::empty()
    } else if attaches_at(tokens, base, n - 1, depth) {
        attach_steps(tokens, base, depth, n - 1).push(
            Step {
                token: (n - 1) as usize,
                from: if n - 1 < base {
                    1
                } else {
                    0
                },
            },
        )
    } else {
        attach_steps(tokens, base, depth, n - 1)
    }
}

/// A wave, if it has a step.
pub open spec fn wave_of(steps: Seq<Step>) -> Seq<Seq<Step>> {
    if steps.len() > 0 {
        seq![steps]
    } else {
        Seq::empty()
    }
}

/// The waves that detach entries, from the given depth upwards to the root.
pub open spec fn detach_waves(tokens: Seq<TokenView>, base: int, depth: int) -> Seq<Seq<Step>>
    decreases depth,
{
    if depth <= 0 {
        Seq::empty()
    } else {
        wave_of(detach_steps(tokens, depth, base)) + detach_waves(tokens, base, depth - 1)
    }
}

/// The waves that attach tokens, from the root down to the given depth.
pub open spec fn attach_waves(tokens: Seq<TokenView>, base: int, depth: int) -> Seq<Seq<Step>>
    decreases depth,
{
    if depth <= 0 {
        Seq::empty()
    } else {
        attach_waves(tokens, base, depth - 1) + wave_of(attach_steps(tokens, base, depth, tokens.len() as int))
    }
}

/// No detached or attached path is deeper.
pub open spec fn depth_bound(s: Sources, depth: int) -> bool {
    &&& forall|k: int| 0 <= k < s.detach.len() ==> (#[trigger] s.detach[k]).len() <= depth
    &&& forall|k: int| 0 <= k < s.attach.len() ==> (#[trigger] s.attach[k]).len() <= depth
}

/// The plan that the sources call for.
pub open spec fn compiled(s: Sources, p: PlanView) -> bool {
    &&& p.tokens == s.tokens()
    &&& exists|depth: int| #[trigger]
        depth_bound(s, depth) && p.waves == detach_waves(s.tokens(), s.detach.len() as int, depth) + attach_waves(
            s.tokens(),
            s.detach.len() as int,
            depth,
        )
}

/// The base entry that left `b` is still on disk at `b`.
pub open spec fn still_there(ov: OverlayView, d: Disk, b: PathView) -> bool {
    d.resolve(b) matches Some(id) && d.shows(id) == ov.detached[b].id
}

/// The sources belong to the overlay, the disks and the transaction, and every base entry
/// that is to be moved was found unchanged.
pub open spec fn gathered(s: Sources, pk: Seq<PathView>, dk: Seq<PathView>) -> bool {
    &&& s.attach == attach_list(s.ov, s.before, pk, pk.len() as int)
    &&& s.detach == detach_list(s.ov, s.before, s.attach, dk, dk.len() as int)
    &&& forall|k: int| 0 <= k < s.detach.len() ==> still_there(s.ov, s.before, #[trigger] s.detach[k])
    &&& s.before.dir_at(s.staged()) is Some
    &&& s.before.dir_at(s.backup()) is Some
    &&& same_tree(s.before, s.after)
}

/// Whether the base entry that an entry comes from is that of `p`.
fn comes_from(e: &Entry, p: &RelPath) -> (r: bool)
    ensures
        r == (origin_of(e@) == Some(p@)),
{
    match &e.src {
        Src::Base { origin, .. } => origin.same(p),
        _ => false,
    }
}

/// The error names a clash that is seen somewhere.
pub open spec fn clash_reported(ov: OverlayView, d: Disk, e: Error) -> bool {
    exists|q: PathView| (#[trigger] ov.look(d, q)) matches Look::Clash(x) && reports(e, Fault::Clash(x))
}

/// Whether the decision at `p` is an identity no-op.
fn check_noop<V: Vfs>(ov: &Overlay, vfs: &V, p: &RelPath) -> (r: Result<bool>)
    requires
        vfs.valid(),
        ov.well_formed(),
    ensures
        r matches Ok(b) ==> b == is_noop(ov@, vfs.disk(), p@),
        r matches Err(e) ==> e is Io || clash_reported(ov@, vfs.disk(), e),
        vfs.serves() && ov@.rooted(vfs.disk()) ==> answered(r),
{
    match ov.decision(p) {
        Some(Slot::Present(e)) => {
            if !comes_from(e, p) {
                return Ok(false);
            }
        },
        _ => {
            return Ok(false);
        },
    }
    let qs = p.proper_prefixes();
    let n = qs.len();
    let mut i: usize = 0;
    while i < n
        invariant
            i <= n,
            n == qs@.len(),
            n == (if p@.len() == 0 {
                0
            } else {
                p@.len() - 1
            }),
            vfs.valid(),
            ov.well_formed(),
            forall|k: int| 0 <= k < n ==> (#[trigger] qs@[k])@ == p@.take(k + 1),
            forall|k: int| 0 < k <= i ==> unmoved(ov@, vfs.disk(), #[trigger] p@.take(k)),
        decreases n - i,
    {
        let q = &qs[i];
        assert(q@ == p@.take(i + 1));
        match ov.resolve(vfs, q) {
            Ok(Some(a)) => {
                if !comes_from(&a, q) {
                    assert(!unmoved(ov@, vfs.disk(), p@.take(i + 1)));
                    return Ok(false);
                }
            },
            Ok(None) => {
                assert(!unmoved(ov@, vfs.disk(), p@.take(i + 1)));
                return Ok(false);
            },
            Err(e) => {
                assert(e is Io || ov@.look(vfs.disk(), q@) is Clash);
                return Err(e);
            },
        }
        assert(unmoved(ov@, vfs.disk(), p@.take(i + 1)));
        i = i + 1;
    }
    Ok(true)
}

/// The paths at which something must be attached, with their entries.
fn gather_attach<V: Vfs>(ov: &Overlay, vfs: &V) -> (r: Result<Vec<(RelPath, Entry)>>)
    requires
        vfs.valid(),
        ov.well_formed(),
    ensures
        r matches Ok(v) ==> {
            let list = attach_list(ov@, vfs.disk(), ov.placed_keys(), ov.placed_keys().len() as int);
            v@.len() == list.len() && forall|i: int|
                0 <= i < v@.len() ==> (#[trigger] v@[i]).0@ == list[i] && is_placed(ov@, list[i]) && v@[i].1@
                    == placed_entry(ov@, list[i])
        },
        r matches Err(e) ==> e is Io || clash_reported(ov@, vfs.disk(), e),
        vfs.serves() && ov@.rooted(vfs.disk()) ==> answered(r),
{
    let n = ov.placed_len();
    let ghost d = vfs.disk();
    let ghost keys = ov.placed_keys();
    let mut out: Vec<(RelPath, Entry)> = Vec::new();
    let mut i: usize = 0;
    while i < n
        invariant
            i <= n,
            n == keys.len(),
            keys == ov.placed_keys(),
            vfs.valid(),
            d == vfs.disk(),
            ov.well_formed(),
            out@.len() == attach_list(ov@, d, keys, i as int).len(),
            forall|k: int|
                0 <= k < out@.len() ==> (#[trigger] out@[k]).0@ == attach_list(ov@, d, keys, i as int)[k] && is_placed(
                    ov@,
                    out@[k].0@,
                ) && out@[k].1@ == placed_entry(ov@, out@[k].0@),
        decreases n - i,
    {
        let p = ov.placed_path(i);
        match ov.placed_slot(i) {
            Slot::Present(e) => {
                let noop = match check_noop(ov, vfs, p) {
                    Ok(x) => x,
                    Err(e) => return Err(e),
                };
                if !noop {
                    out.push((p.clone(), e.clone()));
                }
            },
            Slot::Absent => {},
        }
        i = i + 1;
    }
    Ok(out)
}

/// The paths of a list of placed entries.
spec fn paths_of(v: Seq<(RelPath, Entry)>) -> Seq<PathView> {
    v.map_values(|x: (RelPath, Entry)| x.0@)
}

/// The list holds what is placed at its paths.
spec fn holds_placed(ov: OverlayView, v: Seq<(RelPath, Entry)>) -> bool {
    forall|i: int|
        0 <= i < v.len() ==> is_placed(ov, (#[trigger] v[i]).0@) && v[i].1@ == placed_entry(ov, v[i].0@)
}

/// Where the entry from base path `o` is attached.
fn find_home(ov: &Overlay, attach: &Vec<(RelPath, Entry)>, o: &RelPath) -> (r: Option<usize>)
    requires
        holds_placed(ov@, attach@),
    ensures
        match new_home(ov@, paths_of(attach@), o@, attach@.len() as int) {
            Some(p) => r matches Some(i) && i < attach@.len() && attach@[i as int].0@ == p,
            None => r is None,
        },
{
    let n = attach.len();
    let ghost list = paths_of(attach@);
    let mut i: usize = n;
    while i > 0
        invariant
            i <= n,
            n == attach@.len(),
            list == paths_of(attach@),
            holds_placed(ov@, attach@),
            new_home(ov@, list, o@, n as int) == new_home(ov@, list, o@, i as int),
        decreases i,
    {
        i = i - 1;
        assert(list[i as int] == attach@[i as int].0@);
        if comes_from(&attach[i].1, o) {
            return Some(i);
        }
    }
    None
}

/// Whether the base entry of `b` is removed for good.
fn check_removed<V: Vfs>(ov: &Overlay, vfs: &V, attach: &Vec<(RelPath, Entry)>, b: &RelPath) -> (r: Result<bool>)
    requires
        vfs.valid(),
        ov.well_formed(),
        holds_placed(ov@, attach@),
    ensures
        r matches Ok(x) ==> x == is_removed(ov@, vfs.disk(), paths_of(attach@), b@),
        r matches Err(e) ==> e is Io || clash_reported(ov@, vfs.disk(), e),
        vfs.serves() && ov@.rooted(vfs.disk()) ==> answered(r),
{
    if !ov.is_detached(b) {
        return Ok(false);
    }
    if find_home(ov, attach, b).is_some() {
        return Ok(false);
    }
    match check_noop(ov, vfs, b) {
        Ok(x) => Ok(!x),
        Err(e) => Err(e),
    }
}

/// Whether `b` leaves with a directory above it that is removed for good.
fn check_covered<V: Vfs>(ov: &Overlay, vfs: &V, attach: &Vec<(RelPath, Entry)>, b: &RelPath) -> (r: Result<bool>)
    requires
        vfs.valid(),
        ov.well_formed(),
        holds_placed(ov@, attach@),
    ensures
        r matches Ok(x) ==> x == is_covered(ov@, vfs.disk(), paths_of(attach@), b@),
        r matches Err(e) ==> e is Io || clash_reported(ov@, vfs.disk(), e),
        vfs.serves() && ov@.rooted(vfs.disk()) ==> answered(r),
{
    let qs = b.proper_prefixes();
    let n = qs.len();
    let ghost list = paths_of(attach@);
    let mut covered = false;
    let mut i: usize = 0;
    while i < n
        invariant
            i <= n,
            n == qs@.len(),
            n == (if b@.len() == 0 {
                0
            } else {
                b@.len() - 1
            }),
            vfs.valid(),
            ov.well_formed(),
            list == paths_of(attach@),
            holds_placed(ov@, attach@),
            forall|k: int| 0 <= k < n ==> (#[trigger] qs@[k])@ == b@.take(k + 1),
            covered == is_covered_by(ov@, vfs.disk(), list, b@, i as int),
        decreases n - i,
    {
        let q = &qs[i];
        assert(q@ == b@.take(i + 1));
        let ghost was = covered;
        if find_home(ov, attach, q).is_some() {
            covered = false;
            assert(!is_covered_by(ov@, vfs.disk(), list, b@, i + 1));
        } else if covered {
            proof {
                let k = choose|k: int|
                    0 < k <= i && is_removed(ov@, vfs.disk(), list, #[trigger] b@.take(k)) && forall|j: int|
                        k < j <= i ==> new_home(ov@, list, #[trigger] b@.take(j), list.len() as int) is None;
                assert(is_removed(ov@, vfs.disk(), list, b@.take(k)));
            }
        } else {
            match check_removed(ov, vfs, attach, q) {
                Ok(x) => {
                    covered = x;
                    proof {
                        assert(x == is_removed(ov@, vfs.disk(), list, b@.take(i + 1)));
                        if !x && is_covered_by(ov@, vfs.disk(), list, b@, i + 1) {
                            let k = choose|k: int|
                                0 < k <= i + 1 && is_removed(ov@, vfs.disk(), list, #[trigger] b@.take(k)) && forall|
                                    j: int,
                                |
                                    k < j <= i + 1 ==> new_home(ov@, list, #[trigger] b@.take(j), list.len() as int) is None;
                            assert(is_removed(ov@, vfs.disk(), list, b@.take(k)));
                            assert(is_covered_by(ov@, vfs.disk(), list, b@, i as int));
                        }
                    }
                },
                Err(e) => return Err(e),
            }
        }
        i = i + 1;
    }
    Ok(covered)
}

/// Whether the base entry of `b` must be detached.
fn check_detaching<V: Vfs>(ov: &Overlay, vfs: &V, attach: &Vec<(RelPath, Entry)>, b: &RelPath) -> (r: Result<bool>)
    requires
        vfs.valid(),
        ov.well_formed(),
        holds_placed(ov@, attach@),
    ensures
        r matches Ok(x) ==> x == detaching(ov@, vfs.disk(), paths_of(attach@), b@),
        r matches Err(e) ==> e is Io || clash_reported(ov@, vfs.disk(), e),
        vfs.serves() && ov@.rooted(vfs.disk()) ==> answered(r),
{
    let noop = match check_noop(ov, vfs, b) {
        Ok(x) => x,
        Err(e) => return Err(e),
    };
    if noop {
        return Ok(false);
    }
    if find_home(ov, attach, b).is_some() {
        return Ok(true);
    }
    match check_covered(ov, vfs, attach, b) {
        Ok(x) => Ok(!x),
        Err(e) => Err(e),
    }
}

/// A detached base entry: its base path and what was there.
struct Leaving {
    path: RelPath,
    gone: Gone,
}

/// The list holds the given base paths, with what left them.
spec fn holds_gone(ov: OverlayView, v: Seq<Leaving>, list: Seq<PathView>) -> bool {
    &&& v.len() == list.len()
    &&& forall|i: int|
        0 <= i < v.len() ==> (#[trigger] v[i]).path@ == list[i] && ov.detached.contains_key(list[i]) && v[i].gone
            == ov.detached[list[i]]
}

/// The base entries that must be detached; each must still be where it was found.
fn gather_detach<V: Vfs>(ov: &Overlay, vfs: &V, attach: &Vec<(RelPath, Entry)>) -> (r: Result<Vec<Leaving>>)
    requires
        vfs.valid(),
        ov.well_formed(),
        holds_placed(ov@, attach@),
    ensures
        r matches Ok(v) ==> {
            let list = detach_list(
                ov@,
                vfs.disk(),
                paths_of(attach@),
                ov.detached_keys(),
                ov.detached_keys().len() as int,
            );
            holds_gone(ov@, v@, list) && forall|k: int|
                0 <= k < list.len() ==> still_there(ov@, vfs.disk(), #[trigger] list[k])
        },
        r matches Err(e) ==> match e {
            Error::Conflict(b) => ov@.detached.contains_key(b@) && detaching(
                ov@,
                vfs.disk(),
                paths_of(attach@),
                b@,
            ) && !still_there(ov@, vfs.disk(), b@),
            _ => e is Io || clash_reported(ov@, vfs.disk(), e),
        },
        vfs.serves() && ov@.rooted(vfs.disk()) && (forall|b: PathView| #[trigger]
            ov@.detached.contains_key(b) ==> way_clear(vfs.disk(), b)) ==> answered(r),
{
    let ghost d = vfs.disk();
    let ghost al = paths_of(attach@);
    let ghost keys = ov.detached_keys();
    let n = ov.detached_len();
    let mut out: Vec<Leaving> = Vec::new();
    let mut i: usize = 0;
    while i < n
        invariant
            i <= n,
            n == keys.len(),
            keys == ov.detached_keys(),
            vfs.valid(),
            d == vfs.disk(),
            ov.well_formed(),
            al == paths_of(attach@),
            holds_placed(ov@, attach@),
            holds_gone(ov@, out@, detach_list(ov@, d, al, keys, i as int)),
            forall|k: int|
                0 <= k < out@.len() ==> still_there(ov@, d, #[trigger] detach_list(ov@, d, al, keys, i as int)[k]),
        decreases n - i,
    {
        let b = ov.detached_path(i);
        let gone = ov.detached_entry(i);
        proof {
            ov.lemma_keys();
            assert(keys.contains(keys[i as int]));
        }
        let take = match check_detaching(ov, vfs, attach, b) {
            Ok(x) => x,
            Err(e) => return Err(e),
        };
        if take {
            let here = match vfs.stat(b) {
                Ok(x) => x,
                Err(e) => return Err(Error::Io(e)),
            };
            let same = match here {
                Some(m) => m.id == gone.id,
                None => false,
            };
            if !same {
                return Err(Error::Conflict(b.clone()));
            }
            out.push(Leaving { path: b.clone(), gone });
        }
        i = i + 1;
    }
    Ok(out)
}

/// The identity of the directory at `p`.
fn dir_identity<V: Vfs>(vfs: &V, p: &RelPath) -> (r: Result<FileId>)
    requires
        vfs.valid(),
    ensures
        r matches Ok(id) ==> (vfs.disk().dir_at(p@) matches Some(x) && vfs.disk().shows(x) == id),
        r matches Err(e) ==> match e {
            Error::Conflict(q) => q@ == p@ && vfs.disk().dir_at(p@) is None,
            _ => e is Io,
        },
        vfs.serves() && vfs.disk().dir_at(p@) is Some ==> r is Ok,
        vfs.serves() && way_clear(vfs.disk(), p@) ==> answered(r),
{
    proof {
        if vfs.disk().dir_at(p@) is Some {
            lemma_way_to(vfs.disk(), p@);
        }
    }
    match vfs.stat(p) {
        Ok(Some(m)) => if m.kind == Kind::Dir {
            Ok(m.id)
        } else {
            Err(Error::Conflict(p.clone()))
        },
        Ok(None) => Err(Error::Conflict(p.clone())),
        Err(e) => Err(Error::Io(e)),
    }
}

/// Identities by number.
#[derive(Debug)]
pub struct IdTable {
    entries: Vec<(u64, FileId)>,
}

impl IdTable {
    /// The identity listed last for `n` among the first `k`.
    spec fn last_for(self, n: u64, k: int) -> Option<FileId>
        decreases k,
    {
        if k <= 0 {
            None
        } else if self.entries@[k - 1].0 == n {
            Some(self.entries@[k - 1].1)
        } else {
            self.last_for(n, k - 1)
        }
    }
}

impl View for IdTable {
    type V = Map<u64, FileId>;

    closed spec fn view(&self) -> Map<u64, FileId> {
        Map::new(
            |n: u64| self.last_for(n, self.entries@.len() as int) is Some,
            |n: u64| self.last_for(n, self.entries@.len() as int)->0,
        )
    }
}

impl IdTable {
    /// An empty table.
    pub fn new() -> (r: IdTable)
        ensures
            r@ == Map::<u64, FileId>::empty(),
    {
        let r = IdTable { entries: Vec::new() };
        assert(r@ =~= Map::<u64, FileId>::empty());
        r
    }

    /// Enters an identity.
    pub fn insert(&mut self, n: u64, id: FileId)
        ensures
            final(self)@ == old(self)@.insert(n, id),
    {
        let ghost before = *self;
        self.entries.push((n, id));
        proof {
            let k = before.entries@.len() as int;
            assert(before.entries@.take(k) =~= self.entries@.take(k));
            assert forall|m: u64| #[trigger] self.last_for(m, k) == before.last_for(m, k) by {
                lemma_last_for_same(before, *self, m, k);
            }
            assert forall|m: u64| self.last_for(m, k + 1) == (if m == n {
                Some(id)
            } else {
                before.last_for(m, k)
            }) by {
                assert(self.last_for(m, k) == before.last_for(m, k));
            }
            assert(self@ =~= before@.insert(n, id));
        }
    }

    /// The identity for a number.
    pub fn get(&self, n: u64) -> (r: Option<FileId>)
        ensures
            r is Some <==> self@.contains_key(n),
            r matches Some(id) ==> self@[n] == id,
    {
        let len = self.entries.len();
        let mut k: usize = len;
        while k > 0
            invariant
                k <= len,
                len == self.entries@.len(),
                self.last_for(n, len as int) == self.last_for(n, k as int),
            decreases k,
        {
            k = k - 1;
            if self.entries[k].0 == n {
                return Some(self.entries[k].1);
            }
        }
        None
    }
}

proof fn lemma_last_for_same(a: IdTable, b: IdTable, n: u64, k: int)
    requires
        0 <= k <= a.entries@.len(),
        k <= b.entries@.len(),
        a.entries@.take(k) == b.entries@.take(k),
    ensures
        a.last_for(n, k) == b.last_for(n, k),
    decreases k,
{
    if k > 0 {
        assert(a.entries@.take(k - 1) =~= a.entries@.take(k).take(k - 1));
        assert(b.entries@.take(k - 1) =~= b.entries@.take(k).take(k - 1));
        assert(a.entries@.take(k)[k - 1] == b.entries@.take(k)[k - 1]);
        lemma_last_for_same(a, b, n, k - 1);
    }
}

/// The numbers of the new directories among the entries, in order.
pub open spec fn new_dirs(es: Seq<EntryView>) -> Seq<u64>
    decreases es.len(),
{
    if es.len() == 0 {
        Seq::empty()
    } else {
        match es.last().src {
            SrcView::NewDir { n } => new_dirs(es.drop_last()).push(n),
            _ => new_dirs(es.drop_last()),
        }
    }
}

/// The entries of the list.
spec fn entries_of(v: Seq<(RelPath, Entry)>) -> Seq<EntryView> {
    v.map_values(|e: (RelPath, Entry)| e.1@)
}

/// `b` is `a` with a new directory in `staged` for the number `k`, whose identity `ids` holds
/// beside those that are known.
pub open spec fn dir_staged(
    a: Disk,
    b: Disk,
    staged: PathView,
    k: u64,
    known: Map<u64, FileId>,
    ids: Map<u64, FileId>,
) -> bool {
    exists|id: FileId, mode: u32| #[trigger]
        created_at(a, b, staged.push(new_dir_name(k)), id, Object::Dir { mode }) && ids == known.insert(k, b.shows(id))
}

/// `b` is `a` with a new directory in `staged` for each of the numbers, made in this order;
/// `ids` holds the identity of each.
pub open spec fn dirs_staged(a: Disk, b: Disk, staged: PathView, ks: Seq<u64>, ids: Map<u64, FileId>) -> bool
    decreases ks.len(),
{
    if ks.len() == 0 {
        b == a && ids == Map::<u64, FileId>::empty()
    } else {
        exists|m: Disk, known: Map<u64, FileId>|
            dirs_staged(a, m, staged, ks.drop_last(), known) && #[trigger] dir_staged(
                m,
                b,
                staged,
                ks.last(),
                known,
                ids,
            )
    }
}

/// `b` is `a` with new directories in `staged` for the first of the numbers; something may have
/// been left behind at the place of the next.
pub open spec fn dirs_begun(a: Disk, b: Disk, staged: PathView, ks: Seq<u64>) -> bool {
    exists|k: int, m: Disk, ids: Map<u64, FileId>|
        0 <= k < ks.len() && #[trigger] dirs_staged(a, m, staged, ks.take(k), ids) && (b == m || exists|
            id: FileId,
            object: Object,
        | #[trigger]
            created_at(m, b, staged.push(new_dir_name(ks[k])), id, object))
}

/// Nothing stands in the way of making the new directories: `staged` is a directory in which
/// their names are free, and no two of these are alike.
pub open spec fn can_stage(d: Disk, staged: PathView, ks: Seq<u64>) -> bool {
    &&& d.dir_at(staged) is Some
    &&& forall|i: int| 0 <= i < ks.len() ==> d.resolve(staged.push(new_dir_name(#[trigger] ks[i]))) is None
    &&& forall|i: int, j: int|
        0 <= i < j < ks.len() ==> !alike(d, new_dir_name(#[trigger] ks[i]), new_dir_name(#[trigger] ks[j]))
}

/// Each number in a prefix of a list is one of the list.
proof fn lemma_new_dirs_prefix(es: Seq<EntryView>, n: int)
    requires
        0 <= n <= es.len(),
    ensures
        new_dirs(es.take(n)).len() <= new_dirs(es).len(),
        new_dirs(es).take(new_dirs(es.take(n)).len() as int) == new_dirs(es.take(n)),
    decreases es.len() - n,
{
    let ks = new_dirs(es.take(n));
    if n < es.len() {
        lemma_new_dirs_prefix(es, n + 1);
        let more = new_dirs(es.take(n + 1));
        assert(es.take(n + 1).drop_last() =~= es.take(n));
        assert(more.take(ks.len() as int) =~= ks);
        assert(new_dirs(es).take(ks.len() as int) =~= new_dirs(es).take(more.len() as int).take(ks.len() as int));
    } else {
        assert(es.take(n) =~= es);
        assert(ks.take(ks.len() as int) =~= ks);
    }
}

/// One more directory.
proof fn lemma_one_more_dir(
    a: Disk,
    m: Disk,
    b: Disk,
    staged: PathView,
    ks: Seq<u64>,
    k: u64,
    ids: Map<u64, FileId>,
    id: FileId,
    mode: u32,
)
    requires
        dirs_staged(a, m, staged, ks, ids),
        created_at(m, b, staged.push(new_dir_name(k)), id, Object::Dir { mode }),
    ensures
        dirs_staged(a, b, staged, ks.push(k), ids.insert(k, b.shows(id))),
{
    reveal_with_fuel(dirs_staged, 2);
    let more = ks.push(k);
    assert(more.drop_last() =~= ks);
    assert(dir_staged(m, b, staged, more.last(), ids, ids.insert(k, b.shows(id))));
}

/// With the directory for number `k` made, the next ones can still be made.
proof fn lemma_staging_goes_on(a: Disk, b: Disk, staged: PathView, ks: Seq<u64>, k: int, id: FileId, object: Object)
    requires
        a.well_formed(),
        b.well_formed(),
        0 <= k < ks.len(),
        can_stage(a, staged, ks.skip(k)),
        created_at(a, b, staged.push(new_dir_name(ks[k])), id, object),
    ensures
        can_stage(b, staged, ks.skip(k + 1)),
{
    let name = new_dir_name(ks[k]);
    let p = staged.push(name);
    let now = ks.skip(k);
    let next = ks.skip(k + 1);
    assert(now[0] == ks[k]);
    lemma_child_off_path(a, staged, name);
    lemma_frame_create(a, b, p, id, object, staged);
    assert forall|i: int| 0 <= i < next.len() implies b.resolve(staged.push(new_dir_name(#[trigger] next[i]))) is None by {
        assert(next[i] == now[i + 1]);
        let other = new_dir_name(next[i]);
        let q = staged.push(other);
        assert(!alike(a, new_dir_name(now[0]), new_dir_name(now[i + 1])));
        if goes_through(a, q, p) {
            let j = choose|j: int| 0 < j <= q.len() && alike_paths(a, p, #[trigger] q.take(j));
            assert(q.take(j) =~= q);
            assert(alike(a, p[staged.len() as int], q[staged.len() as int]));
        }
        lemma_frame_create(a, b, p, id, object, q);
    }
    assert forall|i: int, j: int| 0 <= i < j < next.len() implies !alike(
        b,
        new_dir_name(#[trigger] next[i]),
        new_dir_name(#[trigger] next[j]),
    ) by {
        assert(next[i] == now[i + 1] && next[j] == now[j + 1]);
    }
}

/// Stages the new directories, so that every token's identity is known before the journal
/// exists.
fn stage_dirs<V: Vfs>(vfs: &mut V, tx: &TxDir, attach: &Vec<(RelPath, Entry)>) -> (r: Result<IdTable>)
    requires
        old(vfs).valid(),
    ensures
        final(vfs).valid(),
        same_volume(old(vfs).disk(), final(vfs).disk()),
        same_tree(old(vfs).disk(), final(vfs).disk()),
        r matches Ok(ids) ==> dirs_staged(
            old(vfs).disk(),
            final(vfs).disk(),
            tx.at().push(staged_name()),
            new_dirs(entries_of(attach@)),
            ids@,
        ),
        r matches Err(e) ==> e is Io && dirs_begun(
            old(vfs).disk(),
            final(vfs).disk(),
            tx.at().push(staged_name()),
            new_dirs(entries_of(attach@)),
        ),
        old(vfs).serves() && old(vfs).room() >= new_dirs(entries_of(attach@)).len() && can_stage(
            old(vfs).disk(),
            tx.at().push(staged_name()),
            new_dirs(entries_of(attach@)),
        ) ==> r is Ok,
        old(vfs).serves() ==> final(vfs).serves() && final(vfs).room() + new_dirs(entries_of(attach@)).len() >= old(
            vfs,
        ).room(),
{
    let ghost a = vfs.disk();
    let ghost es = entries_of(attach@);
    let ghost all = new_dirs(es);
    let ghost sure = vfs.serves() && vfs.room() >= all.len() && can_stage(a, tx.at().push(staged_name()), all);
    let mut ids = IdTable::new();
    let staged = tx.staged();
    let n = attach.len();
    let mut i: usize = 0;
    proof {
        lemma_same_content(a, a);
        assert(es.take(0) =~= Seq::<EntryView>::empty());
        assert(all.skip(0) =~= all);
    }
    while i < n
        invariant
            i <= n,
            n == attach@.len(),
            vfs.valid(),
            a == old(vfs).disk(),
            private_path(staged@),
            same_volume(a, vfs.disk()),
            same_tree(a, vfs.disk()),
            staged@ == tx.at().push(staged_name()),
            es == entries_of(attach@),
            all == new_dirs(es),
            dirs_staged(a, vfs.disk(), staged@, new_dirs(es.take(i as int)), ids@),
            sure == (old(vfs).serves() && old(vfs).room() >= all.len() && can_stage(a, staged@, all)),
            old(vfs).serves() ==> vfs.serves() && vfs.room() + new_dirs(es.take(i as int)).len() >= old(vfs).room(),
            sure ==> can_stage(
                vfs.disk(),
                staged@,
                all.skip(new_dirs(es.take(i as int)).len() as int),
            ),
        decreases n - i,
    {
        let ghost ks = new_dirs(es.take(i as int));
        let ghost more = new_dirs(es.take(i + 1));
        proof {
            assert(es.take(i + 1).drop_last() =~= es.take(i as int));
            assert(es.take(i + 1).last() == attach@[i as int].1@);
            lemma_new_dirs_prefix(es, i as int);
            lemma_new_dirs_prefix(es, i + 1);
        }
        if let Src::NewDir { n: k } = &attach[i].1.src {
            let path = staged.join(new_dir_file(*k));
            assert(path@[0] == staged@[0]);
            let ghost b = vfs.disk();
            proof {
                vfs.lemma_valid();
                assert(more == ks.push(*k));
                assert(all.take(more.len() as int)[ks.len() as int] == *k);
                assert(path@ == staged@.push(new_dir_name(*k)));
                assert(path@.drop_last() =~= staged@);
                if sure {
                    let rest = all.skip(ks.len() as int);
                    assert(rest[0] == *k);
                    lemma_resolve_key(b, path@);
                    assert(free_at(b, path@));
                }
            }
            let made = vfs.mkdir(&path);
            proof {
                vfs.lemma_valid();
                if vfs.disk() != b {
                    lemma_made_privately(b, vfs.disk(), path@);
                } else {
                    lemma_same_content(b, b);
                }
                lemma_same_tree_transitive(a, b, vfs.disk());
            }
            match made {
                Ok(m) => {
                    proof {
                        let object = Object::Dir { mode: m.mode };
                        let c = vfs.disk();
                        let id = choose|id: FileId| #[trigger] created_at(b, c, path@, id, object) && m.id == c.shows(id);
                        lemma_one_more_dir(a, b, c, staged@, ks, *k, ids@, id, m.mode);
                        if sure {
                            lemma_staging_goes_on(b, c, staged@, all, ks.len() as int, id, object);
                        }
                    }
                    ids.insert(*k, m.id);
                },
                Err(e) => {
                    proof {
                        assert(dirs_staged(a, b, staged@, all.take(ks.len() as int), ids@));
                        assert(all[ks.len() as int] == *k);
                        assert(dirs_begun(a, vfs.disk(), staged@, all));
                    }
                    return Err(Error::Io(e));
                },
            }
        }
        i = i + 1;
    }
    assert(es.take(n as int) =~= es);
    Ok(ids)
}

/// Something was created at a private path, so the visible tree is the same.
pub proof fn lemma_made_privately(a: Disk, b: Disk, p: PathView)
    requires
        a.well_formed(),
        b.well_formed(),
        private_path(p),
        exists|id: FileId, object: Object| #[trigger] created_at(a, b, p, id, object),
    ensures
        same_tree(a, b),
{
    let (id, object) = choose|id: FileId, object: Object| #[trigger] created_at(a, b, p, id, object);
    lemma_private_create(a, b, p, id, object);
}

/// The parent of `p` is seen as a directory whose identity is known.
pub open spec fn has_parent(s: Sources, p: PathView) -> bool {
    parent_of(p).len() == 0 || (s.ov.look(s.after, parent_of(p)) matches Look::Found(e) && e.kind == EKind::Dir && match e.src {
        SrcView::Base { .. } => true,
        SrcView::NewDir { n } => s.dirs.contains_key(n),
        SrcView::Blob { .. } => false,
    })
}

/// The identity that the parent of `p` will have.
fn parent_identity<V: Vfs>(
    ov: &Overlay,
    vfs: &V,
    root_id: FileId,
    blobs: &IdTable,
    dirs: &IdTable,
    p: &RelPath,
    Ghost(s): Ghost<Sources>,
) -> (r: Result<FileId>)
    requires
        vfs.valid(),
        ov.well_formed(),
        s.ov == ov@,
        s.after == vfs.disk(),
        s.dirs == dirs@,
        s.blobs == blobs@,
        root_id == s.before.shows(s.before.root),
    ensures
        r matches Ok(id) ==> id == s.parent_id(p@),
        r matches Err(e) ==> e is Io || clash_reported(ov@, vfs.disk(), e) || (e matches Error::NotFound(q) && q@
            == parent_of(p@) && !has_parent(s, p@)),
        vfs.serves() && ov@.rooted(vfs.disk()) ==> answered(r),
{
    let q = p.parent_or_root();
    if q.is_root() {
        return Ok(root_id);
    }
    match ov.resolve(vfs, &q) {
        Ok(Some(e)) => {
            if e.kind != EKind::Dir {
                return Err(Error::NotFound(q));
            }
            match e.src {
                Src::Base { id, .. } => Ok(id),
                Src::NewDir { n } => match dirs.get(n) {
                    Some(id) => Ok(id),
                    None => Err(Error::NotFound(q)),
                },
                Src::Blob { .. } => Err(Error::NotFound(q)),
            }
        },
        Ok(None) => Err(Error::NotFound(q)),
        Err(e) => {
            assert(e is Io || ov@.look(vfs.disk(), q@) is Clash);
            Err(e)
        },
    }
}

/// The views of tokens.
pub open spec fn token_views(v: Seq<Token>) -> Seq<TokenView> {
    v.map_values(|t: Token| t@)
}

/// The values that the plan is made from, beside the disk.
struct Parts<'a> {
    ov: &'a Overlay,
    tx: &'a TxDir,
    attach: &'a Vec<(RelPath, Entry)>,
    detach: &'a Vec<Leaving>,
    blobs: &'a IdTable,
    dirs: &'a IdTable,
    root_id: FileId,
    staged_id: FileId,
    backup_id: FileId,
}

/// The parts are those of the sources.
spec fn parts_of<V: Vfs>(c: Parts, vfs: V, s: Sources) -> bool {
    &&& vfs.valid()
    &&& c.ov.well_formed()
    &&& s.ov == c.ov@
    &&& s.tx == c.tx.id()
    &&& s.after == vfs.disk()
    &&& s.blobs == c.blobs@
    &&& s.dirs == c.dirs@
    &&& s.attach == paths_of(c.attach@)
    &&& holds_placed(c.ov@, c.attach@)
    &&& holds_gone(c.ov@, c.detach@, s.detach)
    &&& c.root_id == s.before.shows(s.before.root)
    &&& c.staged_id == s.dir_id(s.before, s.staged())
    &&& c.backup_id == s.dir_id(s.before, s.backup())
}

/// Something is placed where it cannot go: `q` should hold it and is not seen as a directory, or
/// `q` is where it goes, and its file has not been staged.
pub open spec fn orphaned(ov: OverlayView, d: Disk, blobs: Map<u64, FileId>, q: PathView) -> bool {
    exists|p: PathView| #[trigger]
        is_placed(ov, p) && (q == parent_of(p) && !(ov.look(d, q) matches Look::Found(e) && e.kind == EKind::Dir) || q == p && (
        placed_entry(ov, p).src matches SrcView::Blob { n, .. } && !blobs.contains_key(n)))
}

/// The plan that the overlay calls for has this defect.
pub open spec fn defective(ov: OverlayView, d: Disk, tx: Name, blobs: Map<u64, FileId>, reason: Reason) -> bool {
    exists|b: Disk, p: PlanView| #[trigger] plans_for(ov, d, b, tx, blobs, p) && !p.valid() && p.has_defect(reason)
}

/// Compiling ends in this error; `pk` are the paths at which decisions stand. An entry that was to
/// be moved is no longer there; or one of the transaction's own directories is not; or a name
/// clashes; or something is placed where it cannot go; or a special file was to be moved; or
/// the plan could not be undone; or the filesystem failed.
pub open spec fn compile_failed(
    ov: OverlayView,
    pk: Seq<PathView>,
    d: Disk,
    tx: TxDir,
    blobs: Map<u64, FileId>,
    e: Error,
) -> bool {
    match e {
        Error::Conflict(q) => {
            ||| ov.detached.contains_key(q@) && detaching(ov, d, attach_list(ov, d, pk, pk.len() as int), q@) && !still_there(ov, d, q@)
            ||| (q@ == tx.at().push(staged_name()) || q@ == tx.at().push(backup_name())) && d.dir_at(q@) is None
        },
        Error::CaseCollision { .. } => clash_reported(ov, d, e),
        Error::NotFound(q) => orphaned(ov, d, blobs, q@),
        Error::UnsupportedFileType(q) => ov.detached.contains_key(q@) && ov.detached[q@].kind == EKind::Special,
        Error::RecoveryRequired { tx: name, reason } => name@ == tx.name@ && defective(ov, d, tx.id(), blobs, reason),
        _ => e is Io,
    }
}

/// Nothing stands in the way of compiling: everything is where it was found or staged, under a
/// directory, no name clashes, the transaction's directories are there, the names for new
/// directories are free and not used twice, and the plan can be undone.
pub open spec fn can_compile(ov: OverlayView, d: Disk, tx: TxDir, blobs: Map<u64, FileId>) -> bool {
    let staged = tx.at().push(staged_name());
    &&& ov.rooted(d)
    &&& forall|b: PathView| #[trigger]
        ov.detached.contains_key(b) ==> still_there(ov, d, b) && ov.detached[b].kind != EKind::Special
    &&& forall|q: PathView| !((#[trigger] ov.look(d, q)) is Clash)
    &&& forall|q: PathView| !orphaned(ov, d, blobs, q)
    &&& d.dir_at(staged) is Some
    &&& d.dir_at(tx.at().push(backup_name())) is Some
    &&& forall|n: u64| d.resolve(staged.push(#[trigger] new_dir_name(n))) is None
    &&& one_use(ov)
    &&& forall|reason: Reason| !defective(ov, d, tx.id(), blobs, reason)
}

/// Only the staged changes themselves can stop compiling, not the filesystem: everything can be
/// looked at, and the names for new directories are free and not used twice.
pub open spec fn can_try(ov: OverlayView, d: Disk, tx: TxDir) -> bool {
    let staged = tx.at().push(staged_name());
    &&& ov.rooted(d)
    &&& forall|b: PathView| #[trigger] ov.detached.contains_key(b) ==> way_clear(d, b)
    &&& way_clear(d, staged)
    &&& way_clear(d, tx.at().push(backup_name()))
    &&& forall|n: u64| d.resolve(staged.push(#[trigger] new_dir_name(n))) is None
    &&& one_use(ov)
}

/// No new directory is placed twice.
pub open spec fn one_use(ov: OverlayView) -> bool {
    forall|p: PathView, q: PathView|
        #![trigger is_placed(ov, p), is_placed(ov, q)]
        is_placed(ov, p) && is_placed(ov, q) && placed_entry(ov, p).src is NewDir && placed_entry(ov, p).src == placed_entry(
            ov,
            q,
        ).src ==> p == q
}

/// Makes the tokens for the detached entries.
fn base_tokens<V: Vfs>(c: &Parts, vfs: &V, Ghost(s): Ghost<Sources>) -> (r: Result<Vec<Token>>)
    requires
        parts_of(*c, *vfs, s),
    ensures
        r matches Ok(v) ==> token_views(v@) == Seq::new(s.detach.len(), |k: int| s.base_token(k)),
        r matches Err(e) ==> match e {
            Error::Conflict(q) => exists|k: int|
                0 <= k < s.detach.len() && q@ == parent_of(#[trigger] s.detach[k]) && s.after.dir_at(q@) is None,
            Error::UnsupportedFileType(q) => s.ov.detached.contains_key(q@) && s.ov.detached[q@].kind == EKind::Special,
            Error::NotFound(q) => exists|k: int|
                0 <= k < s.attach.len() && q@ == parent_of(#[trigger] s.attach[k]) && !has_parent(s, s.attach[k]),
            _ => e is Io || clash_reported(s.ov, s.after, e),
        },
        vfs.serves() && s.ov.rooted(s.after) && (forall|k: int|
            0 <= k < s.detach.len() ==> s.after.dir_at(parent_of(#[trigger] s.detach[k])) is Some) ==> answered(r),
{
    let n = c.detach.len();
    let backup = c.tx.backup();
    let mut out: Vec<Token> = Vec::new();
    let mut k: usize = 0;
    while k < n
        invariant
            k <= n,
            n == c.detach@.len(),
            parts_of(*c, *vfs, s),
            backup@ == s.backup(),
            out@.len() == k,
            forall|i: int| 0 <= i < k ==> (#[trigger] out@[i])@ == s.base_token(i),
        decreases n - k,
    {
        let b = &c.detach[k].path;
        let gone = c.detach[k].gone;
        assert(b@ == s.detach[k as int]);
        let parent = b.parent_or_root();
        let parent_id = if parent.is_root() {
            c.root_id
        } else {
            match dir_identity(vfs, &parent) {
                Ok(x) => x,
                Err(e) => return Err(e),
            }
        };
        let kind = match gone.kind {
            EKind::File => Kind::File,
            EKind::Dir => Kind::Dir,
            EKind::Special => return Err(Error::UnsupportedFileType(b.clone())),
        };
        let start = Loc { path: b.clone(), parent: parent_id };
        let kept = Loc { path: backup.join(write_decimal(k as u64)), parent: c.backup_id };
        let mut locs: Vec<Loc> = Vec::new();
        locs.push(start);
        locs.push(kept);
        match find_home(c.ov, c.attach, b) {
            Some(h) => {
                let p = &c.attach[h].0;
                assert(p@ == s.attach[h as int]);
                let id = match parent_identity(c.ov, vfs, c.root_id, c.blobs, c.dirs, p, Ghost(s)) {
                    Ok(x) => x,
                    Err(e) => return Err(e),
                };
                locs.push(Loc { path: p.clone(), parent: id });
            },
            None => {},
        }
        let t = Token { kind, id: gone.id, locs };
        assert(t@.locs =~= s.base_token(k as int).locs);
        assert(t@ == s.base_token(k as int));
        out.push(t);
        k = k + 1;
    }
    assert(token_views(out@) =~= Seq::new(s.detach.len(), |k: int| s.base_token(k)));
    Ok(out)
}

/// What is new at `p` has been staged.
pub open spec fn is_staged(s: Sources, p: PathView) -> bool {
    match placed_entry(s.ov, p).src {
        SrcView::Base { .. } => true,
        SrcView::Blob { n, .. } => s.blobs.contains_key(n),
        SrcView::NewDir { n } => s.dirs.contains_key(n),
    }
}

/// Makes the tokens for what is new.
fn new_tokens<V: Vfs>(c: &Parts, vfs: &V, Ghost(s): Ghost<Sources>) -> (r: Result<Vec<Token>>)
    requires
        parts_of(*c, *vfs, s),
    ensures
        r matches Ok(v) ==> token_views(v@) == s.new_tokens(s.attach.len() as int),
        r matches Err(e) ==> match e {
            Error::NotFound(q) => exists|k: int|
                0 <= k < s.attach.len() && (q@ == parent_of(#[trigger] s.attach[k]) && !has_parent(s, s.attach[k]) || q@
                    == s.attach[k] && !is_staged(s, s.attach[k])),
            _ => e is Io || clash_reported(s.ov, s.after, e),
        },
        vfs.serves() && s.ov.rooted(s.after) ==> answered(r),
{
    let n = c.attach.len();
    let staged = c.tx.staged();
    let mut out: Vec<Token> = Vec::new();
    let mut k: usize = 0;
    assert(token_views(out@) =~= Seq::<TokenView>::empty());
    while k < n
        invariant
            k <= n,
            n == c.attach@.len(),
            parts_of(*c, *vfs, s),
            staged@ == s.staged(),
            token_views(out@) == s.new_tokens(k as int),
        decreases n - k,
    {
        let p = &c.attach[k].0;
        let e = &c.attach[k].1;
        assert(p@ == s.attach[k as int]);
        let made: Option<(Vec<u8>, FileId, Kind)> = match &e.src {
            Src::Base { .. } => None,
            Src::Blob { n, .. } => match c.blobs.get(*n) {
                Some(id) => Some((blob_file(*n), id, Kind::File)),
                None => return Err(Error::NotFound(p.clone())),
            },
            Src::NewDir { n } => match c.dirs.get(*n) {
                Some(id) => Some((new_dir_file(*n), id, Kind::Dir)),
                None => return Err(Error::NotFound(p.clone())),
            },
        };
        if let Some((name, id, kind)) = made {
            let parent = match parent_identity(c.ov, vfs, c.root_id, c.blobs, c.dirs, p, Ghost(s)) {
                Ok(x) => x,
                Err(e) => return Err(e),
            };
            let mut locs: Vec<Loc> = Vec::new();
            locs.push(Loc { path: staged.join(name), parent: c.staged_id });
            locs.push(Loc { path: p.clone(), parent });
            let t = Token { kind, id, locs };
            assert(t@.locs =~= s.new_token(p@).locs);
            let ghost before = token_views(out@);
            out.push(t);
            assert(token_views(out@) =~= before.push(t@));
        }
        k = k + 1;
    }
    Ok(out)
}

/// The steps that detach entries of one depth.
fn collect_detach(tokens: &Vec<Token>, base: usize, depth: usize) -> (r: Vec<Step>)
    requires
        base <= tokens@.len(),
        forall|t: int| 0 <= t < tokens@.len() ==> (#[trigger] tokens@[t]).locs@.len() >= 2,
    ensures
        r@ == detach_steps(token_views(tokens@), depth as int, base as int),
{
    let mut out: Vec<Step> = Vec::new();
    let mut t: usize = 0;
    while t < base
        invariant
            t <= base,
            base <= tokens@.len(),
            forall|t: int| 0 <= t < tokens@.len() ==> (#[trigger] tokens@[t]).locs@.len() >= 2,
            out@ == detach_steps(token_views(tokens@), depth as int, t as int),
        decreases base - t,
    {
        let loc = &tokens[t].locs[0];
        assert(token_views(tokens@)[t as int].locs[0] == loc@);
        if loc.path.depth() == depth {
            out.push(Step { token: t, from: 0 });
        }
        t = t + 1;
    }
    out
}

/// The steps that attach tokens at one depth.
fn collect_attach(tokens: &Vec<Token>, base: usize, depth: usize) -> (r: Vec<Step>)
    requires
        base <= tokens@.len(),
        forall|t: int| 0 <= t < tokens@.len() ==> (#[trigger] tokens@[t]).locs@.len() >= 2,
    ensures
        r@ == attach_steps(token_views(tokens@), base as int, depth as int, tokens@.len() as int),
{
    let n = tokens.len();
    let ghost tv = token_views(tokens@);
    let mut out: Vec<Step> = Vec::new();
    let mut t: usize = 0;
    while t < n
        invariant
            t <= n,
            n == tokens@.len(),
            base <= n,
            tv == token_views(tokens@),
            forall|t: int| 0 <= t < tokens@.len() ==> (#[trigger] tokens@[t]).locs@.len() >= 2,
            out@ == attach_steps(tv, base as int, depth as int, t as int),
        decreases n - t,
    {
        let tok = &tokens[t];
        assert(tv[t as int] == tok@);
        if t < base {
            if tok.locs.len() == 3 && tok.locs[2].path.depth() == depth {
                assert(attaches_at(tv, base as int, t as int, depth as int));
                out.push(Step { token: t, from: 1 });
            }
        } else if tok.locs[1].path.depth() == depth {
            assert(attaches_at(tv, base as int, t as int, depth as int));
            out.push(Step { token: t, from: 0 });
        }
        t = t + 1;
    }
    out
}

/// The views of waves.
spec fn wave_views(v: Seq<Vec<Step>>) -> Seq<Seq<Step>> {
    v.map_values(|w: Vec<Step>| w@)
}

/// Groups the steps into waves.
fn make_waves(tokens: &Vec<Token>, base: usize, depth: usize) -> (r: Vec<Vec<Step>>)
    requires
        base <= tokens@.len(),
        forall|t: int| 0 <= t < tokens@.len() ==> (#[trigger] tokens@[t]).locs@.len() >= 2,
    ensures
        wave_views(r@) == detach_waves(token_views(tokens@), base as int, depth as int) + attach_waves(
            token_views(tokens@),
            base as int,
            depth as int,
        ),
{
    let ghost tv = token_views(tokens@);
    let mut out: Vec<Vec<Step>> = Vec::new();
    let mut d: usize = depth;
    let ghost down = detach_waves(tv, base as int, depth as int);
    assert(wave_views(out@) =~= Seq::<Seq<Step>>::empty());
    assert(wave_views(out@) + down =~= down);
    while d > 0
        invariant
            d <= depth,
            base <= tokens@.len(),
            tv == token_views(tokens@),
            down == detach_waves(tv, base as int, depth as int),
            forall|t: int| 0 <= t < tokens@.len() ==> (#[trigger] tokens@[t]).locs@.len() >= 2,
            wave_views(out@) + detach_waves(tv, base as int, d as int) == down,
        decreases d,
    {
        let steps = collect_detach(tokens, base, d);
        let ghost before = wave_views(out@);
        let ghost rest = detach_waves(tv, base as int, d - 1);
        if steps.len() > 0 {
            out.push(steps);
            assert(wave_views(out@) =~= before + wave_of(steps@));
        } else {
            assert(before =~= before + wave_of(steps@));
        }
        assert(wave_views(out@) + rest =~= before + (wave_of(steps@) + rest));
        d = d - 1;
    }
    assert(wave_views(out@) =~= down);
    let mut d: usize = 0;
    assert(wave_views(out@) =~= down + attach_waves(tv, base as int, 0));
    while d < depth
        invariant
            d <= depth,
            base <= tokens@.len(),
            tv == token_views(tokens@),
            forall|t: int| 0 <= t < tokens@.len() ==> (#[trigger] tokens@[t]).locs@.len() >= 2,
            wave_views(out@) == down + attach_waves(tv, base as int, d as int),
        decreases depth - d,
    {
        d = d + 1;
        let steps = collect_attach(tokens, base, d);
        let ghost before = wave_views(out@);
        if steps.len() > 0 {
            out.push(steps);
            assert(wave_views(out@) =~= before + wave_of(steps@));
        } else {
            assert(before =~= before + wave_of(steps@));
        }
        assert(wave_views(out@) =~= down + attach_waves(tv, base as int, d as int));
    }
    out
}

/// The depth of the deepest path.
fn max_depth(attach: &Vec<(RelPath, Entry)>, detach: &Vec<Leaving>) -> (r: usize)
    ensures
        forall|i: int| 0 <= i < attach@.len() ==> (#[trigger] attach@[i]).0@.len() <= r,
        forall|i: int| 0 <= i < detach@.len() ==> (#[trigger] detach@[i]).path@.len() <= r,
{
    let mut best: usize = 0;
    let n = attach.len();
    let mut i: usize = 0;
    while i < n
        invariant
            i <= n,
            n == attach@.len(),
            forall|k: int| 0 <= k < i ==> (#[trigger] attach@[k]).0@.len() <= best,
        decreases n - i,
    {
        let d = attach[i].0.depth();
        if d > best {
            best = d;
        }
        i = i + 1;
    }
    let m = detach.len();
    let mut i: usize = 0;
    while i < m
        invariant
            i <= m,
            m == detach@.len(),
            forall|k: int| 0 <= k < attach@.len() ==> (#[trigger] attach@[k]).0@.len() <= best,
            forall|k: int| 0 <= k < i ==> (#[trigger] detach@[k]).path@.len() <= best,
        decreases m - i,
    {
        let d = detach[i].path.depth();
        if d > best {
            best = d;
        }
        i = i + 1;
    }
    best
}

/// What is attached is placed.
pub proof fn lemma_attach_list(ov: OverlayView, d: Disk, keys: Seq<PathView>, n: int)
    requires
        0 <= n <= keys.len(),
    ensures
        forall|i: int|
            0 <= i < attach_list(ov, d, keys, n).len() ==> attaching(ov, d, #[trigger] attach_list(ov, d, keys, n)[i]),
    decreases n,
{
    if n > 0 {
        lemma_attach_list(ov, d, keys, n - 1);
        let now = attach_list(ov, d, keys, n);
        assert forall|i: int| 0 <= i < now.len() implies attaching(ov, d, #[trigger] now[i]) by {
            if i < attach_list(ov, d, keys, n - 1).len() {
                assert(now[i] == attach_list(ov, d, keys, n - 1)[i]);
            }
        }
    }
}

/// What is detached is among the base paths that entries have left.
pub proof fn lemma_detach_list(ov: OverlayView, d: Disk, list: Seq<PathView>, keys: Seq<PathView>, n: int)
    requires
        0 <= n <= keys.len(),
    ensures
        forall|i: int|
            0 <= i < detach_list(ov, d, list, keys, n).len() ==> keys.contains(
                #[trigger] detach_list(ov, d, list, keys, n)[i],
            ) && detaching(ov, d, list, detach_list(ov, d, list, keys, n)[i]),
    decreases n,
{
    if n > 0 {
        lemma_detach_list(ov, d, list, keys, n - 1);
        let now = detach_list(ov, d, list, keys, n);
        assert forall|i: int| 0 <= i < now.len() implies keys.contains(#[trigger] now[i]) && detaching(
            ov,
            d,
            list,
            now[i],
        ) by {
            if i < detach_list(ov, d, list, keys, n - 1).len() {
                assert(now[i] == detach_list(ov, d, list, keys, n - 1)[i]);
            } else {
                assert(keys[n - 1] == now[i]);
            }
        }
    }
}

/// A new home is among the attached paths.
pub proof fn lemma_new_home(ov: OverlayView, list: Seq<PathView>, o: PathView, n: int)
    requires
        0 <= n <= list.len(),
    ensures
        new_home(ov, list, o, n) matches Some(p) ==> list.contains(p) && origin_of(placed_entry(ov, p)) == Some(o),
    decreases n,
{
    if n > 0 {
        lemma_new_home(ov, list, o, n - 1);
        if origin_of(placed_entry(ov, list[n - 1])) == Some(o) {
            assert(list[n - 1] == new_home(ov, list, o, n)->0);
        }
    }
}

/// A decimal numeral is a proper name.
proof fn lemma_decimal_is_component(n: nat)
    ensures
        is_component(decimal(n)),
{
    crate::text::lemma_numeral_digits(n, 10);
    let d = decimal(n);
    assert(d[0] >= 48);
    assert(seq![46u8][0] == 46u8);
    assert(seq![46u8, 46u8][0] == 46u8);
    if d.contains(0u8) {
        let i = choose|i: int| 0 <= i < d.len() && d[i] == 0u8;
        assert(d[i] >= 48);
    }
    if d.contains(47u8) {
        let i = choose|i: int| 0 <= i < d.len() && d[i] == 47u8;
        assert(d[i] >= 48);
    }
}

/// A letter and a decimal numeral make a proper name.
proof fn lemma_staged_is_component(c: u8, n: nat)
    requires
        c == 98 || c == 100,
    ensures
        is_component(seq![c] + decimal(n)),
{
    lemma_decimal_is_component(n);
    crate::text::lemma_numeral_digits(n, 10);
    let d = decimal(n);
    let x = seq![c] + d;
    assert(x[0] == c);
    assert(seq![46u8][0] == 46u8);
    assert(seq![46u8, 46u8][0] == 46u8);
    assert forall|i: int| 0 <= i < x.len() implies #[trigger] x[i] >= 48 by {
        if i > 0 {
            assert(x[i] == d[i - 1]);
        }
    }
    if x.contains(0u8) {
        let i = choose|i: int| 0 <= i < x.len() && x[i] == 0u8;
        assert(x[i] >= 48);
    }
    if x.contains(47u8) {
        let i = choose|i: int| 0 <= i < x.len() && x[i] == 47u8;
        assert(x[i] >= 48);
    }
}

/// The fixed names are proper.
proof fn lemma_fixed_names()
    ensures
        is_component(private_name()),
        is_component(backup_name()),
        is_component(staged_name()),
{
    assert(private_name().len() == 5 && backup_name().len() == 6 && staged_name().len() == 6);
    lemma_no_byte(private_name());
    lemma_no_byte(backup_name());
    lemma_no_byte(staged_name());
}

proof fn lemma_no_byte(n: Name)
    requires
        n == private_name() || n == backup_name() || n == staged_name(),
    ensures
        !n.contains(0u8),
        !n.contains(47u8),
{
    if n.contains(0u8) {
        let i = choose|i: int| 0 <= i < n.len() && n[i] == 0u8;
    }
    if n.contains(47u8) {
        let i = choose|i: int| 0 <= i < n.len() && n[i] == 47u8;
    }
}

/// A place for a token inside the transaction's own directory.
proof fn lemma_own_location(tx: Name, dir: Name, name: Name)
    requires
        is_component(tx),
        dir == backup_name() || dir == staged_name(),
        is_component(name),
    ensures
        location_allowed(crate::state::tx_path(tx).push(dir).push(name), tx),
        proper_path(crate::state::tx_path(tx).push(dir).push(name)),
{
    let p = crate::state::tx_path(tx).push(dir).push(name);
    lemma_fixed_names();
    crate::state::lemma_private_name();
    assert(p.len() == 4);
    assert(p[0] == private_name() && p[1] == tx && p[2] == dir && p[3] == name);
}

/// Every location of the compiled tokens may stand in the journal, and is made of proper
/// names.
proof fn lemma_tokens_allowed(s: Sources, pk: Seq<PathView>, dk: Seq<PathView>, p: PlanView)
    requires
        s.ov.sound(),
        is_component(s.tx),
        gathered(s, pk, dk),
        forall|k: PathView| #[trigger] pk.contains(k) <==> s.ov.placed.contains_key(k),
        forall|k: PathView| #[trigger] dk.contains(k) <==> s.ov.detached.contains_key(k),
        p.tokens == s.tokens(),
    ensures
        locations_allowed(p, s.tx),
        proper_plan(p),
        p.has_locations(),
{
    lemma_attach_list(s.ov, s.before, pk, pk.len() as int);
    lemma_detach_list(s.ov, s.before, s.attach, dk, dk.len() as int);
    assert forall|t: int| 0 <= t < p.tokens.len() implies (#[trigger] p.tokens[t]).locs.len() >= 2 && (forall|i: int|
        0 <= i < p.tokens[t].locs.len() ==> location_allowed((#[trigger] p.tokens[t].locs[i]).path, s.tx))
        && proper_token(p.tokens[t]) by {
        if t < s.detach.len() {
            let b = s.detach[t];
            assert(p.tokens[t] == s.base_token(t));
            assert(dk.contains(b));
            assert(tree_path(b));
            lemma_decimal_is_component(t as nat);
            lemma_own_location(s.tx, backup_name(), decimal(t as nat));
            lemma_new_home(s.ov, s.attach, b, s.attach.len() as int);
            match new_home(s.ov, s.attach, b, s.attach.len() as int) {
                Some(h) => {
                    let i = choose|i: int| 0 <= i < s.attach.len() && s.attach[i] == h;
                    assert(attaching(s.ov, s.before, s.attach[i]));
                    assert(tree_path(h));
                },
                None => {},
            }
        } else {
            lemma_new_tokens(s, s.attach.len() as int, t - s.detach.len());
            let k = choose|k: int|
                0 <= k < s.attach.len() && s.is_new(#[trigger] s.attach[k]) && s.new_tokens(s.attach.len() as int)[t
                    - s.detach.len()] == s.new_token(s.attach[k]);
            let h = s.attach[k];
            assert(p.tokens[t] == s.new_token(h));
            assert(attaching(s.ov, s.before, h));
            assert(tree_path(h));
            match placed_entry(s.ov, h).src {
                SrcView::NewDir { n } => {
                    lemma_staged_is_component(100, n as nat);
                    lemma_own_location(s.tx, staged_name(), new_dir_name(n));
                },
                SrcView::Blob { n, .. } => {
                    lemma_staged_is_component(98, n as nat);
                    lemma_own_location(s.tx, staged_name(), blob_name(n));
                },
                SrcView::Base { .. } => {},
            }
        }
    }
}

/// Every new token is that of a new attached path.
proof fn lemma_new_tokens(s: Sources, n: int, i: int)
    requires
        0 <= n <= s.attach.len(),
        0 <= i < s.new_tokens(n).len(),
    ensures
        exists|k: int|
            0 <= k < n && s.is_new(#[trigger] s.attach[k]) && s.new_tokens(n)[i] == s.new_token(s.attach[k]),
    decreases n,
{
    if n > 0 {
        if i < s.new_tokens(n - 1).len() {
            lemma_new_tokens(s, n - 1, i);
            let k = choose|k: int|
                0 <= k < n - 1 && s.is_new(#[trigger] s.attach[k]) && s.new_tokens(n - 1)[i] == s.new_token(
                    s.attach[k],
                );
            assert(s.is_new(s.attach[k]) && s.new_tokens(n)[i] == s.new_token(s.attach[k]));
        } else {
            assert(s.is_new(s.attach[n - 1]));
        }
    }
}

/// No more is attached than is placed.
proof fn lemma_attach_list_len(ov: OverlayView, d: Disk, keys: Seq<PathView>, n: int)
    requires
        0 <= n <= keys.len(),
    ensures
        attach_list(ov, d, keys, n).len() <= n,
    decreases n,
{
    if n > 0 {
        lemma_attach_list_len(ov, d, keys, n - 1);
    }
}

/// There are no more new directories than entries.
proof fn lemma_new_dirs_len(es: Seq<EntryView>)
    ensures
        new_dirs(es).len() <= es.len(),
    decreases es.len(),
{
    if es.len() > 0 {
        lemma_new_dirs_len(es.drop_last());
    }
}

/// Where a number of a new directory stands among the entries.
proof fn lemma_new_dir_of(es: Seq<EntryView>, i: int) -> (j: int)
    requires
        0 <= i < new_dirs(es).len(),
    ensures
        0 <= j < es.len(),
        es[j].src == (SrcView::NewDir { n: new_dirs(es)[i] }),
        new_dirs(es.take(j)).len() == i,
    decreases es.len(),
{
    let less = es.drop_last();
    assert(es.take(es.len() - 1) =~= less);
    if i < new_dirs(less).len() {
        let j = lemma_new_dir_of(less, i);
        assert(less.take(j) =~= es.take(j));
        j
    } else {
        es.len() - 1
    }
}

/// Every new directory among the entries has its number listed.
pub proof fn lemma_new_dir_listed(es: Seq<EntryView>, j: int)
    requires
        0 <= j < es.len(),
        es[j].src is NewDir,
    ensures
        new_dirs(es).contains(es[j].src->NewDir_n),
    decreases es.len(),
{
    let less = es.drop_last();
    if j < es.len() - 1 {
        lemma_new_dir_listed(less, j);
        let i = choose|i: int| 0 <= i < new_dirs(less).len() && new_dirs(less)[i] == es[j].src->NewDir_n;
        assert(new_dirs(es)[i] == es[j].src->NewDir_n);
    } else {
        assert(new_dirs(es).last() == es[j].src->NewDir_n);
    }
}

/// The identity of every directory that was made is known.
pub proof fn lemma_dirs_known(a: Disk, b: Disk, staged: PathView, ks: Seq<u64>, ids: Map<u64, FileId>, k: u64)
    requires
        dirs_staged(a, b, staged, ks, ids),
        ks.contains(k),
    ensures
        ids.contains_key(k),
    decreases ks.len(),
{
    let (m, known) = choose|m: Disk, known: Map<u64, FileId>|
        dirs_staged(a, m, staged, ks.drop_last(), known) && #[trigger] dir_staged(m, b, staged, ks.last(), known, ids);
    if k != ks.last() {
        let i = choose|i: int| 0 <= i < ks.len() && ks[i] == k;
        assert(ks.drop_last()[i] == k);
        lemma_dirs_known(a, m, staged, ks.drop_last(), known, k);
    }
}

/// The entries among the first `n` paths at which something is attached are placed.
proof fn lemma_attach_list_at(ov: OverlayView, d: Disk, keys: Seq<PathView>, n: int, i: int)
    requires
        0 <= n <= keys.len(),
        0 <= i < attach_list(ov, d, keys, n).len(),
    ensures
        is_placed(ov, attach_list(ov, d, keys, n)[i]),
        keys.take(n).contains(attach_list(ov, d, keys, n)[i]),
    decreases n,
{
    let less = attach_list(ov, d, keys, n - 1);
    if i < less.len() {
        lemma_attach_list_at(ov, d, keys, n - 1, i);
        let some = keys.take(n - 1);
        let k = choose|k: int| 0 <= k < some.len() && some[k] == less[i];
        assert(keys.take(n)[k] == less[i]);
    } else {
        assert(keys.take(n)[n - 1] == keys[n - 1]);
    }
}

/// What is attached is attached at different places.
pub proof fn lemma_attach_list_distinct(ov: OverlayView, d: Disk, keys: Seq<PathView>, n: int)
    requires
        0 <= n <= keys.len(),
        keys.no_duplicates(),
    ensures
        attach_list(ov, d, keys, n).no_duplicates(),
    decreases n,
{
    if n > 0 {
        lemma_attach_list_distinct(ov, d, keys, n - 1);
        let less = attach_list(ov, d, keys, n - 1);
        let now = attach_list(ov, d, keys, n);
        assert forall|i: int, j: int| 0 <= i < j < now.len() implies now[i] != now[j] by {
            if j == less.len() {
                lemma_attach_list_at(ov, d, keys, n - 1, i);
                let some = keys.take(n - 1);
                let k = choose|k: int| 0 <= k < some.len() && some[k] == less[i];
                assert(keys[k] == less[i]);
                assert(now[j] == keys[n - 1]);
            }
        }
    }
}

/// Where compiling can succeed, the new directories can be staged.
proof fn lemma_can_stage(
    ov: OverlayView,
    d: Disk,
    tx: TxDir,
    attach: Seq<(RelPath, Entry)>,
    al: Seq<PathView>,
    pk: Seq<PathView>,
)
    requires
        d.dir_at(tx.at().push(staged_name())) is Some,
        forall|n: u64| d.resolve(tx.at().push(staged_name()).push(#[trigger] new_dir_name(n))) is None,
        one_use(ov),
        ascending(pk),
        al == attach_list(ov, d, pk, pk.len() as int),
        paths_of(attach) == al,
        holds_placed(ov, attach),
    ensures
        can_stage(d, tx.at().push(staged_name()), new_dirs(entries_of(attach))),
{
    let es = entries_of(attach);
    let ks = new_dirs(es);
    crate::pathmap::lemma_ascending_distinct(pk);
    lemma_attach_list_distinct(ov, d, pk, pk.len() as int);
    assert forall|i: int, j: int| 0 <= i < j < ks.len() implies !alike(
        d,
        new_dir_name(#[trigger] ks[i]),
        new_dir_name(#[trigger] ks[j]),
    ) by {
        let x = lemma_new_dir_of(es, i);
        let y = lemma_new_dir_of(es, j);
        assert(x != y);
        assert(es[x] == attach[x].1@ && es[y] == attach[y].1@);
        assert(attach[x].0@ == al[x] && attach[y].0@ == al[y]);
        assert(is_placed(ov, al[x]) && is_placed(ov, al[y]));
        assert(al[x] != al[y]);
        lemma_new_dir_names_unlike(d, ks[i], ks[j]);
    }
}

/// The sources hold what compiling needs, as far as the overlay does.
proof fn lemma_sources_complete(s: Sources, tx: TxDir, pk: Seq<PathView>, dk: Seq<PathView>)
    requires
        s.before.well_formed(),
        s.after.well_formed(),
        s.ov.sound(),
        gathered(s, pk, dk),
        forall|k: PathView| #[trigger] pk.contains(k) <==> s.ov.placed.contains_key(k),
        forall|k: PathView| #[trigger] dk.contains(k) <==> s.ov.detached.contains_key(k),
        dirs_staged(s.before, s.after, s.staged(), new_dirs(s.entries()), s.dirs),
    ensures
        s.ov.rooted(s.before) ==> s.ov.rooted(s.after),
        forall|k: int| 0 <= k < s.detach.len() ==> s.after.dir_at(parent_of(#[trigger] s.detach[k])) is Some,
        forall|k: int| 0 <= k < s.attach.len() ==> is_placed(s.ov, #[trigger] s.attach[k]) && tree_path(s.attach[k]) && (
        placed_entry(s.ov, s.attach[k]).src matches SrcView::NewDir { n } ==> s.dirs.contains_key(n)),
        forall|k: int| 0 <= k < s.attach.len() && !has_parent(s, #[trigger] s.attach[k]) ==> !(s.ov.look(
            s.before,
            parent_of(s.attach[k]),
        ) matches Look::Found(e) && e.kind == EKind::Dir),
{
    if s.ov.rooted(s.before) {
        lemma_rooted_by_tree(s.ov, s.before, s.after);
    }
    lemma_detach_list(s.ov, s.before, s.attach, dk, dk.len() as int);
    assert forall|k: int| 0 <= k < s.detach.len() implies s.after.dir_at(parent_of(#[trigger] s.detach[k])) is Some by {
        let b = s.detach[k];
        assert(dk.contains(b));
        assert(tree_path(b));
        assert(still_there(s.ov, s.before, b));
        let q = parent_of(b);
        assert(q =~= b.drop_last());
        assert(s.before.dir_at(q) is Some);
        if q.len() > 0 {
            assert(q[0] == b[0]);
        }
        assert(!private_path(q));
        assert(s.after.resolve(q) == s.before.resolve(q));
        lemma_resolved_is_known(s.after, q);
    }
    assert forall|k: int| 0 <= k < s.attach.len() implies is_placed(s.ov, #[trigger] s.attach[k]) && tree_path(
        s.attach[k],
    ) && (placed_entry(s.ov, s.attach[k]).src matches SrcView::NewDir { n } ==> s.dirs.contains_key(n)) by {
        lemma_attach_list_at(s.ov, s.before, pk, pk.len() as int, k);
        if placed_entry(s.ov, s.attach[k]).src is NewDir {
            assert(s.entries()[k] == placed_entry(s.ov, s.attach[k]));
            lemma_new_dir_listed(s.entries(), k);
            lemma_dirs_known(
                s.before,
                s.after,
                s.staged(),
                new_dirs(s.entries()),
                s.dirs,
                placed_entry(s.ov, s.attach[k]).src->NewDir_n,
            );
        }
    }
    assert forall|k: int| 0 <= k < s.attach.len() && !has_parent(s, #[trigger] s.attach[k]) implies !(s.ov.look(
        s.before,
        parent_of(s.attach[k]),
    ) matches Look::Found(e) && e.kind == EKind::Dir) by {
        let p = s.attach[k];
        let q = parent_of(p);
        law_view_depends_on_the_tree(s.ov, s.before, s.after, q);
        if let Look::Found(e) = s.ov.look(s.after, q) {
            if e.kind == EKind::Dir && origin_of(e) is None {
                // It was placed at this very path, so it was staged.
                assert(s.ov.placed.contains_key(q));
                assert(q =~= p.drop_last());
                assert(is_placed(s.ov, q));
                assert(pk.contains(q));
                let i = choose|i: int| 0 <= i < pk.len() && pk[i] == q;
                let j = lemma_attached_at(s.ov, s.before, pk, pk.len() as int, i);
                assert(s.attach[j] == q);
            }
        }
    }
}

/// A path at which something new is placed is in the list.
pub proof fn lemma_attached_at(ov: OverlayView, d: Disk, pk: Seq<PathView>, n: int, i: int) -> (j: int)
    requires
        0 <= i < n <= pk.len(),
        attaching(ov, d, pk[i]),
    ensures
        0 <= j < attach_list(ov, d, pk, n).len(),
        attach_list(ov, d, pk, n)[j] == pk[i],
    decreases n,
{
    if i == n - 1 {
        attach_list(ov, d, pk, n - 1).len() as int
    } else {
        lemma_attached_at(ov, d, pk, n - 1, i)
    }
}

/// What making the tokens fails with is what compiling fails with.
proof fn lemma_sources_failure(s: Sources, tx: TxDir, pk: Seq<PathView>, dk: Seq<PathView>, e: Error)
    requires
        s.before.well_formed(),
        s.after.well_formed(),
        s.ov.sound(),
        gathered(s, pk, dk),
        forall|k: PathView| #[trigger] pk.contains(k) <==> s.ov.placed.contains_key(k),
        forall|k: PathView| #[trigger] dk.contains(k) <==> s.ov.detached.contains_key(k),
        dirs_staged(s.before, s.after, s.staged(), new_dirs(s.entries()), s.dirs),
        match e {
            Error::Conflict(q) => exists|k: int|
                0 <= k < s.detach.len() && q@ == parent_of(#[trigger] s.detach[k]) && s.after.dir_at(q@) is None,
            Error::UnsupportedFileType(q) => s.ov.detached.contains_key(q@) && s.ov.detached[q@].kind == EKind::Special,
            Error::NotFound(q) => exists|k: int|
                0 <= k < s.attach.len() && (q@ == parent_of(#[trigger] s.attach[k]) && !has_parent(s, s.attach[k]) || q@
                    == s.attach[k] && !is_staged(s, s.attach[k])),
            _ => e is Io || clash_reported(s.ov, s.after, e),
        },
    ensures
        compile_failed(s.ov, pk, s.before, tx, s.blobs, e),
{
    lemma_sources_complete(s, tx, pk, dk);
    if !(e is Io) {
        match e {
            Error::Conflict(q) => {
                let k = choose|k: int|
                    0 <= k < s.detach.len() && q@ == parent_of(#[trigger] s.detach[k]) && s.after.dir_at(q@) is None;
                assert(s.after.dir_at(parent_of(s.detach[k])) is Some);
            },
            Error::UnsupportedFileType(_) => {},
            Error::NotFound(q) => {
                let k = choose|k: int|
                    0 <= k < s.attach.len() && (q@ == parent_of(#[trigger] s.attach[k]) && !has_parent(s, s.attach[k]) || q@
                        == s.attach[k] && !is_staged(s, s.attach[k]));
                assert(is_placed(s.ov, s.attach[k]));
            },
            _ => {
                let q = choose|q: PathView|
                    (#[trigger] s.ov.look(s.after, q)) matches Look::Clash(x) && reports(e, Fault::Clash(x));
                law_view_depends_on_the_tree(s.ov, s.before, s.after, q);
                assert(s.ov.look(s.before, q) is Clash);
                assert(e is CaseCollision);
            },
        }
    }
}

/// Compiles the overlay into a plan. Creates the staged directories for new dirs (in the
/// private area only) and re-verifies every base entry it will move (`Error::Conflict`).
///
/// The plan is checked before it is handed out: one that could not be undone is refused.
#[verifier::rlimit(60)]
pub fn compile<V: Vfs>(vfs: &mut V, ov: &Overlay, tx: &TxDir, blobs: &IdTable) -> (r: Result<Plan>)
    requires
        old(vfs).valid(),
        ov.well_formed(),
        is_component(tx.id()),
    ensures
        final(vfs).valid(),
        same_volume(old(vfs).disk(), final(vfs).disk()),
        same_tree(old(vfs).disk(), final(vfs).disk()),
        r matches Ok(plan) ==> plan@.valid() && locations_allowed(plan@, tx.id()) && proper_plan(plan@)
            && plans_for(ov@, old(vfs).disk(), final(vfs).disk(), tx.id(), blobs@, plan@),
        r matches Err(e) ==> compile_failed(ov@, ov.placed_keys(), old(vfs).disk(), *tx, blobs@, e),
        old(vfs).serves() && old(vfs).room() >= ov.placed_keys().len() && can_compile(ov@, old(vfs).disk(), *tx, blobs@)
            ==> r is Ok,
        old(vfs).serves() && old(vfs).room() >= ov.placed_keys().len() && can_try(ov@, old(vfs).disk(), *tx) ==> answered(r),
        old(vfs).serves() ==> final(vfs).serves() && final(vfs).room() + ov.placed_keys().len() >= old(vfs).room(),
{
    let ghost before = vfs.disk();
    let ghost able = vfs.serves() && vfs.room() >= ov.placed_keys().len() && can_compile(ov@, before, *tx, blobs@);
    let ghost sure = able || vfs.serves() && vfs.room() >= ov.placed_keys().len() && can_try(ov@, before, *tx);
    proof {
        vfs.lemma_valid();
        lemma_same_content(before, before);
        ov.lemma_keys();
    }
    let attach = match gather_attach(ov, vfs) {
        Ok(x) => x,
        Err(e) => return Err(e),
    };
    let ghost pk = ov.placed_keys();
    let ghost dk = ov.detached_keys();
    let ghost al = attach_list(ov@, before, pk, pk.len() as int);
    assert(paths_of(attach@) =~= al);
    proof {
        lemma_attach_list_len(ov@, before, pk, pk.len() as int);
        if sure {
            assert forall|b: PathView| #[trigger] ov@.detached.contains_key(b) implies way_clear(before, b) by {
                if able {
                    lemma_way_to(before, b);
                }
            }
        }
    }
    let detach = match gather_detach(ov, vfs, &attach) {
        Ok(x) => x,
        Err(e) => return Err(e),
    };
    let root_id = match vfs.root_id() {
        Ok(x) => x,
        Err(e) => return Err(Error::Io(e)),
    };
    let staged_id = match dir_identity(vfs, &tx.staged()) {
        Ok(x) => x,
        Err(e) => return Err(e),
    };
    let backup_id = match dir_identity(vfs, &tx.backup()) {
        Ok(x) => x,
        Err(e) => return Err(e),
    };
    proof {
        let es = entries_of(attach@);
        lemma_new_dirs_len(es);
        if sure {
            lemma_can_stage(ov@, before, *tx, attach@, al, pk);
        }
    }
    let dirs = match stage_dirs(vfs, tx, &attach) {
        Ok(x) => x,
        Err(e) => return Err(e),
    };
    let ghost s = Sources {
        ov: ov@,
        before,
        after: vfs.disk(),
        tx: tx.id(),
        blobs: blobs@,
        dirs: dirs@,
        attach: al,
        detach: detach_list(ov@, before, al, dk, dk.len() as int),
    };
    let c = Parts {
        ov,
        tx,
        attach: &attach,
        detach: &detach,
        blobs,
        dirs: &dirs,
        root_id,
        staged_id,
        backup_id,
    };
    proof {
        vfs.lemma_valid();
        assert(entries_of(attach@) =~= s.entries()) by {
            assert forall|i: int| 0 <= i < attach@.len() implies entries_of(attach@)[i] == s.entries()[i] by {
                assert(attach@[i].0@ == s.attach[i]);
            }
        }
        lemma_sources_complete(s, *tx, pk, dk);
    }
    let mut tokens = match base_tokens(&c, vfs, Ghost(s)) {
        Ok(x) => x,
        Err(e) => {
            proof {
                lemma_sources_failure(s, *tx, pk, dk, e);
            }
            return Err(e);
        },
    };
    let base = tokens.len();
    let ghost first = token_views(tokens@);
    let mut more = match new_tokens(&c, vfs, Ghost(s)) {
        Ok(x) => x,
        Err(e) => {
            proof {
                lemma_sources_failure(s, *tx, pk, dk, e);
            }
            return Err(e);
        },
    };
    let ghost second = token_views(more@);
    tokens.append(&mut more);
    let depth = max_depth(&attach, &detach);
    proof {
        assert(token_views(tokens@) =~= first + second);
        assert(token_views(tokens@) == s.tokens());
        let p0 = PlanView { tokens: s.tokens(), waves: Seq::empty() };
        lemma_tokens_allowed(s, pk, dk, p0);
        assert forall|t: int| 0 <= t < tokens@.len() implies (#[trigger] tokens@[t]).locs@.len() >= 2 by {
            assert(token_views(tokens@)[t] == tokens@[t]@);
            assert(p0.tokens[t].locs.len() >= 2);
        }
        assert(depth_bound(s, depth as int)) by {
            assert forall|k: int| 0 <= k < s.attach.len() implies (#[trigger] s.attach[k]).len() <= depth by {
                assert(attach@[k].0@ == s.attach[k]);
            }
            assert forall|k: int| 0 <= k < s.detach.len() implies (#[trigger] s.detach[k]).len() <= depth by {
                assert(detach@[k].path@ == s.detach[k]);
            }
        }
        assert(base == s.detach.len());
    }
    let waves = make_waves(&tokens, base, depth);
    let plan = Plan { tokens, waves };
    proof {
        assert(plan@.tokens == s.tokens());
        assert(compiled(s, plan@));
        lemma_tokens_allowed(s, pk, dk, plan@);
    }
    match validate(&plan) {
        Ok(_) => {
            assert(planned(s, pk, dk, plan@));
            Ok(plan)
        },
        Err(reason) => {
            proof {
                assert(planned(s, pk, dk, plan@));
                assert(plans_for(ov@, before, vfs.disk(), tx.id(), blobs@, plan@));
                assert(defective(ov@, before, tx.id(), blobs@, reason));
            }
            Err(Error::RecoveryRequired { tx: tx.name.clone(), reason })
        },
    }
}

/// The sources were gathered from the overlay, whose keys are given, the new directories were
/// staged, and the sources call for the plan.
pub open spec fn planned(s: Sources, pk: Seq<PathView>, dk: Seq<PathView>, p: PlanView) -> bool {
    &&& ascending(pk)
    &&& ascending(dk)
    &&& forall|k: PathView| #[trigger] pk.contains(k) <==> s.ov.placed.contains_key(k)
    &&& forall|k: PathView| #[trigger] dk.contains(k) <==> s.ov.detached.contains_key(k)
    &&& gathered(s, pk, dk)
    &&& dirs_staged(s.before, s.after, s.staged(), new_dirs(s.entries()), s.dirs)
    &&& compiled(s, p)
}

/// The plan is what the overlay calls for on this disk.
pub open spec fn plans_for(
    ov: OverlayView,
    before: Disk,
    after: Disk,
    tx: Name,
    blobs: Map<u64, FileId>,
    p: PlanView,
) -> bool {
    exists|s: Sources, pk: Seq<PathView>, dk: Seq<PathView>| #[trigger]
        planned(s, pk, dk, p) && s.ov == ov && s.before == before && s.after == after && s.tx == tx && s.blobs == blobs
}

} // verus!
