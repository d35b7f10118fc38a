//! The physical plan of a transaction and the checks that make it safe to undo.
//!
//! Every physical mutation is a no-replace rename of one *token* (a directory entry with a
//! known identity) between two locations. Base entries that must leave their base path are
//! **detached** into `backup/` (deepest first); tokens are then **attached** at their final
//! paths from `backup/` or `staged/` (shallowest first). Each depth forms one wave.
use vstd::prelude::*;

use crate::disk::{FileId, Key, Kind};
use crate::error::Reason;
use crate::path::{overlapping, parent_of, PathView, RelPath};

verus! {

/// A location a token can occupy, with the identity its parent directory must have.
#[derive(Debug, PartialEq, Eq)]
pub struct Loc {
    pub path: RelPath,
    pub parent: FileId,
}

/// One directory entry that a transaction moves.
#[derive(Debug, PartialEq, Eq)]
pub struct Token {
    pub kind: Kind,
    pub id: FileId,
    /// Locations in the order the token visits them during apply.
    pub locs: Vec<Loc>,
}

/// Moves `token` from `locs[from]` to `locs[from + 1]`.
#[derive(Clone, Copy, Debug, PartialEq, Eq, Structural)]
pub struct Step {
    pub token: usize,
    pub from: usize,
}

/// Tokens, and the waves of steps that move them.
#[derive(Debug, PartialEq, Eq)]
pub struct Plan {
    pub tokens: Vec<Token>,
    pub waves: Vec<Vec<Step>>,
}

/// A location, mathematically.
#[verifier::ext_equal]
pub struct LocView {
    pub path: PathView,
    pub parent: FileId,
}

impl LocView {
    /// The name at which the location stands in its parent directory.
    pub open spec fn key(self) -> Key {
        Key { dir: self.parent, name: self.path.last() }
    }
}

/// A token, mathematically.
#[verifier::ext_equal]
pub struct TokenView {
    pub kind: Kind,
    pub id: FileId,
    pub locs: Seq<LocView>,
}

/// A plan, mathematically.
#[verifier::ext_equal]
pub struct PlanView {
    pub tokens: Seq<TokenView>,
    pub waves: Seq<Seq<Step>>,
}

impl View for Loc {
    type V = LocView;

    open spec fn view(&self) -> LocView {
        LocView { path: self.path@, parent: self.parent }
    }
}

impl View for Token {
    type V = TokenView;

    open spec fn view(&self) -> TokenView {
        TokenView { kind: self.kind, id: self.id, locs: self.locs@.map_values(|l: Loc| l@) }
    }
}

impl View for Plan {
    type V = PlanView;

    open spec fn view(&self) -> PlanView {
        PlanView {
            tokens: self.tokens@.map_values(|t: Token| t@),
            waves: self.waves@.map_values(|w: Vec<Step>| w@),
        }
    }
}

impl Clone for Loc {
    fn clone(&self) -> (r: Self)
        ensures
            r@ == self@,
    {
        Loc { path: self.path.clone(), parent: self.parent }
    }
}

/// Where each token is: an index into its locations.
pub type Positions = Seq<int>;

/// The positions after every step of `wave` has been made.
pub open spec fn advance(pos: Positions, wave: Seq<Step>) -> Positions
    decreases wave.len(),
{
    if wave.len() == 0 {
        pos
    } else {
        advance(pos, wave.drop_last()).update(wave.last().token as int, wave.last().from + 1)
    }
}

impl PlanView {
    /// Where a step starts.
    pub open spec fn src(self, s: Step) -> LocView {
        self.tokens[s.token as int].locs[s.from as int]
    }

    /// Where a step ends.
    pub open spec fn dst(self, s: Step) -> LocView {
        self.tokens[s.token as int].locs[s.from + 1]
    }

    /// Every token has a location.
    pub open spec fn has_locations(self) -> bool {
        forall|t: int| 0 <= t < self.tokens.len() ==> (#[trigger] self.tokens[t]).locs.len() >= 1
    }

    /// Wave `w` has an `i`-th step.
    pub open spec fn has(self, w: int, i: int) -> bool {
        0 <= w < self.waves.len() && 0 <= i < self.waves[w].len()
    }

    /// The step names a token and a location that is not its last.
    pub open spec fn names_move(self, s: Step) -> bool {
        s.token < self.tokens.len() && s.from + 1 < self.tokens[s.token as int].locs.len()
    }

    /// Every step names a token.
    pub open spec fn steps_name_tokens(self) -> bool {
        forall|w: int, i: int| #![trigger self.waves[w][i]] self.has(w, i) ==> self.waves[w][i].token < self.tokens.len()
    }

    /// Every step names a token and a location that is not its last.
    pub open spec fn steps_in_range(self) -> bool {
        forall|w: int, i: int| #![trigger self.waves[w][i]] self.has(w, i) ==> self.names_move(self.waves[w][i])
    }

    /// No step occurs twice.
    pub open spec fn steps_distinct(self) -> bool {
        forall|w: int, i: int, v: int, j: int|
            #![trigger self.waves[w][i], self.waves[v][j]]
            self.has(w, i) && self.has(v, j) && self.waves[w][i] == self.waves[v][j] ==> w == v && i == j
    }

    /// An endpoint of `a` and an endpoint of `b` overlap at `p` and `q`.
    pub open spec fn steps_overlap_at(self, a: Step, b: Step, p: PathView, q: PathView) -> bool {
        &&& p == self.src(a).path || p == self.dst(a).path
        &&& q == self.src(b).path || q == self.dst(b).path
        &&& overlapping(p, q)
    }

    /// No endpoint of `a` equals, contains or is contained in an endpoint of `b`.
    pub open spec fn steps_apart(self, a: Step, b: Step) -> bool {
        &&& !overlapping(self.src(a).path, self.src(b).path)
        &&& !overlapping(self.src(a).path, self.dst(b).path)
        &&& !overlapping(self.dst(a).path, self.src(b).path)
        &&& !overlapping(self.dst(a).path, self.dst(b).path)
    }

    /// The steps of wave `w` are apart from each other.
    pub open spec fn wave_apart(self, w: int) -> bool {
        forall|i: int, j: int|
            #![trigger self.waves[w][i], self.waves[w][j]]
            0 <= i < j < self.waves[w].len() ==> self.steps_apart(self.waves[w][i], self.waves[w][j])
    }

    /// Wave `w` moves `token` away from location `from`.
    pub open spec fn has_step(self, token: int, from: int, w: int) -> bool {
        0 <= w < self.waves.len() && exists|i: int|
            0 <= i < self.waves[w].len() && (#[trigger] self.waves[w][i]).token == token && self.waves[w][i].from
                == from
    }

    /// Some wave moves `token` away from location `from`.
    pub open spec fn is_moved(self, token: int, from: int) -> bool {
        exists|w: int| self.has_step(token, from, w)
    }

    /// Token `t` is moved away from each of its locations but the last.
    pub open spec fn steps_complete(self, t: int) -> bool {
        forall|f: int| 0 <= f < self.tokens[t].locs.len() - 1 ==> #[trigger] self.is_moved(t, f)
    }

    /// A token's later steps are in later waves.
    pub open spec fn waves_increasing(self, t: int) -> bool {
        forall|f: int, v: int, w: int|
            #![trigger self.has_step(t, f, v), self.has_step(t, f + 1, w)]
            self.has_step(t, f, v) && self.has_step(t, f + 1, w) ==> v < w
    }

    /// Where each token is before wave `w`, if every earlier step has been made.
    pub open spec fn positions(self, w: int) -> Positions
        decreases w,
    {
        if w <= 0 {
            Seq::new(self.tokens.len(), |t: int| 0int)
        } else {
            advance(self.positions(w - 1), self.waves[w - 1])
        }
    }

    /// The path of token `t` when the tokens are at `pos`.
    pub open spec fn path_at(self, pos: Positions, t: int) -> PathView {
        self.tokens[t].locs[pos[t]].path
    }

    /// The first of the first `n` tokens that is at `p`.
    pub open spec fn first_at(self, pos: Positions, p: PathView, n: int) -> Option<int>
        decreases n,
    {
        if n <= 0 {
            None
        } else {
            match self.first_at(pos, p, n - 1) {
                Some(t) => Some(t),
                None => if self.path_at(pos, n - 1) == p {
                    Some(n - 1)
                } else {
                    None
                },
            }
        }
    }

    /// The first token that is at `p`.
    pub open spec fn occupant(self, pos: Positions, p: PathView) -> Option<int> {
        self.first_at(pos, p, self.tokens.len() as int)
    }

    /// Token directory `t` is where the location expects its parent, if it is that parent.
    pub open spec fn parent_token_ready(self, pos: Positions, l: LocView, t: int) -> bool {
        self.tokens[t].kind == Kind::Dir && self.tokens[t].id == l.parent ==> self.path_at(pos, t) == parent_of(
            l.path,
        )
    }

    /// Any token at the parent path of the location has the recorded identity.
    pub open spec fn parent_identity_ok(self, pos: Positions, l: LocView) -> bool {
        self.occupant(pos, parent_of(l.path)) matches Some(t) ==> self.tokens[t].id == l.parent
    }

    /// The parent of the location is in place, as far as tokens decide it.
    pub open spec fn parent_ready(self, pos: Positions, l: LocView) -> bool {
        &&& forall|t: int| 0 <= t < self.tokens.len() ==> #[trigger] self.parent_token_ready(pos, l, t)
        &&& self.parent_identity_ok(pos, l)
    }

    /// The step can be made when the tokens are at `pos`: its source holds the token, its
    /// destination is free of tokens, and both parents are in place.
    pub open spec fn step_ready(self, pos: Positions, s: Step) -> bool {
        &&& pos[s.token as int] == s.from
        &&& self.occupant(pos, self.dst(s).path) is None
        &&& self.parent_ready(pos, self.src(s))
        &&& self.parent_ready(pos, self.dst(s))
    }

    /// Every step of wave `w` can be made once the earlier waves have been.
    pub open spec fn wave_ready(self, w: int) -> bool {
        forall|i: int|
            0 <= i < self.waves[w].len() ==> self.step_ready(self.positions(w), #[trigger] self.waves[w][i])
    }

    /// The last location of token `t`.
    pub open spec fn final_path(self, t: int) -> PathView {
        self.tokens[t].locs.last().path
    }

    /// No two tokens end at the same path.
    pub open spec fn finals_distinct(self) -> bool {
        forall|t: int, u: int|
            #![trigger self.tokens[t], self.tokens[u]]
            0 <= t < u < self.tokens.len() ==> self.final_path(t) != self.final_path(u)
    }

    /// The proof obligations of a plan:
    ///
    /// 1. every token's steps are `from = 0..n-1`, each in a strictly later wave;
    /// 2. within a wave, no endpoint of one step equals, contains or is contained in an
    ///    endpoint of another (shared *ancestors* are read-only and allowed);
    /// 3. symbolic execution: a step's source holds its token, its destination is free of
    ///    tokens, and a parent that is a token directory is present there (placed by an
    ///    *earlier* wave) with the identity recorded in the location;
    /// 4. every token ends at its last location, and final locations are distinct.
    pub open spec fn valid(self) -> bool {
        &&& self.steps_in_range()
        &&& self.steps_distinct()
        &&& forall|w: int| 0 <= w < self.waves.len() ==> #[trigger] self.wave_apart(w)
        &&& forall|t: int| 0 <= t < self.tokens.len() ==> #[trigger] self.steps_complete(t)
        &&& forall|t: int| 0 <= t < self.tokens.len() ==> #[trigger] self.waves_increasing(t)
        &&& forall|w: int| 0 <= w < self.waves.len() ==> #[trigger] self.wave_ready(w)
        &&& forall|t: int|
            0 <= t < self.tokens.len() ==> self.positions(self.waves.len() as int)[t] == (
            #[trigger] self.tokens[t]).locs.len() - 1
        &&& self.finals_distinct()
    }

    /// Two steps of wave `w` overlap at `p` and `q`.
    pub open spec fn overlap_in(self, w: int, p: PathView, q: PathView) -> bool {
        exists|i: int, j: int|
            #![trigger self.waves[w][i], self.waves[w][j]]
            self.has(w, i) && self.has(w, j) && i < j && self.steps_overlap_at(
                self.waves[w][i],
                self.waves[w][j],
                p,
                q,
            )
    }

    /// A step of wave `w` moves `token` from where it is not.
    pub open spec fn not_at_source(self, w: int, token: int) -> bool {
        exists|i: int|
            self.has(w, i) && (#[trigger] self.waves[w][i]).token == token && self.positions(w)[token]
                != self.waves[w][i].from
    }

    /// A step of wave `w` ends at `p`, where `token` is.
    pub open spec fn occupied(self, w: int, p: PathView, token: int) -> bool {
        exists|i: int|
            self.has(w, i) && self.dst(#[trigger] self.waves[w][i]).path == p && self.occupant(
                self.positions(w),
                p,
            ) == Some(token)
    }

    /// A step of wave `w` has an endpoint at `p` whose parent is a token that is elsewhere.
    pub open spec fn parent_elsewhere(self, w: int, p: PathView) -> bool {
        exists|i: int, l: LocView, t: int|
            self.has(w, i) && #[trigger] self.is_endpoint(self.waves[w][i], l) && l.path == p && 0 <= t
                < self.tokens.len() && !#[trigger] self.parent_token_ready(self.positions(w), l, t)
    }

    /// A step of wave `w` has an endpoint whose parent path `q` is held by another token.
    pub open spec fn parent_mistaken(self, w: int, q: PathView) -> bool {
        exists|i: int, l: LocView|
            self.has(w, i) && #[trigger] self.is_endpoint(self.waves[w][i], l) && parent_of(l.path) == q
                && !self.parent_identity_ok(self.positions(w), l)
    }

    /// Two tokens end at `p`.
    pub open spec fn same_final(self, p: PathView) -> bool {
        exists|t: int, u: int|
            #![trigger self.tokens[t], self.tokens[u]]
            0 <= t < u < self.tokens.len() && self.final_path(t) == self.final_path(u) && self.final_path(u) == p
    }

    /// The plan has the defect that the reason names.
    pub open spec fn has_defect(self, r: Reason) -> bool {
        match r {
            Reason::UnknownToken => exists|w: int, i: int|
                self.has(w, i) && (#[trigger] self.waves[w][i]).token >= self.tokens.len(),
            Reason::BeyondLastLocation => exists|w: int, i: int|
                self.has(w, i) && (#[trigger] self.waves[w][i]).token < self.tokens.len() && !self.names_move(
                    self.waves[w][i],
                ),
            Reason::MovedTwice => !self.steps_distinct(),
            Reason::Overlap { wave, first, second } => self.overlap_in(wave as int, first@, second@),
            Reason::MissingStep { token, from } => token < self.tokens.len() && from + 1
                < self.tokens[token as int].locs.len() && !self.is_moved(token as int, from as int),
            Reason::WavesNotIncreasing { token } => token < self.tokens.len() && !self.waves_increasing(
                token as int,
            ),
            Reason::NotAtSource { wave, token } => self.not_at_source(wave as int, token as int),
            Reason::Occupied { wave, path, token } => self.occupied(wave as int, path@, token as int),
            Reason::ParentNotInPlace { wave, path } => self.parent_elsewhere(wave as int, path@),
            Reason::ParentIdentity { wave, parent } => self.parent_mistaken(wave as int, parent@),
            Reason::NotFinal { token } => token < self.tokens.len() && self.positions(
                self.waves.len() as int,
            )[token as int] != self.tokens[token as int].locs.len() - 1,
            Reason::SameFinal { path } => self.same_final(path@),
            _ => false,
        }
    }

    /// The steps of the first `w` waves are in range and distinct.
    pub open spec fn steps_good(self, w: int) -> bool {
        &&& forall|v: int, i: int| #![trigger self.waves[v][i]] self.has(v, i) && v < w ==> self.names_move(self.waves[v][i])
        &&& forall|v: int, i: int, u: int, j: int|
            #![trigger self.waves[v][i], self.waves[u][j]]
            self.has(v, i) && self.has(u, j) && v < w && u < w && self.waves[v][i] == self.waves[u][j] ==> v == u && i == j
    }

    /// So they are, and apart from each other within each wave.
    pub open spec fn waves_good(self, w: int) -> bool {
        self.steps_good(w) && forall|v: int| 0 <= v < w ==> #[trigger] self.wave_apart(v)
    }

    /// The first `t` tokens are moved step by step, in the order of waves.
    pub open spec fn tokens_good(self, t: int) -> bool {
        &&& forall|u: int| 0 <= u < t ==> #[trigger] self.waves_increasing(u)
        &&& forall|u: int| 0 <= u < t ==> #[trigger] self.steps_complete(u)
    }

    /// Everything up to the place where waves are carried out in thought is right, and so are the
    /// first `w` waves.
    pub open spec fn ready_up_to(self, w: int) -> bool {
        &&& self.waves_good(self.waves.len() as int)
        &&& self.tokens_good(self.tokens.len() as int)
        &&& forall|v: int| 0 <= v < w ==> #[trigger] self.wave_ready(v)
    }

    /// The first `t` tokens end at their last locations, which are different.
    pub open spec fn ends_good(self, t: int) -> bool {
        &&& forall|u: int|
            0 <= u < t ==> self.positions(self.waves.len() as int)[u] == (#[trigger] self.tokens[u]).locs.len() - 1
        &&& forall|a: int, b: int|
            #![trigger self.tokens[a], self.tokens[b]]
            0 <= a < b < t ==> self.final_path(a) != self.final_path(b)
    }

    /// The defect is met first: wave by wave the steps are looked at, and then whether they are apart;
    /// then each token's steps; then the waves are carried out in thought; then where the tokens end.
    /// Everything that is looked at before is right.
    pub open spec fn met_first(self, r: Reason) -> bool {
        let all = self.waves.len() as int;
        match r {
            Reason::UnknownToken | Reason::BeyondLastLocation | Reason::MovedTwice => exists|w: int|
                0 <= w < all && #[trigger] self.waves_good(w) && !self.steps_good(w + 1),
            Reason::Overlap { wave, .. } => wave < all && self.waves_good(wave as int) && self.steps_good(wave + 1)
                && !self.wave_apart(wave as int),
            Reason::MissingStep { token, .. } | Reason::WavesNotIncreasing { token } => self.waves_good(all) && self.tokens_good(
                token as int,
            ),
            Reason::NotAtSource { wave, .. } | Reason::Occupied { wave, .. } | Reason::ParentNotInPlace { wave, .. }
            | Reason::ParentIdentity { wave, .. } => wave < all && self.ready_up_to(wave as int) && !self.wave_ready(
                wave as int,
            ),
            Reason::NotFinal { token } => self.ready_up_to(all) && self.ends_good(token as int),
            Reason::SameFinal { path } => self.ready_up_to(all) && exists|t: int|
                0 <= t < self.tokens.len() && #[trigger] self.ends_good(t) && self.final_path(t) == path@,
            _ => false,
        }
    }

    /// `l` is where the step starts or ends.
    pub open spec fn is_endpoint(self, s: Step, l: LocView) -> bool {
        l == self.src(s) || l == self.dst(s)
    }
}

impl Plan {
    /// Where a step starts.
    pub fn src(&self, s: Step) -> (r: &Loc)
        requires
            self@.names_move(s),
        ensures
            r@ == self@.src(s),
    {
        &self.tokens[s.token].locs[s.from]
    }

    /// Where a step ends.
    pub fn dst(&self, s: Step) -> (r: &Loc)
        requires
            self@.names_move(s),
        ensures
            r@ == self@.dst(s),
    {
        let n = self.tokens[s.token].locs.len();
        assert(s.from + 1 < n);
        &self.tokens[s.token].locs[s.from + 1]
    }
}

/// For each token and location, the wave that moves the token away from it.
type StepTable = Vec<Vec<Option<usize>>>;

/// `(v, j)` comes before `(w, i)` in the order of waves and steps.
spec fn earlier(v: int, j: int, w: int, i: int) -> bool {
    v < w || v == w && j < i
}

/// The `j`-th step of wave `v` comes before `(w, i)` and moves token `t` away from `f`.
spec fn step_before(p: PlanView, v: int, j: int, w: int, i: int, t: int, f: int) -> bool {
    p.has(v, j) && earlier(v, j, w, i) && p.waves[v][j].token == t && p.waves[v][j].from == f
}

/// The table holds exactly the steps before `(w, i)`, all of them in range and distinct.
spec fn registered(p: PlanView, table: Seq<Vec<Option<usize>>>, w: int, i: int) -> bool {
    &&& table.len() == p.tokens.len()
    &&& forall|t: int| 0 <= t < table.len() ==> (#[trigger] table[t])@.len() == p.tokens[t].locs.len() - 1
    &&& forall|t: int, f: int|
        #![trigger table[t]@[f]]
        0 <= t < table.len() && 0 <= f < table[t]@.len() && table[t]@[f] is Some ==> exists|j: int|
            #[trigger] step_before(p, table[t]@[f]->0 as int, j, w, i, t, f)
    &&& forall|v: int, j: int|
        #![trigger p.waves[v][j]]
        p.has(v, j) && earlier(v, j, w, i) ==> p.names_move(p.waves[v][j])
            && table[p.waves[v][j].token as int]@[p.waves[v][j].from as int] == Some(v as usize)
    &&& forall|v: int, j: int, v2: int, j2: int|
        #![trigger p.waves[v][j], p.waves[v2][j2]]
        p.has(v, j) && earlier(v, j, w, i) && p.has(v2, j2) && earlier(v2, j2, w, i) && p.waves[v][j]
            == p.waves[v2][j2] ==> v == v2 && j == j2
}

/// A plan with a defect is not valid.
pub proof fn lemma_defect_is_invalid(p: PlanView, r: Reason)
    requires
        p.has_defect(r),
    ensures
        !p.valid(),
{
    if p.valid() {
        match r {
            Reason::UnknownToken => {},
            Reason::BeyondLastLocation => {},
            Reason::Overlap { wave, first, second } => {
                let w = wave as int;
                let (i, j) = choose|i: int, j: int|
                    #![trigger p.waves[w][i], p.waves[w][j]]
                    p.has(w, i) && p.has(w, j) && i < j && p.steps_overlap_at(
                        p.waves[w][i],
                        p.waves[w][j],
                        first@,
                        second@,
                    );
                assert(p.wave_apart(w));
                assert(p.steps_apart(p.waves[w][i], p.waves[w][j]));
            },
            Reason::MissingStep { token, from } => {
                assert(p.steps_complete(token as int));
            },
            Reason::NotAtSource { wave, token } => {
                assert(p.wave_ready(wave as int));
            },
            Reason::Occupied { wave, path, token } => {
                assert(p.wave_ready(wave as int));
            },
            Reason::ParentNotInPlace { wave, path } => {
                let w = wave as int;
                assert(p.wave_ready(w));
                let (i, l, t) = choose|i: int, l: LocView, t: int|
                    p.has(w, i) && #[trigger] p.is_endpoint(p.waves[w][i], l) && l.path == path@ && 0 <= t
                        < p.tokens.len() && !#[trigger] p.parent_token_ready(p.positions(w), l, t);
                assert(p.step_ready(p.positions(w), p.waves[w][i]));
                assert(p.parent_ready(p.positions(w), l));
            },
            Reason::ParentIdentity { wave, parent } => {
                let w = wave as int;
                assert(p.wave_ready(w));
                let (i, l) = choose|i: int, l: LocView|
                    p.has(w, i) && #[trigger] p.is_endpoint(p.waves[w][i], l) && parent_of(l.path) == parent@
                        && !p.parent_identity_ok(p.positions(w), l);
                assert(p.step_ready(p.positions(w), p.waves[w][i]));
                assert(p.parent_ready(p.positions(w), l));
            },
            _ => {},
        }
    }
}

/// Enters the steps of wave `w` into the table.
fn register(plan: &Plan, w: usize, table: &mut StepTable) -> (r: Result<(), Reason>)
    requires
        w < plan@.waves.len(),
        plan@.has_locations(),
        registered(plan@, old(table)@, w as int, 0),
    ensures
        r is Ok ==> registered(plan@, final(table)@, w + 1, 0),
        r matches Err(e) ==> plan@.has_defect(e) && !plan@.steps_good(w + 1) && (e == Reason::UnknownToken || e
            == Reason::BeyondLastLocation || e == Reason::MovedTwice),
{
    let ghost p = plan@;
    let wave = &plan.waves[w];
    let n = wave.len();
    assert(p.waves[w as int] == wave@);
    let mut i: usize = 0;
    while i < n
        invariant
            i <= n,
            p == plan@,
            w < p.waves.len(),
            p.waves[w as int] == wave@,
            n == wave@.len(),
            p.has_locations(),
            registered(p, table@, w as int, i as int),
        decreases n - i,
    {
        let s = wave[i];
        assert(p.has(w as int, i as int) && p.waves[w as int][i as int] == s);
        if s.token >= plan.tokens.len() {
            return Err(Reason::UnknownToken);
        }
        assert(p.tokens[s.token as int].locs.len() == plan.tokens@[s.token as int].locs@.len());
        if s.from >= plan.tokens[s.token].locs.len() - 1 {
            return Err(Reason::BeyondLastLocation);
        }
        assert(table@[s.token as int]@.len() == p.tokens[s.token as int].locs.len() - 1);
        if table[s.token][s.from].is_some() {
            proof {
                let v = table@[s.token as int]@[s.from as int]->0 as int;
                let j = choose|j: int| #[trigger]
                    step_before(p, v, j, w as int, i as int, s.token as int, s.from as int);
                assert(p.waves[v][j] == p.waves[w as int][i as int]);
            }
            return Err(Reason::MovedTwice);
        }
        let ghost before = table@;
        table[s.token][s.from] = Some(w);
        proof {
            lemma_register_one(p, before, table@, w as int, i as int);
        }
        i = i + 1;
    }
    assert(registered(p, table@, w + 1, 0)) by {
        let t0 = table@;
        assert forall|t: int, f: int|
            #![trigger t0[t]@[f]]
            0 <= t < t0.len() && 0 <= f < t0[t]@.len() && t0[t]@[f] is Some implies exists|j: int|
            #[trigger] step_before(p, t0[t]@[f]->0 as int, j, w + 1, 0, t, f) by {
            let v = t0[t]@[f]->0 as int;
            let j = choose|j: int| #[trigger] step_before(p, v, j, w as int, n as int, t, f);
            assert(step_before(p, v, j, w + 1, 0, t, f));
        }
        assert(forall|v: int, j: int| p.has(v, j) ==> (#[trigger] earlier(v, j, w + 1, 0) ==> earlier(v, j, w as int, n as int)));
    }
    Ok(())
}

proof fn lemma_register_one(
    p: PlanView,
    a: Seq<Vec<Option<usize>>>,
    b: Seq<Vec<Option<usize>>>,
    w: int,
    i: int,
)
    requires
        registered(p, a, w, i),
        p.has(w, i),
        w <= usize::MAX,
        p.names_move(p.waves[w][i]),
        a[p.waves[w][i].token as int]@[p.waves[w][i].from as int] is None,
        b.len() == a.len(),
        forall|t: int| 0 <= t < a.len() && t != p.waves[w][i].token ==> b[t] == a[t],
        b[p.waves[w][i].token as int]@ == a[p.waves[w][i].token as int]@.update(
            p.waves[w][i].from as int,
            Some(w as usize),
        ),
    ensures
        registered(p, b, w, i + 1),
{
    let s = p.waves[w][i];
    assert forall|t: int, f: int|
        #![trigger b[t]@[f]]
        0 <= t < b.len() && 0 <= f < b[t]@.len() && b[t]@[f] is Some implies exists|j: int|
        #[trigger] step_before(p, b[t]@[f]->0 as int, j, w, i + 1, t, f) by {
        if t == s.token && f == s.from {
            assert(b[t]@[f] == Some(w as usize));
            assert(step_before(p, b[t]@[f]->0 as int, i, w, i + 1, t, f));
        } else {
            assert(b[t]@[f] == a[t]@[f]);
            let v = a[t]@[f]->0 as int;
            let j = choose|j: int| #[trigger] step_before(p, v, j, w, i, t, f);
            assert(step_before(p, b[t]@[f]->0 as int, j, w, i + 1, t, f));
        }
    }
    assert forall|v: int, j: int|
        #![trigger p.waves[v][j]]
        p.has(v, j) && earlier(v, j, w, i + 1) implies p.names_move(p.waves[v][j])
        && b[p.waves[v][j].token as int]@[p.waves[v][j].from as int] == Some(v as usize) by {
        if v == w && j == i {
        } else {
            assert(earlier(v, j, w, i));
            assert(a[p.waves[v][j].token as int]@[p.waves[v][j].from as int] == Some(v as usize));
        }
    }
}

/// Finds endpoints of the two steps that overlap.
fn find_overlap(plan: &Plan, a: Step, b: Step) -> (r: Option<(RelPath, RelPath)>)
    requires
        plan@.names_move(a),
        plan@.names_move(b),
    ensures
        r is None <==> plan@.steps_apart(a, b),
        r matches Some((p, q)) ==> plan@.steps_overlap_at(a, b, p@, q@),
{
    let sa = plan.src(a);
    let da = plan.dst(a);
    let sb = plan.src(b);
    let db = plan.dst(b);
    if sa.path.overlaps(&sb.path) {
        return Some((sa.path.clone(), sb.path.clone()));
    }
    if sa.path.overlaps(&db.path) {
        return Some((sa.path.clone(), db.path.clone()));
    }
    if da.path.overlaps(&sb.path) {
        return Some((da.path.clone(), sb.path.clone()));
    }
    if da.path.overlaps(&db.path) {
        return Some((da.path.clone(), db.path.clone()));
    }
    None
}

/// Checks that the steps of wave `w` are apart.
fn check_apart(plan: &Plan, w: usize) -> (r: Result<(), Reason>)
    requires
        w < plan@.waves.len(),
        forall|i: int| 0 <= i < plan@.waves[w as int].len() ==> plan@.names_move(#[trigger] plan@.waves[w as int][i]),
    ensures
        r is Ok ==> plan@.wave_apart(w as int),
        r matches Err(e) ==> plan@.has_defect(e) && !plan@.wave_apart(w as int) && (e matches Reason::Overlap { wave, .. }
            && wave == w),
{
    let ghost p = plan@;
    let wave = &plan.waves[w];
    assert(p.waves[w as int] == wave@);
    let n = wave.len();
    let mut i: usize = 0;
    while i < n
        invariant
            i <= n,
            n == wave@.len(),
            p == plan@,
            w < p.waves.len(),
            p.waves[w as int] == wave@,
            forall|i: int| 0 <= i < wave@.len() ==> p.names_move(#[trigger] wave@[i]),
            forall|a: int, b: int|
                #![trigger wave@[a], wave@[b]]
                0 <= a < i && a < b < n ==> p.steps_apart(wave@[a], wave@[b]),
        decreases n - i,
    {
        let mut j: usize = i + 1;
        while j < n
            invariant
                i < j <= n,
                n == wave@.len(),
                p == plan@,
                w < p.waves.len(),
                p.waves[w as int] == wave@,
                forall|i: int| 0 <= i < wave@.len() ==> p.names_move(#[trigger] wave@[i]),
                forall|b: int| #![trigger wave@[b]] i < b < j ==> p.steps_apart(wave@[i as int], wave@[b]),
            decreases n - j,
        {
            match find_overlap(plan, wave[i], wave[j]) {
                Some((first, second)) => {
                    assert(p.has(w as int, i as int) && p.has(w as int, j as int));
                    assert(p.waves[w as int][i as int] == wave@[i as int]);
                    assert(p.waves[w as int][j as int] == wave@[j as int]);
                    assert(!p.steps_apart(p.waves[w as int][i as int], p.waves[w as int][j as int]));
                    assert(p.overlap_in(w as int, first@, second@));
                    return Err(Reason::Overlap { wave: w, first, second });
                },
                None => {},
            }
            j = j + 1;
        }
        i = i + 1;
    }
    Ok(())
}

/// With every step entered, the table says which wave moves which token.
proof fn lemma_registered_steps(p: PlanView, table: Seq<Vec<Option<usize>>>, t: int, f: int, w: int)
    requires
        registered(p, table, p.waves.len() as int, 0),
        p.waves.len() <= usize::MAX,
        0 <= t < p.tokens.len(),
        0 <= f < p.tokens[t].locs.len() - 1,
    ensures
        p.has_step(t, f, w) <==> table[t]@[f] is Some && table[t]@[f]->0 == w,
{
    assert(table[t]@.len() == p.tokens[t].locs.len() - 1);
    if p.has_step(t, f, w) {
        let i = choose|i: int|
            0 <= i < p.waves[w].len() && (#[trigger] p.waves[w][i]).token == t && p.waves[w][i].from == f;
        assert(p.has(w, i) && earlier(w, i, p.waves.len() as int, 0));
    }
    if table[t]@[f] is Some {
        let v = table[t]@[f]->0 as int;
        let j = choose|j: int| #[trigger] step_before(p, v, j, p.waves.len() as int, 0, t, f);
        assert(p.waves[v][j].token == t);
    }
}

/// Checks that token `t` is moved from each location but its last, in later and later waves.
fn check_order(plan: &Plan, table: &StepTable, t: usize) -> (r: Result<(), Reason>)
    requires
        plan@.has_locations(),
        t < plan@.tokens.len(),
        registered(plan@, table@, plan@.waves.len() as int, 0),
    ensures
        r is Ok ==> plan@.waves_increasing(t as int) && plan@.steps_complete(t as int),
        r matches Err(e) ==> plan@.has_defect(e) && !plan@.valid() && match e {
            Reason::MissingStep { token, .. } => token == t,
            Reason::WavesNotIncreasing { token } => token == t,
            _ => false,
        },
{
    let ghost p = plan@;
    let nw = plan.waves.len();
    assert(p.waves.len() == nw);
    let row = &table[t];
    let n = row.len();
    assert(n == p.tokens[t as int].locs.len() - 1);
    let mut f: usize = 0;
    while f < n
        invariant
            f <= n,
            p == plan@,
            p.waves.len() == nw,
            t < p.tokens.len(),
            row@ == table@[t as int]@,
            n == row@.len(),
            n == p.tokens[t as int].locs.len() - 1,
            registered(p, table@, p.waves.len() as int, 0),
            forall|g: int| 0 <= g < f ==> (#[trigger] row@[g]) is Some,
        decreases n - f,
    {
        if row[f].is_none() {
            proof {
                assert forall|w: int| !p.has_step(t as int, f as int, w) by {
                    lemma_registered_steps(p, table@, t as int, f as int, w);
                }
                assert(!p.is_moved(t as int, f as int));
                lemma_defect_is_invalid(p, Reason::MissingStep { token: t, from: f });
            }
            return Err(Reason::MissingStep { token: t, from: f });
        }
        f = f + 1;
    }
    let mut f: usize = 1;
    while f < n
        invariant
            1 <= f,
            f <= n || n == 0,
            p == plan@,
            p.waves.len() == nw,
            t < p.tokens.len(),
            row@ == table@[t as int]@,
            n == row@.len(),
            n == p.tokens[t as int].locs.len() - 1,
            registered(p, table@, p.waves.len() as int, 0),
            forall|g: int| 0 <= g < n ==> (#[trigger] row@[g]) is Some,
            forall|g: int| 1 <= g < f ==> row@[g - 1]->0 < (#[trigger] row@[g])->0,
        decreases n - f,
    {
        if let (Some(a), Some(b)) = (row[f - 1], row[f]) {
            if a >= b {
                proof {
                    lemma_registered_steps(p, table@, t as int, f - 1, a as int);
                    lemma_registered_steps(p, table@, t as int, f as int, b as int);
                    assert(p.has_step(t as int, f - 1, a as int));
                    assert(p.has_step(t as int, (f - 1) + 1, b as int));
                    assert(!p.waves_increasing(t as int));
                }
                return Err(Reason::WavesNotIncreasing { token: t });
            }
        }
        f = f + 1;
    }
    proof {
        assert forall|f: int| 0 <= f < p.tokens[t as int].locs.len() - 1 implies #[trigger] p.is_moved(t as int, f) by {
            let w = row@[f]->0 as int;
            lemma_registered_steps(p, table@, t as int, f, w);
            assert(p.has_step(t as int, f, w));
        }
        assert forall|f: int, v: int, w: int|
            #![trigger p.has_step(t as int, f, v), p.has_step(t as int, f + 1, w)]
            p.has_step(t as int, f, v) && p.has_step(t as int, f + 1, w) implies v < w by {
            let j = choose|j: int|
                0 <= j < p.waves[w].len() && (#[trigger] p.waves[w][j]).token == t && p.waves[w][j].from == f + 1;
            assert(p.has(w, j) && earlier(w, j, p.waves.len() as int, 0));
            let i = choose|i: int|
                0 <= i < p.waves[v].len() && (#[trigger] p.waves[v][i]).token == t && p.waves[v][i].from == f;
            assert(p.has(v, i) && earlier(v, i, p.waves.len() as int, 0));
            lemma_registered_steps(p, table@, t as int, f, v);
            lemma_registered_steps(p, table@, t as int, f + 1, w);
            assert(row@[(f + 1) - 1]->0 < row@[f + 1]->0);
        }
    }
    Ok(())
}

/// Machine positions as mathematical ones.
pub open spec fn ints(pos: Seq<usize>) -> Positions {
    pos.map_values(|x: usize| x as int)
}

/// Every token is at one of its locations.
pub open spec fn in_range(p: PlanView, pos: Positions) -> bool {
    &&& pos.len() == p.tokens.len()
    &&& forall|t: int| 0 <= t < pos.len() ==> 0 <= (#[trigger] pos[t]) < p.tokens[t].locs.len()
}

/// The first token that is at `q`.
fn find_occupant(plan: &Plan, pos: &Vec<usize>, q: &RelPath) -> (r: Option<usize>)
    requires
        in_range(plan@, ints(pos@)),
    ensures
        match plan@.occupant(ints(pos@), q@) {
            Some(t) => r is Some && r->0 == t && t < plan@.tokens.len(),
            None => r is None,
        },
{
    let n = plan.tokens.len();
    let ghost p = plan@;
    let mut t: usize = 0;
    while t < n
        invariant
            t <= n,
            n == p.tokens.len(),
            p == plan@,
            in_range(p, ints(pos@)),
            p.first_at(ints(pos@), q@, t as int) is None,
        decreases n - t,
    {
        assert(ints(pos@)[t as int] == pos@[t as int]);
        let here = &plan.tokens[t].locs[pos[t]].path;
        assert(here@ == p.path_at(ints(pos@), t as int));
        if here.same(q) {
            proof {
                lemma_first_at_stays(p, ints(pos@), q@, t + 1);
            }
            return Some(t);
        }
        t = t + 1;
    }
    None
}

proof fn lemma_first_at_stays(p: PlanView, pos: Positions, q: PathView, n: int)
    requires
        0 <= n <= p.tokens.len(),
        p.first_at(pos, q, n) is Some,
    ensures
        p.occupant(pos, q) == p.first_at(pos, q, n),
    decreases p.tokens.len() - n,
{
    if n < p.tokens.len() {
        lemma_first_at_stays(p, pos, q, n + 1);
    }
}

/// Checks that the parent of one endpoint of a step of wave `w` is in place.
fn check_parent(plan: &Plan, w: usize, pos: &Vec<usize>, loc: &Loc) -> (r: Result<(), Reason>)
    requires
        in_range(plan@, ints(pos@)),
        ints(pos@) == plan@.positions(w as int),
        exists|i: int| plan@.has(w as int, i) && #[trigger] plan@.is_endpoint(plan@.waves[w as int][i], loc@),
    ensures
        r is Ok <==> plan@.parent_ready(ints(pos@), loc@),
        r matches Err(e) ==> plan@.has_defect(e) && match e {
            Reason::ParentNotInPlace { wave, .. } => wave == w,
            Reason::ParentIdentity { wave, .. } => wave == w,
            _ => false,
        },
{
    let ghost p = plan@;
    let ghost ps = ints(pos@);
    let ghost i0 = choose|i: int| p.has(w as int, i) && #[trigger] p.is_endpoint(p.waves[w as int][i], loc@);
    let parent = loc.path.parent_or_root();
    let n = plan.tokens.len();
    let mut t: usize = 0;
    while t < n
        invariant
            t <= n,
            n == p.tokens.len(),
            p == plan@,
            ps == ints(pos@),
            in_range(p, ps),
            parent@ == parent_of(loc@.path),
            ps == p.positions(w as int),
            p.has(w as int, i0),
            p.is_endpoint(p.waves[w as int][i0], loc@),
            forall|u: int| 0 <= u < t ==> #[trigger] p.parent_token_ready(ps, loc@, u),
        decreases n - t,
    {
        let tok = &plan.tokens[t];
        assert(p.tokens[t as int] == tok@);
        if tok.kind == Kind::Dir && tok.id == loc.parent {
            assert(ps[t as int] == pos@[t as int]);
            let here = &tok.locs[pos[t]].path;
            assert(here@ == p.path_at(ps, t as int));
            if !here.same(&parent) {
                assert(!p.parent_token_ready(ps, loc@, t as int));
                assert(p.parent_elsewhere(w as int, loc@.path));
                return Err(Reason::ParentNotInPlace { wave: w, path: loc.path.clone() });
            }
        }
        assert(p.parent_token_ready(ps, loc@, t as int));
        t = t + 1;
    }
    match find_occupant(plan, pos, &parent) {
        Some(u) => {
            if plan.tokens[u].id != loc.parent {
                assert(!p.parent_identity_ok(ps, loc@));
                assert(p.parent_mistaken(w as int, parent@));
                return Err(Reason::ParentIdentity { wave: w, parent });
            }
        },
        None => {},
    }
    Ok(())
}

/// Checks that every step of wave `w` can be made when the tokens are at `pos`.
fn check_wave(plan: &Plan, w: usize, pos: &Vec<usize>) -> (r: Result<(), Reason>)
    requires
        w < plan@.waves.len(),
        plan@.steps_in_range(),
        in_range(plan@, ints(pos@)),
        ints(pos@) == plan@.positions(w as int),
    ensures
        r is Ok <==> plan@.wave_ready(w as int),
        r matches Err(e) ==> plan@.has_defect(e) && match e {
            Reason::NotAtSource { wave, .. } => wave == w,
            Reason::Occupied { wave, .. } => wave == w,
            Reason::ParentNotInPlace { wave, .. } => wave == w,
            Reason::ParentIdentity { wave, .. } => wave == w,
            _ => false,
        },
{
    let ghost p = plan@;
    let ghost ps = ints(pos@);
    let wave = &plan.waves[w];
    assert(p.waves[w as int] == wave@);
    let n = wave.len();
    let mut i: usize = 0;
    while i < n
        invariant
            i <= n,
            n == wave@.len(),
            p == plan@,
            ps == ints(pos@),
            w < p.waves.len(),
            p.waves[w as int] == wave@,
            p.steps_in_range(),
            in_range(p, ps),
            ps == p.positions(w as int),
            forall|j: int| 0 <= j < i ==> p.step_ready(ps, #[trigger] wave@[j]),
        decreases n - i,
    {
        let s = wave[i];
        assert(p.has(w as int, i as int) && p.waves[w as int][i as int] == s);
        assert(ps[s.token as int] == pos@[s.token as int]);
        if pos[s.token] != s.from {
            assert(p.not_at_source(w as int, s.token as int));
            return Err(Reason::NotAtSource { wave: w, token: s.token });
        }
        let src = plan.src(s);
        let dst = plan.dst(s);
        match find_occupant(plan, pos, &dst.path) {
            Some(t) => {
                assert(p.dst(p.waves[w as int][i as int]).path == dst.path@);
                assert(p.occupied(w as int, dst.path@, t as int));
                return Err(Reason::Occupied { wave: w, path: dst.path.clone(), token: t });
            },
            None => {},
        }
        assert(p.is_endpoint(p.waves[w as int][i as int], src@));
        assert(p.is_endpoint(p.waves[w as int][i as int], dst@));
        match check_parent(plan, w, pos, src) {
            Ok(_) => {},
            Err(e) => return Err(e),
        }
        match check_parent(plan, w, pos, dst) {
            Ok(_) => {},
            Err(e) => return Err(e),
        }
        i = i + 1;
    }
    Ok(())
}

/// Making a wave keeps every token at one of its locations.
pub proof fn lemma_advance_in_range(p: PlanView, pos: Positions, wave: Seq<Step>)
    requires
        in_range(p, pos),
        forall|i: int| 0 <= i < wave.len() ==> p.names_move(#[trigger] wave[i]),
    ensures
        in_range(p, advance(pos, wave)),
    decreases wave.len(),
{
    if wave.len() > 0 {
        assert forall|i: int| 0 <= i < wave.drop_last().len() implies p.names_move(#[trigger] wave.drop_last()[i]) by {
            assert(wave.drop_last()[i] == wave[i]);
        }
        lemma_advance_in_range(p, pos, wave.drop_last());
        assert(p.names_move(wave.last()));
    }
}

/// Every wave ends with every token at one of its locations.
pub proof fn lemma_positions_in_range(p: PlanView, w: int)
    requires
        p.has_locations(),
        p.steps_in_range(),
        0 <= w <= p.waves.len(),
    ensures
        in_range(p, p.positions(w)),
    decreases w,
{
    if w > 0 {
        lemma_positions_in_range(p, w - 1);
        assert forall|i: int| 0 <= i < p.waves[w - 1].len() implies p.names_move(#[trigger] p.waves[w - 1][i]) by {
            assert(p.has(w - 1, i));
        }
        lemma_advance_in_range(p, p.positions(w - 1), p.waves[w - 1]);
    }
}

/// Moves the tokens of a wave on.
fn advance_positions(plan: &Plan, w: usize, pos: &mut Vec<usize>)
    requires
        w < plan@.waves.len(),
        plan@.steps_in_range(),
        in_range(plan@, ints(old(pos)@)),
    ensures
        ints(final(pos)@) == advance(ints(old(pos)@), plan@.waves[w as int]),
{
    let ghost p = plan@;
    let ghost start = ints(pos@);
    let wave = &plan.waves[w];
    assert(p.waves[w as int] == wave@);
    let n = wave.len();
    let mut i: usize = 0;
    assert(wave@.take(0) =~= Seq::<Step>::empty());
    while i < n
        invariant
            i <= n,
            n == wave@.len(),
            p == plan@,
            w < p.waves.len(),
            p.waves[w as int] == wave@,
            p.steps_in_range(),
            pos@.len() == p.tokens.len(),
            ints(pos@) == advance(start, wave@.take(i as int)),
        decreases n - i,
    {
        let s = wave[i];
        assert(p.has(w as int, i as int) && p.waves[w as int][i as int] == s);
        let ghost before = pos@;
        let n_locs = plan.tokens[s.token].locs.len();
        assert(s.from + 1 < n_locs);
        pos[s.token] = s.from + 1;
        assert(wave@.take(i + 1).drop_last() =~= wave@.take(i as int));
        assert(ints(pos@) =~= ints(before).update(s.token as int, s.from + 1));
        i = i + 1;
    }
    assert(wave@.take(n as int) =~= wave@);
}

/// What has been registered is right.
proof fn lemma_registered_good(p: PlanView, table: Seq<Vec<Option<usize>>>, w: int)
    requires
        registered(p, table, w, 0),
    ensures
        p.steps_good(w),
{
    assert forall|v: int, i: int| #![trigger p.waves[v][i]] p.has(v, i) && v < w implies p.names_move(p.waves[v][i]) by {
        assert(earlier(v, i, w, 0));
    }
    assert forall|v: int, i: int, u: int, j: int|
        #![trigger p.waves[v][i], p.waves[u][j]]
        p.has(v, i) && p.has(u, j) && v < w && u < w && p.waves[v][i] == p.waves[u][j] implies v == u && i == j by {
        assert(earlier(v, i, w, 0) && earlier(u, j, w, 0));
    }
}

/// Checks the proof obligations of a plan (see `PlanView::valid`). The error names the first
/// defect that is met (see `PlanView::met_first`).
pub fn validate(plan: &Plan) -> (r: Result<(), Reason>)
    requires
        plan@.has_locations(),
    ensures
        r is Ok <==> plan@.valid(),
        r matches Err(e) ==> plan@.has_defect(e) && plan@.met_first(e),
{
    let ghost p = plan@;
    let n = plan.tokens.len();
    let nw = plan.waves.len();
    let mut table: StepTable = Vec::new();
    let mut t: usize = 0;
    while t < n
        invariant
            t <= n,
            n == p.tokens.len(),
            p == plan@,
            p.has_locations(),
            table@.len() == t,
            forall|u: int|
                0 <= u < t ==> (#[trigger] table@[u])@.len() == p.tokens[u].locs.len() - 1 && forall|f: int|
                    0 <= f < table@[u]@.len() ==> table@[u]@[f] is None,
        decreases n - t,
    {
        assert(p.tokens[t as int].locs.len() == plan.tokens@[t as int].locs@.len());
        let m = plan.tokens[t].locs.len() - 1;
        let mut row: Vec<Option<usize>> = Vec::new();
        let mut f: usize = 0;
        while f < m
            invariant
                f <= m,
                row@.len() == f,
                forall|g: int| 0 <= g < f ==> (#[trigger] row@[g]) is None,
            decreases m - f,
        {
            row.push(None);
            f = f + 1;
        }
        table.push(row);
        t = t + 1;
    }
    let mut w: usize = 0;
    while w < nw
        invariant
            w <= nw,
            nw == p.waves.len(),
            p == plan@,
            p.has_locations(),
            registered(p, table@, w as int, 0),
            forall|v: int| 0 <= v < w ==> #[trigger] p.wave_apart(v),
        decreases nw - w,
    {
        let ghost old_table = table@;
        match register(plan, w, &mut table) {
            Ok(_) => {},
            Err(e) => {
                proof {
                    lemma_defect_is_invalid(p, e);
                    lemma_registered_good(p, old_table, w as int);
                    assert(p.waves_good(w as int));
                }
                return Err(e);
            },
        }
        assert forall|i: int| 0 <= i < p.waves[w as int].len() implies p.names_move(
            #[trigger] p.waves[w as int][i],
        ) by {
            assert(p.has(w as int, i) && earlier(w as int, i, w + 1, 0));
        }
        proof {
            lemma_registered_good(p, old_table, w as int);
            lemma_registered_good(p, table@, w + 1);
        }
        match check_apart(plan, w) {
            Ok(_) => {},
            Err(e) => return Err(e),
        }
        w = w + 1;
    }
    assert(p.steps_in_range() && p.steps_distinct()) by {
        assert(forall|v: int, j: int| p.has(v, j) ==> #[trigger] earlier(v, j, nw as int, 0));
    }
    proof {
        lemma_registered_good(p, table@, nw as int);
    }
    assert(p.waves_good(nw as int));
    let mut t: usize = 0;
    while t < n
        invariant
            t <= n,
            n == p.tokens.len(),
            nw == p.waves.len(),
            p == plan@,
            p.has_locations(),
            registered(p, table@, nw as int, 0),
            p.waves_good(nw as int),
            forall|u: int| 0 <= u < t ==> #[trigger] p.waves_increasing(u),
            forall|u: int| 0 <= u < t ==> #[trigger] p.steps_complete(u),
        decreases n - t,
    {
        match check_order(plan, &table, t) {
            Ok(_) => {},
            Err(e) => return Err(e),
        }
        t = t + 1;
    }
    // Symbolic execution over token positions.
    let mut pos: Vec<usize> = Vec::new();
    let mut t: usize = 0;
    while t < n
        invariant
            t <= n,
            pos@.len() == t,
            forall|u: int| 0 <= u < t ==> (#[trigger] pos@[u]) == 0,
        decreases n - t,
    {
        pos.push(0);
        t = t + 1;
    }
    assert(ints(pos@) =~= p.positions(0));
    let mut w: usize = 0;
    while w < nw
        invariant
            w <= nw,
            nw == p.waves.len(),
            p == plan@,
            p.has_locations(),
            p.steps_in_range(),
            ints(pos@) == p.positions(w as int),
            p.waves_good(nw as int),
            p.tokens_good(n as int),
            n == p.tokens.len(),
            forall|v: int| 0 <= v < w ==> #[trigger] p.wave_ready(v),
        decreases nw - w,
    {
        proof {
            lemma_positions_in_range(p, w as int);
        }
        match check_wave(plan, w, &pos) {
            Ok(_) => {},
            Err(e) => return Err(e),
        }
        advance_positions(plan, w, &mut pos);
        w = w + 1;
    }
    proof {
        lemma_positions_in_range(p, nw as int);
    }
    let mut t: usize = 0;
    while t < n
        invariant
            t <= n,
            n == p.tokens.len(),
            nw == p.waves.len(),
            p == plan@,
            p.has_locations(),
            ints(pos@) == p.positions(nw as int),
            in_range(p, ints(pos@)),
            p.ready_up_to(nw as int),
            forall|u: int|
                0 <= u < t ==> p.positions(nw as int)[u] == (#[trigger] p.tokens[u]).locs.len() - 1,
            forall|a: int, b: int|
                #![trigger p.tokens[a], p.tokens[b]]
                0 <= a < b < t ==> p.final_path(a) != p.final_path(b),
        decreases n - t,
    {
        let tok = &plan.tokens[t];
        assert(p.tokens[t as int] == tok@);
        assert(ints(pos@)[t as int] == pos@[t as int]);
        if pos[t] != tok.locs.len() - 1 {
            return Err(Reason::NotFinal { token: t });
        }
        let here = &tok.locs[pos[t]].path;
        assert(here@ == p.final_path(t as int));
        let mut u: usize = 0;
        while u < t
            invariant
                u <= t,
                t < n,
                n == p.tokens.len(),
                p == plan@,
                p.has_locations(),
                here@ == p.final_path(t as int),
                nw == p.waves.len(),
                p.ready_up_to(nw as int),
                p.ends_good(t as int),
                forall|a: int| #![trigger p.tokens[a]] 0 <= a < u ==> p.final_path(a) != p.final_path(t as int),
            decreases t - u,
        {
            assert(p.tokens[u as int].locs.len() == plan.tokens@[u as int].locs@.len());
            let last = plan.tokens[u].locs.len() - 1;
            let other = &plan.tokens[u].locs[last].path;
            assert(other@ == p.final_path(u as int));
            if other.same(here) {
                assert(p.tokens[u as int] == p.tokens[u as int] && p.tokens[t as int] == p.tokens[t as int]);
                assert(p.same_final(here@));
                assert(!p.finals_distinct());
                return Err(Reason::SameFinal { path: here.clone() });
            }
            u = u + 1;
        }
        t = t + 1;
    }
    Ok(())
}

} // verus!
