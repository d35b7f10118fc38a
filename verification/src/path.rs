//! Path types. `RelPath` is any path relative to the transaction root, as raw components.
//! `validate_user_path` turns a caller-supplied path into a `RelPath` that can never escape
//! the root or touch the private `.fstx` area.
use vstd::prelude::*;

use crate::bytes::{bytes_contain, bytes_eq, name_before, to_lower};
use crate::bytes::{folded, lemma_name_lt_asymmetric, lemma_name_lt_irreflexive, lemma_name_lt_total, lemma_name_lt_transitive, name_lt, Name};
use crate::error::{Error, Result};

verus! {

/// A relative path as a mathematical sequence of component names; the root is empty.
pub type PathView = Seq<Name>;

/// The name of the private bookkeeping directory inside the root: `.fstx`.
pub open spec fn private_name() -> Name {
    seq![46u8, 102u8, 115u8, 116u8, 120u8]
}

/// `.fstx`.
pub fn private_dir_name() -> (r: Vec<u8>)
    ensures
        r@ == private_name(),
{
    vec![46u8, 102, 115, 116, 120]
}

/// A name that can be one component of a path: not empty, not `.` or `..`, no NUL, no `/`.
pub open spec fn is_component(b: Name) -> bool {
    &&& b.len() > 0
    &&& b != seq![46u8]
    &&& b != seq![46u8, 46u8]
    &&& !b.contains(0u8)
    &&& !b.contains(47u8)
}

/// Every component of the path is a proper name.
pub open spec fn proper_path(p: PathView) -> bool {
    forall|i: int| 0 <= i < p.len() ==> is_component(#[trigger] p[i])
}

/// A path in the tree: not the root, made of proper names, and outside the private area.
pub open spec fn tree_path(p: PathView) -> bool {
    p.len() > 0 && proper_path(p) && !private_path(p)
}

/// The path leads into the private area: its first component is `.fstx` in any ASCII case.
pub open spec fn private_path(p: PathView) -> bool {
    p.len() > 0 && folded(p[0]) == private_name()
}

/// `a` is a strict ancestor of `b`.
pub open spec fn ancestor(a: PathView, b: PathView) -> bool {
    a.len() < b.len() && b.take(a.len() as int) == a
}

/// One of the two paths equals or contains the other.
pub open spec fn overlapping(a: PathView, b: PathView) -> bool {
    a == b || ancestor(a, b) || ancestor(b, a)
}

/// The parent of a path; the root stands in for its own parent.
pub open spec fn parent_of(p: PathView) -> PathView {
    if p.len() == 0 {
        p
    } else {
        p.drop_last()
    }
}

/// `a` and `b` agree on their first `i` components, and there either `a` ends first or its
/// next component comes first.
pub open spec fn path_precedes_at(a: PathView, b: PathView, i: int) -> bool {
    &&& 0 <= i <= a.len()
    &&& i < b.len()
    &&& a.take(i) == b.take(i)
    &&& (i == a.len() || name_lt(a[i], b[i]))
}

/// The order of paths: component by component.
pub open spec fn path_lt(a: PathView, b: PathView) -> bool {
    exists|i: int| path_precedes_at(a, b, i)
}

/// A path relative to the root: a list of single, non-empty components.
#[derive(Debug, PartialEq, Eq, PartialOrd, Ord, Hash)]
pub struct RelPath {
    parts: Vec<Vec<u8>>,
}

/// The bytes of each part.
pub open spec fn views(parts: Seq<Vec<u8>>) -> PathView {
    parts.map_values(|v: Vec<u8>| v@)
}

impl View for RelPath {
    type V = PathView;

    closed spec fn view(&self) -> PathView {
        views(self.parts@)
    }
}

impl Clone for RelPath {
    fn clone(&self) -> (r: Self)
        ensures
            r@ == self@,
    {
        let mut parts: Vec<Vec<u8>> = Vec::new();
        let n = self.parts.len();
        let mut i: usize = 0;
        while i < n
            invariant
                i <= n,
                n == self.parts@.len(),
                views(parts@) == views(self.parts@).take(i as int),
            decreases n - i,
        {
            let ghost before = views(parts@);
            parts.push(self.parts[i].clone());
            assert(views(parts@) =~= before.push(views(self.parts@)[i as int]));
            assert(views(parts@) =~= views(self.parts@).take(i + 1));
            i = i + 1;
        }
        assert(views(self.parts@).take(n as int) =~= views(self.parts@));
        RelPath { parts }
    }
}

impl Default for RelPath {
    fn default() -> (r: Self)
        ensures
            r@ == Seq::<Name>::empty(),
    {
        RelPath::root()
    }
}

impl RelPath {
    /// The root itself.
    pub fn root() -> (r: Self)
        ensures
            r@ == Seq::<Name>::empty(),
    {
        let r = RelPath { parts: Vec::new() };
        assert(r@ =~= Seq::<Name>::empty());
        r
    }

    /// Builds a path from its components.
    pub fn from_parts(parts: Vec<Vec<u8>>) -> (r: Self)
        ensures
            r@ == views(parts@),
    {
        RelPath { parts }
    }

    /// The components, first to last.
    pub fn components(&self) -> (r: &Vec<Vec<u8>>)
        ensures
            views(r@) == self@,
            r@.len() == self@.len(),
            forall|i: int| 0 <= i < r@.len() ==> (#[trigger] r@[i])@ == self@[i],
    {
        &self.parts
    }

    /// Whether this is the root.
    pub fn is_root(&self) -> (r: bool)
        ensures
            r == (self@.len() == 0),
    {
        self.parts.len() == 0
    }

    /// The number of components.
    pub fn depth(&self) -> (r: usize)
        ensures
            r == self@.len(),
    {
        self.parts.len()
    }

    /// The first `n` components.
    fn prefix(&self, n: usize) -> (r: RelPath)
        requires
            n <= self@.len(),
        ensures
            r@ == self@.take(n as int),
    {
        let mut parts: Vec<Vec<u8>> = Vec::new();
        let mut i: usize = 0;
        while i < n
            invariant
                i <= n,
                n <= self.parts@.len(),
                views(parts@) == views(self.parts@).take(i as int),
            decreases n - i,
        {
            let ghost before = views(parts@);
            parts.push(self.parts[i].clone());
            assert(views(parts@) =~= before.push(views(self.parts@)[i as int]));
            assert(views(parts@) =~= views(self.parts@).take(i + 1));
            i = i + 1;
        }
        RelPath { parts }
    }

    /// The path without its last component; `None` for the root.
    pub fn parent(&self) -> (r: Option<RelPath>)
        ensures
            r is None <==> self@.len() == 0,
            r matches Some(q) ==> q@ == self@.drop_last(),
    {
        if self.parts.len() == 0 {
            None
        } else {
            let q = self.prefix(self.parts.len() - 1);
            assert(q@ =~= self@.drop_last());
            Some(q)
        }
    }

    /// The directory that holds this entry; the root for the root.
    pub fn parent_or_root(&self) -> (r: RelPath)
        ensures
            r@ == parent_of(self@),
    {
        match self.parent() {
            Some(q) => q,
            None => {
                let r = RelPath::root();
                assert(r@ =~= self@);
                r
            },
        }
    }

    /// The last component; `None` for the root.
    pub fn file_name(&self) -> (r: Option<&Vec<u8>>)
        ensures
            r is None <==> self@.len() == 0,
            r matches Some(n) ==> n@ == self@.last(),
    {
        if self.parts.len() == 0 {
            None
        } else {
            Some(&self.parts[self.parts.len() - 1])
        }
    }

    /// The path extended by one component.
    pub fn join(&self, name: Vec<u8>) -> (r: RelPath)
        ensures
            r@ == self@.push(name@),
    {
        let mut p = self.clone();
        p.parts.push(name);
        assert(p@ =~= self@.push(name@));
        p
    }

    /// The path extended by all components of `rest`.
    pub fn join_path(&self, rest: &RelPath) -> (r: RelPath)
        ensures
            r@ == self@ + rest@,
    {
        let mut p = self.clone();
        let n = rest.parts.len();
        let mut i: usize = 0;
        while i < n
            invariant
                i <= n,
                n == rest.parts@.len(),
                p@ == self@ + rest@.take(i as int),
            decreases n - i,
        {
            let ghost before = p@;
            p.parts.push(rest.parts[i].clone());
            assert(p@ =~= before.push(rest@[i as int]));
            assert(p@ =~= self@ + rest@.take(i + 1));
            i = i + 1;
        }
        assert(rest@.take(n as int) =~= rest@);
        p
    }

    /// Whether the first `n` components of both paths agree.
    fn same_prefix(&self, other: &RelPath, n: usize) -> (r: bool)
        requires
            n <= self@.len(),
            n <= other@.len(),
        ensures
            r == (self@.take(n as int) == other@.take(n as int)),
    {
        let mut i: usize = 0;
        while i < n
            invariant
                i <= n,
                n <= self.parts@.len(),
                n <= other.parts@.len(),
                self@.take(i as int) == other@.take(i as int),
            decreases n - i,
        {
            if !bytes_eq(&self.parts[i], &other.parts[i]) {
                assert(self@[i as int] != other@[i as int]);
                assert(self@.take(n as int)[i as int] != other@.take(n as int)[i as int]);
                return false;
            }
            assert(self@.take(i + 1) =~= self@.take(i as int).push(self@[i as int]));
            assert(other@.take(i + 1) =~= other@.take(i as int).push(other@[i as int]));
            i = i + 1;
        }
        true
    }

    /// Whether both paths have the same components.
    pub fn same(&self, other: &RelPath) -> (r: bool)
        ensures
            r == (self@ == other@),
    {
        if self.parts.len() != other.parts.len() {
            return false;
        }
        assert(self@.take(self@.len() as int) =~= self@);
        assert(other@.take(other@.len() as int) =~= other@);
        self.same_prefix(other, self.parts.len())
    }

    /// True if `self` is a strict ancestor of `other`.
    pub fn is_ancestor_of(&self, other: &RelPath) -> (r: bool)
        ensures
            r == ancestor(self@, other@),
    {
        assert(self@.take(self@.len() as int) =~= self@);
        self.parts.len() < other.parts.len() && self.same_prefix(other, self.parts.len())
    }

    /// True if `self == other` or one is an ancestor of the other.
    pub fn overlaps(&self, other: &RelPath) -> (r: bool)
        ensures
            r == overlapping(self@, other@),
    {
        self.same(other) || self.is_ancestor_of(other) || other.is_ancestor_of(self)
    }

    /// If `self` starts with `prefix`, the remaining components.
    pub fn strip_prefix(&self, prefix: &RelPath) -> (r: Option<RelPath>)
        ensures
            r is Some <==> prefix@ == self@ || ancestor(prefix@, self@),
            r matches Some(q) ==> self@ == prefix@ + q@,
    {
        assert(prefix@.take(prefix@.len() as int) =~= prefix@);
        assert(self@.take(self@.len() as int) =~= self@);
        if prefix.parts.len() <= self.parts.len() && self.same_prefix(prefix, prefix.parts.len()) {
            let n = self.parts.len();
            let k = prefix.parts.len();
            let mut q = RelPath::root();
            let mut i: usize = k;
            while i < n
                invariant
                    k <= i <= n,
                    n == self.parts@.len(),
                    q@ == self@.subrange(k as int, i as int),
                decreases n - i,
            {
                let ghost before = q@;
                q.parts.push(self.parts[i].clone());
                assert(q@ =~= before.push(self@[i as int]));
                assert(q@ =~= self@.subrange(k as int, i + 1));
                i = i + 1;
            }
            assert(self@ =~= prefix@ + q@);
            Some(q)
        } else {
            None
        }
    }

    /// All proper, non-root prefixes from shortest to longest.
    pub fn proper_prefixes(&self) -> (r: Vec<RelPath>)
        ensures
            r@.len() == (if self@.len() == 0 { 0 } else { self@.len() - 1 }),
            forall|i: int| 0 <= i < r@.len() ==> (#[trigger] r@[i])@ == self@.take(i + 1),
    {
        let mut out: Vec<RelPath> = Vec::new();
        let mut n: usize = 1;
        while n < self.parts.len()
            invariant
                1 <= n,
                n <= self@.len() || n == 1,
                out@.len() == n - 1,
                forall|i: int| 0 <= i < out@.len() ==> (#[trigger] out@[i])@ == self@.take(i + 1),
            decreases self.parts.len() - n,
        {
            out.push(self.prefix(n));
            n = n + 1;
        }
        out
    }

    /// Components joined by `/`.
    pub fn to_path_buf(&self) -> (r: Vec<u8>)
        ensures
            r@ == joined(self@),
    {
        let mut out: Vec<u8> = Vec::new();
        let n = self.parts.len();
        let mut i: usize = 0;
        assert(self@.take(0) =~= Seq::<Name>::empty());
        while i < n
            invariant
                i <= n,
                n == self.parts@.len(),
                out@ == joined(self@.take(i as int)),
            decreases n - i,
        {
            let ghost done = self@.take(i + 1);
            assert(done.drop_last() =~= self@.take(i as int));
            if i > 0 {
                out.push(47);
            }
            out.extend_from_slice(&self.parts[i]);
            assert(out@ =~= joined(done));
            i = i + 1;
        }
        assert(self@.take(n as int) =~= self@);
        out
    }

    /// True if the first component is the private directory (in any ASCII case).
    pub fn is_private(&self) -> (r: bool)
        ensures
            r == private_path(self@),
    {
        if self.parts.len() == 0 {
            return false;
        }
        let low = to_lower(&self.parts[0]);
        let private = private_dir_name();
        bytes_eq(&low, &private)
    }

    /// Whether `self` comes strictly before `other`.
    pub fn before(&self, other: &RelPath) -> (r: bool)
        ensures
            r == path_lt(self@, other@),
    {
        let n: usize = if self.parts.len() < other.parts.len() {
            self.parts.len()
        } else {
            other.parts.len()
        };
        let mut i: usize = 0;
        assert(self@.take(0) =~= other@.take(0));
        while i < n
            invariant
                i <= n,
                n <= self.parts@.len(),
                n <= other.parts@.len(),
                n == self.parts@.len() || n == other.parts@.len(),
                self@.take(i as int) == other@.take(i as int),
            decreases n - i,
        {
            if name_before(&self.parts[i], &other.parts[i]) {
                assert(path_precedes_at(self@, other@, i as int));
                return true;
            }
            if name_before(&other.parts[i], &self.parts[i]) {
                assert(path_precedes_at(other@, self@, i as int));
                proof {
                    lemma_path_lt_asymmetric(other@, self@);
                }
                return false;
            }
            proof {
                lemma_name_lt_total(self@[i as int], other@[i as int]);
            }
            assert(self@.take(i + 1) =~= self@.take(i as int).push(self@[i as int]));
            assert(other@.take(i + 1) =~= other@.take(i as int).push(other@[i as int]));
            i = i + 1;
        }
        proof {
            if self@.len() < other@.len() {
                assert(path_precedes_at(self@, other@, i as int));
            } else if other@.len() < self@.len() {
                assert(path_precedes_at(other@, self@, i as int));
                lemma_path_lt_asymmetric(other@, self@);
            } else {
                assert(self@ =~= self@.take(i as int));
                assert(other@ =~= other@.take(i as int));
                lemma_path_lt_irreflexive(self@);
            }
        }
        self.parts.len() < other.parts.len()
    }
}

/// A path as text: its components separated by `/`.
pub open spec fn joined(p: PathView) -> Name
    decreases p.len(),
{
    if p.len() == 0 {
        Seq::empty()
    } else if p.len() == 1 {
        p[0]
    } else {
        joined(p.drop_last()) + seq![47u8] + p.last()
    }
}

/// No path comes before itself.
pub proof fn lemma_path_lt_irreflexive(a: PathView)
    ensures
        !path_lt(a, a),
{
    if path_lt(a, a) {
        let i = choose|i: int| path_precedes_at(a, a, i);
        lemma_name_lt_irreflexive(a[i]);
    }
}

/// The order of paths never holds both ways.
pub proof fn lemma_path_lt_asymmetric(a: PathView, b: PathView)
    requires
        path_lt(a, b),
    ensures
        !path_lt(b, a),
        a != b,
{
    let i = choose|i: int| path_precedes_at(a, b, i);
    if a == b {
        lemma_name_lt_irreflexive(a[i]);
    }
    if path_lt(b, a) {
        let j = choose|j: int| path_precedes_at(b, a, j);
        if i < j {
            assert(a.take(j)[i] == b.take(j)[i]);
            lemma_name_lt_irreflexive(a[i]);
        } else if j < i {
            assert(a.take(i)[j] == b.take(i)[j]);
            lemma_name_lt_irreflexive(a[j]);
        } else {
            lemma_name_lt_asymmetric(a[i], b[i]);
        }
    }
}

/// The order of paths is transitive.
pub proof fn lemma_path_lt_transitive(a: PathView, b: PathView, c: PathView)
    requires
        path_lt(a, b),
        path_lt(b, c),
    ensures
        path_lt(a, c),
{
    let i = choose|i: int| path_precedes_at(a, b, i);
    let j = choose|j: int| path_precedes_at(b, c, j);
    let k = if i < j {
        i
    } else {
        j
    };
    assert(a.take(k) =~= a.take(i).take(k));
    assert(b.take(k) =~= b.take(i).take(k));
    assert(b.take(k) =~= b.take(j).take(k));
    assert(c.take(k) =~= c.take(j).take(k));
    if i < j {
        assert(b.take(j)[i] == c.take(j)[i]);
    } else if j < i {
        assert(a.take(i)[j] == b.take(i)[j]);
    } else if i < a.len() && j < b.len() {
        lemma_name_lt_transitive(a[i], b[i], c[i]);
    }
    assert(path_precedes_at(a, c, k));
}

/// Any two different paths are ordered.
pub proof fn lemma_path_lt_total(a: PathView, b: PathView)
    ensures
        a == b || path_lt(a, b) || path_lt(b, a),
{
    if a != b {
        assert(a.take(0) =~= b.take(0));
        lemma_path_lt_total_from(a, b, 0);
    }
}

proof fn lemma_path_lt_total_from(a: PathView, b: PathView, i: int)
    requires
        a != b,
        0 <= i <= a.len(),
        i <= b.len(),
        a.take(i) == b.take(i),
    ensures
        path_lt(a, b) || path_lt(b, a),
    decreases a.len() - i,
{
    if i == a.len() {
        if i == b.len() {
            assert(a =~= a.take(i));
            assert(b =~= b.take(i));
        } else {
            assert(path_precedes_at(a, b, i));
        }
    } else if i == b.len() {
        assert(path_precedes_at(b, a, i));
    } else {
        lemma_name_lt_total(a[i], b[i]);
        if name_lt(a[i], b[i]) {
            assert(path_precedes_at(a, b, i));
        } else if name_lt(b[i], a[i]) {
            assert(path_precedes_at(b, a, i));
        } else {
            assert(a.take(i + 1) =~= a.take(i).push(a[i]));
            assert(b.take(i + 1) =~= b.take(i).push(b[i]));
            lemma_path_lt_total_from(a, b, i + 1);
        }
    }
}

/// The pieces of `p` between slashes, empty ones included.
pub open spec fn segments(p: Name) -> PathView
    decreases p.len(),
{
    if p.len() == 0 {
        seq![Seq::empty()]
    } else {
        let s = segments(p.drop_last());
        if p.last() == 47 {
            s.push(Seq::empty())
        } else {
            s.drop_last().push(s.last().push(p.last()))
        }
    }
}

/// A piece that names something: neither empty nor `.`.
pub open spec fn significant(s: Name) -> bool {
    s.len() > 0 && s != seq![46u8]
}

/// The pieces of a path that name something, in order.
pub open spec fn named_parts(segs: PathView) -> PathView
    decreases segs.len(),
{
    if segs.len() == 0 {
        Seq::empty()
    } else if significant(segs.last()) {
        named_parts(segs.drop_last()).push(segs.last())
    } else {
        named_parts(segs.drop_last())
    }
}

/// Why a piece cannot be part of a path, if it cannot.
pub open spec fn part_fault(s: Name) -> Option<Seq<char>> {
    if s == seq![46u8, 46u8] {
        Some("contains `..`"@)
    } else if s.contains(0u8) {
        Some("contains a NUL byte"@)
    } else {
        None
    }
}

/// The fault of the first faulty part.
pub open spec fn first_fault(parts: PathView) -> Option<Seq<char>>
    decreases parts.len(),
{
    if parts.len() == 0 {
        None
    } else {
        match first_fault(parts.drop_last()) {
            Some(f) => Some(f),
            None => part_fault(parts.last()),
        }
    }
}

/// The components that a caller-supplied path names.
pub open spec fn user_parts(p: Name) -> PathView {
    named_parts(segments(p))
}

/// Why a caller-supplied path is refused, if it is.
pub open spec fn user_path_fault(p: Name) -> Option<Seq<char>> {
    if p.len() > 0 && p[0] == 47 {
        Some("must be relative"@)
    } else if first_fault(user_parts(p)) is Some {
        first_fault(user_parts(p))
    } else if user_parts(p).len() == 0 {
        Some("empty path"@)
    } else if private_path(user_parts(p)) {
        Some("the `.fstx` directory is reserved"@)
    } else {
        None
    }
}

/// Splits `p` at its slashes.
pub fn split_slashes(p: &[u8]) -> (r: Vec<Vec<u8>>)
    ensures
        views(r@) == segments(p@),
{
    let mut out: Vec<Vec<u8>> = Vec::new();
    let mut cur: Vec<u8> = Vec::new();
    let n = p.len();
    let mut i: usize = 0;
    assert(views(out@).push(cur@) =~= segments(p@.take(0)));
    while i < n
        invariant
            i <= n,
            n == p@.len(),
            views(out@).push(cur@) == segments(p@.take(i as int)),
        decreases n - i,
    {
        let b = p[i];
        let ghost before = views(out@);
        let ghost part = cur@;
        assert(p@.take(i + 1).drop_last() =~= p@.take(i as int));
        assert(before.push(part).drop_last() =~= before);
        if b == 47 {
            out.push(cur);
            assert(views(out@) =~= before.push(part));
            cur = Vec::new();
            assert(cur@ =~= Seq::<u8>::empty());
        } else {
            cur.push(b);
        }
        assert(views(out@).push(cur@) =~= segments(p@.take(i + 1)));
        i = i + 1;
    }
    assert(p@.take(n as int) =~= p@);
    let ghost before = views(out@);
    out.push(cur);
    assert(views(out@) =~= before.push(out@.last()@));
    out
}

/// The error for a refused path.
fn invalid_path(p: &[u8], reason: &'static str) -> (r: Error)
    ensures
        r == (Error::InvalidPath { path: r->InvalidPath_path, reason }),
        r->InvalidPath_path@ == p@,
{
    Error::InvalidPath { path: vstd::slice::slice_to_vec(p), reason }
}

/// Validates a caller-supplied path. Rejects: empty, absolute, `..`, NUL bytes, and anything
/// whose first component is `.fstx` (any ASCII case). `.` components are dropped. Where
/// several faults are present, the first component that has one decides.
pub fn validate_user_path(p: &[u8]) -> (r: Result<RelPath>)
    ensures
        match user_path_fault(p@) {
            Some(why) => r matches Err(Error::InvalidPath { path, reason }) && path@ == p@ && reason@ == why,
            None => r matches Ok(q) && q@ == user_parts(p@),
        },
{
    if p.len() > 0 && p[0] == 47 {
        return Err(invalid_path(p, "must be relative"));
    }
    let segs = split_slashes(p);
    let dot: Vec<u8> = vec![46];
    let dotdot: Vec<u8> = vec![46, 46];
    let mut parts: Vec<Vec<u8>> = Vec::new();
    let n = segs.len();
    let mut i: usize = 0;
    let ghost all = views(segs@);
    assert(views(parts@) =~= named_parts(all.take(0)));
    while i < n
        invariant
            i <= n,
            n == segs@.len(),
            all == views(segs@),
            all == segments(p@),
            dot@ == seq![46u8],
            dotdot@ == seq![46u8, 46u8],
            !(p@.len() > 0 && p@[0] == 47),
            views(parts@) == named_parts(all.take(i as int)),
            first_fault(named_parts(all.take(i as int))) is None,
        decreases n - i,
    {
        let s = &segs[i];
        assert(all.take(i + 1).drop_last() =~= all.take(i as int));
        if s.len() > 0 && !bytes_eq(s, &dot) {
            let ghost now = named_parts(all.take(i + 1));
            assert(now.drop_last() =~= views(parts@));
            if bytes_eq(s, &dotdot) {
                proof {
                    lemma_first_fault_stays(all, i + 1);
                }
                return Err(invalid_path(p, "contains `..`"));
            }
            if bytes_contain(s, 0) {
                proof {
                    lemma_first_fault_stays(all, i + 1);
                }
                return Err(invalid_path(p, "contains a NUL byte"));
            }
            let ghost before = views(parts@);
            parts.push(s.clone());
            assert(views(parts@) =~= before.push(s@));
        }
        i = i + 1;
    }
    assert(all.take(n as int) =~= all);
    if parts.len() == 0 {
        return Err(invalid_path(p, "empty path"));
    }
    let rel = RelPath { parts };
    if rel.is_private() {
        return Err(invalid_path(p, "the `.fstx` directory is reserved"));
    }
    Ok(rel)
}

/// A fault found among the first parts is the fault of the whole.
proof fn lemma_first_fault_stays(segs: PathView, i: int)
    requires
        0 <= i <= segs.len(),
        first_fault(named_parts(segs.take(i))) is Some,
    ensures
        first_fault(named_parts(segs)) == first_fault(named_parts(segs.take(i))),
    decreases segs.len() - i,
{
    if i < segs.len() {
        assert(segs.take(i + 1).drop_last() =~= segs.take(i));
        let now = named_parts(segs.take(i + 1));
        if significant(segs[i]) {
            assert(now.drop_last() =~= named_parts(segs.take(i)));
        }
        lemma_first_fault_stays(segs, i + 1);
    } else {
        assert(segs.take(i) =~= segs);
    }
}

/// Every piece between slashes is free of slashes.
proof fn lemma_segments_no_slash(p: Name)
    ensures
        segments(p).len() > 0,
        forall|i: int| 0 <= i < segments(p).len() ==> !(#[trigger] segments(p)[i]).contains(47u8),
    decreases p.len(),
{
    if p.len() > 0 {
        lemma_segments_no_slash(p.drop_last());
        let s = segments(p.drop_last());
        let t = segments(p);
        assert forall|i: int| 0 <= i < t.len() implies !(#[trigger] t[i]).contains(47u8) by {
            if i < s.len() - 1 {
                assert(t[i] == s[i]);
            } else if p.last() == 47 {
                if i == s.len() - 1 {
                    assert(t[i] == s[i]);
                }
            } else {
                assert(!s.last().contains(47u8));
                let x = s.last().push(p.last());
                if x.contains(47u8) {
                    let j = choose|j: int| 0 <= j < x.len() && x[j] == 47u8;
                    if j < s.last().len() {
                        assert(s.last()[j] == 47u8);
                    }
                }
            }
        }
    }
}

proof fn lemma_named_parts_from(segs: PathView, n: Name)
    ensures
        named_parts(segs).contains(n) ==> segs.contains(n) && significant(n),
    decreases segs.len(),
{
    if segs.len() > 0 {
        lemma_named_parts_from(segs.drop_last(), n);
        if named_parts(segs).contains(n) {
            let k = named_parts(segs);
            let j = choose|j: int| 0 <= j < k.len() && k[j] == n;
            if significant(segs.last()) && j == k.len() - 1 {
                assert(segs.last() == n);
            } else {
                assert(named_parts(segs.drop_last())[j] == n);
                let i = choose|i: int| 0 <= i < segs.drop_last().len() && segs.drop_last()[i] == n;
                assert(segs[i] == n);
            }
        }
    }
}

proof fn lemma_no_fault_each(parts: PathView, i: int)
    requires
        first_fault(parts) is None,
        0 <= i < parts.len(),
    ensures
        part_fault(parts[i]) is None,
    decreases parts.len(),
{
    if i < parts.len() - 1 {
        lemma_no_fault_each(parts.drop_last(), i);
    }
}

/// Confinement: an accepted path is not empty, every component of it is a proper name (so it
/// cannot climb out of the root), and it does not lead into the private area.
pub proof fn law_accepted_paths_are_confined(p: Name)
    requires
        user_path_fault(p) is None,
    ensures
        tree_path(user_parts(p)),
{
    let parts = user_parts(p);
    assert forall|i: int| 0 <= i < parts.len() implies is_component(#[trigger] parts[i]) by {
        lemma_no_fault_each(parts, i);
        lemma_named_parts_from(segments(p), parts[i]);
        lemma_segments_no_slash(p);
        let j = choose|j: int| 0 <= j < segments(p).len() && segments(p)[j] == parts[i];
        assert(!segments(p)[j].contains(47u8));
    }
}

} // verus!
