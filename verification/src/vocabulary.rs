//! What the words for names and paths mean, byte by byte and component by component.
use vstd::prelude::*;

use crate::bytes::{begins_with, folded, lower, name_lt, precedes_at, Name};
use crate::changes::child_path;
use crate::path::{
    ancestor, first_fault, is_component, joined, named_parts, overlapping, parent_of, part_fault, path_lt, path_precedes_at, private_path, segments,
    user_parts, user_path_fault, PathView,
};

verus! {

/// Folding changes capital letters of ASCII to small ones, and nothing else.
pub proof fn law_folding_is_of_ascii_letters(s: Name, i: int)
    ensures
        folded(s).len() == s.len(),
        0 <= i < s.len() ==> folded(s)[i] == (if 65 <= s[i] <= 90 {
            (s[i] + 32) as u8
        } else {
            s[i]
        }),
{
}

/// Two names fold to the same exactly if they have the same length and at each index the same byte, or
/// one letter in its two forms.
pub proof fn law_folding_forgets_case_only(a: Name, b: Name)
    ensures
        folded(a) == folded(b) <==> a.len() == b.len() && forall|i: int| 0 <= i < a.len() ==> one_letter(#[trigger] a[i], b[i]),
{
    if folded(a) == folded(b) {
        assert(folded(a).len() == a.len() && folded(b).len() == b.len());
        assert forall|i: int| 0 <= i < a.len() implies one_letter(#[trigger] a[i], b[i]) by {
            assert(folded(a)[i] == lower(a[i]) && folded(b)[i] == lower(b[i]));
        }
    }
    if a.len() == b.len() && forall|i: int| 0 <= i < a.len() ==> one_letter(#[trigger] a[i], b[i]) {
        assert forall|i: int| 0 <= i < a.len() implies folded(a)[i] == folded(b)[i] by {
            assert(one_letter(a[i], b[i]));
        }
        assert(folded(a) =~= folded(b));
    }
}

/// The bytes are the same, or a letter of ASCII in its two forms.
pub open spec fn one_letter(x: u8, y: u8) -> bool {
    x == y || 65 <= x <= 90 && y == x + 32 || 65 <= y <= 90 && x == y + 32
}

/// A name begins with another if it is as long and has the same byte at every index of it.
pub proof fn law_beginning_is_byte_by_byte(s: Name, p: Name)
    ensures
        begins_with(s, p) <==> p.len() <= s.len() && forall|i: int| 0 <= i < p.len() ==> s[i] == #[trigger] p[i],
{
    if begins_with(s, p) {
        assert forall|i: int| 0 <= i < p.len() implies s[i] == #[trigger] p[i] by {
            assert(s.take(p.len() as int)[i] == p[i]);
        }
    }
    if p.len() <= s.len() && forall|i: int| 0 <= i < p.len() ==> s[i] == #[trigger] p[i] {
        assert(s.take(p.len() as int) =~= p);
    }
}

/// `a` and `b` first differ at `i`, where `a` has ended or has the smaller byte.
pub open spec fn smaller_at(a: Name, b: Name, i: int) -> bool {
    &&& 0 <= i <= a.len() && i < b.len()
    &&& forall|j: int| 0 <= j < i ==> #[trigger] a[j] == b[j]
    &&& i == a.len() || a[i] < b[i]
}

/// Names are ordered by their first difference.
pub proof fn law_order_is_by_the_first_difference(a: Name, b: Name)
    ensures
        name_lt(a, b) <==> exists|i: int| smaller_at(a, b, i),
{
    if name_lt(a, b) {
        let i = choose|i: int| precedes_at(a, b, i);
        assert forall|j: int| 0 <= j < i implies #[trigger] a[j] == b[j] by {
            assert(a.take(i)[j] == b.take(i)[j]);
        }
        assert(smaller_at(a, b, i));
    }
    if exists|i: int| smaller_at(a, b, i) {
        let i = choose|i: int| smaller_at(a, b, i);
        assert(a.take(i) =~= b.take(i));
        assert(precedes_at(a, b, i));
    }
}

/// What can be one component of a path: at least one byte, no NUL and no slash, and neither one dot nor
/// two.
pub proof fn law_components_are_plain_names(b: Name)
    ensures
        is_component(b) <==> {
            &&& b.len() > 0
            &&& forall|i: int| 0 <= i < b.len() ==> #[trigger] b[i] != 0 && b[i] != 47
            &&& !(b.len() == 1 && b[0] == 46)
            &&& !(b.len() == 2 && b[0] == 46 && b[1] == 46)
        },
{
    if is_component(b) {
        assert forall|i: int| 0 <= i < b.len() implies #[trigger] b[i] != 0 && b[i] != 47 by {
            assert(b.contains(b[i]));
        }
        if b.len() == 1 && b[0] == 46 {
            assert(b =~= seq![46u8]);
        }
        if b.len() == 2 && b[0] == 46 && b[1] == 46 {
            assert(b =~= seq![46u8, 46u8]);
        }
    }
}

/// What is private: the first component is `.fstx`, with letters in either form, and nothing more.
pub proof fn law_private_is_one_name(p: PathView)
    ensures
        private_path(p) <==> p.len() > 0 && p[0].len() == 5 && p[0][0] == 46 && one_letter(p[0][1], 102) && one_letter(p[0][2], 115)
            && one_letter(p[0][3], 116) && one_letter(p[0][4], 120),
{
    if p.len() > 0 {
        let want = seq![46u8, 102u8, 115u8, 116u8, 120u8];
        let x = p[0];
        assert(folded(x).len() == x.len());
        if x.len() == 5 {
            assert(folded(x)[0] == lower(x[0]) && folded(x)[1] == lower(x[1]) && folded(x)[2] == lower(x[2]) && folded(x)[3]
                == lower(x[3]) && folded(x)[4] == lower(x[4]));
            if private_path(p) {
                assert(folded(x)[0] == want[0] && folded(x)[1] == want[1] && folded(x)[2] == want[2] && folded(x)[3] == want[3]
                    && folded(x)[4] == want[4]);
            }
            if x[0] == 46 && one_letter(x[1], 102) && one_letter(x[2], 115) && one_letter(x[3], 116) && one_letter(x[4], 120) {
                assert(folded(x) =~= want);
            }
        }
    }
}

/// `p` leads on from `q`: its first components are all of those of `q`.
pub open spec fn within(p: PathView, q: PathView) -> bool {
    q.len() <= p.len() && forall|i: int| 0 <= i < q.len() ==> p[i] == #[trigger] q[i]
}

/// A path is above another if that leads on from it, by whole components.
pub proof fn law_above_is_by_whole_components(a: PathView, b: PathView)
    ensures
        ancestor(a, b) <==> a.len() < b.len() && within(b, a),
        overlapping(a, b) <==> within(a, b) || within(b, a),
        a.len() > 0 ==> parent_of(a) == a.subrange(0, a.len() - 1),
        crate::tree::leads_on(b, a) <==> within(b, a),
{
    lemma_within(a, b);
    lemma_within(b, a);
    if a.len() > 0 {
        assert(a.drop_last() =~= a.subrange(0, a.len() - 1));
    }
    if within(b, a) && a.len() == b.len() {
        assert(a =~= b);
    }
}

/// Leading on is beginning with the same components.
pub proof fn lemma_within(p: PathView, q: PathView)
    ensures
        within(p, q) <==> q.len() <= p.len() && p.take(q.len() as int) == q,
{
    if within(p, q) {
        assert(p.take(q.len() as int) =~= q);
    }
    if q.len() <= p.len() && p.take(q.len() as int) == q {
        assert forall|i: int| 0 <= i < q.len() implies p[i] == #[trigger] q[i] by {
            assert(p.take(q.len() as int)[i] == q[i]);
        }
    }
}

/// The pieces with slashes between them.
pub open spec fn slashed(pieces: PathView) -> Name
    decreases pieces.len(),
{
    if pieces.len() == 0 {
        Seq::empty()
    } else if pieces.len() == 1 {
        pieces[0]
    } else {
        slashed(pieces.drop_last()) + seq![47u8] + pieces.last()
    }
}

/// A path is split at its slashes, and nowhere else: no piece holds one, and with slashes between them
/// the pieces are the path.
pub proof fn law_paths_are_split_at_slashes(p: Name)
    ensures
        segments(p).len() > 0,
        slashed(segments(p)) == p,
        forall|i: int, j: int| 0 <= i < segments(p).len() && 0 <= j < segments(p)[i].len() ==> (#[trigger] segments(p)[i][j]) != 47,
    decreases p.len(),
{
    if p.len() > 0 {
        let q = p.drop_last();
        law_paths_are_split_at_slashes(q);
        let s = segments(q);
        let t = segments(p);
        if p.last() == 47 {
            assert(t =~= s.push(Seq::empty()));
            assert(t.drop_last() =~= s);
            assert(slashed(t) =~= slashed(s) + seq![47u8] + Seq::<u8>::empty());
            assert(p =~= q + seq![47u8]);
            assert(slashed(t) =~= p);
        } else {
            assert(t =~= s.drop_last().push(s.last().push(p.last())));
            assert(t.drop_last() =~= s.drop_last());
            assert(t.last() =~= s.last().push(p.last()));
            if s.len() == 1 {
                assert(slashed(t) == t[0]);
                assert(slashed(s) == s[0]);
                assert(t[0] =~= s[0].push(p.last()));
            } else {
                assert(slashed(t) =~= (slashed(s.drop_last()) + seq![47u8] + s.last()).push(p.last()));
            }
            assert(slashed(t) =~= p);
        }
        assert forall|i: int, j: int| 0 <= i < t.len() && 0 <= j < t[i].len() implies (#[trigger] t[i][j]) != 47 by {
            if i < s.len() - 1 {
                assert(t[i] == s[i]);
            } else if p.last() == 47 {
                if i == s.len() - 1 {
                    assert(t[i] == s[i]);
                }
            } else if j < s.last().len() {
                assert(t[i][j] == s[s.len() - 1][j]);
            }
        }
    } else {
        assert(segments(p) =~= seq![Seq::<u8>::empty()]);
        assert(p =~= Seq::<u8>::empty());
        assert(slashed(segments(p)) =~= p);
    }
}

/// The piece names something: it is neither empty nor one dot.
pub open spec fn names_something(s: Name) -> bool {
    s.len() > 0 && !(s.len() == 1 && s[0] == 46)
}

/// What a path names are the pieces that name something, all of them, in order.
pub proof fn law_parts_are_the_pieces_that_name_something(p: Name)
    ensures
        user_parts(p) == segments(p).filter(|s: Name| names_something(s)),
{
    lemma_named(segments(p));
}

proof fn lemma_named(segs: PathView)
    ensures
        named_parts(segs) == segs.filter(|s: Name| names_something(s)),
    decreases segs.len(),
{
    reveal(Seq::filter);
    if segs.len() > 0 {
        lemma_named(segs.drop_last());
        let s = segs.last();
        if s == seq![46u8] {
            assert(s.len() == 1 && s[0] == 46);
        }
        if s.len() == 1 && s[0] == 46 {
            assert(s =~= seq![46u8]);
        }
    }
}

/// The part is two dots.
pub open spec fn climbs_out(s: Name) -> bool {
    s.len() == 2 && s[0] == 46 && s[1] == 46
}

/// The part holds a NUL byte.
pub open spec fn holds_nul(s: Name) -> bool {
    exists|i: int| 0 <= i < s.len() && #[trigger] s[i] == 0
}

/// Which paths are accepted: exactly those that do not begin with a slash, that name something, in which
/// no part is two dots or holds a NUL byte, and whose first part is not the private name.
pub proof fn law_which_paths_are_accepted(p: Name)
    ensures
        user_path_fault(p) is None <==> {
            &&& !(p.len() > 0 && p[0] == 47)
            &&& user_parts(p).len() > 0
            &&& forall|i: int|
                0 <= i < user_parts(p).len() ==> !climbs_out(#[trigger] user_parts(p)[i]) && !holds_nul(user_parts(p)[i])
            &&& !private_path(user_parts(p))
        },
{
    lemma_faultless(user_parts(p));
}

/// Why a path is refused: one that begins with a slash for that; else for the first part that is two
/// dots or holds a NUL byte; else because it names nothing; else because it is private.
pub proof fn law_why_paths_are_refused(p: Name, i: int)
    ensures
        p.len() > 0 && p[0] == 47 ==> user_path_fault(p) == Some("must be relative"@),
        !(p.len() > 0 && p[0] == 47) && 0 <= i < user_parts(p).len() && (forall|j: int|
            0 <= j < i ==> !climbs_out(#[trigger] user_parts(p)[j]) && !holds_nul(user_parts(p)[j])) ==> (climbs_out(
            user_parts(p)[i],
        ) ==> user_path_fault(p) == Some("contains `..`"@)) && (!climbs_out(user_parts(p)[i]) && holds_nul(user_parts(p)[i])
            ==> user_path_fault(p) == Some("contains a NUL byte"@)),
        !(p.len() > 0 && p[0] == 47) && user_parts(p).len() == 0 ==> user_path_fault(p) == Some("empty path"@),
        !(p.len() > 0 && p[0] == 47) && private_path(user_parts(p)) && (forall|j: int|
            0 <= j < user_parts(p).len() ==> !climbs_out(#[trigger] user_parts(p)[j]) && !holds_nul(user_parts(p)[j]))
            ==> user_path_fault(p) == Some("the `.fstx` directory is reserved"@),
{
    let parts = user_parts(p);
    lemma_faultless(parts);
    if 0 <= i < parts.len() && (forall|j: int| 0 <= j < i ==> !climbs_out(#[trigger] parts[j]) && !holds_nul(parts[j])) && (
    climbs_out(parts[i]) || holds_nul(parts[i])) {
        lemma_first_faulty(parts, i, parts.len() as int);
        assert(parts.take(parts.len() as int) =~= parts);
        lemma_part(parts[i]);
    }
}

proof fn lemma_part(s: Name)
    ensures
        part_fault(s) == (if climbs_out(s) {
            Some("contains `..`"@)
        } else if holds_nul(s) {
            Some("contains a NUL byte"@)
        } else {
            None
        }),
{
    if climbs_out(s) {
        assert(s =~= seq![46u8, 46u8]);
    }
    if holds_nul(s) {
        let i = choose|i: int| 0 <= i < s.len() && #[trigger] s[i] == 0;
        assert(s.contains(0u8));
    }
    if s.contains(0u8) {
        let i = choose|i: int| 0 <= i < s.len() && s[i] == 0u8;
        assert(s[i] == 0);
    }
}

proof fn lemma_faultless(parts: PathView)
    ensures
        first_fault(parts) is None <==> forall|i: int|
            0 <= i < parts.len() ==> !climbs_out(#[trigger] parts[i]) && !holds_nul(parts[i]),
    decreases parts.len(),
{
    if parts.len() > 0 {
        let less = parts.drop_last();
        lemma_faultless(less);
        lemma_part(parts.last());
        if first_fault(parts) is None {
            assert forall|i: int| 0 <= i < parts.len() implies !climbs_out(#[trigger] parts[i]) && !holds_nul(parts[i]) by {
                if i < less.len() {
                    assert(less[i] == parts[i]);
                }
            }
        }
        if forall|i: int| 0 <= i < parts.len() ==> !climbs_out(#[trigger] parts[i]) && !holds_nul(parts[i]) {
            assert forall|i: int| 0 <= i < less.len() implies !climbs_out(#[trigger] less[i]) && !holds_nul(less[i]) by {
                assert(less[i] == parts[i]);
            }
            assert(parts[parts.len() - 1] == parts.last());
        }
    }
}

proof fn lemma_first_faulty(parts: PathView, i: int, n: int)
    requires
        0 <= i < n <= parts.len(),
        forall|j: int| 0 <= j < i ==> !climbs_out(#[trigger] parts[j]) && !holds_nul(parts[j]),
        climbs_out(parts[i]) || holds_nul(parts[i]),
    ensures
        first_fault(parts.take(n)) == part_fault(parts[i]),
        part_fault(parts[i]) is Some,
    decreases n,
{
    let some = parts.take(n);
    lemma_part(parts[i]);
    if i < n - 1 {
        lemma_first_faulty(parts, i, n - 1);
        assert(some.drop_last() =~= parts.take(n - 1));
    } else {
        let less = parts.take(i);
        assert(some.drop_last() =~= less);
        assert(some.last() == parts[i]);
        lemma_faultless(less);
        assert forall|j: int| 0 <= j < less.len() implies !climbs_out(#[trigger] less[j]) && !holds_nul(less[j]) by {
            assert(less[j] == parts[j]);
        }
    }
}

/// The path of an entry in a directory: the directory's, a slash and the entry's name; at the top the
/// name alone.
pub proof fn law_entries_are_named_below_their_directory(rel: Name, name: Name, i: int)
    ensures
        rel.len() == 0 ==> child_path(rel, name) == name,
        rel.len() > 0 ==> child_path(rel, name).len() == rel.len() + 1 + name.len(),
        rel.len() > 0 && 0 <= i < rel.len() ==> child_path(rel, name)[i] == rel[i],
        rel.len() > 0 ==> child_path(rel, name)[rel.len() as int] == 47,
        rel.len() > 0 && 0 <= i < name.len() ==> child_path(rel, name)[rel.len() + 1 + i] == name[i],
{
}

/// Paths first differ at component `i`, where `a` has ended or has the name that comes first.
pub open spec fn sooner_at(a: PathView, b: PathView, i: int) -> bool {
    &&& 0 <= i <= a.len() && i < b.len()
    &&& forall|j: int| 0 <= j < i ==> #[trigger] a[j] == b[j]
    &&& i == a.len() || exists|k: int| smaller_at(a[i], b[i], k)
}

/// Paths are ordered by the first component that differs, so that what is below a directory comes right
/// after it.
pub proof fn law_paths_are_ordered_by_the_first_different_name(a: PathView, b: PathView)
    ensures
        path_lt(a, b) <==> exists|i: int| sooner_at(a, b, i),
        a != b && within(b, a) ==> path_lt(a, b),
        a == b || path_lt(a, b) || path_lt(b, a),
        !(path_lt(a, b) && path_lt(b, a)),
{
    if path_lt(a, b) {
        let i = choose|i: int| path_precedes_at(a, b, i);
        assert forall|j: int| 0 <= j < i implies #[trigger] a[j] == b[j] by {
            assert(a.take(i)[j] == b.take(i)[j]);
        }
        if i < a.len() {
            law_order_is_by_the_first_difference(a[i], b[i]);
        }
        assert(sooner_at(a, b, i));
        crate::path::lemma_path_lt_asymmetric(a, b);
    }
    if exists|i: int| sooner_at(a, b, i) {
        let i = choose|i: int| sooner_at(a, b, i);
        assert(a.take(i) =~= b.take(i));
        if i < a.len() {
            law_order_is_by_the_first_difference(a[i], b[i]);
        }
        assert(path_precedes_at(a, b, i));
    }
    if a != b && within(b, a) {
        if a.len() == b.len() {
            assert(a =~= b);
        }
        assert(sooner_at(a, b, a.len() as int));
        assert(a.take(a.len() as int) =~= b.take(a.len() as int));
        assert(path_precedes_at(a, b, a.len() as int));
    }
    crate::path::lemma_path_lt_total(a, b);
}

/// A path is written with slashes between its components.
pub proof fn law_paths_are_written_with_slashes(p: PathView)
    ensures
        joined(p) == slashed(p),
    decreases p.len(),
{
    if p.len() > 1 {
        law_paths_are_written_with_slashes(p.drop_last());
    }
}

} // verus!
