//! What finding and replacing text mean, byte by byte.
use vstd::prelude::*;

use crate::edits::{mode_in, occurrences, octal, octal_value, replaced};

verus! {

/// `find` stands at position `k` of `text`: the same byte at every index.
pub open spec fn occurs(text: Seq<u8>, find: Seq<u8>, k: int) -> bool {
    0 <= k && k + find.len() <= text.len() && forall|j: int| 0 <= j < find.len() ==> text[k + j] == #[trigger] find[j]
}

/// Position `k` is within the `j`-th occurrence.
pub open spec fn covers(find: Seq<u8>, at: Seq<int>, j: int, k: int) -> bool {
    0 <= j < at.len() && at[j] <= k < at[j] + find.len()
}

/// The `j`-th occurrence has ended before the `i`-th begins.
pub open spec fn apart(find: Seq<u8>, at: Seq<int>, j: int, i: int) -> bool {
    at[j] + find.len() <= at[i]
}

/// If `find` stands at `k`, that is within one of the occurrences.
pub open spec fn none_missed(text: Seq<u8>, find: Seq<u8>, at: Seq<int>, k: int) -> bool {
    occurs(text, find, k) ==> exists|j: int| covers(find, at, j, k)
}

/// The positions `at` are those of the occurrences from `from` on, left to right and without overlaps:
/// `find` stands at each, each begins where the one before has ended or later, and in between, before
/// the first and after the last none begins.
pub open spec fn found_at(text: Seq<u8>, find: Seq<u8>, from: int, at: Seq<int>) -> bool {
    &&& forall|j: int| 0 <= j < at.len() ==> from <= #[trigger] at[j] && occurs(text, find, at[j])
    &&& forall|j: int, i: int| 0 <= j < i < at.len() ==> #[trigger] apart(find, at, j, i)
    &&& forall|k: int| from <= k ==> #[trigger] none_missed(text, find, at, k)
}

/// How far a position has been shifted by replacing the occurrences before it.
pub open spec fn shift(find: Seq<u8>, with: Seq<u8>, n: int) -> int {
    n * (with.len() - find.len())
}

/// The `i`-th byte of `with` stands where the `j`-th occurrence was.
pub open spec fn put_right(find: Seq<u8>, with: Seq<u8>, from: int, at: Seq<int>, out: Seq<u8>, j: int, i: int) -> bool {
    let x = at[j] - from + shift(find, with, j) + i;
    0 <= x < out.len() && out[x] == with[i]
}

/// The byte at `k`, with `j` occurrences before it, is kept.
pub open spec fn kept_right(text: Seq<u8>, find: Seq<u8>, with: Seq<u8>, from: int, out: Seq<u8>, j: int, k: int) -> bool {
    let x = k - from + shift(find, with, j);
    0 <= x < out.len() && out[x] == text[k]
}

/// `out` is `text` from `from` on with the ranges at the positions `at` exchanged for `with`, and every
/// other byte kept.
pub open spec fn exchanged(text: Seq<u8>, find: Seq<u8>, with: Seq<u8>, from: int, at: Seq<int>, out: Seq<u8>) -> bool {
    &&& out.len() == text.len() - from + shift(find, with, at.len() as int)
    &&& forall|j: int, i: int|
        0 <= j < at.len() && 0 <= i < with.len() ==> #[trigger] put_right(find, with, from, at, out, j, i)
    &&& forall|j: int, k: int|
        gap(find, from, at, text.len() as int, j, k) ==> #[trigger] kept_right(text, find, with, from, out, j, k)
}

/// Position `k` is outside the occurrences, with `j` of them before it.
pub open spec fn gap(find: Seq<u8>, from: int, at: Seq<int>, len: int, j: int, k: int) -> bool {
    &&& 0 <= j <= at.len()
    &&& from <= k < len
    &&& j > 0 ==> at[j - 1] + find.len() <= k
    &&& j < at.len() ==> k < at[j]
}

/// Standing at a position is beginning the rest of the text.
proof fn lemma_occurs(text: Seq<u8>, find: Seq<u8>, i: int)
    requires
        0 <= i <= text.len(),
    ensures
        crate::bytes::begins_with(text.skip(i), find) <==> occurs(text, find, i),
{
    let rest = text.skip(i);
    if crate::bytes::begins_with(rest, find) {
        assert forall|j: int| 0 <= j < find.len() implies text[i + j] == #[trigger] find[j] by {
            assert(rest.take(find.len() as int)[j] == find[j]);
        }
    }
    if occurs(text, find, i) {
        assert(rest.take(find.len() as int) =~= find) by {
            assert forall|j: int| 0 <= j < find.len() implies rest[j] == #[trigger] find[j] by {
                assert(text[i + j] == find[j]);
            }
        }
    }
}

proof fn lemma_shift(find: Seq<u8>, with: Seq<u8>, n: int)
    ensures
        shift(find, with, 0) == 0,
        shift(find, with, n + 1) == shift(find, with, n) + with.len() - find.len(),
{
    let d = with.len() - find.len();
    assert((n + 1) * d == n * d + d) by (nonlinear_arith);
    assert(0 * d == 0) by (nonlinear_arith);
}

/// One more occurrence, at `i`.
proof fn lemma_hit(text: Seq<u8>, find: Seq<u8>, i: int, rest: Seq<int>)
    requires
        find.len() > 0,
        0 <= i,
        occurs(text, find, i),
        found_at(text, find, i + find.len(), rest),
    ensures
        found_at(text, find, i, seq![i] + rest),
{
    let at = seq![i] + rest;
    assert forall|j: int| 0 <= j < at.len() implies i <= #[trigger] at[j] && occurs(text, find, at[j]) by {
        if j > 0 {
            assert(at[j] == rest[j - 1]);
        }
    }
    assert forall|j: int, l: int| 0 <= j < l < at.len() implies #[trigger] apart(find, at, j, l) by {
        assert(at[l] == rest[l - 1]);
        if j > 0 {
            assert(at[j] == rest[j - 1]);
            assert(apart(find, rest, j - 1, l - 1));
        }
    }
    assert forall|k: int| i <= k implies #[trigger] none_missed(text, find, at, k) by {
        if k < i + find.len() {
            assert(covers(find, at, 0, k));
        } else if occurs(text, find, k) {
            assert(none_missed(text, find, rest, k));
            let j = choose|j: int| covers(find, rest, j, k);
            assert(at[j + 1] == rest[j]);
            assert(covers(find, at, j + 1, k));
        }
    }
}

/// No occurrence at `i`.
proof fn lemma_miss(text: Seq<u8>, find: Seq<u8>, i: int, at: Seq<int>)
    requires
        !occurs(text, find, i),
        found_at(text, find, i + 1, at),
    ensures
        found_at(text, find, i, at),
{
    assert forall|k: int| i <= k implies #[trigger] none_missed(text, find, at, k) by {
        if k > i {
            assert(none_missed(text, find, at, k));
        }
    }
}

/// One more exchange, at `i`.
proof fn lemma_hit_exchanged(text: Seq<u8>, find: Seq<u8>, with: Seq<u8>, i: int, rest: Seq<int>, more: Seq<u8>)
    requires
        find.len() > 0,
        0 <= i,
        forall|j: int| 0 <= j < rest.len() ==> i + find.len() <= #[trigger] rest[j],
        exchanged(text, find, with, i + find.len(), rest, more),
    ensures
        exchanged(text, find, with, i, seq![i] + rest, with + more),
{
    let m = find.len() as int;
    let at = seq![i] + rest;
    let out = with + more;
    lemma_shift(find, with, 0);
    lemma_shift(find, with, rest.len() as int);
    assert forall|j: int, l: int| 0 <= j < at.len() && 0 <= l < with.len() implies #[trigger] put_right(
        find,
        with,
        i,
        at,
        out,
        j,
        l,
    ) by {
        if j > 0 {
            lemma_shift(find, with, j - 1);
            assert(at[j] == rest[j - 1]);
            assert(put_right(find, with, i + m, rest, more, j - 1, l));
            let y = rest[j - 1] - (i + m) + shift(find, with, j - 1) + l;
            assert(0 <= y < more.len() && more[y] == with[l]);
            assert(out[with.len() + y] == more[y]);
        }
    }
    assert forall|j: int, k: int| gap(find, i, at, text.len() as int, j, k) implies #[trigger] kept_right(
        text,
        find,
        with,
        i,
        out,
        j,
        k,
    ) by {
        assert(at[0] == i);
        assert(j > 0);
        lemma_shift(find, with, j - 1);
        if j > 1 {
            assert(at[j - 1] == rest[j - 2]);
        }
        if j < at.len() {
            assert(at[j] == rest[j - 1]);
        }
        assert(gap(find, i + m, rest, text.len() as int, j - 1, k));
        assert(kept_right(text, find, with, i + m, more, j - 1, k));
        let y = k - (i + m) + shift(find, with, j - 1);
        assert(0 <= y < more.len() && more[y] == text[k]);
        assert(out[with.len() + y] == more[y]);
    }
}

/// A byte that is kept, at `i`.
proof fn lemma_miss_exchanged(text: Seq<u8>, find: Seq<u8>, with: Seq<u8>, i: int, at: Seq<int>, more: Seq<u8>)
    requires
        0 <= i < text.len(),
        forall|j: int| 0 <= j < at.len() ==> i + 1 <= #[trigger] at[j],
        exchanged(text, find, with, i + 1, at, more),
    ensures
        exchanged(text, find, with, i, at, seq![text[i]] + more),
{
    let out = seq![text[i]] + more;
    lemma_shift(find, with, 0);
    assert forall|j: int, l: int| 0 <= j < at.len() && 0 <= l < with.len() implies #[trigger] put_right(
        find,
        with,
        i,
        at,
        out,
        j,
        l,
    ) by {
        assert(put_right(find, with, i + 1, at, more, j, l));
        let y = at[j] - (i + 1) + shift(find, with, j) + l;
        assert(0 <= y < more.len() && more[y] == with[l]);
        assert(out[1 + y] == more[y]);
    }
    assert forall|j: int, k: int| gap(find, i, at, text.len() as int, j, k) implies #[trigger] kept_right(
        text,
        find,
        with,
        i,
        out,
        j,
        k,
    ) by {
        if k == i {
            if j > 0 {
                assert(at[j - 1] >= i + 1);
            }
            assert(out[0] == text[i]);
        } else {
            assert(gap(find, i + 1, at, text.len() as int, j, k));
            assert(kept_right(text, find, with, i + 1, more, j, k));
            let y = k - (i + 1) + shift(find, with, j);
            assert(0 <= y < more.len() && more[y] == text[k]);
            assert(out[1 + y] == more[y]);
        }
    }
}

/// Where the occurrences are from `i` on, and what replacing them comes to.
proof fn lemma_found(text: Seq<u8>, find: Seq<u8>, with: Seq<u8>, i: int) -> (at: Seq<int>)
    requires
        0 <= i <= text.len(),
        find.len() > 0,
    ensures
        at.len() == occurrences(text, find, i),
        found_at(text, find, i, at),
        exchanged(text, find, with, i, at, replaced(text, find, with, i)),
    decreases text.len() - i,
{
    if i == text.len() {
        let none = Seq::<int>::empty();
        lemma_shift(find, with, 0);
        none
    } else {
        lemma_occurs(text, find, i);
        if occurs(text, find, i) {
            let rest = lemma_found(text, find, with, i + find.len());
            lemma_hit(text, find, i, rest);
            lemma_hit_exchanged(text, find, with, i, rest, replaced(text, find, with, i + find.len()));
            seq![i] + rest
        } else {
            let at = lemma_found(text, find, with, i + 1);
            lemma_miss(text, find, i, at);
            lemma_miss_exchanged(text, find, with, i, at, replaced(text, find, with, i + 1));
            at
        }
    }
}

/// Occurrences are exact. What is counted are the occurrences of `find`, byte for byte, from left to
/// right and without overlaps, and none is passed over; what is replaced are these very ranges, and every
/// other byte is kept.
pub proof fn law_occurrences_are_exact(text: Seq<u8>, find: Seq<u8>, with: Seq<u8>) -> (at: Seq<int>)
    requires
        find.len() > 0,
    ensures
        at.len() == occurrences(text, find, 0),
        found_at(text, find, 0, at),
        exchanged(text, find, with, 0, at, replaced(text, find, with, 0)),
{
    lemma_found(text, find, with, 0)
}

/// There is one way to find them: two lists of positions that are both right are the same.
pub proof fn law_occurrences_are_where_they_are(text: Seq<u8>, find: Seq<u8>, a: Seq<int>, b: Seq<int>)
    requires
        find.len() > 0,
        found_at(text, find, 0, a),
        found_at(text, find, 0, b),
    ensures
        a == b,
{
    lemma_same_places(text, find, a, b, if a.len() <= b.len() {
        a.len() as int
    } else {
        b.len() as int
    });
    if a.len() < b.len() {
        lemma_no_more(text, find, a, b);
    } else if b.len() < a.len() {
        lemma_no_more(text, find, b, a);
    }
    assert(a =~= b);
}

proof fn lemma_no_more(text: Seq<u8>, find: Seq<u8>, a: Seq<int>, b: Seq<int>)
    requires
        find.len() > 0,
        found_at(text, find, 0, a),
        found_at(text, find, 0, b),
        forall|j: int| 0 <= j < a.len() && j < b.len() ==> #[trigger] a[j] == b[j],
    ensures
        a.len() >= b.len(),
{
    if a.len() < b.len() {
        let k = b[a.len() as int];
        assert(occurs(text, find, k));
        assert(none_missed(text, find, a, k));
        let j = choose|j: int| covers(find, a, j, k);
        assert(a[j] == b[j]);
        assert(apart(find, b, j, a.len() as int));
    }
}

/// The `n`-th positions are the same if those before are: neither list has one that the other misses.
proof fn lemma_next_place(text: Seq<u8>, find: Seq<u8>, a: Seq<int>, b: Seq<int>, n: int)
    requires
        find.len() > 0,
        found_at(text, find, 0, a),
        found_at(text, find, 0, b),
        0 <= n < a.len(),
        n < b.len(),
        forall|j: int| 0 <= j < n ==> #[trigger] a[j] == b[j],
    ensures
        a[n] >= b[n],
{
    let k = a[n];
    assert(0 <= a[n] && occurs(text, find, k));
    assert(none_missed(text, find, b, k));
    let j = choose|j: int| covers(find, b, j, k);
    if j < n {
        assert(a[j] == b[j]);
        assert(apart(find, a, j, n));
    } else if j > n {
        assert(apart(find, b, n, j));
    }
}

proof fn lemma_same_places(text: Seq<u8>, find: Seq<u8>, a: Seq<int>, b: Seq<int>, n: int)
    requires
        find.len() > 0,
        found_at(text, find, 0, a),
        found_at(text, find, 0, b),
        0 <= n <= a.len(),
        n <= b.len(),
    ensures
        forall|j: int| 0 <= j < n ==> #[trigger] a[j] == b[j],
    decreases n,
{
    if n > 0 {
        lemma_same_places(text, find, a, b, n - 1);
        lemma_next_place(text, find, a, b, n - 1);
        lemma_next_place(text, find, b, a, n - 1);
    }
}

/// The bits that a text of octal digits stands for, digit by digit: a text of digits is taken up to
/// `0o7777`, each digit is worth three bits, and nothing else is a digit.
pub proof fn law_octal_digits_are_worth_three_bits(digits: Seq<u8>, c: u8)
    ensures
        octal(seq![c]) <==> 48 <= c <= 55,
        48 <= c <= 55 ==> octal_value(seq![c]) == c - 48,
        digits.len() > 0 ==> (octal(digits.push(c)) <==> octal(digits) && 48 <= c <= 55),
        octal_value(digits.push(c)) == octal_value(digits) * 8 + (c - 48) as nat,
        octal(digits) && octal_value(digits) <= 4095 ==> mode_in(digits) == Some(octal_value(digits) as u32),
        octal(digits) && octal_value(digits) > 4095 ==> mode_in(digits) is None,
        octal(digits) ==> mode_in(seq![48u8, 111u8] + digits) == mode_in(digits),
{
    let one = seq![c];
    assert(one.drop_last() =~= Seq::<u8>::empty());
    assert(one.last() == c);
    assert(octal_value(Seq::<u8>::empty()) == 0);
    assert(octal_value(one) == octal_value(one.drop_last()) * 8 + (one.last() - 48) as nat);
    if octal(one) {
        assert(one[0] == c);
    }
    let more = digits.push(c);
    assert(more.drop_last() =~= digits);
    if digits.len() > 0 {
        if octal(more) {
            assert forall|i: int| 0 <= i < digits.len() implies 48 <= #[trigger] digits[i] <= 55 by {
                assert(more[i] == digits[i]);
            }
            assert(more[digits.len() as int] == c);
        }
        if octal(digits) && 48 <= c <= 55 {
            assert forall|i: int| 0 <= i < more.len() implies 48 <= #[trigger] more[i] <= 55 by {
                if i < digits.len() {
                    assert(more[i] == digits[i]);
                }
            }
        }
    }
    if octal(digits) {
        let prefix = seq![48u8, 111u8];
        assert(48 <= digits[0] <= 55);
        if digits.len() >= 2 {
            assert(48 <= digits[1] <= 55);
            if digits.take(2) == prefix {
                assert(digits.take(2)[1] == prefix[1]);
            }
        }
        assert(crate::edits::mode_digits(digits) == digits);
        let all = prefix + digits;
        assert(all.take(2) =~= prefix);
        assert(all.skip(2) =~= digits);
        assert(crate::edits::mode_digits(all) == digits);
    }
}

/// What is not made of octal digits, but for a prefix `0o` and a plus sign, is no mode.
pub proof fn law_modes_are_octal(b: Seq<u8>, i: int)
    requires
        mode_in(b) is Some,
        0 <= i < b.len(),
    ensures
        48 <= b[i] <= 55 || b[i] == 111 && i == 1 && b[0] == 48 || b[i] == 43 && (i == 0 || i == 2 && b[1] == 111),
        mode_in(b)->0 <= 4095,
{
    let bare = if crate::bytes::begins_with(b, seq![48u8, 111u8]) {
        b.skip(2)
    } else {
        b
    };
    let digits = crate::edits::mode_digits(b);
    let skipped = b.len() - digits.len();
    if crate::bytes::begins_with(b, seq![48u8, 111u8]) {
        assert(b.take(2)[0] == 48 && b.take(2)[1] == 111);
    }
    if i >= skipped {
        assert(digits[i - skipped] == b[i]);
    }
}

} // verus!
