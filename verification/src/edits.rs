//! Text replacement and permission bits, on bytes.
use vstd::prelude::*;

use crate::bytes::{begins_with, Name};
use crate::bytes::starts_with;

verus! {

/// How often `find` occurs in `text` from position `i` on, without overlaps, left to right.
pub open spec fn occurrences(text: Seq<u8>, find: Seq<u8>, i: int) -> nat
    decreases text.len() - i,
{
    if i < 0 || i >= text.len() || find.len() == 0 {
        0
    } else if begins_with(text.skip(i), find) {
        1 + occurrences(text, find, i + find.len())
    } else {
        occurrences(text, find, i + 1)
    }
}

/// `text` from position `i` on, with every occurrence of `find` replaced.
pub open spec fn replaced(text: Seq<u8>, find: Seq<u8>, with: Seq<u8>, i: int) -> Seq<u8>
    decreases text.len() - i,
{
    if i < 0 || i >= text.len() {
        Seq::empty()
    } else if find.len() > 0 && begins_with(text.skip(i), find) {
        with + replaced(text, find, with, i + find.len())
    } else {
        seq![text[i]] + replaced(text, find, with, i + 1)
    }
}

/// Counts the occurrences of `find`.
pub fn count_matches(text: &[u8], find: &[u8]) -> (r: usize)
    requires
        find@.len() > 0,
    ensures
        r == occurrences(text@, find@, 0),
{
    let n = text.len();
    let m = find.len();
    let mut i: usize = 0;
    let mut c: usize = 0;
    while i < n
        invariant
            i <= n,
            n == text@.len(),
            m == find@.len(),
            m > 0,
            c <= i,
            c + occurrences(text@, find@, i as int) == occurrences(text@, find@, 0),
        decreases n - i,
    {
        let rest = vstd::slice::slice_subrange(text, i, n);
        assert(rest@ =~= text@.skip(i as int));
        if starts_with(rest, find) {
            c = c + 1;
            i = i + m;
        } else {
            i = i + 1;
        }
    }
    c
}

/// Replaces every occurrence of `find`.
pub fn replace_all(text: &[u8], find: &[u8], with: &[u8]) -> (r: Vec<u8>)
    requires
        find@.len() > 0,
    ensures
        r@ == replaced(text@, find@, with@, 0),
{
    let n = text.len();
    let m = find.len();
    let mut out: Vec<u8> = Vec::new();
    let mut i: usize = 0;
    assert(out@ + replaced(text@, find@, with@, 0) =~= replaced(text@, find@, with@, 0));
    while i < n
        invariant
            i <= n,
            n == text@.len(),
            m == find@.len(),
            m > 0,
            out@ + replaced(text@, find@, with@, i as int) == replaced(text@, find@, with@, 0),
        decreases n - i,
    {
        let rest = vstd::slice::slice_subrange(text, i, n);
        assert(rest@ =~= text@.skip(i as int));
        let ghost before = out@;
        if starts_with(rest, find) {
            out.extend_from_slice(with);
            assert(out@ =~= before + with@);
            assert(before + (with@ + replaced(text@, find@, with@, i + m)) =~= out@ + replaced(
                text@,
                find@,
                with@,
                i + m,
            ));
            i = i + m;
        } else {
            out.push(text[i]);
            assert(before + (seq![text@[i as int]] + replaced(text@, find@, with@, i + 1)) =~= out@ + replaced(
                text@,
                find@,
                with@,
                i + 1,
            ));
            i = i + 1;
        }
    }
    assert(out@ + Seq::<u8>::empty() =~= out@);
    out
}

/// A text in which nothing is found stays as it is.
pub proof fn law_nothing_found_nothing_replaced(text: Seq<u8>, find: Seq<u8>, with: Seq<u8>, i: int)
    requires
        0 <= i <= text.len(),
        occurrences(text, find, i) == 0,
    ensures
        replaced(text, find, with, i) == text.skip(i),
    decreases text.len() - i,
{
    if i < text.len() {
        law_nothing_found_nothing_replaced(text, find, with, i + 1);
        assert(text.skip(i) =~= seq![text[i]] + text.skip(i + 1));
    } else {
        assert(text.skip(i) =~= Seq::<u8>::empty());
    }
}

/// Replacing changes the length by as much as the texts differ, once for every occurrence.
pub proof fn law_replacing_changes_the_length(text: Seq<u8>, find: Seq<u8>, with: Seq<u8>, i: int)
    requires
        0 <= i <= text.len(),
        find.len() > 0,
    ensures
        replaced(text, find, with, i).len() == text.len() - i + occurrences(text, find, i) * (with.len() - find.len()),
    decreases text.len() - i,
{
    if i < text.len() {
        if begins_with(text.skip(i), find) {
            law_replacing_changes_the_length(text, find, with, i + find.len());
            let n = occurrences(text, find, i + find.len()) as int;
            let d = with.len() - find.len();
            assert((1 + n) * d == d + n * d) by (nonlinear_arith);
        } else {
            law_replacing_changes_the_length(text, find, with, i + 1);
        }
    } else {
        let d = with.len() - find.len();
        assert(0 * d == 0) by (nonlinear_arith);
    }
}

/// The text is made of octal digits.
pub open spec fn octal(b: Name) -> bool {
    b.len() > 0 && forall|i: int| 0 <= i < b.len() ==> 48 <= #[trigger] b[i] <= 55
}

/// The number that octal digits stand for.
pub open spec fn octal_value(b: Name) -> nat
    decreases b.len(),
{
    if b.len() == 0 {
        0
    } else {
        octal_value(b.drop_last()) * 8 + (b.last() - 48) as nat
    }
}

/// The digits of permission bits: without the prefix `0o`, and without a plus sign.
pub open spec fn mode_digits(b: Name) -> Name {
    let bare = if begins_with(b, seq![48u8, 111u8]) {
        b.skip(2)
    } else {
        b
    };
    if bare.len() > 1 && bare[0] == 43 {
        bare.skip(1)
    } else {
        bare
    }
}

/// The permission bits that a text stands for.
pub open spec fn mode_in(b: Name) -> Option<u32> {
    let digits = mode_digits(b);
    if octal(digits) && octal_value(digits) <= 0o7777 {
        Some(octal_value(digits) as u32)
    } else {
        None
    }
}

/// Reads octal permission bits, e.g. `755` or `0o755`. Nothing above `0o7777` is accepted.
pub fn parse_mode(s: &[u8]) -> (r: Option<u32>)
    ensures
        r == mode_in(s@),
{
    let prefix: Vec<u8> = vec![48, 111];
    assert(prefix@ =~= seq![48u8, 111u8]);
    let bare = if starts_with(s, &prefix) {
        vstd::slice::slice_subrange(s, 2, s.len())
    } else {
        s
    };
    assert(bare@ =~= (if begins_with(s@, seq![48u8, 111u8]) {
        s@.skip(2)
    } else {
        s@
    }));
    let digits = if bare.len() > 1 && bare[0] == 43 {
        vstd::slice::slice_subrange(bare, 1, bare.len())
    } else {
        bare
    };
    assert(digits@ =~= mode_digits(s@));
    let n = digits.len();
    if n == 0 {
        return None;
    }
    let mut v: u32 = 0;
    let mut i: usize = 0;
    let mut over = false;
    assert(digits@.take(0) =~= Seq::<u8>::empty());
    while i < n
        invariant
            i <= n,
            n == digits@.len(),
            digits@ == mode_digits(s@),
            n > 0,
            forall|j: int| 0 <= j < i ==> 48 <= #[trigger] digits@[j] <= 55,
            !over ==> v == octal_value(digits@.take(i as int)) && v <= 0o7777,
            over ==> octal_value(digits@.take(i as int)) > 0o7777,
        decreases n - i,
    {
        let c = digits[i];
        if c < 48 || c > 55 {
            return None;
        }
        proof {
            let more = digits@.take(i + 1);
            assert(more.drop_last() =~= digits@.take(i as int));
            assert(more.last() == c);
        }
        if !over {
            v = v * 8 + (c - 48) as u32;
            if v > 0o7777 {
                over = true;
            }
        }
        i = i + 1;
    }
    assert(digits@.take(n as int) =~= digits@);
    if over {
        None
    } else {
        Some(v)
    }
}

} // verus!
