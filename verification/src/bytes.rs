//! Byte strings: comparison, ASCII case folding and the lexicographic order of names.
use vstd::prelude::*;

verus! {

/// An owned name or text as a mathematical sequence of bytes.
pub type Name = Seq<u8>;

/// The ASCII lowercase form of one byte.
pub open spec fn lower(b: u8) -> u8 {
    if 65 <= b <= 90 {
        (b + 32) as u8
    } else {
        b
    }
}

/// `s` with every ASCII letter in lowercase.
pub open spec fn folded(s: Name) -> Name {
    s.map_values(|b: u8| lower(b))
}

/// Lexicographic order: `a` and `b` agree on their first `i` bytes, and there either `a`
/// ends first or its next byte is smaller.
pub open spec fn precedes_at(a: Name, b: Name, i: int) -> bool {
    &&& 0 <= i <= a.len()
    &&& i <= b.len()
    &&& a.take(i) == b.take(i)
    &&& i < b.len()
    &&& (i == a.len() || a[i] < b[i])
}

/// `a` comes strictly before `b` in lexicographic order.
pub open spec fn name_lt(a: Name, b: Name) -> bool {
    exists|i: int| precedes_at(a, b, i)
}

/// `bytes_eq(a, b)` compares two byte strings.
pub fn bytes_eq(a: &[u8], b: &[u8]) -> (r: bool)
    ensures
        r == (a@ == b@),
{
    if a.len() != b.len() {
        return false;
    }
    let n = a.len();
    let mut i: usize = 0;
    while i < n
        invariant
            i <= n,
            n == a@.len(),
            n == b@.len(),
            a@.take(i as int) == b@.take(i as int),
        decreases n - i,
    {
        if a[i] != b[i] {
            assert(a@[i as int] != b@[i as int]);
            return false;
        }
        assert(a@.take(i + 1) =~= a@.take(i as int).push(a@[i as int]));
        assert(b@.take(i + 1) =~= b@.take(i as int).push(b@[i as int]));
        i = i + 1;
    }
    assert(a@ =~= a@.take(n as int));
    assert(b@ =~= b@.take(n as int));
    true
}

/// Whether the byte `c` occurs in `s`.
pub fn bytes_contain(s: &[u8], c: u8) -> (r: bool)
    ensures
        r == s@.contains(c),
{
    let n = s.len();
    let mut i: usize = 0;
    while i < n
        invariant
            i <= n,
            n == s@.len(),
            forall|j: int| 0 <= j < i ==> s@[j] != c,
        decreases n - i,
    {
        if s[i] == c {
            assert(s@[i as int] == c);
            return true;
        }
        i = i + 1;
    }
    false
}

/// The ASCII-lowercase form of `s`.
pub fn to_lower(s: &[u8]) -> (r: Vec<u8>)
    ensures
        r@ == folded(s@),
{
    let n = s.len();
    let mut out: Vec<u8> = Vec::new();
    let mut i: usize = 0;
    while i < n
        invariant
            i <= n,
            n == s@.len(),
            out@ == folded(s@).take(i as int),
        decreases n - i,
    {
        let b = s[i];
        let c: u8 = if 65 <= b && b <= 90 {
            b + 32
        } else {
            b
        };
        out.push(c);
        assert(out@ =~= folded(s@).take(i + 1));
        i = i + 1;
    }
    assert(out@ =~= folded(s@));
    out
}

/// Whether `s` begins with `prefix`.
pub open spec fn begins_with(s: Name, prefix: Name) -> bool {
    prefix.len() <= s.len() && s.take(prefix.len() as int) == prefix
}

/// Tests whether `s` begins with `prefix`.
pub fn starts_with(s: &[u8], prefix: &[u8]) -> (r: bool)
    ensures
        r == begins_with(s@, prefix@),
{
    if prefix.len() > s.len() {
        return false;
    }
    let head = vstd::slice::slice_subrange(s, 0, prefix.len());
    assert(head@ =~= s@.take(prefix@.len() as int));
    bytes_eq(head, prefix)
}

/// Tests whether `a` comes strictly before `b`.
pub fn name_before(a: &[u8], b: &[u8]) -> (r: bool)
    ensures
        r == name_lt(a@, b@),
{
    let n: usize = if a.len() < b.len() {
        a.len()
    } else {
        b.len()
    };
    let mut i: usize = 0;
    while i < n
        invariant
            i <= n,
            n <= a@.len(),
            n <= b@.len(),
            n == a@.len() || n == b@.len(),
            a@.take(i as int) == b@.take(i as int),
        decreases n - i,
    {
        if a[i] != b[i] {
            proof {
                if a@[i as int] < b@[i as int] {
                    assert(precedes_at(a@, b@, i as int));
                } else {
                    assert(precedes_at(b@, a@, i as int));
                    lemma_name_lt_asymmetric(b@, a@);
                }
            }
            return a[i] < b[i];
        }
        assert(a@.take(i + 1) =~= a@.take(i as int).push(a@[i as int]));
        assert(b@.take(i + 1) =~= b@.take(i as int).push(b@[i as int]));
        i = i + 1;
    }
    proof {
        if a@.len() < b@.len() {
            assert(precedes_at(a@, b@, i as int));
        } else if b@.len() < a@.len() {
            assert(precedes_at(b@, a@, i as int));
            lemma_name_lt_asymmetric(b@, a@);
        } else {
            assert(a@ =~= a@.take(i as int));
            assert(b@ =~= b@.take(i as int));
            lemma_name_lt_irreflexive(a@);
        }
    }
    a.len() < b.len()
}

/// No name comes before itself.
pub proof fn lemma_name_lt_irreflexive(a: Name)
    ensures
        !name_lt(a, a),
{
}

/// The order never holds both ways.
pub proof fn lemma_name_lt_asymmetric(a: Name, b: Name)
    requires
        name_lt(a, b),
    ensures
        !name_lt(b, a),
        a != b,
{
    let i = choose|i: int| precedes_at(a, b, i);
    if name_lt(b, a) {
        let j = choose|j: int| precedes_at(b, a, j);
        if i < j {
            assert(a.take(j)[i] == b.take(j)[i]);
        } else if j < i {
            assert(a.take(i)[j] == b.take(i)[j]);
        }
    }
}

/// The order is transitive.
pub proof fn lemma_name_lt_transitive(a: Name, b: Name, c: Name)
    requires
        name_lt(a, b),
        name_lt(b, c),
    ensures
        name_lt(a, c),
{
    let i = choose|i: int| precedes_at(a, b, i);
    let j = choose|j: int| precedes_at(b, c, j);
    let k = if i < j {
        i
    } else {
        j
    };
    assert(a.take(k) =~= a.take(i).take(k));
    assert(b.take(k) =~= b.take(i).take(k));
    assert(b.take(k) =~= b.take(j).take(k));
    assert(c.take(k) =~= c.take(j).take(k));
    if i < j {
        assert(b.take(j)[i] == c.take(j)[i]);
    } else if j < i {
        assert(a.take(i)[j] == b.take(i)[j]);
    }
    assert(precedes_at(a, c, k));
}

/// Any two different names are ordered.
pub proof fn lemma_name_lt_total(a: Name, b: Name)
    ensures
        a == b || name_lt(a, b) || name_lt(b, a),
{
    if a != b {
        assert(a.take(0) =~= b.take(0));
        lemma_name_lt_total_from(a, b, 0);
    }
}

proof fn lemma_name_lt_total_from(a: Name, b: Name, i: int)
    requires
        a != b,
        0 <= i <= a.len(),
        i <= b.len(),
        a.take(i) == b.take(i),
    ensures
        name_lt(a, b) || name_lt(b, a),
    decreases a.len() - i,
{
    if i == a.len() {
        if i == b.len() {
            assert(a =~= a.take(i));
            assert(b =~= b.take(i));
        } else {
            assert(precedes_at(a, b, i));
        }
    } else if i == b.len() {
        assert(precedes_at(b, a, i));
    } else if a[i] < b[i] {
        assert(precedes_at(a, b, i));
    } else if b[i] < a[i] {
        assert(precedes_at(b, a, i));
    } else {
        assert(a.take(i + 1) =~= a.take(i).push(a[i]));
        assert(b.take(i + 1) =~= b.take(i).push(b[i]));
        lemma_name_lt_total_from(a, b, i + 1);
    }
}

} // verus!
