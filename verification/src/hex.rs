//! Hexadecimal text, used for names that need not be UTF-8 and for checksums.
use vstd::prelude::*;
use vstd::utf8::encode_utf8;

use crate::bytes::Name;
use crate::path::{is_component, views, PathView, RelPath};
use crate::text::{ascii_chars, ascii_string, digit, is_ascii};

verus! {

/// Two lowercase hexadecimal digits for each byte.
pub open spec fn hex_text(b: Name) -> Name
    decreases b.len(),
{
    if b.len() == 0 {
        Seq::empty()
    } else {
        hex_text(b.drop_last()).push(digit((b.last() / 16) as int)).push(digit((b.last() % 16) as int))
    }
}

/// The value of one hexadecimal digit of either case.
pub open spec fn digit_value(c: u8) -> Option<u8> {
    if 48 <= c <= 57 {
        Some((c - 48) as u8)
    } else if 97 <= c <= 102 {
        Some((c - 87) as u8)
    } else if 65 <= c <= 70 {
        Some((c - 55) as u8)
    } else {
        None
    }
}

/// The byte that two characters stand for: two digits, or a plus sign and one digit.
pub open spec fn pair_value(a: u8, b: u8) -> Option<u8> {
    match (digit_value(a), digit_value(b)) {
        (Some(x), Some(y)) => Some((16 * x + y) as u8),
        (None, Some(y)) => if a == 43 {
            Some(y)
        } else {
            None
        },
        _ => None,
    }
}

/// The bytes that a hexadecimal text stands for, if it is one.
pub open spec fn unhex_text(t: Name) -> Option<Name>
    decreases t.len(),
{
    if t.len() == 0 {
        Some(Seq::empty())
    } else if t.len() == 1 {
        None
    } else {
        let n = t.len() as int;
        match (unhex_text(t.take(n - 2)), pair_value(t[n - 2], t[n - 1])) {
            (Some(head), Some(b)) => Some(head.push(b)),
            _ => None,
        }
    }
}

/// The hexadecimal text of `b`, as bytes.
pub fn hex_bytes(b: &[u8]) -> (r: Vec<u8>)
    ensures
        r@ == hex_text(b@),
        is_ascii(r@),
        r@.len() == 2 * b@.len(),
{
    let mut out: Vec<u8> = Vec::new();
    let n = b.len();
    let mut i: usize = 0;
    assert(b@.take(0) =~= Seq::<u8>::empty());
    while i < n
        invariant
            i <= n,
            n == b@.len(),
            out@ == hex_text(b@.take(i as int)),
            out@.len() == 2 * i,
            is_ascii(out@),
        decreases n - i,
    {
        let x = b[i];
        let hi = x / 16;
        let lo = x % 16;
        assert(b@.take(i + 1).drop_last() =~= b@.take(i as int));
        out.push(if hi < 10 { 48 + hi } else { 87 + hi });
        out.push(if lo < 10 { 48 + lo } else { 87 + lo });
        i = i + 1;
    }
    assert(b@.take(n as int) =~= b@);
    out
}

/// The hexadecimal text of `b`.
pub fn hex(b: &[u8]) -> (r: String)
    ensures
        r@ == ascii_chars(hex_text(b@)),
        encode_utf8(r@) == hex_text(b@),
{
    let t = hex_bytes(b);
    ascii_string(t)
}

/// The value of one hexadecimal digit.
fn value_of(c: u8) -> (r: Option<u8>)
    ensures
        r == digit_value(c),
{
    if 48 <= c && c <= 57 {
        Some(c - 48)
    } else if 97 <= c && c <= 102 {
        Some(c - 87)
    } else if 65 <= c && c <= 70 {
        Some(c - 55)
    } else {
        None
    }
}

/// Reads a hexadecimal text back; `None` if it is not one.
pub fn unhex(s: &str) -> (r: Option<Vec<u8>>)
    ensures
        r is Some <==> unhex_text(encode_utf8(s@)) is Some,
        r matches Some(b) ==> unhex_text(encode_utf8(s@)) == Some(b@),
{
    let t = s.as_bytes();
    let n = t.len();
    if n % 2 != 0 {
        proof {
            lemma_unhex_prefix(t@, 1);
        }
        return None;
    }
    let mut out: Vec<u8> = Vec::new();
    let mut i: usize = 0;
    assert(t@.take(0) =~= Seq::<u8>::empty());
    while i < n
        invariant
            i <= n,
            n % 2 == 0,
            i % 2 == 0,
            n == t@.len(),
            t@ == encode_utf8(s@),
            unhex_text(t@.take(i as int)) == Some(out@),
        decreases n - i,
    {
        let a = t[i];
        let b = t[i + 1];
        assert(t@.take(i + 2).take(i as int) =~= t@.take(i as int));
        let byte: Option<u8> = match (value_of(a), value_of(b)) {
            (Some(x), Some(y)) => Some(16 * x + y),
            (None, Some(y)) => if a == 43 {
                Some(y)
            } else {
                None
            },
            _ => None,
        };
        match byte {
            Some(v) => {
                out.push(v);
            },
            None => {
                proof {
                    lemma_unhex_prefix(t@, i + 2);
                }
                return None;
            },
        }
        i = i + 2;
    }
    assert(t@.take(n as int) =~= t@);
    Some(out)
}

/// A text whose first pairs do not read, or that has an odd length, does not read.
proof fn lemma_unhex_prefix(t: Name, i: int)
    requires
        0 <= i <= t.len(),
        unhex_text(t.take(i)) is None,
        i % 2 == t.len() as int % 2,
    ensures
        unhex_text(t) is None,
    decreases t.len() - i,
{
    if i < t.len() {
        assert(t.take(i + 2).take(i) =~= t.take(i));
        lemma_unhex_prefix(t, i + 2);
    } else {
        assert(t.take(i) =~= t);
    }
}

/// Reading back what was written gives the same bytes.
pub proof fn law_hex_round_trip(b: Name)
    ensures
        unhex_text(hex_text(b)) == Some(b),
    decreases b.len(),
{
    if b.len() > 0 {
        law_hex_round_trip(b.drop_last());
        let t = hex_text(b);
        let n = t.len() as int;
        assert(t.take(n - 2) =~= hex_text(b.drop_last()));
        assert(b =~= b.drop_last().push(b.last()));
    } else {
        assert(b =~= Seq::<u8>::empty());
    }
}

/// The names that a list of hexadecimal components stands for: each component must read as
/// a proper name.
pub open spec fn path_of_hex(texts: Seq<Name>) -> Option<PathView>
    decreases texts.len(),
{
    if texts.len() == 0 {
        Some(Seq::empty())
    } else {
        match (path_of_hex(texts.drop_last()), unhex_text(texts.last())) {
            (Some(head), Some(b)) => if is_component(b) {
                Some(head.push(b))
            } else {
                None
            },
            _ => None,
        }
    }
}

/// Whether `b` can be one component of a path.
pub fn component_ok(b: &[u8]) -> (r: bool)
    ensures
        r == is_component(b@),
{
    let dot: Vec<u8> = vec![46];
    let dotdot: Vec<u8> = vec![46, 46];
    assert(dot@ =~= seq![46u8]);
    assert(dotdot@ =~= seq![46u8, 46u8]);
    b.len() > 0 && !crate::bytes::bytes_eq(b, &dot) && !crate::bytes::bytes_eq(b, &dotdot)
        && !crate::bytes::bytes_contain(b, 0) && !crate::bytes::bytes_contain(b, 47)
}

/// The UTF-8 bytes of each text.
pub open spec fn text_bytes(texts: Seq<String>) -> Seq<Name> {
    texts.map_values(|s: String| encode_utf8(s@))
}

/// Each component of `p` in hexadecimal.
pub open spec fn hex_of_path(p: PathView) -> Seq<Name> {
    p.map_values(|n: Name| hex_text(n))
}

/// The components in hexadecimal, so that names that are not UTF-8 survive as text.
pub fn path_to_hex(p: &RelPath) -> (r: Vec<String>)
    ensures
        text_bytes(r@) == hex_of_path(p@),
{
    let parts = p.components();
    let mut out: Vec<String> = Vec::new();
    let n = parts.len();
    let mut i: usize = 0;
    assert(text_bytes(out@) =~= hex_of_path(p@).take(0));
    while i < n
        invariant
            i <= n,
            n == parts@.len(),
            n == p@.len(),
            forall|j: int| 0 <= j < parts@.len() ==> (#[trigger] parts@[j])@ == p@[j],
            text_bytes(out@) == hex_of_path(p@).take(i as int),
        decreases n - i,
    {
        let ghost before = text_bytes(out@);
        out.push(hex(&parts[i]));
        assert(text_bytes(out@) =~= before.push(hex_text(p@[i as int])));
        assert(text_bytes(out@) =~= hex_of_path(p@).take(i + 1));
        i = i + 1;
    }
    assert(hex_of_path(p@).take(n as int) =~= hex_of_path(p@));
    out
}

/// Reads hexadecimal components back; `None` if one of them is not a proper name.
pub fn path_from_hex(texts: &Vec<String>) -> (r: Option<RelPath>)
    ensures
        r is Some <==> path_of_hex(text_bytes(texts@)) is Some,
        r matches Some(p) ==> path_of_hex(text_bytes(texts@)) == Some(p@),
{
    let mut parts: Vec<Vec<u8>> = Vec::new();
    let n = texts.len();
    let mut i: usize = 0;
    let ghost all = text_bytes(texts@);
    assert(views(parts@) =~= Seq::<Name>::empty());
    assert(all.take(0) =~= Seq::<Name>::empty());
    while i < n
        invariant
            i <= n,
            n == texts@.len(),
            all == text_bytes(texts@),
            path_of_hex(all.take(i as int)) == Some(views(parts@)),
        decreases n - i,
    {
        assert(all.take(i + 1).drop_last() =~= all.take(i as int));
        assert(all.take(i + 1).last() == encode_utf8(texts@[i as int]@));
        match unhex(texts[i].as_str()) {
            Some(b) => {
                if !component_ok(&b) {
                    proof {
                        lemma_path_of_hex_prefix(all, i + 1);
                    }
                    return None;
                }
                let ghost before = views(parts@);
                parts.push(b);
                assert(views(parts@) =~= before.push(b@));
            },
            None => {
                proof {
                    lemma_path_of_hex_prefix(all, i + 1);
                }
                return None;
            },
        }
        i = i + 1;
    }
    assert(all.take(n as int) =~= all);
    Some(RelPath::from_parts(parts))
}

proof fn lemma_path_of_hex_prefix(texts: Seq<Name>, i: int)
    requires
        0 <= i <= texts.len(),
        path_of_hex(texts.take(i)) is None,
    ensures
        path_of_hex(texts) is None,
    decreases texts.len() - i,
{
    if i < texts.len() {
        assert(texts.take(i + 1).drop_last() =~= texts.take(i));
        lemma_path_of_hex_prefix(texts, i + 1);
    } else {
        assert(texts.take(i) =~= texts);
    }
}

/// A path of proper names survives being written in hexadecimal and read back.
pub proof fn law_path_hex_round_trip(p: PathView)
    requires
        forall|i: int| 0 <= i < p.len() ==> is_component(#[trigger] p[i]),
    ensures
        path_of_hex(hex_of_path(p)) == Some(p),
    decreases p.len(),
{
    if p.len() > 0 {
        assert forall|i: int| 0 <= i < p.drop_last().len() implies is_component(#[trigger] p.drop_last()[i]) by {
            assert(p.drop_last()[i] == p[i]);
        }
        law_path_hex_round_trip(p.drop_last());
        assert(hex_of_path(p).drop_last() =~= hex_of_path(p.drop_last()));
        law_hex_round_trip(p.last());
        assert(p =~= p.drop_last().push(p.last()));
    } else {
        assert(p =~= Seq::<Name>::empty());
    }
}

/// What is read back holds proper names only: a stored path can never climb out of the root.
pub proof fn law_read_paths_are_proper(texts: Seq<Name>)
    ensures
        path_of_hex(texts) matches Some(p) ==> p.len() == texts.len() && forall|i: int|
            0 <= i < p.len() ==> is_component(#[trigger] p[i]),
    decreases texts.len(),
{
    if texts.len() > 0 {
        law_read_paths_are_proper(texts.drop_last());
    }
}

} // verus!
