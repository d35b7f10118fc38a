//! JSON values, as far as the journal needs them.
use vstd::prelude::*;

use crate::text::str_eq;

verus! {

/// A JSON value.
#[derive(Debug)]
pub enum Json {
    Number(u64),
    Text(String),
    List(Vec<Json>),
    Record(Vec<(String, Json)>),
    /// Any other value: null, a truth value, a number that is negative or not whole.
    Other,
}

/// A JSON value, mathematically.
pub enum JsonView {
    Number(u64),
    Text(Seq<char>),
    List(Seq<JsonView>),
    Record(Seq<(Seq<char>, JsonView)>),
    Other,
}

impl Json {
    /// The value, mathematically.
    pub open spec fn model(self) -> JsonView
        decreases self,
    {
        match self {
            Json::Number(n) => JsonView::Number(n),
            Json::Text(s) => JsonView::Text(s@),
            Json::List(v) => JsonView::List(
                Seq::new(
                    v@.len(),
                    |i: int|
                        if 0 <= i < v@.len() {
                            v@[i].model()
                        } else {
                            JsonView::Other
                        },
                ),
            ),
            Json::Record(v) => JsonView::Record(
                Seq::new(
                    v@.len(),
                    |i: int|
                        if 0 <= i < v@.len() {
                            (v@[i].0@, v@[i].1.model())
                        } else {
                            (Seq::empty(), JsonView::Other)
                        },
                ),
            ),
            Json::Other => JsonView::Other,
        }
    }
}

/// The values of a list, mathematically.
pub open spec fn models(v: Seq<Json>) -> Seq<JsonView> {
    v.map_values(|j: Json| j.model())
}

/// The model of a list is the list of models.
pub proof fn lemma_list_model(v: Vec<Json>)
    ensures
        Json::List(v).model() == JsonView::List(models(v@)),
{
    assert(Json::List(v).model()->List_0 =~= models(v@));
}

/// `a` comes before `b` in the order of keys.
pub open spec fn key_before(a: Seq<char>, b: Seq<char>) -> bool {
    exists|i: int| #[trigger] key_before_at(a, b, i)
}

/// `a` and `b` agree up to `i`, and there `a` has the smaller character.
pub open spec fn key_before_at(a: Seq<char>, b: Seq<char>, i: int) -> bool {
    0 <= i < a.len() && i < b.len() && a.take(i) == b.take(i) && a[i] < b[i]
}

/// The value is at most `depth` levels deep, and its records have their keys in order.
pub open spec fn plain(v: JsonView, depth: nat) -> bool
    decreases depth,
{
    match v {
        JsonView::List(s) => depth > 0 && forall|i: int|
            0 <= i < s.len() ==> plain(#[trigger] s[i], (depth - 1) as nat),
        JsonView::Record(s) => depth > 0 && (forall|i: int|
            0 <= i < s.len() ==> plain((#[trigger] s[i]).1, (depth - 1) as nat)) && forall|i: int, j: int|
            #![trigger s[i], s[j]]
            0 <= i < j < s.len() ==> key_before(s[i].0, s[j].0),
        _ => true,
    }
}

/// A parsed JSON document.
#[verifier::external_type_specification]
#[verifier::external_body]
pub struct ExValue(serde_json::Value);

/// The value that a JSON text stands for, if it is one.
pub uninterp spec fn json_parsed(text: Seq<u8>) -> Option<JsonView>;

/// The JSON text of a value.
pub uninterp spec fn json_printed(v: JsonView) -> Seq<u8>;

/// Takes a `serde_json::Value` apart, variant by variant. Part of `read_json`, whose
/// contract covers it.
#[verifier::external_body]
fn from_value(v: serde_json::Value) -> Json {
    match v {
        serde_json::Value::Number(n) => n.as_u64().map_or(Json::Other, Json::Number),
        serde_json::Value::String(s) => Json::Text(s),
        serde_json::Value::Array(a) => Json::List(a.into_iter().map(from_value).collect()),
        serde_json::Value::Object(o) => {
            Json::Record(o.into_iter().map(|(k, v)| (k, from_value(v))).collect())
        },
        serde_json::Value::Null | serde_json::Value::Bool(_) => Json::Other,
    }
}

/// Puts a `serde_json::Value` together, variant by variant. Part of `write_json`, whose
/// contract covers it.
#[verifier::external_body]
fn to_value(j: &Json) -> serde_json::Value {
    match j {
        Json::Number(n) => serde_json::Value::from(*n),
        Json::Text(s) => serde_json::Value::from(s.as_str()),
        Json::List(v) => serde_json::Value::Array(v.iter().map(to_value).collect()),
        Json::Record(v) => {
            serde_json::Value::Object(v.iter().map(|(k, v)| (k.clone(), to_value(v))).collect())
        },
        Json::Other => serde_json::Value::Null,
    }
}

/// Calls `serde_json::from_slice`: reads a JSON text. What a text stands for is a function
/// of its bytes; the message of an error is left open.
#[verifier::external_body]
pub(crate) fn read_json(text: &[u8]) -> (r: Result<Json, String>)
    ensures
        r is Ok <==> json_parsed(text@) is Some,
        r matches Ok(j) ==> json_parsed(text@) == Some(j.model()),
{
    match serde_json::from_slice::<serde_json::Value>(text) {
        Ok(v) => Ok(from_value(v)),
        Err(e) => Err(e.to_string()),
    }
}

/// Calls `serde_json::to_vec`: writes a JSON text, which reads back as the value it was
/// written for, given that the value stays below the reader's nesting limit and its records
/// are in the order in which the writer puts them.
#[verifier::external_body]
pub(crate) fn write_json(j: &Json) -> (r: Vec<u8>)
    ensures
        r@ == json_printed(j.model()),
        plain(j.model(), 100) ==> json_parsed(r@) == Some(j.model()),
{
    serde_json::to_vec(&to_value(j)).unwrap_or_default()
}

/// The first field of that name among the first `n`.
pub open spec fn field_among(s: Seq<(Seq<char>, JsonView)>, name: Seq<char>, n: int) -> Option<JsonView>
    decreases n,
{
    if n <= 0 {
        None
    } else {
        match field_among(s, name, n - 1) {
            Some(v) => Some(v),
            None => if s[n - 1].0 == name {
                Some(s[n - 1].1)
            } else {
                None
            },
        }
    }
}

/// The field of that name, if the value is a record that has it.
pub open spec fn field_of(v: JsonView, name: Seq<char>) -> Option<JsonView> {
    match v {
        JsonView::Record(s) => field_among(s, name, s.len() as int),
        _ => None,
    }
}

/// The member of that name of a value that stands for `n` members in a given order, this one at `i`:
/// the value is a record with a field of that name, or a list of so many elements.
pub open spec fn member_of(v: JsonView, name: Seq<char>, i: int, n: int) -> Option<JsonView> {
    match v {
        JsonView::List(s) => if s.len() == n {
            Some(s[i])
        } else {
            None
        },
        _ => field_of(v, name),
    }
}

proof fn lemma_field_stays(s: Seq<(Seq<char>, JsonView)>, name: Seq<char>, n: int)
    requires
        0 <= n <= s.len(),
        field_among(s, name, n) is Some,
    ensures
        field_among(s, name, s.len() as int) == field_among(s, name, n),
    decreases s.len() - n,
{
    if n < s.len() {
        lemma_field_stays(s, name, n + 1);
    }
}

impl Json {
    /// The field of that name, if this is a record that has it.
    pub fn field(&self, name: &str) -> (r: Option<&Json>)
        ensures
            r is Some <==> field_of(self.model(), name@) is Some,
            r matches Some(v) ==> field_of(self.model(), name@) == Some(v.model()),
    {
        match self {
            Json::Record(fields) => {
                let ghost s = self.model()->Record_0;
                let n = fields.len();
                let mut i: usize = 0;
                while i < n
                    invariant
                        i <= n,
                        n == fields@.len(),
                        self.model() == JsonView::Record(s),
                        s.len() == n,
                        forall|k: int|
                            0 <= k < n ==> s[k] == ((#[trigger] fields@[k]).0@, fields@[k].1.model()),
                        field_among(s, name@, i as int) is None,
                    decreases n - i,
                {
                    assert(s[i as int] == (fields@[i as int].0@, fields@[i as int].1.model()));
                    if str_eq(fields[i].0.as_str(), name) {
                        proof {
                            lemma_field_stays(s, name@, i + 1);
                        }
                        return Some(&fields[i].1);
                    }
                    i = i + 1;
                }
                None
            },
            _ => None,
        }
    }

    /// The member of that name, or at `i` in a list of `n` elements.
    pub fn member(&self, name: &str, i: usize, n: usize) -> (r: Option<&Json>)
        requires
            i < n,
        ensures
            r is Some <==> member_of(self.model(), name@, i as int, n as int) is Some,
            r matches Some(v) ==> member_of(self.model(), name@, i as int, n as int) == Some(v.model()),
    {
        match self {
            Json::List(v) => {
                proof {
                    lemma_list_model(*v);
                }
                if v.len() == n {
                    assert(models(v@)[i as int] == v@[i as int].model());
                    Some(&v[i])
                } else {
                    None
                }
            },
            _ => self.field(name),
        }
    }

    /// The number, if this is one.
    pub fn number(&self) -> (r: Option<u64>)
        ensures
            r == (match self.model() {
                JsonView::Number(n) => Some(n),
                _ => None,
            }),
    {
        match self {
            Json::Number(n) => Some(*n),
            _ => None,
        }
    }

    /// The text, if this is one.
    pub fn text(&self) -> (r: Option<&String>)
        ensures
            r is Some <==> self.model() is Text,
            r matches Some(t) ==> self.model() == JsonView::Text(t@),
    {
        match self {
            Json::Text(t) => Some(t),
            _ => None,
        }
    }

    /// The elements, if this is a list.
    pub fn list(&self) -> (r: Option<&Vec<Json>>)
        ensures
            r is Some <==> self.model() is List,
            r matches Some(v) ==> self.model() == JsonView::List(models(v@)),
    {
        match self {
            Json::List(v) => {
                proof {
                    lemma_list_model(*v);
                }
                Some(v)
            },
            _ => None,
        }
    }
}

} // verus!
