//! The journal: the full physical plan, written before any tree mutation and published
//! by an atomic rename (`journal.tmp` → `journal`). It is treated as untrusted input on
//! recovery: checksum (integrity only, not authenticity), path re-validation, and the
//! structural plan checks all run before recovery touches anything.
use vstd::prelude::*;
use vstd::utf8::encode_utf8;

use crate::bytes::{bytes_eq, Name};
use crate::checksum::{blake3_of, checksum};
use crate::disk::{FileId, Kind};
use crate::error::Reason;
use crate::hex::{hex_bytes, hex_of_path, hex_text, path_from_hex, path_of_hex, path_to_hex, text_bytes};
use crate::hex::law_path_hex_round_trip;
use crate::json::{field_among, field_of, json_parsed, json_printed, key_before, key_before_at, member_of, models, plain, JsonView};
use crate::json::{lemma_list_model, read_json, write_json, Json};
use crate::path::{private_name, private_path, proper_path, PathView, RelPath};
use crate::plan::{validate, Loc, LocView, Plan, PlanView, Step, Token, TokenView};
use crate::state::{backup_name, staged_name};
use crate::text::{ascii_chars, is_ascii, lemma_ascii_utf8, str_eq, string_bytes};

verus! {

/// The version of the journal's format.
pub const FORMAT: u32 = 1;

/// The plan of one transaction.
#[derive(Debug, PartialEq, Eq)]
pub struct Journal {
    pub format: u32,
    pub tx: String,
    pub root: FileId,
    pub plan: Plan,
}

/// The plan of one transaction, mathematically.
#[verifier::ext_equal]
pub struct JournalView {
    pub format: u32,
    pub tx: Seq<char>,
    pub root: FileId,
    pub plan: PlanView,
}

impl View for Journal {
    type V = JournalView;

    open spec fn view(&self) -> JournalView {
        JournalView { format: self.format, tx: self.tx@, root: self.root, plan: self.plan@ }
    }
}

/// `s` with every `Some` unwrapped, if no element is `None`.
pub open spec fn all_some<A>(s: Seq<Option<A>>) -> Option<Seq<A>> {
    if forall|i: int| 0 <= i < s.len() ==> (#[trigger] s[i]) is Some {
        Some(s.map_values(|o: Option<A>| o->0))
    } else {
        None
    }
}

/// An identity as JSON.
pub open spec fn id_json(id: FileId) -> JsonView {
    JsonView::Record(seq![("dev"@, JsonView::Number(id.dev)), ("ino"@, JsonView::Number(id.ino))])
}

/// A path as JSON: its components in hexadecimal.
pub open spec fn path_json(p: PathView) -> JsonView {
    JsonView::List(hex_of_path(p).map_values(|t: Name| JsonView::Text(ascii_chars(t))))
}

/// A location as JSON.
pub open spec fn loc_json(l: LocView) -> JsonView {
    JsonView::Record(seq![("parent"@, id_json(l.parent)), ("path"@, path_json(l.path))])
}

/// The word for a kind.
pub open spec fn kind_word(k: Kind) -> Seq<char> {
    match k {
        Kind::File => "file"@,
        Kind::Dir => "dir"@,
        Kind::Symlink => "symlink"@,
        Kind::Other => "other"@,
    }
}

/// A token as JSON.
pub open spec fn token_json(t: TokenView) -> JsonView {
    JsonView::Record(
        seq![
            ("id"@, id_json(t.id)),
            ("kind"@, JsonView::Text(kind_word(t.kind))),
            ("locs"@, JsonView::List(t.locs.map_values(|l: LocView| loc_json(l)))),
        ],
    )
}

/// A step as JSON.
pub open spec fn step_json(s: Step) -> JsonView {
    JsonView::Record(
        seq![("from"@, JsonView::Number(s.from as u64)), ("t"@, JsonView::Number(s.token as u64))],
    )
}

/// A wave as JSON.
pub open spec fn wave_json(w: Seq<Step>) -> JsonView {
    JsonView::List(w.map_values(|s: Step| step_json(s)))
}

/// A journal as JSON.
pub open spec fn journal_json(j: JournalView) -> JsonView {
    JsonView::Record(
        seq![
            ("format"@, JsonView::Number(j.format as u64)),
            ("root"@, id_json(j.root)),
            ("tokens"@, JsonView::List(j.plan.tokens.map_values(|t: TokenView| token_json(t)))),
            ("tx"@, JsonView::Text(j.tx)),
            ("waves"@, JsonView::List(j.plan.waves.map_values(|w: Seq<Step>| wave_json(w)))),
        ],
    )
}

/// The number that a value is.
pub open spec fn number_in(v: Option<JsonView>) -> Option<u64> {
    match v {
        Some(JsonView::Number(n)) => Some(n),
        _ => None,
    }
}

/// The text that a value is.
pub open spec fn text_in(v: Option<JsonView>) -> Option<Seq<char>> {
    match v {
        Some(JsonView::Text(t)) => Some(t),
        _ => None,
    }
}

/// The list that a value is.
pub open spec fn list_in(v: Option<JsonView>) -> Option<Seq<JsonView>> {
    match v {
        Some(JsonView::List(s)) => Some(s),
        _ => None,
    }
}

/// The identity that a value stands for.
pub open spec fn json_id(v: JsonView) -> Option<FileId> {
    match (number_in(member_of(v, "dev"@, 0, 2)), number_in(member_of(v, "ino"@, 1, 2))) {
        (Some(dev), Some(ino)) => Some(FileId { dev, ino }),
        _ => None,
    }
}

/// The identity that a value stands for, if there is one.
pub open spec fn id_in(v: Option<JsonView>) -> Option<FileId> {
    match v {
        Some(x) => json_id(x),
        None => None,
    }
}

/// The characters of a text value.
pub open spec fn json_text(v: JsonView) -> Option<Seq<char>> {
    match v {
        JsonView::Text(t) => Some(t),
        _ => None,
    }
}

/// The path that a value stands for.
pub open spec fn json_path(v: JsonView) -> Option<PathView> {
    match v {
        JsonView::List(s) => match all_some(s.map_values(|x: JsonView| json_text(x))) {
            Some(texts) => path_of_hex(texts.map_values(|t: Seq<char>| encode_utf8(t))),
            None => None,
        },
        _ => None,
    }
}

/// The location that a value stands for.
pub open spec fn json_loc(v: JsonView) -> Option<LocView> {
    match (id_in(member_of(v, "parent"@, 1, 2)), member_of(v, "path"@, 0, 2)) {
        (Some(parent), Some(x)) => match json_path(x) {
            Some(path) => Some(LocView { path, parent }),
            None => None,
        },
        _ => None,
    }
}

/// The kind that a word stands for.
pub open spec fn kind_of_word(w: Seq<char>) -> Option<Kind> {
    if w == "file"@ {
        Some(Kind::File)
    } else if w == "dir"@ {
        Some(Kind::Dir)
    } else if w == "symlink"@ {
        Some(Kind::Symlink)
    } else if w == "other"@ {
        Some(Kind::Other)
    } else {
        None
    }
}

/// The kind that a value stands for, if there is one.
pub open spec fn kind_in(v: Option<JsonView>) -> Option<Kind> {
    match text_in(v) {
        Some(w) => kind_of_word(w),
        None => None,
    }
}

/// The token that a value stands for.
pub open spec fn json_token(v: JsonView) -> Option<TokenView> {
    match (id_in(member_of(v, "id"@, 1, 3)), kind_in(member_of(v, "kind"@, 0, 3)), list_in(member_of(v, "locs"@, 2, 3))) {
        (Some(id), Some(kind), Some(s)) => match all_some(s.map_values(|x: JsonView| json_loc(x))) {
            Some(locs) => Some(TokenView { kind, id, locs }),
            None => None,
        },
        _ => None,
    }
}

/// The step that a value stands for.
pub open spec fn json_step(v: JsonView) -> Option<Step> {
    match (number_in(member_of(v, "from"@, 1, 2)), number_in(member_of(v, "t"@, 0, 2))) {
        (Some(from), Some(token)) => if from <= usize::MAX && token <= usize::MAX {
            Some(Step { token: token as usize, from: from as usize })
        } else {
            None
        },
        _ => None,
    }
}

/// The wave that a value stands for.
pub open spec fn json_wave(v: JsonView) -> Option<Seq<Step>> {
    match v {
        JsonView::List(s) => all_some(s.map_values(|x: JsonView| json_step(x))),
        _ => None,
    }
}

/// The plan that a value stands for.
pub open spec fn json_plan(v: JsonView) -> Option<PlanView> {
    match (list_in(field_of(v, "tokens"@)), list_in(field_of(v, "waves"@))) {
        (Some(t), Some(w)) => match (
            all_some(t.map_values(|x: JsonView| json_token(x))),
            all_some(w.map_values(|x: JsonView| json_wave(x))),
        ) {
            (Some(tokens), Some(waves)) => Some(PlanView { tokens, waves }),
            _ => None,
        },
        _ => None,
    }
}

/// The journal that a value stands for.
pub open spec fn json_journal(v: JsonView) -> Option<JournalView> {
    match (
        number_in(field_of(v, "format"@)),
        text_in(field_of(v, "tx"@)),
        id_in(field_of(v, "root"@)),
        json_plan(v),
    ) {
        (Some(format), Some(tx), Some(root), Some(plan)) => if format <= u32::MAX {
            Some(JournalView { format: format as u32, tx, root, plan })
        } else {
            None
        },
        _ => None,
    }
}

/// Reads an identity.
fn read_id(v: &Json) -> (r: Option<FileId>)
    ensures
        r == json_id(v.model()),
{
    let dev = match v.member("dev", 0, 2) {
        Some(x) => match x.number() {
            Some(n) => n,
            None => return None,
        },
        None => return None,
    };
    match v.member("ino", 1, 2) {
        Some(x) => match x.number() {
            Some(ino) => Some(FileId { dev, ino }),
            None => None,
        },
        None => None,
    }
}

/// Reads an identity, if there is one.
fn read_id_in(v: Option<&Json>) -> (r: Option<FileId>)
    ensures
        r == id_in(match v {
            Some(x) => Some(x.model()),
            None => None,
        }),
{
    match v {
        Some(x) => read_id(x),
        None => None,
    }
}

/// Reads a number, if there is one.
fn read_number_in(v: Option<&Json>) -> (r: Option<u64>)
    ensures
        r == number_in(match v {
            Some(x) => Some(x.model()),
            None => None,
        }),
{
    match v {
        Some(x) => x.number(),
        None => None,
    }
}

/// Reads a path.
fn read_path(v: &Json) -> (r: Option<RelPath>)
    ensures
        r is Some <==> json_path(v.model()) is Some,
        r matches Some(p) ==> json_path(v.model()) == Some(p@),
{
    let items = match v.list() {
        Some(x) => x,
        None => return None,
    };
    let ghost s = models(items@).map_values(|x: JsonView| json_text(x));
    let mut texts: Vec<String> = Vec::new();
    let n = items.len();
    let mut i: usize = 0;
    while i < n
        invariant
            i <= n,
            n == items@.len(),
            s == models(items@).map_values(|x: JsonView| json_text(x)),
            v.model() == JsonView::List(models(items@)),
            texts@.len() == i,
            forall|k: int| 0 <= k < i ==> s[k] == Some((#[trigger] texts@[k])@),
        decreases n - i,
    {
        match items[i].text() {
            Some(t) => {
                assert(s[i as int] == Some(t@));
                texts.push(t.clone());
            },
            None => {
                assert(s[i as int] is None);
                return None;
            },
        }
        i = i + 1;
    }
    proof {
        assert forall|k: int| 0 <= k < s.len() implies (#[trigger] s[k]) is Some by {
            assert(s[k] == Some(texts@[k]@));
        }
        let got = all_some(s)->0;
        assert(got.map_values(|t: Seq<char>| encode_utf8(t)) =~= text_bytes(texts@));
    }
    path_from_hex(&texts)
}

/// Reads a location.
fn read_loc(v: &Json) -> (r: Option<Loc>)
    ensures
        r is Some <==> json_loc(v.model()) is Some,
        r matches Some(l) ==> json_loc(v.model()) == Some(l@),
{
    let parent = match read_id_in(v.member("parent", 1, 2)) {
        Some(x) => x,
        None => return None,
    };
    match v.member("path", 0, 2) {
        Some(x) => match read_path(x) {
            Some(path) => Some(Loc { path, parent }),
            None => None,
        },
        None => None,
    }
}

/// Reads the word for a kind.
fn read_kind(w: &str) -> (r: Option<Kind>)
    ensures
        r == kind_of_word(w@),
{
    if str_eq(w, "file") {
        Some(Kind::File)
    } else if str_eq(w, "dir") {
        Some(Kind::Dir)
    } else if str_eq(w, "symlink") {
        Some(Kind::Symlink)
    } else if str_eq(w, "other") {
        Some(Kind::Other)
    } else {
        None
    }
}

/// Reads a token.
fn read_token(v: &Json) -> (r: Option<Token>)
    ensures
        r is Some <==> json_token(v.model()) is Some,
        r matches Some(t) ==> json_token(v.model()) == Some(t@),
{
    let id = match read_id_in(v.member("id", 1, 3)) {
        Some(x) => x,
        None => return None,
    };
    let kind = match v.member("kind", 0, 3) {
        Some(x) => match x.text() {
            Some(w) => match read_kind(w.as_str()) {
                Some(k) => k,
                None => return None,
            },
            None => return None,
        },
        None => return None,
    };
    let items = match v.member("locs", 2, 3) {
        Some(x) => match x.list() {
            Some(l) => l,
            None => return None,
        },
        None => return None,
    };
    let ghost s = models(items@).map_values(|x: JsonView| json_loc(x));
    let mut locs: Vec<Loc> = Vec::new();
    let n = items.len();
    let mut i: usize = 0;
    while i < n
        invariant
            i <= n,
            n == items@.len(),
            s == models(items@).map_values(|x: JsonView| json_loc(x)),
            list_in(member_of(v.model(), "locs"@, 2, 3)) == Some(models(items@)),
            locs@.len() == i,
            forall|k: int| 0 <= k < i ==> s[k] == Some((#[trigger] locs@[k])@),
        decreases n - i,
    {
        match read_loc(&items[i]) {
            Some(l) => {
                assert(s[i as int] == Some(l@));
                locs.push(l);
            },
            None => {
                assert(s[i as int] is None);
                return None;
            },
        }
        i = i + 1;
    }
    let t = Token { kind, id, locs };
    proof {
        assert forall|k: int| 0 <= k < s.len() implies (#[trigger] s[k]) is Some by {
            assert(s[k] == Some(locs@[k]@));
        }
        assert(all_some(s)->0 =~= t@.locs);
    }
    Some(t)
}

/// Reads a step.
fn read_step(v: &Json) -> (r: Option<Step>)
    ensures
        r == json_step(v.model()),
{
    match (read_number_in(v.member("from", 1, 2)), read_number_in(v.member("t", 0, 2))) {
        (Some(from), Some(token)) => {
            if from <= usize::MAX as u64 && token <= usize::MAX as u64 {
                Some(Step { token: token as usize, from: from as usize })
            } else {
                None
            }
        },
        _ => None,
    }
}

/// Reads a wave.
fn read_wave(v: &Json) -> (r: Option<Vec<Step>>)
    ensures
        r is Some <==> json_wave(v.model()) is Some,
        r matches Some(w) ==> json_wave(v.model()) == Some(w@),
{
    let items = match v.list() {
        Some(x) => x,
        None => return None,
    };
    let ghost s = models(items@).map_values(|x: JsonView| json_step(x));
    let mut steps: Vec<Step> = Vec::new();
    let n = items.len();
    let mut i: usize = 0;
    while i < n
        invariant
            i <= n,
            n == items@.len(),
            s == models(items@).map_values(|x: JsonView| json_step(x)),
            v.model() == JsonView::List(models(items@)),
            steps@.len() == i,
            forall|k: int| 0 <= k < i ==> s[k] == Some(#[trigger] steps@[k]),
        decreases n - i,
    {
        match read_step(&items[i]) {
            Some(x) => {
                assert(s[i as int] == Some(x));
                steps.push(x);
            },
            None => {
                assert(s[i as int] is None);
                return None;
            },
        }
        i = i + 1;
    }
    proof {
        assert forall|k: int| 0 <= k < s.len() implies (#[trigger] s[k]) is Some by {
            assert(s[k] == Some(steps@[k]));
        }
        assert(all_some(s)->0 =~= steps@);
    }
    Some(steps)
}

/// Reads the tokens of a plan.
fn read_tokens(items: &Vec<Json>) -> (r: Option<Vec<Token>>)
    ensures
        ({
            let s = all_some(models(items@).map_values(|x: JsonView| json_token(x)));
            &&& r is Some <==> s is Some
            &&& r matches Some(t) ==> s == Some(t@.map_values(|t: Token| t@))
        }),
{
    let ghost s = models(items@).map_values(|x: JsonView| json_token(x));
    let mut out: Vec<Token> = Vec::new();
    let n = items.len();
    let mut i: usize = 0;
    while i < n
        invariant
            i <= n,
            n == items@.len(),
            s == models(items@).map_values(|x: JsonView| json_token(x)),
            out@.len() == i,
            forall|k: int| 0 <= k < i ==> s[k] == Some((#[trigger] out@[k])@),
        decreases n - i,
    {
        match read_token(&items[i]) {
            Some(x) => {
                assert(s[i as int] == Some(x@));
                out.push(x);
            },
            None => {
                assert(s[i as int] is None);
                return None;
            },
        }
        i = i + 1;
    }
    proof {
        assert forall|k: int| 0 <= k < s.len() implies (#[trigger] s[k]) is Some by {
            assert(s[k] == Some(out@[k]@));
        }
        assert(all_some(s)->0 =~= out@.map_values(|t: Token| t@));
    }
    Some(out)
}

/// Reads the waves of a plan.
fn read_waves(items: &Vec<Json>) -> (r: Option<Vec<Vec<Step>>>)
    ensures
        ({
            let s = all_some(models(items@).map_values(|x: JsonView| json_wave(x)));
            &&& r is Some <==> s is Some
            &&& r matches Some(t) ==> s == Some(t@.map_values(|w: Vec<Step>| w@))
        }),
{
    let ghost s = models(items@).map_values(|x: JsonView| json_wave(x));
    let mut out: Vec<Vec<Step>> = Vec::new();
    let n = items.len();
    let mut i: usize = 0;
    while i < n
        invariant
            i <= n,
            n == items@.len(),
            s == models(items@).map_values(|x: JsonView| json_wave(x)),
            out@.len() == i,
            forall|k: int| 0 <= k < i ==> s[k] == Some((#[trigger] out@[k])@),
        decreases n - i,
    {
        match read_wave(&items[i]) {
            Some(x) => {
                assert(s[i as int] == Some(x@));
                out.push(x);
            },
            None => {
                assert(s[i as int] is None);
                return None;
            },
        }
        i = i + 1;
    }
    proof {
        assert forall|k: int| 0 <= k < s.len() implies (#[trigger] s[k]) is Some by {
            assert(s[k] == Some(out@[k]@));
        }
        assert(all_some(s)->0 =~= out@.map_values(|w: Vec<Step>| w@));
    }
    Some(out)
}

/// Reads a journal out of a JSON value; `None` if a field is missing or malformed.
pub fn journal_from_json(v: &Json) -> (r: Option<Journal>)
    ensures
        r is Some <==> json_journal(v.model()) is Some,
        r matches Some(j) ==> json_journal(v.model()) == Some(j@),
{
    let format = match read_number_in(v.field("format")) {
        Some(n) => if n <= u32::MAX as u64 {
            n as u32
        } else {
            return None;
        },
        None => return None,
    };
    let tx = match v.field("tx") {
        Some(x) => match x.text() {
            Some(t) => t.clone(),
            None => return None,
        },
        None => return None,
    };
    let root = match read_id_in(v.field("root")) {
        Some(x) => x,
        None => return None,
    };
    let tokens = match v.field("tokens") {
        Some(x) => match x.list() {
            Some(l) => match read_tokens(l) {
                Some(t) => t,
                None => return None,
            },
            None => return None,
        },
        None => return None,
    };
    let waves = match v.field("waves") {
        Some(x) => match x.list() {
            Some(l) => match read_waves(l) {
                Some(w) => w,
                None => return None,
            },
            None => return None,
        },
        None => return None,
    };
    Some(Journal { format, tx, root, plan: Plan { tokens, waves } })
}

/// A record of two fields.
fn record2(a: &str, x: Json, b: &str, y: Json) -> (r: Json)
    ensures
        r.model() == JsonView::Record(seq![(a@, x.model()), (b@, y.model())]),
{
    let mut v: Vec<(String, Json)> = Vec::new();
    v.push((a.to_owned(), x));
    v.push((b.to_owned(), y));
    let r = Json::Record(v);
    assert(r.model()->Record_0 =~= seq![(a@, x.model()), (b@, y.model())]);
    r
}

/// A text value.
fn text_value(s: String) -> (r: Json)
    ensures
        r.model() == JsonView::Text(s@),
{
    Json::Text(s)
}

/// A number value.
fn number_value(n: u64) -> (r: Json)
    ensures
        r.model() == JsonView::Number(n),
{
    Json::Number(n)
}

/// Writes an identity.
fn write_id(id: FileId) -> (r: Json)
    ensures
        r.model() == id_json(id),
{
    record2("dev", Json::Number(id.dev), "ino", Json::Number(id.ino))
}

/// Writes a path.
fn write_path(p: &RelPath) -> (r: Json)
    ensures
        r.model() == path_json(p@),
{
    let texts = path_to_hex(p);
    let mut out: Vec<Json> = Vec::new();
    let n = texts.len();
    let mut i: usize = 0;
    let ghost hexes = hex_of_path(p@);
    while i < n
        invariant
            i <= n,
            n == texts@.len(),
            text_bytes(texts@) == hexes,
            hexes == hex_of_path(p@),
            out@.len() == i,
            forall|k: int| 0 <= k < i ==> (#[trigger] out@[k]).model() == JsonView::Text(ascii_chars(hexes[k])),
        decreases n - i,
    {
        proof {
            assert(text_bytes(texts@)[i as int] == hexes[i as int]);
            assert(hexes.len() == texts@.len());
            assert(hexes[i as int] == hex_text(p@[i as int]));
            lemma_hex_is_ascii(p@[i as int]);
            lemma_ascii_utf8(hexes[i as int]);
            vstd::utf8::encode_utf8_decode_utf8(texts@[i as int]@);
        }
        out.push(Json::Text(texts[i].clone()));
        i = i + 1;
    }
    proof {
        lemma_list_model(out);
        assert(models(out@) =~= hexes.map_values(|t: Name| JsonView::Text(ascii_chars(t))));
    }
    Json::List(out)
}

/// Hexadecimal text is ASCII.
proof fn lemma_hex_is_ascii(b: Name)
    ensures
        is_ascii(hex_text(b)),
    decreases b.len(),
{
    if b.len() > 0 {
        lemma_hex_is_ascii(b.drop_last());
    }
}

/// Writes a location.
fn write_loc(l: &Loc) -> (r: Json)
    ensures
        r.model() == loc_json(l@),
{
    record2("parent", write_id(l.parent), "path", write_path(&l.path))
}

/// The word for a kind.
fn write_kind(k: Kind) -> (r: String)
    ensures
        r@ == kind_word(k),
{
    match k {
        Kind::File => "file".to_owned(),
        Kind::Dir => "dir".to_owned(),
        Kind::Symlink => "symlink".to_owned(),
        Kind::Other => "other".to_owned(),
    }
}

/// Writes a list of locations.
fn write_locs(items: &Vec<Loc>) -> (r: Json)
    ensures
        r.model() == JsonView::List(items@.map_values(|x: Loc| loc_json(x@))),
{
    let mut out: Vec<Json> = Vec::new();
    let n = items.len();
    let mut i: usize = 0;
    while i < n
        invariant
            i <= n,
            n == items@.len(),
            out@.len() == i,
            forall|k: int| 0 <= k < i ==> (#[trigger] out@[k]).model() == ({
                let x = items@[k];
                loc_json(x@)
            }),
        decreases n - i,
    {
        out.push(write_loc(&items[i]));
        i = i + 1;
    }
    proof {
        lemma_list_model(out);
        assert(models(out@) =~= items@.map_values(|x: Loc| loc_json(x@)));
    }
    Json::List(out)
}

/// Writes a token.
fn write_token(t: &Token) -> (r: Json)
    ensures
        r.model() == token_json(t@),
{
    let mut v: Vec<(String, Json)> = Vec::new();
    v.push(("id".to_owned(), write_id(t.id)));
    v.push(("kind".to_owned(), text_value(write_kind(t.kind))));
    v.push(("locs".to_owned(), write_locs(&t.locs)));
    let r = Json::Record(v);
    assert(t.locs@.map_values(|x: Loc| loc_json(x@)) =~= t@.locs.map_values(|l: LocView| loc_json(l)));
    proof {
        let m = r.model()->Record_0;
        let w = token_json(t@)->Record_0;
        assert(m[0] == w[0]);
        assert(m[1] == w[1]);
        assert(m[2] == w[2]);
        assert(m =~= w);
    }
    r
}

/// Writes a step.
fn write_step(s: &Step) -> (r: Json)
    ensures
        r.model() == step_json(*s),
{
    record2("from", Json::Number(s.from as u64), "t", Json::Number(s.token as u64))
}

/// Writes a wave.
fn write_wave(items: &Vec<Step>) -> (r: Json)
    ensures
        r.model() == JsonView::List(items@.map_values(|x: Step| step_json(x))),
{
    let mut out: Vec<Json> = Vec::new();
    let n = items.len();
    let mut i: usize = 0;
    while i < n
        invariant
            i <= n,
            n == items@.len(),
            out@.len() == i,
            forall|k: int| 0 <= k < i ==> (#[trigger] out@[k]).model() == ({
                let x = items@[k];
                step_json(x)
            }),
        decreases n - i,
    {
        out.push(write_step(&items[i]));
        i = i + 1;
    }
    proof {
        lemma_list_model(out);
        assert(models(out@) =~= items@.map_values(|x: Step| step_json(x)));
    }
    Json::List(out)
}

/// Writes the tokens of a plan.
fn write_tokens(items: &Vec<Token>) -> (r: Json)
    ensures
        r.model() == JsonView::List(items@.map_values(|x: Token| token_json(x@))),
{
    let mut out: Vec<Json> = Vec::new();
    let n = items.len();
    let mut i: usize = 0;
    while i < n
        invariant
            i <= n,
            n == items@.len(),
            out@.len() == i,
            forall|k: int| 0 <= k < i ==> (#[trigger] out@[k]).model() == ({
                let x = items@[k];
                token_json(x@)
            }),
        decreases n - i,
    {
        out.push(write_token(&items[i]));
        i = i + 1;
    }
    proof {
        lemma_list_model(out);
        assert(models(out@) =~= items@.map_values(|x: Token| token_json(x@)));
    }
    Json::List(out)
}

/// Writes the waves of a plan.
fn write_waves(items: &Vec<Vec<Step>>) -> (r: Json)
    ensures
        r.model() == JsonView::List(items@.map_values(|x: Vec<Step>| wave_json(x@))),
{
    let mut out: Vec<Json> = Vec::new();
    let n = items.len();
    let mut i: usize = 0;
    while i < n
        invariant
            i <= n,
            n == items@.len(),
            out@.len() == i,
            forall|k: int| 0 <= k < i ==> (#[trigger] out@[k]).model() == ({
                let x = items@[k];
                wave_json(x@)
            }),
        decreases n - i,
    {
        out.push(write_wave(&items[i]));
        i = i + 1;
    }
    proof {
        lemma_list_model(out);
        assert(models(out@) =~= items@.map_values(|x: Vec<Step>| wave_json(x@)));
    }
    Json::List(out)
}

/// Writes a journal as a JSON value.
pub fn journal_to_json(j: &Journal) -> (r: Json)
    ensures
        r.model() == journal_json(j@),
{
    let mut v: Vec<(String, Json)> = Vec::new();
    v.push(("format".to_owned(), number_value(j.format as u64)));
    v.push(("root".to_owned(), write_id(j.root)));
    v.push(("tokens".to_owned(), write_tokens(&j.plan.tokens)));
    v.push(("tx".to_owned(), text_value(j.tx.clone())));
    v.push(("waves".to_owned(), write_waves(&j.plan.waves)));
    let r = Json::Record(v);
    assert(j.plan.tokens@.map_values(|x: Token| token_json(x@)) =~= j@.plan.tokens.map_values(
        |t: TokenView| token_json(t),
    ));
    assert(j.plan.waves@.map_values(|x: Vec<Step>| wave_json(x@)) =~= j@.plan.waves.map_values(
        |w: Seq<Step>| wave_json(w),
    ));
    proof {
        let m = r.model()->Record_0;
        let w = journal_json(j@)->Record_0;
        assert(m[0] == w[0]);
        assert(m[1] == w[1]);
        assert(m[2] == w[2]);
        assert(m[3] == w[3]);
        assert(m[4] == w[4]);
        assert(m =~= w);
    }
    r
}

/// `\nblake3:`, which separates the body of a journal from its checksum.
pub open spec fn separator() -> Seq<u8> {
    seq![10u8, 98u8, 108u8, 97u8, 107u8, 101u8, 51u8, 58u8]
}

/// The separator stands at `i`.
pub open spec fn separator_at(bytes: Seq<u8>, i: int) -> bool {
    0 <= i && i + 8 <= bytes.len() && bytes.subrange(i, i + 8) == separator()
}

/// The last of the first `n` positions at which the separator stands.
pub open spec fn last_separator(bytes: Seq<u8>, n: int) -> Option<int>
    decreases n,
{
    if n <= 0 {
        None
    } else if separator_at(bytes, n - 1) {
        Some(n - 1)
    } else {
        last_separator(bytes, n - 1)
    }
}

/// A body with its checksum line.
pub open spec fn sealed(body: Seq<u8>) -> Seq<u8> {
    body + separator() + hex_text(blake3_of(body)) + seq![10u8]
}

/// Every location of the token is at a path of proper names.
pub open spec fn proper_token(t: TokenView) -> bool {
    forall|i: int| 0 <= i < t.locs.len() ==> proper_path((#[trigger] t.locs[i]).path)
}

/// Every location of the plan is at a path of proper names.
pub open spec fn proper_plan(p: PlanView) -> bool {
    forall|t: int| 0 <= t < p.tokens.len() ==> proper_token(#[trigger] p.tokens[t])
}

proof fn lemma_key_before(a: Seq<char>, b: Seq<char>, i: int)
    requires
        0 <= i < a.len(),
        i < b.len(),
        forall|k: int| 0 <= k < i ==> a[k] == b[k],
        a[i] < b[i],
    ensures
        key_before(a, b),
        a != b,
{
    assert(a.take(i) =~= b.take(i));
    assert(key_before_at(a, b, i));
}

proof fn lemma_id_round_trip(id: FileId, depth: nat)
    requires
        depth >= 1,
    ensures
        json_id(id_json(id)) == Some(id),
        plain(id_json(id), depth),
{
    reveal_strlit("dev");
    reveal_strlit("ino");
    lemma_key_before("dev"@, "ino"@, 0);
    reveal_with_fuel(field_among, 3);
    reveal_with_fuel(plain, 2);
}

proof fn lemma_path_round_trip(p: PathView, depth: nat)
    requires
        proper_path(p),
        depth >= 1,
    ensures
        json_path(path_json(p)) == Some(p),
        plain(path_json(p), depth),
{
    let s = path_json(p)->List_0;
    let hexes = hex_of_path(p);
    let texts = s.map_values(|x: JsonView| json_text(x));
    assert forall|i: int| 0 <= i < texts.len() implies (#[trigger] texts[i]) == Some(ascii_chars(hexes[i])) by {
        assert(s[i] == JsonView::Text(ascii_chars(hexes[i])));
    }
    let got = all_some(texts)->0;
    let bytes = got.map_values(|t: Seq<char>| encode_utf8(t));
    assert forall|i: int| 0 <= i < hexes.len() implies bytes[i] == hexes[i] by {
        assert(hexes[i] == hex_text(p[i]));
        lemma_hex_is_ascii(p[i]);
        lemma_ascii_utf8(hexes[i]);
        assert(texts[i] == Some(ascii_chars(hexes[i])));
    }
    assert(bytes =~= hexes);
    law_path_hex_round_trip(p);
    reveal_with_fuel(plain, 2);
}

proof fn lemma_loc_round_trip(l: LocView, depth: nat)
    requires
        proper_path(l.path),
        depth >= 2,
    ensures
        json_loc(loc_json(l)) == Some(l),
        plain(loc_json(l), depth),
{
    reveal_strlit("parent");
    reveal_strlit("path");
    lemma_key_before("parent"@, "path"@, 2);
    lemma_id_round_trip(l.parent, (depth - 1) as nat);
    lemma_path_round_trip(l.path, (depth - 1) as nat);
    reveal_with_fuel(field_among, 3);
}

proof fn lemma_kind_round_trip(k: Kind)
    ensures
        kind_of_word(kind_word(k)) == Some(k),
{
    reveal_strlit("file");
    reveal_strlit("dir");
    reveal_strlit("symlink");
    reveal_strlit("other");
    assert("file"@[0] == 'f' && "dir"@[0] == 'd' && "symlink"@[0] == 's' && "other"@[0] == 'o');
}

proof fn lemma_token_round_trip(t: TokenView, depth: nat)
    requires
        proper_token(t),
        depth >= 4,
    ensures
        json_token(token_json(t)) == Some(t),
        plain(token_json(t), depth),
{
    reveal_strlit("id");
    reveal_strlit("kind");
    reveal_strlit("locs");
    lemma_key_before("id"@, "kind"@, 0);
    lemma_key_before("id"@, "locs"@, 0);
    lemma_key_before("kind"@, "locs"@, 0);
    lemma_id_round_trip(t.id, (depth - 1) as nat);
    lemma_kind_round_trip(t.kind);
    let s = t.locs.map_values(|l: LocView| loc_json(l));
    let back = s.map_values(|x: JsonView| json_loc(x));
    assert forall|i: int| 0 <= i < s.len() implies back[i] == Some(t.locs[i]) && plain(
        #[trigger] s[i],
        (depth - 2) as nat,
    ) by {
        lemma_loc_round_trip(t.locs[i], (depth - 2) as nat);
    }
    assert forall|i: int| 0 <= i < back.len() implies (#[trigger] back[i]) is Some by {
        assert(plain(s[i], (depth - 2) as nat));
    }
    assert(all_some(back)->0 =~= t.locs) by {
        assert forall|i: int| 0 <= i < t.locs.len() implies all_some(back)->0[i] == t.locs[i] by {
            assert(plain(s[i], (depth - 2) as nat));
        }
    }
    assert(plain(JsonView::List(s), (depth - 1) as nat));
    reveal_with_fuel(field_among, 4);
    let r = token_json(t)->Record_0;
    assert(r[0].0 == "id"@ && r[1].0 == "kind"@ && r[2].0 == "locs"@);
    assert(plain(r[1].1, (depth - 1) as nat));
    assert(plain(token_json(t), depth)) by {
        assert forall|i: int| 0 <= i < r.len() implies plain((#[trigger] r[i]).1, (depth - 1) as nat) by {}
        assert forall|i: int, j: int|
            #![trigger r[i], r[j]]
            0 <= i < j < r.len() implies key_before(r[i].0, r[j].0) by {}
    }
}

proof fn lemma_step_round_trip(s: Step, depth: nat)
    requires
        depth >= 1,
    ensures
        json_step(step_json(s)) == Some(s),
        plain(step_json(s), depth),
{
    reveal_strlit("from");
    reveal_strlit("t");
    lemma_key_before("from"@, "t"@, 0);
    reveal_with_fuel(field_among, 3);
    reveal_with_fuel(plain, 2);
}

proof fn lemma_wave_round_trip(w: Seq<Step>, depth: nat)
    requires
        depth >= 2,
    ensures
        json_wave(wave_json(w)) == Some(w),
        plain(wave_json(w), depth),
{
    let s = w.map_values(|x: Step| step_json(x));
    let back = s.map_values(|x: JsonView| json_step(x));
    assert forall|i: int| 0 <= i < s.len() implies back[i] == Some(w[i]) && plain(
        #[trigger] s[i],
        (depth - 1) as nat,
    ) by {
        lemma_step_round_trip(w[i], (depth - 1) as nat);
    }
    assert forall|i: int| 0 <= i < back.len() implies (#[trigger] back[i]) is Some by {
        assert(plain(s[i], (depth - 1) as nat));
    }
    assert(all_some(back)->0 =~= w) by {
        assert forall|i: int| 0 <= i < w.len() implies all_some(back)->0[i] == w[i] by {
            assert(plain(s[i], (depth - 1) as nat));
        }
    }
}

/// A journal of proper paths survives being written as JSON and read back.
pub proof fn law_journal_json_round_trip(j: JournalView)
    requires
        proper_plan(j.plan),
    ensures
        json_journal(journal_json(j)) == Some(j),
        plain(journal_json(j), 100),
{
    reveal_strlit("format");
    reveal_strlit("root");
    reveal_strlit("tokens");
    reveal_strlit("tx");
    reveal_strlit("waves");
    lemma_key_before("format"@, "root"@, 0);
    lemma_key_before("format"@, "tokens"@, 0);
    lemma_key_before("format"@, "tx"@, 0);
    lemma_key_before("format"@, "waves"@, 0);
    lemma_key_before("root"@, "tokens"@, 0);
    lemma_key_before("root"@, "tx"@, 0);
    lemma_key_before("root"@, "waves"@, 0);
    lemma_key_before("tokens"@, "tx"@, 1);
    lemma_key_before("tokens"@, "waves"@, 0);
    lemma_key_before("tx"@, "waves"@, 0);
    lemma_id_round_trip(j.root, 99);
    let s = j.plan.tokens.map_values(|t: TokenView| token_json(t));
    let back = s.map_values(|x: JsonView| json_token(x));
    assert forall|i: int| 0 <= i < s.len() implies back[i] == Some(j.plan.tokens[i]) && plain(#[trigger] s[i], 98) by {
        lemma_token_round_trip(j.plan.tokens[i], 98);
    }
    assert forall|i: int| 0 <= i < back.len() implies (#[trigger] back[i]) is Some by {
        assert(plain(s[i], 98));
    }
    assert(all_some(back)->0 =~= j.plan.tokens) by {
        assert forall|i: int| 0 <= i < s.len() implies all_some(back)->0[i] == j.plan.tokens[i] by {
            assert(plain(s[i], 98));
        }
    }
    let ws = j.plan.waves.map_values(|w: Seq<Step>| wave_json(w));
    let wback = ws.map_values(|x: JsonView| json_wave(x));
    assert forall|i: int| 0 <= i < ws.len() implies wback[i] == Some(j.plan.waves[i]) && plain(#[trigger] ws[i], 98) by {
        lemma_wave_round_trip(j.plan.waves[i], 98);
    }
    assert forall|i: int| 0 <= i < wback.len() implies (#[trigger] wback[i]) is Some by {
        assert(plain(ws[i], 98));
    }
    assert(all_some(wback)->0 =~= j.plan.waves) by {
        assert forall|i: int| 0 <= i < ws.len() implies all_some(wback)->0[i] == j.plan.waves[i] by {
            assert(plain(ws[i], 98));
        }
    }
    reveal_with_fuel(field_among, 6);
    let r = journal_json(j)->Record_0;
    assert(plain(JsonView::List(s), 99));
    assert(plain(JsonView::List(ws), 99));
    assert(r[0].0 == "format"@ && r[1].0 == "root"@ && r[2].0 == "tokens"@ && r[3].0 == "tx"@ && r[4].0 == "waves"@);
    assert(plain(journal_json(j), 100)) by {
        assert forall|i: int| 0 <= i < r.len() implies plain((#[trigger] r[i]).1, 99) by {}
        assert forall|i: int, k: int|
            #![trigger r[i], r[k]]
            0 <= i < k < r.len() implies key_before(r[i].0, r[k].0) by {}
    }
}

proof fn lemma_hex_digits(b: Name)
    ensures
        forall|i: int| 0 <= i < hex_text(b).len() ==> #[trigger] hex_text(b)[i] != 10,
    decreases b.len(),
{
    if b.len() > 0 {
        let head = hex_text(b.drop_last());
        lemma_hex_digits(b.drop_last());
        assert forall|i: int| 0 <= i < hex_text(b).len() implies #[trigger] hex_text(b)[i] != 10 by {
            if i < head.len() {
                assert(hex_text(b)[i] == head[i]);
            }
        }
    }
}

proof fn lemma_no_separator_after(bytes: Seq<u8>, n: int, m: int)
    requires
        0 <= n <= m <= bytes.len(),
        forall|i: int| n <= i < m ==> !separator_at(bytes, i),
    ensures
        last_separator(bytes, m) == last_separator(bytes, n),
    decreases m - n,
{
    if n < m {
        lemma_no_separator_after(bytes, n, m - 1);
    }
}

proof fn lemma_tail_has_no_separator(body: Seq<u8>, i: int)
    requires
        body.len() < i,
    ensures
        !separator_at(sealed(body), i),
{
    let bytes = sealed(body);
    let n = body.len() as int;
    let sum = hex_text(blake3_of(body));
    if separator_at(bytes, i) {
        lemma_hex_digits(blake3_of(body));
        assert(bytes.subrange(i, i + 8)[0] == bytes[i]);
        assert(separator()[0] == 10);
        assert(bytes.len() == n + 8 + sum.len() + 1);
        if i < n + 8 {
            assert(bytes[i] == separator()[i - n]);
        } else {
            assert(bytes[i] == sum[i - n - 8]);
        }
    }
}

/// Sealing can be undone: the checksum line comes off again.
pub proof fn law_unsealing_undoes_sealing(body: Seq<u8>)
    ensures
        unsealed(sealed(body)) == Frame::Body(body),
{
    let bytes = sealed(body);
    let n = body.len() as int;
    let sum = hex_text(blake3_of(body));
    assert(bytes.subrange(n, n + 8) =~= separator());
    assert forall|i: int| n + 1 <= i < bytes.len() implies !separator_at(bytes, i) by {
        lemma_tail_has_no_separator(body, i);
    }
    lemma_no_separator_after(bytes, n + 1, bytes.len() as int);
    assert(separator_at(bytes, n));
    let rest = bytes.skip(n + 8);
    assert(rest =~= sum + seq![10u8]);
    assert(rest.drop_last() =~= sum);
    assert(bytes.take(n) =~= body);
}

/// Encodes a journal: its JSON text, and a line with the text's checksum. A journal of proper
/// paths reads back as it was written.
pub fn encode(j: &Journal) -> (r: Vec<u8>)
    ensures
        r@ == sealed(json_printed(journal_json(j@))),
        proper_plan(j@.plan) ==> journal_in(r@) == Some(j@),
{
    let json = journal_to_json(j);
    let mut out = write_json(&json);
    let ghost body = out@;
    let sum = checksum(&out);
    let mut line = hex_bytes(&sum);
    let mut sep: Vec<u8> = vec![10, 98, 108, 97, 107, 101, 51, 58];
    assert(sep@ =~= separator());
    out.append(&mut sep);
    out.append(&mut line);
    out.push(10);
    assert(out@ =~= sealed(body));
    proof {
        law_unsealing_undoes_sealing(body);
        if proper_plan(j@.plan) {
            law_journal_json_round_trip(j@);
        }
    }
    out
}

/// What is wrong with the framing of a journal, or its body.
pub enum Frame {
    NoChecksum,
    Torn,
    Mismatch,
    Body(Seq<u8>),
}

/// Takes the checksum line off a journal.
pub open spec fn unsealed(bytes: Seq<u8>) -> Frame {
    match last_separator(bytes, bytes.len() as int) {
        None => Frame::NoChecksum,
        Some(cut) => {
            let rest = bytes.skip(cut + 8);
            if rest.len() == 0 || rest.last() != 10 {
                Frame::Torn
            } else if rest.drop_last() != hex_text(blake3_of(bytes.take(cut))) {
                Frame::Mismatch
            } else {
                Frame::Body(bytes.take(cut))
            }
        },
    }
}

/// A location is allowed in the journal of transaction `tx`: it is not the root, and if it
/// is private it is directly inside the transaction's `backup` or `staged` directory.
pub open spec fn location_allowed(p: PathView, tx: Name) -> bool {
    &&& p.len() > 0
    &&& private_path(p) ==> p.len() == 4 && p[0] == private_name() && p[1] == tx && (p[2] == backup_name() || p[2]
        == staged_name())
}

/// Every token has at least two locations, all of them allowed.
pub open spec fn locations_allowed(p: PlanView, tx: Name) -> bool {
    forall|t: int|
        0 <= t < p.tokens.len() ==> (#[trigger] p.tokens[t]).locs.len() >= 2 && forall|i: int|
            0 <= i < p.tokens[t].locs.len() ==> location_allowed((#[trigger] p.tokens[t].locs[i]).path, tx)
}

/// The journal is one that recovery may act on.
pub open spec fn admissible(j: JournalView, tx: Seq<char>, root: FileId) -> bool {
    &&& j.format == FORMAT
    &&& j.tx == tx
    &&& j.root == root
    &&& locations_allowed(j.plan, encode_utf8(tx))
    &&& j.plan.valid()
}

/// The journal that the bytes hold, if their frame is intact and the body is a journal.
pub open spec fn journal_in(bytes: Seq<u8>) -> Option<JournalView> {
    match unsealed(bytes) {
        Frame::Body(body) => match json_parsed(body) {
            Some(v) => json_journal(v),
            None => None,
        },
        _ => None,
    }
}

/// The reason is right about why the bytes hold no journal to act on.
pub open spec fn rejected_for(bytes: Seq<u8>, tx: Seq<char>, root: FileId, e: Reason) -> bool {
    match e {
        Reason::NoChecksum => unsealed(bytes) is NoChecksum,
        Reason::TornChecksum => unsealed(bytes) is Torn,
        Reason::ChecksumMismatch => unsealed(bytes) is Mismatch,
        Reason::DoesNotParse { .. } => unsealed(bytes) is Body && journal_in(bytes) is None,
        _ => journal_in(bytes) matches Some(j) && match e {
            Reason::UnknownFormat { format } => j.format == format && format != FORMAT,
            Reason::OtherTransaction => j.format == FORMAT && j.tx != tx,
            Reason::OtherRoot => j.format == FORMAT && j.tx == tx && j.root != root,
            _ => j.format == FORMAT && j.tx == tx && j.root == root && match e {
                Reason::TooFewLocations => exists|t: int|
                    0 <= t < j.plan.tokens.len() && (#[trigger] j.plan.tokens[t]).locs.len() < 2,
                Reason::RootLocation => exists|t: int, i: int|
                    #![trigger j.plan.tokens[t].locs[i]]
                    0 <= t < j.plan.tokens.len() && 0 <= i < j.plan.tokens[t].locs.len()
                        && j.plan.tokens[t].locs[i].path.len() == 0,
                Reason::ForeignLocation { path } => (exists|t: int, i: int|
                    #![trigger j.plan.tokens[t].locs[i]]
                    0 <= t < j.plan.tokens.len() && 0 <= i < j.plan.tokens[t].locs.len()
                        && j.plan.tokens[t].locs[i].path == path@) && private_path(path@) && !location_allowed(
                    path@,
                    encode_utf8(tx),
                ),
                _ => locations_allowed(j.plan, encode_utf8(tx)) && j.plan.has_defect(e),
            },
        },
    }
}

/// Finds the last separator.
fn find_separator(bytes: &[u8]) -> (r: Option<usize>)
    ensures
        match last_separator(bytes@, bytes@.len() as int) {
            Some(i) => r is Some && r->0 == i && separator_at(bytes@, i),
            None => r is None,
        },
{
    let sep: Vec<u8> = vec![10, 98, 108, 97, 107, 101, 51, 58];
    assert(sep@ =~= separator());
    let n = bytes.len();
    let mut i: usize = n;
    while i > 0
        invariant
            i <= n,
            n == bytes@.len(),
            sep@ == separator(),
            last_separator(bytes@, n as int) == last_separator(bytes@, i as int),
        decreases i,
    {
        i = i - 1;
        if n - i >= 8 && bytes_eq(vstd::slice::slice_subrange(bytes, i, i + 8), &sep) {
            assert(separator_at(bytes@, i as int));
            return Some(i);
        }
    }
    None
}

/// Takes the checksum line off a journal.
fn unseal(bytes: &[u8]) -> (r: Result<Vec<u8>, Reason>)
    ensures
        match unsealed(bytes@) {
            Frame::NoChecksum => r == Err::<Vec<u8>, Reason>(Reason::NoChecksum),
            Frame::Torn => r == Err::<Vec<u8>, Reason>(Reason::TornChecksum),
            Frame::Mismatch => r == Err::<Vec<u8>, Reason>(Reason::ChecksumMismatch),
            Frame::Body(body) => r matches Ok(b) && b@ == body,
        },
{
    let cut = match find_separator(bytes) {
        Some(i) => i,
        None => return Err(Reason::NoChecksum),
    };
    let n = bytes.len();
    let rest = vstd::slice::slice_subrange(bytes, cut + 8, n);
    assert(rest@ =~= bytes@.skip(cut + 8));
    let m = rest.len();
    if m == 0 || rest[m - 1] != 10 {
        return Err(Reason::TornChecksum);
    }
    let sum = vstd::slice::slice_subrange(rest, 0, m - 1);
    assert(sum@ =~= rest@.drop_last());
    let body = vstd::slice::slice_subrange(bytes, 0, cut);
    assert(body@ =~= bytes@.take(cut as int));
    let want = hex_bytes(&checksum(body));
    if !bytes_eq(sum, &want) {
        return Err(Reason::ChecksumMismatch);
    }
    Ok(vstd::slice::slice_to_vec(body))
}

/// Whether the location is allowed in the journal of transaction `tx`.
fn check_location(path: &RelPath, tx: &[u8]) -> (r: bool)
    requires
        path@.len() > 0,
    ensures
        r == location_allowed(path@, tx@),
{
    if !path.is_private() {
        return true;
    }
    let c = path.components();
    if c.len() != 4 {
        return false;
    }
    let private = crate::path::private_dir_name();
    let backup: Vec<u8> = vec![98, 97, 99, 107, 117, 112];
    let staged: Vec<u8> = vec![115, 116, 97, 103, 101, 100];
    assert(backup@ =~= backup_name());
    assert(staged@ =~= staged_name());
    bytes_eq(&c[0], &private) && bytes_eq(&c[1], tx) && (bytes_eq(&c[2], &backup) || bytes_eq(&c[2], &staged))
}

/// Checks the locations of all tokens.
fn check_locations(plan: &Plan, tx: &str) -> (r: Result<(), Reason>)
    ensures
        r is Ok <==> locations_allowed(plan@, encode_utf8(tx@)),
        r matches Err(e) ==> match e {
            Reason::TooFewLocations => exists|t: int|
                0 <= t < plan@.tokens.len() && (#[trigger] plan@.tokens[t]).locs.len() < 2,
            Reason::RootLocation => exists|t: int, i: int|
                #![trigger plan@.tokens[t].locs[i]]
                0 <= t < plan@.tokens.len() && 0 <= i < plan@.tokens[t].locs.len()
                    && plan@.tokens[t].locs[i].path.len() == 0,
            Reason::ForeignLocation { path } => (exists|t: int, i: int|
                #![trigger plan@.tokens[t].locs[i]]
                0 <= t < plan@.tokens.len() && 0 <= i < plan@.tokens[t].locs.len() && plan@.tokens[t].locs[i].path
                    == path@) && private_path(path@) && !location_allowed(path@, encode_utf8(tx@)),
            _ => false,
        },
{
    let ghost p = plan@;
    let name = string_bytes(tx);
    let n = plan.tokens.len();
    let mut t: usize = 0;
    while t < n
        invariant
            t <= n,
            n == p.tokens.len(),
            p == plan@,
            name@ == encode_utf8(tx@),
            forall|u: int|
                0 <= u < t ==> (#[trigger] p.tokens[u]).locs.len() >= 2 && forall|i: int|
                    0 <= i < p.tokens[u].locs.len() ==> location_allowed((#[trigger] p.tokens[u].locs[i]).path, name@),
        decreases n - t,
    {
        let tok = &plan.tokens[t];
        assert(p.tokens[t as int] == tok@);
        if tok.locs.len() < 2 {
            return Err(Reason::TooFewLocations);
        }
        let m = tok.locs.len();
        let mut i: usize = 0;
        while i < m
            invariant
                i <= m,
                m == tok.locs@.len(),
                t < n,
                n == p.tokens.len(),
                p == plan@,
                p.tokens[t as int] == tok@,
                name@ == encode_utf8(tx@),
                forall|k: int|
                    0 <= k < i ==> location_allowed((#[trigger] p.tokens[t as int].locs[k]).path, name@),
            decreases m - i,
        {
            let path = &tok.locs[i].path;
            assert(p.tokens[t as int].locs[i as int].path == path@);
            if path.is_root() {
                return Err(Reason::RootLocation);
            }
            if !check_location(path, &name) {
                return Err(Reason::ForeignLocation { path: path.clone() });
            }
            i = i + 1;
        }
        t = t + 1;
    }
    Ok(())
}

/// Parses and validates a journal read from the private directory of `tx_name`.
pub fn decode(bytes: &[u8], tx_name: &str, root: FileId) -> (r: Result<Journal, Reason>)
    ensures
        r is Ok <==> (journal_in(bytes@) matches Some(j) && admissible(j, tx_name@, root)),
        r matches Ok(j) ==> journal_in(bytes@) == Some(j@),
        r matches Err(e) ==> rejected_for(bytes@, tx_name@, root, e),
{
    let body = match unseal(bytes) {
        Ok(b) => b,
        Err(e) => return Err(e),
    };
    let json = match read_json(&body) {
        Ok(v) => v,
        Err(message) => return Err(Reason::DoesNotParse { message }),
    };
    let j = match journal_from_json(&json) {
        Some(j) => j,
        None => return Err(Reason::DoesNotParse { message: "a field is missing or malformed".to_owned() }),
    };
    if j.format != FORMAT {
        return Err(Reason::UnknownFormat { format: j.format });
    }
    if !str_eq(j.tx.as_str(), tx_name) {
        return Err(Reason::OtherTransaction);
    }
    if j.root != root {
        return Err(Reason::OtherRoot);
    }
    match check_locations(&j.plan, tx_name) {
        Ok(_) => {},
        Err(e) => return Err(e),
    }
    match validate(&j.plan) {
        Ok(_) => Ok(j),
        Err(e) => {
            assert(rejected_for(bytes@, tx_name@, root, e));
            Err(e)
        },
    }
}

} // verus!
