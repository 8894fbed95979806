//! JSON documents as plain data, and the bridge to `serde_json`.

use crate::lists;
use crate::text;
use serde::de::Unexpected;
use serde::Serializer;
use serde_json::{Number, Value};
use vstd::prelude::*;

verus! {

/// `serde_json::Value`, carried as an opaque value.
#[verifier::external_type_specification]
#[verifier::external_body]
pub struct ExValue(serde_json::Value);

/// `serde_json::Number`, carried as an opaque value.
#[verifier::external_type_specification]
#[verifier::external_body]
pub struct ExNumber(serde_json::Number);

/// `Number::clone` hands back the same number.
pub assume_specification[ <Number as Clone>::clone ](number: &Number) -> (copy: Number)
    ensures
        copy == *number,
;

/// A JSON number that is no integer of 64 bits: one with a fraction or an exponent, or
/// one that is too large. It comes only out of a parsed document and is passed on
/// untouched.
#[derive(Debug)]
pub struct OtherNumber {
    number: Number,
}

/// A JSON document. Where an object holds a key twice, the later pair counts.
#[derive(Debug)]
pub enum Json {
    Null,
    Bool(bool),
    Unsigned(u64),
    Signed(i64),
    Other(OtherNumber),
    Str(String),
    Array(Vec<Json>),
    Object(Vec<(String, Json)>),
}

/// The mathematical content of a JSON document.
pub enum JsonView {
    Null,
    Bool(bool),
    Unsigned(u64),
    Negative(i64),
    Other(OtherNumber),
    Str(Seq<char>),
    Array(Seq<JsonView>),
    Object(Map<Seq<char>, JsonView>),
}

/// The content of a signed integer: only the negative ones are told from the unsigned.
pub open spec fn signed_view(n: i64) -> JsonView {
    if n < 0 {
        JsonView::Negative(n)
    } else {
        JsonView::Unsigned(n as u64)
    }
}

/// The content of a list of documents.
pub open spec fn items_view(items: Seq<Json>) -> Seq<JsonView>
    decreases items,
{
    if items.len() == 0 {
        Seq::empty()
    } else {
        items_view(items.drop_last()).push(items.last().view())
    }
}

/// The content of a list of key-value pairs: a later pair replaces an earlier one.
pub open spec fn fields_view(fields: Seq<(String, Json)>) -> Map<Seq<char>, JsonView>
    decreases fields,
{
    if fields.len() == 0 {
        Map::empty()
    } else {
        fields_view(fields.drop_last()).insert(fields.last().0@, fields.last().1.view())
    }
}

impl Json {
    /// The document's content.
    pub open spec fn view(&self) -> JsonView
        decreases self,
    {
        match self {
            Json::Null => JsonView::Null,
            Json::Bool(b) => JsonView::Bool(*b),
            Json::Unsigned(n) => JsonView::Unsigned(*n),
            Json::Signed(n) => signed_view(*n),
            Json::Other(n) => JsonView::Other(*n),
            Json::Str(s) => JsonView::Str(s@),
            Json::Array(items) => JsonView::Array(items_view(items@)),
            Json::Object(fields) => JsonView::Object(fields_view(fields@)),
        }
    }
}


/// The value under `key`, where `v` is an object that has it.
pub open spec fn field(v: JsonView, key: Seq<char>) -> Option<JsonView> {
    match v {
        JsonView::Object(fields) => if fields.dom().contains(key) {
            Some(fields[key])
        } else {
            None
        },
        _ => None,
    }
}

/// The characters of a string value.
pub open spec fn text_of(v: Option<JsonView>) -> Option<Seq<char>> {
    match v {
        Some(JsonView::Str(s)) => Some(s),
        _ => None,
    }
}

/// The number of an unsigned integer value.
pub open spec fn unsigned_of(v: Option<JsonView>) -> Option<u64> {
    match v {
        Some(JsonView::Unsigned(n)) => Some(n),
        _ => None,
    }
}

/// The items of an array value.
pub open spec fn array_of(v: Option<JsonView>) -> Option<Seq<JsonView>> {
    match v {
        Some(JsonView::Array(items)) => Some(items),
        _ => None,
    }
}

/// A document nested at most `depth` deep whose numbers are all integers of 64 bits.
pub open spec fn plain_within(v: JsonView, depth: nat) -> bool
    decreases depth,
{
    match v {
        JsonView::Other(_) => false,
        JsonView::Array(items) => depth > 0 && forall|i: int|
            0 <= i < items.len() ==> plain_within(#[trigger] items[i], (depth - 1) as nat),
        JsonView::Object(fields) => depth > 0 && forall|k: Seq<char>|
            fields.dom().contains(k) ==> plain_within(#[trigger] fields[k], (depth - 1) as nat),
        _ => true,
    }
}

/// `w` is the document `v`, but for the numbers that are no integers: in the place of
/// each stands such a number again.
pub open spec fn alike(v: JsonView, w: JsonView) -> bool
    decreases v,
{
    match (v, w) {
        (JsonView::Other(_), JsonView::Other(_)) => true,
        (JsonView::Array(a), JsonView::Array(b)) => a.len() == b.len() && forall|i: int|
            0 <= i < a.len() ==> alike(#[trigger] a[i], b[i]),
        (JsonView::Object(a), JsonView::Object(b)) => a.dom() == b.dom() && forall|k: Seq<char>|
            a.dom().contains(k) ==> alike(#[trigger] a[k], b[k]),
        _ => v == w,
    }
}

// ---------------------------------------------------------------------------
// serde_json
// ---------------------------------------------------------------------------

/// The content of a `serde_json::Value`.
pub uninterp spec fn json_of(value: Value) -> JsonView;

/// What `serde_json` reads from a text: the document, or its error message.
pub uninterp spec fn json_parsed(text: Seq<u8>) -> Result<JsonView, Seq<char>>;

/// The compact text that `serde_json` writes for a document.
pub uninterp spec fn json_text(v: JsonView) -> Seq<char>;

/// The message with which `serde_json` refuses a value that should be a string.
pub uninterp spec fn not_a_string(v: JsonView) -> Seq<char>;

/// The message with which `serde_json` refuses a value that should be a `u32`.
pub uninterp spec fn not_a_u32(v: JsonView) -> Seq<char>;

/// The text with which `serde_json` shows a value for debugging.
pub uninterp spec fn json_debug(v: JsonView) -> Seq<char>;

/// The value at the front of a text, with the length of the text up to its end, as a
/// `serde_json::StreamDeserializer` gives them; nothing where there is no value.
pub uninterp spec fn leading_value(text: Seq<u8>) -> Option<(JsonView, nat)>;

/// What `serde_json` says of a value that stands where something else is expected.
pub uninterp spec fn wrong_type(v: JsonView, expected: Seq<char>) -> Seq<char>;

/// How deep a text may be nested for `serde_json` to read it.
pub open spec fn max_depth() -> nat {
    127
}

/// What reading `text`, written for `v`, gives: the same document as long as all
/// numbers are integers and the nesting is within the reader's limit. A document with
/// other numbers may be refused; where it is read, only those numbers can differ.
pub open spec fn reads_back(text: Seq<char>, v: JsonView) -> bool {
    let read = json_parsed(vstd::utf8::encode_utf8(text));
    &&& plain_within(v, max_depth()) ==> read == Ok::<JsonView, Seq<char>>(v)
    &&& read matches Ok(w) ==> alike(v, w)
}

/// One pair of an object, as compact text.
pub open spec fn member_text(pair: (Seq<char>, JsonView)) -> Seq<char> {
    json_text(JsonView::Str(pair.0)) + ":"@ + json_text(pair.1)
}

/// The pairs of an object, as compact text.
pub open spec fn members_text(pairs: Seq<(Seq<char>, JsonView)>) -> Seq<char>
    decreases pairs.len(),
{
    if pairs.len() == 0 {
        Seq::empty()
    } else if pairs.len() == 1 {
        member_text(pairs[0])
    } else {
        members_text(pairs.drop_last()) + ","@ + member_text(pairs.last())
    }
}

/// The compact text of an object with its pairs in this order.
pub open spec fn object_text(pairs: Seq<(Seq<char>, JsonView)>) -> Seq<char> {
    "{"@ + members_text(pairs) + "}"@
}

/// The object with these pairs: a later pair replaces an earlier one.
pub open spec fn map_of(pairs: Seq<(Seq<char>, JsonView)>) -> Map<Seq<char>, JsonView>
    decreases pairs.len(),
{
    if pairs.len() == 0 {
        Map::empty()
    } else {
        map_of(pairs.drop_last()).insert(pairs.last().0, pairs.last().1)
    }
}

/// No key occurs twice.
pub open spec fn distinct_keys(pairs: Seq<(Seq<char>, JsonView)>) -> bool {
    forall|i: int, j: int| 0 <= i < j < pairs.len() ==> pairs[i].0 != pairs[j].0
}

/// A text on one line.
pub open spec fn one_line(s: Seq<char>) -> bool {
    forall|i: int| 0 <= i < s.len() ==> #[trigger] s[i] != '\n'
}

/// A text between braces.
pub open spec fn in_braces(s: Seq<char>) -> bool {
    s.len() >= 2 && s[0] == '{' && s.last() == '}'
}

/// The line of a document, which whoever gets it reads as that document again.
pub open spec fn is_line_of(line: Seq<char>, v: JsonView) -> bool {
    &&& line == json_text(v)
    &&& one_line(line)
    &&& v is Object ==> in_braces(line)
    &&& reads_back(line, v)
}

/// The outermost layer of a `serde_json::Value`.
enum Layer {
    Null,
    Bool(bool),
    Unsigned(u64),
    Signed(i64),
    Other(OtherNumber),
    Str(String),
    Array(Vec<Value>),
    Object(Vec<(String, Value)>),
}

spec fn values_view(values: Seq<Value>) -> Seq<JsonView> {
    values.map_values(|v: Value| json_of(v))
}

spec fn entries_view(entries: Seq<(String, Value)>) -> Map<Seq<char>, JsonView>
    decreases entries.len(),
{
    if entries.len() == 0 {
        Map::empty()
    } else {
        entries_view(entries.drop_last()).insert(entries.last().0@, json_of(entries.last().1))
    }
}

impl Layer {
    spec fn view(self) -> JsonView {
        match self {
            Layer::Null => JsonView::Null,
            Layer::Bool(b) => JsonView::Bool(b),
            Layer::Unsigned(n) => JsonView::Unsigned(n),
            Layer::Signed(n) => signed_view(n),
            Layer::Other(n) => JsonView::Other(n),
            Layer::Str(s) => JsonView::Str(s@),
            Layer::Array(values) => JsonView::Array(values_view(values@)),
            Layer::Object(entries) => JsonView::Object(entries_view(entries@)),
        }
    }

    /// No key of an object occurs twice.
    spec fn keys_distinct(self) -> bool {
        match self {
            Layer::Object(entries) => forall|i: int, j: int|
                0 <= i < j < entries@.len() ==> entries@[i].0@ != entries@[j].0@,
            _ => true,
        }
    }
}

/// Takes a `serde_json::Value` apart by its variants. `Number::as_u64` and
/// `Number::as_i64` tell the integers from the other numbers. A `serde_json::Map` has no key twice.
#[verifier::external_body]
fn open_value(value: Value) -> (layer: Layer)
    ensures
        layer.view() == json_of(value),
        layer.keys_distinct(),
{
    match value {
        Value::Null => Layer::Null,
        Value::Bool(b) => Layer::Bool(b),
        Value::Number(n) => match (n.as_u64(), n.as_i64()) {
            (Some(u), _) => Layer::Unsigned(u),
            (None, Some(i)) => Layer::Signed(i),
            (None, None) => Layer::Other(OtherNumber { number: n }),
        },
        Value::String(s) => Layer::Str(s),
        Value::Array(values) => Layer::Array(values),
        Value::Object(entries) => Layer::Object(entries.into_iter().collect()),
    }
}

/// Puts a `serde_json::Value` together by its variants. Collecting pairs into a
/// `serde_json::Map` keeps the last value of a repeated key.
#[verifier::external_body]
fn close_value(layer: Layer) -> (value: Value)
    ensures
        json_of(value) == layer.view(),
{
    match layer {
        Layer::Null => Value::Null,
        Layer::Bool(b) => Value::Bool(b),
        Layer::Unsigned(n) => Value::Number(Number::from(n)),
        Layer::Signed(n) => Value::Number(Number::from(n)),
        Layer::Other(n) => Value::Number(n.number),
        Layer::Str(s) => Value::String(s),
        Layer::Array(values) => Value::Array(values),
        Layer::Object(entries) => Value::Object(entries.into_iter().collect()),
    }
}

/// `serde_json::from_slice` into a `Value`: the document that the text holds, or
/// the error's message.
#[verifier::external_body]
fn parse_value(text: &[u8]) -> (r: Result<Value, String>)
    ensures
        match r {
            Ok(value) => json_parsed(text@) == Ok::<JsonView, Seq<char>>(json_of(value)),
            Err(message) => json_parsed(text@) == Err::<JsonView, Seq<char>>(message@),
        },
{
    serde_json::from_slice(text).map_err(|e| e.to_string())
}

/// `serde_json::to_string` on a `Value`, which cannot fail. The compact text has
/// no line break: strings are escaped and nothing is put on lines of its own. That of
/// an object starts and ends with a brace. `serde_json` reads the text again as
/// `reads_back` says: numbers with a fraction may come back changed, or be refused when
/// out of range.
#[verifier::external_body]
fn render_value(value: &Value) -> (text: String)
    ensures
        text@ == json_text(json_of(*value)),
        one_line(text@),
        json_of(*value) is Object ==> in_braces(text@),
        reads_back(text@, json_of(*value)),
{
    serde_json::to_string(value).unwrap()
}

/// The pairs of keys and `serde_json::Value`s, as their contents.
spec fn entries_list(entries: Seq<(String, Value)>) -> Seq<(Seq<char>, JsonView)> {
    entries.map_values(|p: (String, Value)| (p.0@, json_of(p.1)))
}

/// `collect_map` of `serde_json::Serializer`, into a `Vec`, which takes every write: the
/// pairs in the order given, each written as `serde_json::to_string` writes its key and
/// its value. What is said of the text of a `Value` holds of this text too, where no key
/// occurs twice.
#[verifier::external_body]
fn render_entries(entries: &Vec<(String, Value)>) -> (text: String)
    ensures
        text@ == object_text(entries_list(entries@)),
        one_line(text@),
        distinct_keys(entries_list(entries@)) ==> reads_back(
            text@,
            JsonView::Object(map_of(entries_list(entries@))),
        ),
{
    let mut out = Vec::new();
    let mut serializer = serde_json::Serializer::new(&mut out);
    (&mut serializer).collect_map(entries.iter().map(|p| (&p.0, &p.1))).unwrap();
    String::from_utf8(out).unwrap()
}

/// `format!` with the `Debug` of `serde_json::Value`.
#[verifier::external_body]
fn debug_value(value: &Value) -> (text: String)
    ensures
        text@ == json_debug(json_of(*value)),
{
    format!("{value:?}")
}

/// `serde_json::StreamDeserializer`: its first `Value`, and its `byte_offset` behind it.
/// White space in front of the value counts as part of it.
#[verifier::external_body]
fn first_value(text: &[u8]) -> (r: Option<(Value, usize)>)
    ensures
        match (leading_value(text@), r) {
            (Some((v, n)), Some((value, offset))) => v == json_of(value) && n == offset && 0
                < offset <= text@.len(),
            (None, None) => true,
            _ => false,
        },
{
    let mut stream = serde_json::Deserializer::from_slice(text).into_iter::<Value>();
    match stream.next() {
        Some(Ok(value)) => Some((value, stream.byte_offset())),
        _ => None,
    }
}

/// The text of the `serde_json::Error` that `serde::de::Error::invalid_type` makes of what
/// the value is, in serde's terms, and of what is expected.
#[verifier::external_body]
fn invalid_type(value: &Value, expected: &str) -> (text: String)
    ensures
        text@ == wrong_type(json_of(*value), expected@),
{
    let found = match value {
        Value::Null => Unexpected::Unit,
        Value::Bool(b) => Unexpected::Bool(*b),
        Value::Number(n) => match (n.as_u64(), n.as_i64()) {
            (Some(u), _) => Unexpected::Unsigned(u),
            (None, Some(i)) => Unexpected::Signed(i),
            (None, None) => Unexpected::Float(n.as_f64().unwrap()),
        },
        Value::String(s) => Unexpected::Str(s),
        Value::Array(_) => Unexpected::Seq,
        Value::Object(_) => Unexpected::Map,
    };
    <serde_json::Error as serde::de::Error>::invalid_type(found, &expected).to_string()
}

/// `serde_json::from_value` into a `String`: only a string is one.
#[verifier::external_body]
fn string_from_value(value: Value) -> (r: Result<String, String>)
    ensures
        match (json_of(value), r) {
            (JsonView::Str(s), Ok(text)) => text@ == s,
            (JsonView::Str(s), Err(_)) => false,
            (_, Ok(_)) => false,
            (other, Err(message)) => message@ == not_a_string(other),
        },
{
    serde_json::from_value(value).map_err(|e| e.to_string())
}

/// `serde_json::from_value` into a `u32`: only an unsigned integer in range is one.
#[verifier::external_body]
fn u32_from_value(value: Value) -> (r: Result<u32, String>)
    ensures
        match (json_of(value), r) {
            (JsonView::Unsigned(n), Ok(m)) => n == m,
            (JsonView::Unsigned(n), Err(message)) => n > u32::MAX && message@ == not_a_u32(
                json_of(value),
            ),
            (_, Ok(_)) => false,
            (other, Err(message)) => message@ == not_a_u32(other),
        },
{
    serde_json::from_value(value).map_err(|e| e.to_string())
}

// ---------------------------------------------------------------------------
// Conversion
// ---------------------------------------------------------------------------

proof fn lemma_entries_child(entries: Seq<(String, Value)>, i: int)
    requires
        0 <= i < entries.len(),
        forall|a: int, b: int| 0 <= a < b < entries.len() ==> entries[a].0@ != entries[b].0@,
    ensures
        entries_view(entries).dom().contains(entries[i].0@),
        entries_view(entries)[entries[i].0@] == json_of(entries[i].1),
    decreases entries.len(),
{
    if i < entries.len() - 1 {
        assert(entries.drop_last()[i] == entries[i]);
        lemma_entries_child(entries.drop_last(), i);
    }
}

fn from_value(value: Value) -> (r: Json)
    ensures
        r@ == json_of(value),
    decreases json_of(value),
{
    match open_value(value) {
        Layer::Null => Json::Null,
        Layer::Bool(b) => Json::Bool(b),
        Layer::Unsigned(n) => Json::Unsigned(n),
        Layer::Signed(n) => Json::Signed(n),
        Layer::Other(n) => Json::Other(n),
        Layer::Str(s) => Json::Str(s),
        Layer::Array(values) => {
            let ghost all = values@;
            let mut rest = lists::reversed(values);
            let mut items: Vec<Json> = Vec::new();
            while rest.len() > 0
                invariant
                    json_of(value) == JsonView::Array(values_view(all)),
                    items@.len() <= all.len(),
                    rest@ == all.skip(items@.len() as int).reverse(),
                    items_view(items@) == values_view(all).take(items@.len() as int),
                decreases rest@.len(),
            {
                let ghost done = items@;
                let item = rest.pop().unwrap();
                assert(item == all[done.len() as int]);
                assert(values_view(all)[done.len() as int] == json_of(item));
                assert(decreases_to!(json_of(value) => json_of(value)->Array_0[done.len() as int]));
                items.push(from_value(item));
                assert(items@.drop_last() =~= done);
                assert(items_view(items@) =~= values_view(all).take(items@.len() as int));
                assert(rest@ =~= all.skip(items@.len() as int).reverse());
            }
            assert(values_view(all).take(items@.len() as int) =~= values_view(all));
            Json::Array(items)
        },
        Layer::Object(entries) => {
            let ghost all = entries@;
            let mut rest = lists::reversed(entries);
            let mut fields: Vec<(String, Json)> = Vec::new();
            assert(all.take(0) =~= Seq::empty());
            while rest.len() > 0
                invariant
                    json_of(value) == JsonView::Object(entries_view(all)),
                    forall|a: int, b: int| 0 <= a < b < all.len() ==> all[a].0@ != all[b].0@,
                    fields@.len() <= all.len(),
                    rest@ == all.skip(fields@.len() as int).reverse(),
                    fields_view(fields@) == entries_view(all.take(fields@.len() as int)),
                decreases rest@.len(),
            {
                let ghost done = fields@;
                let (key, item) = rest.pop().unwrap();
                assert((key, item) == all[done.len() as int]);
                proof {
                    lemma_entries_child(all, done.len() as int);
                    assert(decreases_to!(json_of(value) => json_of(value)->Object_0[key@]));
                }
                fields.push((key, from_value(item)));
                assert(fields@.drop_last() =~= done);
                assert(all.take(fields@.len() as int).drop_last() =~= all.take(done.len() as int));
                assert(rest@ =~= all.skip(fields@.len() as int).reverse());
            }
            assert(all.take(fields@.len() as int) =~= all);
            Json::Object(fields)
        },
    }
}

fn into_value(document: Json) -> (value: Value)
    ensures
        json_of(value) == document@,
    decreases document,
{
    match document {
        Json::Null => close_value(Layer::Null),
        Json::Bool(b) => close_value(Layer::Bool(b)),
        Json::Unsigned(n) => close_value(Layer::Unsigned(n)),
        Json::Signed(n) => close_value(Layer::Signed(n)),
        Json::Other(n) => close_value(Layer::Other(n)),
        Json::Str(s) => close_value(Layer::Str(s)),
        Json::Array(items) => {
            let ghost all = items@;
            let mut rest = lists::reversed(items);
            let mut values: Vec<Value> = Vec::new();
            assert(all.take(0) =~= Seq::empty());
            assert(values_view(values@) =~= Seq::empty());
            while rest.len() > 0
                invariant
                    document == Json::Array(items),
                    all == items@,
                    values@.len() <= all.len(),
                    rest@ == all.skip(values@.len() as int).reverse(),
                    values_view(values@) == items_view(all.take(values@.len() as int)),
                decreases rest@.len(),
            {
                let ghost done = values@;
                let item = rest.pop().unwrap();
                assert(item == all[done.len() as int]);
                assert(decreases_to!(document => document->Array_0@[done.len() as int]));
                values.push(into_value(item));
                assert(all.take(values@.len() as int).drop_last() =~= all.take(done.len() as int));
                assert(values_view(values@) =~= values_view(done).push(item@));
                assert(rest@ =~= all.skip(values@.len() as int).reverse());
            }
            assert(all.take(values@.len() as int) =~= all);
            close_value(Layer::Array(values))
        },
        Json::Object(fields) => {
            let ghost all = fields@;
            let mut rest = lists::reversed(fields);
            let mut entries: Vec<(String, Value)> = Vec::new();
            assert(all.take(0) =~= Seq::empty());
            while rest.len() > 0
                invariant
                    document == Json::Object(fields),
                    all == fields@,
                    entries@.len() <= all.len(),
                    rest@ == all.skip(entries@.len() as int).reverse(),
                    entries_view(entries@) == fields_view(all.take(entries@.len() as int)),
                decreases rest@.len(),
            {
                let ghost done = entries@;
                let (key, item) = rest.pop().unwrap();
                assert((key, item) == all[done.len() as int]);
                assert(decreases_to!(document => document->Object_0@[done.len() as int]));
                entries.push((key, into_value(item)));
                assert(entries@.drop_last() =~= done);
                assert(all.take(entries@.len() as int).drop_last() =~= all.take(done.len() as int));
                assert(rest@ =~= all.skip(entries@.len() as int).reverse());
            }
            assert(all.take(entries@.len() as int) =~= all);
            close_value(Layer::Object(entries))
        },
    }
}

/// Reads a JSON text.
pub fn parse_bytes(text: &[u8]) -> (r: Result<Json, String>)
    ensures
        match r {
            Ok(document) => json_parsed(text@) == Ok::<JsonView, Seq<char>>(document@),
            Err(message) => json_parsed(text@) == Err::<JsonView, Seq<char>>(message@),
        },
{
    match parse_value(text) {
        Ok(value) => Ok(from_value(value)),
        Err(message) => Err(message),
    }
}

/// Reads a JSON text.
pub fn parse(text: &str) -> (r: Result<Json, String>)
    ensures
        match r {
            Ok(document) => json_parsed(vstd::utf8::encode_utf8(text@)) == Ok::<JsonView, Seq<char>>(document@),
            Err(message) => json_parsed(vstd::utf8::encode_utf8(text@)) == Err::<JsonView, Seq<char>>(message@),
        },
{
    parse_bytes(text.as_bytes())
}

/// Reads the value at the front of a text, and tells where it ends.
pub fn read_first(text: &[u8]) -> (r: Option<(Json, usize)>)
    ensures
        match (leading_value(text@), r) {
            (Some((v, n)), Some((document, end))) => v == document@ && n == end && 0 < end
                <= text@.len(),
            (None, None) => true,
            _ => false,
        },
{
    match first_value(text) {
        Some((value, end)) => Some((from_value(value), end)),
        None => None,
    }
}

/// The pairs of keys and documents, as their contents.
pub open spec fn list_view(pairs: Seq<(String, Json)>) -> Seq<(Seq<char>, JsonView)> {
    pairs.map_values(|p: (String, Json)| (p.0@, p.1@))
}

/// Writes an object with its pairs in this order as compact JSON text, on one line.
pub fn render_pairs(pairs: Vec<(String, Json)>) -> (text: String)
    ensures
        text@ == object_text(list_view(pairs@)),
        one_line(text@),
        distinct_keys(list_view(pairs@)) ==> reads_back(
            text@,
            JsonView::Object(map_of(list_view(pairs@))),
        ),
{
    let ghost all = pairs@;
    let mut rest = lists::reversed(pairs);
    let mut entries: Vec<(String, Value)> = Vec::new();
    while rest.len() > 0
        invariant
            entries@.len() <= all.len(),
            rest@ == all.skip(entries@.len() as int).reverse(),
            entries_list(entries@) == list_view(all).take(entries@.len() as int),
        decreases rest@.len(),
    {
        let ghost done = entries@;
        let (key, item) = rest.pop().unwrap();
        assert((key, item) == all[done.len() as int]);
        entries.push((key, into_value(item)));
        assert(entries_list(entries@) =~= list_view(all).take(entries@.len() as int));
        assert(rest@ =~= all.skip(entries@.len() as int).reverse());
    }
    assert(entries_list(entries@) =~= list_view(all));
    render_entries(&entries)
}

impl Json {
    /// Writes the document as compact JSON text, on one line.
    pub fn render(self) -> (text: String)
        ensures
            is_line_of(text@, self@),
    {
        render_value(&into_value(self))
    }

    /// What is wrong with this document where something else is expected.
    pub fn unexpected(self, expected: &str) -> (text: String)
        ensures
            text@ == wrong_type(self@, expected@),
    {
        invalid_type(&into_value(self), expected)
    }

    /// The text that shows this document for debugging.
    pub fn debug(self) -> (text: String)
        ensures
            text@ == json_debug(self@),
    {
        debug_value(&into_value(self))
    }

    /// The string that the document is, or why it is none.
    pub fn into_string(self) -> (r: Result<String, String>)
        ensures
            match (self@, r) {
                (JsonView::Str(s), Ok(text)) => text@ == s,
                (JsonView::Str(s), Err(_)) => false,
                (_, Ok(_)) => false,
                (other, Err(message)) => message@ == not_a_string(other),
            },
    {
        string_from_value(into_value(self))
    }

    /// The `u32` that the document is, or why it is none.
    pub fn into_u32(self) -> (r: Result<u32, String>)
        ensures
            match (self@, r) {
                (JsonView::Unsigned(n), Ok(m)) => n == m,
                (JsonView::Unsigned(n), Err(message)) => n > u32::MAX && message@ == not_a_u32(
                    self@,
                ),
                (_, Ok(_)) => false,
                (other, Err(message)) => message@ == not_a_u32(other),
            },
    {
        u32_from_value(into_value(self))
    }

    /// The value under `key`, where the document is an object that has it.
    pub fn get(&self, key: &str) -> (r: Option<&Json>)
        ensures
            match r {
                Some(value) => field(self@, key@) == Some(value@),
                None => field(self@, key@) is None,
            },
    {
        match self {
            Json::Object(fields) => {
                let mut i: usize = fields.len();
                assert(fields@.take(i as int) =~= fields@);
                while i > 0
                    invariant
                        *self == Json::Object(*fields),
                        i <= fields.len(),
                        field(self@, key@) == field(
                            JsonView::Object(fields_view(fields@.take(i as int))),
                            key@,
                        ),
                    decreases i,
                {
                    assert(fields@.take(i as int).drop_last() =~= fields@.take(i - 1));
                    i = i - 1;
                    if text::same(fields[i].0.as_str(), key) {
                        return Some(&fields[i].1);
                    }
                }
                assert(fields@.take(0) =~= Seq::empty());
                None
            },
            _ => None,
        }
    }

    /// The characters of a string value.
    pub fn as_str(&self) -> (r: Option<&str>)
        ensures
            match r {
                Some(s) => self@ == JsonView::Str(s@),
                None => !(self@ is Str),
            },
    {
        match self {
            Json::Str(s) => Some(s.as_str()),
            _ => None,
        }
    }

    /// The number of an unsigned integer value.
    pub fn as_u64(&self) -> (r: Option<u64>)
        ensures
            r == unsigned_of(Some(self@)),
    {
        match self {
            Json::Unsigned(n) => Some(*n),
            Json::Signed(n) if *n >= 0 => Some(*n as u64),
            _ => None,
        }
    }

    /// The string under `key`.
    pub fn get_str(&self, key: &str) -> (r: Option<&str>)
        ensures
            match r {
                Some(s) => text_of(field(self@, key@)) == Some(s@),
                None => text_of(field(self@, key@)) is None,
            },
    {
        match self.get(key) {
            Some(value) => value.as_str(),
            None => None,
        }
    }

    /// The unsigned integer under `key`.
    pub fn get_u64(&self, key: &str) -> (r: Option<u64>)
        ensures
            r == unsigned_of(field(self@, key@)),
    {
        match self.get(key) {
            Some(value) => value.as_u64(),
            None => None,
        }
    }

    /// Whether `true` stands under `key`.
    pub fn is_true(&self, key: &str) -> (r: bool)
        ensures
            r == (field(self@, key@) == Some(JsonView::Bool(true))),
    {
        match self.get(key) {
            Some(Json::Bool(b)) => *b,
            _ => false,
        }
    }
}

// ---------------------------------------------------------------------------
// Copies
// ---------------------------------------------------------------------------

impl Clone for OtherNumber {
    fn clone(&self) -> (copy: OtherNumber)
        ensures
            copy == *self,
    {
        OtherNumber { number: self.number.clone() }
    }
}

impl Clone for Json {
    fn clone(&self) -> (copy: Json)
        ensures
            copy@ == self@,
        decreases self,
    {
        match self {
            Json::Null => Json::Null,
            Json::Bool(b) => Json::Bool(*b),
            Json::Unsigned(n) => Json::Unsigned(*n),
            Json::Signed(n) => Json::Signed(*n),
            Json::Other(n) => Json::Other(n.clone()),
            Json::Str(s) => Json::Str(s.clone()),
            Json::Array(items) => Json::Array(clone_items(items)),
            Json::Object(fields) => Json::Object(clone_fields(fields)),
        }
    }
}

/// A copy of a list of documents.
fn clone_items(items: &Vec<Json>) -> (copies: Vec<Json>)
    ensures
        items_view(copies@) == items_view(items@),
    decreases items,
{
    let mut copies: Vec<Json> = Vec::new();
    let mut i: usize = 0;
    assert(items@.take(0) =~= Seq::empty());
    while i < items.len()
        invariant
            i <= items.len(),
            copies@.len() == i,
            items_view(copies@) == items_view(items@.take(i as int)),
        decreases items.len() - i,
    {
        let ghost done = copies@;
        assert(decreases_to!(items => items@[i as int]));
        copies.push(items[i].clone());
        i = i + 1;
        assert(copies@.drop_last() =~= done);
        assert(items@.take(i as int).drop_last() =~= items@.take(i - 1));
    }
    assert(items@.take(i as int) =~= items@);
    copies
}

/// A copy of a list of key-value pairs.
pub fn clone_fields(fields: &Vec<(String, Json)>) -> (copies: Vec<(String, Json)>)
    ensures
        fields_view(copies@) == fields_view(fields@),
    decreases fields,
{
    let mut copies: Vec<(String, Json)> = Vec::new();
    let mut i: usize = 0;
    assert(fields@.take(0) =~= Seq::empty());
    while i < fields.len()
        invariant
            i <= fields.len(),
            copies@.len() == i,
            fields_view(copies@) == fields_view(fields@.take(i as int)),
        decreases fields.len() - i,
    {
        let ghost done = copies@;
        assert(decreases_to!(fields => fields@[i as int]));
        copies.push((fields[i].0.clone(), fields[i].1.clone()));
        i = i + 1;
        assert(copies@.drop_last() =~= done);
        assert(fields@.take(i as int).drop_last() =~= fields@.take(i - 1));
    }
    assert(fields@.take(i as int) =~= fields@);
    copies
}

// ---------------------------------------------------------------------------
// Building
// ---------------------------------------------------------------------------

/// An object without fields.
pub open spec fn no_fields() -> Map<Seq<char>, JsonView> {
    Map::empty()
}

/// An optional string, `null` where it is missing.
pub open spec fn optional_text(s: Option<Seq<char>>) -> JsonView {
    match s {
        Some(s) => JsonView::Str(s),
        None => JsonView::Null,
    }
}

/// The fields of an empty object.
pub fn fields() -> (r: Vec<(String, Json)>)
    ensures
        fields_view(r@) == no_fields(),
{
    Vec::new()
}

/// Adds a field.
pub fn with(fields: Vec<(String, Json)>, key: &str, value: Json) -> (r: Vec<(String, Json)>)
    ensures
        fields_view(r@) == fields_view(fields@).insert(key@, value@),
{
    let mut r = fields;
    let ghost done = r@;
    r.push((key.to_owned(), value));
    assert(r@.drop_last() =~= done);
    r
}

/// Adds an item.
pub fn push_item(items: &mut Vec<Json>, item: Json)
    ensures
        items_view(final(items)@) == items_view(old(items)@).push(item@),
        final(items)@.len() == old(items)@.len() + 1,
{
    let ghost done = items@;
    items.push(item);
    assert(items@.drop_last() =~= done);
}

/// A string value.
pub fn text_value(s: &str) -> (r: Json)
    ensures
        r@ == JsonView::Str(s@),
{
    Json::Str(s.to_owned())
}

/// An optional string, `null` where it is missing.
pub fn optional_text_value(s: Option<String>) -> (r: Json)
    ensures
        r@ == optional_text(match s {
            Some(t) => Some(t@),
            None => None,
        }),
{
    match s {
        Some(t) => Json::Str(t),
        None => Json::Null,
    }
}

/// Lists of documents and of their contents are equally long.
pub proof fn lemma_items_view(items: Seq<Json>)
    ensures
        items_view(items).len() == items.len(),
        forall|i: int| 0 <= i < items.len() ==> #[trigger] items_view(items)[i] == items[i]@,
    decreases items.len(),
{
    if items.len() > 0 {
        lemma_items_view(items.drop_last());
        assert forall|i: int| 0 <= i < items.len() implies #[trigger] items_view(items)[i]
            == items[i]@ by {
            if i < items.len() - 1 {
                assert(items_view(items.drop_last())[i] == items.drop_last()[i]@);
            }
        }
    }
}

// ---------------------------------------------------------------------------
// Lists and objects
// ---------------------------------------------------------------------------

/// The strings among some values.
pub open spec fn strings_among(items: Seq<JsonView>) -> Seq<Seq<char>>
    decreases items.len(),
{
    if items.len() == 0 {
        Seq::empty()
    } else {
        match items.last() {
            JsonView::Str(s) => strings_among(items.drop_last()).push(s),
            _ => strings_among(items.drop_last()),
        }
    }
}

/// All of the values are strings.
pub open spec fn all_strings(items: Seq<JsonView>) -> bool {
    forall|i: int| 0 <= i < items.len() ==> #[trigger] items[i] is Str
}

/// The strings among some values, and whether they are all strings.
pub fn collect_strings(items: &Vec<Json>) -> (r: (Vec<String>, bool))
    ensures
        text::texts(r.0@) == strings_among(items_view(items@)),
        r.1 == all_strings(items_view(items@)),
{
    let mut found: Vec<String> = Vec::new();
    let mut all = true;
    let mut i: usize = 0;
    let ghost views = items_view(items@);
    proof {
        lemma_items_view(items@);
    }
    assert(text::texts(found@) =~= Seq::empty());
    assert(views.take(0) =~= Seq::empty());
    while i < items.len()
        invariant
            i <= items.len(),
            views == items_view(items@),
            views.len() == items@.len(),
            forall|k: int| 0 <= k < items@.len() ==> #[trigger] views[k] == items@[k]@,
            text::texts(found@) == strings_among(views.take(i as int)),
            all == all_strings(views.take(i as int)),
        decreases items.len() - i,
    {
        let ghost done = found@;
        assert(views.take(i + 1).drop_last() =~= views.take(i as int));
        assert(views.take(i + 1).last() == items@[i as int]@);
        match items[i].as_str() {
            Some(s) => {
                found.push(s.to_owned());
                assert(text::texts(found@) =~= text::texts(done).push(s@));
                assert(all_strings(views.take(i + 1)) == all) by {
                    if all {
                        assert forall|k: int| 0 <= k < i + 1 implies #[trigger] views.take(
                            i + 1,
                        )[k] is Str by {
                            if k < i {
                                assert(views.take(i as int)[k] is Str);
                            }
                        }
                    } else {
                        let k = choose|k: int|
                            0 <= k < i && !(#[trigger] views.take(i as int)[k] is Str);
                        assert(!(views.take(i + 1)[k] is Str));
                    }
                }
            },
            None => {
                all = false;
                assert(!(views.take(i + 1)[i as int] is Str));
            },
        }
        i = i + 1;
    }
    assert(views.take(i as int) =~= views);
    (found, all)
}

/// Pairs of keys and values, as their contents.
pub open spec fn pairs_view(pairs: Seq<(&str, &Json)>) -> Seq<(Seq<char>, JsonView)> {
    pairs.map_values(|p: (&str, &Json)| (p.0@, p.1@))
}

/// The pairs are those of the object, sorted by key.
pub open spec fn in_key_order(
    pairs: Seq<(Seq<char>, JsonView)>,
    fields: Map<Seq<char>, JsonView>,
) -> bool {
    &&& forall|i: int, j: int|
        0 <= i < j < pairs.len() ==> #[trigger] text::before(pairs[i].0, pairs[j].0)
    &&& forall|i: int|
        0 <= i < pairs.len() ==> fields.dom().contains((#[trigger] pairs[i]).0) && fields[pairs[i].0]
            == pairs[i].1
    &&& forall|k: Seq<char>| #[trigger]
        fields.dom().contains(k) ==> exists|i: int| 0 <= i < pairs.len() && #[trigger] pairs[i].0 == k
}

/// The pairs of an object, sorted by key. There is only one way to sort them: see
/// `lemma_key_ordered`.
pub open spec fn key_ordered(fields: Map<Seq<char>, JsonView>) -> Seq<(Seq<char>, JsonView)> {
    choose|pairs: Seq<(Seq<char>, JsonView)>| in_key_order(pairs, fields)
}

/// Pairs that are sorted by key are those of `key_ordered`.
pub proof fn lemma_key_ordered(
    pairs: Seq<(Seq<char>, JsonView)>,
    fields: Map<Seq<char>, JsonView>,
)
    requires
        in_key_order(pairs, fields),
    ensures
        key_ordered(fields) == pairs,
{
    let other = key_ordered(fields);
    if pairs.len() <= other.len() {
        lemma_same_order(pairs, other, fields, pairs.len() as int);
        lemma_no_longer(pairs, other, fields);
    } else {
        lemma_same_order(other, pairs, fields, other.len() as int);
        lemma_no_longer(other, pairs, fields);
    }
    assert(other =~= pairs);
}

/// Two ways to sort the pairs of an object agree as far as they go.
proof fn lemma_same_order(
    a: Seq<(Seq<char>, JsonView)>,
    b: Seq<(Seq<char>, JsonView)>,
    fields: Map<Seq<char>, JsonView>,
    n: int,
)
    requires
        in_key_order(a, fields),
        in_key_order(b, fields),
        0 <= n <= a.len() <= b.len(),
    ensures
        forall|i: int| 0 <= i < n ==> #[trigger] a[i] == b[i],
    decreases n,
{
    if n > 0 {
        let i = n - 1;
        lemma_same_order(a, b, fields, i);
        assert(fields.dom().contains(a[i].0));
        assert(fields.dom().contains(b[i].0));
        let j = choose|j: int| 0 <= j < b.len() && #[trigger] b[j].0 == a[i].0;
        let k = choose|k: int| 0 <= k < a.len() && #[trigger] a[k].0 == b[i].0;
        text::lemma_before_irreflexive(a[i].0);
        text::lemma_before_irreflexive(b[i].0);
        if j < i {
            assert(a[j] == b[j]);
            assert(text::before(a[j].0, a[i].0));
        }
        if k < i {
            assert(a[k] == b[k]);
            assert(text::before(b[k].0, b[i].0));
        }
        if j > i {
            assert(text::before(b[i].0, b[j].0));
            text::lemma_before_asymmetric(b[i].0, a[i].0);
            if k > i {
                assert(text::before(a[i].0, a[k].0));
            }
        }
        assert(a[i].0 == b[i].0);
        assert(a[i] == b[i]);
    }
}

proof fn lemma_no_longer(
    a: Seq<(Seq<char>, JsonView)>,
    b: Seq<(Seq<char>, JsonView)>,
    fields: Map<Seq<char>, JsonView>,
)
    requires
        in_key_order(a, fields),
        in_key_order(b, fields),
        a.len() <= b.len(),
        forall|i: int| 0 <= i < a.len() ==> #[trigger] a[i] == b[i],
    ensures
        a.len() == b.len(),
{
    if a.len() < b.len() {
        let i = a.len() as int;
        assert(fields.dom().contains(b[i].0));
        let k = choose|k: int| 0 <= k < a.len() && #[trigger] a[k].0 == b[i].0;
        assert(a[k] == b[k]);
        assert(text::before(b[k].0, b[i].0));
        text::lemma_before_irreflexive(b[i].0);
    }
}

/// What an object with distinct keys holds.
pub proof fn lemma_map_of(pairs: Seq<(Seq<char>, JsonView)>)
    requires
        distinct_keys(pairs),
    ensures
        forall|i: int|
            0 <= i < pairs.len() ==> map_of(pairs).dom().contains((#[trigger] pairs[i]).0) && map_of(
                pairs,
            )[pairs[i].0] == pairs[i].1,
        forall|k: Seq<char>| #[trigger]
            map_of(pairs).dom().contains(k) ==> exists|i: int|
                0 <= i < pairs.len() && #[trigger] pairs[i].0 == k,
    decreases pairs.len(),
{
    if pairs.len() > 0 {
        let rest = pairs.drop_last();
        lemma_map_of(rest);
        assert forall|i: int| 0 <= i < pairs.len() implies map_of(pairs).dom().contains(
            (#[trigger] pairs[i]).0,
        ) && map_of(pairs)[pairs[i].0] == pairs[i].1 by {
            if i < rest.len() {
                assert(rest[i] == pairs[i]);
                assert(pairs[i].0 != pairs[pairs.len() - 1].0);
            }
        }
        assert forall|k: Seq<char>| #[trigger] map_of(pairs).dom().contains(k) implies exists|
            i: int,
        | 0 <= i < pairs.len() && #[trigger] pairs[i].0 == k by {
            if k == pairs.last().0 {
                assert(pairs[pairs.len() - 1].0 == k);
            } else {
                assert(map_of(rest).dom().contains(k));
                let i = choose|i: int| 0 <= i < rest.len() && #[trigger] rest[i].0 == k;
                assert(pairs[i].0 == k);
            }
        }
    }
}

/// Where a key stands, or would stand, among sorted pairs.
fn key_position(pairs: &Vec<(&str, &Json)>, key: &str) -> (p: usize)
    requires
        forall|i: int, j: int|
            0 <= i < j < pairs@.len() ==> #[trigger] text::before(
                pairs_view(pairs@)[i].0,
                pairs_view(pairs@)[j].0,
            ),
    ensures
        p <= pairs@.len(),
        forall|i: int| 0 <= i < p ==> text::before(#[trigger] pairs_view(pairs@)[i].0, key@),
        forall|i: int|
            p <= i < pairs@.len() ==> text::before(key@, #[trigger] pairs_view(pairs@)[i].0)
                || i == p && pairs_view(pairs@)[i].0 == key@,
{
    let ghost views = pairs_view(pairs@);
    let mut p: usize = pairs.len();
    while p > 0
        invariant
            p <= pairs@.len(),
            views == pairs_view(pairs@),
            forall|i: int, j: int|
                0 <= i < j < pairs@.len() ==> #[trigger] text::before(views[i].0, views[j].0),
            forall|i: int|
                p <= i < pairs@.len() ==> text::before(key@, #[trigger] views[i].0),
        decreases p,
    {
        assert(views[p - 1].0 == pairs@[p - 1].0@);
        match text::compare(pairs[p - 1].0, key) {
            text::Order::Greater => {
                p = p - 1;
            },
            text::Order::Equal => {
                proof {
                    assert forall|i: int| 0 <= i < p - 1 implies text::before(
                        #[trigger] views[i].0,
                        key@,
                    ) by {
                        assert(text::before(views[i].0, views[p - 1].0));
                    }
                }
                return p - 1;
            },
            text::Order::Less => {
                proof {
                    assert forall|i: int| 0 <= i < p implies text::before(
                        #[trigger] views[i].0,
                        key@,
                    ) by {
                        if i < p - 1 {
                            assert(text::before(views[i].0, views[p - 1].0));
                            text::lemma_before_transitive(views[i].0, views[p - 1].0, key@);
                        }
                    }
                }
                return p;
            },
        }
    }
    p
}

proof fn lemma_key_inserted(
    pairs: Seq<(Seq<char>, JsonView)>,
    fields: Map<Seq<char>, JsonView>,
    p: int,
    key: Seq<char>,
    value: JsonView,
)
    requires
        in_key_order(pairs, fields),
        0 <= p <= pairs.len(),
        forall|i: int| 0 <= i < p ==> text::before(#[trigger] pairs[i].0, key),
        forall|i: int| p <= i < pairs.len() ==> text::before(key, #[trigger] pairs[i].0),
    ensures
        in_key_order(pairs.insert(p, (key, value)), fields.insert(key, value)),
{
    let more = pairs.insert(p, (key, value));
    let grown = fields.insert(key, value);
    assert forall|i: int, j: int| 0 <= i < j < more.len() implies #[trigger] text::before(
        more[i].0,
        more[j].0,
    ) by {
        let a = if i < p {
            i
        } else {
            i - 1
        };
        let b = if j < p {
            j
        } else {
            j - 1
        };
        if i != p && j != p {
            assert(text::before(pairs[a].0, pairs[b].0));
        } else if i == p {
            assert(text::before(key, pairs[b].0));
        } else {
            assert(text::before(pairs[a].0, key));
        }
    }
    assert forall|i: int| 0 <= i < more.len() implies grown.dom().contains((#[trigger] more[i]).0)
        && grown[more[i].0] == more[i].1 by {
        if i != p {
            let a = if i < p {
                i
            } else {
                i - 1
            };
            assert(more[i] == pairs[a]);
            assert(pairs[a].0 != key) by {
                text::lemma_before_irreflexive(key);
            }
        }
    }
    assert forall|k: Seq<char>| #[trigger] grown.dom().contains(k) implies exists|i: int|
        0 <= i < more.len() && #[trigger] more[i].0 == k by {
        if k == key {
            assert(more[p].0 == k);
        } else {
            let a = choose|a: int| 0 <= a < pairs.len() && #[trigger] pairs[a].0 == k;
            let i = if a < p {
                a
            } else {
                a + 1
            };
            assert(more[i].0 == k);
        }
    }
}

proof fn lemma_key_replaced(
    pairs: Seq<(Seq<char>, JsonView)>,
    fields: Map<Seq<char>, JsonView>,
    p: int,
    key: Seq<char>,
    value: JsonView,
)
    requires
        in_key_order(pairs, fields),
        0 <= p < pairs.len(),
        pairs[p].0 == key,
    ensures
        in_key_order(pairs.update(p, (key, value)), fields.insert(key, value)),
{
    let changed = pairs.update(p, (key, value));
    let grown = fields.insert(key, value);
    assert forall|i: int, j: int| 0 <= i < j < changed.len() implies #[trigger] text::before(
        changed[i].0,
        changed[j].0,
    ) by {
        assert(text::before(pairs[i].0, pairs[j].0));
    }
    assert forall|i: int| 0 <= i < changed.len() implies grown.dom().contains(
        (#[trigger] changed[i]).0,
    ) && grown[changed[i].0] == changed[i].1 by {
        if i != p {
            assert(changed[i] == pairs[i]);
            text::lemma_before_irreflexive(key);
            if i < p {
                assert(text::before(pairs[i].0, pairs[p].0));
            } else {
                assert(text::before(pairs[p].0, pairs[i].0));
            }
        }
    }
    assert forall|k: Seq<char>| #[trigger] grown.dom().contains(k) implies exists|i: int|
        0 <= i < changed.len() && #[trigger] changed[i].0 == k by {
        if k == key {
            assert(changed[p].0 == k);
        } else {
            let a = choose|a: int| 0 <= a < pairs.len() && #[trigger] pairs[a].0 == k;
            assert(changed[a].0 == k);
        }
    }
}

impl Json {
    /// The pairs of an object, sorted by key; of a repeated key, the last counts.
    pub fn by_key(&self) -> (r: Option<Vec<(&str, &Json)>>)
        ensures
            match (self@, r) {
                (JsonView::Object(fields), Some(pairs)) => in_key_order(
                    pairs_view(pairs@),
                    fields,
                ),
                (JsonView::Object(_), None) => false,
                (_, Some(_)) => false,
                (_, None) => true,
            },
    {
        let fields = match self {
            Json::Object(fields) => fields,
            _ => {
                return None;
            },
        };
        let mut pairs: Vec<(&str, &Json)> = Vec::new();
        let mut i: usize = 0;
        assert(fields@.take(0) =~= Seq::empty());
        while i < fields.len()
            invariant
                i <= fields@.len(),
                in_key_order(pairs_view(pairs@), fields_view(fields@.take(i as int))),
            decreases fields@.len() - i,
        {
            let key = fields[i].0.as_str();
            let value = &fields[i].1;
            let ghost done = pairs_view(pairs@);
            let ghost so_far = fields_view(fields@.take(i as int));
            assert(fields@.take(i + 1).drop_last() =~= fields@.take(i as int));
            let p: usize = key_position(&pairs, key);
            if p < pairs.len() && text::same(pairs[p].0, key) {
                assert(done[p as int].0 == key@);
                proof {
                    lemma_key_replaced(done, so_far, p as int, key@, value@);
                }
                pairs.set(p, (key, value));
                assert(pairs_view(pairs@) =~= done.update(p as int, (key@, value@)));
            } else {
                proof {
                    if p < pairs@.len() {
                        assert(done[p as int].0 == pairs@[p as int].0@);
                    }
                    lemma_key_inserted(done, so_far, p as int, key@, value@);
                }
                pairs.insert(p, (key, value));
                assert(pairs_view(pairs@) =~= done.insert(p as int, (key@, value@)));
            }
            i = i + 1;
        }
        assert(fields@.take(i as int) =~= fields@);
        Some(pairs)
    }
}

} // verus!
