//! JSON documents: reading a place, writing a place, and building arrays and objects.
use serde_json::value::RawValue;
use std::collections::BTreeMap;
use vstd::prelude::*;
use vstd::string::*;
use vstd::utf8::*;

use crate::assoc;
use crate::codec;
use crate::decimal;
use crate::double;
use crate::double::Real;
use crate::error;
use crate::error::{ErrorV, SkvsError};
use crate::schema::{Value, ValueV};
use crate::text;

verus! {

/// The outermost level of a JSON text; what is inside stays text.
pub enum JsonTop {
    Null,
    Bool(bool),
    Number(String),
    Str(String),
    Array(Vec<String>),
    Object(Vec<(String, String)>),
    Invalid,
}

/// What the outermost level of a JSON text is.
pub enum JsonTopV {
    Null,
    Bool(bool),
    Number(Seq<char>),
    Str(Seq<char>),
    Array(Seq<Seq<char>>),
    Object(Seq<(Seq<char>, Seq<char>)>),
    Invalid,
}

impl View for JsonTop {
    type V = JsonTopV;

    open spec fn view(&self) -> JsonTopV {
        match self {
            JsonTop::Null => JsonTopV::Null,
            JsonTop::Bool(b) => JsonTopV::Bool(*b),
            JsonTop::Number(s) => JsonTopV::Number(s@),
            JsonTop::Str(s) => JsonTopV::Str(s@),
            JsonTop::Array(v) => JsonTopV::Array(v.deep_view()),
            JsonTop::Object(v) => JsonTopV::Object(v.deep_view()),
            JsonTop::Invalid => JsonTopV::Invalid,
        }
    }
}

/// The members of the array that a text is, as `serde_json::from_str` takes it apart: each as
/// raw text. `None` where the text is no array.
pub uninterp spec fn array_parts(s: Seq<char>) -> Option<Seq<Seq<char>>>;

/// Whether a text is one JSON value with no space round it: as the only member of an array it is
/// read back as it is.
pub open spec fn is_member(t: Seq<char>) -> bool {
    array_parts(array_text(seq![t])) == Some(seq![t])
}

/// Calls `serde_json::from_str` for a list of raw values. The contract says that the result is a
/// function of the text, that what is inside is shorter than the whole, and that each part is one
/// value with no space round it.
#[verifier::external_body]
fn read_array(s: &str) -> (r: Option<Vec<String>>)
    ensures
        match r {
            Some(v) => array_parts(s@) == Some(v.deep_view()) && forall|i: int|
                0 <= i < v@.len() ==> (#[trigger] v@[i])@.len() < s@.len() && is_member(v@[i]@),
            None => array_parts(s@) is None,
        },
{
    match serde_json::from_str::<Vec<Box<RawValue>>>(s) {
        Ok(v) => Some(v.iter().map(|x| x.get().to_owned()).collect()),
        Err(_) => None,
    }
}

/// The fields of the object that a text is, as `serde_json::from_str` takes it apart: each with
/// its name and as raw text, in the order of the names. `None` where the text is no object.
pub uninterp spec fn object_parts(s: Seq<char>) -> Option<Seq<(Seq<char>, Seq<char>)>>;

/// Whether fields stand in the order of their names, no name twice.
pub open spec fn in_name_order(o: Seq<(Seq<char>, Seq<char>)>) -> bool {
    forall|i: int, j: int| 0 <= i < j < o.len() ==> text::text_order((#[trigger] o[i]).0, (#[trigger] o[j]).0) < 0
}

/// Whether the value of each field is one JSON value with no space round it.
pub open spec fn has_members(o: Seq<(Seq<char>, Seq<char>)>) -> bool {
    forall|i: int| 0 <= i < o.len() ==> is_member((#[trigger] o[i]).1)
}

/// Calls `serde_json::from_str` for a sorted map of raw values. The contract says that the
/// result is a function of the text, that what is inside is shorter than the whole, that the
/// fields stand in the order of their names and that each value has no space round it.
#[verifier::external_body]
fn read_object(s: &str) -> (r: Option<Vec<(String, String)>>)
    ensures
        match r {
            Some(v) => object_parts(s@) == Some(v.deep_view()) && in_name_order(v.deep_view()) && has_members(v.deep_view())
                && forall|i: int| 0 <= i < v@.len() ==> (#[trigger] v@[i]).1@.len() < s@.len(),
            None => object_parts(s@) is None,
        },
{
    match serde_json::from_str::<BTreeMap<String, Box<RawValue>>>(s) {
        Ok(m) => Some(m.iter().map(|e| (e.0.clone(), e.1.get().to_owned())).collect()),
        Err(_) => None,
    }
}

/// What `serde_json::from_str` makes of a text that is neither an array nor an object; a number
/// as the crate writes it. Anything else is invalid.
pub uninterp spec fn json_leaf(s: Seq<char>) -> JsonTopV;

/// Calls `serde_json::from_str` for a value without parts. The contract says only that the
/// result is a function of the text, and has no parts.
#[verifier::external_body]
fn read_leaf(s: &str) -> (r: JsonTop)
    ensures
        r@ == json_leaf(s@),
        !(r is Array) && !(r is Object),
{
    match serde_json::from_str::<serde_json::Value>(s) {
        Ok(serde_json::Value::Null) => JsonTop::Null,
        Ok(serde_json::Value::Bool(b)) => JsonTop::Bool(b),
        Ok(serde_json::Value::Number(n)) => JsonTop::Number(n.to_string()),
        Ok(serde_json::Value::String(t)) => JsonTop::Str(t),
        _ => JsonTop::Invalid,
    }
}

/// What stands at the outermost level of a text: the members of an array and the fields of an
/// object as raw text.
pub open spec fn json_node(s: Seq<char>) -> JsonTopV {
    match array_parts(s) {
        Some(a) => JsonTopV::Array(a),
        None => match object_parts(s) {
            Some(o) => JsonTopV::Object(o),
            None => json_leaf(s),
        },
    }
}

/// Reads one level of a text.
pub(crate) fn json_top(s: &str) -> (r: JsonTop)
    ensures
        r@ == json_node(s@),
        r@ matches JsonTopV::Array(a) ==> forall|i: int|
            0 <= i < a.len() ==> (#[trigger] a[i]).len() < s@.len() && is_member(a[i]),
        r@ matches JsonTopV::Object(o) ==> in_name_order(o) && has_members(o) && forall|i: int|
            0 <= i < o.len() ==> (#[trigger] o[i]).1.len() < s@.len(),
{
    match read_array(s) {
        Some(v) => {
            let ghost a: Seq<Seq<char>> = v.deep_view();
            assert forall|i: int| 0 <= i < a.len() implies (#[trigger] a[i]).len() < s@.len() && is_member(a[i]) by {
                assert(a[i] == v@[i]@);
            }
            JsonTop::Array(v)
        },
        None => match read_object(s) {
            Some(v) => {
                let ghost o: Seq<(Seq<char>, Seq<char>)> = v.deep_view();
                assert forall|i: int| 0 <= i < o.len() implies (#[trigger] o[i]).1.len() < s@.len() by {
                    assert(o[i].1 == v@[i].1@);
                }
                JsonTop::Object(v)
            },
            None => read_leaf(s),
        },
    }
}

/// What `serde_json` makes of a whole text: its compact form, or the message of the error.
pub uninterp spec fn json_read(s: Seq<char>) -> Result<Seq<char>, Seq<char>>;

/// Calls `serde_json::from_str` and `serde_json::Value::to_string`. The contract says that the
/// result is a function of the text, and that the compact form is one value with no space round
/// it.
#[verifier::external_body]
pub(crate) fn json_compact(s: &str) -> (r: Result<String, String>)
    ensures
        match r {
            Ok(t) => json_read(s@) == Ok::<Seq<char>, Seq<char>>(t@) && is_member(t@),
            Err(t) => json_read(s@) == Err::<Seq<char>, Seq<char>>(t@),
        },
{
    match serde_json::from_str::<serde_json::Value>(s) {
        Ok(v) => Ok(v.to_string()),
        Err(e) => Err(e.to_string()),
    }
}

/// The compact form of the JSON text that bytes hold, where they hold one.
pub uninterp spec fn json_of_bytes(b: Seq<u8>) -> Option<Seq<char>>;

/// Calls `serde_json::from_slice` and `serde_json::Value::to_string`. The contract says that the
/// result is a function of the bytes, and one value with no space round it.
#[verifier::external_body]
pub(crate) fn json_from_bytes(b: &Vec<u8>) -> (r: Option<String>)
    ensures
        r.deep_view() == json_of_bytes(b@),
        r matches Some(t) ==> is_member(t@),
{
    match serde_json::from_slice::<serde_json::Value>(b) {
        Ok(v) => Some(v.to_string()),
        Err(_) => None,
    }
}

/// A character inside a JSON string: a quote, a backslash or a control character is escaped.
pub open spec fn escaped_char(c: char) -> Seq<char> {
    if c == '"' {
        seq!['\\', '"']
    } else if c == '\\' {
        seq!['\\', '\\']
    } else if c == '\u{8}' {
        seq!['\\', 'b']
    } else if c == '\u{c}' {
        seq!['\\', 'f']
    } else if c == '\n' {
        seq!['\\', 'n']
    } else if c == '\r' {
        seq!['\\', 'r']
    } else if c == '\t' {
        seq!['\\', 't']
    } else if 32 > c as int {
        seq!['\\', 'u', '0', '0', codec::hex_digit(c as int / 16), codec::hex_digit(c as int % 16)]
    } else {
        seq![c]
    }
}

/// A text inside a JSON string.
pub open spec fn escaped(s: Seq<char>) -> Seq<char>
    decreases s.len(),
{
    if s.len() == 0 {
        Seq::empty()
    } else {
        escaped(s.drop_last()) + escaped_char(s.last())
    }
}

/// A text as a JSON string, with its quotes and escapes.
pub open spec fn json_quoted(s: Seq<char>) -> Seq<char> {
    seq!['"'] + escaped(s) + seq!['"']
}

/// Whether a text is one JSON value with no space round it, which is read as `leaf`.
pub open spec fn is_leaf(t: Seq<char>, leaf: JsonTopV) -> bool {
    is_member(t) && array_parts(t) is None && object_parts(t) is None && json_leaf(t) == leaf
}

/// Calls `serde_json::Value::to_string` on a string. The contract says what the text is, and
/// that the string is read back from it.
#[verifier::external_body]
pub(crate) fn json_quote(s: &str) -> (r: String)
    ensures
        r@ == json_quoted(s@),
        is_leaf(r@, JsonTopV::Str(s@)),
{
    serde_json::Value::String(s.to_owned()).to_string()
}

/// Calls `serde_json::Value::to_string` on null. The contract says what the text is, and that
/// null is read back from it.
#[verifier::external_body]
fn write_null() -> (r: String)
    ensures
        r@ == "null"@,
        is_leaf(r@, JsonTopV::Null),
{
    serde_json::Value::Null.to_string()
}

/// Calls `serde_json::Number::to_string` on an integer. The contract says that the text is the
/// decimal one, and that the number is read back from it.
#[verifier::external_body]
fn write_integer(i: i64) -> (r: String)
    ensures
        r@ == text::int_text(i as int),
        is_leaf(r@, JsonTopV::Number(r@)),
{
    serde_json::Number::from(i).to_string()
}

/// The value of a JSON number: an integer where it is one that fits, else a double.
pub open spec fn number_value(t: Seq<char>) -> Option<ValueV> {
    match text::int_of_text(t) {
        Some(i) => Some(ValueV::Integer(i as i64)),
        None => match decimal::real_of_text(t) {
            Some(b) => Some(ValueV::Real(b)),
            None => None,
        },
    }
}

pub fn read_number(t: &str) -> (r: Option<Value>)
    ensures
        r.deep_view() == number_value(t@),
{
    match text::parse_int(t) {
        Some(i) => Some(Value::Integer(i)),
        None => match decimal::parse_real(t) {
            Some(b) => Some(Value::Real(b)),
            None => None,
        },
    }
}

/// The bytes of the compact form of a JSON text; none where it has none.
pub open spec fn document_bytes(s: Seq<char>) -> Seq<u8> {
    match json_read(s) {
        Ok(t) => encode_utf8(t),
        Err(_) => Seq::empty(),
    }
}

pub fn document(s: &str) -> (r: Vec<u8>)
    ensures
        r@ == document_bytes(s@),
{
    match json_compact(s) {
        Ok(t) => codec::text_bytes(t.as_str()),
        Err(_) => Vec::new(),
    }
}

/// The value of a JSON text: arrays and objects as the bytes of their compact form.
pub open spec fn node_value(s: Seq<char>) -> ValueV {
    match json_node(s) {
        JsonTopV::Null | JsonTopV::Invalid => ValueV::Null,
        JsonTopV::Bool(b) => ValueV::Integer(if b {
            1
        } else {
            0
        }),
        JsonTopV::Number(t) => match number_value(t) {
            Some(v) => v,
            None => ValueV::Null,
        },
        JsonTopV::Str(t) => ValueV::Text(t),
        JsonTopV::Array(_) | JsonTopV::Object(_) => ValueV::Blob(document_bytes(s)),
    }
}

fn json_value_to_skvs(s: &str) -> (r: Value)
    ensures
        r@ == node_value(s@),
{
    match json_top(s) {
        JsonTop::Null => Value::Null,
        JsonTop::Invalid => Value::Null,
        JsonTop::Bool(b) => Value::Integer(if b {
            1
        } else {
            0
        }),
        JsonTop::Number(t) => match read_number(t.as_str()) {
            Some(v) => v,
            None => Value::Null,
        },
        JsonTop::Str(t) => Value::Text(t),
        JsonTop::Array(_) => Value::Blob(document(s)),
        JsonTop::Object(_) => Value::Blob(document(s)),
    }
}

/// What `serde_json` writes for the double that a decimal text stands for. `None` where the text
/// stands for none, or for one that is not finite.
pub uninterp spec fn number_text(t: Seq<char>) -> Option<Seq<char>>;

/// Calls `serde_json::Number::from_f64` on the double that `str::parse` makes of a decimal text,
/// and its `to_string`. The contract says that the result is a function of the text, and one
/// value with no space round it.
#[verifier::external_body]
fn write_number(t: &str) -> (r: Option<String>)
    ensures
        r.deep_view() == number_text(t@),
        r matches Some(n) ==> is_member(n@),
{
    match t.parse() {
        Ok(x) => serde_json::Number::from_f64(x).map(|n| n.to_string()),
        Err(_) => None,
    }
}

/// The JSON text of a finite double.
pub open spec fn real_json(b: u64) -> Seq<char> {
    match number_text(decimal::real_text(b)) {
        Some(t) => t,
        None => "null"@,
    }
}

/// The JSON text of a value: bytes that hold a JSON text as that text, others in base64.
pub open spec fn value_json(v: ValueV) -> Seq<char> {
    match v {
        ValueV::Null => "null"@,
        ValueV::Integer(i) => text::int_text(i as int),
        ValueV::Real(b) => if double::is_finite(b) {
            real_json(b)
        } else {
            "null"@
        },
        ValueV::Text(s) => json_quoted(s),
        ValueV::Blob(b) => match json_of_bytes(b) {
            Some(t) => t,
            None => json_quoted(codec::base64_text(b)),
        },
    }
}

fn real_to_json(x: Real) -> (r: String)
    ensures
        r@ == real_json(x.bits),
        is_member(r@),
{
    let t = decimal::real_to_text(x);
    match write_number(t.as_str()) {
        Some(n) => n,
        None => write_null(),
    }
}

/// Whether a value has a JSON text of its own: null, an integer or a text.
pub open spec fn is_plain(v: ValueV) -> bool {
    v is Null || v is Integer || v is Text
}

pub proof fn lemma_int_read(i: i64)
    ensures
        number_value(text::int_text(i as int)) == Some(ValueV::Integer(i)),
{
    let t = text::int_text(i as int);
    let n = if i < 0 {
        -(i as int)
    } else {
        i as int
    };
    text::lemma_nat_text(n as nat);
    if i < 0 {
        assert(t.drop_first() =~= text::nat_text(n as nat));
    } else {
        assert(text::is_digit(t[0]));
    }
}

fn skvs_value_to_json(v: &Value) -> (r: String)
    ensures
        r@ == value_json(v@),
        is_member(r@),
        is_plain(v@) ==> node_value(r@) == v@,
{
    match v {
        Value::Null => write_null(),
        Value::Integer(i) => {
            proof {
                lemma_int_read(*i);
            }
            write_integer(*i)
        },
        Value::Real(x) => if x.finite() {
            real_to_json(*x)
        } else {
            write_null()
        },
        Value::Text(s) => json_quote(s.as_str()),
        Value::Blob(b) => match json_from_bytes(b) {
            Some(t) => t,
            None => {
                let t = codec::base64_encode(b);
                json_quote(t.as_str())
            },
        },
    }
}

/// A path without its leading `$` and the point behind it.
pub open spec fn plain_path(path: Seq<char>) -> Seq<char> {
    let p = if path.len() > 0 && path[0] == '$' {
        path.drop_first()
    } else {
        path
    };
    if p.len() > 0 && p[0] == '.' {
        p.drop_first()
    } else {
        p
    }
}

fn read_path(path: &str) -> (r: String)
    ensures
        r@ == plain_path(path@),
{
    let cs = text::chars_of(path);
    let mut from: usize = 0;
    if cs.len() > 0 && cs[0] == '$' {
        from = 1;
    }
    let ghost p1 = if path@.len() > 0 && path@[0] == '$' {
        path@.drop_first()
    } else {
        path@
    };
    assert(cs@.subrange(from as int, cs@.len() as int) =~= p1);
    if from < cs.len() && cs[from] == '.' {
        assert(p1[0] == '.');
        from = from + 1;
    } else {
        assert(p1.len() > 0 ==> p1[0] == cs@[from as int]);
    }
    assert(cs@.subrange(from as int, cs@.len() as int) =~= plain_path(path@));
    text::slice_text(&cs, from, cs.len())
}

/// Whether a part of a path names an array member.
pub open spec fn is_index_part(part: Seq<char>) -> bool {
    part.len() > 0 && part[0] == '[' && part.last() == ']'
}

/// The index that such a part holds, where it holds one.
pub open spec fn part_index(part: Seq<char>) -> Option<int> {
    text::index_of_text(part.subrange(1, part.len() - 1))
}

/// The value at the parts of a path from `i` on.
pub open spec fn value_at(s: Seq<char>, parts: Seq<Seq<char>>, i: int) -> Result<ValueV, ErrorV>
    decreases parts.len() - i,
{
    if i < 0 || i >= parts.len() {
        Ok(node_value(s))
    } else if is_index_part(parts[i]) {
        match part_index(parts[i]) {
            None => Err(ErrorV::Json("Invalid array index"@)),
            Some(k) => match json_node(s) {
                JsonTopV::Array(a) => if k < a.len() {
                    value_at(a[k], parts, i + 1)
                } else {
                    Ok(ValueV::Null)
                },
                _ => Ok(ValueV::Null),
            },
        }
    } else {
        match json_node(s) {
            JsonTopV::Object(o) => match assoc::assoc_get(o, parts[i]) {
                Some(t) => value_at(t, parts, i + 1),
                None => Ok(ValueV::Null),
            },
            _ => Ok(ValueV::Null),
        }
    }
}

/// What a path gives of a JSON document.
pub open spec fn extracted(s: Seq<char>, path: Seq<char>) -> Result<ValueV, ErrorV> {
    match json_read(s) {
        Err(e) => Err(ErrorV::Json("Invalid JSON: "@ + e)),
        Ok(_) => {
            let p = plain_path(path);
            if p.len() == 0 {
                Ok(node_value(s))
            } else {
                value_at(s, text::split_on(p, '.'), 0)
            }
        },
    }
}

fn index_part(part: &str) -> (r: Option<Option<usize>>)
    ensures
        match r {
            None => !is_index_part(part@),
            Some(k) => is_index_part(part@) && match k {
                Some(n) => part_index(part@) == Some(n as int),
                None => part_index(part@) is None,
            },
        },
{
    let cs = text::chars_of(part);
    let n: usize = cs.len();
    if n > 0 && cs[0] == '[' && cs[n - 1] == ']' {
        assert(n >= 2) by {
            if n == 1 {
                assert(cs@[0] == '[' && cs@[0] == ']');
            }
        }
        let inner = text::slice_text(&cs, 1, n - 1);
        Some(text::parse_index(inner.as_str()))
    } else {
        None
    }
}

/// The position of a field in a list of fields.
pub(crate) fn find_field(o: &Vec<(String, String)>, k: &str) -> (r: Option<usize>)
    ensures
        match r {
            Some(i) => i < o@.len() && o.deep_view()[i as int].0 == k@ && assoc::assoc_get(o.deep_view(), k@)
                == Some(o.deep_view()[i as int].1) && assoc::assoc_put_at(o.deep_view(), k@, i as int),
            None => assoc::assoc_get(o.deep_view(), k@) is None && forall|j: int|
                0 <= j < o@.len() ==> (#[trigger] o.deep_view()[j]).0 != k@,
        },
{
    let ghost v = o.deep_view();
    let mut i: usize = 0;
    while i < o.len()
        invariant
            i <= o@.len(),
            v == o.deep_view(),
            forall|j: int| 0 <= j < i ==> (#[trigger] v[j]).0 != k@,
        decreases o@.len() - i,
    {
        if text::text_eq(o[i].0.as_str(), k) {
            proof {
                assert(v[i as int].0 == k@);
                assoc::lemma_get_at(v, k@, i as int);
            }
            return Some(i);
        }
        assert(v[i as int].0 != k@);
        i = i + 1;
    }
    proof {
        assoc::lemma_get_absent(v, k@);
    }
    None
}

/// Extract a value from a JSON string using a JSON path.
pub fn json_extract(json_str: &str, path: &str) -> (r: Result<Value, SkvsError>)
    ensures
        error::outcome(r) == extracted(json_str@, path@),
{
    match json_compact(json_str) {
        Err(e) => {
            return Err(SkvsError::Json(text::text2("Invalid JSON: ", e.as_str())));
        },
        Ok(_) => {},
    }
    let plain = read_path(path);
    proof {
        reveal_strlit("");
    }
    assert(plain@.len() == 0 ==> plain@ =~= ""@);
    if text::text_eq(plain.as_str(), "") {
        return Ok(json_value_to_skvs(json_str));
    }
    let parts = text::split(plain.as_str(), '.');
    let ghost pv = parts.deep_view();
    let mut current: String = json_str.to_owned();
    let mut i: usize = 0;
    while i < parts.len()
        invariant
            i <= parts@.len(),
            pv == parts.deep_view(),
            value_at(current@, pv, i as int) == value_at(json_str@, pv, 0),
            extracted(json_str@, path@) == value_at(json_str@, pv, 0),
        decreases parts@.len() - i,
    {
        let part = parts[i].as_str();
        assert(pv[i as int] == part@);
        let top = json_top(current.as_str());
        match index_part(part) {
            Some(None) => {
                return Err(SkvsError::Json("Invalid array index".to_owned()));
            },
            Some(Some(k)) => match top {
                JsonTop::Array(a) => {
                    if k < a.len() {
                        assert(a.deep_view()[k as int] == a@[k as int]@);
                        current = a[k].clone();
                    } else {
                        return Ok(Value::Null);
                    }
                },
                _ => {
                    return Ok(Value::Null);
                },
            },
            None => match top {
                JsonTop::Object(o) => {
                    match find_field(&o, part) {
                        Some(k) => {
                            assert(o.deep_view()[k as int].1 == o@[k as int].1@);
                            current = o[k].1.clone();
                        },
                        None => {
                            return Ok(Value::Null);
                        },
                    }
                },
                _ => {
                    return Ok(Value::Null);
                },
            },
        }
        i = i + 1;
    }
    Ok(json_value_to_skvs(current.as_str()))
}

/// The JSON texts of values, in order.
pub open spec fn value_texts(v: Seq<ValueV>) -> Seq<Seq<char>> {
    Seq::new(v.len(), |i: int| value_json(v[i]))
}

/// The text of an array with these members.
pub open spec fn array_text(items: Seq<Seq<char>>) -> Seq<char> {
    "["@ + text::joined(items, ","@) + "]"@
}

/// The fields of an object, each with its name.
pub open spec fn field_texts(o: Seq<(Seq<char>, Seq<char>)>) -> Seq<Seq<char>> {
    Seq::new(o.len(), |i: int| json_quoted(o[i].0) + ":"@ + o[i].1)
}

/// The text of an object with these fields.
pub open spec fn object_text(o: Seq<(Seq<char>, Seq<char>)>) -> Seq<char> {
    "{"@ + text::joined(field_texts(o), ","@) + "}"@
}

/// The fields of an object with one more, or another value for one that is there. Fields stand in
/// the order of their names.
pub open spec fn field_put(o: Seq<(Seq<char>, Seq<char>)>, k: Seq<char>, v: Seq<char>) -> Seq<(Seq<char>, Seq<char>)>
    decreases o.len(),
{
    if o.len() == 0 || text::text_order(k, o[0].0) < 0 {
        seq![(k, v)] + o
    } else if text::text_order(k, o[0].0) == 0 {
        seq![(k, v)] + o.drop_first()
    } else {
        seq![o[0]] + field_put(o.drop_first(), k, v)
    }
}

proof fn lemma_field_put(o: Seq<(Seq<char>, Seq<char>)>, k: Seq<char>, v: Seq<char>, i: int)
    requires
        0 <= i <= o.len(),
        forall|j: int| 0 <= j < i ==> text::text_order(k, (#[trigger] o[j]).0) > 0,
    ensures
        field_put(o, k, v) == o.take(i) + field_put(o.skip(i), k, v),
    decreases i,
{
    if i > 0 {
        let d = o.drop_first();
        assert forall|j: int| 0 <= j < i - 1 implies text::text_order(k, (#[trigger] d[j]).0) > 0 by {
            assert(d[j] == o[j + 1]);
        }
        assert(text::text_order(k, o[0].0) > 0);
        lemma_field_put(d, k, v, i - 1);
        assert(d.skip(i - 1) =~= o.skip(i));
        assert(seq![o[0]] + d.take(i - 1) =~= o.take(i));
        assert(seq![o[0]] + (d.take(i - 1) + field_put(o.skip(i), k, v)) =~= o.take(i) + field_put(o.skip(i), k, v));
    } else {
        assert(o.skip(0) =~= o);
        assert(o.take(0) + field_put(o, k, v) =~= field_put(o, k, v));
    }
}

proof fn lemma_same_order(a: Seq<int>, b: Seq<int>, i: int)
    requires
        0 <= i <= a.len(),
        i <= b.len(),
        text::item_order(a, b, i) == 0,
    ensures
        a.len() == b.len(),
        forall|j: int| i <= j < a.len() ==> a[j] == b[j],
    decreases a.len() - i,
{
    if i < a.len() && i < b.len() {
        lemma_same_order(a, b, i + 1);
    }
}

/// Texts that stand level in the order are the same.
proof fn lemma_same_text(a: Seq<char>, b: Seq<char>)
    requires
        text::text_order(a, b) == 0,
    ensures
        a == b,
{
    lemma_same_order(text::codes(a), text::codes(b), 0);
    assert forall|i: int| 0 <= i < a.len() implies a[i] == b[i] by {
        assert(text::codes(a)[i] == text::codes(b)[i]);
    }
    assert(a =~= b);
}

proof fn lemma_text_before(a: Seq<char>, b: Seq<char>, c: Seq<char>)
    requires
        text::text_order(a, b) < 0,
        text::text_order(b, c) < 0,
    ensures
        text::text_order(a, c) < 0,
{
    text::lemma_item_order_transitive(text::codes(a), text::codes(b), text::codes(c), 0);
    if text::text_order(a, c) == 0 {
        lemma_same_text(a, c);
        text::lemma_item_order_reverse(text::codes(a), text::codes(b), 0);
    }
}

/// A field that was put is there, and the fields stay in order.
proof fn lemma_field_there(o: Seq<(Seq<char>, Seq<char>)>, k: Seq<char>, v: Seq<char>)
    requires
        in_name_order(o),
        has_members(o),
        is_member(v),
    ensures
        in_name_order(field_put(o, k, v)),
        has_members(field_put(o, k, v)),
        assoc::assoc_get(field_put(o, k, v), k) == Some(v),
        forall|i: int|
            0 <= i < field_put(o, k, v).len() ==> (#[trigger] field_put(o, k, v)[i]).0 == k || exists|j: int|
                0 <= j < o.len() && o[j].0 == field_put(o, k, v)[i].0,
    decreases o.len(),
{
    let p = field_put(o, k, v);
    let d = if o.len() == 0 {
        Seq::empty()
    } else {
        o.drop_first()
    };
    assert forall|i: int, j: int| 0 <= i < j < d.len() implies text::text_order((#[trigger] d[i]).0, (#[trigger] d[j]).0) < 0 by {
        assert(d[i] == o[i + 1] && d[j] == o[j + 1]);
    }
    assert forall|i: int| 0 <= i < d.len() implies is_member((#[trigger] d[i]).1) by {
        assert(d[i] == o[i + 1]);
    }
    if o.len() == 0 || text::text_order(k, o[0].0) < 0 {
        assert(p == seq![(k, v)] + o);
        assert forall|i: int, j: int| 0 <= i < j < p.len() implies text::text_order((#[trigger] p[i]).0, (#[trigger] p[j]).0)
            < 0 by {
            assert(p[j] == o[j - 1]);
            if i == 0 {
                if j > 1 {
                    lemma_text_before(k, o[0].0, o[j - 1].0);
                }
            } else {
                assert(p[i] == o[i - 1]);
            }
        }
        assert forall|i: int| 0 <= i < p.len() implies is_member((#[trigger] p[i]).1) by {
            if i > 0 {
                assert(p[i] == o[i - 1]);
            }
        }
        assert forall|i: int| 0 <= i < p.len() implies (#[trigger] p[i]).0 == k || exists|j: int|
            0 <= j < o.len() && o[j].0 == p[i].0 by {
            if i > 0 {
                assert(o[i - 1].0 == p[i].0);
            }
        }
    } else if text::text_order(k, o[0].0) == 0 {
        lemma_same_text(k, o[0].0);
        assert(p == seq![(k, v)] + d);
        assert forall|i: int, j: int| 0 <= i < j < p.len() implies text::text_order((#[trigger] p[i]).0, (#[trigger] p[j]).0)
            < 0 by {
            assert(p[j] == o[j]);
            assert(p[i].0 == o[i].0);
        }
        assert forall|i: int| 0 <= i < p.len() implies is_member((#[trigger] p[i]).1) by {
            if i > 0 {
                assert(p[i] == o[i]);
            }
        }
        assert forall|i: int| 0 <= i < p.len() implies (#[trigger] p[i]).0 == k || exists|j: int|
            0 <= j < o.len() && o[j].0 == p[i].0 by {
            if i > 0 {
                assert(o[i].0 == p[i].0);
            }
        }
    } else {
        lemma_field_there(d, k, v);
        let q = field_put(d, k, v);
        assert(p == seq![o[0]] + q);
        text::lemma_item_order_reverse(text::codes(k), text::codes(o[0].0), 0);
        assert(p.drop_first() =~= q);
        text::lemma_item_order_same(text::codes(k), 0);
        assert forall|i: int| 0 <= i < q.len() implies text::text_order(o[0].0, (#[trigger] q[i]).0) < 0 by {
            if q[i].0 != k {
                let j = choose|j: int| 0 <= j < d.len() && d[j].0 == q[i].0;
                assert(d[j] == o[j + 1]);
            }
        }
        assert forall|i: int, j: int| 0 <= i < j < p.len() implies text::text_order((#[trigger] p[i]).0, (#[trigger] p[j]).0)
            < 0 by {
            assert(p[j] == q[j - 1]);
            if i > 0 {
                assert(p[i] == q[i - 1]);
            }
        }
        assert forall|i: int| 0 <= i < p.len() implies is_member((#[trigger] p[i]).1) by {
            if i > 0 {
                assert(p[i] == q[i - 1]);
            } else {
                assert(p[0] == o[0]);
            }
        }
        assert forall|i: int| 0 <= i < p.len() implies (#[trigger] p[i]).0 == k || exists|j: int|
            0 <= j < o.len() && o[j].0 == p[i].0 by {
            if i > 0 {
                assert(p[i] == q[i - 1]);
                if q[i - 1].0 != k {
                    let j = choose|j: int| 0 <= j < d.len() && d[j].0 == q[i - 1].0;
                    assert(o[j + 1].0 == p[i].0);
                }
            } else {
                assert(o[0].0 == p[0].0);
            }
        }
    }
}

fn put_field(o: &mut Vec<(String, String)>, k: &str, v: String)
    ensures
        final(o).deep_view() == field_put(old(o).deep_view(), k@, v@),
{
    let ghost ov: Seq<(Seq<char>, Seq<char>)> = o.deep_view();
    let ghost vv = v@;
    let mut i: usize = 0;
    let mut c: i8 = 1;
    while i < o.len() && c > 0
        invariant
            i <= o@.len(),
            ov == o.deep_view(),
            ov.len() == o@.len(),
            forall|j: int| 0 <= j < i ==> text::text_order(k@, (#[trigger] ov[j]).0) > 0,
            c <= 0 ==> i < o@.len() && c == text::text_order(k@, ov[i as int].0),
        decreases (if c > 0 { o@.len() - i + 1 } else { 0 }),
    {
        assert(ov[i as int].0 == o@[i as int].0@);
        c = text::order_texts(k, o[i].0.as_str());
        if c > 0 {
            i = i + 1;
        }
    }
    proof {
        lemma_field_put(ov, k@, vv, i as int);
    }
    if i < o.len() && c == 0 {
        assert(ov.skip(i as int)[0] == ov[i as int]);
        o.set(i, (k.to_owned(), v));
        assert(o.deep_view() =~= ov.update(i as int, (k@, vv)));
        assert(ov.skip(i as int).drop_first() =~= ov.skip(i + 1));
        assert(ov.update(i as int, (k@, vv)) =~= ov.take(i as int) + (seq![(k@, vv)] + ov.skip(i + 1)));
    } else {
        assert(i < ov.len() ==> ov.skip(i as int)[0] == ov[i as int]);
        o.insert(i, (k.to_owned(), v));
        assert(o.deep_view() =~= ov.insert(i as int, (k@, vv)));
        assert(ov.insert(i as int, (k@, vv)) =~= ov.take(i as int) + (seq![(k@, vv)] + ov.skip(i as int)));
    }
}

/// Calls `serde_json::to_string` on a list of raw values. The contract says what the text is, and
/// that the members are read back from it.
#[verifier::external_body]
fn write_array(items: &Vec<String>) -> (r: String)
    requires
        forall|i: int| 0 <= i < items@.len() ==> is_member((#[trigger] items@[i])@),
    ensures
        r@ == array_text(items.deep_view()),
        array_parts(r@) == Some(items.deep_view()),
        is_member(r@),
{
    let raw: Vec<Option<&RawValue>> = items.iter().map(|t| serde_json::from_str(t).ok()).collect();
    serde_json::to_string(&raw).unwrap_or_default()
}

/// Calls `serde_json::to_string` on a sorted map of raw values. The contract says what the text
/// is, and that the fields are read back from it.
#[verifier::external_body]
fn write_object(o: &Vec<(String, String)>) -> (r: String)
    requires
        in_name_order(o.deep_view()),
        has_members(o.deep_view()),
    ensures
        r@ == object_text(o.deep_view()),
        object_parts(r@) == Some(o.deep_view()),
        array_parts(r@) is None,
        is_member(r@),
{
    let raw: BTreeMap<&str, Option<&RawValue>> =
        o.iter().map(|f| (f.0.as_str(), serde_json::from_str(&f.1).ok())).collect();
    serde_json::to_string(&raw).unwrap_or_default()
}

/// Create a JSON array.
pub fn json_array(values: &Vec<Value>) -> (r: Result<String, SkvsError>)
    ensures
        error::outcome(r) == Ok::<Seq<char>, ErrorV>(array_text(value_texts(values.deep_view()))),
{
    let mut items: Vec<String> = Vec::new();
    let mut i: usize = 0;
    while i < values.len()
        invariant
            i <= values@.len(),
            items@.len() == i,
            forall|j: int| 0 <= j < i ==> (#[trigger] items@[j])@ == value_json(values@[j]@) && is_member(items@[j]@),
        decreases values@.len() - i,
    {
        items.push(skvs_value_to_json(&values[i]));
        i = i + 1;
    }
    assert(items.deep_view() =~= value_texts(values.deep_view()));
    Ok(write_array(&items))
}

/// The fields that the first `n` keys and values make; a key that comes again has its last value.
pub open spec fn field_list(keys: Seq<Seq<char>>, values: Seq<ValueV>, n: int) -> Seq<(Seq<char>, Seq<char>)>
    decreases n,
{
    if n <= 0 || n > keys.len() || n > values.len() {
        Seq::empty()
    } else {
        field_put(field_list(keys, values, n - 1), keys[n - 1], value_json(values[n - 1]))
    }
}

/// The object that keys and values make.
pub open spec fn object_of(keys: Seq<Seq<char>>, values: Seq<ValueV>) -> Result<Seq<char>, ErrorV> {
    if keys.len() != values.len() {
        Err(ErrorV::Json("Keys and values length mismatch"@))
    } else {
        Ok(object_text(field_list(keys, values, keys.len() as int)))
    }
}

/// Create a JSON object.
pub fn json_object(keys: &Vec<String>, values: &Vec<Value>) -> (r: Result<String, SkvsError>)
    ensures
        error::outcome(r) == object_of(keys.deep_view(), values.deep_view()),
{
    if keys.len() != values.len() {
        return Err(SkvsError::Json("Keys and values length mismatch".to_owned()));
    }
    let ghost kv: Seq<Seq<char>> = keys.deep_view();
    let ghost vv = values.deep_view();
    let mut fields: Vec<(String, String)> = Vec::new();
    let mut i: usize = 0;
    assert(fields.deep_view() =~= field_list(kv, vv, 0));
    while i < keys.len()
        invariant
            i <= keys@.len(),
            keys@.len() == values@.len(),
            kv == keys.deep_view(),
            vv == values.deep_view(),
            fields.deep_view() == field_list(kv, vv, i as int),
            in_name_order(fields.deep_view()),
            has_members(fields.deep_view()),
        decreases keys@.len() - i,
    {
        assert(kv[i as int] == keys@[i as int]@ && vv[i as int] == values@[i as int]@);
        let t = skvs_value_to_json(&values[i]);
        proof {
            lemma_field_there(fields.deep_view(), keys@[i as int]@, t@);
        }
        put_field(&mut fields, keys[i].as_str(), t);
        i = i + 1;
    }
    Ok(write_object(&fields))
}

/// The document with `v` at the parts of a path from `i` on; missing objects on the way are
/// made.
pub open spec fn set_at(s: Seq<char>, parts: Seq<Seq<char>>, i: int, v: Seq<char>) -> Result<Seq<char>, ErrorV>
    decreases parts.len() - i,
{
    if i < 0 || i >= parts.len() {
        Ok(v)
    } else {
        let last = i + 1 == parts.len();
        if is_index_part(parts[i]) {
            match part_index(parts[i]) {
                None => Err(ErrorV::Json("Invalid array index"@)),
                Some(k) => match json_node(s) {
                    JsonTopV::Array(a) => if k < a.len() {
                        match set_at(a[k], parts, i + 1, v) {
                            Ok(t) => Ok(array_text(a.update(k, t))),
                            Err(e) => Err(e),
                        }
                    } else {
                        Err(ErrorV::Json("Array index out of bounds"@))
                    },
                    _ => if last {
                        Err(ErrorV::Json("Target is not an array"@))
                    } else {
                        Err(ErrorV::Json("Path not an array"@))
                    },
                },
            }
        } else {
            match json_node(s) {
                JsonTopV::Object(o) => {
                    let inner = match assoc::assoc_get(o, parts[i]) {
                        Some(t) => t,
                        None => "{}"@,
                    };
                    match set_at(inner, parts, i + 1, v) {
                        Ok(t) => Ok(object_text(field_put(o, parts[i], t))),
                        Err(e) => Err(e),
                    }
                },
                _ => if last {
                    Err(ErrorV::Json("Target is not an object"@))
                } else {
                    Err(ErrorV::Json("Path not an object"@))
                },
            }
        }
    }
}

/// Whether a path starts at the root.
pub open spec fn from_root(path: Seq<char>) -> bool {
    path.len() > 0 && path[0] == '$'
}

/// The path of a place to write: without a leading `$` and the point behind it.
pub open spec fn place_path(path: Seq<char>) -> Seq<char> {
    if from_root(path) {
        plain_path(path)
    } else {
        path
    }
}

/// What setting a value at a path makes of a document. Nothing can be set at the root itself.
pub open spec fn with_value(s: Seq<char>, path: Seq<char>, v: ValueV) -> Result<Seq<char>, ErrorV> {
    match json_read(s) {
        Err(e) => Err(ErrorV::Json("Invalid JSON: "@ + e)),
        Ok(c) => if from_root(path) && place_path(path).len() == 0 {
            Err(ErrorV::Json("Empty path"@))
        } else {
            set_at(c, text::split_on(place_path(path), '.'), 0, value_json(v))
        },
    }
}

/// Whether a path names the same place for reading and for writing.
pub open spec fn is_place(path: Seq<char>) -> bool {
    from_root(path) || (path.len() > 0 && path[0] != '.')
}

fn set_from(s: &str, parts: &Vec<String>, i: usize, v: &str) -> (r: Result<String, SkvsError>)
    requires
        i <= parts@.len(),
        is_member(v@),
    ensures
        error::outcome(r) == set_at(s@, parts.deep_view(), i as int, v@),
        r matches Ok(t) ==> is_member(t@) && value_at(t@, parts.deep_view(), i as int) == Ok::<ValueV, ErrorV>(
            node_value(v@),
        ),
    decreases parts@.len() - i,
{
    let ghost pv = parts.deep_view();
    if i == parts.len() {
        return Ok(v.to_owned());
    }
    let last: bool = i + 1 == parts.len();
    let part = parts[i].as_str();
    assert(pv[i as int] == part@);
    let top = json_top(s);
    match index_part(part) {
        Some(None) => Err(SkvsError::Json("Invalid array index".to_owned())),
        Some(Some(k)) => match top {
            JsonTop::Array(a) => {
                if k < a.len() {
                    assert(a.deep_view()[k as int] == a@[k as int]@);
                    match set_from(a[k].as_str(), parts, i + 1, v) {
                        Ok(t) => {
                            let mut b = a;
                            let ghost before = b.deep_view();
                            let ghost tv = t@;
                            b.set(k, t);
                            assert(b.deep_view() =~= before.update(k as int, tv));
                            assert forall|j: int| 0 <= j < b@.len() implies is_member((#[trigger] b@[j])@) by {
                                if j != k {
                                    assert(b@[j]@ == before[j]);
                                }
                            }
                            Ok(write_array(&b))
                        },
                        Err(e) => Err(e),
                    }
                } else {
                    Err(SkvsError::Json("Array index out of bounds".to_owned()))
                }
            },
            _ => if last {
                Err(SkvsError::Json("Target is not an array".to_owned()))
            } else {
                Err(SkvsError::Json("Path not an array".to_owned()))
            },
        },
        None => match top {
            JsonTop::Object(o) => {
                let set = match find_field(&o, part) {
                    Some(k) => {
                        assert(o.deep_view()[k as int].1 == o@[k as int].1@);
                        set_from(o[k].1.as_str(), parts, i + 1, v)
                    },
                    None => {
                        let none: Vec<(String, String)> = Vec::new();
                        let empty = write_object(&none);
                        proof {
                            reveal_strlit("{");
                            reveal_strlit("}");
                            reveal_strlit("{}");
                            assert(empty@ =~= "{}"@);
                        }
                        set_from(empty.as_str(), parts, i + 1, v)
                    },
                };
                match set {
                    Ok(t) => {
                        let mut b = o;
                        proof {
                            lemma_field_there(b.deep_view(), part@, t@);
                        }
                        put_field(&mut b, part, t);
                        Ok(write_object(&b))
                    },
                    Err(e) => Err(e),
                }
            },
            _ => if last {
                Err(SkvsError::Json("Target is not an object".to_owned()))
            } else {
                Err(SkvsError::Json("Path not an object".to_owned()))
            },
        },
    }
}

/// Set a value in JSON at a path. A null, an integer or a text that was set is what the same path
/// then gives, where the document can be read: one that is nested too deep cannot.
pub fn json_set(json_str: &str, path: &str, new_value: &Value) -> (r: Result<String, SkvsError>)
    ensures
        error::outcome(r) == with_value(json_str@, path@, new_value@),
        r matches Ok(t) ==> is_plain(new_value@) && is_place(path@) && json_read(t@) is Ok ==> extracted(t@, path@) == Ok::<
            ValueV,
            ErrorV,
        >(new_value@),
{
    match json_compact(json_str) {
        Err(e) => Err(SkvsError::Json(text::text2("Invalid JSON: ", e.as_str()))),
        Ok(c) => {
            let cs = text::chars_of(path);
            let rooted: bool = cs.len() > 0 && cs[0] == '$';
            let place = if rooted {
                read_path(path)
            } else {
                path.to_owned()
            };
            proof {
                reveal_strlit("");
            }
            assert(place@.len() == 0 ==> place@ =~= ""@);
            if rooted && text::text_eq(place.as_str(), "") {
                return Err(SkvsError::Json("Empty path".to_owned()));
            }
            let parts = text::split(place.as_str(), '.');
            let v = skvs_value_to_json(new_value);
            set_from(c.as_str(), &parts, 0, v.as_str())
        },
    }
}

/// The number that a text stands for: an integer where `t`, the number as `serde_json` reads it,
/// is one that fits, else the double nearest to what is written.
pub open spec fn parameter_number(s: Seq<char>, t: Seq<char>) -> Option<ValueV> {
    match (text::int_of_text(t), decimal::real_of_text(s)) {
        (None, Some(b)) => Some(ValueV::Real(b)),
        _ => number_value(t),
    }
}

/// The value that a JSON text stands for as a parameter: a tagged object
/// `{"__blob__": "<base64>"}` is the bytes it holds.
pub open spec fn parameter_value(s: Seq<char>) -> Option<ValueV> {
    match json_node(s) {
        JsonTopV::Null => Some(ValueV::Null),
        JsonTopV::Invalid => None,
        JsonTopV::Bool(b) => Some(ValueV::Integer(if b {
            1
        } else {
            0
        })),
        JsonTopV::Number(t) => parameter_number(s, t),
        JsonTopV::Str(t) => Some(ValueV::Text(t)),
        JsonTopV::Array(_) => Some(ValueV::Blob(document_bytes(s))),
        JsonTopV::Object(o) => match tagged_bytes(o) {
            Some(b) => Some(ValueV::Blob(b)),
            None => Some(ValueV::Blob(document_bytes(s))),
        },
    }
}

/// The bytes of a tagged object.
pub open spec fn tagged_bytes(o: Seq<(Seq<char>, Seq<char>)>) -> Option<Seq<u8>> {
    if o.len() == 1 && o[0].0 == "__blob__"@ {
        match json_node(o[0].1) {
            JsonTopV::Str(t) => codec::base64_bytes(t),
            _ => None,
        }
    } else {
        None
    }
}

/// The JSON text of a value in a result: bytes as a base64 string.
pub open spec fn result_json(v: ValueV) -> Seq<char> {
    match v {
        ValueV::Blob(b) => json_quoted(codec::base64_text(b)),
        _ => value_json(v),
    }
}

impl Value {
    /// The value that a JSON text stands for.
    pub fn from_json(v: &str) -> (r: Option<Value>)
        ensures
            r.deep_view() == parameter_value(v@),
    {
        match json_top(v) {
            JsonTop::Null => Some(Value::Null),
            JsonTop::Invalid => None,
            JsonTop::Bool(b) => Some(
                Value::Integer(
                    if b {
                        1
                    } else {
                        0
                    },
                ),
            ),
            JsonTop::Number(t) => match (text::parse_int(t.as_str()), decimal::parse_real(v)) {
                (None, Some(x)) => Some(Value::Real(x)),
                _ => read_number(t.as_str()),
            },
            JsonTop::Str(t) => Some(Value::Text(t)),
            JsonTop::Array(_) => Some(Value::Blob(document(v))),
            JsonTop::Object(o) => {
                let ghost ov = o.deep_view();
                if o.len() == 1 && text::text_eq(o[0].0.as_str(), "__blob__") {
                    assert(ov[0].0 == o@[0].0@ && ov[0].1 == o@[0].1@);
                    match json_top(o[0].1.as_str()) {
                        JsonTop::Str(t) => match codec::base64_decode(t.as_str()) {
                            Some(b) => Some(Value::Blob(b)),
                            None => Some(Value::Blob(document(v))),
                        },
                        _ => Some(Value::Blob(document(v))),
                    }
                } else {
                    assert(ov.len() == 1 ==> ov[0].0 == o@[0].0@);
                    Some(Value::Blob(document(v)))
                }
            },
        }
    }

    /// The JSON text of the value.
    pub fn to_json(&self) -> (r: String)
        ensures
            r@ == result_json(self@),
    {
        match self {
            Value::Blob(b) => {
                let t = codec::base64_encode(b);
                json_quote(t.as_str())
            },
            _ => skvs_value_to_json(self),
        }
    }
}

} // verus!
