//! A plain representation of a JSON document, its mathematical view, and
//! the two trusted bridges to serde_json that turn text into it and back.
//!
//! Numbers are carried as their decimal text so the tree holds plain values
//! only; the bridges translate them to and from `serde_json::Number`.

use vstd::prelude::*;

verus! {

use serde_json::Value;

/// A JSON value as plain data: numbers as decimal text, objects as a
/// key-value list in key order.
#[derive(Debug)]
pub enum JsonVal {
    Null,
    Bool(bool),
    Num(String),
    Str(String),
    Arr(Vec<JsonVal>),
    Obj(Vec<(String, JsonVal)>),
}

/// The mathematical view of a JSON tree: texts as character sequences. The
/// bridges below read and write a tree through this view alone, so two
/// trees with one view parse from and print to the same text.
pub enum JModel {
    Null,
    Bool(bool),
    Num(Seq<char>),
    Str(Seq<char>),
    Arr(Seq<JModel>),
    Obj(Seq<(Seq<char>, JModel)>),
}

/// The view of a tree.
pub open spec fn jview(j: JsonVal) -> JModel
    decreases j,
{
    match j {
        JsonVal::Null => JModel::Null,
        JsonVal::Bool(b) => JModel::Bool(b),
        JsonVal::Num(s) => JModel::Num(s@),
        JsonVal::Str(s) => JModel::Str(s@),
        JsonVal::Arr(a) => JModel::Arr(
            Seq::new(
                a@.len(),
                |i: int|
                    if 0 <= i < a@.len() {
                        jview(a@[i])
                    } else {
                        JModel::Null
                    },
            ),
        ),
        JsonVal::Obj(o) => JModel::Obj(
            Seq::new(
                o@.len(),
                |i: int|
                    if 0 <= i < o@.len() {
                        (o@[i].0@, jview(o@[i].1))
                    } else {
                        (Seq::empty(), JModel::Null)
                    },
            ),
        ),
    }
}

/// The view of an object entry list.
pub open spec fn entries_model(s: Seq<(String, JsonVal)>) -> Seq<(Seq<char>, JModel)> {
    Seq::new(
        s.len(),
        |i: int|
            if 0 <= i < s.len() {
                (s[i].0@, jview(s[i].1))
            } else {
                (Seq::empty(), JModel::Null)
            },
    )
}

/// What parsing a text as JSON yields, if it is well-formed; a pure
/// function of the text.
pub uninterp spec fn json_parse_of(s: Seq<char>) -> Option<JModel>;

/// The pretty-printed text of a tree whose number strings serde_json
/// accepts; a pure function of the tree's view.
pub uninterp spec fn json_text_of(m: JModel) -> Option<Seq<char>>;

/// Whether serde_json reads `s` back as a number value; a pure function of
/// the text.
pub uninterp spec fn num_token(s: Seq<char>) -> bool;

/// Whether `s` is a decimal of the restricted shape this crate writes:
/// digits, optionally a point followed by digits, nonempty on both sides,
/// no leading zero before another digit, and short enough that its value
/// stays below the largest double, whose range serde_json's number reader
/// enforces. Every such text is accepted as a number.
pub open spec fn plain_decimal(s: Seq<char>) -> bool {
    &&& s.len() > 0
    &&& s.len() <= 308
    &&& forall|i: int| 0 <= i < s.len() ==> ('0' <= s[i] <= '9' || s[i] == '.')
    &&& '0' <= s[0] <= '9'
    &&& '0' <= s[s.len() - 1] <= '9'
    &&& forall|i: int, j: int| 0 <= i < j < s.len() && s[i] == '.' && s[j] == '.' ==> i == j
    &&& (s[0] == '0' && s.len() > 1 ==> s[1] == '.')
}

/// Whether every number text in the tree is one serde_json accepts: a
/// number it reads back anywhere, or a plain decimal, which it always
/// accepts.
pub open spec fn renderable(m: JModel) -> bool
    decreases m,
{
    match m {
        JModel::Null => true,
        JModel::Bool(_) => true,
        JModel::Num(s) => num_token(s) || plain_decimal(s),
        JModel::Str(_) => true,
        JModel::Arr(a) => forall|i: int| 0 <= i < a.len() ==> renderable(#[trigger] a[i]),
        JModel::Obj(o) => forall|i: int| 0 <= i < o.len() ==> renderable(#[trigger] o[i].1),
    }
}

/// Declares serde_json's value type so the two bridge helpers below may
/// pass it through; no contract speaks of it.
#[verifier::external_type_specification]
#[verifier::external_body]
pub struct ExValue(Value);

/// Body of the parsing bridge: each serde_json value variant moves to its
/// plain counterpart, numbers through `Number::to_string`.
#[verifier::external_body]
fn value_to_plain(v: Value) -> JsonVal {
    match v {
        Value::Null => JsonVal::Null,
        Value::Bool(b) => JsonVal::Bool(b),
        Value::Number(n) => JsonVal::Num(n.to_string()),
        Value::String(s) => JsonVal::Str(s),
        Value::Array(a) => JsonVal::Arr(a.into_iter().map(value_to_plain).collect()),
        Value::Object(m) => JsonVal::Obj(m.into_iter().map(|(k, x)| (k, value_to_plain(x))).collect()),
    }
}

/// Body of the rendering bridge: each plain variant moves back to a
/// serde_json value, number strings through serde_json's own reader.
#[verifier::external_body]
fn plain_to_value(j: &JsonVal) -> Option<Value> {
    match j {
        JsonVal::Null => Some(Value::Null),
        JsonVal::Bool(b) => Some(Value::Bool(*b)),
        JsonVal::Num(s) => match s.parse::<Value>() {
            Ok(v @ Value::Number(_)) => Some(v),
            _ => None,
        },
        JsonVal::Str(s) => Some(Value::String(s.clone())),
        JsonVal::Arr(a) => a.iter().map(plain_to_value).collect::<Option<Vec<Value>>>().map(Value::Array),
        JsonVal::Obj(o) => o.iter().map(|(k, x)| Some((k.clone(), plain_to_value(x)?))).collect::<Option<serde_json::Map<String, Value>>>().map(Value::Object),
    }
}

/// Relies on serde_json::from_str for `serde_json::Value`: well-formed JSON
/// text parses to a value tree determined by the text alone (object keys
/// come out in sorted order); malformed text is refused with a message.
/// Number tokens are carried over as the decimal text serde_json prints
/// for them, which its reader accepts back.
#[verifier::external_body]
pub fn parse_json_text(s: &str) -> (r: Result<JsonVal, String>)
    ensures
        r matches Ok(j) ==> json_parse_of(s@) == Some(jview(j)) && renderable(jview(j)),
        r is Err ==> json_parse_of(s@) is None,
{
    match serde_json::from_str::<serde_json::Value>(s) {
        Ok(v) => Ok(value_to_plain(v)),
        Err(e) => Err(e.to_string()),
    }
}

/// Relies on serde_json::to_string_pretty for `serde_json::Value`, which
/// never fails on a value tree and writes a text determined by the tree's
/// view alone. The translation back to serde_json values refuses exactly
/// the number strings serde_json's reader does not accept; it accepts
/// every plain decimal, whose value lies within the double range the
/// reader enforces.
#[verifier::external_body]
pub fn render_json_text(j: &JsonVal) -> (r: Option<String>)
    ensures
        r matches Some(s) ==> json_text_of(jview(*j)) == Some(s@),
        r is None ==> json_text_of(jview(*j)) is None,
        (r is Some) == renderable(jview(*j)),
        *j matches JsonVal::Num(s) ==> ((r is Some) == (num_token(s@) || plain_decimal(s@))),
{
    let v = plain_to_value(j)?;
    match serde_json::to_string_pretty(&v) {
        Ok(s) => Some(s),
        Err(_) => None,
    }
}

} // verus!
