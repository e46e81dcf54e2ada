use vstd::prelude::*;

verus! {

use crate::errors::ScrapeError;
use crate::rational::{Rational, spec_parse_decimal, parse_decimal};

/// Mathematical JSON tree: numbers are kept as the decimal text the decoder
/// rendered, and objects are opaque because the payload schema never reads
/// inside one.
pub enum JsonModel {
    Null,
    Bool(bool),
    Num(Seq<char>),
    Str(Seq<char>),
    List(Seq<JsonModel>),
    Object,
}

/// A decoded JSON value, as the payload parser walks it.
#[derive(Debug)]
pub enum JsonValue {
    Null,
    Bool(bool),
    Num(String),
    Str(String),
    List(Vec<JsonValue>),
    Object,
}

pub open spec fn json_model(v: JsonValue) -> JsonModel
    decreases v,
{
    match v {
        JsonValue::Null => JsonModel::Null,
        JsonValue::Bool(b) => JsonModel::Bool(b),
        JsonValue::Num(s) => JsonModel::Num(s@),
        JsonValue::Str(s) => JsonModel::Str(s@),
        JsonValue::List(items) => JsonModel::List(
            Seq::new(
                items@.len(),
                |i: int|
                    if 0 <= i < items@.len() {
                        json_model(items@[i])
                    } else {
                        JsonModel::Null
                    },
            ),
        ),
        JsonValue::Object => JsonModel::Object,
    }
}

impl View for JsonValue {
    type V = JsonModel;

    open spec fn view(&self) -> JsonModel {
        json_model(*self)
    }
}

impl JsonValue {
    pub fn is_null(&self) -> (r: bool)
        ensures
            r == (self@ is Null),
    {
        matches!(self, JsonValue::Null)
    }

    pub fn is_string(&self) -> (r: bool)
        ensures
            r == (self@ is Str),
    {
        matches!(self, JsonValue::Str(_))
    }
}

/// The name the trusted JSON decoder's result goes by: what `s` denotes as a
/// tree, or nothing when `s` is not well-formed JSON.
pub uninterp spec fn json_parse(s: Seq<char>) -> Option<JsonModel>;

/// Relies on serde_json::Value: rebuilds the decoded tree as the library's
/// own, rendering numbers as their decimal text and leaving objects opaque.
#[verifier::external_type_specification]
#[verifier::external_body]
pub struct ExValue(serde_json::Value);

/// Relies on serde_json::Value's variants: one arm each, moving fields.
#[verifier::external_body]
fn from_serde(v: serde_json::Value) -> JsonValue {
    match v {
        serde_json::Value::Null => JsonValue::Null,
        serde_json::Value::Bool(b) => JsonValue::Bool(b),
        serde_json::Value::Number(n) => JsonValue::Num(n.to_string()),
        serde_json::Value::String(s) => JsonValue::Str(s),
        serde_json::Value::Array(a) => JsonValue::List(a.into_iter().map(from_serde).collect()),
        serde_json::Value::Object(_) => JsonValue::Object,
    }
}

/// Relies on serde_json::from_str: whether a line is well-formed JSON, and
/// which tree it denotes, are functions of the text alone.
#[verifier::external_body]
pub(crate) fn json_value_of(s: &str) -> (r: Result<JsonValue, String>)
    ensures
        match r {
            Ok(v) => json_parse(s@) == Some(v@),
            Err(_) => json_parse(s@) is None,
        },
{
    match serde_json::from_str::<serde_json::Value>(s) {
        Ok(v) => Ok(from_serde(v)),
        Err(e) => Err(format!("{}", e)),
    }
}

/// The number a JSON number denotes: its decimal text read exactly, or zero
/// where the text is outside the eighteen-digit form the reader accepts.
pub open spec fn spec_number_value(t: Seq<char>) -> Rational {
    match spec_parse_decimal(t) {
        Some(q) => q,
        None => Rational { num: 0, den: 1 },
    }
}

/// The number a JSON number denotes is well-formed and small enough for the
/// rating arithmetic.
pub proof fn lemma_number_value_wf(t: Seq<char>)
    ensures
        spec_number_value(t).wf(),
        spec_number_value(t).bounded(),
{
    crate::rational::lemma_parse_decimal_wf(t);
}

/// A negative index counts back from the end of the list.
pub open spec fn spec_adjusted_index(index: int, len: int) -> int {
    if index < 0 {
        index + len
    } else {
        index
    }
}

pub fn as_string<'a>(err_ctx: &str, x: &'a JsonValue) -> (r: Result<&'a String, ScrapeError>)
    ensures
        match x {
            JsonValue::Str(s) => r matches Ok(v) && v == s,
            _ => r matches Err(e) && e matches ScrapeError::FatalParseError(m) && m@
                == "expected JSON string: "@ + err_ctx@,
        },
{
    if let JsonValue::Str(s) = x {
        Ok(s)
    } else {
        Err(ScrapeError::FatalParseError(String::from_str("expected JSON string: ").concat(err_ctx)))
    }
}

pub fn as_optional_string(err_ctx: &str, x: &JsonValue) -> (r: Result<
    Option<String>,
    ScrapeError,
>)
    ensures
        match x {
            JsonValue::Str(s) => r matches Ok(v) && v matches Some(t) && t@ == s@,
            JsonValue::Null => r matches Ok(v) && v is None,
            _ => r matches Err(e) && e matches ScrapeError::FatalParseError(m) && m@
                == "expected JSON string: "@ + err_ctx@,
        },
{
    match x {
        JsonValue::Str(s) => Ok(Some(s.clone())),
        JsonValue::Null => Ok(None),
        _ => Err(
            ScrapeError::FatalParseError(String::from_str("expected JSON string: ").concat(err_ctx)),
        ),
    }
}

pub fn as_number(err_ctx: &str, x: &JsonValue) -> (r: Result<Rational, ScrapeError>)
    ensures
        match x {
            JsonValue::Num(t) => r matches Ok(q) && q == spec_number_value(t@) && q.wf()
                && q.bounded(),
            _ => r matches Err(e) && e matches ScrapeError::FatalParseError(m) && m@
                == "expected JSON number: "@ + err_ctx@,
        },
{
    if let JsonValue::Num(t) = x {
        match parse_decimal(t.as_str()) {
            Some(q) => Ok(q),
            None => Ok(Rational::zero()),
        }
    } else {
        Err(ScrapeError::FatalParseError(String::from_str("expected JSON number: ").concat(err_ctx)))
    }
}

pub fn as_array<'a>(err_ctx: &str, x: &'a JsonValue) -> (r: Result<&'a Vec<JsonValue>, ScrapeError>)
    ensures
        match x {
            JsonValue::List(items) => r matches Ok(v) && v == items,
            _ => r matches Err(e) && e matches ScrapeError::FatalParseError(m) && m@
                == "expected JSON array: "@ + err_ctx@,
        },
{
    if let JsonValue::List(items) = x {
        Ok(items)
    } else {
        Err(ScrapeError::FatalParseError(String::from_str("expected JSON array: ").concat(err_ctx)))
    }
}

/// Look a value up by position; a negative position counts from the end, and
/// a position that still falls outside the list is a fatal parse error.
pub fn get_array_index<'a>(err_ctx: &str, val: &'a JsonValue, index: i32) -> (r: Result<
    &'a JsonValue,
    ScrapeError,
>)
    ensures
        match val {
            JsonValue::List(items) => {
                let ai = spec_adjusted_index(index as int, items@.len() as int);
                if 0 <= ai < items@.len() {
                    r matches Ok(v) && *v == items@[ai]
                } else {
                    r matches Err(e) && e matches ScrapeError::FatalParseError(_)
                }
            },
            _ => r matches Err(e) && e matches ScrapeError::FatalParseError(m) && m@
                == "expected JSON array: "@ + err_ctx@,
        },
{
    let in_list = match as_array(err_ctx, val) {
        Ok(l) => l,
        Err(e) => {
            return Err(e);
        },
    };
    let i: usize = if index < 0 {
        let back = (-(index as i64)) as u64 as usize;
        if back > in_list.len() {
            return Err(
                ScrapeError::FatalParseError(
                    String::from_str("array index out of bounds: ").concat(err_ctx),
                ),
            );
        }
        in_list.len() - back
    } else {
        index as usize
    };
    if i >= in_list.len() {
        return Err(
            ScrapeError::FatalParseError(
                String::from_str("array index out of bounds: ").concat(err_ctx),
            ),
        );
    }
    Ok(&in_list[i])
}

} // verus!
