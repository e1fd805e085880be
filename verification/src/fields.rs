//! The fields of API records that the views read, as plain values, and how a
//! field is shown: time stamps, dates, ids.

use vstd::prelude::*;
use crate::textutil::{decimal, i64_decimal, owned};
use crate::dates::{format_date, format_minute, date_text, minute_text};

verus! {

/// One field of a JSON record as the views read it.
#[derive(Debug, Clone)]
pub enum JsonField {
    /// The key is not in the record.
    Absent,
    Null,
    Bool(bool),
    /// A number that fits an `i64`.
    Int(i64),
    /// Any other number: its value converted to whole seconds (`f64 as u64`)
    /// and its JSON text.
    Float { secs: u64, json: String },
    /// A string: its value and its JSON text (quoted, escaped).
    Text { value: String, json: String },
    /// An array or an object, by its JSON text.
    Other(String),
}

pub open spec fn true_text() -> Seq<char> {
    seq!['t', 'r', 'u', 'e']
}

pub open spec fn false_text() -> Seq<char> {
    seq!['f', 'a', 'l', 's', 'e']
}

pub open spec fn null_text() -> Seq<char> {
    seq!['n', 'u', 'l', 'l']
}

/// The JSON text of a field (`Value::to_string`); an absent key reads as null.
pub open spec fn json_text(f: JsonField) -> Seq<char> {
    match f {
        JsonField::Absent => null_text(),
        JsonField::Null => null_text(),
        JsonField::Bool(b) => if b { true_text() } else { false_text() },
        JsonField::Int(i) => decimal(i as int),
        JsonField::Float { secs, json } => json@,
        JsonField::Text { value, json } => json@,
        JsonField::Other(json) => json@,
    }
}

fn literal(cs: &[char]) -> (r: String)
    ensures
        r@ == cs@,
{
    crate::unicode::string_of(cs)
}

/// The JSON text of a field.
pub fn field_json(f: &JsonField) -> (r: String)
    ensures
        r@ == json_text(*f),
{
    match f {
        JsonField::Absent | JsonField::Null => {
            let s = literal(&['n', 'u', 'l', 'l']);
            proof { assert(s@ =~= null_text()); }
            s
        },
        JsonField::Bool(b) => {
            if *b {
                let s = literal(&['t', 'r', 'u', 'e']);
                proof { assert(s@ =~= true_text()); }
                s
            } else {
                let s = literal(&['f', 'a', 'l', 's', 'e']);
                proof { assert(s@ =~= false_text()); }
                s
            }
        },
        JsonField::Int(i) => i64_decimal(*i),
        JsonField::Float { secs: _, json } => json.clone(),
        JsonField::Text { value: _, json } => json.clone(),
        JsonField::Other(json) => json.clone(),
    }
}

/// The seconds a numeric field stands for (`i64 as u64` or `f64 as u64`).
pub open spec fn field_secs(f: JsonField) -> Option<u64> {
    match f {
        JsonField::Int(i) => Some(i as u64),
        JsonField::Float { secs, json } => Some(secs),
        _ => None,
    }
}

/// A time-stamp field as shown: null or absent gives the empty text, a number
/// of Unix seconds gives `YYYY-MM-DD HH:MM` in UTC, a string is shown as it
/// is, anything else by its JSON text.
pub open spec fn ts_text(f: JsonField) -> Seq<char> {
    match f {
        JsonField::Absent => Seq::empty(),
        JsonField::Null => Seq::empty(),
        JsonField::Text { value, json } => value@,
        _ => match field_secs(f) {
            Some(s) => minute_text(s as int),
            None => json_text(f),
        },
    }
}

/// A date field as shown: like `ts_text` but `YYYY-MM-DD`.
pub open spec fn date_field_text(f: JsonField) -> Seq<char> {
    match f {
        JsonField::Absent => Seq::empty(),
        JsonField::Null => Seq::empty(),
        JsonField::Text { value, json } => value@,
        _ => match field_secs(f) {
            Some(s) => date_text(s as int),
            None => json_text(f),
        },
    }
}

/// Time stamp of a field: `""` for null, `YYYY-MM-DD HH:MM` (UTC) for Unix
/// seconds, the string itself for a string, else its JSON text.
pub fn fmt_ts(value: &JsonField) -> (r: String)
    ensures
        r@ == ts_text(*value),
{
    match value {
        JsonField::Absent | JsonField::Null => String::new(),
        JsonField::Int(i) => format_minute(*i as u64),
        JsonField::Float { secs, json: _ } => format_minute(*secs),
        JsonField::Text { value, json: _ } => value.clone(),
        _ => field_json(value),
    }
}

/// Date of a field: `""` for null, `YYYY-MM-DD` (UTC) for Unix seconds, the
/// string itself for a string, else its JSON text.
pub fn fmt_date(value: &JsonField) -> (r: String)
    ensures
        r@ == date_field_text(*value),
{
    match value {
        JsonField::Absent | JsonField::Null => String::new(),
        JsonField::Int(i) => format_date(*i as u64),
        JsonField::Float { secs, json: _ } => format_date(*secs),
        JsonField::Text { value, json: _ } => value.clone(),
        _ => field_json(value),
    }
}

/// A due date as `YYYY-MM-DD`, or `None` when the field shows as empty.
pub fn normalize_due_to_ymd(value: &JsonField) -> (r: Option<String>)
    ensures
        match r {
            Some(s) => s@ == date_field_text(*value) && s@.len() > 0,
            None => date_field_text(*value).len() == 0,
        },
{
    let s = fmt_date(value);
    if s.as_str().is_empty() {
        None
    } else {
        Some(s)
    }
}

/// The integer of a field that `as_i64` reads.
pub open spec fn field_i64(f: JsonField) -> Option<i64> {
    match f {
        JsonField::Int(i) => Some(i),
        _ => None,
    }
}

/// The string of a field that `as_str` reads.
pub open spec fn field_str(f: JsonField) -> Option<Seq<char>> {
    match f {
        JsonField::Text { value, json } => Some(value@),
        _ => None,
    }
}

/// The boolean of a field that `as_bool` reads.
pub open spec fn field_bool(f: JsonField) -> Option<bool> {
    match f {
        JsonField::Bool(b) => Some(b),
        _ => None,
    }
}

pub fn as_i64(f: &JsonField) -> (r: Option<i64>)
    ensures
        r == field_i64(*f),
{
    match f {
        JsonField::Int(i) => Some(*i),
        _ => None,
    }
}

pub fn as_bool(f: &JsonField) -> (r: Option<bool>)
    ensures
        r == field_bool(*f),
{
    match f {
        JsonField::Bool(b) => Some(*b),
        _ => None,
    }
}

/// The string of a field that `as_str` reads, copied.
pub fn as_text(f: &JsonField) -> (r: Option<String>)
    ensures
        match r {
            Some(s) => field_str(*f) == Some(s@),
            None => field_str(*f) is None,
        },
{
    match f {
        JsonField::Text { value, json: _ } => Some(value.clone()),
        _ => None,
    }
}

} // verus!
