//! Cells: the text of a value and the type of the column that it stands in.

use crate::text::{same_text, texts, Text};
use crate::value::{json_text, Json, Value};
use regex::Regex;
use vstd::prelude::*;

verus! {

/// The pattern of a date, with or without a time of day.
pub const DATE_PATTERN: &'static str =
    r"^([1-3]\d{3})-(\d{2})-(\d{2})([T ](\d{2}):(\d{2}):(\d{2}(?:\.\d*)?)((-(\d{2}):(\d{2})|Z)?))?$";

/// The regular expressions of the `regex` crate.
#[verifier::external_type_specification]
#[verifier::external_body]
pub struct ExRegex(regex::Regex);

/// What a regular expression looks for, written as a pattern: the one that it was made from where
/// `Regex::new` made it, and with the options written into it where a builder made it.
pub uninterp spec fn pattern_of(re: Regex) -> Seq<char>;

/// Whether `Regex::is_match` finds a match of what a regular expression looks for in a text.
pub uninterp spec fn pattern_matches(pattern: Seq<char>, text: Seq<char>) -> bool;

/// `Regex::new` on the pattern of a date. Believed of it: the pattern is a valid one, and the result
/// is the regular expression made from it.
#[verifier::external_body]
fn new_regexp(pattern: &str) -> (re: Regex)
    requires
        pattern@ == DATE_PATTERN@,
    ensures
        pattern_of(re) == pattern@,
{
    Regex::new(pattern).unwrap()
}

/// The regular expression that finds dates.
pub fn date_regexp() -> (re: Regex)
    ensures
        pattern_of(re) == DATE_PATTERN@,
{
    new_regexp(DATE_PATTERN)
}

/// `Regex::is_match`. Believed of it: the answer depends on what the regular expression looks for
/// and on the text alone.
#[verifier::external_body]
fn is_match(re: &Regex, text: &str) -> (found: bool)
    ensures
        found == pattern_matches(pattern_of(*re), text@),
{
    re.is_match(text)
}

/// Whether a value is a string in which a pattern is found.
pub open spec fn is_dated(pattern: Text, value: Json) -> bool {
    value matches Json::Str(text) && pattern_matches(pattern, text)
}

/// The type of a column after a value was met in it: text stays text, and otherwise the value
/// decides, but for null, which counts only in a column without a type.
pub open spec fn type_after(before: Text, value: Json, dated: bool) -> Text {
    if value is Null {
        if before == ""@ {
            "null"@
        } else {
            before
        }
    } else if before == "text"@ {
        before
    } else {
        match value {
            Json::Number(_) => "number"@,
            Json::Bool(_) => "boolean"@,
            Json::Str(_) => if dated {
                "date"@
            } else {
                "text"@
            },
            _ => "text"@,
        }
    }
}

/// The text of a value in a cell.
pub open spec fn cell_text(value: Json) -> Text {
    match value {
        Json::Null => ""@,
        Json::Bool(b) => if b {
            "true"@
        } else {
            "false"@
        },
        Json::Number(text) => text,
        Json::Str(text) => text,
        _ => json_text(value),
    }
}

/// The type of a column after a value was met in it, given whether the value is a date.
pub fn column_type(before: &str, value: &Value, dated: bool) -> (after: String)
    ensures
        after@ == type_after(before@, value.json(), dated),
{
    if let Value::Null = value {
        return if same_text(before, "") {
            "null".to_owned()
        } else {
            before.to_owned()
        };
    }
    if same_text(before, "text") {
        return before.to_owned();
    }
    match value {
        Value::Number(_) => "number".to_owned(),
        Value::Bool(_) => "boolean".to_owned(),
        Value::String(_) => {
            if dated {
                "date".to_owned()
            } else {
                "text".to_owned()
            }
        },
        _ => "text".to_owned(),
    }
}

/// Turns a value into the text of its cell and notes its type as that of the column.
pub fn value_convert(
    value: Value,
    field_type: &mut Vec<String>,
    num: usize,
    date_re: &Regex,
) -> (text: String)
    requires
        num < old(field_type)@.len(),
    ensures
        text@ == cell_text(value.json()),
        final(field_type)@.len() == old(field_type)@.len(),
        texts(final(field_type)@) == texts(old(field_type)@).update(
            num as int,
            type_after(
                texts(old(field_type)@)[num as int],
                value.json(),
                is_dated(pattern_of(*date_re), value.json()),
            ),
        ),
{
    let dated = match &value {
        Value::String(text) => {
            !same_text(field_type[num].as_str(), "text") && is_match(date_re, text.as_str())
        },
        _ => false,
    };
    let after = column_type(field_type[num].as_str(), &value, dated);
    field_type.set(num, after);
    assert(texts(field_type@) =~= texts(old(field_type)@).update(
        num as int,
        type_after(
            texts(old(field_type)@)[num as int],
            value.json(),
            is_dated(pattern_of(*date_re), value.json()),
        ),
    ));
    match value {
        Value::Null => "".to_owned(),
        Value::Bool(b) => {
            if b {
                "true".to_owned()
            } else {
                "false".to_owned()
            }
        },
        Value::Number(text) => text,
        Value::String(text) => text,
        _ => value.to_text(),
    }
}

} // verus!
