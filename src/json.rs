//! The JSON that the frames are made of: what serde_json parses and prints,
//! and the decimal text of an integer.

use vstd::prelude::*;
use crate::channel::views;

verus! {

/// The JSON string literal that serde_json prints for `s`.
pub uninterp spec fn json_quoted(s: Seq<char>) -> Seq<char>;

/// The texts of the items of the JSON array `text`, each printed compactly
/// by serde_json; `None` where `text` is not a JSON array.
pub uninterp spec fn json_array_items(text: Seq<char>) -> Option<Seq<Seq<char>>>;

/// What serde_json reads from `text` as an optional string: `Some(None)` for
/// `null`, `Some(Some(s))` for a string, `None` for anything else.
pub uninterp spec fn json_string_or_null(text: Seq<char>) -> Option<Option<Seq<char>>>;

/// The entries of the JSON object `text`, keys in ascending order and values
/// printed compactly by serde_json; `None` where `text` is not a JSON object.
pub uninterp spec fn json_object_entries(text: Seq<char>) -> Option<Seq<(Seq<char>, Seq<char>)>>;

/// The views of a list of string pairs.
pub open spec fn pair_views(v: Seq<(String, String)>) -> Seq<(Seq<char>, Seq<char>)> {
    v.map_values(|p: (String, String)| (p.0@, p.1@))
}

/// Whether serde_json parses `text` as one JSON value.
pub uninterp spec fn json_valid(text: Seq<char>) -> bool;

/// Relies on `serde_json::from_str` into a `serde_json::Value`.
#[verifier::external_body]
pub(crate) fn is_json(text: &str) -> (r: bool)
    ensures
        r == json_valid(text@),
{
    serde_json::from_str::<serde_json::Value>(text).is_ok()
}

/// Relies on `serde_json::to_string` for a `str`: the quoted and escaped
/// literal. It fails only for maps with non-string keys, never for a string.
#[verifier::external_body]
pub(crate) fn quote(s: &str) -> (r: String)
    ensures
        r@ == json_quoted(s@),
{
    match serde_json::to_string(s) {
        Ok(t) => t,
        Err(_) => String::new(),
    }
}

/// Relies on `serde_json::from_str` into a `Vec<serde_json::Value>`, each item
/// then printed by `Value`'s `Display`.
#[verifier::external_body]
pub(crate) fn array_items(text: &str) -> (r: Option<Vec<String>>)
    ensures
        match r {
            Some(v) => json_array_items(text@) == Some(views(v@)),
            None => json_array_items(text@) is None,
        },
{
    match serde_json::from_str::<Vec<serde_json::Value>>(text) {
        Ok(items) => Some(items.iter().map(|v| v.to_string()).collect()),
        Err(_) => None,
    }
}

/// Relies on `serde_json::from_str` into an `Option<String>`.
#[verifier::external_body]
pub(crate) fn string_or_null(text: &str) -> (r: Option<Option<String>>)
    ensures
        match r {
            Some(Some(s)) => json_string_or_null(text@) == Some(Some(s@)),
            Some(None) => json_string_or_null(text@) == Some(None::<Seq<char>>),
            None => json_string_or_null(text@) is None,
        },
{
    serde_json::from_str::<Option<String>>(text).ok()
}

/// Relies on `serde_json::from_str` into a `serde_json::Map`, which is a
/// `BTreeMap` here, each value then printed by `Value`'s `Display`.
#[verifier::external_body]
pub(crate) fn object_entries(text: &str) -> (r: Option<Vec<(String, String)>>)
    ensures
        match r {
            Some(v) => json_object_entries(text@) == Some(pair_views(v@)),
            None => json_object_entries(text@) is None,
        },
{
    match serde_json::from_str::<serde_json::Map<String, serde_json::Value>>(text) {
        Ok(m) => Some(m.into_iter().map(|(k, v)| (k, v.to_string())).collect()),
        Err(_) => None,
    }
}

/// The decimal digit `d`.
pub open spec fn digit_char(d: nat) -> char {
    if d == 0 { '0' } else if d == 1 { '1' } else if d == 2 { '2' } else if d == 3 { '3' }
    else if d == 4 { '4' } else if d == 5 { '5' } else if d == 6 { '6' } else if d == 7 { '7' }
    else if d == 8 { '8' } else { '9' }
}

/// The decimal text of `n`, without leading zeros.
pub open spec fn decimal(n: nat) -> Seq<char>
    decreases n,
{
    if n < 10 {
        seq![digit_char(n)]
    } else {
        decimal(n / 10) + seq![digit_char(n % 10)]
    }
}

fn digit(d: u32) -> (r: &'static str)
    requires
        d < 10,
    ensures
        r@ == seq![digit_char(d as nat)],
{
    proof {
        reveal_strlit("0");
        reveal_strlit("1");
        reveal_strlit("2");
        reveal_strlit("3");
        reveal_strlit("4");
        reveal_strlit("5");
        reveal_strlit("6");
        reveal_strlit("7");
        reveal_strlit("8");
        reveal_strlit("9");
    }
    if d == 0 { "0" } else if d == 1 { "1" } else if d == 2 { "2" } else if d == 3 { "3" }
    else if d == 4 { "4" } else if d == 5 { "5" } else if d == 6 { "6" } else if d == 7 { "7" }
    else if d == 8 { "8" } else {
        assert(seq!['9'] =~= "9"@);
        "9"
    }
}

/// The decimal text of `n`.
pub fn decimal_text(n: u32) -> (r: String)
    ensures
        r@ == decimal(n as nat),
    decreases n,
{
    if n < 10 {
        digit(n).to_owned()
    } else {
        decimal_text(n / 10).concat(digit(n % 10))
    }
}

} // verus!
