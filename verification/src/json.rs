//! JSON values as the library reads them, and the lookups it makes in them.
//!
//! Parsing is `serde_json`'s; the value it returns is converted, variant for
//! variant, into [`Json`]. Which fields are read is decided by verified code.

use vstd::prelude::*;

use crate::text::same_text;

verus! {

/// A JSON value. A number is kept as the text `serde_json` prints for it.
pub enum Json {
    Null,
    Bool(bool),
    Number(String),
    Str(String),
    Array(Vec<Json>),
    Object(Vec<(String, Json)>),
}

/// What a JSON value holds.
pub enum JsonView {
    Null,
    Bool(bool),
    Number(Seq<char>),
    Str(Seq<char>),
    Array(Seq<JsonView>),
    Object(Seq<(Seq<char>, JsonView)>),
}

/// What `j` holds.
pub open spec fn json_view(j: Json) -> JsonView
    decreases j,
{
    match j {
        Json::Null => JsonView::Null,
        Json::Bool(b) => JsonView::Bool(b),
        Json::Number(s) => JsonView::Number(s@),
        Json::Str(s) => JsonView::Str(s@),
        Json::Array(items) => JsonView::Array(items_view(items@)),
        Json::Object(fields) => JsonView::Object(fields_view(fields@)),
    }
}

/// What the elements of an array hold.
pub open spec fn items_view(s: Seq<Json>) -> Seq<JsonView>
    decreases s,
{
    if s.len() == 0 {
        Seq::empty()
    } else {
        seq![json_view(s[0])] + items_view(s.subrange(1, s.len() as int))
    }
}

/// What the fields of an object hold.
pub open spec fn fields_view(s: Seq<(String, Json)>) -> Seq<(Seq<char>, JsonView)>
    decreases s,
{
    if s.len() == 0 {
        Seq::empty()
    } else {
        seq![(s[0].0@, json_view(s[0].1))] + fields_view(s.subrange(1, s.len() as int))
    }
}

proof fn lemma_fields_view(s: Seq<(String, Json)>)
    ensures
        fields_view(s).len() == s.len(),
        forall|i: int|
            0 <= i < s.len() ==> #[trigger] fields_view(s)[i] == (s[i].0@, json_view(s[i].1)),
    decreases s.len(),
{
    if s.len() > 0 {
        let t = s.subrange(1, s.len() as int);
        lemma_fields_view(t);
        assert forall|i: int| 0 <= i < s.len() implies #[trigger] fields_view(s)[i] == (
            s[i].0@,
            json_view(s[i].1),
        ) by {
            if i > 0 {
                assert(t[i - 1] == s[i]);
            }
        }
    }
}

/// Index of the first field from position `i` on whose name is `k`.
pub open spec fn field_from(fs: Seq<(Seq<char>, JsonView)>, k: Seq<char>, i: nat) -> Option<int>
    decreases fs.len() - i,
{
    if i >= fs.len() {
        None
    } else if fs[i as int].0 == k {
        Some(i as int)
    } else {
        field_from(fs, k, i + 1)
    }
}

/// `v[k]` as `serde_json` indexes: the field named `k` of an object, and `null`
/// where `v` is not an object or has no such field.
pub open spec fn json_get(v: JsonView, k: Seq<char>) -> JsonView {
    match v {
        JsonView::Object(fs) => match field_from(fs, k, 0) {
            Option::Some(i) => fs[i].1,
            Option::None => JsonView::Null,
        },
        _ => JsonView::Null,
    }
}

/// `v.as_str()`: the text of a string, and nothing for any other value.
pub open spec fn json_as_str(v: JsonView) -> Option<Seq<char>> {
    match v {
        JsonView::Str(s) => Some(s),
        _ => None,
    }
}

/// What an optional reference to a value holds, a missing one reading as `null`.
pub open spec fn opt_json_view(r: Option<&Json>) -> JsonView {
    match r {
        Option::Some(j) => json_view(*j),
        Option::None => JsonView::Null,
    }
}

/// `j[k]`: the field named `k` of an object (`None` standing for `null`).
pub fn get<'a>(j: &'a Json, k: &str) -> (r: Option<&'a Json>)
    ensures
        opt_json_view(r) == json_get(json_view(*j), k@),
{
    match j {
        Json::Object(fields) => {
            proof {
                lemma_fields_view(fields@);
            }
            let ghost fs = fields_view(fields@);
            assert(json_view(*j) == JsonView::Object(fs));
            let mut i: usize = 0;
            while i < fields.len()
                invariant
                    i <= fields@.len(),
                    fs == fields_view(fields@),
                    json_view(*j) == JsonView::Object(fs),
                    fs.len() == fields@.len(),
                    forall|m: int|
                        0 <= m < fields@.len() ==> #[trigger] fs[m] == (
                            fields@[m].0@,
                            json_view(fields@[m].1),
                        ),
                    field_from(fs, k@, 0) == field_from(fs, k@, i as nat),
                decreases fields.len() - i,
            {
                if same_text(fields[i].0.as_str(), k) {
                    assert(fs[i as int].0 == k@);
                    assert(field_from(fs, k@, i as nat) == Some(i as int));
                    return Some(&fields[i].1);
                }
                i = i + 1;
            }
            None
        },
        _ => None,
    }
}

/// `j[k]` where `j` may itself be a missing field (`null`): `null[k]` is `null`.
pub fn get_in<'a>(j: Option<&'a Json>, k: &str) -> (r: Option<&'a Json>)
    ensures
        opt_json_view(r) == json_get(opt_json_view(j), k@),
{
    match j {
        Option::Some(x) => get(x, k),
        Option::None => None,
    }
}

/// `j.as_str()`: the text of a string value.
pub fn as_str(j: Option<&Json>) -> (r: Option<&str>)
    ensures
        match r {
            Option::Some(s) => json_as_str(opt_json_view(j)) == Some(s@),
            Option::None => json_as_str(opt_json_view(j)) is None,
        },
{
    match j {
        Option::Some(Json::Str(s)) => Some(s.as_str()),
        _ => None,
    }
}

#[verifier::external_type_specification]
#[verifier::external_body]
pub struct ExJsonValue(serde_json::Value);

/// What `serde_json` parses `payload` into, as a [`JsonView`]; `None` where it is
/// not JSON.
pub uninterp spec fn json_parse(payload: Seq<char>) -> Option<JsonView>;

/// `serde_json::from_str::<serde_json::Value>`, its value converted into [`Json`].
/// The contract names the result `json_parse(payload)`: JSON parsing is not restated.
#[verifier::external_body]
pub(crate) fn parse_json(payload: &str) -> (r: Option<Json>)
    ensures
        match r {
            Option::Some(j) => json_parse(payload@) == Some(json_view(j)),
            Option::None => json_parse(payload@) is None,
        },
{
    serde_json::from_str::<serde_json::Value>(payload).ok().map(from_value)
}

/// Converts a `serde_json::Value` into [`Json`], one arm per variant (a number
/// becomes the text its `Display` prints). Used by [`parse_json`] only.
#[verifier::external_body]
fn from_value(v: serde_json::Value) -> Json {
    match v {
        serde_json::Value::Null => Json::Null,
        serde_json::Value::Bool(b) => Json::Bool(b),
        serde_json::Value::Number(n) => Json::Number(n.to_string()),
        serde_json::Value::String(s) => Json::Str(s),
        serde_json::Value::Array(a) => Json::Array(a.into_iter().map(from_value).collect()),
        serde_json::Value::Object(m) => Json::Object(m.into_iter().map(|(k, x)| (k, from_value(x))).collect()),
    }
}

} // verus!
