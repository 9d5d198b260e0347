//! User-input JSON. Parsing is delegated to `serde_json` behind a trusted
//! wrapper that converts the parsed tree into the library's own
//! [`JsonValue`] shape; every decision about the input — which objects
//! decode as settings, and how a top-level `settings` wrapper is unwrapped —
//! is made over that shape and verified.

use vstd::prelude::*;
use crate::error::Error;
use crate::model::{Settings, SettingsV};
use crate::strings::str_eq;

verus! {

broadcast use vstd::string::group_string_axioms;

/// A JSON value, as the library reads it.
#[derive(Debug)]
pub enum JsonValue {
    Null,
    Bool(bool),
    /// A number, carried as its decimal text; the settings model has no
    /// numeric fields, so numbers are never interpreted.
    Num(String),
    Str(String),
    Arr(Vec<JsonValue>),
    Obj(Vec<(String, JsonValue)>),
}

/// What parsing a given text yields: `None` for text that is not JSON.
pub uninterp spec fn json_parse_of(s: Seq<char>) -> Option<JsonValue>;

/// Declares `serde_json::Value`, the parsed-JSON tree the conversion below
/// consumes; the library never reads into a value of it directly.
#[verifier::external_type_specification]
#[verifier::external_body]
pub struct ExSerdeValue(serde_json::Value);

/// Converts a parsed `serde_json` value into the library's shape, variant
/// by variant; a number is carried as its decimal text.
#[verifier::external_body]
fn convert_value(v: serde_json::Value) -> JsonValue {
    match v {
        serde_json::Value::Null => JsonValue::Null,
        serde_json::Value::Bool(b) => JsonValue::Bool(b),
        serde_json::Value::Number(n) => JsonValue::Num(n.to_string()),
        serde_json::Value::String(s) => JsonValue::Str(s),
        serde_json::Value::Array(a) => JsonValue::Arr(a.into_iter().map(convert_value).collect()),
        serde_json::Value::Object(o) => JsonValue::Obj(
            o.into_iter().map(|p| (p.0, convert_value(p.1))).collect(),
        ),
    }
}

/// Parses JSON text into the library's shape.
///
/// Relies on `serde_json::from_str::<serde_json::Value>`: it accepts
/// exactly the JSON texts and parses deterministically (object members are
/// kept in a sorted map), so the outcome is a function of the text alone,
/// named `json_parse_of`.
#[verifier::external_body]
pub fn json_parse(s: &str) -> (r: Option<JsonValue>)
    ensures
        r == json_parse_of(s@),
{
    match serde_json::from_str::<serde_json::Value>(s) {
        Ok(v) => Some(convert_value(v)),
        Err(_) => None,
    }
}

/// Is this value the JSON string with the given characters?
pub open spec fn is_str_with(v: JsonValue, t: Seq<char>) -> bool {
    match v {
        JsonValue::Str(s) => s@ == t,
        _ => false,
    }
}

/// The first member of an object with the given name, if any.
pub open spec fn member_lookup(ms: Seq<(String, JsonValue)>, k: Seq<char>) -> Option<JsonValue>
    decreases ms.len(),
{
    if ms.len() == 0 {
        None
    } else if ms[0].0@ == k {
        Some(ms[0].1)
    } else {
        member_lookup(ms.drop_first(), k)
    }
}

pub proof fn lemma_member_lookup(ms: Seq<(String, JsonValue)>, k: Seq<char>)
    ensures
        match member_lookup(ms, k) {
            Some(v) => exists|i: int| 0 <= i < ms.len() && (#[trigger] ms[i]).0@ == k && ms[i].1
                == v,
            None => forall|i: int| 0 <= i < ms.len() ==> (#[trigger] ms[i]).0@ != k,
        },
    decreases ms.len(),
{
    if ms.len() == 0 {
    } else if ms[0].0@ == k {
    } else {
        lemma_member_lookup(ms.drop_first(), k);
        match member_lookup(ms, k) {
            Some(v) => {
                let i = choose|i: int| 0 <= i < ms.drop_first().len() && (#[trigger] ms.drop_first(
                )[i]).0@ == k && ms.drop_first()[i].1 == v;
                assert(ms[i + 1].0@ == k && ms[i + 1].1 == v);
            },
            None => {
                assert forall|i: int| 0 <= i < ms.len() implies (#[trigger] ms[i]).0@ != k by {
                    if i > 0 {
                        assert(ms.drop_first()[i - 1] == ms[i]);
                    }
                }
            },
        }
    }
}

pub proof fn lemma_member_lookup_first(ms: Seq<(String, JsonValue)>, k: Seq<char>, i: int)
    requires
        0 <= i < ms.len(),
        ms[i].0@ == k,
        forall|j: int| 0 <= j < i ==> (#[trigger] ms[j]).0@ != k,
    ensures
        member_lookup(ms, k) == Some(ms[i].1),
    decreases ms.len(),
{
    if i == 0 {
    } else {
        assert forall|j: int| 0 <= j < i - 1 implies (#[trigger] ms.drop_first()[j]).0@ != k by {
            assert(ms.drop_first()[j] == ms[j + 1]);
        }
        assert(ms.drop_first()[i - 1] == ms[i]);
        lemma_member_lookup_first(ms.drop_first(), k, i - 1);
    }
}

/// Strict decoding of settings from a JSON value: an object whose members
/// are settings fields with string values, no member twice; anything else
/// is rejected.
pub open spec fn settings_of_value(v: JsonValue) -> Option<SettingsV> {
    match v {
        JsonValue::Obj(ms) => {
            if !(forall|i: int| 0 <= i < ms@.len() ==> ((#[trigger] ms@[i]).0@ == "hostname"@
                || ms@[i].0@ == "timezone"@)) {
                None
            } else if !(forall|i: int| 0 <= i < ms@.len() ==> (#[trigger] ms@[i]).1 is Str) {
                None
            } else if !(forall|i: int, j: int| 0 <= i < j < ms@.len() ==> (#[trigger] ms@[i]).0@
                != (#[trigger] ms@[j]).0@) {
                None
            } else {
                Some(
                    SettingsV {
                        hostname: match member_lookup(ms@, "hostname"@) {
                            Some(JsonValue::Str(s)) => Some(s@),
                            _ => None,
                        },
                        timezone: match member_lookup(ms@, "timezone"@) {
                            Some(JsonValue::Str(s)) => Some(s@),
                            _ => None,
                        },
                    },
                )
            }
        },
        _ => None,
    }
}

/// Decodes settings from a JSON value, strictly.
#[verifier::loop_isolation(false)]
pub fn settings_from_value(v: &JsonValue) -> (r: Option<Settings>)
    ensures
        match r {
            Some(s) => settings_of_value(*v) == Some(s@),
            None => settings_of_value(*v) is None,
        },
{
    proof {
        reveal_strlit("hostname");
        reveal_strlit("timezone");
        assert("hostname"@[0] == 'h');
        assert("timezone"@[0] == 't');
        assert("hostname"@ != "timezone"@);
    }
    match v {
        JsonValue::Obj(ms) => {
            let ghost msv = ms@;
            let mut hostname: Option<String> = None;
            let mut timezone: Option<String> = None;
            let mut i: usize = 0;
            while i < ms.len()
                invariant
                    i <= msv.len(),
                    msv == ms@,
                    forall|j: int| 0 <= j < i ==> ((#[trigger] msv[j]).0@ == "hostname"@
                        || msv[j].0@ == "timezone"@),
                    forall|j: int| 0 <= j < i ==> (#[trigger] msv[j]).1 is Str,
                    forall|a: int, b: int| 0 <= a < b < i ==> (#[trigger] msv[a]).0@
                        != (#[trigger] msv[b]).0@,
                    match hostname {
                        Some(h) => exists|j: int| 0 <= j < i && (#[trigger] msv[j]).0@
                            == "hostname"@ && is_str_with(msv[j].1, h@),
                        None => forall|j: int| 0 <= j < i ==> (#[trigger] msv[j]).0@
                            != "hostname"@,
                    },
                    match timezone {
                        Some(t) => exists|j: int| 0 <= j < i && (#[trigger] msv[j]).0@
                            == "timezone"@ && is_str_with(msv[j].1, t@),
                        None => forall|j: int| 0 <= j < i ==> (#[trigger] msv[j]).0@
                            != "timezone"@,
                    },
                decreases msv.len() - i,
            {
                let value: &String = match &ms[i].1 {
                    JsonValue::Str(s) => s,
                    _ => {
                        return None;
                    },
                };
                if str_eq(ms[i].0.as_str(), "hostname") {
                    if hostname.is_some() {
                        proof {
                            let j = choose|j: int| 0 <= j < i && (#[trigger] msv[j]).0@
                                == "hostname"@;
                            assert(msv[j].0@ == msv[i as int].0@);
                        }
                        return None;
                    }
                    hostname = Some(value.clone());
                } else if str_eq(ms[i].0.as_str(), "timezone") {
                    if timezone.is_some() {
                        proof {
                            let j = choose|j: int| 0 <= j < i && (#[trigger] msv[j]).0@
                                == "timezone"@;
                            assert(msv[j].0@ == msv[i as int].0@);
                        }
                        return None;
                    }
                    timezone = Some(value.clone());
                } else {
                    return None;
                }
                i = i + 1;
            }
            proof {
                lemma_member_lookup(msv, "hostname"@);
                lemma_member_lookup(msv, "timezone"@);
                match &hostname {
                    Some(h) => {
                        let j = choose|j: int| 0 <= j < msv.len() && (#[trigger] msv[j]).0@
                            == "hostname"@ && is_str_with(msv[j].1, h@);
                        lemma_member_lookup_first(msv, "hostname"@, j);
                    },
                    None => {},
                }
                match &timezone {
                    Some(t) => {
                        let j = choose|j: int| 0 <= j < msv.len() && (#[trigger] msv[j]).0@
                            == "timezone"@ && is_str_with(msv[j].1, t@);
                        lemma_member_lookup_first(msv, "timezone"@, j);
                    },
                    None => {},
                }
            }
            let out = Settings { hostname, timezone };
            proof {
                assert(settings_of_value(*v) == Some(out@));
            }
            Some(out)
        },
        _ => None,
    }
}

/// What `settings_input` returns, as a function of what parsing yielded:
/// a value that decodes as settings directly is taken as it is; otherwise
/// the value must be an object, its `settings` member is unwrapped and
/// decoded; each failure is reported at the stage it arises.
pub open spec fn settings_input_spec(p: Option<JsonValue>) -> Result<SettingsV, Error> {
    match p {
        None => Err(Error::InvalidJson),
        Some(v) => match settings_of_value(v) {
            Some(s) => Ok(s),
            None => match v {
                JsonValue::Obj(ms) => match member_lookup(ms@, "settings"@) {
                    Some(inner) => match settings_of_value(inner) {
                        Some(s) => Ok(s),
                        None => Err(Error::InvalidSettings),
                    },
                    None => Err(Error::NoSettings),
                },
                _ => Err(Error::NotJsonObject),
            },
        },
    }
}

/// Input normalization: a value that decodes as settings, and an object
/// that only wraps that value under a single `settings` member, are read
/// as the same settings.
pub proof fn lemma_input_normalization(inner: JsonValue, wrapper: JsonValue, s: SettingsV)
    requires
        settings_of_value(inner) == Some(s),
        wrapper matches JsonValue::Obj(ms) && ms@.len() == 1 && ms@[0].0@ == "settings"@
            && ms@[0].1 == inner,
    ensures
        settings_input_spec(Some(inner)) == Ok::<SettingsV, Error>(s),
        settings_input_spec(Some(wrapper)) == Ok::<SettingsV, Error>(s),
{
    reveal_strlit("settings");
    reveal_strlit("hostname");
    reveal_strlit("timezone");
    assert("settings"@[0] == 's');
    assert("hostname"@[0] == 'h');
    assert("timezone"@[0] == 't');
    match wrapper {
        JsonValue::Obj(ms) => {
            assert(ms@[0].0@ != "hostname"@ && ms@[0].0@ != "timezone"@);
            assert(settings_of_value(wrapper) is None);
            assert(member_lookup(ms@, "settings"@) == Some(inner));
        },
        _ => {},
    }
}

} // verus!
