//! The serialization bridge: between typed values and flat maps from dotted
//! data keys to scalar-encoded strings.
//!
//! Flattening a typed value yields one pair per present leaf; sequences are
//! stored as a single JSON-array leaf. Rebuilding is strict: a key that does
//! not belong to the typed shape is an error.

use vstd::prelude::*;
use vstd::string::StringExecFns;
use crate::error::Error;
use crate::key::{Key, KeyType, valid_data_key};
use crate::model::{ConfigurationFile, ConfigurationFileV, Service, ServiceV, Settings, SettingsV};
use crate::scalar::{
    deserialize_scalar, deserialize_scalar_list, json_string_of, lemma_parse_serialize,
    parse_json_array, parse_json_string, serialize_scalar,
};
use crate::strings::str_eq;

verus! {

broadcast use vstd::string::group_string_axioms;

/// The views of a vector of key/value pairs.
pub open spec fn pair_views(pairs: Seq<(Key, String)>) -> Seq<(Seq<char>, Seq<char>)> {
    pairs.map_values(|p: (Key, String)| (p.0@, p.1@))
}

/// No key occurs twice.
pub open spec fn keys_distinct<K, V>(pv: Seq<(K, V)>) -> bool {
    forall|i: int, j: int| 0 <= i < j < pv.len() ==> (#[trigger] pv[i]).0 != (#[trigger] pv[j]).0
}

/// The map held by an association list (later pairs win; with distinct keys
/// the order is immaterial).
pub open spec fn assoc_to_map<K, V>(pv: Seq<(K, V)>) -> Map<K, V>
    decreases pv.len(),
{
    if pv.len() == 0 {
        Map::empty()
    } else {
        assoc_to_map(pv.drop_last()).insert(pv.last().0, pv.last().1)
    }
}

pub proof fn lemma_assoc_contains<K, V>(pv: Seq<(K, V)>, k: K)
    ensures
        assoc_to_map(pv).contains_key(k) <==> exists|i: int| 0 <= i < pv.len()
            && (#[trigger] pv[i]).0 == k,
    decreases pv.len(),
{
    if pv.len() == 0 {
    } else {
        lemma_assoc_contains(pv.drop_last(), k);
        if assoc_to_map(pv).contains_key(k) {
            if pv.last().0 == k {
                assert(pv[pv.len() - 1].0 == k);
            } else {
                let i = choose|i: int| 0 <= i < pv.drop_last().len() && (#[trigger] pv.drop_last()[
                    i]).0 == k;
                assert(pv[i].0 == k);
            }
        }
        if exists|i: int| 0 <= i < pv.len() && (#[trigger] pv[i]).0 == k {
            let i = choose|i: int| 0 <= i < pv.len() && (#[trigger] pv[i]).0 == k;
            if i == pv.len() - 1 {
            } else {
                assert(pv.drop_last()[i].0 == k);
            }
        }
    }
}

pub proof fn lemma_assoc_index<K, V>(pv: Seq<(K, V)>, i: int)
    requires
        keys_distinct(pv),
        0 <= i < pv.len(),
    ensures
        assoc_to_map(pv).contains_key(pv[i].0),
        assoc_to_map(pv)[pv[i].0] == pv[i].1,
    decreases pv.len(),
{
    if pv.len() == 0 {
    } else if i == pv.len() - 1 {
    } else {
        assert(keys_distinct(pv.drop_last()));
        assert(pv.drop_last()[i] == pv[i]);
        lemma_assoc_index(pv.drop_last(), i);
        assert(pv[i].0 != pv.last().0);
    }
}

/// Replacing the pair at `i` by one with the same key updates the map at
/// that key alone.
pub proof fn lemma_assoc_update<K, V>(pv: Seq<(K, V)>, i: int, x: (K, V))
    requires
        keys_distinct(pv),
        0 <= i < pv.len(),
        pv[i].0 == x.0,
    ensures
        keys_distinct(pv.update(i, x)),
        assoc_to_map(pv.update(i, x)) == assoc_to_map(pv).insert(x.0, x.1),
{
    let pv2 = pv.update(i, x);
    assert(keys_distinct(pv2));
    assert forall|k: K|
        assoc_to_map(pv2).dom().contains(k) == assoc_to_map(pv).insert(x.0, x.1).dom().contains(
            k,
        ) by {
        lemma_assoc_contains(pv2, k);
        lemma_assoc_contains(pv, k);
        if k == x.0 {
            assert(pv2[i].0 == k);
        } else {
            if exists|j: int| 0 <= j < pv2.len() && (#[trigger] pv2[j]).0 == k {
                let j = choose|j: int| 0 <= j < pv2.len() && (#[trigger] pv2[j]).0 == k;
                assert(pv[j].0 == k);
            }
            if exists|j: int| 0 <= j < pv.len() && (#[trigger] pv[j]).0 == k {
                let j = choose|j: int| 0 <= j < pv.len() && (#[trigger] pv[j]).0 == k;
                assert(pv2[j].0 == k);
            }
        }
    }
    assert forall|k: K| assoc_to_map(pv2).dom().contains(k) implies assoc_to_map(pv2)[k]
        == assoc_to_map(pv).insert(x.0, x.1)[k] by {
        lemma_assoc_contains(pv2, k);
        let j = choose|j: int| 0 <= j < pv2.len() && (#[trigger] pv2[j]).0 == k;
        lemma_assoc_index(pv2, j);
        if k == x.0 {
            assert(pv2[i].0 == k);
            assert(j == i);
        } else {
            assert(pv[j].0 == k);
            lemma_assoc_index(pv, j);
            assert(pv2[j] == pv[j]);
        }
    }
    assert(assoc_to_map(pv2) =~= assoc_to_map(pv).insert(x.0, x.1));
}

/// Appending a pair inserts its key.
pub proof fn lemma_assoc_push<K, V>(pv: Seq<(K, V)>, x: (K, V))
    requires
        keys_distinct(pv),
        forall|j: int| 0 <= j < pv.len() ==> (#[trigger] pv[j]).0 != x.0,
    ensures
        keys_distinct(pv.push(x)),
        assoc_to_map(pv.push(x)) == assoc_to_map(pv).insert(x.0, x.1),
{
    assert(pv.push(x).drop_last() =~= pv);
    assert(pv.push(x).last() == x);
}

/// The flat image of a settings value: one pair per present field, in field
/// order, each value the JSON encoding of the string.
pub open spec fn to_pairs_spec(s: SettingsV) -> Seq<(Seq<char>, Seq<char>)> {
    let h = match s.hostname {
        Some(v) => seq![("settings.hostname"@, json_string_of(v))],
        None => Seq::empty(),
    };
    let t = match s.timezone {
        Some(v) => seq![("settings.timezone"@, json_string_of(v))],
        None => Seq::empty(),
    };
    h + t
}

/// The settings value a flat map holds: every key must be a settings field,
/// and every present value must decode as a JSON string.
pub open spec fn settings_of_map(m: Map<Seq<char>, Seq<char>>) -> Option<SettingsV> {
    let kh = "settings.hostname"@;
    let kt = "settings.timezone"@;
    if !(forall|k: Seq<char>| m.dom().contains(k) ==> k == kh || k == kt) {
        None
    } else if m.contains_key(kh) && parse_json_string(m[kh]) is None {
        None
    } else if m.contains_key(kt) && parse_json_string(m[kt]) is None {
        None
    } else {
        Some(
            SettingsV {
                hostname: if m.contains_key(kh) {
                    parse_json_string(m[kh])
                } else {
                    None
                },
                timezone: if m.contains_key(kt) {
                    parse_json_string(m[kt])
                } else {
                    None
                },
            },
        )
    }
}

/// Flattens a settings value to key/value pairs.
pub fn to_pairs(s: &Settings) -> (r: Result<Vec<(Key, String)>, Error>)
    ensures
        r is Ok,
        r matches Ok(pairs) ==> {
            &&& pair_views(pairs@) == to_pairs_spec(s@)
            &&& keys_distinct(pair_views(pairs@))
            &&& forall|i: int| 0 <= i < pairs@.len() ==> (#[trigger] pairs@[i]).0.wf()
                && pairs@[i].0.kind_spec() == KeyType::Data
        },
{
    proof {
        reveal_strlit("settings.hostname");
        reveal_strlit("settings.timezone");
        assert(valid_data_key("settings.hostname"@));
        assert(valid_data_key("settings.timezone"@));
        assert("settings.hostname"@[9] == 'h');
        assert("settings.timezone"@[9] == 't');
        assert("settings.hostname"@ != "settings.timezone"@);
    }
    let mut out: Vec<(Key, String)> = Vec::new();
    match &s.hostname {
        Some(h) => {
            let k = match Key::new(KeyType::Data, "settings.hostname") {
                Ok(k) => k,
                Err(_) => {
                    return Err(Error::Serialization { given: "settings".to_owned() });
                },
            };
            out.push((k, serialize_scalar(h.as_str())));
        },
        None => {},
    }
    match &s.timezone {
        Some(t) => {
            let k = match Key::new(KeyType::Data, "settings.timezone") {
                Ok(k) => k,
                Err(_) => {
                    return Err(Error::Serialization { given: "settings".to_owned() });
                },
            };
            out.push((k, serialize_scalar(t.as_str())));
        },
        None => {},
    }
    proof {
        assert(pair_views(out@) =~= to_pairs_spec(s@));
    }
    Ok(out)
}

/// Rebuilds a settings value from flat pairs, strictly.
#[verifier::loop_isolation(false)]
pub fn from_map(pairs: &Vec<(Key, String)>) -> (r: Result<Settings, Error>)
    requires
        keys_distinct(pair_views(pairs@)),
    ensures
        r matches Ok(s) ==> settings_of_map(assoc_to_map(pair_views(pairs@))) == Some(s@),
        r is Ok <==> settings_of_map(assoc_to_map(pair_views(pairs@))) is Some,
        r matches Err(e) ==> e matches Error::Deserialization { .. },
{
    let ghost pv = pair_views(pairs@);
    let ghost m = assoc_to_map(pv);
    let ghost kh = "settings.hostname"@;
    let ghost kt = "settings.timezone"@;
    proof {
        reveal_strlit("settings.hostname");
        reveal_strlit("settings.timezone");
        assert(kh[9] == 'h');
        assert(kt[9] == 't');
        assert(kh != kt);
    }
    let mut hostname: Option<String> = None;
    let mut timezone: Option<String> = None;
    let mut i: usize = 0;
    while i < pairs.len()
        invariant
            i <= pairs@.len(),
            pv == pair_views(pairs@),
            forall|j: int| 0 <= j < i ==> ((#[trigger] pv[j]).0 == kh || pv[j].0 == kt),
            forall|j: int| 0 <= j < i && (#[trigger] pv[j]).0 == kh ==> parse_json_string(
                pv[j].1,
            ) is Some,
            forall|j: int| 0 <= j < i && (#[trigger] pv[j]).0 == kt ==> parse_json_string(
                pv[j].1,
            ) is Some,
            match hostname {
                Some(h) => exists|j: int| 0 <= j < i && (#[trigger] pv[j]).0 == kh
                    && parse_json_string(pv[j].1) == Some(h@),
                None => forall|j: int| 0 <= j < i ==> (#[trigger] pv[j]).0 != kh,
            },
            match timezone {
                Some(t) => exists|j: int| 0 <= j < i && (#[trigger] pv[j]).0 == kt
                    && parse_json_string(pv[j].1) == Some(t@),
                None => forall|j: int| 0 <= j < i ==> (#[trigger] pv[j]).0 != kt,
            },
        decreases pairs@.len() - i,
    {
        let key = &pairs[i].0;
        proof {
            assert(pv[i as int].0 == key@ && pv[i as int].1 == pairs@[i as int].1@);
        }
        if str_eq(key.as_str(), "settings.hostname") {
            match deserialize_scalar(pairs[i].1.as_str()) {
                Ok(v) => {
                    hostname = Some(v);
                },
                Err(_) => {
                    proof {
                        lemma_assoc_index(pv, i as int);
                        assert(settings_of_map(m) is None);
                    }
                    return Err(Error::Deserialization { given: key.to_text() });
                },
            }
        } else if str_eq(key.as_str(), "settings.timezone") {
            match deserialize_scalar(pairs[i].1.as_str()) {
                Ok(v) => {
                    timezone = Some(v);
                },
                Err(_) => {
                    proof {
                        lemma_assoc_index(pv, i as int);
                        assert(settings_of_map(m) is None);
                    }
                    return Err(Error::Deserialization { given: key.to_text() });
                },
            }
        } else {
            proof {
                lemma_assoc_contains(pv, pv[i as int].0);
                assert(m.contains_key(pv[i as int].0));
                assert(settings_of_map(m) is None);
            }
            return Err(Error::Deserialization { given: key.to_text() });
        }
        i = i + 1;
    }
    proof {
        assert forall|k: Seq<char>| m.dom().contains(k) implies k == kh || k == kt by {
            lemma_assoc_contains(pv, k);
        }
        if m.contains_key(kh) {
            lemma_assoc_contains(pv, kh);
            let j = choose|j: int| 0 <= j < pv.len() && (#[trigger] pv[j]).0 == kh;
            lemma_assoc_index(pv, j);
            assert(parse_json_string(m[kh]) is Some);
            match &hostname {
                Some(h) => {
                    let j2 = choose|j2: int| 0 <= j2 < pv.len() && (#[trigger] pv[j2]).0 == kh
                        && parse_json_string(pv[j2].1) == Some(h@);
                    lemma_assoc_index(pv, j2);
                },
                None => {
                    assert(pv[j].0 != kh);
                },
            }
        } else {
            lemma_assoc_contains(pv, kh);
            match &hostname {
                Some(h) => {
                    let j2 = choose|j2: int| 0 <= j2 < pv.len() && (#[trigger] pv[j2]).0 == kh
                        && parse_json_string(pv[j2].1) == Some(h@);
                    assert(m.contains_key(kh));
                },
                None => {},
            }
        }
        if m.contains_key(kt) {
            lemma_assoc_contains(pv, kt);
            let j = choose|j: int| 0 <= j < pv.len() && (#[trigger] pv[j]).0 == kt;
            lemma_assoc_index(pv, j);
            assert(parse_json_string(m[kt]) is Some);
            match &timezone {
                Some(t) => {
                    let j2 = choose|j2: int| 0 <= j2 < pv.len() && (#[trigger] pv[j2]).0 == kt
                        && parse_json_string(pv[j2].1) == Some(t@);
                    lemma_assoc_index(pv, j2);
                },
                None => {
                    assert(pv[j].0 != kt);
                },
            }
        } else {
            lemma_assoc_contains(pv, kt);
            match &timezone {
                Some(t) => {
                    let j2 = choose|j2: int| 0 <= j2 < pv.len() && (#[trigger] pv[j2]).0 == kt
                        && parse_json_string(pv[j2].1) == Some(t@);
                    assert(m.contains_key(kt));
                },
                None => {},
            }
        }
    }
    let out = Settings { hostname, timezone };
    proof {
        assert(settings_of_map(m) == Some(out@));
    }
    Ok(out)
}

/// Round trip: rebuilding the flat image of any settings value gives the
/// value back.
pub proof fn lemma_settings_round_trip(s: SettingsV)
    ensures
        settings_of_map(assoc_to_map(to_pairs_spec(s))) == Some(s),
{
    reveal_strlit("settings.hostname");
    reveal_strlit("settings.timezone");
    let kh = "settings.hostname"@;
    let kt = "settings.timezone"@;
    assert(kh[9] == 'h');
    assert(kt[9] == 't');
    assert(kh != kt);
    let pv = to_pairs_spec(s);
    let m = assoc_to_map(pv);
    match s.hostname {
        Some(h) => {
            lemma_parse_serialize(h);
        },
        None => {},
    }
    match s.timezone {
        Some(t) => {
            lemma_parse_serialize(t);
        },
        None => {},
    }
    if s.hostname is Some && s.timezone is Some {
        assert(pv.len() == 2);
        assert(pv.drop_last().drop_last() =~= Seq::empty());
        assert(assoc_to_map(pv.drop_last().drop_last()) =~= Map::<Seq<char>, Seq<char>>::empty());
        assert(pv.drop_last().last() == pv[0]);
        assert(assoc_to_map(pv.drop_last()) =~= Map::empty().insert(pv[0].0, pv[0].1));
        assert(m =~= Map::empty().insert(pv[0].0, pv[0].1).insert(pv[1].0, pv[1].1));
        assert(settings_of_map(m) == Some(s));
    } else if s.hostname is Some || s.timezone is Some {
        assert(pv.len() == 1);
        assert(pv.drop_last() =~= Seq::empty());
        assert(assoc_to_map(pv.drop_last()) =~= Map::<Seq<char>, Seq<char>>::empty());
        assert(pv.last() == pv[0]);
        assert(m =~= Map::empty().insert(pv[0].0, pv[0].1));
        assert(settings_of_map(m) == Some(s));
    } else {
        assert(pv.len() == 0);
        assert(m =~= Map::<Seq<char>, Seq<char>>::empty());
        assert(settings_of_map(m) == Some(s));
    }
}

/// The service value a flat map with key prefix `prefix` holds: exactly the
/// two service fields, each value a JSON array of strings.
pub open spec fn service_of_map(prefix: Seq<char>, m: Map<Seq<char>, Seq<char>>) -> Option<
    ServiceV,
> {
    let kcf = prefix + ".configuration-files"@;
    let krc = prefix + ".restart-commands"@;
    if !(forall|k: Seq<char>| m.dom().contains(k) ==> k == kcf || k == krc) {
        None
    } else if !(m.contains_key(kcf) && m.contains_key(krc)) {
        None
    } else {
        match (parse_json_array(m[kcf]), parse_json_array(m[krc])) {
            (Some(cf), Some(rc)) => Some(
                (ServiceV { configuration_files: cf, restart_commands: rc }),
            ),
            _ => None,
        }
    }
}

/// Rebuilds one service from the flat pairs under its name, strictly.
#[verifier::loop_isolation(false)]
pub fn service_from_pairs(prefix: &str, pairs: &Vec<(Key, String)>) -> (r: Result<Service, Error>)
    requires
        keys_distinct(pair_views(pairs@)),
    ensures
        r matches Ok(svc) ==> service_of_map(prefix@, assoc_to_map(pair_views(pairs@))) == Some(
            svc@,
        ),
        r is Ok <==> service_of_map(prefix@, assoc_to_map(pair_views(pairs@))) is Some,
        r matches Err(e) ==> e matches Error::Deserialization { .. },
{
    let ghost pv = pair_views(pairs@);
    let ghost m = assoc_to_map(pv);
    let kcf: String = prefix.to_owned().concat(".configuration-files");
    let krc: String = prefix.to_owned().concat(".restart-commands");
    let ghost kcfv = prefix@ + ".configuration-files"@;
    let ghost krcv = prefix@ + ".restart-commands"@;
    proof {
        reveal_strlit(".configuration-files");
        reveal_strlit(".restart-commands");
        assert(kcfv.len() != krcv.len());
        assert(kcfv != krcv);
    }
    let mut cf: Option<Vec<String>> = None;
    let mut rc: Option<Vec<String>> = None;
    let mut i: usize = 0;
    while i < pairs.len()
        invariant
            i <= pairs@.len(),
            pv == pair_views(pairs@),
            kcf@ == kcfv,
            krc@ == krcv,
            forall|j: int| 0 <= j < i ==> ((#[trigger] pv[j]).0 == kcfv || pv[j].0 == krcv),
            forall|j: int| 0 <= j < i && (#[trigger] pv[j]).0 == kcfv ==> parse_json_array(
                pv[j].1,
            ) is Some,
            forall|j: int| 0 <= j < i && (#[trigger] pv[j]).0 == krcv ==> parse_json_array(
                pv[j].1,
            ) is Some,
            match cf {
                Some(v) => exists|j: int| 0 <= j < i && (#[trigger] pv[j]).0 == kcfv
                    && parse_json_array(pv[j].1) == Some(v.deep_view()),
                None => forall|j: int| 0 <= j < i ==> (#[trigger] pv[j]).0 != kcfv,
            },
            match rc {
                Some(v) => exists|j: int| 0 <= j < i && (#[trigger] pv[j]).0 == krcv
                    && parse_json_array(pv[j].1) == Some(v.deep_view()),
                None => forall|j: int| 0 <= j < i ==> (#[trigger] pv[j]).0 != krcv,
            },
        decreases pairs@.len() - i,
    {
        let key = &pairs[i].0;
        proof {
            assert(pv[i as int].0 == key@ && pv[i as int].1 == pairs@[i as int].1@);
        }
        if str_eq(key.as_str(), kcf.as_str()) {
            match deserialize_scalar_list(pairs[i].1.as_str()) {
                Ok(v) => {
                    cf = Some(v);
                },
                Err(_) => {
                    proof {
                        lemma_assoc_index(pv, i as int);
                        assert(service_of_map(prefix@, m) is None);
                    }
                    return Err(Error::Deserialization { given: key.to_text() });
                },
            }
        } else if str_eq(key.as_str(), krc.as_str()) {
            match deserialize_scalar_list(pairs[i].1.as_str()) {
                Ok(v) => {
                    rc = Some(v);
                },
                Err(_) => {
                    proof {
                        lemma_assoc_index(pv, i as int);
                        assert(service_of_map(prefix@, m) is None);
                    }
                    return Err(Error::Deserialization { given: key.to_text() });
                },
            }
        } else {
            proof {
                lemma_assoc_contains(pv, pv[i as int].0);
                assert(m.contains_key(pv[i as int].0));
                assert(service_of_map(prefix@, m) is None);
            }
            return Err(Error::Deserialization { given: key.to_text() });
        }
        i = i + 1;
    }
    proof {
        assert forall|k: Seq<char>| m.dom().contains(k) implies k == kcfv || k == krcv by {
            lemma_assoc_contains(pv, k);
        }
        lemma_assoc_contains(pv, kcfv);
        lemma_assoc_contains(pv, krcv);
    }
    match (cf, rc) {
        (Some(cfv), Some(rcv)) => {
            proof {
                let j = choose|j: int| 0 <= j < pv.len() && (#[trigger] pv[j]).0 == kcfv
                    && parse_json_array(pv[j].1) == Some(cfv.deep_view());
                lemma_assoc_index(pv, j);
                let j2 = choose|j2: int| 0 <= j2 < pv.len() && (#[trigger] pv[j2]).0 == krcv
                    && parse_json_array(pv[j2].1) == Some(rcv.deep_view());
                lemma_assoc_index(pv, j2);
            }
            let out = Service { configuration_files: cfv, restart_commands: rcv };
            proof {
                assert(service_of_map(prefix@, m) == Some(out@));
            }
            Ok(out)
        },
        (a, b) => {
            proof {
                if m.contains_key(kcfv) && m.contains_key(krcv) {
                    let j = choose|j: int| 0 <= j < pv.len() && (#[trigger] pv[j]).0 == kcfv;
                    let j2 = choose|j2: int| 0 <= j2 < pv.len() && (#[trigger] pv[j2]).0 == krcv;
                    assert(false);
                }
                assert(service_of_map(prefix@, m) is None);
            }
            Err(Error::Deserialization { given: prefix.to_owned() })
        },
    }
}

/// The configuration-file value a flat map with key prefix `prefix` holds:
/// exactly the two descriptor fields, each value a JSON string.
pub open spec fn config_file_of_map(prefix: Seq<char>, m: Map<Seq<char>, Seq<char>>) -> Option<
    ConfigurationFileV,
> {
    let kp = prefix + ".path"@;
    let kt = prefix + ".template-path"@;
    if !(forall|k: Seq<char>| m.dom().contains(k) ==> k == kp || k == kt) {
        None
    } else if !(m.contains_key(kp) && m.contains_key(kt)) {
        None
    } else {
        match (parse_json_string(m[kp]), parse_json_string(m[kt])) {
            (Some(p), Some(t)) => Some((ConfigurationFileV { path: p, template_path: t })),
            _ => None,
        }
    }
}

/// Rebuilds one configuration-file descriptor from the flat pairs under its
/// name, strictly.
#[verifier::loop_isolation(false)]
pub fn config_file_from_pairs(prefix: &str, pairs: &Vec<(Key, String)>) -> (r: Result<
    ConfigurationFile,
    Error,
>)
    requires
        keys_distinct(pair_views(pairs@)),
    ensures
        r matches Ok(f) ==> config_file_of_map(prefix@, assoc_to_map(pair_views(pairs@))) == Some(
            f@,
        ),
        r is Ok <==> config_file_of_map(prefix@, assoc_to_map(pair_views(pairs@))) is Some,
        r matches Err(e) ==> e matches Error::Deserialization { .. },
{
    let ghost pv = pair_views(pairs@);
    let ghost m = assoc_to_map(pv);
    let kp: String = prefix.to_owned().concat(".path");
    let kt: String = prefix.to_owned().concat(".template-path");
    let ghost kpv = prefix@ + ".path"@;
    let ghost ktv = prefix@ + ".template-path"@;
    proof {
        reveal_strlit(".path");
        reveal_strlit(".template-path");
        assert(kpv.len() != ktv.len());
        assert(kpv != ktv);
    }
    let mut path: Option<String> = None;
    let mut template_path: Option<String> = None;
    let mut i: usize = 0;
    while i < pairs.len()
        invariant
            i <= pairs@.len(),
            pv == pair_views(pairs@),
            kp@ == kpv,
            kt@ == ktv,
            forall|j: int| 0 <= j < i ==> ((#[trigger] pv[j]).0 == kpv || pv[j].0 == ktv),
            forall|j: int| 0 <= j < i && (#[trigger] pv[j]).0 == kpv ==> parse_json_string(
                pv[j].1,
            ) is Some,
            forall|j: int| 0 <= j < i && (#[trigger] pv[j]).0 == ktv ==> parse_json_string(
                pv[j].1,
            ) is Some,
            match path {
                Some(v) => exists|j: int| 0 <= j < i && (#[trigger] pv[j]).0 == kpv
                    && parse_json_string(pv[j].1) == Some(v@),
                None => forall|j: int| 0 <= j < i ==> (#[trigger] pv[j]).0 != kpv,
            },
            match template_path {
                Some(v) => exists|j: int| 0 <= j < i && (#[trigger] pv[j]).0 == ktv
                    && parse_json_string(pv[j].1) == Some(v@),
                None => forall|j: int| 0 <= j < i ==> (#[trigger] pv[j]).0 != ktv,
            },
        decreases pairs@.len() - i,
    {
        let key = &pairs[i].0;
        proof {
            assert(pv[i as int].0 == key@ && pv[i as int].1 == pairs@[i as int].1@);
        }
        if str_eq(key.as_str(), kp.as_str()) {
            match deserialize_scalar(pairs[i].1.as_str()) {
                Ok(v) => {
                    path = Some(v);
                },
                Err(_) => {
                    proof {
                        lemma_assoc_index(pv, i as int);
                        assert(config_file_of_map(prefix@, m) is None);
                    }
                    return Err(Error::Deserialization { given: key.to_text() });
                },
            }
        } else if str_eq(key.as_str(), kt.as_str()) {
            match deserialize_scalar(pairs[i].1.as_str()) {
                Ok(v) => {
                    template_path = Some(v);
                },
                Err(_) => {
                    proof {
                        lemma_assoc_index(pv, i as int);
                        assert(config_file_of_map(prefix@, m) is None);
                    }
                    return Err(Error::Deserialization { given: key.to_text() });
                },
            }
        } else {
            proof {
                lemma_assoc_contains(pv, pv[i as int].0);
                assert(m.contains_key(pv[i as int].0));
                assert(config_file_of_map(prefix@, m) is None);
            }
            return Err(Error::Deserialization { given: key.to_text() });
        }
        i = i + 1;
    }
    proof {
        assert forall|k: Seq<char>| m.dom().contains(k) implies k == kpv || k == ktv by {
            lemma_assoc_contains(pv, k);
        }
        lemma_assoc_contains(pv, kpv);
        lemma_assoc_contains(pv, ktv);
    }
    match (path, template_path) {
        (Some(p), Some(t)) => {
            proof {
                let j = choose|j: int| 0 <= j < pv.len() && (#[trigger] pv[j]).0 == kpv
                    && parse_json_string(pv[j].1) == Some(p@);
                lemma_assoc_index(pv, j);
                let j2 = choose|j2: int| 0 <= j2 < pv.len() && (#[trigger] pv[j2]).0 == ktv
                    && parse_json_string(pv[j2].1) == Some(t@);
                lemma_assoc_index(pv, j2);
            }
            let out = ConfigurationFile { path: p, template_path: t };
            proof {
                assert(config_file_of_map(prefix@, m) == Some(out@));
            }
            Ok(out)
        },
        (a, b) => {
            proof {
                if m.contains_key(kpv) && m.contains_key(ktv) {
                    let j = choose|j: int| 0 <= j < pv.len() && (#[trigger] pv[j]).0 == kpv;
                    let j2 = choose|j2: int| 0 <= j2 < pv.len() && (#[trigger] pv[j2]).0 == ktv;
                    assert(false);
                }
                assert(config_file_of_map(prefix@, m) is None);
            }
            Err(Error::Deserialization { given: prefix.to_owned() })
        },
    }
}

} // verus!
