//! Typed read/write operations over a datastore: settings, services and
//! configuration-file accessors, user-input normalization, and commit.

use vstd::prelude::*;
use vstd::string::{StrSliceExecFns, StringExecFns};
use crate::Committed;
use crate::datastore::{DataStore, restrict_prefix, scope_sel};
use crate::error::{Error, is_store_error};
use crate::json::{
    JsonValue, json_parse, json_parse_of, lemma_member_lookup, lemma_member_lookup_first,
    member_lookup, settings_from_value, settings_input_spec,
};
use crate::key::{Key, KeyType};
use crate::model::{ConfigurationFile, ConfigurationFiles, Service, Services, Settings, SettingsV};
use crate::scalar::{deserialize_scalar, parse_json_string, serialize_scalar_list};
use crate::serialization::{
    assoc_to_map, config_file_from_pairs, config_file_of_map, from_map, keys_distinct,
    lemma_assoc_contains, lemma_assoc_index, pair_views, service_from_pairs, service_of_map,
    settings_of_map, to_pairs,
};
use crate::strings::{names_contain, str_eq, str_starts_with};

verus! {

broadcast use vstd::string::group_string_axioms;

/// Lists the keys under `find_prefix` in a scope and reads each one; the
/// pairs returned hold exactly the scope's data restricted to the prefix.
#[verifier::loop_isolation(false)]
fn get_prefix_data<D: DataStore>(datastore: &D, committed: Committed, find_prefix: &str) -> (r:
    Result<Vec<(Key, String)>, Error>)
    requires
        datastore.inv(),
    ensures
        r matches Ok(pairs) ==> ({
            &&& keys_distinct(pair_views(pairs@))
            &&& forall|i: int| 0 <= i < pairs@.len() ==> (#[trigger] pairs@[i]).0.wf()
                && pairs@[i].0.kind_spec() == KeyType::Data
            &&& assoc_to_map(pair_views(pairs@)) == restrict_prefix(
                scope_sel(datastore.live_map(), datastore.pending_map(), committed),
                find_prefix@,
            )
        }),
        r matches Err(e) ==> is_store_error(e),
        datastore.ops_ok() ==> r is Ok,
{
    let keys = match datastore.list_populated_keys(find_prefix, committed) {
        Ok(k) => k,
        Err(e) => {
            return Err(e);
        },
    };
    let ghost scope = scope_sel(datastore.live_map(), datastore.pending_map(), committed);
    let mut pairs: Vec<(Key, String)> = Vec::new();
    let mut i: usize = 0;
    while i < keys.len()
        invariant
            i <= keys@.len(),
            pairs@.len() == i,
            forall|a: int| 0 <= a < i ==> (#[trigger] pairs@[a]).0 == keys@[a],
            forall|a: int| 0 <= a < i ==> scope.dom().contains((#[trigger] pairs@[a]).0@)
                && scope[pairs@[a].0@] == pairs@[a].1@,
        decreases keys@.len() - i,
    {
        let value = match datastore.get_key(&keys[i], committed) {
            Ok(Some(v)) => v,
            Ok(None) => {
                // a key the unchanged store just listed is always readable
                proof {
                    assert(false);
                }
                return Err(
                    Error::Corruption {
                        path: keys[i].to_text(),
                        msg: "listed key not present".to_owned(),
                    },
                );
            },
            Err(e) => {
                return Err(e);
            },
        };
        pairs.push((keys[i].dup(), value));
        i = i + 1;
    }
    let ghost pv = pair_views(pairs@);
    proof {
        assert(keys_distinct(pv));
        assert forall|k: Seq<char>|
            assoc_to_map(pv).dom().contains(k) == restrict_prefix(
                scope,
                find_prefix@,
            ).dom().contains(k) by {
            lemma_assoc_contains(pv, k);
            if restrict_prefix(scope, find_prefix@).dom().contains(k) {
                let a = choose|a: int| 0 <= a < keys@.len() && (#[trigger] keys@[a])@ == k;
                assert(pv[a].0 == k);
            }
            if assoc_to_map(pv).dom().contains(k) {
                let a = choose|a: int| 0 <= a < pv.len() && (#[trigger] pv[a]).0 == k;
                assert(scope.dom().contains(k) && find_prefix@.is_prefix_of(k));
            }
        }
        assert forall|k: Seq<char>| assoc_to_map(pv).dom().contains(k) implies assoc_to_map(pv)[k]
            == restrict_prefix(scope, find_prefix@)[k] by {
            lemma_assoc_contains(pv, k);
            let a = choose|a: int| 0 <= a < pv.len() && (#[trigger] pv[a]).0 == k;
            lemma_assoc_index(pv, a);
        }
        assert(assoc_to_map(pv) =~= restrict_prefix(scope, find_prefix@));
    }
    Ok(pairs)
}

/// Builds the settings held by a scope. The scope must hold settings: an
/// empty settings subtree is reported as missing data.
pub fn get_settings<D: DataStore>(datastore: &D, committed: Committed) -> (r: Result<
    Settings,
    Error,
>)
    requires
        datastore.inv(),
    ensures
        r matches Ok(s) ==> ({
            let sub = restrict_prefix(scope_sel(datastore.live_map(), datastore.pending_map(), committed), "settings."@);
            sub.dom() != Set::<Seq<char>>::empty() && settings_of_map(sub) == Some(s@)
        }),
        r matches Err(e) ==> (e matches Error::MissingData { .. } ==> restrict_prefix(
            scope_sel(datastore.live_map(), datastore.pending_map(), committed),
            "settings."@,
        ).dom() == Set::<Seq<char>>::empty()),
        r matches Err(e) ==> (e matches Error::Deserialization { .. } ==> settings_of_map(
            restrict_prefix(scope_sel(datastore.live_map(), datastore.pending_map(), committed), "settings."@),
        ) is None),
        r matches Err(e) ==> (is_store_error(e) || e matches Error::MissingData { .. }
            || e matches Error::Deserialization { .. }),
        r matches Err(e) ==> (e matches Error::MissingData { prefix } ==> prefix@ == "settings"@),
        datastore.ops_ok() ==> (restrict_prefix(
            scope_sel(datastore.live_map(), datastore.pending_map(), committed),
            "settings."@,
        ).dom() == Set::<Seq<char>>::empty() ==> r matches Err(Error::MissingData { .. })),
        datastore.ops_ok() ==> (r is Ok <==> ({
            let sub = restrict_prefix(scope_sel(datastore.live_map(), datastore.pending_map(), committed), "settings."@);
            sub.dom() != Set::<Seq<char>>::empty() && settings_of_map(sub) is Some
        })),
{
    let pairs = match get_prefix_data(datastore, committed, "settings.") {
        Ok(p) => p,
        Err(e) => {
            return Err(e);
        },
    };
    let ghost sub = restrict_prefix(scope_sel(datastore.live_map(), datastore.pending_map(), committed), "settings."@);
    if pairs.len() == 0 {
        proof {
            assert(pair_views(pairs@) =~= Seq::<(Seq<char>, Seq<char>)>::empty());
            assert(sub =~= Map::<Seq<char>, Seq<char>>::empty());
            assert(sub.dom() =~= Set::<Seq<char>>::empty());
        }
        return Err(Error::MissingData { prefix: "settings".to_owned() });
    }
    proof {
        lemma_assoc_contains(pair_views(pairs@), pair_views(pairs@)[0].0);
        assert(sub.dom().contains(pair_views(pairs@)[0].0));
    }
    match from_map(&pairs) {
        Ok(s) => Ok(s),
        Err(e) => Err(e),
    }
}

/// Builds the settings held by a scope under `"settings."` followed by the
/// given prefix; an empty result is legal and yields the default settings.
pub fn get_settings_prefix<D: DataStore>(datastore: &D, prefix: &str, committed: Committed) -> (r:
    Result<Settings, Error>)
    requires
        datastore.inv(),
    ensures
        r matches Ok(s) ==> ({
            let sub = restrict_prefix(scope_sel(datastore.live_map(), datastore.pending_map(), committed), "settings."@ + prefix@);
            if sub.dom() == Set::<Seq<char>>::empty() {
                s@ == (SettingsV { hostname: None, timezone: None })
            } else {
                settings_of_map(sub) == Some(s@)
            }
        }),
        r matches Err(e) ==> (e matches Error::Deserialization { .. } ==> settings_of_map(
            restrict_prefix(scope_sel(datastore.live_map(), datastore.pending_map(), committed), "settings."@ + prefix@),
        ) is None),
        r matches Err(e) ==> (is_store_error(e) || e matches Error::Deserialization { .. }),
        datastore.ops_ok() ==> (r is Ok <==> ({
            let sub = restrict_prefix(scope_sel(datastore.live_map(), datastore.pending_map(), committed), "settings."@ + prefix@);
            sub.dom() == Set::<Seq<char>>::empty() || settings_of_map(sub) is Some
        })),
{
    let find = "settings.".to_owned().concat(prefix);
    let pairs = match get_prefix_data(datastore, committed, find.as_str()) {
        Ok(p) => p,
        Err(e) => {
            return Err(e);
        },
    };
    let ghost sub = restrict_prefix(scope_sel(datastore.live_map(), datastore.pending_map(), committed), "settings."@ + prefix@);
    if pairs.len() == 0 {
        proof {
            assert(pair_views(pairs@) =~= Seq::<(Seq<char>, Seq<char>)>::empty());
            assert(sub =~= Map::<Seq<char>, Seq<char>>::empty());
            assert(sub.dom() =~= Set::<Seq<char>>::empty());
        }
        return Ok(Settings::default());
    }
    proof {
        lemma_assoc_contains(pair_views(pairs@), pair_views(pairs@)[0].0);
        assert(sub.dom().contains(pair_views(pairs@)[0].0));
    }
    match from_map(&pairs) {
        Ok(s) => Ok(s),
        Err(e) => Err(e),
    }
}

/// Builds the settings staged in the pending scope; empty pending yields
/// the default settings.
pub fn get_pending_settings<D: DataStore>(datastore: &D) -> (r: Result<Settings, Error>)
    requires
        datastore.inv(),
    ensures
        r matches Ok(s) ==> ({
            let sub = restrict_prefix(datastore.pending_map(), "settings."@);
            if sub.dom() == Set::<Seq<char>>::empty() {
                s@ == (SettingsV { hostname: None, timezone: None })
            } else {
                settings_of_map(sub) == Some(s@)
            }
        }),
        r matches Err(e) ==> (is_store_error(e) || e matches Error::Deserialization { .. }),
        datastore.ops_ok() ==> (r is Ok <==> ({
            let sub = restrict_prefix(datastore.pending_map(), "settings."@);
            sub.dom() == Set::<Seq<char>>::empty() || settings_of_map(sub) is Some
        })),
{
    let r = get_settings_prefix(datastore, "", Committed::Pending);
    proof {
        reveal_strlit("");
        assert(""@.len() == 0);
        assert("settings."@ + ""@ =~= "settings."@);
        assert(restrict_prefix(datastore.pending_map(), "settings."@ + ""@) == restrict_prefix(
            datastore.pending_map(),
            "settings."@,
        ));
        assert(scope_sel(datastore.live_map(), datastore.pending_map(), Committed::Pending) == datastore.pending_map());
    }
    r
}

/// Flattens the given settings and stages every present field in the
/// pending scope; the live scope and metadata are untouched.
pub fn set_settings<D: DataStore>(datastore: &mut D, settings: &Settings) -> (r: Result<(), Error>)
    requires
        old(datastore).inv(),
    ensures
        final(datastore).inv(),
        final(datastore).ops_ok() == old(datastore).ops_ok(),
        r is Ok ==> ({
            &&& final(datastore).pending_map() == old(datastore).pending_map().union_prefer_right(
                assoc_to_map(crate::serialization::to_pairs_spec(settings@)),
            )
            &&& final(datastore).live_map() == old(datastore).live_map()
            &&& final(datastore).meta_map() == old(datastore).meta_map()
        }),
        r matches Err(e) ==> is_store_error(e),
        old(datastore).ops_ok() ==> r is Ok,
{
    let pairs = match to_pairs(settings) {
        Ok(p) => p,
        Err(_) => {
            proof {
                assert(false);
            }
            return Err(Error::Io { path: "".to_owned() });
        },
    };
    let r = crate::datastore::set_keys(datastore, &pairs, Committed::Pending);
    proof {
        if r is Ok {
            assert(pair_views(pairs@) == crate::serialization::to_pairs_spec(settings@));
            assert(scope_sel(datastore.live_map(), datastore.pending_map(), Committed::Pending)
                == scope_sel(
                old(datastore).live_map(),
                old(datastore).pending_map(),
                Committed::Pending,
            ).union_prefer_right(assoc_to_map(pair_views(pairs@))));
            assert(datastore.pending_map() == old(datastore).pending_map().union_prefer_right(
                assoc_to_map(crate::serialization::to_pairs_spec(settings@)),
            ));
        }
    }
    r
}

/// Makes the pending settings live, returning the changed keys: exactly
/// the data keys that were pending under `"settings."`, now readable from
/// the live scope with their staged values, with nothing left pending.
pub fn commit<D: DataStore>(datastore: &mut D) -> (r: Result<Vec<Key>, Error>)
    requires
        old(datastore).inv(),
    ensures
        final(datastore).inv(),
        final(datastore).ops_ok() == old(datastore).ops_ok(),
        r matches Ok(keys) ==> ({
            let moved = restrict_prefix(old(datastore).pending_map(), "settings."@);
            &&& forall|i: int, j: int| 0 <= i < j < keys@.len() ==> (#[trigger] keys@[i])@
                != (#[trigger] keys@[j])@
            &&& forall|i: int| 0 <= i < keys@.len() ==> moved.dom().contains(
                (#[trigger] keys@[i])@,
            )
            &&& forall|k: Seq<char>| moved.dom().contains(k) ==> exists|i: int| 0 <= i
                < keys@.len() && (#[trigger] keys@[i])@ == k
            &&& final(datastore).live_map() == old(datastore).live_map().union_prefer_right(moved)
            &&& final(datastore).pending_map() == Map::<Seq<char>, Seq<char>>::empty()
            &&& final(datastore).meta_map() == old(datastore).meta_map()
        }),
        r matches Err(e) ==> is_store_error(e),
        old(datastore).ops_ok() ==> r is Ok,
{
    datastore.commit()
}

/// Parses user input into settings. Input shaped like the settings object
/// itself is taken directly; input wrapping it as `{"settings": {...}}` is
/// unwrapped first. Each way the input can fail is reported as its own
/// error, in fallback order.
#[verifier::loop_isolation(false)]
pub fn settings_input(input: &str) -> (r: Result<Settings, Error>)
    ensures
        r matches Ok(s) ==> settings_input_spec(json_parse_of(input@)) == Ok::<SettingsV, Error>(
            s@,
        ),
        r matches Err(e) ==> settings_input_spec(json_parse_of(input@)) == Err::<SettingsV, Error>(
            e,
        ),
{
    let parsed = match json_parse(input) {
        Some(v) => v,
        None => {
            return Err(Error::InvalidJson);
        },
    };
    match settings_from_value(&parsed) {
        Some(s) => Ok(s),
        None => {
            match parsed {
                JsonValue::Obj(ms) => {
                    let ghost msv = ms@;
                    let mut i: usize = 0;
                    while i < ms.len()
                        invariant
                            i <= msv.len(),
                            msv == ms@,
                            forall|j: int| 0 <= j < i ==> (#[trigger] msv[j]).0@ != "settings"@,
                        decreases msv.len() - i,
                    {
                        if str_eq(ms[i].0.as_str(), "settings") {
                            proof {
                                lemma_member_lookup_first(msv, "settings"@, i as int);
                            }
                            return match settings_from_value(&ms[i].1) {
                                Some(s) => Ok(s),
                                None => Err(Error::InvalidSettings),
                            };
                        }
                        i = i + 1;
                    }
                    proof {
                        lemma_member_lookup(msv, "settings"@);
                        match member_lookup(msv, "settings"@) {
                            Some(v) => {
                                let j = choose|j: int| 0 <= j < msv.len() && (#[trigger] msv[j]).0@
                                    == "settings"@ && msv[j].1 == v;
                                assert(false);
                            },
                            None => {},
                        }
                    }
                    Err(Error::NoSettings)
                },
                _ => Err(Error::NotJsonObject),
            }
        },
    }
}

/// The part of `scope` at the requested keys: only requested keys, only
/// where populated.
pub open spec fn keys_slice(scope: Map<Seq<char>, Seq<char>>, req: Seq<Seq<char>>) -> Map<
    Seq<char>,
    Seq<char>,
> {
    Map::new(
        |k: Seq<char>| req.contains(k) && scope.dom().contains(k),
        |k: Seq<char>| scope[k],
    )
}

/// Builds the settings held by a scope at the given keys alone; a
/// requested key that is not populated is silently skipped (the typed
/// decode treats it as absent).
#[verifier::loop_isolation(false)]
pub fn get_settings_keys<D: DataStore>(datastore: &D, keys: &Vec<String>, committed: Committed) -> (
    r: Result<Settings, Error>)
    requires
        datastore.inv(),
        forall|i: int, j: int| 0 <= i < j < keys@.len() ==> keys@[i]@ != keys@[j]@,
    ensures
        r matches Ok(s) ==> settings_of_map(
            keys_slice(
                scope_sel(datastore.live_map(), datastore.pending_map(), committed),
                keys.deep_view(),
            ),
        ) == Some(s@),
        r matches Err(e) ==> (e matches Error::InvalidKey { .. } ==> exists|i: int| 0 <= i
            < keys@.len() && !crate::key::valid_data_key((#[trigger] keys@[i])@)),
        r matches Err(e) ==> (e matches Error::Deserialization { .. } ==> settings_of_map(
            keys_slice(
                scope_sel(datastore.live_map(), datastore.pending_map(), committed),
                keys.deep_view(),
            ),
        ) is None),
        r matches Err(e) ==> (is_store_error(e) || e matches Error::InvalidKey { .. }
            || e matches Error::Deserialization { .. }),
        datastore.ops_ok() ==> (r is Ok <==> ((forall|i: int| 0 <= i < keys@.len()
            ==> crate::key::valid_data_key((#[trigger] keys@[i])@)) && settings_of_map(
            keys_slice(
                scope_sel(datastore.live_map(), datastore.pending_map(), committed),
                keys.deep_view(),
            ),
        ) is Some)),
{
    let ghost scope = scope_sel(datastore.live_map(), datastore.pending_map(), committed);
    let ghost dv = keys.deep_view();
    let mut pairs: Vec<(Key, String)> = Vec::new();
    let mut i: usize = 0;
    while i < keys.len()
        invariant
            i <= keys@.len(),
            dv == keys.deep_view(),
            keys_distinct(pair_views(pairs@)),
            forall|a: int| 0 <= a < pairs@.len() ==> (#[trigger] pairs@[a]).0.wf()
                && pairs@[a].0.kind_spec() == KeyType::Data,
            forall|j: int| 0 <= j < i ==> crate::key::valid_data_key((#[trigger] dv[j])),
            assoc_to_map(pair_views(pairs@)) == keys_slice(scope, dv.take(i as int)),
        decreases keys@.len() - i,
    {
        let ghost pre = assoc_to_map(pair_views(pairs@));
        let key = match Key::new(KeyType::Data, keys[i].as_str()) {
            Ok(k) => k,
            Err(e) => {
                return Err(e);
            },
        };
        proof {
            assert(dv.take(i as int + 1) =~= dv.take(i as int).push(dv[i as int]));
        }
        match datastore.get_key(&key, committed) {
            Ok(Some(v)) => {
                let ghost pv0 = pair_views(pairs@);
                pairs.push((key, v));
                proof {
                    assert(pair_views(pairs@) =~= pv0.push((dv[i as int], v@)));
                    assert forall|j: int| 0 <= j < pv0.len() implies (#[trigger] pv0[j]).0
                        != dv[i as int] by {
                        lemma_assoc_contains(pv0, pv0[j].0);
                        assert(pre.dom().contains(pv0[j].0));
                        if pv0[j].0 == dv[i as int] {
                            let w = choose|w: int| 0 <= w < i && #[trigger] dv.take(i as int)[w]
                                == pv0[j].0;
                            assert(dv[w] == dv[i as int]);
                            assert(keys@[w]@ == keys@[i as int]@);
                        }
                    }
                    crate::serialization::lemma_assoc_push(pv0, (dv[i as int], v@));
                    assert forall|k: Seq<char>|
                        keys_slice(scope, dv.take(i as int + 1)).dom().contains(k)
                            == pre.insert(dv[i as int], v@).dom().contains(k) by {
                        if k == dv[i as int] {
                            assert(dv.take(i as int + 1)[i as int] == k);
                            assert(dv.take(i as int + 1).contains(k));
                        } else {
                            if dv.take(i as int + 1).contains(k) {
                                let w = choose|w: int| 0 <= w < i + 1 && #[trigger] dv.take(
                                    i as int + 1,
                                )[w] == k;
                                assert(dv.take(i as int)[w] == k);
                                assert(dv.take(i as int).contains(k));
                            }
                            if dv.take(i as int).contains(k) {
                                let w = choose|w: int| 0 <= w < i && #[trigger] dv.take(
                                    i as int,
                                )[w] == k;
                                assert(dv.take(i as int + 1)[w] == k);
                            }
                        }
                    }
                    assert(keys_slice(scope, dv.take(i as int + 1)) =~= pre.insert(
                        dv[i as int],
                        v@,
                    ));
                }
            },
            Ok(None) => {
                proof {
                    assert forall|k: Seq<char>|
                        keys_slice(scope, dv.take(i as int + 1)).dom().contains(k)
                            == keys_slice(scope, dv.take(i as int)).dom().contains(k) by {
                        if k == dv[i as int] {
                            assert(!scope.dom().contains(k));
                        } else {
                            if dv.take(i as int + 1).contains(k) {
                                let w = choose|w: int| 0 <= w < i + 1 && #[trigger] dv.take(
                                    i as int + 1,
                                )[w] == k;
                                assert(dv.take(i as int)[w] == k);
                                assert(dv.take(i as int).contains(k));
                            }
                            if dv.take(i as int).contains(k) {
                                let w = choose|w: int| 0 <= w < i && #[trigger] dv.take(
                                    i as int,
                                )[w] == k;
                                assert(dv.take(i as int + 1)[w] == k);
                            }
                        }
                    }
                    assert(keys_slice(scope, dv.take(i as int + 1)) =~= keys_slice(
                        scope,
                        dv.take(i as int),
                    ));
                }
            },
            Err(e) => {
                return Err(e);
            },
        }
        i = i + 1;
    }
    proof {
        assert(dv.take(dv.len() as int) =~= dv);
        assert forall|j: int| 0 <= j < keys@.len() implies crate::key::valid_data_key(
            (#[trigger] keys@[j])@,
        ) by {
            assert(dv[j] == keys@[j]@);
        }
    }
    from_map(&pairs)
}

/// The recursively collected (data key, decoded value) pairs for one
/// metadata key over the requested data keys, in request order, skipping
/// the keys the metadata is absent for.
pub open spec fn meta_present(
    meta: Map<(Seq<char>, Seq<char>), Seq<char>>,
    md: Seq<char>,
    dks: Seq<Seq<char>>,
) -> Seq<Seq<char>>
    decreases dks.len(),
{
    if dks.len() == 0 {
        Seq::empty()
    } else {
        meta_present(meta, md, dks.drop_last()) + (if meta.dom().contains((md, dks.last())) {
            seq![dks.last()]
        } else {
            Seq::empty()
        })
    }
}

/// The value of one metadata key for each of the requested data keys.
/// A key the metadata is absent for — or, on a fallible backend, cannot be
/// read for — is skipped; this best-effort reading is deliberate. A value
/// that does not decode as a JSON string is an error.
#[verifier::loop_isolation(false)]
pub fn get_metadata<D: DataStore>(
    datastore: &D,
    md_key_str: &str,
    data_key_strs: &Vec<String>,
) -> (r: Result<Vec<(String, String)>, Error>)
    requires
        datastore.inv(),
    ensures
        r matches Ok(m) ==> ({
            &&& forall|a: int| 0 <= a < m@.len() ==> datastore.meta_map().dom().contains(
                (md_key_str@, (#[trigger] m@[a]).0@),
            ) && parse_json_string(datastore.meta_map()[(md_key_str@, m@[a].0@)]) == Some(
                m@[a].1@,
            )
            &&& datastore.ops_ok() ==> m@.map_values(|p: (String, String)| p.0@) == meta_present(
                datastore.meta_map(),
                md_key_str@,
                data_key_strs.deep_view(),
            )
        }),
        r matches Err(e) ==> (e matches Error::InvalidKey { .. }
            || e matches Error::ScalarSerialization { .. }),
        r matches Err(e) ==> (e matches Error::InvalidKey { .. } ==> (!crate::key::valid_meta_key(
            md_key_str@,
        ) || exists|i: int| 0 <= i < data_key_strs@.len() && !crate::key::valid_data_key(
            (#[trigger] data_key_strs@[i])@,
        ))),
        datastore.ops_ok() ==> (r is Ok <==> (crate::key::valid_meta_key(md_key_str@) && (forall|
            i: int,
        | 0 <= i < data_key_strs@.len() ==> crate::key::valid_data_key(
            (#[trigger] data_key_strs@[i])@,
        )) && (forall|i: int| 0 <= i < data_key_strs@.len()
            && datastore.meta_map().dom().contains((md_key_str@, (#[trigger] data_key_strs@[i])@))
            ==> parse_json_string(
            datastore.meta_map()[(md_key_str@, data_key_strs@[i]@)],
        ) is Some))),
{
    let md_key = match Key::new(KeyType::Meta, md_key_str) {
        Ok(k) => k,
        Err(e) => {
            return Err(e);
        },
    };
    let ghost meta = datastore.meta_map();
    let ghost dv = data_key_strs.deep_view();
    let mut out: Vec<(String, String)> = Vec::new();
    let mut i: usize = 0;
    while i < data_key_strs.len()
        invariant
            i <= data_key_strs@.len(),
            dv == data_key_strs.deep_view(),
            forall|j: int| 0 <= j < i ==> crate::key::valid_data_key((#[trigger] dv[j])),
            forall|a: int| 0 <= a < out@.len() ==> meta.dom().contains(
                (md_key_str@, (#[trigger] out@[a]).0@),
            ) && parse_json_string(meta[(md_key_str@, out@[a].0@)]) == Some(out@[a].1@),
            datastore.ops_ok() ==> out@.map_values(|p: (String, String)| p.0@) == meta_present(
                meta,
                md_key_str@,
                dv.take(i as int),
            ),
            datastore.ops_ok() ==> forall|j: int| 0 <= j < i && meta.dom().contains(
                (md_key_str@, #[trigger] dv[j]),
            ) ==> parse_json_string(meta[(md_key_str@, dv[j])]) is Some,
        decreases data_key_strs@.len() - i,
    {
        let data_key = match Key::new(KeyType::Data, data_key_strs[i].as_str()) {
            Ok(k) => k,
            Err(e) => {
                proof {
                    assert(!crate::key::valid_data_key(data_key_strs@[i as int]@));
                }
                return Err(e);
            },
        };
        proof {
            assert(dv.take(i as int + 1).drop_last() =~= dv.take(i as int));
            assert(dv.take(i as int + 1).last() == dv[i as int]);
        }
        let ghost out_pre = out@;
        match datastore.get_metadata_raw(&md_key, &data_key) {
            Ok(Some(value_str)) => {
                let value = match deserialize_scalar(value_str.as_str()) {
                    Ok(v) => v,
                    Err(_) => {
                        proof {
                            if datastore.ops_ok() {
                                assert(meta.dom().contains((md_key_str@, dv[i as int])));
                                assert(parse_json_string(
                                    meta[(md_key_str@, dv[i as int])],
                                ) is None);
                                assert(dv[i as int] == data_key_strs@[i as int]@);
                            }
                        }
                        return Err(
                            Error::ScalarSerialization { given: data_key_strs[i].clone() },
                        );
                    },
                };
                out.push((data_key_strs[i].clone(), value));
                proof {
                    assert(out@ =~= out_pre.push((data_key_strs@[i as int], value)));
                    if datastore.ops_ok() {
                        assert(out@.map_values(|p: (String, String)| p.0@) =~= out_pre.map_values(
                            |p: (String, String)| p.0@,
                        ).push(dv[i as int]));
                        assert(meta_present(meta, md_key_str@, dv.take(i as int + 1))
                            =~= meta_present(meta, md_key_str@, dv.take(i as int)).push(
                            dv[i as int],
                        ));
                    }
                }
            },
            Ok(None) => {
                proof {
                    if datastore.ops_ok() {
                        assert(meta_present(meta, md_key_str@, dv.take(i as int + 1))
                            =~= meta_present(meta, md_key_str@, dv.take(i as int)));
                    }
                }
            },
            Err(_) => {
                proof {
                    assert(!datastore.ops_ok());
                }
            },
        }
        i = i + 1;
    }
    proof {
        assert(dv.take(dv.len() as int) =~= dv);
        assert forall|j: int| 0 <= j < data_key_strs@.len() implies crate::key::valid_data_key(
            (#[trigger] data_key_strs@[j])@,
        ) by {
            assert(dv[j] == data_key_strs@[j]@);
        }
        if datastore.ops_ok() {
            assert forall|j: int|
                0 <= j < data_key_strs@.len() && meta.dom().contains(
                    (md_key_str@, (#[trigger] data_key_strs@[j])@),
                ) implies parse_json_string(
                meta[(md_key_str@, data_key_strs@[j]@)],
            ) is Some by {
                assert(dv[j] == data_key_strs@[j]@);
            }
        }
    }
    Ok(out)
}

/// Builds the services with the given names from a scope. Every requested
/// name must have populated keys, else the listing is reported; each
/// service must decode exactly.
#[verifier::loop_isolation(false)]
pub fn get_services_names<D: DataStore>(
    datastore: &D,
    names: &Vec<String>,
    committed: Committed,
) -> (r: Result<Services, Error>)
    requires
        datastore.inv(),
    ensures
        r matches Ok(svcs) ==> ({
            &&& svcs@.len() == names@.len()
            &&& forall|i: int| 0 <= i < svcs@.len() ==> (#[trigger] svcs@[i]).0@ == names@[i]@
            &&& forall|i: int| 0 <= i < svcs@.len() ==> service_of_map(
                "services."@ + names@[i]@,
                restrict_prefix(
                    scope_sel(datastore.live_map(), datastore.pending_map(), committed),
                    "services."@ + names@[i]@,
                ),
            ) == Some((#[trigger] svcs@[i]).1@)
        }),
        r matches Err(e) ==> (e matches Error::ListKeys { requested } ==> exists|i: int| 0 <= i
            < names@.len() && restrict_prefix(
            scope_sel(datastore.live_map(), datastore.pending_map(), committed),
            "services."@ + (#[trigger] names@[i])@,
        ).dom() == Set::<Seq<char>>::empty() && requested@ == "services."@ + names@[i]@),
        r matches Err(e) ==> (e matches Error::Deserialization { .. } ==> exists|i: int| 0 <= i
            < names@.len() && service_of_map(
            "services."@ + (#[trigger] names@[i])@,
            restrict_prefix(
                scope_sel(datastore.live_map(), datastore.pending_map(), committed),
                "services."@ + names@[i]@,
            ),
        ) is None),
        datastore.ops_ok() ==> (forall|i: int|
            ({
                let scope = scope_sel(datastore.live_map(), datastore.pending_map(), committed);
                0 <= i < names@.len() && (forall|j: int| 0 <= j < i ==> service_of_map(
                    "services."@ + (#[trigger] names@[j])@,
                    restrict_prefix(scope, "services."@ + names@[j]@),
                ) is Some) && restrict_prefix(
                    scope,
                    "services."@ + (#[trigger] names@[i])@,
                ).dom() == Set::<Seq<char>>::empty()
            }) ==> (r matches Err(Error::ListKeys { requested }) && requested@ == "services."@
                + names@[i]@)),
        datastore.ops_ok() ==> (forall|i: int|
            ({
                let scope = scope_sel(datastore.live_map(), datastore.pending_map(), committed);
                0 <= i < names@.len() && (forall|j: int| 0 <= j < i ==> service_of_map(
                    "services."@ + (#[trigger] names@[j])@,
                    restrict_prefix(scope, "services."@ + names@[j]@),
                ) is Some) && service_of_map(
                    "services."@ + (#[trigger] names@[i])@,
                    restrict_prefix(scope, "services."@ + names@[i]@),
                ) is None && restrict_prefix(scope, "services."@ + names@[i]@).dom()
                    != Set::<Seq<char>>::empty()
            }) ==> r matches Err(Error::Deserialization { .. })),
        r matches Err(e) ==> (is_store_error(e) || e matches Error::ListKeys { .. }
            || e matches Error::Deserialization { .. }),
        datastore.ops_ok() ==> (r is Ok <==> (forall|i: int| 0 <= i < names@.len()
            ==> service_of_map(
            "services."@ + (#[trigger] names@[i])@,
            restrict_prefix(
                scope_sel(datastore.live_map(), datastore.pending_map(), committed),
                "services."@ + names@[i]@,
            ),
        ) is Some)),
{
    let ghost scope = scope_sel(datastore.live_map(), datastore.pending_map(), committed);
    let mut out: Services = Vec::new();
    let mut i: usize = 0;
    while i < names.len()
        invariant
            i <= names@.len(),
            out@.len() == i,
            forall|a: int| 0 <= a < i ==> (#[trigger] out@[a]).0@ == names@[a]@,
            forall|a: int| 0 <= a < i ==> service_of_map(
                "services."@ + names@[a]@,
                restrict_prefix(scope, "services."@ + names@[a]@),
            ) == Some((#[trigger] out@[a]).1@),
        decreases names@.len() - i,
    {
        let item_prefix = "services.".to_owned().concat(names[i].as_str());
        let pairs = match get_prefix_data(datastore, committed, item_prefix.as_str()) {
            Ok(p) => p,
            Err(e) => {
                return Err(e);
            },
        };
        if pairs.len() == 0 {
            proof {
                assert(pair_views(pairs@) =~= Seq::<(Seq<char>, Seq<char>)>::empty());
                assert(restrict_prefix(scope, "services."@ + names@[i as int]@)
                    =~= Map::<Seq<char>, Seq<char>>::empty());
                assert(restrict_prefix(scope, "services."@ + names@[i as int]@).dom()
                    =~= Set::<Seq<char>>::empty());
                assert(service_of_map(
                    "services."@ + names@[i as int]@,
                    restrict_prefix(scope, "services."@ + names@[i as int]@),
                ) is None);
                assert(item_prefix@ == "services."@ + names@[i as int]@);
                assert forall|i2: int|
                    0 <= i2 < names@.len() && (forall|j: int| 0 <= j < i2 ==> service_of_map(
                        "services."@ + (#[trigger] names@[j])@,
                        restrict_prefix(scope, "services."@ + names@[j]@),
                    ) is Some) && restrict_prefix(
                        scope,
                        "services."@ + (#[trigger] names@[i2])@,
                    ).dom() == Set::<Seq<char>>::empty() implies i2 == i as int by {
                    if i2 < i as int {
                        assert(service_of_map(
                            "services."@ + names@[i2]@,
                            restrict_prefix(scope, "services."@ + names@[i2]@),
                        ) == Some(out@[i2].1@));
                    }
                    if i2 > i as int {
                        assert(service_of_map(
                            "services."@ + names@[i as int]@,
                            restrict_prefix(scope, "services."@ + names@[i as int]@),
                        ) is Some);
                    }
                }
                assert forall|i2: int|
                    !(0 <= i2 < names@.len() && (forall|j: int| 0 <= j < i2 ==> service_of_map(
                        "services."@ + (#[trigger] names@[j])@,
                        restrict_prefix(scope, "services."@ + names@[j]@),
                    ) is Some) && service_of_map(
                        "services."@ + (#[trigger] names@[i2])@,
                        restrict_prefix(scope, "services."@ + names@[i2]@),
                    ) is None && restrict_prefix(scope, "services."@ + names@[i2]@).dom()
                        != Set::<Seq<char>>::empty()) by {
                    if 0 <= i2 < names@.len() {
                        if i2 < i as int {
                            assert(service_of_map(
                                "services."@ + names@[i2]@,
                                restrict_prefix(scope, "services."@ + names@[i2]@),
                            ) == Some(out@[i2].1@));
                        }
                        if i2 >= i as int {
                            assert(service_of_map(
                                "services."@ + names@[i as int]@,
                                restrict_prefix(scope, "services."@ + names@[i as int]@),
                            ) is None);
                        }
                    }
                }
            }
            return Err(Error::ListKeys { requested: item_prefix });
        }
        let svc = match service_from_pairs(item_prefix.as_str(), &pairs) {
            Ok(s) => s,
            Err(e) => {
                proof {
                    lemma_assoc_contains(pair_views(pairs@), pair_views(pairs@)[0].0);
                    assert(restrict_prefix(scope, "services."@ + names@[i as int]@).dom().contains(
                        pair_views(pairs@)[0].0,
                    ));
                    assert forall|i2: int|
                        !(0 <= i2 < names@.len() && (forall|j: int| 0 <= j < i2
                            ==> service_of_map(
                            "services."@ + (#[trigger] names@[j])@,
                            restrict_prefix(scope, "services."@ + names@[j]@),
                        ) is Some) && restrict_prefix(
                            scope,
                            "services."@ + (#[trigger] names@[i2])@,
                        ).dom() == Set::<Seq<char>>::empty()) by {
                        if 0 <= i2 < names@.len() {
                            if i2 < i as int {
                                assert(service_of_map(
                                    "services."@ + names@[i2]@,
                                    restrict_prefix(scope, "services."@ + names@[i2]@),
                                ) == Some(out@[i2].1@));
                            }
                            if i2 >= i as int {
                                assert(service_of_map(
                                    "services."@ + names@[i as int]@,
                                    restrict_prefix(scope, "services."@ + names@[i as int]@),
                                ) is None);
                            }
                        }
                    }
                }
                return Err(e);
            },
        };
        out.push((names[i].clone(), svc));
        i = i + 1;
    }
    proof {
        assert forall|j: int| 0 <= j < names@.len() implies service_of_map(
            "services."@ + (#[trigger] names@[j])@,
            restrict_prefix(scope, "services."@ + names@[j]@),
        ) is Some by {
            assert(service_of_map(
                "services."@ + names@[j]@,
                restrict_prefix(scope, "services."@ + names@[j]@),
            ) == Some(out@[j].1@));
        }
    }
    Ok(out)
}

/// Builds the configuration-file descriptors with the given names from a
/// scope; every requested name must have populated keys and decode exactly.
#[verifier::loop_isolation(false)]
pub fn get_configuration_files_names<D: DataStore>(
    datastore: &D,
    names: &Vec<String>,
    committed: Committed,
) -> (r: Result<ConfigurationFiles, Error>)
    requires
        datastore.inv(),
    ensures
        r matches Ok(files) ==> ({
            &&& files@.len() == names@.len()
            &&& forall|i: int| 0 <= i < files@.len() ==> (#[trigger] files@[i]).0@ == names@[i]@
            &&& forall|i: int| 0 <= i < files@.len() ==> config_file_of_map(
                "configuration-files."@ + names@[i]@,
                restrict_prefix(
                    scope_sel(datastore.live_map(), datastore.pending_map(), committed),
                    "configuration-files."@ + names@[i]@,
                ),
            ) == Some((#[trigger] files@[i]).1@)
        }),
        r matches Err(e) ==> (e matches Error::ListKeys { requested } ==> exists|i: int| 0 <= i
            < names@.len() && restrict_prefix(
            scope_sel(datastore.live_map(), datastore.pending_map(), committed),
            "configuration-files."@ + (#[trigger] names@[i])@,
        ).dom() == Set::<Seq<char>>::empty() && requested@ == "configuration-files."@
            + names@[i]@),
        r matches Err(e) ==> (is_store_error(e) || e matches Error::ListKeys { .. }
            || e matches Error::Deserialization { .. }),
        datastore.ops_ok() ==> (forall|i: int|
            ({
                let scope = scope_sel(datastore.live_map(), datastore.pending_map(), committed);
                0 <= i < names@.len() && (forall|j: int| 0 <= j < i ==> config_file_of_map(
                    "configuration-files."@ + (#[trigger] names@[j])@,
                    restrict_prefix(scope, "configuration-files."@ + names@[j]@),
                ) is Some) && restrict_prefix(
                    scope,
                    "configuration-files."@ + (#[trigger] names@[i])@,
                ).dom() == Set::<Seq<char>>::empty()
            }) ==> (r matches Err(Error::ListKeys { requested }) && requested@
                == "configuration-files."@ + names@[i]@)),
        datastore.ops_ok() ==> (forall|i: int|
            ({
                let scope = scope_sel(datastore.live_map(), datastore.pending_map(), committed);
                0 <= i < names@.len() && (forall|j: int| 0 <= j < i ==> config_file_of_map(
                    "configuration-files."@ + (#[trigger] names@[j])@,
                    restrict_prefix(scope, "configuration-files."@ + names@[j]@),
                ) is Some) && config_file_of_map(
                    "configuration-files."@ + (#[trigger] names@[i])@,
                    restrict_prefix(scope, "configuration-files."@ + names@[i]@),
                ) is None && restrict_prefix(
                    scope,
                    "configuration-files."@ + names@[i]@,
                ).dom() != Set::<Seq<char>>::empty()
            }) ==> r matches Err(Error::Deserialization { .. })),
        datastore.ops_ok() ==> (r is Ok <==> (forall|i: int| 0 <= i < names@.len()
            ==> config_file_of_map(
            "configuration-files."@ + (#[trigger] names@[i])@,
            restrict_prefix(
                scope_sel(datastore.live_map(), datastore.pending_map(), committed),
                "configuration-files."@ + names@[i]@,
            ),
        ) is Some)),
{
    let ghost scope = scope_sel(datastore.live_map(), datastore.pending_map(), committed);
    let mut out: ConfigurationFiles = Vec::new();
    let mut i: usize = 0;
    while i < names.len()
        invariant
            i <= names@.len(),
            out@.len() == i,
            forall|a: int| 0 <= a < i ==> (#[trigger] out@[a]).0@ == names@[a]@,
            forall|a: int| 0 <= a < i ==> config_file_of_map(
                "configuration-files."@ + names@[a]@,
                restrict_prefix(scope, "configuration-files."@ + names@[a]@),
            ) == Some((#[trigger] out@[a]).1@),
        decreases names@.len() - i,
    {
        let item_prefix = "configuration-files.".to_owned().concat(names[i].as_str());
        let pairs = match get_prefix_data(datastore, committed, item_prefix.as_str()) {
            Ok(p) => p,
            Err(e) => {
                return Err(e);
            },
        };
        if pairs.len() == 0 {
            proof {
                assert(pair_views(pairs@) =~= Seq::<(Seq<char>, Seq<char>)>::empty());
                assert(restrict_prefix(scope, "configuration-files."@ + names@[i as int]@)
                    =~= Map::<Seq<char>, Seq<char>>::empty());
                assert(restrict_prefix(
                    scope,
                    "configuration-files."@ + names@[i as int]@,
                ).dom() =~= Set::<Seq<char>>::empty());
                assert(config_file_of_map(
                    "configuration-files."@ + names@[i as int]@,
                    restrict_prefix(scope, "configuration-files."@ + names@[i as int]@),
                ) is None);
                assert(item_prefix@ == "configuration-files."@ + names@[i as int]@);
                assert forall|i2: int|
                    0 <= i2 < names@.len() && (forall|j: int| 0 <= j < i2
                        ==> config_file_of_map(
                        "configuration-files."@ + (#[trigger] names@[j])@,
                        restrict_prefix(scope, "configuration-files."@ + names@[j]@),
                    ) is Some) && restrict_prefix(
                        scope,
                        "configuration-files."@ + (#[trigger] names@[i2])@,
                    ).dom() == Set::<Seq<char>>::empty() implies i2 == i as int by {
                    if i2 < i as int {
                        assert(config_file_of_map(
                            "configuration-files."@ + names@[i2]@,
                            restrict_prefix(scope, "configuration-files."@ + names@[i2]@),
                        ) == Some(out@[i2].1@));
                    }
                    if i2 > i as int {
                        assert(config_file_of_map(
                            "configuration-files."@ + names@[i as int]@,
                            restrict_prefix(
                                scope,
                                "configuration-files."@ + names@[i as int]@,
                            ),
                        ) is Some);
                    }
                }
                assert forall|i2: int|
                    !(0 <= i2 < names@.len() && (forall|j: int| 0 <= j < i2
                        ==> config_file_of_map(
                        "configuration-files."@ + (#[trigger] names@[j])@,
                        restrict_prefix(scope, "configuration-files."@ + names@[j]@),
                    ) is Some) && config_file_of_map(
                        "configuration-files."@ + (#[trigger] names@[i2])@,
                        restrict_prefix(scope, "configuration-files."@ + names@[i2]@),
                    ) is None && restrict_prefix(
                        scope,
                        "configuration-files."@ + names@[i2]@,
                    ).dom() != Set::<Seq<char>>::empty()) by {
                    if 0 <= i2 < names@.len() {
                        if i2 < i as int {
                            assert(config_file_of_map(
                                "configuration-files."@ + names@[i2]@,
                                restrict_prefix(scope, "configuration-files."@ + names@[i2]@),
                            ) == Some(out@[i2].1@));
                        }
                        if i2 >= i as int {
                            assert(config_file_of_map(
                                "configuration-files."@ + names@[i as int]@,
                                restrict_prefix(
                                    scope,
                                    "configuration-files."@ + names@[i as int]@,
                                ),
                            ) is None);
                        }
                    }
                }
            }
            return Err(Error::ListKeys { requested: item_prefix });
        }
        let file = match config_file_from_pairs(item_prefix.as_str(), &pairs) {
            Ok(f) => f,
            Err(e) => {
                proof {
                    lemma_assoc_contains(pair_views(pairs@), pair_views(pairs@)[0].0);
                    assert(restrict_prefix(
                        scope,
                        "configuration-files."@ + names@[i as int]@,
                    ).dom().contains(pair_views(pairs@)[0].0));
                    assert forall|i2: int|
                        !(0 <= i2 < names@.len() && (forall|j: int| 0 <= j < i2
                            ==> config_file_of_map(
                            "configuration-files."@ + (#[trigger] names@[j])@,
                            restrict_prefix(scope, "configuration-files."@ + names@[j]@),
                        ) is Some) && restrict_prefix(
                            scope,
                            "configuration-files."@ + (#[trigger] names@[i2])@,
                        ).dom() == Set::<Seq<char>>::empty()) by {
                        if 0 <= i2 < names@.len() {
                            if i2 < i as int {
                                assert(config_file_of_map(
                                    "configuration-files."@ + names@[i2]@,
                                    restrict_prefix(
                                        scope,
                                        "configuration-files."@ + names@[i2]@,
                                    ),
                                ) == Some(out@[i2].1@));
                            }
                            if i2 >= i as int {
                                assert(config_file_of_map(
                                    "configuration-files."@ + names@[i as int]@,
                                    restrict_prefix(
                                        scope,
                                        "configuration-files."@ + names@[i as int]@,
                                    ),
                                ) is None);
                            }
                        }
                    }
                }
                return Err(e);
            },
        };
        out.push((names[i].clone(), file));
        i = i + 1;
    }
    proof {
        assert forall|j: int| 0 <= j < names@.len() implies config_file_of_map(
            "configuration-files."@ + (#[trigger] names@[j])@,
            restrict_prefix(scope, "configuration-files."@ + names@[j]@),
        ) is Some by {
            assert(config_file_of_map(
                "configuration-files."@ + names@[j]@,
                restrict_prefix(scope, "configuration-files."@ + names@[j]@),
            ) == Some(out@[j].1@));
        }
    }
    Ok(out)
}

/// The changed keys as a JSON array of their dotted texts, ready to hand
/// to an applier process.
#[verifier::loop_isolation(false)]
pub fn changed_keys_json(keys: &Vec<Key>) -> (r: String)
    ensures
        r@ == crate::scalar::json_array_of(keys@.map_values(|k: Key| k@)),
{
    let mut texts: Vec<String> = Vec::new();
    let mut i: usize = 0;
    while i < keys.len()
        invariant
            i <= keys@.len(),
            texts.deep_view() == keys@.map_values(|k: Key| k@).take(i as int),
        decreases keys@.len() - i,
    {
        texts.push(keys[i].to_text());
        proof {
            assert(texts.deep_view() =~= keys@.map_values(|k: Key| k@).take(i as int + 1));
        }
        i = i + 1;
    }
    proof {
        assert(keys@.map_values(|k: Key| k@).take(keys@.len() as int) =~= keys@.map_values(
            |k: Key| k@,
        ));
    }
    serialize_scalar_list(&texts)
}


/// The index of the first dot, if any.
pub open spec fn find_dot(s: Seq<char>) -> Option<int>
    decreases s.len(),
{
    if s.len() == 0 {
        None
    } else if s[0] == '.' {
        Some(0)
    } else {
        match find_dot(s.drop_first()) {
            Some(i) => Some(i + 1),
            None => None,
        }
    }
}

pub proof fn lemma_find_dot(s: Seq<char>)
    ensures
        match find_dot(s) {
            Some(d) => 0 <= d < s.len() && s[d] == '.' && forall|j: int| 0 <= j < d
                ==> s[j] != '.',
            None => forall|j: int| 0 <= j < s.len() ==> s[j] != '.',
        },
    decreases s.len(),
{
    if s.len() == 0 {
    } else if s[0] == '.' {
    } else {
        lemma_find_dot(s.drop_first());
        match find_dot(s.drop_first()) {
            Some(d) => {
                assert forall|j: int| 0 <= j < d + 1 implies s[j] != '.' by {
                    if j > 0 {
                        assert(s.drop_first()[j - 1] == s[j]);
                    }
                }
                assert(s[d + 1] == s.drop_first()[d]);
            },
            None => {
                assert forall|j: int| 0 <= j < s.len() implies s[j] != '.' by {
                    if j > 0 {
                        assert(s.drop_first()[j - 1] == s[j]);
                    }
                }
            },
        }
    }
}

pub proof fn lemma_find_dot_at(s: Seq<char>, d: int)
    requires
        0 <= d < s.len(),
        s[d] == '.',
        forall|j: int| 0 <= j < d ==> s[j] != '.',
    ensures
        find_dot(s) == Some(d),
{
    lemma_find_dot(s);
    match find_dot(s) {
        Some(d2) => {
            if d2 < d {
                assert(s[d2] == '.');
                assert(false);
            }
            if d < d2 {
                assert(s[d] == '.');
                assert(false);
            }
        },
        None => {
            assert(s[d] == '.');
            assert(false);
        },
    }
}

/// The entry name a key under the given root carries: the segment between
/// the root and the next dot, which must be non-empty and followed by more
/// of the key.
pub open spec fn entry_name(root: Seq<char>, k: Seq<char>) -> Option<Seq<char>> {
    if root.is_prefix_of(k) {
        let rest = k.skip(root.len() as int);
        match find_dot(rest) {
            Some(d) => if d > 0 {
                Some(rest.take(d))
            } else {
                None
            },
            None => None,
        }
    } else {
        None
    }
}

/// The entry name of a key, relative to a root prefix.
#[verifier::loop_isolation(false)]
pub fn entry_name_exec(text: &str, root: &str) -> (r: Option<String>)
    ensures
        match r {
            Some(n) => entry_name(root@, text@) == Some(n@),
            None => entry_name(root@, text@) is None,
        },
{
    if !str_starts_with(text, root) {
        return None;
    }
    let cs = crate::strings::chars_of(text);
    let rl: usize = root.unicode_len();
    let n: usize = cs.len();
    let ghost rest = text@.skip(rl as int);
    let mut i: usize = rl;
    while i < n && cs[i] != '.'
        invariant
            rl <= i <= n,
            n == text@.len(),
            rl == root@.len(),
            cs@ == text@,
            forall|j: int| rl <= j < i ==> text@[j] != '.',
        decreases n - i,
    {
        i = i + 1;
    }
    if i >= n {
        proof {
            lemma_find_dot(rest);
            assert forall|j: int| 0 <= j < rest.len() implies rest[j] != '.' by {
                assert(rest[j] == text@[j + rl]);
            }
            match find_dot(rest) {
                Some(d) => {
                    assert(rest[d] == '.');
                    assert(false);
                },
                None => {},
            }
        }
        return None;
    }
    proof {
        assert(rest[i - rl] == text@[i as int] && text@[i as int] == '.');
        assert forall|j: int| 0 <= j < i - rl implies rest[j] != '.' by {
            assert(rest[j] == text@[j + rl]);
        }
        lemma_find_dot_at(rest, i - rl);
    }
    if i == rl {
        return None;
    }
    let mut name_cs: Vec<char> = Vec::new();
    let mut p: usize = rl;
    while p < i
        invariant
            rl <= p <= i,
            i <= n,
            n == text@.len(),
            cs@ == text@,
            name_cs@ == text@.subrange(rl as int, p as int),
        decreases i - p,
    {
        name_cs.push(cs[p]);
        proof {
            assert(name_cs@ =~= text@.subrange(rl as int, p as int + 1));
        }
        p = p + 1;
    }
    let name = crate::strings::chars_to_string(&name_cs);
    proof {
        assert(name@ =~= rest.take(i - rl));
    }
    Some(name)
}

/// Is `n` the entry name of one of the first `bound` keys?
pub open spec fn name_from_keys(keys: Seq<Key>, root: Seq<char>, n: Seq<char>, bound: int) -> bool {
    exists|j2: int| 0 <= j2 < bound && entry_name(root, (#[trigger] keys[j2])@) == Some(n)
}

/// Does the listed option name one of these strings?
pub open spec fn covered_str(names: Seq<String>, on: Option<Seq<char>>) -> bool {
    match on {
        Some(n) => exists|a: int| 0 <= a < names.len() && (#[trigger] names[a])@ == n,
        None => false,
    }
}

/// The distinct entry names the given keys carry under the root; a key
/// that carries none is an error.
#[verifier::loop_isolation(false)]
fn collect_entry_names(keys: &Vec<Key>, root: &str) -> (r: Result<Vec<String>, Error>)
    ensures
        r matches Ok(names) ==> ({
            &&& forall|a: int, b: int| 0 <= a < b < names@.len() ==> (#[trigger] names@[a])@
                != (#[trigger] names@[b])@
            &&& forall|j: int| 0 <= j < keys@.len() ==> entry_name(
                root@,
                (#[trigger] keys@[j])@,
            ) is Some
            &&& forall|j: int| 0 <= j < keys@.len() ==> covered_str(
                names@,
                entry_name(root@, (#[trigger] keys@[j])@),
            )
            &&& forall|a: int| 0 <= a < names@.len() ==> name_from_keys(
                keys@,
                root@,
                (#[trigger] names@[a])@,
                keys@.len() as int,
            )
        }),
        r is Err <==> exists|j: int| 0 <= j < keys@.len() && entry_name(
            root@,
            (#[trigger] keys@[j])@,
        ) is None,
        r matches Err(e) ==> e matches Error::Deserialization { .. },
{
    let mut names: Vec<String> = Vec::new();
    let mut j: usize = 0;
    while j < keys.len()
        invariant
            j <= keys@.len(),
            forall|a: int, b: int| 0 <= a < b < names@.len() ==> (#[trigger] names@[a])@
                != (#[trigger] names@[b])@,
            forall|j2: int| 0 <= j2 < j ==> entry_name(root@, (#[trigger] keys@[j2])@) is Some,
            forall|j2: int| 0 <= j2 < j ==> covered_str(
                names@,
                entry_name(root@, (#[trigger] keys@[j2])@),
            ),
            forall|a: int| 0 <= a < names@.len() ==> name_from_keys(
                keys@,
                root@,
                (#[trigger] names@[a])@,
                j as int,
            ),
        decreases keys@.len() - j,
    {
        let name = match entry_name_exec(keys[j].as_str(), root) {
            Some(n) => n,
            None => {
                return Err(Error::Deserialization { given: keys[j].to_text() });
            },
        };
        if !names_contain(&names, name.as_str()) {
            let ghost names_pre = names@;
            names.push(name);
            proof {
                assert(names@ =~= names_pre.push(names@[names@.len() - 1]));
                assert forall|j2: int| 0 <= j2 < j + 1 implies covered_str(
                    names@,
                    entry_name(root@, (#[trigger] keys@[j2])@),
                ) by {
                    if j2 == j {
                        assert(names@[names@.len() - 1]@ == entry_name(
                            root@,
                            keys@[j2]@,
                        ).unwrap());
                    } else {
                        match entry_name(root@, keys@[j2]@) {
                            Some(n2) => {
                                let a = choose|a: int| 0 <= a < names_pre.len() && (
                                #[trigger] names_pre[a])@ == n2;
                                assert(names@[a]@ == n2);
                            },
                            None => {},
                        }
                    }
                }
                assert forall|a: int| 0 <= a < names@.len() implies name_from_keys(
                    keys@,
                    root@,
                    (#[trigger] names@[a])@,
                    j as int + 1,
                ) by {
                    if a == names@.len() - 1 {
                        assert(entry_name(root@, (keys@[j as int])@) == Some(names@[a]@));
                    } else {
                        assert(names@[a]@ == names_pre[a]@);
                        assert(name_from_keys(keys@, root@, names_pre[a]@, j as int));
                        let j2 = choose|j2: int| 0 <= j2 < j && entry_name(
                            root@,
                            (#[trigger] keys@[j2])@,
                        ) == Some(names_pre[a]@);
                        assert(entry_name(root@, (keys@[j2])@) == Some(names@[a]@));
                    }
                }
            }
        }
        j = j + 1;
    }
    proof {
        assert(j == keys@.len());
    }
    Ok(names)
}

/// Does the listed option name one of these entries?
pub open spec fn covered_entry<T>(entries: Seq<(String, T)>, on: Option<Seq<char>>) -> bool {
    match on {
        Some(n) => exists|a: int| 0 <= a < entries.len() && (#[trigger] entries[a]).0@ == n,
        None => false,
    }
}

/// Builds every service held in the live scope, keyed by name: the live
/// `services.` subtree must be non-empty, every key under it must carry a
/// service name, and each named service must decode exactly.
pub fn get_services<D: DataStore>(datastore: &D) -> (r: Result<Services, Error>)
    requires
        datastore.inv(),
    ensures
        r matches Ok(svcs) ==> ({
            let sub = restrict_prefix(datastore.live_map(), "services."@);
            &&& sub.dom() != Set::<Seq<char>>::empty()
            &&& forall|a: int, b: int| 0 <= a < b < svcs@.len() ==> (#[trigger] svcs@[a]).0@
                != (#[trigger] svcs@[b]).0@
            &&& forall|a: int| 0 <= a < svcs@.len() ==> service_of_map(
                "services."@ + (#[trigger] svcs@[a]).0@,
                restrict_prefix(datastore.live_map(), "services."@ + svcs@[a].0@),
            ) == Some(svcs@[a].1@)
            &&& forall|k: Seq<char>| #[trigger] sub.dom().contains(k) ==> covered_entry(
                svcs@,
                entry_name("services."@, k),
            )
        }),
        r matches Err(e) ==> (e matches Error::MissingData { .. } ==> restrict_prefix(
            datastore.live_map(),
            "services."@,
        ).dom() == Set::<Seq<char>>::empty()),
        r matches Err(e) ==> (e matches Error::MissingData { prefix } ==> prefix@
            == "services"@),
        datastore.ops_ok() ==> (restrict_prefix(datastore.live_map(), "services."@).dom()
            == Set::<Seq<char>>::empty() ==> r matches Err(Error::MissingData { .. })),
        r matches Err(e) ==> (is_store_error(e) || e matches Error::MissingData { .. }
            || e matches Error::ListKeys { .. } || e matches Error::Deserialization { .. }),
        datastore.ops_ok() ==> (r is Ok <==> ({
            let sub = restrict_prefix(datastore.live_map(), "services."@);
            sub.dom() != Set::<Seq<char>>::empty() && forall|k: Seq<char>| #[trigger]
                sub.dom().contains(k) ==> match entry_name("services."@, k) {
                Some(n) => service_of_map(
                    "services."@ + n,
                    restrict_prefix(datastore.live_map(), "services."@ + n),
                ) is Some,
                None => false,
            }
        })),
{
    let keys = match datastore.list_populated_keys("services.", Committed::Live) {
        Ok(k) => k,
        Err(e) => {
            return Err(e);
        },
    };
    let ghost sub = restrict_prefix(datastore.live_map(), "services."@);
    if keys.len() == 0 {
        proof {
            assert forall|k: Seq<char>| !(#[trigger] sub.dom().contains(k)) by {
                if sub.dom().contains(k) {
                    assert(datastore.live_map().dom().contains(k) && "services."@.is_prefix_of(
                        k,
                    ));
                }
            }
            assert(sub.dom() =~= Set::<Seq<char>>::empty());
        }
        return Err(Error::MissingData { prefix: "services".to_owned() });
    }
    let names = match collect_entry_names(&keys, "services.") {
        Ok(n) => n,
        Err(e) => {
            proof {
                let j = choose|j: int| 0 <= j < keys@.len() && entry_name(
                    "services."@,
                    (#[trigger] keys@[j])@,
                ) is None;
                assert(sub.dom().contains(keys@[j]@));
            }
            return Err(e);
        },
    };
    match get_services_names(datastore, &names, Committed::Live) {
        Ok(svcs) => {
            proof {
                assert(sub.dom().contains(keys@[0]@));
                assert forall|k: Seq<char>| #[trigger] sub.dom().contains(k) implies covered_entry(
                    svcs@,
                    entry_name("services."@, k),
                ) by {
                    assert(datastore.live_map().dom().contains(k) && "services."@.is_prefix_of(
                        k,
                    ));
                    let j = choose|j: int| 0 <= j < keys@.len() && (#[trigger] keys@[j])@ == k;
                    assert(covered_str(names@, entry_name("services."@, k)));
                    match entry_name("services."@, k) {
                        Some(n2) => {
                            let a = choose|a: int| 0 <= a < names@.len() && (#[trigger] names@[a])@
                                == n2;
                            assert(svcs@[a].0@ == n2);
                        },
                        None => {},
                    }
                }
            }
            proof {
                assert forall|k: Seq<char>| #[trigger] sub.dom().contains(k) implies match
                    entry_name("services."@, k) {
                    Some(n) => service_of_map(
                        "services."@ + n,
                        restrict_prefix(datastore.live_map(), "services."@ + n),
                    ) is Some,
                    None => false,
                } by {
                    let j = choose|j: int| 0 <= j < keys@.len() && (#[trigger] keys@[j])@ == k;
                    match entry_name("services."@, k) {
                        Some(n2) => {
                            let a = choose|a: int| 0 <= a < names@.len() && (#[trigger] names@[a])@
                                == n2;
                            assert(service_of_map(
                                "services."@ + names@[a]@,
                                restrict_prefix(datastore.live_map(), "services."@ + names@[a]@),
                            ) == Some(svcs@[a].1@));
                        },
                        None => {},
                    }
                }
            }
            Ok(svcs)
        },
        Err(e) => {
            proof {
                if datastore.ops_ok() {
                    let i = choose|i: int| 0 <= i < names@.len() && !(service_of_map(
                        "services."@ + (#[trigger] names@[i])@,
                        restrict_prefix(datastore.live_map(), "services."@ + names@[i]@),
                    ) is Some);
                    assert(name_from_keys(keys@, "services."@, names@[i]@, keys@.len() as int));
                    let j = choose|j: int| 0 <= j < keys@.len() && entry_name(
                        "services."@,
                        (#[trigger] keys@[j])@,
                    ) == Some(names@[i]@);
                    assert(sub.dom().contains(keys@[j]@));
                }
            }
            Err(e)
        },
    }
}

/// Builds every configuration-file descriptor held in the live scope,
/// keyed by name, on the same terms as [`get_services`].
pub fn get_configuration_files<D: DataStore>(datastore: &D) -> (r: Result<
    ConfigurationFiles,
    Error,
>)
    requires
        datastore.inv(),
    ensures
        r matches Ok(files) ==> ({
            let sub = restrict_prefix(datastore.live_map(), "configuration-files."@);
            &&& sub.dom() != Set::<Seq<char>>::empty()
            &&& forall|a: int, b: int| 0 <= a < b < files@.len() ==> (#[trigger] files@[a]).0@
                != (#[trigger] files@[b]).0@
            &&& forall|a: int| 0 <= a < files@.len() ==> config_file_of_map(
                "configuration-files."@ + (#[trigger] files@[a]).0@,
                restrict_prefix(datastore.live_map(), "configuration-files."@ + files@[a].0@),
            ) == Some(files@[a].1@)
            &&& forall|k: Seq<char>| #[trigger] sub.dom().contains(k) ==> covered_entry(
                files@,
                entry_name("configuration-files."@, k),
            )
        }),
        r matches Err(e) ==> (e matches Error::MissingData { .. } ==> restrict_prefix(
            datastore.live_map(),
            "configuration-files."@,
        ).dom() == Set::<Seq<char>>::empty()),
        r matches Err(e) ==> (e matches Error::MissingData { prefix } ==> prefix@
            == "configuration-files"@),
        datastore.ops_ok() ==> (restrict_prefix(
            datastore.live_map(),
            "configuration-files."@,
        ).dom() == Set::<Seq<char>>::empty() ==> r matches Err(Error::MissingData { .. })),
        r matches Err(e) ==> (is_store_error(e) || e matches Error::MissingData { .. }
            || e matches Error::ListKeys { .. } || e matches Error::Deserialization { .. }),
        datastore.ops_ok() ==> (r is Ok <==> ({
            let sub = restrict_prefix(datastore.live_map(), "configuration-files."@);
            sub.dom() != Set::<Seq<char>>::empty() && forall|k: Seq<char>| #[trigger]
                sub.dom().contains(k) ==> match entry_name("configuration-files."@, k) {
                Some(n) => config_file_of_map(
                    "configuration-files."@ + n,
                    restrict_prefix(datastore.live_map(), "configuration-files."@ + n),
                ) is Some,
                None => false,
            }
        })),
{
    let keys = match datastore.list_populated_keys("configuration-files.", Committed::Live) {
        Ok(k) => k,
        Err(e) => {
            return Err(e);
        },
    };
    let ghost sub = restrict_prefix(datastore.live_map(), "configuration-files."@);
    if keys.len() == 0 {
        proof {
            assert forall|k: Seq<char>| !(#[trigger] sub.dom().contains(k)) by {
                if sub.dom().contains(k) {
                    assert(datastore.live_map().dom().contains(k)
                        && "configuration-files."@.is_prefix_of(k));
                }
            }
            assert(sub.dom() =~= Set::<Seq<char>>::empty());
        }
        return Err(Error::MissingData { prefix: "configuration-files".to_owned() });
    }
    let names = match collect_entry_names(&keys, "configuration-files.") {
        Ok(n) => n,
        Err(e) => {
            proof {
                let j = choose|j: int| 0 <= j < keys@.len() && entry_name(
                    "configuration-files."@,
                    (#[trigger] keys@[j])@,
                ) is None;
                assert(sub.dom().contains(keys@[j]@));
            }
            return Err(e);
        },
    };
    match get_configuration_files_names(datastore, &names, Committed::Live) {
        Ok(files) => {
            proof {
                assert(sub.dom().contains(keys@[0]@));
                assert forall|k: Seq<char>| #[trigger] sub.dom().contains(k) implies covered_entry(
                    files@,
                    entry_name("configuration-files."@, k),
                ) by {
                    assert(datastore.live_map().dom().contains(k)
                        && "configuration-files."@.is_prefix_of(k));
                    let j = choose|j: int| 0 <= j < keys@.len() && (#[trigger] keys@[j])@ == k;
                    assert(covered_str(names@, entry_name("configuration-files."@, k)));
                    match entry_name("configuration-files."@, k) {
                        Some(n2) => {
                            let a = choose|a: int| 0 <= a < names@.len() && (#[trigger] names@[a])@
                                == n2;
                            assert(files@[a].0@ == n2);
                        },
                        None => {},
                    }
                }
            }
            proof {
                assert forall|k: Seq<char>| #[trigger] sub.dom().contains(k) implies match
                    entry_name("configuration-files."@, k) {
                    Some(n) => config_file_of_map(
                        "configuration-files."@ + n,
                        restrict_prefix(datastore.live_map(), "configuration-files."@ + n),
                    ) is Some,
                    None => false,
                } by {
                    let j = choose|j: int| 0 <= j < keys@.len() && (#[trigger] keys@[j])@ == k;
                    match entry_name("configuration-files."@, k) {
                        Some(n2) => {
                            let a = choose|a: int| 0 <= a < names@.len() && (#[trigger] names@[a])@
                                == n2;
                            assert(config_file_of_map(
                                "configuration-files."@ + names@[a]@,
                                restrict_prefix(
                                    datastore.live_map(),
                                    "configuration-files."@ + names@[a]@,
                                ),
                            ) == Some(files@[a].1@));
                        },
                        None => {},
                    }
                }
            }
            Ok(files)
        },
        Err(e) => {
            proof {
                if datastore.ops_ok() {
                    let i = choose|i: int| 0 <= i < names@.len() && !(config_file_of_map(
                        "configuration-files."@ + (#[trigger] names@[i])@,
                        restrict_prefix(
                            datastore.live_map(),
                            "configuration-files."@ + names@[i]@,
                        ),
                    ) is Some);
                    assert(name_from_keys(
                        keys@,
                        "configuration-files."@,
                        names@[i]@,
                        keys@.len() as int,
                    ));
                    let j = choose|j: int| 0 <= j < keys@.len() && entry_name(
                        "configuration-files."@,
                        (#[trigger] keys@[j])@,
                    ) == Some(names@[i]@);
                    assert(sub.dom().contains(keys@[j]@));
                }
            }
            Err(e)
        },
    }
}


/// The map image of default (key text, encoded value) pairs.
pub open spec fn defaults_views(defaults: Seq<(String, String)>) -> Seq<(Seq<char>, Seq<char>)> {
    defaults.map_values(|p: (String, String)| (p.0@, p.1@))
}

/// The map image of default (data key, metadata key, encoded value)
/// triples, keyed as the metadata map is.
pub open spec fn metadata_views(metadata: Seq<(String, String, String)>) -> Seq<
    ((Seq<char>, Seq<char>), Seq<char>),
> {
    metadata.map_values(|t: (String, String, String)| ((t.1@, t.0@), t.2@))
}

/// Loads first-boot defaults: writes each (key, encoded value) pair into
/// the live scope, then each (data key, metadata key, encoded value)
/// triple as metadata. Every text must validate as a key of its kind, and
/// the whole load targets the live scope.
#[verifier::loop_isolation(false)]
pub fn populate_defaults<D: DataStore>(
    datastore: &mut D,
    defaults: &Vec<(String, String)>,
    metadata: &Vec<(String, String, String)>,
) -> (r: Result<(), Error>)
    requires
        old(datastore).inv(),
        forall|i: int, j: int| 0 <= i < j < defaults@.len() ==> (#[trigger] defaults@[i]).0@ != (
        #[trigger] defaults@[j]).0@,
    ensures
        final(datastore).inv(),
        final(datastore).ops_ok() == old(datastore).ops_ok(),
        r is Ok ==> ({
            &&& final(datastore).live_map() == old(datastore).live_map().union_prefer_right(
                assoc_to_map(defaults_views(defaults@)),
            )
            &&& final(datastore).pending_map() == old(datastore).pending_map()
            &&& final(datastore).meta_map() == old(datastore).meta_map().union_prefer_right(
                assoc_to_map(metadata_views(metadata@)),
            )
        }),
        r matches Err(e) ==> (is_store_error(e) || e matches Error::InvalidKey { .. }),
        r matches Err(e) ==> (e matches Error::InvalidKey { .. } ==> ((exists|i: int| 0 <= i
            < defaults@.len() && !crate::key::valid_data_key((#[trigger] defaults@[i]).0@))
            || (exists|i: int| 0 <= i < metadata@.len() && !(crate::key::valid_meta_key(
            (#[trigger] metadata@[i]).1@,
        ) && crate::key::valid_data_key(metadata@[i].0@))))),
        (old(datastore).ops_ok() && (forall|i: int| 0 <= i < defaults@.len()
            ==> crate::key::valid_data_key((#[trigger] defaults@[i]).0@)) && (forall|i: int| 0 <= i
            < metadata@.len() ==> crate::key::valid_meta_key((#[trigger] metadata@[i]).1@)
            && crate::key::valid_data_key(metadata@[i].0@))) ==> r is Ok,
{
    let ghost dvs = defaults_views(defaults@);
    let mut pairs: Vec<(Key, String)> = Vec::new();
    let mut i: usize = 0;
    while i < defaults.len()
        invariant
            i <= defaults@.len(),
            dvs == defaults_views(defaults@),
            pairs@.len() == i,
            forall|a: int| 0 <= a < i ==> (#[trigger] pairs@[a]).0@ == dvs[a].0
                && pairs@[a].1@ == dvs[a].1,
            forall|a: int| 0 <= a < i ==> (#[trigger] pairs@[a]).0.wf()
                && pairs@[a].0.kind_spec() == KeyType::Data,
        decreases defaults@.len() - i,
    {
        let key = match Key::new(KeyType::Data, defaults[i].0.as_str()) {
            Ok(k) => k,
            Err(e) => {
                proof {
                    assert(!crate::key::valid_data_key(defaults@[i as int].0@));
                }
                return Err(e);
            },
        };
        pairs.push((key, defaults[i].1.clone()));
        i = i + 1;
    }
    proof {
        assert(pair_views(pairs@) =~= dvs);
    }
    match crate::datastore::set_keys(datastore, &pairs, Committed::Live) {
        Ok(()) => {},
        Err(e) => {
            return Err(e);
        },
    }
    let ghost mvs = metadata_views(metadata@);
    let ghost meta_mid = datastore.meta_map();
    let mut i: usize = 0;
    while i < metadata.len()
        invariant
            i <= metadata@.len(),
            mvs == metadata_views(metadata@),
            datastore.inv(),
            datastore.ops_ok() == old(datastore).ops_ok(),
            datastore.live_map() == old(datastore).live_map().union_prefer_right(
                assoc_to_map(dvs),
            ),
            datastore.pending_map() == old(datastore).pending_map(),
            datastore.meta_map() == meta_mid.union_prefer_right(
                assoc_to_map(mvs.take(i as int)),
            ),
            meta_mid == old(datastore).meta_map(),
        decreases metadata@.len() - i,
    {
        let md_key = match Key::new(KeyType::Meta, metadata[i].1.as_str()) {
            Ok(k) => k,
            Err(e) => {
                proof {
                    assert(!crate::key::valid_meta_key(metadata@[i as int].1@));
                }
                return Err(e);
            },
        };
        let data_key = match Key::new(KeyType::Data, metadata[i].0.as_str()) {
            Ok(k) => k,
            Err(e) => {
                proof {
                    assert(!crate::key::valid_data_key(metadata@[i as int].0@));
                }
                return Err(e);
            },
        };
        let ghost pre = assoc_to_map(mvs.take(i as int));
        match datastore.set_metadata(&md_key, &data_key, metadata[i].2.as_str()) {
            Ok(()) => {},
            Err(e) => {
                return Err(e);
            },
        }
        proof {
            assert(mvs.take(i as int + 1).drop_last() =~= mvs.take(i as int));
            assert(mvs.take(i as int + 1).last() == mvs[i as int]);
            assert(assoc_to_map(mvs.take(i as int + 1)) == pre.insert(
                mvs[i as int].0,
                mvs[i as int].1,
            ));
            assert(meta_mid.union_prefer_right(pre).insert(mvs[i as int].0, mvs[i as int].1)
                =~= meta_mid.union_prefer_right(pre.insert(mvs[i as int].0, mvs[i as int].1)));
        }
        i = i + 1;
    }
    proof {
        assert(mvs.take(mvs.len() as int) =~= mvs);
    }
    Ok(())
}


} // verus!
