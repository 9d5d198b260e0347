//! The in-memory datastore backend: association lists of validated keys,
//! with every operation total (`ops_ok` holds).

use vstd::prelude::*;
use crate::Committed;
use crate::datastore::{DataStore, other_scope, restrict_prefix, scope_sel};
use crate::error::Error;
use crate::key::{Key, KeyType};
use crate::serialization::{
    assoc_to_map, keys_distinct, lemma_assoc_contains, lemma_assoc_index, lemma_assoc_push,
    lemma_assoc_update, pair_views,
};
use crate::strings::str_eq;

verus! {

/// The views of a vector of metadata triples.
pub open spec fn meta_views(v: Seq<(Key, Key, String)>) -> Seq<((Seq<char>, Seq<char>), Seq<char>)> {
    v.map_values(|t: (Key, Key, String)| ((t.0@, t.1@), t.2@))
}

/// Well-formedness of one scope's association list: valid data keys, no
/// key twice.
pub open spec fn wf_pairs(v: Seq<(Key, String)>) -> bool {
    &&& keys_distinct(pair_views(v))
    &&& forall|i: int| 0 <= i < v.len() ==> (#[trigger] v[i]).0.wf() && v[i].0.kind_spec()
        == KeyType::Data
}

/// Well-formedness of the metadata list: valid key pairs, no pair twice.
pub open spec fn wf_meta(v: Seq<(Key, Key, String)>) -> bool {
    &&& keys_distinct(meta_views(v))
    &&& forall|i: int| 0 <= i < v.len() ==> (#[trigger] v[i]).0.wf() && v[i].0.kind_spec()
        == KeyType::Meta && v[i].1.wf() && v[i].1.kind_spec() == KeyType::Data
}

pub struct MemoryDataStore {
    live: Vec<(Key, String)>,
    pending: Vec<(Key, String)>,
    metadata: Vec<(Key, Key, String)>,
}

impl MemoryDataStore {
    /// An empty store: both scopes empty, no metadata.
    pub fn new() -> (s: MemoryDataStore)
        ensures
            s.inv(),
            s.ops_ok(),
            s.live_map() == Map::<Seq<char>, Seq<char>>::empty(),
            s.pending_map() == Map::<Seq<char>, Seq<char>>::empty(),
            s.meta_map() == Map::<(Seq<char>, Seq<char>), Seq<char>>::empty(),
    {
        let s = MemoryDataStore { live: Vec::new(), pending: Vec::new(), metadata: Vec::new() };
        proof {
            assert(pair_views(s.live@) =~= Seq::<(Seq<char>, Seq<char>)>::empty());
            assert(pair_views(s.pending@) =~= Seq::<(Seq<char>, Seq<char>)>::empty());
            assert(meta_views(s.metadata@) =~= Seq::<((Seq<char>, Seq<char>), Seq<char>)>::empty());
        }
        s
    }
}

/// Finds the index of a key text in an association list.
fn find_idx(v: &Vec<(Key, String)>, key: &str) -> (r: Option<usize>)
    ensures
        match r {
            Some(i) => i < v@.len() && v@[i as int].0@ == key@,
            None => forall|j: int| 0 <= j < v@.len() ==> (#[trigger] v@[j]).0@ != key@,
        },
{
    let mut i: usize = 0;
    while i < v.len()
        invariant
            i <= v@.len(),
            forall|j: int| 0 <= j < i ==> (#[trigger] v@[j]).0@ != key@,
        decreases v@.len() - i,
    {
        if str_eq(v[i].0.as_str(), key) {
            return Some(i);
        }
        i = i + 1;
    }
    None
}

/// Inserts or overwrites a pair, keeping the list well formed.
fn pairs_set(v: &mut Vec<(Key, String)>, key: &Key, value: &str)
    requires
        wf_pairs(old(v)@),
        key.wf(),
        key.kind_spec() == KeyType::Data,
    ensures
        wf_pairs(final(v)@),
        assoc_to_map(pair_views(final(v)@)) == assoc_to_map(pair_views(old(v)@)).insert(
            key@,
            value@,
        ),
{
    let ghost pv = pair_views(v@);
    match find_idx(v, key.as_str()) {
        Some(i) => {
            v[i] = (key.dup(), value.to_owned());
            proof {
                assert(pair_views(v@) =~= pv.update(i as int, (key@, value@)));
                lemma_assoc_update(pv, i as int, (key@, value@));
            }
        },
        None => {
            v.push((key.dup(), value.to_owned()));
            proof {
                assert(pair_views(v@) =~= pv.push((key@, value@)));
                assert(forall|j: int| 0 <= j < pv.len() ==> (#[trigger] pv[j]).0 != key@);
                lemma_assoc_push(pv, (key@, value@));
            }
        },
    }
}

/// Finds the index of a (metadata key, data key) pair.
fn meta_find_idx(v: &Vec<(Key, Key, String)>, md: &str, data: &str) -> (r: Option<usize>)
    ensures
        match r {
            Some(i) => i < v@.len() && v@[i as int].0@ == md@ && v@[i as int].1@ == data@,
            None => forall|j: int| 0 <= j < v@.len() ==> !((#[trigger] v@[j]).0@ == md@ && v@[j].1@
                == data@),
        },
{
    let mut i: usize = 0;
    while i < v.len()
        invariant
            i <= v@.len(),
            forall|j: int| 0 <= j < i ==> !((#[trigger] v@[j]).0@ == md@ && v@[j].1@ == data@),
        decreases v@.len() - i,
    {
        if str_eq(v[i].0.as_str(), md) && str_eq(v[i].1.as_str(), data) {
            return Some(i);
        }
        i = i + 1;
    }
    None
}

impl DataStore for MemoryDataStore {
    closed spec fn live_map(&self) -> Map<Seq<char>, Seq<char>> {
        assoc_to_map(pair_views(self.live@))
    }

    closed spec fn pending_map(&self) -> Map<Seq<char>, Seq<char>> {
        assoc_to_map(pair_views(self.pending@))
    }

    closed spec fn meta_map(&self) -> Map<(Seq<char>, Seq<char>), Seq<char>> {
        assoc_to_map(meta_views(self.metadata@))
    }

    closed spec fn inv(&self) -> bool {
        wf_pairs(self.live@) && wf_pairs(self.pending@) && wf_meta(self.metadata@)
    }

    closed spec fn ops_ok(&self) -> bool {
        true
    }

    fn key_populated(&self, key: &Key, committed: Committed) -> (r: Result<bool, Error>) {
        let v = match committed {
            Committed::Live => &self.live,
            Committed::Pending => &self.pending,
        };
        let ghost pv = pair_views(v@);
        proof {
            lemma_assoc_contains(pv, key@);
        }
        match find_idx(v, key.as_str()) {
            Some(i) => {
                proof {
                    assert(pv[i as int].0 == key@);
                }
                Ok(true)
            },
            None => {
                proof {
                    assert forall|j: int| 0 <= j < pv.len() implies (#[trigger] pv[j]).0
                        != key@ by {
                        assert(v@[j].0@ != key@);
                    }
                }
                Ok(false)
            },
        }
    }

    #[verifier::loop_isolation(false)]
    #[verifier::rlimit(30)]
    fn list_populated_keys(&self, prefix: &str, committed: Committed) -> (r: Result<
        Vec<Key>,
        Error,
    >) {
        let v = match committed {
            Committed::Live => &self.live,
            Committed::Pending => &self.pending,
        };
        let ghost pv = pair_views(v@);
        let mut out: Vec<Key> = Vec::new();
        let mut i: usize = 0;
        while i < v.len()
            invariant
                i <= v@.len(),
                pv == pair_views(v@),
                wf_pairs(v@),
                forall|a: int| 0 <= a < out@.len() ==> (#[trigger] out@[a]).wf()
                    && out@[a].kind_spec() == KeyType::Data,
                forall|a: int| 0 <= a < out@.len() ==> prefix@.is_prefix_of((#[trigger] out@[a])@),
                forall|a: int| 0 <= a < out@.len() ==> restrict_prefix(
                    assoc_to_map(pv.take(i as int)),
                    prefix@,
                ).dom().contains((#[trigger] out@[a])@),
                forall|k: Seq<char>|
                    restrict_prefix(assoc_to_map(pv.take(i as int)), prefix@).dom().contains(k)
                        ==> exists|a: int| 0 <= a < out@.len() && (#[trigger] out@[a])@ == k,
                forall|a: int, b: int| 0 <= a < b < out@.len() ==> (#[trigger] out@[a])@
                    != (#[trigger] out@[b])@,
            decreases v@.len() - i,
        {
            let ghost pre = assoc_to_map(pv.take(i as int));
            let ghost pre_r = restrict_prefix(pre, prefix@);
            proof {
                assert(pv.take(i as int + 1).drop_last() =~= pv.take(i as int));
                assert(pv.take(i as int + 1).last() == pv[i as int]);
                assert(assoc_to_map(pv.take(i as int + 1)) == pre.insert(
                    pv[i as int].0,
                    pv[i as int].1,
                ));
                lemma_assoc_contains(pv.take(i as int), pv[i as int].0);
                assert forall|j: int| 0 <= j < i implies (#[trigger] pv.take(i as int)[j]).0
                    != pv[i as int].0 by {
                    assert(pv.take(i as int)[j] == pv[j]);
                }
                assert(!pre.dom().contains(pv[i as int].0));
            }
            if v[i].0.starts_with(prefix) {
                let ghost out_pre = out@;
                out.push(v[i].0.dup());
                proof {
                    assert(out@ =~= out_pre.push(v@[i as int].0));
                    assert(out@[out@.len() - 1]@ == pv[i as int].0);
                    assert(restrict_prefix(assoc_to_map(pv.take(i as int + 1)), prefix@)
                        =~= pre_r.insert(pv[i as int].0, pv[i as int].1));
                    assert forall|a: int, b: int| 0 <= a < b < out@.len() implies (
                    #[trigger] out@[a])@ != (#[trigger] out@[b])@ by {
                        if b == out@.len() - 1 {
                            assert(pre_r.dom().contains(out_pre[a]@));
                        }
                    }
                    assert forall|k: Seq<char>| #[trigger]
                        restrict_prefix(
                            assoc_to_map(pv.take(i as int + 1)),
                            prefix@,
                        ).dom().contains(k) implies exists|a: int| 0 <= a < out@.len()
                        && out@[a]@ == k by {
                        if k == pv[i as int].0 {
                            assert(out@[out@.len() - 1]@ == k);
                        } else {
                            assert(pre_r.dom().contains(k));
                            let a = choose|a: int| 0 <= a < out_pre.len() && (
                            #[trigger] out_pre[a])@ == k;
                            assert(out@[a]@ == k);
                        }
                    }
                }
            } else {
                proof {
                    assert(!(prefix@.is_prefix_of(pv[i as int].0)));
                    assert(restrict_prefix(assoc_to_map(pv.take(i as int + 1)), prefix@)
                        =~= pre_r);
                }
            }
            i = i + 1;
        }
        proof {
            assert(pv.take(pv.len() as int) =~= pv);
            assert(scope_sel(self.live_map(), self.pending_map(), committed) == assoc_to_map(pv));
            assert forall|k: Seq<char>|
                scope_sel(self.live_map(), self.pending_map(), committed).dom().contains(k) && prefix@.is_prefix_of(
                    k,
                ) implies exists|a: int| 0 <= a < out@.len() && (#[trigger] out@[a])@ == k by {
                assert(restrict_prefix(assoc_to_map(pv), prefix@).dom().contains(k));
            }
            assert forall|a: int| 0 <= a < out@.len() implies scope_sel(
                self.live_map(),
                self.pending_map(),
                committed,
            ).dom().contains((#[trigger] out@[a])@) by {
                assert(restrict_prefix(assoc_to_map(pv), prefix@).dom().contains(out@[a]@));
            }
        }
        Ok(out)
    }

    fn get_key(&self, key: &Key, committed: Committed) -> (r: Result<Option<String>, Error>) {
        let v = match committed {
            Committed::Live => &self.live,
            Committed::Pending => &self.pending,
        };
        let ghost pv = pair_views(v@);
        proof {
            lemma_assoc_contains(pv, key@);
        }
        match find_idx(v, key.as_str()) {
            Some(i) => {
                proof {
                    lemma_assoc_index(pv, i as int);
                }
                Ok(Some(v[i].1.clone()))
            },
            None => {
                proof {
                    assert forall|j: int| 0 <= j < pv.len() implies (#[trigger] pv[j]).0
                        != key@ by {
                        assert(v@[j].0@ != key@);
                    }
                }
                Ok(None)
            },
        }
    }

    fn set_key(&mut self, key: &Key, value: &str, committed: Committed) -> (r: Result<(), Error>) {
        match committed {
            Committed::Live => pairs_set(&mut self.live, key, value),
            Committed::Pending => pairs_set(&mut self.pending, key, value),
        }
        Ok(())
    }

    fn get_metadata_raw(&self, md_key: &Key, data_key: &Key) -> (r: Result<Option<String>, Error>) {
        let ghost mv = meta_views(self.metadata@);
        proof {
            lemma_assoc_contains(mv, (md_key@, data_key@));
        }
        match meta_find_idx(&self.metadata, md_key.as_str(), data_key.as_str()) {
            Some(i) => {
                proof {
                    assert(mv[i as int].0 == (md_key@, data_key@));
                    lemma_assoc_index(mv, i as int);
                }
                Ok(Some(self.metadata[i].2.clone()))
            },
            None => {
                proof {
                    assert forall|j: int| 0 <= j < mv.len() implies (#[trigger] mv[j]).0 != (
                    md_key@,
                    data_key@,
                ) by {
                        assert(!(self.metadata@[j].0@ == md_key@ && self.metadata@[j].1@
                            == data_key@));
                    }
                }
                Ok(None)
            },
        }
    }

    fn set_metadata(&mut self, md_key: &Key, data_key: &Key, value: &str) -> (r: Result<
        (),
        Error,
    >) {
        let ghost mv = meta_views(self.metadata@);
        match meta_find_idx(&self.metadata, md_key.as_str(), data_key.as_str()) {
            Some(i) => {
                self.metadata[i] = (md_key.dup(), data_key.dup(), value.to_owned());
                proof {
                    assert(meta_views(self.metadata@) =~= mv.update(
                        i as int,
                        ((md_key@, data_key@), value@),
                    ));
                    lemma_assoc_update(mv, i as int, ((md_key@, data_key@), value@));
                }
            },
            None => {
                self.metadata.push((md_key.dup(), data_key.dup(), value.to_owned()));
                proof {
                    assert(meta_views(self.metadata@) =~= mv.push(((md_key@, data_key@), value@)));
                    assert forall|j: int| 0 <= j < mv.len() implies (#[trigger] mv[j]).0 != (
                    md_key@,
                    data_key@,
                ) by {
                        assert(!(old(self).metadata@[j].0@ == md_key@ && old(self).metadata@[j].1@
                            == data_key@));
                    }
                    lemma_assoc_push(mv, ((md_key@, data_key@), value@));
                }
            },
        }
        Ok(())
    }

    #[verifier::loop_isolation(false)]
    fn commit(&mut self) -> (r: Result<Vec<Key>, Error>) {
        let ghost pp = pair_views(old(self).pending@);
        let ghost moved_map = restrict_prefix(old(self).pending_map(), "settings."@);
        let mut moved: Vec<Key> = Vec::new();
        let mut i: usize = 0;
        while i < self.pending.len()
            invariant
                i <= self.pending@.len(),
                self.pending == old(self).pending,
                self.metadata == old(self).metadata,
                wf_pairs(self.live@),
                wf_pairs(self.pending@),
                wf_meta(self.metadata@),
                pp == pair_views(self.pending@),
                self.live_map() == old(self).live_map().union_prefer_right(
                    restrict_prefix(assoc_to_map(pp.take(i as int)), "settings."@),
                ),
                forall|a: int| 0 <= a < moved@.len() ==> (#[trigger] moved@[a]).wf()
                    && moved@[a].kind_spec() == KeyType::Data,
                forall|a: int| 0 <= a < moved@.len() ==> restrict_prefix(
                    assoc_to_map(pp.take(i as int)),
                    "settings."@,
                ).dom().contains((#[trigger] moved@[a])@),
                forall|k: Seq<char>|
                    restrict_prefix(assoc_to_map(pp.take(i as int)), "settings."@).dom().contains(
                        k,
                    ) ==> exists|a: int| 0 <= a < moved@.len() && (#[trigger] moved@[a])@ == k,
                forall|a: int, b: int| 0 <= a < b < moved@.len() ==> (#[trigger] moved@[a])@
                    != (#[trigger] moved@[b])@,
            decreases self.pending@.len() - i,
        {
            let ghost pre = assoc_to_map(pp.take(i as int));
            let ghost pre_r = restrict_prefix(pre, "settings."@);
            proof {
                assert(pp.take(i as int + 1).drop_last() =~= pp.take(i as int));
                assert(pp.take(i as int + 1).last() == pp[i as int]);
                assert(assoc_to_map(pp.take(i as int + 1)) == pre.insert(
                    pp[i as int].0,
                    pp[i as int].1,
                ));
            }
            if self.pending[i].0.starts_with("settings.") {
                let k = self.pending[i].0.dup();
                let val = self.pending[i].1.clone();
                let ghost live_pre = self.live_map();
                pairs_set(&mut self.live, &k, val.as_str());
                let ghost moved_pre = moved@;
                moved.push(k);
                proof {
                    assert(restrict_prefix(assoc_to_map(pp.take(i as int + 1)), "settings."@)
                        =~= pre_r.insert(pp[i as int].0, pp[i as int].1));
                    assert(old(self).live_map().union_prefer_right(pre).insert(
                        pp[i as int].0,
                        pp[i as int].1,
                    ) =~= old(self).live_map().union_prefer_right(
                        pre.insert(pp[i as int].0, pp[i as int].1),
                    ));
                    assert(old(self).live_map().union_prefer_right(pre_r).insert(
                        pp[i as int].0,
                        pp[i as int].1,
                    ) =~= old(self).live_map().union_prefer_right(
                        pre_r.insert(pp[i as int].0, pp[i as int].1),
                    ));
                    assert(moved@ =~= moved_pre.push(old(self).pending@[i as int].0));
                    assert(moved@[moved@.len() - 1]@ == pp[i as int].0);
                    lemma_assoc_contains(pp.take(i as int), pp[i as int].0);
                    assert(forall|j: int| 0 <= j < i ==> (#[trigger] pp[j]).0 != pp[i as int].0);
                    assert forall|j: int| 0 <= j < i implies (#[trigger] pp.take(i as int)[j]).0
                        != pp[i as int].0 by {
                        assert(pp.take(i as int)[j] == pp[j]);
                    }
                    assert(!pre.dom().contains(pp[i as int].0));
                    assert forall|a: int, b: int| 0 <= a < b < moved@.len() implies (
                    #[trigger] moved@[a])@ != (#[trigger] moved@[b])@ by {
                        if b == moved@.len() - 1 {
                            assert(pre_r.dom().contains(moved_pre[a]@));
                        }
                    }
                    assert forall|k: Seq<char>| #[trigger]
                        restrict_prefix(
                            assoc_to_map(pp.take(i as int + 1)),
                            "settings."@,
                        ).dom().contains(k) implies exists|a: int| 0 <= a < moved@.len()
                        && moved@[a]@ == k by {
                        if k == pp[i as int].0 {
                            assert(moved@[moved@.len() - 1]@ == k);
                        } else {
                            assert(pre_r.dom().contains(k));
                            let a = choose|a: int| 0 <= a < moved_pre.len() && (
                            #[trigger] moved_pre[a])@ == k;
                            assert(moved@[a]@ == k);
                        }
                    }
                }
            } else {
                proof {
                    assert(!("settings."@.is_prefix_of(pp[i as int].0)));
                    assert(restrict_prefix(assoc_to_map(pp.take(i as int + 1)), "settings."@)
                        =~= pre_r);
                }
            }
            i = i + 1;
        }
        self.pending = Vec::new();
        proof {
            assert(pp.take(pp.len() as int) =~= pp);
            assert(pair_views(self.pending@) =~= Seq::<(Seq<char>, Seq<char>)>::empty());
            assert(self.pending_map() =~= Map::<Seq<char>, Seq<char>>::empty());
        }
        Ok(moved)
    }
}

} // verus!
