//! The datastore capability: a scope-aware key/value store with metadata and
//! a two-phase commit from the pending scope into the live scope.
//!
//! The abstract state of a store is three maps: data per scope, keyed by the
//! dotted key text, and metadata keyed by the (metadata key, data key) pair.
//! A backend that cannot fail (the in-memory store) states so through
//! `ops_ok`; a filesystem-backed store may fail any operation with a store
//! error, and on a failed write may have made some earlier writes visible
//! (no rollback).
//!
//! Values are opaque strings to the store. The typed layers write them in
//! the library's canonical scalar encoding and read only that form back:
//! the decoder accepts the canonical output plus the standard
//! one-character escapes and `\u00XX`, so a hand-authored value using
//! other JSON escapes is rejected on read (the scalar module states the
//! exact grammar).

use vstd::prelude::*;
use crate::Committed;
use crate::error::{Error, is_store_error};
use crate::key::{Key, KeyType};

verus! {

/// The part of `m` whose keys start with `p`.
pub open spec fn restrict_prefix(m: Map<Seq<char>, Seq<char>>, p: Seq<char>) -> Map<
    Seq<char>,
    Seq<char>,
> {
    Map::new(|k: Seq<char>| m.dom().contains(k) && p.is_prefix_of(k), |k: Seq<char>| m[k])
}

/// Selects the map of the given scope.
pub open spec fn scope_sel(
    live: Map<Seq<char>, Seq<char>>,
    pending: Map<Seq<char>, Seq<char>>,
    committed: Committed,
) -> Map<Seq<char>, Seq<char>> {
    match committed {
        Committed::Live => live,
        Committed::Pending => pending,
    }
}

/// The scope the given one is paired with.
pub open spec fn other_scope(committed: Committed) -> Committed {
    match committed {
        Committed::Live => Committed::Pending,
        Committed::Pending => Committed::Live,
    }
}

pub trait DataStore: Sized {
    /// Data committed as live.
    spec fn live_map(&self) -> Map<Seq<char>, Seq<char>>;

    /// Data staged in the pending scope.
    spec fn pending_map(&self) -> Map<Seq<char>, Seq<char>>;

    /// Metadata, keyed by (metadata key, data key); metadata is attached to
    /// live data only.
    spec fn meta_map(&self) -> Map<(Seq<char>, Seq<char>), Seq<char>>;

    /// The backend's own well-formedness.
    spec fn inv(&self) -> bool;

    /// Whether this backend's operations are free of failures; reads and
    /// writes on a backend with `ops_ok` always return `Ok`.
    spec fn ops_ok(&self) -> bool;

    /// Is this data key populated in the given scope?
    fn key_populated(&self, key: &Key, committed: Committed) -> (r: Result<bool, Error>)
        requires
            self.inv(),
            key.wf(),
            key.kind_spec() == KeyType::Data,
        ensures
            r matches Ok(b) ==> b == scope_sel(self.live_map(), self.pending_map(), committed).dom().contains(key@),
            r matches Err(e) ==> is_store_error(e),
            self.ops_ok() ==> r is Ok,
    ;

    /// Every populated key of the scope whose dotted text starts with
    /// `prefix` (a plain textual prefix, not segment-aligned), once each.
    fn list_populated_keys(&self, prefix: &str, committed: Committed) -> (r: Result<Vec<Key>, Error>)
        requires
            self.inv(),
        ensures
            r matches Ok(keys) ==> ({
                &&& forall|i: int, j: int| 0 <= i < j < keys@.len() ==> (#[trigger] keys@[i])@
                    != (#[trigger] keys@[j])@
                &&& forall|i: int| 0 <= i < keys@.len() ==> (#[trigger] keys@[i]).wf()
                    && keys@[i].kind_spec() == KeyType::Data
                &&& forall|i: int| 0 <= i < keys@.len() ==> scope_sel(self.live_map(), self.pending_map(), committed).dom().contains((#[trigger] keys@[i])@) && prefix@.is_prefix_of(keys@[i]@)
                &&& forall|k: Seq<char>| scope_sel(self.live_map(), self.pending_map(), committed).dom().contains(k)
                    && prefix@.is_prefix_of(k) ==> exists|i: int| 0 <= i < keys@.len()
                    && (#[trigger] keys@[i])@ == k
            }),
            r matches Err(e) ==> is_store_error(e),
            self.ops_ok() ==> r is Ok,
    ;

    /// The value of a data key in a scope, if populated.
    fn get_key(&self, key: &Key, committed: Committed) -> (r: Result<Option<String>, Error>)
        requires
            self.inv(),
            key.wf(),
            key.kind_spec() == KeyType::Data,
        ensures
            r matches Ok(o) ==> match o {
                Some(v) => scope_sel(self.live_map(), self.pending_map(), committed).dom().contains(key@) && scope_sel(self.live_map(), self.pending_map(), committed)[key@] == v@,
                None => !scope_sel(self.live_map(), self.pending_map(), committed).dom().contains(key@),
            },
            r matches Err(e) ==> is_store_error(e),
            self.ops_ok() ==> r is Ok,
    ;

    /// Writes a data key in a scope, creating or overwriting it.
    fn set_key(&mut self, key: &Key, value: &str, committed: Committed) -> (r: Result<(), Error>)
        requires
            old(self).inv(),
            key.wf(),
            key.kind_spec() == KeyType::Data,
        ensures
            final(self).inv(),
            final(self).ops_ok() == old(self).ops_ok(),
            r is Ok ==> ({
                &&& scope_sel(final(self).live_map(), final(self).pending_map(), committed) == scope_sel(old(self).live_map(), old(self).pending_map(), committed).insert(
                    key@,
                    value@,
                )
                &&& scope_sel(final(self).live_map(), final(self).pending_map(), other_scope(committed)) == scope_sel(old(self).live_map(), old(self).pending_map(), other_scope(committed))
                &&& final(self).meta_map() == old(self).meta_map()
            }),
            r matches Err(e) ==> is_store_error(e),
            old(self).ops_ok() ==> r is Ok,
    ;

    /// The value of a metadata key about a data key, if set. Metadata lives
    /// in the live scope only.
    fn get_metadata_raw(&self, md_key: &Key, data_key: &Key) -> (r: Result<Option<String>, Error>)
        requires
            self.inv(),
            md_key.wf(),
            md_key.kind_spec() == KeyType::Meta,
            data_key.wf(),
            data_key.kind_spec() == KeyType::Data,
        ensures
            r matches Ok(o) ==> match o {
                Some(v) => self.meta_map().dom().contains((md_key@, data_key@))
                    && self.meta_map()[(md_key@, data_key@)] == v@,
                None => !self.meta_map().dom().contains((md_key@, data_key@)),
            },
            r matches Err(e) ==> is_store_error(e),
            self.ops_ok() ==> r is Ok,
    ;

    /// Writes a metadata value about a data key, into the live scope.
    fn set_metadata(&mut self, md_key: &Key, data_key: &Key, value: &str) -> (r: Result<(), Error>)
        requires
            old(self).inv(),
            md_key.wf(),
            md_key.kind_spec() == KeyType::Meta,
            data_key.wf(),
            data_key.kind_spec() == KeyType::Data,
        ensures
            final(self).inv(),
            final(self).ops_ok() == old(self).ops_ok(),
            r is Ok ==> ({
                &&& final(self).meta_map() == old(self).meta_map().insert(
                    (md_key@, data_key@),
                    value@,
                )
                &&& final(self).live_map() == old(self).live_map()
                &&& final(self).pending_map() == old(self).pending_map()
            }),
            r matches Err(e) ==> is_store_error(e),
            old(self).ops_ok() ==> r is Ok,
    ;

    /// Promotes the pending settings into the live scope and clears the
    /// pending scope, returning the promoted keys: exactly the data keys
    /// that were pending under the prefix `"settings."` at the start of the
    /// commit, each with its pending value now readable from live.
    fn commit(&mut self) -> (r: Result<Vec<Key>, Error>)
        requires
            old(self).inv(),
        ensures
            final(self).inv(),
            final(self).ops_ok() == old(self).ops_ok(),
            r matches Ok(keys) ==> ({
                let moved = restrict_prefix(old(self).pending_map(), "settings."@);
                &&& forall|i: int, j: int| 0 <= i < j < keys@.len() ==> (#[trigger] keys@[i])@
                    != (#[trigger] keys@[j])@
                &&& forall|i: int| 0 <= i < keys@.len() ==> (#[trigger] keys@[i]).wf()
                    && keys@[i].kind_spec() == KeyType::Data
                &&& forall|i: int| 0 <= i < keys@.len() ==> moved.dom().contains(
                    (#[trigger] keys@[i])@,
                )
                &&& forall|k: Seq<char>| moved.dom().contains(k) ==> exists|i: int| 0 <= i
                    < keys@.len() && (#[trigger] keys@[i])@ == k
                &&& final(self).live_map() == old(self).live_map().union_prefer_right(moved)
                &&& final(self).pending_map() == Map::<Seq<char>, Seq<char>>::empty()
                &&& final(self).meta_map() == old(self).meta_map()
            }),
            r matches Err(e) ==> is_store_error(e),
            old(self).ops_ok() ==> r is Ok,
    ;
}

/// Writes each pair into the given scope, failing fast on the first error;
/// on success the scope holds all the pairs on top of what it held.
#[verifier::loop_isolation(false)]
pub fn set_keys<D: DataStore>(ds: &mut D, pairs: &Vec<(Key, String)>, committed: Committed) -> (r:
    Result<(), Error>)
    requires
        old(ds).inv(),
        crate::serialization::keys_distinct(crate::serialization::pair_views(pairs@)),
        forall|i: int| 0 <= i < pairs@.len() ==> (#[trigger] pairs@[i]).0.wf()
            && pairs@[i].0.kind_spec() == KeyType::Data,
    ensures
        final(ds).inv(),
        final(ds).ops_ok() == old(ds).ops_ok(),
        r is Ok ==> ({
            &&& scope_sel(final(ds).live_map(), final(ds).pending_map(), committed) == scope_sel(old(ds).live_map(), old(ds).pending_map(), committed).union_prefer_right(
                crate::serialization::assoc_to_map(crate::serialization::pair_views(pairs@)),
            )
            &&& scope_sel(final(ds).live_map(), final(ds).pending_map(), other_scope(committed)) == scope_sel(old(ds).live_map(), old(ds).pending_map(), other_scope(committed))
            &&& final(ds).meta_map() == old(ds).meta_map()
        }),
        r matches Err(e) ==> is_store_error(e),
        old(ds).ops_ok() ==> r is Ok,
{
    let ghost pv = crate::serialization::pair_views(pairs@);
    let mut i: usize = 0;
    while i < pairs.len()
        invariant
            i <= pairs@.len(),
            ds.inv(),
            ds.ops_ok() == old(ds).ops_ok(),
            pv == crate::serialization::pair_views(pairs@),
            scope_sel(ds.live_map(), ds.pending_map(), committed) == scope_sel(old(ds).live_map(), old(ds).pending_map(), committed).union_prefer_right(
                crate::serialization::assoc_to_map(pv.take(i as int)),
            ),
            scope_sel(ds.live_map(), ds.pending_map(), other_scope(committed)) == scope_sel(old(ds).live_map(), old(ds).pending_map(), other_scope(committed)),
            ds.meta_map() == old(ds).meta_map(),
        decreases pairs@.len() - i,
    {
        let ghost pre = crate::serialization::assoc_to_map(pv.take(i as int));
        match ds.set_key(&pairs[i].0, pairs[i].1.as_str(), committed) {
            Ok(()) => {},
            Err(e) => {
                return Err(e);
            },
        }
        proof {
            assert(pv.take(i as int + 1).drop_last() =~= pv.take(i as int));
            assert(pv.take(i as int + 1).last() == pv[i as int]);
            assert(crate::serialization::assoc_to_map(pv.take(i as int + 1)) == pre.insert(
                pv[i as int].0,
                pv[i as int].1,
            ));
            assert(scope_sel(old(ds).live_map(), old(ds).pending_map(), committed).union_prefer_right(pre).insert(
                pv[i as int].0,
                pv[i as int].1,
            ) =~= scope_sel(old(ds).live_map(), old(ds).pending_map(), committed).union_prefer_right(
                pre.insert(pv[i as int].0, pv[i as int].1),
            ));
        }
        i = i + 1;
    }
    proof {
        assert(pv.take(pv.len() as int) =~= pv);
    }
    Ok(())
}

} // verus!
