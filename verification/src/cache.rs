use crate::error::ExecutionError;
use crate::fingerprinting::Fingerprint;
use crate::query_id::QueryId;
use crate::nodes::share;
use crate::structure::PerMap;
use std::sync::Arc;
use vstd::prelude::*;

verus! {

/// What a query depends on: a fingerprint for each id.
pub type CacheMap = PerMap<QueryId, Fingerprint>;

/// The outcome of one run of a query's body, with what the run saw.
pub struct Cached<O> {
    /// The stamped result, or the failure of the body.
    pub result: Arc<Result<(Fingerprint, O), ExecutionError>>,
    /// The fingerprints of all parameters that the run saw, itself or through
    /// the queries it ran.
    pub world_state: CacheMap,
    /// The fingerprints of the results of the queries that the body ran.
    pub deps_state: CacheMap,
    /// The fingerprints of the parameters that the body read itself.
    pub direct_world_state: CacheMap,
}

impl<O> Cached<O> {
    /// Whether the body failed.
    pub open spec fn failed(&self) -> bool {
        *self.result is Err
    }
}

impl<O> Clone for Cached<O> {
    /// The same entry; the two share the result.
    fn clone(&self) -> (res: Self)
        ensures
            res.result == self.result,
            res.world_state@ == self.world_state@,
            res.deps_state@ == self.deps_state@,
            res.direct_world_state@ == self.direct_world_state@,
    {
        Cached {
            result: share(&self.result),
            world_state: self.world_state.clone(),
            deps_state: self.deps_state.clone(),
            direct_world_state: self.direct_world_state.clone(),
        }
    }
}

/// Whether `entry` is `earlier` with other parameters.
pub open spec fn modified<O>(
    earlier: Cached<O>,
    entry: Cached<O>,
    world_state: CacheMap,
    direct_world_state: CacheMap,
) -> bool {
    &&& entry.result == earlier.result
    &&& entry.deps_state@ == earlier.deps_state@
    &&& entry.world_state@ == world_state@
    &&& entry.direct_world_state@ == direct_world_state@
}

/// A store of entries, one for each query. Each operation deals with one
/// key; nothing ties the entries of two keys together.
pub trait Cache<O> {
    /// The entries, by the name of their query.
    spec fn entries(&self) -> Map<Seq<char>, Cached<O>>;

    /// Stores an entry, in place of what was there.
    fn push(&mut self, key: QueryId, entry: Cached<O>)
        requires
            old(self).entries().len() < usize::MAX,
        ensures
            final(self).entries() == old(self).entries().insert(key@, entry),
    ;

    /// The entry of a query, shared with the store.
    fn pull(&mut self, key: &QueryId) -> (res: Option<Cached<O>>)
        ensures
            final(self).entries() == old(self).entries(),
            match res {
                Some(entry) => {
                    &&& old(self).entries().contains_key(key@)
                    &&& modified(
                        old(self).entries()[key@],
                        entry,
                        old(self).entries()[key@].world_state,
                        old(self).entries()[key@].direct_world_state,
                    )
                },
                None => !old(self).entries().contains_key(key@),
            },
    ;

    /// Removes the entry of a query and says whether there was one.
    fn remove(&mut self, key: &QueryId) -> (found: bool)
        ensures
            found == old(self).entries().contains_key(key@),
            final(self).entries() == old(self).entries().remove(key@),
    ;

    /// Gives the entry of a query other parameters, where it has an entry,
    /// and says whether it has one.
    fn modify(&mut self, key: QueryId, world_state: CacheMap, direct_world_state: CacheMap) -> (found:
        bool)
        requires
            old(self).entries().len() < usize::MAX,
        ensures
            found == old(self).entries().contains_key(key@),
            !found ==> final(self).entries() == old(self).entries(),
            found ==> {
                &&& final(self).entries().contains_key(key@)
                &&& final(self).entries() == old(self).entries().insert(
                    key@,
                    final(self).entries()[key@],
                )
                &&& modified(
                    old(self).entries()[key@],
                    final(self).entries()[key@],
                    world_state,
                    direct_world_state,
                )
            },
    ;
}

/// The plain store of entries.
pub struct CacheStore<O> {
    map: PerMap<QueryId, Cached<O>>,
}

impl<O> CacheStore<O> {
    pub fn new() -> (res: Self)
        ensures
            res.entries() == Map::<Seq<char>, Cached<O>>::empty(),
    {
        CacheStore { map: PerMap::empty() }
    }
}

impl<O> Cache<O> for CacheStore<O> {
    closed spec fn entries(&self) -> Map<Seq<char>, Cached<O>> {
        self.map@
    }

    fn push(&mut self, key: QueryId, entry: Cached<O>) {
        self.map = self.map.insert(key, entry);
    }

    fn pull(&mut self, key: &QueryId) -> (res: Option<Cached<O>>) {
        match self.map.get(key) {
            Some(entry) => Some(entry.clone()),
            None => None,
        }
    }

    fn remove(&mut self, key: &QueryId) -> (found: bool) {
        let found = self.map.get(key).is_some();
        self.map = self.map.remove(key);
        found
    }

    fn modify(&mut self, key: QueryId, world_state: CacheMap, direct_world_state: CacheMap) -> (found:
        bool) {
        match self.map.get(&key) {
            Some(entry) => {
                let fresh = Cached {
                    result: share(&entry.result),
                    world_state,
                    deps_state: entry.deps_state.clone(),
                    direct_world_state,
                };
                self.map = self.map.insert(key, fresh);
                true
            },
            None => false,
        }
    }
}

} // verus!
