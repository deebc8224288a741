use crate::types::CachedState;
use std::collections::HashMap;
use vstd::prelude::*;

verus! {

/// What is kept of the configurations between calls, by their keys, and
/// how often it was of use.
///
/// An entry is of use only for a source whose columns are the ones for
/// which it was made; an entry that is not is stale and is dropped when it
/// is asked for.
pub struct PlannerCache {
    entries: HashMap<u64, CachedState>,
    hits: u64,
    misses: u64,
}

/// A count with one more, which stops at the largest number.
pub open spec fn counted(n: u64) -> u64 {
    if n < u64::MAX {
        (n + 1) as u64
    } else {
        n
    }
}

impl PlannerCache {
    /// The entries by their keys.
    pub closed spec fn view(&self) -> Map<u64, CachedState> {
        self.entries@
    }

    /// How often an entry was of use.
    pub closed spec fn spec_hits(&self) -> u64 {
        self.hits
    }

    /// How often there was no entry of use.
    pub closed spec fn spec_misses(&self) -> u64 {
        self.misses
    }

    /// Whether there is an entry for the key that was made for a source
    /// with these columns.
    pub open spec fn is_current(&self, cache_key: u64, source_cols_hash: u64) -> bool {
        self@.contains_key(cache_key) && self@[cache_key].source_cols_hash == source_cols_hash
    }

    pub fn new() -> (cache: Self)
        ensures
            cache@ == Map::<u64, CachedState>::empty(),
            cache.spec_hits() == 0,
            cache.spec_misses() == 0,
    {
        PlannerCache { entries: HashMap::new(), hits: 0, misses: 0 }
    }

    #[verifier::when_used_as_spec(spec_hits)]
    pub fn hits(&self) -> (n: u64)
        ensures
            n == self.spec_hits(),
    {
        self.hits
    }

    #[verifier::when_used_as_spec(spec_misses)]
    pub fn misses(&self) -> (n: u64)
        ensures
            n == self.spec_misses(),
    {
        self.misses
    }

    /// The number of entries.
    pub fn len(&self) -> (n: usize)
        ensures
            n == self@.len(),
    {
        self.entries.len()
    }

    /// Asks for the entry of a key for a source with these columns, and
    /// counts the outcome. An entry that was made for other columns is
    /// dropped.
    pub fn probe(&mut self, cache_key: u64, source_cols_hash: u64) -> (hit: bool)
        ensures
            hit == old(self).is_current(cache_key, source_cols_hash),
            hit ==> final(self)@ == old(self)@ && final(self).spec_hits() == counted(
                old(self).spec_hits(),
            ) && final(self).spec_misses() == old(self).spec_misses(),
            !hit ==> final(self)@ == old(self)@.remove(cache_key) && final(self).spec_misses()
                == counted(old(self).spec_misses()) && final(self).spec_hits() == old(
                self,
            ).spec_hits(),
    {
        broadcast use vstd::std_specs::hash::group_hash_axioms;

        let hit = match self.entries.get(&cache_key) {
            Some(state) => state.source_cols_hash == source_cols_hash,
            None => false,
        };
        if hit {
            if self.hits < u64::MAX {
                self.hits = self.hits + 1;
            }
        } else {
            if self.misses < u64::MAX {
                self.misses = self.misses + 1;
            }
            self.entries.remove(&cache_key);
        }
        hit
    }

    /// The entry of a key.
    pub fn get(&self, cache_key: u64) -> (r: Option<&CachedState>)
        ensures
            match r {
                Some(state) => self@.contains_key(cache_key) && *state == self@[cache_key],
                None => !self@.contains_key(cache_key),
            },
    {
        broadcast use vstd::std_specs::hash::group_hash_axioms;

        self.entries.get(&cache_key)
    }

    /// Keeps a state under its key, in place of what was kept under it.
    pub fn store(&mut self, state: CachedState)
        ensures
            final(self)@ == old(self)@.insert(state.cache_key, state),
            final(self).spec_hits() == old(self).spec_hits(),
            final(self).spec_misses() == old(self).spec_misses(),
    {
        broadcast use vstd::std_specs::hash::group_hash_axioms;

        let key = state.cache_key;
        self.entries.insert(key, state);
    }

    /// Drops all entries and starts counting anew.
    pub fn clear(&mut self)
        ensures
            final(self)@ == Map::<u64, CachedState>::empty(),
            final(self).spec_hits() == 0,
            final(self).spec_misses() == 0,
    {
        self.entries.clear();
        self.hits = 0;
        self.misses = 0;
    }
}

} // verus!
