//! Host paths that were found for guest paths.
use crate::error::AppResult;
use crate::names::NameMap;
use crate::perf::ratio::{hit_share, share_of, Ratio};
use crate::text::{begins_with, has_prefix};
use vstd::prelude::*;

verus! {

/// The texts of a map of strings.
pub open spec fn texts(map: Map<Seq<char>, String>) -> Map<Seq<char>, Seq<char>> {
    map.map_values(|value: String| value@)
}

/// Remembers which host path a guest path resolved to.
pub struct PathResolutionCache {
    /// Host paths by guest path.
    pub cache: NameMap<String>,
    pub hits: u64,
    pub misses: u64,
}

impl PathResolutionCache {
    /// The host paths by guest path.
    pub open spec fn paths(&self) -> Map<Seq<char>, Seq<char>> {
        texts(self.cache@)
    }

    pub fn new() -> (cache: Self)
        ensures
            cache.paths() == Map::<Seq<char>, Seq<char>>::empty(),
            cache.hits == 0,
            cache.misses == 0,
    {
        let cache = PathResolutionCache { cache: NameMap::new(), hits: 0, misses: 0 };
        assert(cache.paths() =~= Map::<Seq<char>, Seq<char>>::empty());
        cache
    }

    /// The host path of a guest path: the one that is remembered, or else what
    /// `resolver` finds, which is remembered where it is no error. The resolver
    /// is called once, and only where no path is remembered; the contract says
    /// what comes of the call, not how often it is made.
    pub fn resolve<F: FnOnce(&str) -> AppResult<String>>(
        &mut self,
        guest_path: &str,
        resolver: F,
    ) -> (outcome: AppResult<String>)
        requires
            resolver.requires((guest_path,)),
            old(self).hits < u64::MAX,
            old(self).misses < u64::MAX,
        ensures
            old(self).paths().contains_key(guest_path@) ==> {
                &&& outcome is Ok
                &&& outcome->Ok_0@ == old(self).paths()[guest_path@]
                &&& final(self).paths() == old(self).paths()
                &&& final(self).hits == old(self).hits + 1
                &&& final(self).misses == old(self).misses
            },
            !old(self).paths().contains_key(guest_path@) ==> {
                &&& exists|found: AppResult<String>| #[trigger]
                    resolver.ensures((guest_path,), found) && match found {
                        Ok(path) => {
                            &&& outcome is Ok
                            &&& outcome->Ok_0@ == path@
                            &&& final(self).paths() == old(self).paths().insert(
                                guest_path@,
                                path@,
                            )
                        },
                        Err(error) => {
                            &&& outcome == Err::<String, _>(error)
                            &&& final(self).paths() == old(self).paths()
                        },
                    }
                &&& final(self).hits == old(self).hits
                &&& final(self).misses == old(self).misses + 1
            },
    {
        match self.cache.get(guest_path) {
            Some(resolved) => {
                self.hits += 1;
                return Ok(resolved.clone());
            },
            None => {},
        }
        self.misses += 1;
        let found = resolver(guest_path);
        match found {
            Ok(path) => {
                let copy = path.clone();
                self.cache.insert(guest_path.to_owned(), path);
                assert(self.paths() =~= old(self).paths().insert(guest_path@, path@));
                Ok(copy)
            },
            Err(error) => Err(error),
        }
    }

    /// Forgets a guest path.
    pub fn invalidate(&mut self, guest_path: &str)
        ensures
            final(self).paths() == old(self).paths().remove(guest_path@),
            final(self).hits == old(self).hits,
            final(self).misses == old(self).misses,
    {
        self.cache.remove(guest_path);
        assert(self.paths() =~= old(self).paths().remove(guest_path@));
    }

    /// Forgets all guest paths that start with `prefix`.
    pub fn invalidate_prefix(&mut self, prefix: &str)
        ensures
            forall|path: Seq<char>| #[trigger]
                final(self).paths().contains_key(path) <==> old(self).paths().contains_key(path)
                    && !begins_with(path, prefix@),
            forall|path: Seq<char>| #[trigger]
                final(self).paths().contains_key(path) ==> final(self).paths()[path] == old(
                    self,
                ).paths()[path],
            final(self).hits == old(self).hits,
            final(self).misses == old(self).misses,
    {
        let keys: Vec<String> = owned_names(&self.cache);
        let ghost before = self.cache@;
        let mut i: usize = 0;
        while i < keys.len()
            invariant
                i <= keys@.len(),
                before == old(self).cache@,
                self.hits == old(self).hits,
                self.misses == old(self).misses,
                forall|path: Seq<char>| #[trigger]
                    before.contains_key(path) <==> exists|j: int|
                        0 <= j < keys@.len() && (#[trigger] keys@[j])@ == path,
                forall|path: Seq<char>| #[trigger]
                    self.cache@.contains_key(path) <==> before.contains_key(path) && !(begins_with(
                        path,
                        prefix@,
                    ) && exists|j: int| 0 <= j < i && (#[trigger] keys@[j])@ == path),
                forall|path: Seq<char>| #[trigger]
                    self.cache@.contains_key(path) ==> self.cache@[path] == before[path],
            decreases keys@.len() - i,
        {
            if has_prefix(keys[i].as_str(), prefix) {
                let ghost sooner = self.cache@;
                self.cache.remove(keys[i].as_str());
                assert(self.cache@ == sooner.remove(keys@[i as int]@));
            }
            i += 1;
        }
        proof {
            assert forall|path: Seq<char>| #[trigger] self.paths().contains_key(path) <==> old(
                self,
            ).paths().contains_key(path) && !begins_with(path, prefix@) by {
                assert(self.cache@.contains_key(path) == self.paths().contains_key(path));
                assert(before.contains_key(path) == old(self).paths().contains_key(path));
            }
            assert forall|path: Seq<char>| #[trigger]
                self.paths().contains_key(path) implies self.paths()[path] == old(
                self,
            ).paths()[path] by {
                assert(self.cache@.contains_key(path));
            }
        }
    }

    /// Hits, misses, and the share of hits.
    pub fn stats(&self) -> (stats: (u64, u64, Ratio))
        ensures
            stats.0 == self.hits,
            stats.1 == self.misses,
            stats.2 == share_of(self.hits, self.misses),
    {
        (self.hits, self.misses, hit_share(self.hits, self.misses))
    }

    /// The number of remembered paths.
    pub fn entry_count(&self) -> (count: usize)
        ensures
            count == self.paths().dom().len(),
    {
        assert(self.paths().dom() =~= self.cache@.dom());
        self.cache.len()
    }
}

fn owned_names(map: &NameMap<String>) -> (keys: Vec<String>)
    ensures
        forall|key: Seq<char>| #[trigger]
            map@.contains_key(key) <==> exists|i: int|
                0 <= i < keys@.len() && (#[trigger] keys@[i])@ == key,
{
    let names = map.names();
    let mut keys: Vec<String> = Vec::new();
    let mut i: usize = 0;
    while i < names.len()
        invariant
            i <= names@.len(),
            keys@.len() == i,
            forall|j: int| 0 <= j < i ==> (#[trigger] keys@[j])@ == names@[j]@,
        decreases names@.len() - i,
    {
        keys.push(names[i].clone());
        i += 1;
    }
    assert forall|key: Seq<char>| #[trigger] map@.contains_key(key) <==> exists|i: int|
        0 <= i < keys@.len() && (#[trigger] keys@[i])@ == key by {
        if map@.contains_key(key) {
            let i = choose|i: int| 0 <= i < names@.len() && (#[trigger] names@[i])@ == key;
            assert(keys@[i]@ == key);
        }
        if exists|i: int| 0 <= i < keys@.len() && (#[trigger] keys@[i])@ == key {
            let i = choose|i: int| 0 <= i < keys@.len() && (#[trigger] keys@[i])@ == key;
            assert(names@[i]@ == key);
        }
    }
    keys
}

} // verus!
