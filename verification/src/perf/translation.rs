//! Recently used translations of guest addresses.
use crate::ids::{lists_keys, sorted_keys};
use crate::perf::ratio::{hit_share, share_of, Ratio};
use std::collections::BTreeMap;
use vstd::prelude::*;

verus! {

broadcast use vstd::std_specs::btree::group_btree_axioms;

/// Where a guest address lies on the host.
#[derive(Debug, Clone, Copy)]
pub struct AddressTranslation {
    pub guest_address: u64,
    pub host_address: u64,
    pub size: usize,
    pub protection: u32,
    pub hits: u64,
    /// How often the translation was looked up: the least used one leaves a
    /// full cache first.
    pub access_count: u64,
}

/// `a` leaves the cache before `b`: it was used less, or as much and lies lower.
pub open spec fn leaves_before(a: AddressTranslation, b: AddressTranslation) -> bool {
    a.access_count < b.access_count || (a.access_count == b.access_count && a.guest_address
        <= b.guest_address)
}

/// `address` holds the translation that leaves the cache first.
pub open spec fn least_used(entries: Map<u64, AddressTranslation>, address: u64) -> bool {
    &&& entries.contains_key(address)
    &&& forall|other: u64| #[trigger]
        entries.contains_key(other) ==> leaves_before(entries[address], entries[other])
}

/// `entries` without the least used one, where there is one.
pub open spec fn without_least_used(entries: Map<u64, AddressTranslation>) -> Map<
    u64,
    AddressTranslation,
> {
    if entries.dom().len() == 0 {
        entries
    } else {
        entries.remove(choose|address: u64| least_used(entries, address))
    }
}

/// A cache of translations that holds a limited number of them.
pub struct AddressTranslationCache {
    translations: BTreeMap<u64, AddressTranslation>,
    max_entries: usize,
    total_hits: u64,
    total_misses: u64,
}

impl AddressTranslationCache {
    /// The cached translations by guest address.
    pub closed spec fn entries(&self) -> Map<u64, AddressTranslation> {
        self.translations@
    }

    pub closed spec fn limit(&self) -> usize {
        self.max_entries
    }

    /// Recorded hits, modulo 2^64.
    pub closed spec fn hits(&self) -> u64 {
        self.total_hits
    }

    /// Recorded misses, modulo 2^64.
    pub closed spec fn misses(&self) -> u64 {
        self.total_misses
    }

    /// A translation stands under its own address, and the limit is kept. A
    /// cache with the limit 0 still holds the translation that came last.
    pub open spec fn valid(&self) -> bool {
        &&& self.entries().dom().finite()
        &&& self.entries().dom().len() <= self.limit() || self.entries().dom().len() <= 1
        &&& forall|address: u64| #[trigger]
            self.entries().contains_key(address) ==> self.entries()[address].guest_address
                == address
    }

    pub fn new(max_entries: usize) -> (cache: Self)
        ensures
            cache.valid(),
            cache.entries() == Map::<u64, AddressTranslation>::empty(),
            cache.limit() == max_entries,
            cache.hits() == 0,
            cache.misses() == 0,
    {
        AddressTranslationCache {
            translations: BTreeMap::new(),
            max_entries,
            total_hits: 0,
            total_misses: 0,
        }
    }

    /// The translation of a guest address, counted as used once more.
    pub fn lookup(&mut self, guest_address: u64) -> (found: Option<&AddressTranslation>)
        requires
            old(self).valid(),
            old(self).entries().contains_key(guest_address) ==> {
                &&& old(self).entries()[guest_address].access_count < u64::MAX
                &&& old(self).entries()[guest_address].hits < u64::MAX
            },
        ensures
            final(self).valid(),
            final(self).limit() == old(self).limit(),
            final(self).hits() == old(self).hits(),
            final(self).misses() == old(self).misses(),
            found is Some <==> old(self).entries().contains_key(guest_address),
            found is None ==> final(self).entries() == old(self).entries(),
            found matches Some(entry) ==> {
                let before = old(self).entries()[guest_address];
                &&& *entry == (AddressTranslation {
                    access_count: (before.access_count + 1) as u64,
                    hits: (before.hits + 1) as u64,
                    ..before
                })
                &&& final(self).entries() == old(self).entries().insert(guest_address, *entry)
            },
    {
        match self.translations.get(&guest_address) {
            Some(entry) => {
                let entry = *entry;
                self.translations.insert(
                    guest_address,
                    AddressTranslation {
                        access_count: entry.access_count + 1,
                        hits: entry.hits + 1,
                        ..entry
                    },
                );
                assert(self.translations@.dom() =~= old(self).translations@.dom());
            },
            None => {},
        }
        self.translations.get(&guest_address)
    }

    /// Caches a translation. A full cache gives up its least used one first,
    /// unless the new one takes the place of an older one for the same address.
    pub fn insert(
        &mut self,
        guest_address: u64,
        host_address: u64,
        size: usize,
        protection: u32,
    )
        requires
            old(self).valid(),
        ensures
            final(self).valid(),
            final(self).limit() == old(self).limit(),
            final(self).hits() == old(self).hits(),
            final(self).misses() == old(self).misses(),
            ({
                let full = old(self).entries().dom().len() >= old(self).limit() && !old(
                    self,
                ).entries().contains_key(guest_address);
                let kept = if full {
                    without_least_used(old(self).entries())
                } else {
                    old(self).entries()
                };
                final(self).entries() == kept.insert(
                    guest_address,
                    (AddressTranslation {
                        guest_address,
                        host_address,
                        size,
                        protection,
                        hits: 0,
                        access_count: 0,
                    }),
                )
            }),
    {
        if self.translations.len() >= self.max_entries && !self.translations.contains_key(
            &guest_address,
        ) {
            match self.least_used_address() {
                Some(address) => {
                    proof {
                        let entries = self.entries();
                        let other = choose|other: u64| least_used(entries, other);
                        assert(least_used(entries, address));
                        assert(least_used(entries, other));
                        assert(entries.contains_key(address) && entries.contains_key(other));
                    }
                    self.translations.remove(&address);
                },
                None => {},
            }
        }
        self.translations.insert(
            guest_address,
            AddressTranslation {
                guest_address,
                host_address,
                size,
                protection,
                hits: 0,
                access_count: 0,
            },
        );
    }

    /// The address whose translation leaves first.
    fn least_used_address(&self) -> (found: Option<u64>)
        requires
            self.valid(),
        ensures
            match found {
                Some(address) => least_used(self.entries(), address) && self.entries().dom().len()
                    > 0,
                None => self.entries().dom().len() == 0,
            },
    {
        let keys: Vec<u64> = sorted_keys(&self.translations);
        let ghost entries = self.entries();
        if keys.len() == 0 {
            proof {
                assert(entries.dom() =~= Set::empty()) by {
                    assert forall|a: u64| !entries.dom().contains(a) by {
                        assert(entries.contains_key(a) <==> keys@.contains(a));
                    }
                }
            }
            return None;
        }
        let mut best: usize = 0;
        let mut i: usize = 1;
        assert(keys@.contains(keys@[0]));
        while i < keys.len()
            invariant
                1 <= i <= keys@.len(),
                best < i,
                self.valid(),
                entries == self.entries(),
                lists_keys(keys@, entries),
                forall|j: int|
                    0 <= j < i ==> leaves_before(
                        entries[keys@[best as int]],
                        #[trigger] entries[keys@[j]],
                    ),
            decreases keys@.len() - i,
        {
            assert(keys@.contains(keys@[i as int]));
            assert(keys@.contains(keys@[best as int]));
            match (self.translations.get(&keys[i]), self.translations.get(&keys[best])) {
                (Some(next), Some(least)) => {
                    if next.access_count < least.access_count {
                        best = i;
                    }
                },
                _ => {},
            }
            i += 1;
        }
        let address: u64 = keys[best];
        proof {
            assert(keys@.contains(address));
            assert forall|other: u64| #[trigger] entries.contains_key(other) implies leaves_before(
                entries[address],
                entries[other],
            ) by {
                assert(keys@.contains(other));
                let j = choose|j: int| 0 <= j < keys@.len() && keys@[j] == other;
                assert(leaves_before(entries[address], entries[keys@[j]]));
            }
            assert(entries.dom().contains(address));
        }
        Some(address)
    }

    /// Counts a hit; the count wraps around.
    pub fn record_hit(&mut self)
        ensures
            final(self).hits() == (old(self).hits() + 1) % 0x1_0000_0000_0000_0000,
            final(self).misses() == old(self).misses(),
            final(self).entries() == old(self).entries(),
            final(self).limit() == old(self).limit(),
    {
        self.total_hits = self.total_hits.wrapping_add(1);
    }

    /// Counts a miss; the count wraps around.
    pub fn record_miss(&mut self)
        ensures
            final(self).misses() == (old(self).misses() + 1) % 0x1_0000_0000_0000_0000,
            final(self).hits() == old(self).hits(),
            final(self).entries() == old(self).entries(),
            final(self).limit() == old(self).limit(),
    {
        self.total_misses = self.total_misses.wrapping_add(1);
    }

    /// The share of hits among the recorded lookups.
    pub fn hit_rate(&self) -> (rate: Ratio)
        ensures
            rate == share_of(self.hits(), self.misses()),
    {
        hit_share(self.total_hits, self.total_misses)
    }

    /// The number of cached translations.
    pub fn entry_count(&self) -> (count: usize)
        ensures
            count == self.entries().len(),
    {
        self.translations.len()
    }

    /// Forgets all translations.
    pub fn invalidate_all(&mut self)
        ensures
            final(self).valid(),
            final(self).entries() == Map::<u64, AddressTranslation>::empty(),
            final(self).limit() == old(self).limit(),
            final(self).hits() == old(self).hits(),
            final(self).misses() == old(self).misses(),
    {
        self.translations.clear();
    }

    /// Forgets the translations of the addresses from `start` up to `end`.
    pub fn invalidate_range(&mut self, start: u64, end: u64)
        requires
            old(self).valid(),
        ensures
            final(self).valid(),
            final(self).limit() == old(self).limit(),
            final(self).hits() == old(self).hits(),
            final(self).misses() == old(self).misses(),
            forall|address: u64| #[trigger]
                final(self).entries().contains_key(address) <==> old(self).entries().contains_key(
                    address,
                ) && !(start <= address < end),
            forall|address: u64| #[trigger]
                final(self).entries().contains_key(address) ==> final(self).entries()[address]
                    == old(self).entries()[address],
    {
        let keys: Vec<u64> = sorted_keys(&self.translations);
        let ghost before = self.entries();
        let mut i: usize = 0;
        while i < keys.len()
            invariant
                i <= keys@.len(),
                self.valid(),
                before == old(self).entries(),
                lists_keys(keys@, before),
                self.limit() == old(self).limit(),
                self.hits() == old(self).hits(),
                self.misses() == old(self).misses(),
                forall|address: u64| #[trigger]
                    self.entries().contains_key(address) <==> before.contains_key(address) && !(
                    start <= address < end && exists|j: int| 0 <= j < i && keys@[j] == address),
                forall|address: u64| #[trigger]
                    self.entries().contains_key(address) ==> self.entries()[address]
                        == before[address],
            decreases keys@.len() - i,
        {
            let address: u64 = keys[i];
            if start <= address && address < end {
                let ghost sooner = self.entries();
                self.translations.remove(&address);
                assert(self.entries() == sooner.remove(address));
            }
            i += 1;
        }
        proof {
            assert forall|address: u64| #[trigger]
                self.entries().contains_key(address) <==> before.contains_key(address) && !(start
                <= address < end) by {
                assert(before.contains_key(address) <==> keys@.contains(address));
            }
        }
    }
}

/// One translation leaves a full cache; all that stay were looked up at least as
/// often as it and, where as often, stand at a higher address.
pub proof fn lemma_least_used_leaves(entries: Map<u64, AddressTranslation>)
    requires
        entries.dom().finite(),
        entries.dom().len() > 0,
        forall|address: u64| #[trigger]
            entries.contains_key(address) ==> entries[address].guest_address == address,
    ensures
        exists|gone: u64|
            {
                &&& #[trigger] entries.contains_key(gone)
                &&& without_least_used(entries) == entries.remove(gone)
                &&& forall|kept: u64|
                    kept != gone && #[trigger] entries.contains_key(kept) ==> {
                        ||| entries[gone].access_count < entries[kept].access_count
                        ||| entries[gone].access_count == entries[kept].access_count && gone < kept
                    }
            },
{
    lemma_has_least_used(entries);
    let gone = choose|address: u64| least_used(entries, address);
    assert(entries.contains_key(gone));
}

proof fn lemma_has_least_used(entries: Map<u64, AddressTranslation>)
    requires
        entries.dom().finite(),
        entries.dom().len() > 0,
    ensures
        exists|address: u64| least_used(entries, address),
    decreases entries.dom().len(),
{
    let some = entries.dom().choose();
    assert(entries.contains_key(some));
    let rest = entries.remove(some);
    assert(rest.dom() =~= entries.dom().remove(some));
    if rest.dom().len() == 0 {
        assert forall|other: u64| #[trigger] entries.contains_key(other) implies leaves_before(
            entries[some],
            entries[other],
        ) by {
            if other != some {
                assert(rest.dom().contains(other));
            }
        }
        assert(least_used(entries, some));
    } else {
        lemma_has_least_used(rest);
        let least = choose|address: u64| least_used(rest, address);
        let first = if leaves_before(entries[some], entries[least]) {
            some
        } else {
            least
        };
        assert forall|other: u64| #[trigger] entries.contains_key(other) implies leaves_before(
            entries[first],
            entries[other],
        ) by {
            if other != some {
                assert(rest.contains_key(other));
            }
        }
        assert(least_used(entries, first));
    }
}

} // verus!
