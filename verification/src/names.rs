//! Maps and sets keyed by text.
use crate::text::same_text;
use vstd::prelude::*;

verus! {

/// A map from text to values. No key occurs twice.
#[derive(Debug)]
pub struct NameMap<V> {
    entries: Vec<(String, V)>,
}

impl<V> View for NameMap<V> {
    type V = Map<Seq<char>, V>;

    closed spec fn view(&self) -> Map<Seq<char>, V> {
        Map::new(
            |key: Seq<char>| exists|i: int| self.holds_at(key, i),
            |key: Seq<char>| self.entries@[choose|i: int| self.holds_at(key, i)].1,
        )
    }
}

impl<V: Clone> Clone for NameMap<V> {
    fn clone(&self) -> (copy: Self)
        ensures
            copy@.dom() == self@.dom(),
            forall|key: Seq<char>| #[trigger]
                self@.contains_key(key) ==> cloned::<V>(self@[key], copy@[key]),
    {
        proof {
            use_type_invariant(self);
        }
        let ghost all = self.entries@;
        let mut entries: Vec<(String, V)> = Vec::new();
        let mut i: usize = 0;
        while i < self.entries.len()
            invariant
                i <= all.len(),
                all == self.entries@,
                entries@.len() == i,
                forall|k: int|
                    0 <= k < i ==> (#[trigger] entries@[k]).0@ == all[k].0@ && cloned::<V>(
                        all[k].1,
                        entries@[k].1,
                    ),
            decreases all.len() - i,
        {
            let value: V = self.entries[i].1.clone();
            entries.push((self.entries[i].0.clone(), value));
            i += 1;
        }
        proof {
            assert forall|j: int, k: int| 0 <= j < k < entries@.len() implies #[trigger] entries@[j].0@
                != #[trigger] entries@[k].0@ by {
                assert(all[j].0@ != all[k].0@);
            }
        }
        let copy = NameMap { entries };
        proof {
            assert forall|key: Seq<char>| copy@.contains_key(key) == self@.contains_key(key) by {
                if copy@.contains_key(key) {
                    let k = choose|k: int| copy.holds_at(key, k);
                    assert(self.holds_at(key, k));
                }
                if self@.contains_key(key) {
                    let k = choose|k: int| self.holds_at(key, k);
                    assert(copy.holds_at(key, k));
                }
            }
            assert forall|key: Seq<char>| #[trigger]
                self@.contains_key(key) implies cloned::<V>(self@[key], copy@[key]) by {
                let k = choose|k: int| self.holds_at(key, k);
                assert(copy.holds_at(key, k));
                self.lemma_holds(key, k);
                copy.lemma_holds(key, k);
            }
            assert(copy@.dom() =~= self@.dom());
        }
        copy
    }
}

impl<V> NameMap<V> {
    closed spec fn holds_at(&self, key: Seq<char>, i: int) -> bool {
        0 <= i < self.entries@.len() && self.entries@[i].0@ == key
    }

    #[verifier::type_invariant]
    closed spec fn distinct(&self) -> bool {
        forall|i: int, j: int|
            0 <= i < j < self.entries@.len() ==> #[trigger] self.entries@[i].0@
                != #[trigger] self.entries@[j].0@
    }

    proof fn lemma_holds(&self, key: Seq<char>, i: int)
        requires
            self.distinct(),
            self.holds_at(key, i),
        ensures
            self@.contains_key(key),
            self@[key] == self.entries@[i].1,
    {
        let j = choose|j: int| self.holds_at(key, j);
        assert(self.holds_at(key, j));
        assert(i == j);
    }

    pub fn new() -> (map: Self)
        ensures
            map@ == Map::<Seq<char>, V>::empty(),
    {
        let map = NameMap { entries: Vec::new() };
        assert(map@ =~= Map::<Seq<char>, V>::empty());
        map
    }

    /// The number of keys.
    pub fn len(&self) -> (count: usize)
        ensures
            self@.dom().finite(),
            count == self@.dom().len(),
    {
        proof {
            use_type_invariant(self);
            self.lemma_size();
        }
        self.entries.len()
    }

    proof fn lemma_size(&self)
        requires
            self.distinct(),
        ensures
            self@.dom().finite(),
            self@.dom().len() == self.entries@.len(),
    {
        let keys = Seq::new(self.entries@.len(), |i: int| self.entries@[i].0@);
        assert(keys.no_duplicates());
        keys.unique_seq_to_set();
        assert(self@.dom() =~= keys.to_set()) by {
            assert forall|key: Seq<char>| self@.contains_key(key) implies keys.to_set().contains(
                key,
            ) by {
                let i = choose|i: int| self.holds_at(key, i);
                assert(keys[i] == key);
            }
            assert forall|key: Seq<char>| keys.to_set().contains(
                key,
            ) implies #[trigger] self@.contains_key(key) by {
                let i = choose|i: int| 0 <= i < keys.len() && keys[i] == key;
                assert(self.holds_at(key, i));
            }
        }
    }

    /// There are only so many keys.
    pub proof fn lemma_finite(&self)
        ensures
            self@.dom().finite(),
    {
        let keys = Seq::new(self.entries@.len(), |i: int| self.entries@[i].0@);
        vstd::seq_lib::seq_to_set_is_finite(keys);
        assert(self@.dom() =~= keys.to_set()) by {
            assert forall|key: Seq<char>| self@.contains_key(key) implies keys.to_set().contains(
                key,
            ) by {
                let i = choose|i: int| self.holds_at(key, i);
                assert(keys[i] == key);
            }
            assert forall|key: Seq<char>| keys.to_set().contains(
                key,
            ) implies #[trigger] self@.contains_key(key) by {
                let i = choose|i: int| 0 <= i < keys.len() && keys[i] == key;
                assert(self.holds_at(key, i));
            }
        }
    }

    fn position(&self, key: &str) -> (found: Option<usize>)
        ensures
            match found {
                Some(i) => self.holds_at(key@, i as int) && i < self.entries@.len(),
                None => !self@.contains_key(key@),
            },
    {
        let mut i: usize = 0;
        while i < self.entries.len()
            invariant
                i <= self.entries.len(),
                forall|j: int| 0 <= j < i ==> !self.holds_at(key@, j),
            decreases self.entries.len() - i,
        {
            if same_text(&self.entries[i].0, key) {
                return Some(i);
            }
            i += 1;
        }
        None
    }

    /// The value under `key`.
    pub fn get(&self, key: &str) -> (value: Option<&V>)
        ensures
            match value {
                Some(v) => self@.contains_key(key@) && self@[key@] == *v,
                None => !self@.contains_key(key@),
            },
    {
        match self.position(key) {
            Some(i) => {
                proof {
                    use_type_invariant(self);
                    self.lemma_holds(key@, i as int);
                }
                Some(&self.entries[i].1)
            },
            None => None,
        }
    }

    pub fn contains_key(&self, key: &str) -> (found: bool)
        ensures
            found == self@.contains_key(key@),
    {
        self.get(key).is_some()
    }

    /// The keys, each once.
    pub fn names(&self) -> (keys: Vec<&String>)
        ensures
            forall|key: Seq<char>| #[trigger]
                self@.contains_key(key) <==> exists|i: int|
                    0 <= i < keys@.len() && (#[trigger] keys@[i])@ == key,
            keys@.len() == self@.dom().len(),
    {
        let mut keys: Vec<&String> = Vec::new();
        let mut i: usize = 0;
        while i < self.entries.len()
            invariant
                i <= self.entries@.len(),
                keys@.len() == i,
                forall|j: int| 0 <= j < i ==> *#[trigger] keys@[j] == self.entries@[j].0,
            decreases self.entries@.len() - i,
        {
            keys.push(&self.entries[i].0);
            i += 1;
        }
        proof {
            use_type_invariant(self);
            self.lemma_size();
            assert forall|key: Seq<char>| #[trigger] self@.contains_key(key) <==> exists|i: int|
                0 <= i < keys@.len() && (#[trigger] keys@[i])@ == key by {
                if self@.contains_key(key) {
                    let i = choose|i: int| self.holds_at(key, i);
                    assert(keys@[i]@ == key);
                }
                if exists|i: int| 0 <= i < keys@.len() && (#[trigger] keys@[i])@ == key {
                    let i = choose|i: int| 0 <= i < keys@.len() && (#[trigger] keys@[i])@ == key;
                    assert(self.holds_at(key, i));
                }
            }
        }
        keys
    }

    /// Puts `value` under `key`, in place of what was there.
    pub fn insert(&mut self, key: String, value: V)
        ensures
            final(self)@ == old(self)@.insert(key@, value),
    {
        proof {
            use_type_invariant(&*self);
        }
        let mut kept: Vec<(String, V)> = Vec::new();
        std::mem::swap(&mut self.entries, &mut kept);
        let ghost before = NameMap { entries: kept };
        assert(before == *old(self));
        match position_of(&kept, &key) {
            Some(i) => {
                let ghost spelled = kept@[i as int].0@;
                kept.set(i, (key, value));
                let ghost after = NameMap { entries: kept };
                assert(after.distinct()) by {
                    assert forall|a: int, b: int|
                        0 <= a < b < kept@.len() implies #[trigger] kept@[a].0@
                        != #[trigger] kept@[b].0@ by {
                        assert(before.entries@[a].0@ != before.entries@[b].0@);
                    }
                }
                proof {
                    assert(after.holds_at(key@, i as int));
                    after.lemma_holds(key@, i as int);
                    assert forall|k: Seq<char>| #[trigger]
                        before@.contains_key(k) implies after@.contains_key(k) && (k != key@
                        ==> after@[k] == before@[k]) by {
                        let j = choose|j: int| before.holds_at(k, j);
                        before.lemma_holds(k, j);
                        assert(after.holds_at(k, j));
                        after.lemma_holds(k, j);
                    }
                    assert forall|k: Seq<char>| #[trigger] after@.contains_key(k) && k
                        != key@ implies before@.contains_key(k) by {
                        let j = choose|j: int| after.holds_at(k, j);
                        assert(before.holds_at(k, j));
                    }
                    assert(after@ =~= before@.insert(key@, value));
                }
            },
            None => {
                kept.push((key, value));
                let ghost after = NameMap { entries: kept };
                let ghost last = kept@.len() - 1;
                assert(after.distinct()) by {
                    assert forall|a: int, b: int|
                        0 <= a < b < kept@.len() implies #[trigger] kept@[a].0@
                        != #[trigger] kept@[b].0@ by {
                        assert(before.entries@[a] == kept@[a]);
                        if b < last {
                            assert(before.entries@[a].0@ != before.entries@[b].0@);
                        }
                    }
                }
                proof {
                    assert(after.holds_at(key@, last));
                    after.lemma_holds(key@, last);
                    assert forall|k: Seq<char>| #[trigger]
                        before@.contains_key(k) implies after@.contains_key(k) && after@[k]
                        == before@[k] by {
                        let j = choose|j: int| before.holds_at(k, j);
                        before.lemma_holds(k, j);
                        assert(after.holds_at(k, j));
                        after.lemma_holds(k, j);
                    }
                    assert forall|k: Seq<char>| #[trigger] after@.contains_key(k) && k
                        != key@ implies before@.contains_key(k) by {
                        let j = choose|j: int| after.holds_at(k, j);
                        assert(before.holds_at(k, j));
                    }
                    assert(!before@.contains_key(key@)) by {
                        if before@.contains_key(key@) {
                            let j = choose|j: int| before.holds_at(key@, j);
                            assert(before.entries@[j].0@ == key@);
                        }
                    }
                    assert(after@ =~= before@.insert(key@, value));
                }
            },
        }
        self.entries = kept;
    }

    /// Takes the value under `key` out of the map.
    pub fn remove(&mut self, key: &str) -> (value: Option<V>)
        ensures
            final(self)@ == old(self)@.remove(key@),
            value == (if old(self)@.contains_key(key@) {
                Some(old(self)@[key@])
            } else {
                None
            }),
    {
        proof {
            use_type_invariant(&*self);
        }
        let mut kept: Vec<(String, V)> = Vec::new();
        std::mem::swap(&mut self.entries, &mut kept);
        let ghost before = NameMap { entries: kept };
        assert(before == *old(self));
        match position_of(&kept, key) {
            Some(i) => {
                let (_, value) = kept.remove(i);
                let ghost after = NameMap { entries: kept };
                assert(after.distinct()) by {
                    assert forall|a: int, b: int|
                        0 <= a < b < kept@.len() implies #[trigger] kept@[a].0@
                        != #[trigger] kept@[b].0@ by {
                        let a0 = if a < i {
                            a
                        } else {
                            a + 1
                        };
                        let b0 = if b < i {
                            b
                        } else {
                            b + 1
                        };
                        assert(before.entries@[a0].0@ != before.entries@[b0].0@);
                    }
                }
                proof {
                    before.lemma_holds(key@, i as int);
                    assert forall|k: Seq<char>| #[trigger] before@.contains_key(k) && k
                        != key@ implies after@.contains_key(k) && after@[k] == before@[k] by {
                        let j = choose|j: int| before.holds_at(k, j);
                        before.lemma_holds(k, j);
                        let j1 = if j < i {
                            j
                        } else {
                            j - 1
                        };
                        assert(after.holds_at(k, j1));
                        after.lemma_holds(k, j1);
                    }
                    assert forall|k: Seq<char>| #[trigger] after@.contains_key(k) implies k != key@
                        && before@.contains_key(k) by {
                        let j = choose|j: int| after.holds_at(k, j);
                        let j0 = if j < i {
                            j
                        } else {
                            j + 1
                        };
                        assert(before.holds_at(k, j0));
                        assert(before.entries@[j0].0@ == k);
                        assert(before.entries@[i as int].0@ == key@);
                    }
                    assert(after@ =~= before@.remove(key@));
                }
                self.entries = kept;
                Some(value)
            },
            None => {
                proof {
                    assert(!before@.contains_key(key@)) by {
                        if before@.contains_key(key@) {
                            let j = choose|j: int| before.holds_at(key@, j);
                            assert(before.entries@[j].0@ == key@);
                        }
                    }
                    assert(before@ =~= before@.remove(key@));
                }
                self.entries = kept;
                None
            },
        }
    }

    /// Empties the map.
    pub fn clear(&mut self)
        ensures
            final(self)@ == Map::<Seq<char>, V>::empty(),
    {
        self.entries = Vec::new();
        assert(self@ =~= Map::<Seq<char>, V>::empty());
    }
}

fn position_of<V>(entries: &Vec<(String, V)>, key: &str) -> (found: Option<usize>)
    ensures
        match found {
            Some(i) => i < entries.len() && entries@[i as int].0@ == key@,
            None => forall|j: int| 0 <= j < entries@.len() ==> #[trigger] entries@[j].0@ != key@,
        },
{
    let mut i: usize = 0;
    while i < entries.len()
        invariant
            i <= entries.len(),
            forall|j: int| 0 <= j < i ==> #[trigger] entries@[j].0@ != key@,
        decreases entries.len() - i,
    {
        if same_text(&entries[i].0, key) {
            return Some(i);
        }
        i += 1;
    }
    None
}

} // verus!
