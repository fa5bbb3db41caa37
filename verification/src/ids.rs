//! Maps keyed by numbers, walked in ascending order of their keys.
use std::collections::BTreeMap;
use vstd::prelude::*;
use vstd::std_specs::cmp::OrdSpec;
use vstd::std_specs::iter::IteratorSpec;

verus! {

broadcast use vstd::std_specs::btree::group_btree_axioms;

pub open spec fn rising(keys: Seq<u64>) -> bool {
    forall|i: int, j: int| 0 <= i < j < keys.len() ==> keys[i] < keys[j]
}

/// `keys` are the keys of `map` in ascending order.
pub open spec fn lists_keys<V>(keys: Seq<u64>, map: Map<u64, V>) -> bool {
    &&& rising(keys)
    &&& forall|key: u64|
        #![trigger map.contains_key(key)]
        #![trigger keys.contains(key)]
        map.contains_key(key) <==> keys.contains(key)
}

/// The keys of a map with finitely many keys, in ascending order.
pub open spec fn keys_of<V>(map: Map<u64, V>) -> Seq<u64> {
    choose|keys: Seq<u64>| lists_keys(keys, map)
}

/// A map has one ascending list of its keys only.
pub proof fn lemma_one_listing<V>(a: Seq<u64>, b: Seq<u64>, map: Map<u64, V>)
    requires
        lists_keys(a, map),
        lists_keys(b, map),
    ensures
        a == b,
    decreases a.len(),
{
    if a.len() == 0 {
        if b.len() > 0 {
            assert(b.contains(b[0]));
            assert(map.contains_key(b[0]));
            assert(a.contains(b[0]));
        }
        assert(a =~= b);
    } else {
        assert(a.contains(a.last()));
        assert(map.contains_key(a.last()));
        assert(b.contains(a.last()));
        assert(b.contains(b.last()));
        assert(map.contains_key(b.last()));
        assert(a.contains(b.last()));
        let i = choose|i: int| 0 <= i < b.len() && b[i] == a.last();
        let j = choose|j: int| 0 <= j < a.len() && a[j] == b.last();
        assert(a.last() <= b.last());
        assert(b.last() <= a.last());
        let last = a.last();
        let rest = map.remove(last);
        lemma_last_listed(a, map);
        lemma_last_listed(b, map);
        lemma_one_listing(a.drop_last(), b.drop_last(), rest);
        assert(a =~= a.drop_last().push(last));
        assert(b =~= b.drop_last().push(last));
    }
}

proof fn lemma_last_listed<V>(keys: Seq<u64>, map: Map<u64, V>)
    requires
        lists_keys(keys, map),
        keys.len() > 0,
    ensures
        lists_keys(keys.drop_last(), map.remove(keys.last())),
{
    let last = keys.last();
    let rest = map.remove(last);
    let front = keys.drop_last();
    assert forall|key: u64| rest.contains_key(key) <==> front.contains(key) by {
        if rest.contains_key(key) {
            assert(map.contains_key(key));
            assert(keys.contains(key));
            let i = choose|i: int| 0 <= i < keys.len() && keys[i] == key;
            assert(front[i] == key);
        }
        if front.contains(key) {
            let i = choose|i: int| 0 <= i < front.len() && front[i] == key;
            assert(keys[i] == key);
            assert(keys.contains(key));
            assert(keys[i] < keys[keys.len() - 1]);
        }
    }
}

/// Where a new key stands in an ascending list.
proof fn lemma_key_added<V>(keys: Seq<u64>, map: Map<u64, V>, key: u64) -> (longer: Seq<u64>)
    requires
        map.contains_key(key),
        lists_keys(keys, map.remove(key)),
    ensures
        lists_keys(longer, map),
    decreases keys.len(),
{
    let rest = map.remove(key);
    if keys.len() == 0 || keys.last() < key {
        let longer = keys.push(key);
        assert forall|other: u64| map.contains_key(other) <==> longer.contains(other) by {
            if map.contains_key(other) && other != key {
                assert(rest.contains_key(other));
                let i = choose|i: int| 0 <= i < keys.len() && keys[i] == other;
                assert(longer[i] == other);
            }
            assert(longer[keys.len() as int] == key);
            if longer.contains(other) && other != key {
                let i = choose|i: int| 0 <= i < longer.len() && longer[i] == other;
                assert(keys[i] == other);
                assert(keys.contains(other));
                assert(rest.contains_key(other));
            }
        }
        longer
    } else {
        let last = keys.last();
        assert(keys.contains(last));
        assert(rest.contains_key(last));
        lemma_last_listed(keys, rest);
        assert(map.remove(last).remove(key) =~= rest.remove(last));
        let front = lemma_key_added(keys.drop_last(), map.remove(last), key);
        let longer = front.push(last);
        assert forall|i: int| 0 <= i < front.len() implies front[i] < last by {
            assert(front.contains(front[i]));
            assert(map.remove(last).contains_key(front[i]));
            if front[i] != key {
                assert(rest.contains_key(front[i]));
                assert(keys.contains(front[i]));
                let j = choose|j: int| 0 <= j < keys.len() && keys[j] == front[i];
            }
        }
        assert forall|other: u64| map.contains_key(other) <==> longer.contains(other) by {
            if map.contains_key(other) && other != last {
                assert(map.remove(last).contains_key(other));
                let i = choose|i: int| 0 <= i < front.len() && front[i] == other;
                assert(longer[i] == other);
            }
            assert(longer[front.len() as int] == last);
            if longer.contains(other) && other != last {
                let i = choose|i: int| 0 <= i < longer.len() && longer[i] == other;
                assert(front[i] == other);
                assert(front.contains(other));
                assert(map.remove(last).contains_key(other));
            }
        }
        longer
    }
}

/// A map with finitely many keys has a list of them.
pub proof fn lemma_has_listing<V>(map: Map<u64, V>)
    requires
        map.dom().finite(),
    ensures
        lists_keys(keys_of(map), map),
    decreases map.dom().len(),
{
    if map.dom().len() == 0 {
        assert forall|key: u64| !#[trigger] map.contains_key(key) by {
            if map.dom().contains(key) {
                assert(map.dom().remove(key).len() < map.dom().len());
            }
        }
        assert(lists_keys(Seq::<u64>::empty(), map));
    } else {
        let key = map.dom().choose();
        assert(map.remove(key).dom() =~= map.dom().remove(key));
        lemma_has_listing(map.remove(key));
        let keys = lemma_key_added(keys_of(map.remove(key)), map, key);
        assert(lists_keys(keys, map));
    }
}

/// A list of keys has as many of them as the map.
pub proof fn lemma_listing_length<V>(keys: Seq<u64>, map: Map<u64, V>)
    requires
        lists_keys(keys, map),
    ensures
        map.dom().finite(),
        map.dom().len() == keys.len(),
{
    assert(keys.no_duplicates());
    keys.unique_seq_to_set();
    vstd::seq_lib::seq_to_set_is_finite(keys);
    assert(map.dom() =~= keys.to_set()) by {
        assert forall|key: u64| map.dom().contains(key) <==> keys.to_set().contains(key) by {
            assert(map.contains_key(key) <==> keys.contains(key));
        }
    }
}

/// Maps with the same keys list them alike.
pub proof fn lemma_same_listing<V>(a: Map<u64, V>, b: Map<u64, V>)
    requires
        a.dom().finite(),
        a.dom() == b.dom(),
    ensures
        keys_of(a) == keys_of(b),
{
    lemma_has_listing(a);
    let keys = keys_of(a);
    assert forall|key: u64| b.contains_key(key) <==> keys.contains(key) by {
        assert(a.contains_key(key) <==> b.contains_key(key));
    }
    assert(lists_keys(keys, b));
    lemma_listing(keys, b);
}

/// How many keys are wanted when only `changed` is judged anew.
pub proof fn lemma_one_judged_anew(
    keys: Seq<u64>,
    changed: u64,
    before: spec_fn(u64) -> bool,
    after: spec_fn(u64) -> bool,
)
    requires
        rising(keys),
        forall|key: u64| key != changed ==> before(key) == #[trigger] after(key),
    ensures
        keys.filter(after).len() + (if keys.contains(changed) && before(changed) {
            1int
        } else {
            0
        }) == keys.filter(before).len() + (if keys.contains(changed) && after(changed) {
            1int
        } else {
            0
        }),
    decreases keys.len(),
{
    reveal(Seq::filter);
    if keys.len() > 0 {
        let front = keys.drop_last();
        let last = keys.last();
        lemma_one_judged_anew(front, changed, before, after);
        assert(keys[keys.len() - 1] == last);
        if last == changed {
            assert(!front.contains(changed)) by {
                if front.contains(changed) {
                    let i = choose|i: int| 0 <= i < front.len() && front[i] == changed;
                    assert(keys[i] < keys[keys.len() - 1]);
                }
            }
            assert(keys.contains(changed));
        } else {
            assert(before(last) == after(last));
            assert(keys.contains(changed) == front.contains(changed)) by {
                if keys.contains(changed) {
                    let i = choose|i: int| 0 <= i < keys.len() && keys[i] == changed;
                    assert(front[i] == changed);
                }
                if front.contains(changed) {
                    let i = choose|i: int| 0 <= i < front.len() && front[i] == changed;
                    assert(keys[i] == changed);
                }
            }
        }
    }
}

/// An ascending list of the keys of `map` is the list of them.
pub proof fn lemma_listing<V>(keys: Seq<u64>, map: Map<u64, V>)
    requires
        lists_keys(keys, map),
    ensures
        keys_of(map) == keys,
{
    lemma_one_listing(keys, keys_of(map), map);
}

/// What one more item adds to a filtered list.
pub proof fn lemma_filter_step<A>(items: Seq<A>, i: int, wanted: spec_fn(A) -> bool)
    requires
        0 <= i < items.len(),
    ensures
        items.take(i + 1).filter(wanted) == (if wanted(items[i]) {
            items.take(i).filter(wanted).push(items[i])
        } else {
            items.take(i).filter(wanted)
        }),
{
    reveal(Seq::filter);
    assert(items.take(i + 1).drop_last() =~= items.take(i));
}

/// The keys of `map`, in ascending order.
pub fn sorted_keys<V>(map: &BTreeMap<u64, V>) -> (keys: Vec<u64>)
    ensures
        lists_keys(keys@, map@),
        keys@ == keys_of(map@),
        map@.dom().finite(),
        keys@.len() == map@.dom().len(),
{
    let mut keys: Vec<u64> = Vec::new();
    let walked = map.iter();
    let ghost pairs = walked.remaining();
    let ghost all = pairs.map_values(|pair: (&u64, &V)| *pair.0);
    assert(rising(all)) by {
        assert forall|i: int, j: int| 0 <= i < j < all.len() implies all[i] < all[j] by {
            assert(all[i].cmp_spec(&all[j]) is Less);
        }
    }
    for pair in walk: walked
        invariant
            walk.seq() == pairs,
            all == pairs.map_values(|pair: (&u64, &V)| *pair.0),
            keys@ == all.take(walk.index()),
    {
        keys.push(*pair.0);
        assert(keys@ =~= all.take(walk.index() + 1));
    }
    proof {
        assert(keys@ =~= all);
        assert forall|key: u64| map@.contains_key(key) <==> keys@.contains(key) by {
            if map@.contains_key(key) {
                assert(pairs.contains((&key, &map@[key])));
                let i = choose|i: int| 0 <= i < pairs.len() && pairs[i] == (&key, &map@[key]);
                assert(all[i] == key);
            }
            if keys@.contains(key) {
                let i = choose|i: int| 0 <= i < all.len() && all[i] == key;
                assert(map@.contains_key(*pairs[i].0));
            }
        }
        lemma_listing(keys@, map@);
        lemma_listing_length(keys@, map@);
    }
    keys
}

} // verus!
