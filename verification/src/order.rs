//! The order of texts, and lists kept in it.
use vstd::prelude::*;

verus! {

/// `a` comes before `b`: by the first character in which they differ, a text
/// before every longer one that it begins.
pub open spec fn precedes(a: Seq<char>, b: Seq<char>) -> bool
    decreases a.len(),
{
    if b.len() == 0 {
        false
    } else if a.len() == 0 {
        true
    } else if a[0] != b[0] {
        a[0] < b[0]
    } else {
        precedes(a.drop_first(), b.drop_first())
    }
}

/// No text comes before itself, and of two different texts one comes first.
pub proof fn lemma_precedes_total(a: Seq<char>, b: Seq<char>)
    ensures
        !precedes(a, a),
        a == b || precedes(a, b) || precedes(b, a),
        !(precedes(a, b) && precedes(b, a)),
    decreases a.len(),
{
    if a.len() == 0 {
        if b.len() == 0 {
            assert(a =~= b);
        }
    } else if b.len() == 0 {
        lemma_precedes_total(a.drop_first(), a.drop_first());
    } else {
        lemma_precedes_total(a.drop_first(), b.drop_first());
        if a[0] == b[0] && a.drop_first() == b.drop_first() {
            assert(a =~= seq![a[0]] + a.drop_first());
            assert(b =~= seq![b[0]] + b.drop_first());
        }
    }
}

/// What comes before a text comes before all that it comes before.
pub proof fn lemma_precedes_chain(a: Seq<char>, b: Seq<char>, c: Seq<char>)
    requires
        precedes(a, b),
        precedes(b, c),
    ensures
        precedes(a, c),
    decreases a.len(),
{
    if a.len() > 0 && a[0] == b[0] && b[0] == c[0] {
        lemma_precedes_chain(a.drop_first(), b.drop_first(), c.drop_first());
    }
}

/// Each text comes before the ones behind it.
pub open spec fn ascending(texts: Seq<Seq<char>>) -> bool {
    forall|i: int, j: int|
        0 <= i < j < texts.len() ==> precedes(#[trigger] texts[i], #[trigger] texts[j])
}

/// `text` put in its place among `texts`; nothing changes where it is there.
pub open spec fn placed(texts: Seq<Seq<char>>, text: Seq<char>) -> Seq<Seq<char>>
    decreases texts.len(),
{
    if texts.len() == 0 || precedes(texts.last(), text) {
        texts.push(text)
    } else if texts.last() == text {
        texts
    } else {
        placed(texts.drop_last(), text).push(texts.last())
    }
}

/// The texts in order, each once.
pub open spec fn sorted_once(texts: Seq<Seq<char>>) -> Seq<Seq<char>>
    decreases texts.len(),
{
    if texts.len() == 0 {
        Seq::empty()
    } else {
        placed(sorted_once(texts.drop_last()), texts.last())
    }
}

proof fn lemma_placed(texts: Seq<Seq<char>>, text: Seq<char>)
    requires
        ascending(texts),
    ensures
        ascending(placed(texts, text)),
        forall|t: Seq<char>| #[trigger]
            placed(texts, text).contains(t) <==> texts.contains(t) || t == text,
    decreases texts.len(),
{
    let out = placed(texts, text);
    if texts.len() == 0 {
        assert(out =~= seq![text]);
        assert forall|t: Seq<char>| #[trigger] out.contains(t) <==> texts.contains(t) || t
            == text by {
            if t == text {
                assert(out[0] == t);
            }
        }
    } else {
        let last = texts.last();
        lemma_precedes_total(last, text);
        if precedes(last, text) {
            assert forall|i: int, j: int| 0 <= i < j < out.len() implies precedes(
                #[trigger] out[i],
                #[trigger] out[j],
            ) by {
                if j == texts.len() && i < texts.len() - 1 {
                    assert(precedes(texts[i], texts[texts.len() - 1]));
                    lemma_precedes_chain(texts[i], last, text);
                }
            }
            assert forall|t: Seq<char>| #[trigger] out.contains(t) <==> texts.contains(t) || t
                == text by {
                if t == text {
                    assert(out[texts.len() as int] == t);
                }
                if texts.contains(t) {
                    let i = choose|i: int| 0 <= i < texts.len() && texts[i] == t;
                    assert(out[i] == t);
                }
                if out.contains(t) {
                    let i = choose|i: int| 0 <= i < out.len() && out[i] == t;
                    if i < texts.len() {
                        assert(texts[i] == t);
                    }
                }
            }
        } else if last == text {
            assert forall|t: Seq<char>| #[trigger] out.contains(t) <==> texts.contains(t) || t
                == text by {
                if t == text {
                    assert(texts[texts.len() - 1] == t);
                }
            }
        } else {
            let front = texts.drop_last();
            assert(ascending(front)) by {
                assert forall|i: int, j: int| 0 <= i < j < front.len() implies precedes(
                    #[trigger] front[i],
                    #[trigger] front[j],
                ) by {
                    assert(precedes(texts[i], texts[j]));
                }
            }
            lemma_placed(front, text);
            let inner = placed(front, text);
            assert forall|t: Seq<char>| #[trigger] out.contains(t) <==> texts.contains(t) || t
                == text by {
                if out.contains(t) {
                    let i = choose|i: int| 0 <= i < out.len() && out[i] == t;
                    if i < inner.len() {
                        assert(inner.contains(t)) by {
                            assert(inner[i] == t);
                        }
                        if front.contains(t) {
                            let k = choose|k: int| 0 <= k < front.len() && front[k] == t;
                            assert(texts[k] == t);
                        }
                    } else {
                        assert(texts[texts.len() - 1] == t);
                    }
                }
                if texts.contains(t) || t == text {
                    if t == last {
                        assert(out[inner.len() as int] == t);
                    } else {
                        if texts.contains(t) {
                            let k = choose|k: int| 0 <= k < texts.len() && texts[k] == t;
                            assert(front[k] == t);
                        }
                        assert(inner.contains(t));
                        let k = choose|k: int| 0 <= k < inner.len() && inner[k] == t;
                        assert(out[k] == t);
                    }
                }
            }
            assert forall|i: int, j: int| 0 <= i < j < out.len() implies precedes(
                #[trigger] out[i],
                #[trigger] out[j],
            ) by {
                if j < inner.len() {
                    assert(precedes(inner[i], inner[j]));
                } else {
                    assert(inner.contains(inner[i]));
                    if inner[i] != text {
                        let k = choose|k: int| 0 <= k < front.len() && front[k] == inner[i];
                        assert(precedes(texts[k], texts[texts.len() - 1]));
                    }
                }
            }
        }
    }
}

/// Sorting keeps each text once, and in order.
pub proof fn lemma_sorted_once(texts: Seq<Seq<char>>)
    ensures
        ascending(sorted_once(texts)),
        forall|t: Seq<char>| #[trigger] sorted_once(texts).contains(t) <==> texts.contains(t),
    decreases texts.len(),
{
    if texts.len() > 0 {
        let front = texts.drop_last();
        lemma_sorted_once(front);
        lemma_placed(sorted_once(front), texts.last());
        assert forall|t: Seq<char>| #[trigger] sorted_once(texts).contains(t) <==> texts.contains(
            t,
        ) by {
            assert(sorted_once(texts).contains(t) <==> sorted_once(front).contains(t) || t
                == texts.last());
            if texts.contains(t) {
                let i = choose|i: int| 0 <= i < texts.len() && texts[i] == t;
                if i < front.len() {
                    assert(front[i] == t);
                }
            }
            if front.contains(t) {
                let i = choose|i: int| 0 <= i < front.len() && front[i] == t;
                assert(texts[i] == t);
            }
            if t == texts.last() {
                assert(texts[texts.len() - 1] == t);
            }
        }
    }
}

/// Whether `a` comes before `b`.
pub fn comes_before(a: &[char], b: &[char]) -> (before: bool)
    ensures
        before == precedes(a@, b@),
{
    let mut i: usize = 0;
    assert(a@.skip(0) =~= a@);
    assert(b@.skip(0) =~= b@);
    loop
        invariant
            i <= a.len(),
            i <= b.len(),
            precedes(a@, b@) == precedes(a@.skip(i as int), b@.skip(i as int)),
        decreases a.len() - i,
    {
        if i >= b.len() {
            return false;
        }
        if i >= a.len() {
            return true;
        }
        if a[i] != b[i] {
            return a[i] < b[i];
        }
        assert(a@.skip(i as int).drop_first() =~= a@.skip(i + 1));
        assert(b@.skip(i as int).drop_first() =~= b@.skip(i + 1));
        i += 1;
    }
}

/// Whether the text `a` comes before the text `b`.
pub fn text_before(a: &str, b: &str) -> (before: bool)
    ensures
        before == precedes(a@, b@),
{
    let left: Vec<char> = crate::text::chars_of(a);
    let right: Vec<char> = crate::text::chars_of(b);
    comes_before(&left, &right)
}

/// Puts `text` in its place among `texts`; drops it where it is there.
pub fn place(texts: &mut Vec<String>, text: String)
    ensures
        final(texts).deep_view() == placed(old(texts).deep_view(), text@),
{
    let ghost start = texts.deep_view();
    let ghost whole = placed(start, text@);
    let mut at: usize = texts.len();
    assert(start.take(at as int) =~= start);
    assert(start.skip(at as int) =~= Seq::<Seq<char>>::empty());
    assert(placed(start, text@) + Seq::<Seq<char>>::empty() =~= placed(start, text@));
    while at > 0 && !text_before(&texts[at - 1], &text)
        invariant
            at <= texts.len(),
            texts.deep_view() == start,
            whole == placed(start, text@),
            whole == placed(start.take(at as int), text@) + start.skip(at as int),
        decreases at,
    {
        let ghost part = start.take(at as int);
        assert(part.last() == texts@[at - 1]@);
        if crate::text::same_text(&texts[at - 1], &text) {
            assert(part + start.skip(at as int) =~= start);
            return;
        }
        proof {
            assert(part.drop_last() =~= start.take(at - 1));
            assert(placed(part.drop_last(), text@).push(part.last()) + start.skip(at as int)
                =~= placed(part.drop_last(), text@) + start.skip(at - 1));
        }
        at -= 1;
    }
    proof {
        let part = start.take(at as int);
        if at > 0 {
            assert(part.last() == texts@[at - 1]@);
        }
        assert(placed(part, text@) == part.push(text@));
    }
    texts.insert(at, text);
    assert(texts.deep_view() =~= start.take(at as int).push(text@) + start.skip(at as int));
}

// ---------------------------------------------------------------------------
// Lists ordered by a key
// ---------------------------------------------------------------------------

/// A value whose model has a text to sort by.
pub trait Keyed: DeepView {
    /// The text to sort by.
    spec fn key_of(model: Self::V) -> Seq<char>;

    /// The text to sort by.
    fn key(&self) -> (key: &str)
        ensures
            key@ == Self::key_of(self.deep_view()),
    ;
}

/// `item` put behind all items whose key does not come after its own.
pub open spec fn placed_by<A>(items: Seq<A>, item: A, key: spec_fn(A) -> Seq<char>) -> Seq<A>
    decreases items.len(),
{
    if items.len() == 0 || !precedes(key(item), key(items.last())) {
        items.push(item)
    } else {
        placed_by(items.drop_last(), item, key).push(items.last())
    }
}

/// The items by key, those with the same key as they stood.
pub open spec fn sorted_by<A>(items: Seq<A>, key: spec_fn(A) -> Seq<char>) -> Seq<A>
    decreases items.len(),
{
    if items.len() == 0 {
        Seq::empty()
    } else {
        placed_by(sorted_by(items.drop_last(), key), items.last(), key)
    }
}

/// No item's key comes after that of an item behind it.
pub open spec fn ordered_by<A>(items: Seq<A>, key: spec_fn(A) -> Seq<char>) -> bool {
    forall|i: int, j: int|
        0 <= i < j < items.len() ==> !precedes(key(#[trigger] items[j]), key(#[trigger] items[i]))
}

proof fn lemma_not_before_chain(a: Seq<char>, b: Seq<char>, c: Seq<char>)
    requires
        !precedes(b, a),
        !precedes(c, b),
    ensures
        !precedes(c, a),
{
    lemma_precedes_total(a, b);
    lemma_precedes_total(b, c);
    lemma_precedes_total(a, c);
    if precedes(a, b) && precedes(b, c) {
        lemma_precedes_chain(a, b, c);
    }
}

proof fn lemma_placed_by<A>(items: Seq<A>, item: A, key: spec_fn(A) -> Seq<char>)
    requires
        ordered_by(items, key),
    ensures
        ordered_by(placed_by(items, item, key), key),
        placed_by(items, item, key).to_multiset() == items.to_multiset().insert(item),
    decreases items.len(),
{
    broadcast use vstd::seq_lib::group_to_multiset_ensures;

    let out = placed_by(items, item, key);
    if items.len() == 0 || !precedes(key(item), key(items.last())) {
        assert forall|i: int, j: int| 0 <= i < j < out.len() implies !precedes(
            key(#[trigger] out[j]),
            key(#[trigger] out[i]),
        ) by {
            if j == items.len() && i < items.len() - 1 {
                assert(!precedes(key(items[items.len() - 1]), key(items[i])));
                lemma_not_before_chain(key(items[i]), key(items.last()), key(item));
            }
        }
    } else {
        let front = items.drop_last();
        let last = items.last();
        assert(ordered_by(front, key)) by {
            assert forall|i: int, j: int| 0 <= i < j < front.len() implies !precedes(
                key(#[trigger] front[j]),
                key(#[trigger] front[i]),
            ) by {
                assert(!precedes(key(items[j]), key(items[i])));
            }
        }
        lemma_placed_by(front, item, key);
        let inner = placed_by(front, item, key);
        assert(items =~= front.push(last));
        assert(out.to_multiset() =~= items.to_multiset().insert(item));
        assert forall|i: int, j: int| 0 <= i < j < out.len() implies !precedes(
            key(#[trigger] out[j]),
            key(#[trigger] out[i]),
        ) by {
            if j < inner.len() {
                assert(!precedes(key(inner[j]), key(inner[i])));
            } else {
                assert(inner.to_multiset().count(inner[i]) > 0) by {
                    assert(inner.contains(inner[i]));
                }
                if inner[i] != item {
                    assert(front.to_multiset().count(inner[i]) > 0);
                    assert(front.contains(inner[i]));
                    let k = choose|k: int| 0 <= k < front.len() && front[k] == inner[i];
                    assert(!precedes(key(items[items.len() - 1]), key(items[k])));
                } else {
                    lemma_precedes_total(key(item), key(last));
                }
            }
        }
    }
}

/// Sorting by key keeps every item and puts the keys in order.
pub proof fn lemma_sorted_by<A>(items: Seq<A>, key: spec_fn(A) -> Seq<char>)
    ensures
        ordered_by(sorted_by(items, key), key),
        sorted_by(items, key).to_multiset() == items.to_multiset(),
    decreases items.len(),
{
    broadcast use vstd::seq_lib::group_to_multiset_ensures;

    if items.len() == 0 {
        assert(items =~= Seq::<A>::empty());
    } else {
        lemma_sorted_by(items.drop_last(), key);
        lemma_placed_by(sorted_by(items.drop_last(), key), items.last(), key);
        assert(items =~= items.drop_last().push(items.last()));
        assert(sorted_by(items, key).to_multiset() =~= items.to_multiset());
    }
}

/// Puts `item` behind all items whose key does not come after its own.
pub fn place_by<T: Keyed>(items: &mut Vec<T>, item: T)
    ensures
        final(items).deep_view() == placed_by(
            old(items).deep_view(),
            item.deep_view(),
            |model: T::V| T::key_of(model),
        ),
{
    let ghost key = |model: T::V| T::key_of(model);
    let ghost start = items.deep_view();
    let ghost model = item.deep_view();
    let ghost whole = placed_by(start, model, key);
    let mut at: usize = items.len();
    assert(start.take(at as int) =~= start);
    assert(whole + start.skip(at as int) =~= whole);
    while at > 0 && text_before(item.key(), items[at - 1].key())
        invariant
            at <= items.len(),
            items.deep_view() == start,
            model == item.deep_view(),
            key == (|model: T::V| T::key_of(model)),
            whole == placed_by(start.take(at as int), model, key) + start.skip(at as int),
        decreases at,
    {
        proof {
            let part = start.take(at as int);
            assert(part.last() == items@[at - 1].deep_view());
            assert(part.drop_last() =~= start.take(at - 1));
            assert(placed_by(part.drop_last(), model, key).push(part.last()) + start.skip(at as int)
                =~= placed_by(part.drop_last(), model, key) + start.skip(at - 1));
        }
        at -= 1;
    }
    proof {
        let part = start.take(at as int);
        if at > 0 {
            assert(part.last() == items@[at - 1].deep_view());
        }
        assert(placed_by(part, model, key) == part.push(model));
    }
    items.insert(at, item);
    assert(items.deep_view() =~= start.take(at as int).push(model) + start.skip(at as int));
}

/// The items without those that equal the one before them.
pub open spec fn without_repeats<A>(items: Seq<A>) -> Seq<A>
    decreases items.len(),
{
    if items.len() <= 1 {
        items
    } else if items.last() == items[items.len() - 2] {
        without_repeats(items.drop_last())
    } else {
        without_repeats(items.drop_last()).push(items.last())
    }
}

/// Of two texts with a common beginning the one with the smaller character
/// behind it comes first; a text comes before all that it begins.
pub proof fn lemma_precedes_by_difference(
    common: Seq<char>,
    smaller: char,
    larger: char,
    first: Seq<char>,
    second: Seq<char>,
)
    requires
        smaller < larger,
    ensures
        precedes(common + (seq![smaller] + first), common + (seq![larger] + second)),
        precedes(common, common + (seq![smaller] + first)),
    decreases common.len(),
{
    let a = common + (seq![smaller] + first);
    let b = common + (seq![larger] + second);
    if common.len() > 0 {
        let rest = common.drop_first();
        lemma_precedes_by_difference(rest, smaller, larger, first, second);
        assert(a.drop_first() =~= rest + (seq![smaller] + first));
        assert(b.drop_first() =~= rest + (seq![larger] + second));
    } else {
        assert(a[0] == smaller && b[0] == larger);
    }
}

/// What is filtered holds what the list holds and is wanted, each as often
/// after the other as before.
pub proof fn lemma_filtered<A>(list: Seq<A>, wanted: spec_fn(A) -> bool)
    ensures
        forall|item: A| #[trigger]
            list.filter(wanted).contains(item) <==> list.contains(item) && wanted(item),
        list.no_duplicates() ==> list.filter(wanted).no_duplicates(),
    decreases list.len(),
{
    reveal(Seq::filter);
    if list.len() > 0 {
        let front = list.drop_last();
        let last = list.last();
        lemma_filtered(front, wanted);
        let kept = front.filter(wanted);
        let all = list.filter(wanted);
        assert(all == (if wanted(last) {
            kept.push(last)
        } else {
            kept
        }));
        assert forall|item: A| #[trigger] all.contains(item) <==> list.contains(item) && wanted(
            item,
        ) by {
            if list.contains(item) {
                let i = choose|i: int| 0 <= i < list.len() && list[i] == item;
                if i < front.len() {
                    assert(front[i] == item);
                }
            }
            if front.contains(item) {
                let i = choose|i: int| 0 <= i < front.len() && front[i] == item;
                assert(list[i] == item);
            }
            if kept.contains(item) {
                let i = choose|i: int| 0 <= i < kept.len() && kept[i] == item;
                assert(all[i] == item);
            }
            if all.contains(item) {
                let i = choose|i: int| 0 <= i < all.len() && all[i] == item;
                if i < kept.len() {
                    assert(kept[i] == item);
                } else {
                    assert(list[list.len() - 1] == item);
                }
            }
            if item == last && wanted(last) {
                assert(all[kept.len() as int] == item);
            }
        }
        if list.no_duplicates() {
            assert(front.no_duplicates());
            assert(!front.contains(last)) by {
                if front.contains(last) {
                    let i = choose|i: int| 0 <= i < front.len() && front[i] == last;
                    assert(list[i] == list[list.len() - 1]);
                }
            }
            assert(!kept.contains(last));
        }
    }
}

/// A list without repeats holds what the list held, and no two neighbours in it
/// are the same.
pub proof fn lemma_without_repeats<A>(items: Seq<A>)
    ensures
        forall|item: A| #[trigger] without_repeats(items).contains(item) <==> items.contains(item),
        forall|i: int|
            0 < i < without_repeats(items).len() ==> #[trigger] without_repeats(items)[i]
                != without_repeats(items)[i - 1],
        items.len() > 0 ==> without_repeats(items).len() > 0 && without_repeats(items).last()
            == items.last(),
    decreases items.len(),
{
    if items.len() > 1 {
        let front = items.drop_last();
        lemma_without_repeats(front);
        let kept = without_repeats(front);
        let all = without_repeats(items);
        assert(front.last() == items[items.len() - 2]);
        assert forall|item: A| #[trigger] all.contains(item) <==> items.contains(item) by {
            if items.contains(item) {
                let i = choose|i: int| 0 <= i < items.len() && items[i] == item;
                if i < front.len() {
                    assert(front[i] == item);
                } else if items.last() == items[items.len() - 2] {
                    assert(front[front.len() - 1] == item);
                }
            }
            if front.contains(item) {
                let i = choose|i: int| 0 <= i < front.len() && front[i] == item;
                assert(items[i] == item);
                assert(kept.contains(item));
                let k = choose|k: int| 0 <= k < kept.len() && kept[k] == item;
                assert(all[k] == item);
            }
            if all.contains(item) {
                let k = choose|k: int| 0 <= k < all.len() && all[k] == item;
                if k < kept.len() {
                    assert(kept[k] == item);
                    assert(kept.contains(item));
                } else {
                    assert(items[items.len() - 1] == item);
                }
            }
            if item == items.last() && items.last() != items[items.len() - 2] {
                assert(all[kept.len() as int] == item);
            }
        }
        assert forall|i: int| 0 < i < all.len() implies #[trigger] all[i] != all[i - 1] by {
            if i < kept.len() {
                assert(all[i] == kept[i] && all[i - 1] == kept[i - 1]);
            }
        }
    }
}

} // verus!
