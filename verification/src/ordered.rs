use crate::variant::{views_of_entries, Variant, VariantView};
use linked_hash_map::LinkedHashMap;
use vstd::prelude::*;

verus! {

/// `linked_hash_map::LinkedHashMap`, which Verus takes as an opaque type.
#[verifier::external_type_specification]
#[verifier::external_body]
#[verifier::reject_recursive_types(K)]
#[verifier::reject_recursive_types(V)]
#[verifier::reject_recursive_types(S)]
pub struct ExLinkedHashMap<K, V, S>(LinkedHashMap<K, V, S>);

/// The most that a length hint makes a decoder set aside before the first
/// item has come.
pub const PRESIZE_LIMIT: usize = 4096;

/// What `map` holds: its entries from the first to the last, each key by
/// its text.
pub uninterp spec fn map_entries(map: LinkedHashMap<String, Variant>) -> Seq<(Seq<char>, Variant)>;

/// Calls `LinkedHashMap::new`. The new map holds nothing.
#[verifier::external_body]
pub(crate) fn map_new() -> (map: LinkedHashMap<String, Variant>)
    ensures
        map_entries(map) == Seq::<(Seq<char>, Variant)>::empty(),
{
    LinkedHashMap::new()
}

/// Calls `LinkedHashMap::with_capacity`. The new map holds nothing.
///
/// The call sizes a hash table from `capacity` at once, and a size near the
/// top of `usize` ends in a panic there: only modest sizes are let in.
#[verifier::external_body]
pub(crate) fn map_with_capacity(capacity: usize) -> (map: LinkedHashMap<String, Variant>)
    requires
        capacity <= PRESIZE_LIMIT,
    ensures
        map_entries(map) == Seq::<(Seq<char>, Variant)>::empty(),
{
    LinkedHashMap::with_capacity(capacity)
}

/// Calls `LinkedHashMap::insert`. Where the map has no entry under `key`,
/// the new entry becomes the last. Where it has one, that entry takes the
/// new value and moves to the end; the others keep their order.
#[verifier::external_body]
pub(crate) fn map_insert(map: &mut LinkedHashMap<String, Variant>, key: String, value: Variant)
    ensures
        map_entries(*final(map)) == put(map_entries(*old(map)), key@, value),
{
    map.insert(key, value);
}

/// Calls `LinkedHashMap::pop_front`. An empty map gives `None` and stays
/// empty. Any other gives its first entry and keeps the rest in order.
#[verifier::external_body]
pub(crate) fn map_pop_front(map: &mut LinkedHashMap<String, Variant>) -> (first: Option<
    (String, Variant),
>)
    ensures
        match first {
            Some(entry) => {
                &&& map_entries(*old(map)).len() > 0
                &&& entry.0@ == map_entries(*old(map))[0].0
                &&& entry.1 == map_entries(*old(map))[0].1
                &&& map_entries(*final(map)) == map_entries(*old(map)).skip(1)
            },
            None => {
                &&& map_entries(*old(map)).len() == 0
                &&& map_entries(*final(map)) == map_entries(*old(map))
            },
        },
{
    map.pop_front()
}

/// No two of `entries` have the same key.
pub open spec fn unique_keys<V>(entries: Seq<(Seq<char>, V)>) -> bool {
    forall|i: int, j: int|
        0 <= i < j < entries.len() ==> (#[trigger] entries[i]).0 != (#[trigger] entries[j]).0
}

/// Some entry of `entries` has the key `key`.
pub open spec fn has_key<V>(entries: Seq<(Seq<char>, V)>, key: Seq<char>) -> bool {
    exists|i: int| 0 <= i < entries.len() && (#[trigger] entries[i]).0 == key
}

/// `entries` without those whose key is `key`.
pub open spec fn without_key<V>(entries: Seq<(Seq<char>, V)>, key: Seq<char>) -> Seq<
    (Seq<char>, V),
>
    decreases entries.len(),
{
    if entries.len() == 0 {
        entries
    } else if entries.last().0 == key {
        without_key(entries.drop_last(), key)
    } else {
        without_key(entries.drop_last(), key).push(entries.last())
    }
}

/// `entries` after `key` has been given `value`: an earlier entry under the
/// same key gives way, and the new entry stands last.
pub open spec fn put<V>(entries: Seq<(Seq<char>, V)>, key: Seq<char>, value: V) -> Seq<
    (Seq<char>, V),
> {
    without_key(entries, key).push((key, value))
}

/// `base` after each of `entries` has been put into it, one after the
/// other.
pub open spec fn put_all<V>(base: Seq<(Seq<char>, V)>, entries: Seq<(Seq<char>, V)>) -> Seq<
    (Seq<char>, V),
>
    decreases entries.len(),
{
    if entries.len() == 0 {
        base
    } else {
        put(put_all(base, entries.drop_last()), entries.last().0, entries.last().1)
    }
}

/// What is left of `entries` when they are put into an empty mapping one
/// after the other.
pub open spec fn collect<V>(entries: Seq<(Seq<char>, V)>) -> Seq<(Seq<char>, V)> {
    put_all(Seq::empty(), entries)
}

/// The value of the last of `entries` that has the key `key`.
pub open spec fn last_value<V>(entries: Seq<(Seq<char>, V)>, key: Seq<char>) -> Option<V>
    decreases entries.len(),
{
    if entries.len() == 0 {
        None
    } else if entries.last().0 == key {
        Some(entries.last().1)
    } else {
        last_value(entries.drop_last(), key)
    }
}

/// The entries with each value replaced by its view.
pub open spec fn entry_views(entries: Seq<(Seq<char>, Variant)>) -> Seq<(Seq<char>, VariantView)> {
    entries.map_values(|e: (Seq<char>, Variant)| (e.0, e.1@))
}

/// What is left after `key` is taken out comes from `entries`, in the same
/// order, and does not hold `key`.
pub proof fn lemma_without_key<V>(entries: Seq<(Seq<char>, V)>, key: Seq<char>)
    ensures
        without_key(entries, key).len() <= entries.len(),
        !has_key(without_key(entries, key), key),
        forall|i: int|
            0 <= i < without_key(entries, key).len() ==> entries.contains(
                #[trigger] without_key(entries, key)[i],
            ),
        unique_keys(entries) ==> unique_keys(without_key(entries, key)),
        !has_key(entries, key) ==> without_key(entries, key) == entries,
    decreases entries.len(),
{
    if entries.len() > 0 {
        let front = entries.drop_last();
        let rest = without_key(front, key);
        lemma_without_key(front, key);
        assert forall|i: int| 0 <= i < rest.len() implies entries.contains(#[trigger] rest[i]) by {
            assert(front.contains(rest[i]));
            let j = choose|j: int| 0 <= j < front.len() && front[j] == rest[i];
            assert(entries[j] == rest[i]);
        }
        if unique_keys(entries) {
            assert(unique_keys(front)) by {
                assert forall|i: int, j: int| 0 <= i < j < front.len() implies (#[trigger] front[i]).0
                    != (#[trigger] front[j]).0 by {
                    assert(entries[i].0 != entries[j].0);
                }
            }
            if entries.last().0 != key {
                let kept = rest.push(entries.last());
                assert forall|i: int, j: int| 0 <= i < j < kept.len() implies (#[trigger] kept[i]).0
                    != (#[trigger] kept[j]).0 by {
                    if j == rest.len() {
                        assert(front.contains(rest[i]));
                        let k = choose|k: int| 0 <= k < front.len() && front[k] == rest[i];
                        assert(entries[k].0 != entries[entries.len() - 1].0);
                    }
                }
            }
        }
        if !has_key(entries, key) {
            assert(!has_key(front, key)) by {
                if has_key(front, key) {
                    let i = choose|i: int| 0 <= i < front.len() && (#[trigger] front[i]).0 == key;
                    assert(entries[i].0 == key);
                }
            }
            assert(entries[entries.len() - 1].0 != key);
            assert(rest.push(entries.last()) =~= entries);
        }
    }
}

/// Giving a key a value keeps the keys unique.
pub proof fn lemma_put_unique<V>(entries: Seq<(Seq<char>, V)>, key: Seq<char>, value: V)
    requires
        unique_keys(entries),
    ensures
        unique_keys(put(entries, key, value)),
{
    lemma_without_key(entries, key);
    let rest = without_key(entries, key);
    let after = put(entries, key, value);
    assert forall|i: int, j: int| 0 <= i < j < after.len() implies (#[trigger] after[i]).0 != (
    #[trigger] after[j]).0 by {
        if j == rest.len() {
            assert(rest[i].0 != key);
        }
    }
}

/// A key that `entries` does not hold yet is put at the end, and nothing
/// else changes.
pub proof fn lemma_put_new<V>(entries: Seq<(Seq<char>, V)>, key: Seq<char>, value: V)
    requires
        !has_key(entries, key),
    ensures
        put(entries, key, value) == entries.push((key, value)),
{
    lemma_without_key(entries, key);
}

/// After a put the key has the value that was put, and every other key the
/// value that it had.
pub proof fn lemma_put_last_value<V>(
    entries: Seq<(Seq<char>, V)>,
    key: Seq<char>,
    value: V,
    other: Seq<char>,
)
    ensures
        last_value(put(entries, key, value), key) == Some(value),
        other != key ==> last_value(without_key(entries, key), other) == last_value(entries, other),
        other != key ==> last_value(put(entries, key, value), other) == last_value(entries, other),
    decreases entries.len(),
{
    let after = put(entries, key, value);
    assert(after.last() == (key, value));
    assert(after.drop_last() =~= without_key(entries, key));
    if entries.len() > 0 {
        let front = entries.drop_last();
        lemma_put_last_value(front, key, value, other);
        if entries.last().0 != key {
            let kept = without_key(front, key).push(entries.last());
            assert(kept.drop_last() =~= without_key(front, key));
            assert(kept.last() == entries.last());
        }
    }
}

/// The last entry under a key wins: among entries that were put into a
/// mapping one after the other, each key has the value that was given to it
/// last.
pub proof fn last_entry_wins<V>(entries: Seq<(Seq<char>, V)>, key: Seq<char>)
    ensures
        last_value(collect(entries), key) == last_value(entries, key),
        unique_keys(collect(entries)),
    decreases entries.len(),
{
    lemma_collect_unique(entries);
    if entries.len() > 0 {
        let front = entries.drop_last();
        last_entry_wins(front, key);
        lemma_put_last_value(collect(front), entries.last().0, entries.last().1, key);
    }
}

/// Putting the first of some entries, and then the others, is putting them
/// all.
pub proof fn lemma_put_all_first<V>(base: Seq<(Seq<char>, V)>, entries: Seq<(Seq<char>, V)>)
    requires
        entries.len() > 0,
    ensures
        put_all(base, entries) == put_all(
            put(base, entries[0].0, entries[0].1),
            entries.skip(1),
        ),
    decreases entries.len(),
{
    let first = put(base, entries[0].0, entries[0].1);
    let front = entries.drop_last();
    let rest = entries.skip(1);
    if entries.len() == 1 {
        assert(put_all(base, front) == base);
        assert(put_all(first, rest) == first);
    } else {
        lemma_put_all_first(base, front);
        assert(front.skip(1) =~= rest.drop_last());
        assert(front[0] == entries[0]);
        assert(rest.last() == entries.last());
        assert(put_all(first, rest) == put(
            put_all(first, rest.drop_last()),
            rest.last().0,
            rest.last().1,
        ));
    }
}

/// Entries that were put into a mapping one after the other have unique
/// keys, and each of them is one of those that were put.
pub proof fn lemma_collect_unique<V>(entries: Seq<(Seq<char>, V)>)
    ensures
        unique_keys(collect(entries)),
        forall|i: int|
            0 <= i < collect(entries).len() ==> entries.contains(#[trigger] collect(entries)[i]),
    decreases entries.len(),
{
    if entries.len() > 0 {
        let front = entries.drop_last();
        lemma_collect_unique(front);
        lemma_put_unique(collect(front), entries.last().0, entries.last().1);
        lemma_without_key(collect(front), entries.last().0);
        let rest = without_key(collect(front), entries.last().0);
        assert forall|i: int| 0 <= i < collect(entries).len() implies entries.contains(
            #[trigger] collect(entries)[i],
        ) by {
            if i < rest.len() {
                assert(collect(front).contains(rest[i]));
                let j = choose|j: int| 0 <= j < collect(front).len() && collect(front)[j] == rest[i];
                assert(front.contains(collect(front)[j]));
                let k = choose|k: int| 0 <= k < front.len() && front[k] == collect(front)[j];
                assert(entries[k] == rest[i]);
            } else {
                assert(entries[entries.len() - 1] == collect(entries)[i]);
            }
        }
    }
}

/// Entries with unique keys are left as they are, in their order, when they
/// are put into a mapping one after the other.
pub proof fn lemma_collect_keeps<V>(entries: Seq<(Seq<char>, V)>)
    requires
        unique_keys(entries),
    ensures
        collect(entries) == entries,
    decreases entries.len(),
{
    if entries.len() > 0 {
        let front = entries.drop_last();
        assert(unique_keys(front)) by {
            assert forall|i: int, j: int| 0 <= i < j < front.len() implies (#[trigger] front[i]).0
                != (#[trigger] front[j]).0 by {
                assert(entries[i].0 != entries[j].0);
            }
        }
        lemma_collect_keeps(front);
        assert(!has_key(front, entries.last().0)) by {
            if has_key(front, entries.last().0) {
                let i = choose|i: int|
                    0 <= i < front.len() && (#[trigger] front[i]).0 == entries.last().0;
                assert(entries[i].0 != entries[entries.len() - 1].0);
            }
        }
        lemma_put_new(front, entries.last().0, entries.last().1);
        assert(front.push(entries.last()) =~= entries);
    }
}

/// Taking a key out, and putting one in, are the same on the entries and on
/// their views.
pub proof fn lemma_entry_views_put(entries: Seq<(Seq<char>, Variant)>, key: Seq<char>, value: Variant)
    ensures
        entry_views(without_key(entries, key)) == without_key(entry_views(entries), key),
        entry_views(put(entries, key, value)) == put(entry_views(entries), key, value@),
    decreases entries.len(),
{
    if entries.len() > 0 {
        let front = entries.drop_last();
        lemma_entry_views_put(front, key, value);
        assert(entry_views(entries).drop_last() =~= entry_views(front));
        if entries.last().0 != key {
            assert(entry_views(without_key(front, key).push(entries.last())) =~= entry_views(
                without_key(front, key),
            ).push(entry_views(entries).last()));
        }
    }
    assert(entry_views(without_key(entries, key).push((key, value))) =~= entry_views(
        without_key(entries, key),
    ).push((key, value@)));
}

/// The views of entries have the keys of the entries.
pub proof fn lemma_entry_views_unique(entries: Seq<(Seq<char>, Variant)>)
    requires
        unique_keys(entries),
    ensures
        unique_keys(entry_views(entries)),
{
    let v = entry_views(entries);
    assert forall|i: int, j: int| 0 <= i < j < v.len() implies (#[trigger] v[i]).0 != (
    #[trigger] v[j]).0 by {
        assert(entries[i].0 != entries[j].0);
    }
}

/// The room to set aside for a container whose length is hinted at.
pub(crate) fn presize(hint: Option<usize>) -> (room: usize)
    ensures
        room <= PRESIZE_LIMIT,
        hint is None ==> room == 0,
        hint matches Some(n) ==> room == if n <= PRESIZE_LIMIT {
            n
        } else {
            PRESIZE_LIMIT
        },
{
    match hint {
        Some(n) => if n <= PRESIZE_LIMIT {
            n
        } else {
            PRESIZE_LIMIT
        },
        None => 0,
    }
}

/// Every value among the entries after a put was there before, or is the
/// one that was put.
pub proof fn lemma_put_keeps(entries: Seq<(Seq<char>, Variant)>, key: Seq<char>, value: Variant)
    requires
        value.wf(),
        forall|k: int| 0 <= k < entries.len() ==> (#[trigger] entries[k]).1.wf(),
    ensures
        forall|k: int|
            0 <= k < put(entries, key, value).len() ==> (#[trigger] put(entries, key, value)[k]).1.wf(),
{
    lemma_without_key(entries, key);
    let rest = without_key(entries, key);
    assert forall|k: int| 0 <= k < put(entries, key, value).len() implies (#[trigger] put(
        entries,
        key,
        value,
    )[k]).1.wf() by {
        if k < rest.len() {
            assert(entries.contains(rest[k]));
        }
    }
}

/// Moves the entries of `source` into a vector, from the first to the last.
pub(crate) fn into_entries(source: LinkedHashMap<String, Variant>) -> (entries: Vec<(String, Variant)>)
    ensures
        views_of_entries(entries@) == entry_views(map_entries(source)),
        entries.len() == map_entries(source).len(),
        forall|k: int|
            0 <= k < entries.len() ==> (#[trigger] entries[k]).1 == map_entries(source)[k].1,
{
    let ghost all = map_entries(source);
    let mut map = source;
    let mut entries: Vec<(String, Variant)> = Vec::new();
    assert(views_of_entries(entries@) + entry_views(all) =~= entry_views(all));
    loop
        invariant
            all == map_entries(source),
            views_of_entries(entries@) + entry_views(map_entries(map)) == entry_views(all),
            entries.len() + map_entries(map).len() == all.len(),
            forall|k: int| 0 <= k < entries.len() ==> (#[trigger] entries[k]).1 == all[k].1,
            forall|k: int|
                0 <= k < map_entries(map).len() ==> #[trigger] map_entries(map)[k] == all[k
                    + entries.len()],
        decreases map_entries(map).len(),
    {
        let ghost rest = map_entries(map);
        let ghost done = entries@;
        match map_pop_front(&mut map) {
            Some(entry) => {
                entries.push(entry);
                proof {
                    assert(entries@.drop_last() =~= done);
                    assert(views_of_entries(entries@) == views_of_entries(done).push(
                        (entry.0@, entry.1@),
                    ));
                    assert(views_of_entries(entries@) + entry_views(rest.skip(1))
                        =~= views_of_entries(done) + entry_views(rest));
                }
            },
            None => {
                proof {
                    assert(views_of_entries(entries@) =~= entry_views(all));
                }
                return entries;
            },
        }
    }
}

} // verus!
