//! Association lists with distinct keys, viewed as maps.
//!
//! The write-ahead-log model, the shard table, and the replication
//! registries all store `(key, value)` pairs in a vector whose keys are
//! pairwise distinct, and state their contracts over the corresponding
//! `Map` from key views to value views.

use vstd::prelude::*;

verus! {

/// The map denoted by an association list: later entries win, but under
/// `distinct_keys` every key occurs at most once.
pub open spec fn assoc_map<K: View, V: View>(entries: Seq<(K, V)>) -> Map<
    <K as View>::V,
    <V as View>::V,
>
    decreases entries.len(),
{
    if entries.len() == 0 {
        Map::empty()
    } else {
        assoc_map(entries.drop_last()).insert(entries.last().0@, entries.last().1@)
    }
}

/// No two entries share a key view.
pub open spec fn distinct_keys<K: View, V>(entries: Seq<(K, V)>) -> bool {
    forall|i: int, j: int|
        0 <= i < j < entries.len() ==> entries[i].0@ != entries[j].0@
}

/// Some entry carries the key view `k`.
pub open spec fn has_key<K: View, V>(entries: Seq<(K, V)>, k: <K as View>::V) -> bool {
    exists|i: int| 0 <= i < entries.len() && entries[i].0@ == k
}

pub proof fn lemma_distinct_drop_last<K: View, V>(entries: Seq<(K, V)>)
    requires
        distinct_keys(entries),
        entries.len() > 0,
    ensures
        distinct_keys(entries.drop_last()),
{
    assert forall|i: int, j: int|
        0 <= i < j < entries.drop_last().len() implies entries.drop_last()[i].0@
        != entries.drop_last()[j].0@ by {
        assert(entries.drop_last()[i] == entries[i]);
        assert(entries.drop_last()[j] == entries[j]);
    }
}

/// The map's domain is exactly the keys of the list.
pub proof fn lemma_assoc_map_dom<K: View, V: View>(entries: Seq<(K, V)>)
    ensures
        forall|k: <K as View>::V| #[trigger]
            assoc_map(entries).contains_key(k) <==> has_key(entries, k),
    decreases entries.len(),
{
    if entries.len() > 0 {
        lemma_assoc_map_dom(entries.drop_last());
        assert forall|k: <K as View>::V| #[trigger]
            assoc_map(entries).contains_key(k) implies has_key(entries, k) by {
            if k == entries.last().0@ {
                assert(entries[entries.len() - 1].0@ == k);
            } else {
                assert(assoc_map(entries.drop_last()).contains_key(k));
                assert(has_key(entries.drop_last(), k));
                let i = choose|i: int|
                    0 <= i < entries.drop_last().len() && entries.drop_last()[i].0@ == k;
                assert(entries[i].0@ == k);
            }
        }
        assert forall|k: <K as View>::V| has_key(entries, k) implies #[trigger]
            assoc_map(entries).contains_key(k) by {
            let i = choose|i: int| 0 <= i < entries.len() && entries[i].0@ == k;
            if i < entries.len() - 1 {
                assert(entries.drop_last()[i].0@ == k);
                assert(has_key(entries.drop_last(), k));
                assert(assoc_map(entries.drop_last()).contains_key(k));
            } else {
                assert(k == entries.last().0@);
            }
        }
    }
}

/// Under distinct keys, entry `i` is the map's value at its key.
pub proof fn lemma_assoc_map_index<K: View, V: View>(entries: Seq<(K, V)>, i: int)
    requires
        distinct_keys(entries),
        0 <= i < entries.len(),
    ensures
        assoc_map(entries).contains_key(entries[i].0@),
        assoc_map(entries)[entries[i].0@] == entries[i].1@,
    decreases entries.len(),
{
    if i < entries.len() - 1 {
        lemma_distinct_drop_last(entries);
        lemma_assoc_map_index(entries.drop_last(), i);
        assert(entries.drop_last()[i] == entries[i]);
        assert(entries[i].0@ != entries.last().0@);
    }
}

/// Replacing entry `i` by a pair with the same key updates the map at that
/// key.
pub proof fn lemma_assoc_map_update<K: View, V: View>(entries: Seq<(K, V)>, i: int, p: (K, V))
    requires
        distinct_keys(entries),
        0 <= i < entries.len(),
        p.0@ == entries[i].0@,
    ensures
        distinct_keys(entries.update(i, p)),
        assoc_map(entries.update(i, p)) == assoc_map(entries).insert(p.0@, p.1@),
    decreases entries.len(),
{
    let updated = entries.update(i, p);
    assert forall|x: int, y: int|
        0 <= x < y < updated.len() implies updated[x].0@ != updated[y].0@ by {
        assert(updated[x].0@ == entries[x].0@);
        assert(updated[y].0@ == entries[y].0@);
    }
    if i == entries.len() - 1 {
        assert(updated.drop_last() =~= entries.drop_last());
        assert(assoc_map(updated.drop_last()).insert(p.0@, p.1@) =~= assoc_map(
            entries,
        ).insert(p.0@, p.1@));
    } else {
        lemma_distinct_drop_last(entries);
        assert(entries.drop_last()[i] == entries[i]);
        lemma_assoc_map_update(entries.drop_last(), i, p);
        assert(updated.drop_last() =~= entries.drop_last().update(i, p));
        assert(updated.last() == entries.last());
        assert(entries[i].0@ != entries.last().0@);
        assert(assoc_map(entries.drop_last()).insert(p.0@, p.1@).insert(
            entries.last().0@,
            entries.last().1@,
        ) =~= assoc_map(entries.drop_last()).insert(entries.last().0@, entries.last().1@).insert(
            p.0@,
            p.1@,
        ));
    }
}

/// Appending a pair with a fresh key inserts it into the map.
pub proof fn lemma_assoc_map_push<K: View, V: View>(entries: Seq<(K, V)>, p: (K, V))
    requires
        distinct_keys(entries),
        !has_key(entries, p.0@),
    ensures
        distinct_keys(entries.push(p)),
        assoc_map(entries.push(p)) == assoc_map(entries).insert(p.0@, p.1@),
{
    let pushed = entries.push(p);
    assert forall|x: int, y: int|
        0 <= x < y < pushed.len() implies pushed[x].0@ != pushed[y].0@ by {
        if y < entries.len() {
            assert(pushed[x] == entries[x]);
            assert(pushed[y] == entries[y]);
        } else {
            assert(pushed[x] == entries[x]);
            assert(pushed[y] == p);
            assert(!(0 <= x < entries.len() && entries[x].0@ == p.0@));
        }
    }
    assert(pushed.drop_last() =~= entries);
    assert(pushed.last() == p);
}

/// Removing entry `i` removes its key from the map.
pub proof fn lemma_assoc_map_remove<K: View, V: View>(entries: Seq<(K, V)>, i: int)
    requires
        distinct_keys(entries),
        0 <= i < entries.len(),
    ensures
        distinct_keys(entries.remove(i)),
        assoc_map(entries.remove(i)) == assoc_map(entries).remove(entries[i].0@),
    decreases entries.len(),
{
    let removed = entries.remove(i);
    assert forall|x: int, y: int|
        0 <= x < y < removed.len() implies removed[x].0@ != removed[y].0@ by {
        let x0 = if x < i {
            x
        } else {
            x + 1
        };
        let y0 = if y < i {
            y
        } else {
            y + 1
        };
        assert(removed[x] == entries[x0]);
        assert(removed[y] == entries[y0]);
    }
    if i == entries.len() - 1 {
        lemma_distinct_drop_last(entries);
        assert(removed =~= entries.drop_last());
        lemma_assoc_map_dom(entries.drop_last());
        assert(!has_key(entries.drop_last(), entries.last().0@)) by {
            if has_key(entries.drop_last(), entries.last().0@) {
                let j = choose|j: int|
                    0 <= j < entries.drop_last().len() && entries.drop_last()[j].0@
                        == entries.last().0@;
                assert(entries[j].0@ == entries[entries.len() - 1].0@);
            }
        }
        assert(assoc_map(entries.drop_last()) =~= assoc_map(entries).remove(entries.last().0@));
    } else {
        lemma_distinct_drop_last(entries);
        assert(entries.drop_last()[i] == entries[i]);
        lemma_assoc_map_remove(entries.drop_last(), i);
        assert(removed.drop_last() =~= entries.drop_last().remove(i));
        assert(removed.last() == entries.last());
        assert(entries[i].0@ != entries.last().0@);
        assert(assoc_map(entries.drop_last()).remove(entries[i].0@).insert(
            entries.last().0@,
            entries.last().1@,
        ) =~= assoc_map(entries.drop_last()).insert(entries.last().0@, entries.last().1@).remove(
            entries[i].0@,
        ));
    }
}

} // verus!
