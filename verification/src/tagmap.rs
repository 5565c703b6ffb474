//! Association lists with unique keys, viewed as mathematical maps.
//!
//! The resource store and the access maps both keep their entries as plain
//! vectors of `(key, value)` pairs; these spec functions and lemmas relate
//! such a vector to the mapping it describes.

use vstd::prelude::*;

verus! {

/// No key occurs twice among the entries.
pub open spec fn unique_keys<K, V>(entries: Seq<(K, V)>) -> bool {
    forall|i: int, j: int|
        0 <= i < j < entries.len() ==> (#[trigger] entries[i]).0 != (#[trigger] entries[j]).0
}

/// The mapping described by a sequence of `(key, value)` entries; a later
/// entry would win, though well-formed lists never repeat a key.
pub open spec fn map_of<K, V>(entries: Seq<(K, V)>) -> Map<K, V>
    decreases entries.len(),
{
    if entries.len() == 0 {
        Map::empty()
    } else {
        map_of(entries.drop_last()).insert(entries.last().0, entries.last().1)
    }
}

/// With unique keys, the mapping holds exactly the listed entries.
pub proof fn lemma_map_of<K, V>(entries: Seq<(K, V)>)
    requires
        unique_keys(entries),
    ensures
        forall|k: K|
            map_of(entries).dom().contains(k) <==> exists|i: int|
                0 <= i < entries.len() && (#[trigger] entries[i]).0 == k,
        forall|i: int|
            0 <= i < entries.len() ==> map_of(entries)[(#[trigger] entries[i]).0] == entries[i].1,
    decreases entries.len(),
{
    if entries.len() > 0 {
        assert(entries.drop_last() =~= entries.take(entries.len() - 1));
        lemma_map_of(entries.drop_last());
        assert forall|i: int| 0 <= i < entries.len() implies map_of(entries)[(
        #[trigger] entries[i]).0] == entries[i].1 by {
            if i < entries.len() - 1 {
                assert(entries.drop_last()[i] == entries[i]);
                assert(entries[i].0 != entries.last().0);
            }
        }
        assert forall|k: K| map_of(entries).dom().contains(k) implies exists|i: int|
            0 <= i < entries.len() && (#[trigger] entries[i]).0 == k by {
            if k != entries.last().0 {
                assert(map_of(entries) == map_of(entries.drop_last()).insert(
                    entries.last().0,
                    entries.last().1,
                ));
                assert(map_of(entries.drop_last()).dom().contains(k));
                assert(exists|i: int|
                    0 <= i < entries.drop_last().len() && (#[trigger] entries.drop_last()[i]).0
                        == k);
                let i = choose|i: int|
                    0 <= i < entries.drop_last().len() && (#[trigger] entries.drop_last()[i]).0
                        == k;
                assert(entries.drop_last()[i] == entries[i]);
                assert(entries[i].0 == k);
            } else {
                assert(entries[entries.len() - 1].0 == k);
            }
        }
        assert forall|k: K|
            (exists|i: int| 0 <= i < entries.len() && (#[trigger] entries[i]).0 == k) implies map_of(
            entries).dom().contains(k) by {
            let i = choose|i: int| 0 <= i < entries.len() && (#[trigger] entries[i]).0 == k;
            if i < entries.len() - 1 {
                assert(entries.drop_last()[i].0 == k);
            }
        }
    }
}

/// With unique keys, the mapping's domain size equals the entry count.
pub proof fn lemma_map_of_len<K, V>(entries: Seq<(K, V)>)
    requires
        unique_keys(entries),
    ensures
        map_of(entries).dom().finite(),
        map_of(entries).dom().len() == entries.len(),
    decreases entries.len(),
{
    if entries.len() == 0 {
    } else {
        assert(entries.drop_last() =~= entries.take(entries.len() - 1));
        lemma_map_of_len(entries.drop_last());
        lemma_map_of(entries.drop_last());
        assert(!map_of(entries.drop_last()).dom().contains(entries.last().0));
    }
}

/// Replacing the value at one position updates the mapping at that key.
pub proof fn lemma_map_of_update<K, V>(entries: Seq<(K, V)>, i: int, value: V)
    requires
        unique_keys(entries),
        0 <= i < entries.len(),
    ensures
        unique_keys(entries.update(i, (entries[i].0, value))),
        map_of(entries.update(i, (entries[i].0, value))) == map_of(entries).insert(
            entries[i].0,
            value,
        ),
    decreases entries.len(),
{
    let k = entries[i].0;
    let upd = entries.update(i, (k, value));
    assert(forall|j: int| 0 <= j < entries.len() ==> (#[trigger] upd[j]).0 == entries[j].0);
    if i == entries.len() - 1 {
        assert(upd.drop_last() =~= entries.drop_last());
        assert(upd.last() == (k, value));
    } else {
        assert(upd.drop_last() =~= entries.drop_last().update(i, (k, value)));
        assert(entries.drop_last()[i].0 == k);
        lemma_map_of_update(entries.drop_last(), i, value);
        assert(entries.last().0 != k);
        assert(map_of(upd) =~= map_of(entries).insert(k, value));
    }
}

/// Appending a fresh key extends the mapping.
pub proof fn lemma_map_of_push<K, V>(entries: Seq<(K, V)>, key: K, value: V)
    requires
        unique_keys(entries),
        forall|i: int| 0 <= i < entries.len() ==> (#[trigger] entries[i]).0 != key,
    ensures
        unique_keys(entries.push((key, value))),
        map_of(entries.push((key, value))) == map_of(entries).insert(key, value),
{
    assert(entries.push((key, value)).drop_last() =~= entries);
}

} // verus!
