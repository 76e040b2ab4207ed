//! Tallies: weighted items summed up per key.
//!
//! A tally lists each key once, in the order in which the keys first occur,
//! with the sum of the weights that the key was given. Training counts
//! transitions this way, and the entropy estimate adds up the probability that
//! flows into each state. Since the order of a tally is fixed by the order of
//! its input, so is the table that is built from it.

use crate::table::{lemma_mass_insert, lemma_mass_update, mass};
use vstd::prelude::*;

verus! {

/// The keys of the items, in order.
pub open spec fn keys<K, V>(items: Seq<(K, V)>) -> Seq<K> {
    items.map_values(|item: (K, V)| item.0)
}

/// The members of `keys` without repetition, in the order of their first occurrence.
pub open spec fn distinct<K>(keys: Seq<K>) -> Seq<K>
    decreases keys.len(),
{
    if keys.len() == 0 {
        keys
    } else {
        let before = distinct(keys.drop_last());
        if before.contains(keys.last()) {
            before
        } else {
            before.push(keys.last())
        }
    }
}

/// The sum of the weights that `items` gives to `key`.
pub open spec fn amount<K>(items: Seq<(K, nat)>, key: K) -> nat
    decreases items.len(),
{
    if items.len() == 0 {
        0
    } else {
        amount(items.drop_last(), key) + if items.last().0 == key {
            items.last().1
        } else {
            0
        }
    }
}

/// Each key of `items` once, in the order of first occurrence, with the sum of
/// its weights.
pub open spec fn tally<K>(items: Seq<(K, nat)>) -> Seq<(K, nat)> {
    distinct(keys(items)).map_values(|key: K| (key, amount(items, key)))
}

/// The position of the first occurrence of `key`, or the length of `keys` if
/// there is none.
pub open spec fn position<K>(keys: Seq<K>, key: K) -> int
    decreases keys.len(),
{
    if keys.len() == 0 || keys[0] == key {
        0
    } else {
        1 + position(keys.drop_first(), key)
    }
}

/// `sums` with `weight` added to the sum of `key`; a key that is not yet
/// listed is appended.
pub open spec fn credit<K>(sums: Seq<(K, nat)>, key: K, weight: nat) -> Seq<(K, nat)> {
    let i = position(keys(sums), key);
    if i < sums.len() {
        sums.update(i, (key, sums[i].1 + weight))
    } else {
        sums.push((key, weight))
    }
}

/// The pairs of `pairs` that start with `first`, each as its second part with weight one.
pub open spec fn followers<S, T>(pairs: Seq<(S, T)>, first: S) -> Seq<(T, nat)>
    decreases pairs.len(),
{
    if pairs.len() == 0 {
        Seq::empty()
    } else {
        let before = followers(pairs.drop_last(), first);
        if pairs.last().0 == first {
            before.push((pairs.last().1, 1nat))
        } else {
            before
        }
    }
}

/// For each first part of `pairs`, in the order of first occurrence, the tally
/// of the second parts that follow it.
pub open spec fn group<S, T>(pairs: Seq<(S, T)>) -> Seq<(S, Seq<(T, nat)>)> {
    distinct(keys(pairs)).map_values(|first: S| (first, tally(followers(pairs, first))))
}

/// `groups` with one more occurrence of `second` after `first`; a first part
/// that is not yet listed is appended.
pub open spec fn enter<S, T>(groups: Seq<(S, Seq<(T, nat)>)>, first: S, second: T) -> Seq<
    (S, Seq<(T, nat)>),
> {
    let i = position(keys(groups), first);
    if i < groups.len() {
        groups.update(i, (first, credit(groups[i].1, second, 1)))
    } else {
        groups.push((first, seq![(second, 1nat)]))
    }
}

/// `position` is the one place that holds `key` and has no `key` before it,
/// or the end if `key` does not occur.
pub proof fn lemma_position<K>(keys: Seq<K>, key: K, i: int)
    requires
        0 <= i <= keys.len(),
        forall|j: int| 0 <= j < i ==> keys[j] != key,
        i < keys.len() ==> keys[i] == key,
    ensures
        position(keys, key) == i,
    decreases keys.len(),
{
    if i > 0 {
        let rest = keys.drop_first();
        assert forall|j: int| 0 <= j < i - 1 implies rest[j] != key by {
            assert(rest[j] == keys[j + 1]);
        }
        lemma_position(rest, key, i - 1);
    }
}

/// Where `position` points: no `key` before it, and `key` at it unless it is the end.
pub proof fn lemma_position_bounds<K>(keys: Seq<K>, key: K)
    ensures
        0 <= position(keys, key) <= keys.len(),
        forall|j: int| 0 <= j < position(keys, key) ==> keys[j] != key,
        position(keys, key) < keys.len() ==> keys[position(keys, key)] == key,
        position(keys, key) < keys.len() <==> keys.contains(key),
    decreases keys.len(),
{
    if !(keys.len() == 0 || keys[0] == key) {
        let rest = keys.drop_first();
        lemma_position_bounds(rest, key);
        let p = position(rest, key);
        assert forall|j: int| 0 <= j < p + 1 implies keys[j] != key by {
            if j > 0 {
                assert(rest[j - 1] == keys[j]);
            }
        }
        if p + 1 < keys.len() {
            assert(rest[p] == keys[p + 1]);
        }
    }
    let q = position(keys, key);
    if q < keys.len() {
        assert(keys[q] == key);
    }
}

/// Nothing occurs twice in `distinct(keys)`, and it has the members of `keys`.
pub proof fn lemma_distinct<K>(keys: Seq<K>)
    ensures
        distinct(keys).no_duplicates(),
        distinct(keys).len() <= keys.len(),
        forall|key: K| distinct(keys).contains(key) <==> keys.contains(key),
    decreases keys.len(),
{
    if keys.len() > 0 {
        let front = keys.drop_last();
        let before = distinct(front);
        lemma_distinct(front);
        assert forall|key: K| distinct(keys).contains(key) <==> keys.contains(key) by {
            if keys.contains(key) {
                let i = choose|i: int| 0 <= i < keys.len() && keys[i] == key;
                if i < keys.len() - 1 {
                    assert(front[i] == key);
                    assert(front.contains(key));
                    assert(before.contains(key));
                    let j = choose|j: int| 0 <= j < before.len() && before[j] == key;
                    assert(distinct(keys)[j] == key);
                } else if !before.contains(keys.last()) {
                    assert(distinct(keys)[before.len() as int] == key);
                }
                assert(distinct(keys).contains(key));
            }
            if distinct(keys).contains(key) {
                let j = choose|j: int| 0 <= j < distinct(keys).len() && distinct(keys)[j] == key;
                if j < before.len() {
                    assert(before[j] == key);
                    assert(before.contains(key));
                    assert(front.contains(key));
                    let i = choose|i: int| 0 <= i < front.len() && front[i] == key;
                    assert(keys[i] == key);
                } else {
                    assert(keys[keys.len() - 1] == key);
                }
                assert(keys.contains(key));
            }
        }
    }
}

/// A key that does not occur has no weight.
pub proof fn lemma_amount_absent<K>(items: Seq<(K, nat)>, key: K)
    requires
        !keys(items).contains(key),
    ensures
        amount(items, key) == 0,
    decreases items.len(),
{
    if items.len() > 0 {
        assert(keys(items)[items.len() - 1] == items.last().0);
        assert forall|i: int| 0 <= i < items.len() - 1 implies keys(items.drop_last())[i]
            != key by {
            assert(keys(items)[i] == items[i].0);
        }
        lemma_amount_absent(items.drop_last(), key);
    }
}

/// The keys of a tally are the distinct keys of its items.
pub proof fn lemma_tally_keys<K>(items: Seq<(K, nat)>)
    ensures
        keys(tally(items)) == distinct(keys(items)),
        keys(tally(items)).no_duplicates(),
        tally(items).len() <= items.len(),
        forall|i: int|
            0 <= i < tally(items).len() ==> (#[trigger] tally(items)[i]).1 == amount(
                items,
                tally(items)[i].0,
            ),
{
    lemma_distinct(keys(items));
    assert(keys(tally(items)) =~= distinct(keys(items)));
}

/// Tallying one more item credits its weight to its key.
pub proof fn lemma_tally_push<K>(items: Seq<(K, nat)>, key: K, weight: nat)
    ensures
        tally(items.push((key, weight))) == credit(tally(items), key, weight),
{
    let more = items.push((key, weight));
    let names = distinct(keys(items));
    assert(more.drop_last() =~= items);
    assert(keys(more).drop_last() =~= keys(items));
    assert(keys(more).last() == key);
    lemma_tally_keys(items);
    lemma_position_bounds(names, key);
    lemma_distinct(keys(items));
    let i = position(names, key);
    if i < names.len() {
        assert(names.contains(key));
        assert forall|j: int| 0 <= j < names.len() && j != i implies names[j] != key by {
            assert(names[i] == key);
        }
        assert(tally(more) =~= tally(items).update(i, (key, tally(items)[i].1 + weight)));
    } else {
        lemma_amount_absent(items, key);
        assert(tally(more) =~= tally(items).push((key, weight)));
    }
}

/// A tally has the mass of its items.
pub proof fn lemma_tally_mass<K>(items: Seq<(K, nat)>)
    ensures
        mass(tally(items)) == mass(items),
    decreases items.len(),
{
    if items.len() == 0 {
        assert(tally(items) =~= Seq::<(K, nat)>::empty());
    } else {
        let front = items.drop_last();
        let item = items.last();
        assert(front.push(item) =~= items);
        lemma_tally_mass(front);
        lemma_tally_push(front, item.0, item.1);
        let sums = tally(front);
        lemma_position_bounds(keys(sums), item.0);
        let i = position(keys(sums), item.0);
        if i < sums.len() {
            lemma_mass_update(sums, i, (item.0, sums[i].1 + item.1));
        } else {
            lemma_mass_insert(sums, sums.len() as int, (item.0, item.1));
            assert(sums.insert(sums.len() as int, (item.0, item.1)) =~= sums.push(
                (item.0, item.1),
            ));
        }
    }
}

/// Every pair counts once for its first part: the followers weigh as much
/// as there are of them, and a first part that occurs has a follower.
pub proof fn lemma_followers<S, T>(pairs: Seq<(S, T)>, first: S)
    ensures
        mass(followers(pairs, first)) == followers(pairs, first).len(),
        followers(pairs, first).len() <= pairs.len(),
        keys(pairs).contains(first) <==> followers(pairs, first).len() > 0,
    decreases pairs.len(),
{
    if pairs.len() > 0 {
        let front = pairs.drop_last();
        lemma_followers(front, first);
        let before = followers(front, first);
        if pairs.last().0 == first {
            assert(before.push((pairs.last().1, 1nat)).drop_last() =~= before);
            assert(keys(pairs)[pairs.len() - 1] == first);
        } else {
            if keys(pairs).contains(first) {
                let i = choose|i: int| 0 <= i < keys(pairs).len() && keys(pairs)[i] == first;
                assert(keys(front)[i] == first);
            }
        }
        if keys(front).contains(first) {
            let i = choose|i: int| 0 <= i < keys(front).len() && keys(front)[i] == first;
            assert(keys(pairs)[i] == first);
        }
    }
}

/// Grouping one more pair enters it into the groups.
pub proof fn lemma_group_push<S, T>(pairs: Seq<(S, T)>, first: S, second: T)
    ensures
        group(pairs.push((first, second))) == enter(group(pairs), first, second),
{
    let more = pairs.push((first, second));
    let names = distinct(keys(pairs));
    assert(more.drop_last() =~= pairs);
    assert(keys(more).drop_last() =~= keys(pairs));
    assert(keys(more).last() == first);
    assert(keys(group(pairs)) =~= names);
    lemma_position_bounds(names, first);
    lemma_distinct(keys(pairs));
    let i = position(names, first);
    lemma_tally_push(followers(pairs, first), second, 1);
    if i < names.len() {
        assert(names.contains(first));
        assert forall|j: int| 0 <= j < names.len() && j != i implies names[j] != first by {
            assert(names[i] == first);
        }
        assert(group(more) =~= group(pairs).update(
            i,
            (first, credit(group(pairs)[i].1, second, 1)),
        ));
    } else {
        lemma_followers(pairs, first);
        assert(followers(pairs, first) =~= Seq::<(T, nat)>::empty());
        assert(tally(followers(pairs, first)) =~= Seq::<(T, nat)>::empty());
        assert(keys(Seq::<(T, nat)>::empty()) =~= Seq::<T>::empty());
        assert(credit(Seq::<(T, nat)>::empty(), second, 1) =~= seq![(second, 1nat)]);
        assert(group(more) =~= group(pairs).push((first, seq![(second, 1nat)])));
    }
}

/// The first parts of the groups are the distinct first parts of the pairs,
/// and each group is the tally of what follows its first part.
pub proof fn lemma_group_keys<S, T>(pairs: Seq<(S, T)>)
    ensures
        keys(group(pairs)) == distinct(keys(pairs)),
        keys(group(pairs)).no_duplicates(),
        group(pairs).len() <= pairs.len(),
        forall|i: int|
            0 <= i < group(pairs).len() ==> (#[trigger] group(pairs)[i]).1 == tally(
                followers(pairs, group(pairs)[i].0),
            ) && keys(pairs).contains(group(pairs)[i].0),
{
    lemma_distinct(keys(pairs));
    assert(keys(group(pairs)) =~= distinct(keys(pairs)));
    assert forall|i: int| 0 <= i < group(pairs).len() implies keys(pairs).contains(
        (#[trigger] group(pairs)[i]).0,
    ) by {
        assert(distinct(keys(pairs))[i] == group(pairs)[i].0);
        assert(distinct(keys(pairs)).contains(group(pairs)[i].0));
    }
}

} // verus!
