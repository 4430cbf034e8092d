//! Association lists with unique keys, viewed as finite maps, and sums of
//! sequences of counts.  The pool keeps its registry and its distribution as
//! such lists; the contracts speak of the map each list stands for.

use vstd::prelude::*;

verus! {

/// The finite map an association list stands for; a later entry wins.
pub open spec fn as_map<V>(s: Seq<(u64, V)>) -> Map<u64, V>
    decreases s.len(),
{
    if s.len() == 0 {
        Map::empty()
    } else {
        as_map(s.drop_last()).insert(s.last().0, s.last().1)
    }
}

/// Some entry of the list carries the key `k`.
pub open spec fn has_key<V>(s: Seq<(u64, V)>, k: u64) -> bool {
    exists|i: int| 0 <= i < s.len() && (#[trigger] s[i]).0 == k
}

/// No two entries carry the same key.
pub open spec fn keys_unique<V>(s: Seq<(u64, V)>) -> bool {
    forall|i: int, j: int|
        0 <= i < j < s.len() ==> (#[trigger] s[i]).0 != (#[trigger] s[j]).0
}

/// The map's domain is exactly the set of keys on the list.
pub proof fn lemma_as_map_dom<V>(s: Seq<(u64, V)>)
    ensures
        forall|k: u64| as_map(s).dom().contains(k) <==> has_key(s, k),
    decreases s.len(),
{
    if s.len() == 0 {
    } else {
        lemma_as_map_dom(s.drop_last());
        assert(forall|i: int| 0 <= i < s.len() - 1 ==> s.drop_last()[i] == #[trigger] s[i]);
        assert forall|k: u64| as_map(s).dom().contains(k) <==> has_key(s, k) by {
            if as_map(s).dom().contains(k) {
                if k == s.last().0 {
                    assert(0 <= s.len() - 1 < s.len() && (s[s.len() - 1]).0 == k);
                } else {
                    assert(has_key(s.drop_last(), k));
                    let i = choose|i: int|
                        0 <= i < s.drop_last().len() && (#[trigger] s.drop_last()[i]).0 == k;
                    assert(0 <= i < s.len() && (s[i]).0 == k);
                }
            }
            if has_key(s, k) {
                let i = choose|i: int| 0 <= i < s.len() && (#[trigger] s[i]).0 == k;
                if i == s.len() - 1 {
                    assert(k == s.last().0);
                } else {
                    assert((s.drop_last()[i]).0 == k);
                    assert(has_key(s.drop_last(), k));
                }
            }
        }
    }
}

/// On a list with unique keys, the map agrees with each entry.
pub proof fn lemma_as_map_index<V>(s: Seq<(u64, V)>, i: int)
    requires
        keys_unique(s),
        0 <= i < s.len(),
    ensures
        as_map(s).dom().contains(s[i].0),
        as_map(s)[s[i].0] == s[i].1,
    decreases s.len(),
{
    if i == s.len() - 1 {
    } else {
        assert(s[i].0 != s.last().0);
        assert(s.drop_last()[i] == s[i]);
        lemma_as_map_index(s.drop_last(), i);
    }
}

/// Appending an entry with a fresh key extends the map and keeps the keys
/// unique.
pub proof fn lemma_as_map_push<V>(s: Seq<(u64, V)>, k: u64, v: V)
    requires
        keys_unique(s),
        !has_key(s, k),
    ensures
        as_map(s.push((k, v))) == as_map(s).insert(k, v),
        keys_unique(s.push((k, v))),
{
    let t = s.push((k, v));
    assert(t.drop_last() =~= s);
    assert forall|i: int, j: int| 0 <= i < j < t.len() implies (#[trigger] t[i]).0
        != (#[trigger] t[j]).0 by {
        if j == t.len() - 1 {
            assert(t[i] == s[i]);
        }
    }
}

/// Removing the entry at `i` removes its key from the map.
pub proof fn lemma_as_map_remove<V>(s: Seq<(u64, V)>, i: int)
    requires
        keys_unique(s),
        0 <= i < s.len(),
    ensures
        as_map(s.remove(i)) == as_map(s).remove(s[i].0),
        keys_unique(s.remove(i)),
        !has_key(s.remove(i), s[i].0),
    decreases s.len(),
{
    let k = s[i].0;
    let r = s.remove(i);
    assert forall|a: int, b: int| 0 <= a < b < r.len() implies (#[trigger] r[a]).0
        != (#[trigger] r[b]).0 by {
        let a0: int = if a < i { a } else { a + 1 };
        let b0: int = if b < i { b } else { b + 1 };
        assert(r[a] == s[a0] && r[b] == s[b0]);
    }
    assert forall|j: int| 0 <= j < r.len() implies (#[trigger] r[j]).0 != k by {
        let j0: int = if j < i { j } else { j + 1 };
        assert(r[j] == s[j0] && j0 != i);
    }
    lemma_as_map_dom(s.drop_last());
    if i == s.len() - 1 {
        assert(r =~= s.drop_last());
        assert forall|j: int| 0 <= j < s.drop_last().len() implies (#[trigger] s.drop_last()[j]).0
            != k by {
            assert(s.drop_last()[j] == s[j]);
            assert(s[j].0 != s[i].0);
        }
        assert(!has_key(s.drop_last(), k));
        assert(!as_map(s.drop_last()).dom().contains(k));
        assert(as_map(s.drop_last()).insert(k, s[i].1).remove(k) =~= as_map(s.drop_last()));
    } else {
        assert(s.drop_last()[i] == s[i]);
        lemma_as_map_remove(s.drop_last(), i);
        assert(r.drop_last() =~= s.drop_last().remove(i));
        assert(r.last() == s.last());
        assert(as_map(r) == as_map(s.drop_last()).remove(k).insert(s.last().0, s.last().1));
        assert(s.last().0 != k);
        assert(as_map(s.drop_last()).remove(k).insert(s.last().0, s.last().1) =~= as_map(
            s.drop_last(),
        ).insert(s.last().0, s.last().1).remove(k));
    }
}

/// A list with unique keys has as many entries as its map has keys.
pub proof fn lemma_as_map_len<V>(s: Seq<(u64, V)>)
    requires
        keys_unique(s),
    ensures
        as_map(s).dom().finite(),
        as_map(s).dom().len() == s.len(),
    decreases s.len(),
{
    if s.len() == 0 {
        assert(as_map(s).dom() =~= Set::<u64>::empty());
    } else {
        lemma_as_map_len(s.drop_last());
        lemma_as_map_dom(s.drop_last());
        assert forall|j: int| 0 <= j < s.drop_last().len() implies (#[trigger] s.drop_last()[j]).0
            != s.last().0 by {
            assert(s.drop_last()[j] == s[j]);
            assert(s[j].0 != s[s.len() - 1].0);
        }
        assert(!has_key(s.drop_last(), s.last().0));
        assert(!as_map(s.drop_last()).dom().contains(s.last().0));
        assert(as_map(s).dom() =~= as_map(s.drop_last()).dom().insert(s.last().0));
    }
}

/// Appending any entry overwrites its key in the map.
pub proof fn lemma_as_map_append<V>(s: Seq<(u64, V)>, k: u64, v: V)
    ensures
        as_map(s.push((k, v))) == as_map(s).insert(k, v),
{
    assert(s.push((k, v)).drop_last() =~= s);
}

/// The map agrees with the last entry bearing a key.
pub proof fn lemma_as_map_latest<V>(s: Seq<(u64, V)>, i: int)
    requires
        0 <= i < s.len(),
        forall|j: int| i < j < s.len() ==> (#[trigger] s[j]).0 != s[i].0,
    ensures
        as_map(s).dom().contains(s[i].0),
        as_map(s)[s[i].0] == s[i].1,
    decreases s.len(),
{
    if i == s.len() - 1 {
    } else {
        assert(s[s.len() - 1].0 != s[i].0);
        assert(s.drop_last()[i] == s[i]);
        assert forall|j: int| i < j < s.drop_last().len() implies (#[trigger] s.drop_last()[j]).0
            != s.drop_last()[i].0 by {
            assert(s.drop_last()[j] == s[j]);
        }
        lemma_as_map_latest(s.drop_last(), i);
    }
}

/// The entries of `s`, in order, without those bearing `k`.
pub open spec fn erase_key<V>(s: Seq<(u64, V)>, k: u64) -> Seq<(u64, V)> {
    s.filter(|e: (u64, V)| e.0 != k)
}

/// Dropping every entry bearing `k` removes `k` from the map and nothing
/// else.
pub proof fn lemma_as_map_erase<V>(s: Seq<(u64, V)>, k: u64)
    ensures
        as_map(erase_key(s, k)) == as_map(s).remove(k),
    decreases s.len(),
{
    reveal_with_fuel(Seq::filter, 2);
    if s.len() == 0 {
        assert(erase_key(s, k) =~= s);
        assert(as_map(s).remove(k) =~= Map::<u64, V>::empty());
    } else {
        lemma_as_map_erase(s.drop_last(), k);
        let fdrop = erase_key(s.drop_last(), k);
        if s.last().0 != k {
            assert(erase_key(s, k) == fdrop.push(s.last()));
            assert(fdrop.push(s.last()).drop_last() =~= fdrop);
            assert(as_map(erase_key(s, k)) == as_map(fdrop).insert(s.last().0, s.last().1));
            assert(as_map(s.drop_last()).remove(k).insert(s.last().0, s.last().1) =~= as_map(
                s.drop_last(),
            ).insert(s.last().0, s.last().1).remove(k));
        } else {
            assert(erase_key(s, k) == fdrop);
            assert(as_map(s.drop_last()).remove(k) =~= as_map(s.drop_last()).insert(
                s.last().0,
                s.last().1,
            ).remove(k));
        }
    }
}

/// The position of the last entry carrying `k`, if one is on the list.
pub fn index_of_key_last<V>(v: &Vec<(u64, V)>, k: u64) -> (r: Option<usize>)
    ensures
        match r {
            Some(i) => i < v@.len() && v@[i as int].0 == k && (forall|j: int|
                i < j < v@.len() ==> (#[trigger] v@[j]).0 != k),
            None => !has_key(v@, k),
        },
{
    let mut found: Option<usize> = None;
    let mut i: usize = 0;
    while i < v.len()
        invariant
            i <= v@.len(),
            match found {
                Some(f) => f < i && v@[f as int].0 == k && (forall|j: int|
                    f < j < i ==> (#[trigger] v@[j]).0 != k),
                None => forall|j: int| 0 <= j < i ==> (#[trigger] v@[j]).0 != k,
            },
        decreases v@.len() - i,
    {
        if v[i].0 == k {
            found = Some(i);
        }
        i = i + 1;
    }
    found
}

/// The sum of a sequence of counts.
pub open spec fn sum_counts(s: Seq<nat>) -> nat
    decreases s.len(),
{
    if s.len() == 0 {
        0
    } else {
        sum_counts(s.drop_last()) + s.last()
    }
}

/// Appending a count adds it to the sum.
pub proof fn lemma_sum_counts_push(s: Seq<nat>, v: nat)
    ensures
        sum_counts(s.push(v)) == sum_counts(s) + v,
{
    assert(s.push(v).drop_last() =~= s);
}

/// Removing a count takes exactly it out of the sum; in particular no single
/// count exceeds the sum.
pub proof fn lemma_sum_counts_remove(s: Seq<nat>, i: int)
    requires
        0 <= i < s.len(),
    ensures
        sum_counts(s) == sum_counts(s.remove(i)) + s[i],
    decreases s.len(),
{
    if i == s.len() - 1 {
        assert(s.remove(i) =~= s.drop_last());
    } else {
        lemma_sum_counts_remove(s.drop_last(), i);
        assert(s.remove(i).drop_last() =~= s.drop_last().remove(i));
        assert(s.drop_last()[i] == s[i]);
        assert(s.remove(i).last() == s.last());
    }
}

/// The position of the entry carrying `k`, if one is on the list.
pub fn index_of_key<V>(v: &Vec<(u64, V)>, k: u64) -> (r: Option<usize>)
    ensures
        match r {
            Some(i) => i < v@.len() && v@[i as int].0 == k,
            None => !has_key(v@, k),
        },
{
    let mut i: usize = 0;
    while i < v.len()
        invariant
            i <= v@.len(),
            forall|j: int| 0 <= j < i ==> (#[trigger] v@[j]).0 != k,
        decreases v@.len() - i,
    {
        if v[i].0 == k {
            return Some(i);
        }
        i = i + 1;
    }
    None
}

} // verus!
