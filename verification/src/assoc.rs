//! Association lists as finite maps.
//!
//! Several stores of this crate keep their entries in a vector in which no key
//! occurs twice. This module gives such a list its meaning as a map and proves
//! what pushing, overwriting and removing an entry do to that map.

use vstd::prelude::*;

verus! {

/// No key occurs twice in the list.
pub open spec fn keys_unique<K, V>(s: Seq<(K, V)>) -> bool {
    forall|i: int, j: int| 0 <= i < s.len() && 0 <= j < s.len() && i != j ==> s[i].0 != s[j].0
}

/// Some entry of the list has key `k`.
pub open spec fn has_key<K, V>(s: Seq<(K, V)>, k: K) -> bool {
    exists|i: int| 0 <= i < s.len() && #[trigger] s[i].0 == k
}

/// The position of an entry with key `k`.
pub open spec fn position_of<K, V>(s: Seq<(K, V)>, k: K) -> int {
    choose|i: int| 0 <= i < s.len() && #[trigger] s[i].0 == k
}

/// The map that the list stands for.
pub open spec fn as_map<K, V>(s: Seq<(K, V)>) -> Map<K, V> {
    Map::new(|k: K| has_key(s, k), |k: K| s[position_of(s, k)].1)
}

/// The entry at position `i` is what the map holds for its key.
pub proof fn lemma_lookup<K, V>(s: Seq<(K, V)>, i: int)
    requires
        keys_unique(s),
        0 <= i < s.len(),
    ensures
        as_map(s).dom().contains(s[i].0),
        as_map(s)[s[i].0] == s[i].1,
        position_of(s, s[i].0) == i,
{
    assert(s[i].0 == s[i].0);
    assert(has_key(s, s[i].0));
    let p = position_of(s, s[i].0);
    assert(0 <= p < s.len() && s[p].0 == s[i].0);
}

/// A key that no entry has is not in the map.
pub proof fn lemma_absent_from_map<K, V>(s: Seq<(K, V)>, k: K)
    requires
        !has_key(s, k),
    ensures
        !as_map(s).dom().contains(k),
{
}

/// Pushing an entry with a new key inserts it into the map.
pub proof fn lemma_push<K, V>(s: Seq<(K, V)>, k: K, v: V)
    requires
        keys_unique(s),
        !has_key(s, k),
    ensures
        keys_unique(s.push((k, v))),
        as_map(s.push((k, v))) == as_map(s).insert(k, v),
{
    let t = s.push((k, v));
    assert forall|i: int, j: int| 0 <= i < t.len() && 0 <= j < t.len() && i != j implies t[i].0
        != t[j].0 by {
        if i < s.len() {
            assert(s[i].0 == t[i].0);
        }
        if j < s.len() {
            assert(s[j].0 == t[j].0);
        }
    }
    assert forall|q: K| #[trigger] as_map(t).dom().contains(q) <==> as_map(s).insert(
        k,
        v,
    ).dom().contains(q) by {
        if has_key(t, q) {
            let i = position_of(t, q);
            if i < s.len() {
                assert(s[i].0 == q);
            }
        }
        if has_key(s, q) {
            let i = position_of(s, q);
            assert(t[i].0 == q);
        }
        if q == k {
            assert(t[s.len() as int].0 == k);
        }
    }
    assert forall|q: K| #[trigger] as_map(t).dom().contains(q) implies as_map(t)[q] == as_map(
        s,
    ).insert(k, v)[q] by {
        let i = position_of(t, q);
        lemma_lookup(t, i);
        if i < s.len() {
            assert(s[i] == t[i]);
            lemma_lookup(s, i);
        }
    }
    assert(as_map(t) =~= as_map(s).insert(k, v));
}

/// Putting an entry with a new key at position `pos` inserts it into the map.
pub proof fn lemma_insert_at<K, V>(s: Seq<(K, V)>, pos: int, k: K, v: V)
    requires
        keys_unique(s),
        !has_key(s, k),
        0 <= pos <= s.len(),
    ensures
        keys_unique(s.insert(pos, (k, v))),
        as_map(s.insert(pos, (k, v))) == as_map(s).insert(k, v),
{
    let t = s.insert(pos, (k, v));
    assert forall|a: int| 0 <= a < t.len() && a != pos implies #[trigger] t[a] == s[if a < pos {
        a
    } else {
        a - 1
    }] by {}
    assert forall|i: int, j: int| 0 <= i < t.len() && 0 <= j < t.len() && i != j implies t[i].0
        != t[j].0 by {
        let i2 = if i < pos { i } else { i - 1 };
        let j2 = if j < pos { j } else { j - 1 };
        if i != pos {
            assert(t[i] == s[i2]);
            assert(s[i2].0 == s[i2].0);
        }
        if j != pos {
            assert(t[j] == s[j2]);
            assert(s[j2].0 == s[j2].0);
        }
    }
    assert forall|q: K| #[trigger] as_map(t).dom().contains(q) <==> as_map(s).insert(
        k,
        v,
    ).dom().contains(q) by {
        if has_key(t, q) {
            let i = position_of(t, q);
            if i != pos {
                let i2 = if i < pos { i } else { i - 1 };
                assert(t[i] == s[i2]);
                assert(s[i2].0 == q);
            }
        }
        if has_key(s, q) {
            let i = position_of(s, q);
            let i2 = if i < pos { i } else { i + 1 };
            assert(t[i2] == s[i]);
            assert(t[i2].0 == q);
        }
        if q == k {
            assert(t[pos].0 == k);
        }
    }
    assert forall|q: K| #[trigger] as_map(t).dom().contains(q) implies as_map(t)[q] == as_map(
        s,
    ).insert(k, v)[q] by {
        let i = position_of(t, q);
        lemma_lookup(t, i);
        if i != pos {
            let i2 = if i < pos { i } else { i - 1 };
            assert(t[i] == s[i2]);
            lemma_lookup(s, i2);
        }
    }
    assert(as_map(t) =~= as_map(s).insert(k, v));
}

/// Overwriting the value at position `i` overwrites it in the map.
pub proof fn lemma_update<K, V>(s: Seq<(K, V)>, i: int, v: V)
    requires
        keys_unique(s),
        0 <= i < s.len(),
    ensures
        keys_unique(s.update(i, (s[i].0, v))),
        as_map(s.update(i, (s[i].0, v))) == as_map(s).insert(s[i].0, v),
{
    let k = s[i].0;
    let t = s.update(i, (k, v));
    assert forall|a: int| 0 <= a < s.len() implies (#[trigger] t[a]).0 == s[a].0 by {}
    assert(keys_unique(t));
    assert forall|q: K| #[trigger] as_map(t).dom().contains(q) <==> as_map(s).insert(
        k,
        v,
    ).dom().contains(q) by {
        if has_key(t, q) {
            let a = position_of(t, q);
            assert(s[a].0 == q);
        }
        if has_key(s, q) {
            let a = position_of(s, q);
            assert(t[a].0 == q);
        }
        if q == k {
            assert(t[i].0 == k);
        }
    }
    assert forall|q: K| #[trigger] as_map(t).dom().contains(q) implies as_map(t)[q] == as_map(
        s,
    ).insert(k, v)[q] by {
        let a = position_of(t, q);
        lemma_lookup(t, a);
        if a != i {
            assert(s[a] == t[a]);
            lemma_lookup(s, a);
        }
    }
    assert(as_map(t) =~= as_map(s).insert(k, v));
}

/// Removing the entry at position `i` removes its key from the map.
pub proof fn lemma_remove<K, V>(s: Seq<(K, V)>, i: int)
    requires
        keys_unique(s),
        0 <= i < s.len(),
    ensures
        keys_unique(s.remove(i)),
        as_map(s.remove(i)) == as_map(s).remove(s[i].0),
{
    let k = s[i].0;
    let t = s.remove(i);
    assert forall|a: int| 0 <= a < t.len() implies #[trigger] t[a] == s[if a < i {
        a
    } else {
        a + 1
    }] by {}
    assert forall|a: int, b: int| 0 <= a < t.len() && 0 <= b < t.len() && a != b implies t[a].0
        != t[b].0 by {
        let a2 = if a < i { a } else { a + 1 };
        let b2 = if b < i { b } else { b + 1 };
        assert(t[a] == s[a2]);
        assert(t[b] == s[b2]);
    }
    assert forall|q: K| #[trigger] as_map(t).dom().contains(q) <==> as_map(s).remove(
        k,
    ).dom().contains(q) by {
        if has_key(t, q) {
            let a = position_of(t, q);
            let a2 = if a < i { a } else { a + 1 };
            assert(t[a] == s[a2]);
            assert(s[a2].0 == q);
            assert(a2 != i);
        }
        if has_key(s, q) && q != k {
            let a = position_of(s, q);
            let a2 = if a < i { a } else { a - 1 };
            assert(t[a2] == s[a]);
            assert(t[a2].0 == q);
        }
    }
    assert forall|q: K| #[trigger] as_map(t).dom().contains(q) implies as_map(t)[q] == as_map(
        s,
    ).remove(k)[q] by {
        let a = position_of(t, q);
        lemma_lookup(t, a);
        let a2 = if a < i { a } else { a + 1 };
        assert(t[a] == s[a2]);
        lemma_lookup(s, a2);
    }
    assert(as_map(t) =~= as_map(s).remove(k));
}

/// The empty list stands for the empty map.
pub proof fn lemma_empty<K, V>()
    ensures
        keys_unique(Seq::<(K, V)>::empty()),
        as_map(Seq::<(K, V)>::empty()) == Map::<K, V>::empty(),
{
    assert(as_map(Seq::<(K, V)>::empty()) =~= Map::<K, V>::empty());
}

} // verus!
