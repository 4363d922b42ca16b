//! Sequences read as maps: a sequence whose entries carry distinct keys stands
//! for the map from each key to its entry.

use vstd::prelude::*;

verus! {

/// No two entries carry the same key.
pub open spec fn keys_unique<T, K>(s: Seq<T>, key: spec_fn(T) -> K) -> bool {
    forall|i: int, j: int|
        0 <= i < s.len() && 0 <= j < s.len() && i != j ==> key(#[trigger] s[i]) != key(#[trigger] s[j])
}

/// Some entry carries key `k`.
pub open spec fn has_key<T, K>(s: Seq<T>, key: spec_fn(T) -> K, k: K) -> bool {
    exists|i: int| 0 <= i < s.len() && key(#[trigger] s[i]) == k
}

/// The entry that carries key `k`.
pub open spec fn entry_at<T, K>(s: Seq<T>, key: spec_fn(T) -> K, k: K) -> T {
    s[choose|i: int| 0 <= i < s.len() && key(#[trigger] s[i]) == k]
}

/// The map from each key to the entry that carries it.
pub open spec fn keyed_map<T, K>(s: Seq<T>, key: spec_fn(T) -> K) -> Map<K, T> {
    Map::new(|k: K| has_key(s, key, k), |k: K| entry_at(s, key, k))
}

pub proof fn lemma_entry_at_index<T, K>(s: Seq<T>, key: spec_fn(T) -> K, i: int)
    requires
        keys_unique(s, key),
        0 <= i < s.len(),
    ensures
        has_key(s, key, key(s[i])),
        entry_at(s, key, key(s[i])) == s[i],
        keyed_map(s, key).contains_key(key(s[i])),
        keyed_map(s, key)[key(s[i])] == s[i],
{
    let k = key(s[i]);
    assert(has_key(s, key, k));
    let j = choose|j: int| 0 <= j < s.len() && key(#[trigger] s[j]) == k;
    assert(j == i);
}

/// Inserting an entry with a fresh key adds it to the map.
pub proof fn lemma_keyed_insert<T, K>(s: Seq<T>, key: spec_fn(T) -> K, p: int, x: T)
    requires
        keys_unique(s, key),
        0 <= p <= s.len(),
        !has_key(s, key, key(x)),
    ensures
        keys_unique(s.insert(p, x), key),
        keyed_map(s.insert(p, x), key) == keyed_map(s, key).insert(key(x), x),
{
    let t = s.insert(p, x);
    assert forall|i: int, j: int|
        0 <= i < t.len() && 0 <= j < t.len() && i != j implies key(#[trigger] t[i]) != key(#[trigger] t[j]) by {
        if i != p && j != p {
            let i0 = if i < p { i } else { i - 1 };
            let j0 = if j < p { j } else { j - 1 };
            assert(t[i] == s[i0] && t[j] == s[j0]);
        } else if i == p {
            let j0 = if j < p { j } else { j - 1 };
            assert(t[j] == s[j0]);
        } else {
            let i0 = if i < p { i } else { i - 1 };
            assert(t[i] == s[i0]);
        }
    }
    let m1 = keyed_map(t, key);
    let m2 = keyed_map(s, key).insert(key(x), x);
    assert forall|k: K| m1.contains_key(k) <==> m2.contains_key(k) by {
        if has_key(t, key, k) {
            let i = choose|i: int| 0 <= i < t.len() && key(#[trigger] t[i]) == k;
            if i != p {
                let i0 = if i < p { i } else { i - 1 };
                assert(t[i] == s[i0]);
            }
        }
        if has_key(s, key, k) {
            let i = choose|i: int| 0 <= i < s.len() && key(#[trigger] s[i]) == k;
            let i1 = if i < p { i } else { i + 1 };
            assert(t[i1] == s[i]);
        }
        if k == key(x) {
            assert(t[p] == x);
        }
    }
    assert forall|k: K| #[trigger] m1.contains_key(k) implies m1[k] == m2[k] by {
        let i = choose|i: int| 0 <= i < t.len() && key(#[trigger] t[i]) == k;
        lemma_entry_at_index(t, key, i);
        if i == p {
        } else {
            let i0 = if i < p { i } else { i - 1 };
            assert(t[i] == s[i0]);
            lemma_entry_at_index(s, key, i0);
        }
    }
    assert(m1 =~= m2);
}

/// Replacing an entry by one with the same key updates the map.
pub proof fn lemma_keyed_update<T, K>(s: Seq<T>, key: spec_fn(T) -> K, i: int, x: T)
    requires
        keys_unique(s, key),
        0 <= i < s.len(),
        key(x) == key(s[i]),
    ensures
        keys_unique(s.update(i, x), key),
        keyed_map(s.update(i, x), key) == keyed_map(s, key).insert(key(x), x),
{
    let t = s.update(i, x);
    assert forall|a: int, b: int|
        0 <= a < t.len() && 0 <= b < t.len() && a != b implies key(#[trigger] t[a]) != key(#[trigger] t[b]) by {
        assert(key(t[a]) == key(s[a]));
        assert(key(t[b]) == key(s[b]));
    }
    let m1 = keyed_map(t, key);
    let m2 = keyed_map(s, key).insert(key(x), x);
    assert forall|k: K| m1.contains_key(k) <==> m2.contains_key(k) by {
        if has_key(t, key, k) {
            let a = choose|a: int| 0 <= a < t.len() && key(#[trigger] t[a]) == k;
            assert(key(t[a]) == key(s[a]));
        }
        if has_key(s, key, k) {
            let a = choose|a: int| 0 <= a < s.len() && key(#[trigger] s[a]) == k;
            assert(key(t[a]) == key(s[a]));
        }
        if k == key(x) {
            assert(key(t[i]) == k);
        }
    }
    assert forall|k: K| #[trigger] m1.contains_key(k) implies m1[k] == m2[k] by {
        let a = choose|a: int| 0 <= a < t.len() && key(#[trigger] t[a]) == k;
        lemma_entry_at_index(t, key, a);
        if a != i {
            assert(t[a] == s[a]);
            lemma_entry_at_index(s, key, a);
        }
    }
    assert(m1 =~= m2);
}

/// Removing an entry removes its key from the map.
pub proof fn lemma_keyed_remove<T, K>(s: Seq<T>, key: spec_fn(T) -> K, i: int)
    requires
        keys_unique(s, key),
        0 <= i < s.len(),
    ensures
        keys_unique(s.remove(i), key),
        keyed_map(s.remove(i), key) == keyed_map(s, key).remove(key(s[i])),
{
    let t = s.remove(i);
    assert forall|a: int, b: int|
        0 <= a < t.len() && 0 <= b < t.len() && a != b implies key(#[trigger] t[a]) != key(#[trigger] t[b]) by {
        let a0 = if a < i { a } else { a + 1 };
        let b0 = if b < i { b } else { b + 1 };
        assert(t[a] == s[a0] && t[b] == s[b0]);
    }
    let m1 = keyed_map(t, key);
    let m2 = keyed_map(s, key).remove(key(s[i]));
    assert forall|k: K| m1.contains_key(k) <==> m2.contains_key(k) by {
        if has_key(t, key, k) {
            let a = choose|a: int| 0 <= a < t.len() && key(#[trigger] t[a]) == k;
            let a0 = if a < i { a } else { a + 1 };
            assert(t[a] == s[a0]);
        }
        if has_key(s, key, k) && k != key(s[i]) {
            let a = choose|a: int| 0 <= a < s.len() && key(#[trigger] s[a]) == k;
            let a1 = if a < i { a } else { a - 1 };
            assert(t[a1] == s[a]);
        }
    }
    assert forall|k: K| #[trigger] m1.contains_key(k) implies m1[k] == m2[k] by {
        let a = choose|a: int| 0 <= a < t.len() && key(#[trigger] t[a]) == k;
        lemma_entry_at_index(t, key, a);
        let a0 = if a < i { a } else { a + 1 };
        assert(t[a] == s[a0]);
        lemma_entry_at_index(s, key, a0);
    }
    assert(m1 =~= m2);
}

/// A key that no entry carries is not in the map, and an index with the key
/// is found by the map.
pub proof fn lemma_keyed_absent<T, K>(s: Seq<T>, key: spec_fn(T) -> K, k: K)
    requires
        forall|i: int| 0 <= i < s.len() ==> key(#[trigger] s[i]) != k,
    ensures
        !has_key(s, key, k),
        !keyed_map(s, key).contains_key(k),
{
}

/// Mapping the values commutes with an insert.
pub proof fn lemma_map_values_insert<K, A, B>(m: Map<K, A>, k: K, a: A, f: spec_fn(A) -> B)
    ensures
        m.insert(k, a).map_values(f) == m.map_values(f).insert(k, f(a)),
{
    assert(m.insert(k, a).map_values(f) =~= m.map_values(f).insert(k, f(a)));
}

/// Mapping the values commutes with a removal.
pub proof fn lemma_map_values_remove<K, A, B>(m: Map<K, A>, k: K, f: spec_fn(A) -> B)
    ensures
        m.remove(k).map_values(f) == m.map_values(f).remove(k),
{
    assert(m.remove(k).map_values(f) =~= m.map_values(f).remove(k));
}

/// A sequence with distinct keys has as many keys as entries.
pub proof fn lemma_keyed_len<T, K>(s: Seq<T>, key: spec_fn(T) -> K)
    requires
        keys_unique(s, key),
    ensures
        keyed_map(s, key).dom().finite(),
        keyed_map(s, key).dom().len() == s.len(),
    decreases s.len(),
{
    if s.len() == 0 {
        assert(keyed_map(s, key).dom() =~= Set::<K>::empty());
    } else {
        let d = s.drop_last();
        let x = s.last();
        assert forall|i: int, j: int| 0 <= i < d.len() && 0 <= j < d.len() && i != j implies
            key(#[trigger] d[i]) != key(#[trigger] d[j]) by {
            assert(d[i] == s[i] && d[j] == s[j]);
        }
        lemma_keyed_len(d, key);
        assert forall|i: int| 0 <= i < d.len() implies key(#[trigger] d[i]) != key(x) by {
            assert(d[i] == s[i]);
            assert(x == s[s.len() - 1]);
        }
        lemma_keyed_absent(d, key, key(x));
        lemma_keyed_insert(d, key, d.len() as int, x);
        assert(d.insert(d.len() as int, x) =~= s);
        assert(keyed_map(s, key).dom() =~= keyed_map(d, key).dom().insert(key(x)));
    }
}

/// What a sequence holds after a push.
pub proof fn lemma_push_contains<A>(s: Seq<A>, e: A)
    ensures
        forall|x: A| #[trigger] s.push(e).contains(x) <==> (s.contains(x) || x == e),
{
    assert forall|x: A| #[trigger] s.push(e).contains(x) <==> (s.contains(x) || x == e) by {
        let t = s.push(e);
        if t.contains(x) {
            let i = choose|i: int| 0 <= i < t.len() && t[i] == x;
            if i < s.len() {
                assert(s[i] == x);
            }
        }
        if s.contains(x) {
            let i = choose|i: int| 0 <= i < s.len() && s[i] == x;
            assert(t[i] == x);
        }
        if x == e {
            assert(t[s.len() as int] == x);
        }
    }
}

} // verus!
