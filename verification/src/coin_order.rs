//! Sequences of gas coins kept in the order of their identifiers, and the
//! insertion of a coin into such a sequence (replacing the coin with the same
//! identifier, if any).

use vstd::prelude::*;
use crate::base_types::{GasCoin, ObjectID, lemma_num_injective};
use crate::keyed::{keys_unique, has_key, keyed_map, lemma_keyed_insert, lemma_keyed_update};

verus! {

/// The identifier that keys a gas coin.
pub open spec fn coin_key() -> spec_fn(GasCoin) -> ObjectID {
    |c: GasCoin| c.object_ref.0
}

/// The coins, by identifier.
pub open spec fn coin_map(s: Seq<GasCoin>) -> Map<ObjectID, GasCoin> {
    keyed_map(s, coin_key())
}

/// The coins' identifiers are strictly increasing.
pub open spec fn coins_sorted(s: Seq<GasCoin>) -> bool {
    forall|i: int, j: int|
        0 <= i < j < s.len() ==> (#[trigger] s[i]).object_ref.0.num() < (#[trigger] s[j]).object_ref.0.num()
}

/// `p` splits `s` into the coins whose identifier is below `x` and the rest.
pub open spec fn is_insertion_point(s: Seq<GasCoin>, x: int, p: int) -> bool {
    &&& 0 <= p <= s.len()
    &&& forall|i: int| 0 <= i < p ==> (#[trigger] s[i]).object_ref.0.num() < x
    &&& forall|i: int| p <= i < s.len() ==> (#[trigger] s[i]).object_ref.0.num() >= x
}

pub open spec fn insertion_point(s: Seq<GasCoin>, x: int) -> int {
    choose|p: int| is_insertion_point(s, x, p)
}

/// `s` with coin `c` put in its place: it replaces the coin with the same
/// identifier, or is inserted where its identifier belongs.
pub open spec fn upsert_coin(s: Seq<GasCoin>, c: GasCoin) -> Seq<GasCoin> {
    let p = insertion_point(s, c.object_ref.0.num());
    if p < s.len() && s[p].object_ref.0 == c.object_ref.0 {
        s.update(p, c)
    } else {
        s.insert(p, c)
    }
}

/// `s` with the coins of `cs` put in their places one after the other, so that a
/// later coin with the same identifier wins.
pub open spec fn upsert_coins(s: Seq<GasCoin>, cs: Seq<GasCoin>) -> Seq<GasCoin>
    decreases cs.len(),
{
    if cs.len() == 0 {
        s
    } else {
        upsert_coin(upsert_coins(s, cs.drop_last()), cs.last())
    }
}

/// The map of coins after putting each coin of `cs` in its place, later ones
/// winning.
pub open spec fn insert_all(m: Map<ObjectID, GasCoin>, cs: Seq<GasCoin>) -> Map<ObjectID, GasCoin>
    decreases cs.len(),
{
    if cs.len() == 0 {
        m
    } else {
        insert_all(m, cs.drop_last()).insert(cs.last().object_ref.0, cs.last())
    }
}

pub proof fn lemma_sorted_keys_unique(s: Seq<GasCoin>)
    requires
        coins_sorted(s),
    ensures
        keys_unique(s, coin_key()),
{
    assert forall|i: int, j: int|
        0 <= i < s.len() && 0 <= j < s.len() && i != j implies (coin_key())(#[trigger] s[i]) != (coin_key())(#[trigger] s[j]) by {
        if i < j {
            assert(s[i].object_ref.0.num() < s[j].object_ref.0.num());
        } else {
            assert(s[j].object_ref.0.num() < s[i].object_ref.0.num());
        }
    }
}

pub proof fn lemma_insertion_point_exists(s: Seq<GasCoin>, x: int)
    requires
        coins_sorted(s),
    ensures
        is_insertion_point(s, x, insertion_point(s, x)),
    decreases s.len(),
{
    if s.len() == 0 {
        assert(is_insertion_point(s, x, 0));
    } else if s.last().object_ref.0.num() < x {
        assert(is_insertion_point(s, x, s.len() as int));
    } else {
        let t = s.drop_last();
        assert(coins_sorted(t));
        lemma_insertion_point_exists(t, x);
        let p = insertion_point(t, x);
        assert forall|i: int| p <= i < s.len() implies (#[trigger] s[i]).object_ref.0.num() >= x by {
            if i < t.len() {
                assert(s[i] == t[i]);
            }
        }
        assert forall|i: int| 0 <= i < p implies (#[trigger] s[i]).object_ref.0.num() < x by {
            assert(s[i] == t[i]);
        }
        assert(is_insertion_point(s, x, p));
    }
}

pub proof fn lemma_insertion_point_unique(s: Seq<GasCoin>, x: int, p: int)
    requires
        coins_sorted(s),
        is_insertion_point(s, x, p),
    ensures
        insertion_point(s, x) == p,
{
    lemma_insertion_point_exists(s, x);
    let q = insertion_point(s, x);
    if q < p {
        assert(s[q].object_ref.0.num() < x);
    } else if p < q {
        assert(s[p].object_ref.0.num() < x);
    }
}

/// Putting a coin in its place keeps the order and updates the map.
pub proof fn lemma_upsert_coin(s: Seq<GasCoin>, c: GasCoin)
    requires
        coins_sorted(s),
    ensures
        coins_sorted(upsert_coin(s, c)),
        coin_map(upsert_coin(s, c)) == coin_map(s).insert(c.object_ref.0, c),
{
    let x = c.object_ref.0.num();
    lemma_insertion_point_exists(s, x);
    lemma_sorted_keys_unique(s);
    let p = insertion_point(s, x);
    let t = upsert_coin(s, c);
    if p < s.len() && s[p].object_ref.0 == c.object_ref.0 {
        lemma_keyed_update(s, coin_key(), p, c);
        assert forall|i: int, j: int| 0 <= i < j < t.len() implies (#[trigger] t[i]).object_ref.0.num() < (#[trigger] t[j]).object_ref.0.num() by {
            assert(t[i].object_ref.0.num() == s[i].object_ref.0.num());
            assert(t[j].object_ref.0.num() == s[j].object_ref.0.num());
        }
    } else {
        if p < s.len() {
            lemma_num_injective(s[p].object_ref.0, c.object_ref.0);
            assert(s[p].object_ref.0.num() > x);
        }
        assert forall|i: int| 0 <= i < s.len() implies (coin_key())(#[trigger] s[i]) != c.object_ref.0 by {
            if i < p {
                assert(s[i].object_ref.0.num() < x);
            } else if i > p {
                assert(s[p].object_ref.0.num() < s[i].object_ref.0.num());
            }
        }
        assert(!has_key(s, coin_key(), c.object_ref.0));
        lemma_keyed_insert(s, coin_key(), p, c);
        assert forall|i: int, j: int| 0 <= i < j < t.len() implies (#[trigger] t[i]).object_ref.0.num() < (#[trigger] t[j]).object_ref.0.num() by {
            if j < p {
                assert(t[i] == s[i] && t[j] == s[j]);
            } else if j == p {
                assert(t[i] == s[i]);
            } else if i < p {
                assert(t[i] == s[i] && t[j] == s[j - 1]);
            } else if i == p {
                assert(t[j] == s[j - 1]);
            } else {
                assert(t[i] == s[i - 1] && t[j] == s[j - 1]);
            }
        }
    }
}

/// Putting several coins in their places keeps the order and updates the map.
pub proof fn lemma_upsert_coins(s: Seq<GasCoin>, cs: Seq<GasCoin>)
    requires
        coins_sorted(s),
    ensures
        coins_sorted(upsert_coins(s, cs)),
        coin_map(upsert_coins(s, cs)) == insert_all(coin_map(s), cs),
    decreases cs.len(),
{
    if cs.len() > 0 {
        lemma_upsert_coins(s, cs.drop_last());
        lemma_upsert_coin(upsert_coins(s, cs.drop_last()), cs.last());
    }
}

/// Putting the coins of `a` and then of `b` is putting those of `a + b`.
pub proof fn lemma_upsert_coins_append(s: Seq<GasCoin>, a: Seq<GasCoin>, b: Seq<GasCoin>)
    ensures
        upsert_coins(upsert_coins(s, a), b) == upsert_coins(s, a + b),
    decreases b.len(),
{
    if b.len() == 0 {
        assert(a + b =~= a);
    } else {
        lemma_upsert_coins_append(s, a, b.drop_last());
        assert((a + b).drop_last() =~= a + b.drop_last());
        assert((a + b).last() == b.last());
    }
}

} // verus!
