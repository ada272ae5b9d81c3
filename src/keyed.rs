use vstd::prelude::*;

verus! {

/// The map that sends each key of `keys` to the value at the same position of `vals`.
pub open spec fn keyed_map<K, V>(keys: Seq<K>, vals: Seq<V>) -> Map<K, V> {
    Map::new(
        |k: K| keys.contains(k),
        |k: K| vals[choose|i: int| 0 <= i < keys.len() && keys[i] == k],
    )
}

/// `m` has exactly the keys of `keys`, each with the value at its position in `vals`.
pub open spec fn describes<K, V>(keys: Seq<K>, vals: Seq<V>, m: Map<K, V>) -> bool {
    &&& forall|i: int|
        0 <= i < keys.len() ==> m.contains_key(#[trigger] keys[i]) && m[keys[i]] == vals[i]
    &&& forall|k: K| m.contains_key(k) ==> keys.contains(k)
}

pub proof fn lemma_keyed_map_describes<K, V>(keys: Seq<K>, vals: Seq<V>)
    requires
        keys.no_duplicates(),
        keys.len() == vals.len(),
    ensures
        describes(keys, vals, keyed_map(keys, vals)),
{
    let m = keyed_map(keys, vals);
    assert forall|i: int| 0 <= i < keys.len() implies m.contains_key(#[trigger] keys[i]) && m[keys[i]]
        == vals[i] by {
        assert(keys.contains(keys[i]));
        let j = choose|j: int| 0 <= j < keys.len() && keys[j] == keys[i];
        assert(i == j);
    }
}

pub proof fn lemma_describes_keyed_map<K, V>(keys: Seq<K>, vals: Seq<V>, m: Map<K, V>)
    requires
        keys.no_duplicates(),
        keys.len() == vals.len(),
        describes(keys, vals, m),
    ensures
        keyed_map(keys, vals) == m,
{
    let v = keyed_map(keys, vals);
    lemma_keyed_map_describes(keys, vals);
    assert forall|k: K| #[trigger] v.contains_key(k) <==> m.contains_key(k) by {
        if v.contains_key(k) {
            let i = choose|i: int| 0 <= i < keys.len() && keys[i] == k;
            assert(m.contains_key(keys[i]));
        }
    }
    assert forall|k: K| v.contains_key(k) implies #[trigger] v[k] == m[k] by {
        let i = choose|i: int| 0 <= i < keys.len() && keys[i] == k;
        assert(m[keys[i]] == vals[i]);
    }
    assert(v =~= m);
}

} // verus!
