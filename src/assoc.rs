//! Association lists: sequences of (key, value) pairs read as finite maps, the
//! later pair winning. With distinct keys, each pair is exactly one map entry.
use vstd::prelude::*;

verus! {

/// The map that an association list denotes.
pub open spec fn assoc_map<K, V>(e: Seq<(K, V)>) -> Map<K, V>
    decreases e.len(),
{
    if e.len() == 0 {
        Map::empty()
    } else {
        assoc_map(e.drop_last()).insert(e.last().0, e.last().1)
    }
}

/// No key occurs twice.
pub open spec fn keys_unique<K, V>(e: Seq<(K, V)>) -> bool {
    forall|i: int, j: int| 0 <= i < j < e.len() ==> e[i].0 != e[j].0
}

/// The map holds exactly the keys of the list.
pub proof fn lemma_assoc_domain<K, V>(e: Seq<(K, V)>, k: K)
    ensures
        assoc_map(e).contains_key(k) <==> exists|i: int| 0 <= i < e.len() && e[i].0 == k,
    decreases e.len(),
{
    if e.len() > 0 {
        let init = e.drop_last();
        lemma_assoc_domain(init, k);
        if assoc_map(e).contains_key(k) {
            if k != e.last().0 {
                let i = choose|i: int| 0 <= i < init.len() && init[i].0 == k;
                assert(e[i] == init[i]);
            }
        }
        if exists|i: int| 0 <= i < e.len() && e[i].0 == k {
            let i = choose|i: int| 0 <= i < e.len() && e[i].0 == k;
            if i < init.len() {
                assert(init[i] == e[i]);
            }
        }
    }
}

/// With distinct keys, the map gives each pair's value for its key.
pub proof fn lemma_assoc_lookup<K, V>(e: Seq<(K, V)>, i: int)
    requires
        keys_unique(e),
        0 <= i < e.len(),
    ensures
        assoc_map(e).contains_key(e[i].0),
        assoc_map(e)[e[i].0] == e[i].1,
    decreases e.len(),
{
    let init = e.drop_last();
    if i < e.len() - 1 {
        assert(init[i] == e[i]);
        lemma_assoc_lookup(init, i);
    }
}

/// A list is empty exactly when its map is.
pub proof fn lemma_assoc_empty<K, V>(e: Seq<(K, V)>)
    ensures
        (e.len() == 0) <==> (assoc_map(e) == Map::<K, V>::empty()),
{
    if e.len() > 0 {
        assert(assoc_map(e).contains_key(e.last().0));
        assert(!Map::<K, V>::empty().contains_key(e.last().0));
    }
}

/// Replacing the value of one pair updates that key alone.
pub proof fn lemma_assoc_update<K, V>(e: Seq<(K, V)>, i: int, v: V)
    requires
        keys_unique(e),
        0 <= i < e.len(),
    ensures
        keys_unique(e.update(i, (e[i].0, v))),
        assoc_map(e.update(i, (e[i].0, v))) == assoc_map(e).insert(e[i].0, v),
    decreases e.len(),
{
    let e2 = e.update(i, (e[i].0, v));
    let init = e.drop_last();
    assert(keys_unique(e2)) by {
        assert forall|a: int, b: int| 0 <= a < b < e2.len() implies e2[a].0 != e2[b].0 by {
            assert(e2[a].0 == e[a].0);
            assert(e2[b].0 == e[b].0);
        }
    }
    if i == e.len() - 1 {
        assert(e2.drop_last() =~= init);
        assert(assoc_map(e2) =~= assoc_map(e).insert(e[i].0, v));
    } else {
        assert(e2.drop_last() =~= init.update(i, (init[i].0, v)));
        lemma_assoc_update(init, i, v);
        assert(e[i].0 != e.last().0);
        assert(assoc_map(e2) =~= assoc_map(e).insert(e[i].0, v));
    }
}

/// Appending a pair with a new key keeps the keys distinct.
pub proof fn lemma_assoc_push<K, V>(e: Seq<(K, V)>, k: K, v: V)
    requires
        keys_unique(e),
        !assoc_map(e).contains_key(k),
    ensures
        keys_unique(e.push((k, v))),
        assoc_map(e.push((k, v))) == assoc_map(e).insert(k, v),
{
    let e2 = e.push((k, v));
    assert(e2.drop_last() =~= e);
    assert forall|a: int, b: int| 0 <= a < b < e2.len() implies e2[a].0 != e2[b].0 by {
        if b == e.len() {
            if e[a].0 == k {
                lemma_assoc_domain(e, k);
            }
        } else {
            assert(e2[a] == e[a] && e2[b] == e[b]);
        }
    }
}

/// Removing one pair removes that key alone.
pub proof fn lemma_assoc_remove<K, V>(e: Seq<(K, V)>, i: int)
    requires
        keys_unique(e),
        0 <= i < e.len(),
    ensures
        keys_unique(e.remove(i)),
        assoc_map(e.remove(i)) == assoc_map(e).remove(e[i].0),
    decreases e.len(),
{
    let e2 = e.remove(i);
    let init = e.drop_last();
    assert forall|a: int, b: int| 0 <= a < b < e2.len() implies e2[a].0 != e2[b].0 by {
        let a0 = if a < i { a } else { a + 1 };
        let b0 = if b < i { b } else { b + 1 };
        assert(e2[a] == e[a0] && e2[b] == e[b0]);
    }
    if i == e.len() - 1 {
        assert(e2 =~= init);
        if assoc_map(init).contains_key(e[i].0) {
            lemma_assoc_domain(init, e[i].0);
            let j = choose|j: int| 0 <= j < init.len() && init[j].0 == e[i].0;
            assert(e[j] == init[j]);
        }
        assert(assoc_map(e2) =~= assoc_map(e).remove(e[i].0));
    } else {
        assert(e2 =~= init.remove(i).push(e.last()));
        assert(e2.drop_last() =~= init.remove(i));
        assert(init[i] == e[i]);
        lemma_assoc_remove(init, i);
        assert(e[i].0 != e.last().0);
        assert(assoc_map(e2) =~= assoc_map(e).remove(e[i].0));
    }
}

/// Applying `f` to every value of the list applies it to every value of the map.
pub proof fn lemma_assoc_map_values<K, V, W>(e: Seq<(K, V)>, f: spec_fn(V) -> W)
    ensures
        assoc_map(e.map_values(|p: (K, V)| (p.0, f(p.1)))) == assoc_map(e).map_values(f),
        keys_unique(e) ==> keys_unique(e.map_values(|p: (K, V)| (p.0, f(p.1)))),
    decreases e.len(),
{
    let g = |p: (K, V)| (p.0, f(p.1));
    if e.len() == 0 {
        assert(e.map_values(g) =~= Seq::<(K, W)>::empty());
        assert(assoc_map(e).map_values(f) =~= Map::<K, W>::empty());
    } else {
        lemma_assoc_map_values(e.drop_last(), f);
        assert(e.map_values(g).drop_last() =~= e.drop_last().map_values(g));
        assert(assoc_map(e.map_values(g)) =~= assoc_map(e).map_values(f));
    }
    if keys_unique(e) {
        assert forall|i: int, j: int| 0 <= i < j < e.len() implies e.map_values(g)[i].0 != e.map_values(
            g,
        )[j].0 by {
            assert(e[i].0 != e[j].0);
        }
    }
}

/// The position of the last pair with key `k`, if any.
pub open spec fn find_index<K, V>(e: Seq<(K, V)>, k: K) -> Option<int>
    decreases e.len(),
{
    if e.len() == 0 {
        None
    } else if e.last().0 == k {
        Some(e.len() - 1)
    } else {
        find_index(e.drop_last(), k)
    }
}

/// With distinct keys, the pair with key `e[i].0` is at `i`.
pub proof fn lemma_find_index<K, V>(e: Seq<(K, V)>, i: int)
    requires
        keys_unique(e),
        0 <= i < e.len(),
    ensures
        find_index(e, e[i].0) == Some(i),
    decreases e.len(),
{
    if i < e.len() - 1 {
        let init = e.drop_last();
        assert(init[i] == e[i]);
        lemma_find_index(init, i);
    }
}

/// A key outside the map is found nowhere.
pub proof fn lemma_find_absent<K, V>(e: Seq<(K, V)>, k: K)
    requires
        !assoc_map(e).contains_key(k),
    ensures
        find_index(e, k) == None::<int>,
    decreases e.len(),
{
    if e.len() > 0 {
        lemma_find_absent(e.drop_last(), k);
    }
}

/// Lists with the same keys at the same positions find a key at the same place.
pub proof fn lemma_find_same_keys<K, V, W>(a: Seq<(K, V)>, b: Seq<(K, W)>, k: K)
    requires
        a.len() == b.len(),
        forall|i: int| 0 <= i < a.len() ==> a[i].0 == b[i].0,
    ensures
        find_index(a, k) == find_index(b, k),
        assoc_map(a).contains_key(k) == assoc_map(b).contains_key(k),
        keys_unique(a) == keys_unique(b),
    decreases a.len(),
{
    if a.len() > 0 {
        lemma_find_same_keys(a.drop_last(), b.drop_last(), k);
        assert(a.last().0 == b.last().0);
    }
}

/// A found position is in range and holds the key.
pub proof fn lemma_find_found<K, V>(e: Seq<(K, V)>, k: K)
    ensures
        match find_index(e, k) {
            Some(i) => 0 <= i < e.len() && e[i].0 == k,
            None => true,
        },
    decreases e.len(),
{
    if e.len() > 0 && e.last().0 != k {
        lemma_find_found(e.drop_last(), k);
        if let Some(i) = find_index(e.drop_last(), k) {
            assert(e[i] == e.drop_last()[i]);
        }
    }
}

} // verus!
