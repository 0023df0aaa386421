use vstd::prelude::*;

verus! {

/// Some entry of `s` binds the key `k`.
pub open spec fn al_contains<K, V>(s: Seq<(K, V)>, k: K) -> bool {
    exists|i: int| 0 <= i < s.len() && s[i].0 == k
}

/// Index of the entry binding `k`; meaningful only under [`al_contains`].
pub open spec fn al_idx<K, V>(s: Seq<(K, V)>, k: K) -> int {
    choose|i: int| 0 <= i < s.len() && s[i].0 == k
}

/// The value bound to `k`, if any.
pub open spec fn al_find<K, V>(s: Seq<(K, V)>, k: K) -> Option<V> {
    if al_contains(s, k) {
        Some(s[al_idx(s, k)].1)
    } else {
        None
    }
}

/// All keys of `s` are distinct.
pub open spec fn al_unique<K, V>(s: Seq<(K, V)>) -> bool {
    forall|i: int, j: int| 0 <= i < j < s.len() ==> s[i].0 != s[j].0
}

/// Under distinct keys, an entry `(k, v)` at any index is what lookup finds.
pub proof fn lemma_al_find_some<K, V>(s: Seq<(K, V)>, k: K, i: int)
    requires
        al_unique(s),
        0 <= i < s.len(),
        s[i].0 == k,
    ensures
        al_contains(s, k),
        al_idx(s, k) == i,
        al_find(s, k) == Some(s[i].1),
{
    assert(al_contains(s, k));
    let j = al_idx(s, k);
    assert(0 <= j < s.len() && s[j].0 == k);
    if j != i {
        if j < i {
            assert(s[j].0 != s[i].0);
        } else {
            assert(s[i].0 != s[j].0);
        }
        assert(false);
    }
}

/// A key bound by no entry is not found.
pub proof fn lemma_al_find_none<K, V>(s: Seq<(K, V)>, k: K)
    requires
        forall|i: int| 0 <= i < s.len() ==> s[i].0 != k,
    ensures
        al_find(s, k) == None::<V>,
{
}

/// Appending a binding for a fresh key adds exactly that binding.
pub proof fn lemma_al_push<K, V>(s: Seq<(K, V)>, k: K, v: V)
    requires
        al_unique(s),
        !al_contains(s, k),
    ensures
        al_unique(s.push((k, v))),
        al_find(s.push((k, v)), k) == Some(v),
        forall|k2: K| k2 != k ==> al_find(s.push((k, v)), k2) == al_find(s, k2),
{
    let t = s.push((k, v));
    assert(forall|m: int| 0 <= m < s.len() ==> t[m] == s[m]);
    assert(t[s.len() as int] == (k, v));
    assert(al_unique(t));
    lemma_al_find_some(t, k, s.len() as int);
    assert forall|k2: K| k2 != k implies al_find(t, k2) == al_find(s, k2) by {
        if al_contains(s, k2) {
            let j = al_idx(s, k2);
            lemma_al_find_some(s, k2, j);
            lemma_al_find_some(t, k2, j);
        } else {
            lemma_al_find_none(s, k2);
            assert(forall|m: int| 0 <= m < t.len() ==> (#[trigger] t[m]).0 != k2);
            lemma_al_find_none(t, k2);
        }
    }
}

/// Rebinding the key at index `i` changes that key's value and no other.
pub proof fn lemma_al_update<K, V>(s: Seq<(K, V)>, i: int, v: V)
    requires
        al_unique(s),
        0 <= i < s.len(),
    ensures
        al_unique(s.update(i, (s[i].0, v))),
        al_find(s.update(i, (s[i].0, v)), s[i].0) == Some(v),
        forall|k2: K| k2 != s[i].0 ==> al_find(s.update(i, (s[i].0, v)), k2) == al_find(s, k2),
{
    let k = s[i].0;
    let t = s.update(i, (k, v));
    assert(forall|m: int| 0 <= m < s.len() && m != i ==> t[m] == s[m]);
    assert(t[i] == (k, v));
    assert(forall|m: int| 0 <= m < t.len() ==> (#[trigger] t[m]).0 == s[m].0);
    assert(al_unique(t));
    lemma_al_find_some(t, k, i);
    assert forall|k2: K| k2 != k implies al_find(t, k2) == al_find(s, k2) by {
        if al_contains(s, k2) {
            let j = al_idx(s, k2);
            lemma_al_find_some(s, k2, j);
            lemma_al_find_some(t, k2, j);
        } else {
            lemma_al_find_none(s, k2);
            assert(forall|m: int| 0 <= m < t.len() ==> (#[trigger] t[m]).0 != k2);
            lemma_al_find_none(t, k2);
        }
    }
}

/// Removing the entry at index `i` unbinds its key and no other.
pub proof fn lemma_al_remove<K, V>(s: Seq<(K, V)>, i: int)
    requires
        al_unique(s),
        0 <= i < s.len(),
    ensures
        al_unique(s.remove(i)),
        al_find(s.remove(i), s[i].0) == None::<V>,
        forall|k2: K| k2 != s[i].0 ==> al_find(s.remove(i), k2) == al_find(s, k2),
{
    let k = s[i].0;
    let t = s.remove(i);
    s.remove_ensures(i);
    assert(forall|m: int| 0 <= m < i ==> t[m] == s[m]);
    assert(forall|m: int| i <= m < t.len() ==> t[m] == s[m + 1]);
    assert forall|a: int, b: int| 0 <= a < b < t.len() implies t[a].0 != t[b].0 by {
        let a2 = if a < i { a } else { a + 1 };
        let b2 = if b < i { b } else { b + 1 };
        assert(s[a2].0 != s[b2].0);
    }
    assert forall|m: int| 0 <= m < t.len() implies (#[trigger] t[m]).0 != k by {
        let m2 = if m < i { m } else { m + 1 };
        assert(t[m] == s[m2]);
        assert(m2 != i);
    }
    lemma_al_find_none(t, k);
    assert forall|k2: K| k2 != k implies al_find(t, k2) == al_find(s, k2) by {
        if al_contains(s, k2) {
            let j = al_idx(s, k2);
            lemma_al_find_some(s, k2, j);
            if j < i {
                lemma_al_find_some(t, k2, j);
            } else {
                assert(t[j - 1] == s[j]);
                lemma_al_find_some(t, k2, j - 1);
            }
        } else {
            lemma_al_find_none(s, k2);
            assert forall|m: int| 0 <= m < t.len() implies (#[trigger] t[m]).0 != k2 by {
                let m2 = if m < i { m } else { m + 1 };
                assert(t[m] == s[m2]);
            }
            lemma_al_find_none(t, k2);
        }
    }
}

} // verus!
