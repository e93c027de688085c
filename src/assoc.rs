//! Association lists with distinct keys, read as maps.

use vstd::prelude::*;

verus! {

/// No key occurs twice.
pub open spec fn keys_unique<K, V>(s: Seq<(K, V)>) -> bool {
    forall|i: int, j: int| 0 <= i < j < s.len() ==> s[i].0 != s[j].0
}

/// Whether some pair has key `k`.
pub open spec fn has_key<K, V>(s: Seq<(K, V)>, k: K) -> bool {
    exists|i: int| 0 <= i < s.len() && s[i].0 == k
}

/// The map of a list of pairs; a later pair wins.
pub open spec fn assoc<K, V>(s: Seq<(K, V)>) -> Map<K, V>
    decreases s.len(),
{
    if s.len() == 0 {
        Map::empty()
    } else {
        assoc(s.drop_last()).insert(s.last().0, s.last().1)
    }
}

pub proof fn lemma_assoc_dom<K, V>(s: Seq<(K, V)>, k: K)
    ensures
        assoc(s).contains_key(k) == has_key(s, k),
    decreases s.len(),
{
    if s.len() > 0 {
        lemma_assoc_dom(s.drop_last(), k);
        if has_key(s, k) && s.last().0 != k {
            let i = choose|i: int| 0 <= i < s.len() && s[i].0 == k;
            assert(s.drop_last()[i] == s[i]);
        }
        if has_key(s.drop_last(), k) {
            let i = choose|i: int| 0 <= i < s.len() - 1 && s.drop_last()[i].0 == k;
            assert(s[i] == s.drop_last()[i]);
        }
        if s.last().0 == k {
            assert(s[s.len() - 1].0 == k);
        }
    }
}

pub proof fn lemma_assoc_index<K, V>(s: Seq<(K, V)>, i: int)
    requires
        keys_unique(s),
        0 <= i < s.len(),
    ensures
        assoc(s).contains_key(s[i].0),
        assoc(s)[s[i].0] == s[i].1,
    decreases s.len(),
{
    if i < s.len() - 1 {
        let t = s.drop_last();
        assert(t[i] == s[i]);
        lemma_assoc_index(t, i);
        assert(s[i].0 != s[s.len() - 1].0);
    }
}

pub proof fn lemma_assoc_push<K, V>(s: Seq<(K, V)>, k: K, v: V)
    requires
        keys_unique(s),
        !has_key(s, k),
    ensures
        keys_unique(s.push((k, v))),
        assoc(s.push((k, v))) == assoc(s).insert(k, v),
{
    let t = s.push((k, v));
    assert(t.drop_last() =~= s);
    assert forall|i: int, j: int| 0 <= i < j < t.len() implies t[i].0 != t[j].0 by {
        if j == s.len() {
            assert(t[i] == s[i]);
        } else {
            assert(t[i] == s[i] && t[j] == s[j]);
        }
    }
}

pub proof fn lemma_assoc_remove<K, V>(s: Seq<(K, V)>, i: int)
    requires
        keys_unique(s),
        0 <= i < s.len(),
    ensures
        keys_unique(s.remove(i)),
        assoc(s.remove(i)) == assoc(s).remove(s[i].0),
{
    let t = s.remove(i);
    let k = s[i].0;
    assert forall|a: int, b: int| 0 <= a < b < t.len() implies t[a].0 != t[b].0 by {
        let a2 = if a < i { a } else { a + 1 };
        let b2 = if b < i { b } else { b + 1 };
        assert(t[a] == s[a2] && t[b] == s[b2]);
    }
    assert forall|x: K| #![auto] assoc(t).contains_key(x) <==> assoc(s).remove(k).contains_key(x) by {
        lemma_assoc_dom(t, x);
        lemma_assoc_dom(s, x);
        if has_key(t, x) {
            let j = choose|j: int| 0 <= j < t.len() && t[j].0 == x;
            let j2 = if j < i { j } else { j + 1 };
            assert(t[j] == s[j2]);
        }
        if has_key(s, x) && x != k {
            let j = choose|j: int| 0 <= j < s.len() && s[j].0 == x;
            if j < i {
                assert(t[j] == s[j]);
            } else {
                assert(t[j - 1] == s[j]);
            }
        }
    }
    assert forall|x: K| assoc(t).contains_key(x) implies assoc(t)[x] == assoc(s).remove(k)[x] by {
        lemma_assoc_dom(t, x);
        let j = choose|j: int| 0 <= j < t.len() && t[j].0 == x;
        let j2 = if j < i { j } else { j + 1 };
        assert(t[j] == s[j2]);
        lemma_assoc_index(t, j);
        lemma_assoc_index(s, j2);
    }
    assert(assoc(t) =~= assoc(s).remove(k));
}

pub proof fn lemma_assoc_update<K, V>(s: Seq<(K, V)>, i: int, v: V)
    requires
        keys_unique(s),
        0 <= i < s.len(),
    ensures
        keys_unique(s.update(i, (s[i].0, v))),
        assoc(s.update(i, (s[i].0, v))) == assoc(s).insert(s[i].0, v),
{
    let t = s.update(i, (s[i].0, v));
    let k = s[i].0;
    assert forall|a: int, b: int| 0 <= a < b < t.len() implies t[a].0 != t[b].0 by {
        assert(t[a].0 == s[a].0 && t[b].0 == s[b].0);
    }
    assert forall|x: K| #![auto] assoc(t).contains_key(x) <==> assoc(s).insert(k, v).contains_key(x) by {
        lemma_assoc_dom(t, x);
        lemma_assoc_dom(s, x);
        if has_key(t, x) {
            let j = choose|j: int| 0 <= j < t.len() && t[j].0 == x;
            assert(t[j].0 == s[j].0);
        }
        if has_key(s, x) {
            let j = choose|j: int| 0 <= j < s.len() && s[j].0 == x;
            assert(t[j].0 == s[j].0);
        }
        if x == k {
            assert(t[i].0 == k);
        }
    }
    assert forall|x: K| assoc(t).contains_key(x) implies assoc(t)[x] == assoc(s).insert(k, v)[x] by {
        lemma_assoc_dom(t, x);
        let j = choose|j: int| 0 <= j < t.len() && t[j].0 == x;
        lemma_assoc_index(t, j);
        if j != i {
            assert(t[j] == s[j]);
            lemma_assoc_index(s, j);
        }
    }
    assert(assoc(t) =~= assoc(s).insert(k, v));
}

} // verus!
