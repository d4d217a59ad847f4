//! Association lists: a `Seq` of `(key, value)` pairs read as a map.
use vstd::prelude::*;

verus! {

/// No two entries of `s` carry the same key (compared by view).
pub open spec fn keys_distinct<K: View, V>(s: Seq<(K, V)>) -> bool {
    forall|i: int, j: int|
        0 <= i < s.len() && 0 <= j < s.len() && i != j ==> #[trigger] s[i].0@ != #[trigger] s[j].0@
}

/// The map that an association list stands for; a later entry wins over an
/// earlier one with the same key.
pub open spec fn to_map<K: View, V: View>(s: Seq<(K, V)>) -> Map<K::V, V::V>
    decreases s.len(),
{
    if s.len() == 0 {
        Map::empty()
    } else {
        to_map(s.drop_last()).insert(s.last().0@, s.last().1@)
    }
}

/// Some entry of `s` has key `k`.
pub open spec fn has_key<K: View, V>(s: Seq<(K, V)>, k: K::V) -> bool {
    exists|i: int| 0 <= i < s.len() && #[trigger] s[i].0@ == k
}

pub proof fn lemma_to_map_dom<K: View, V: View>(s: Seq<(K, V)>, k: K::V)
    ensures
        to_map(s).contains_key(k) <==> has_key(s, k),
    decreases s.len(),
{
    if s.len() > 0 {
        lemma_to_map_dom(s.drop_last(), k);
        if has_key(s, k) && s.last().0@ != k {
            let i = choose|i: int| 0 <= i < s.len() && #[trigger] s[i].0@ == k;
            assert(s.drop_last()[i].0@ == k);
        }
        if has_key(s.drop_last(), k) {
            let i = choose|i: int| 0 <= i < s.drop_last().len() && #[trigger] s.drop_last()[i].0@ == k;
            assert(s[i].0@ == k);
        }
        if s.last().0@ == k {
            assert(s[s.len() - 1].0@ == k);
        }
    }
}

pub proof fn lemma_to_map_at<K: View, V: View>(s: Seq<(K, V)>, i: int)
    requires
        keys_distinct(s),
        0 <= i < s.len(),
    ensures
        to_map(s).contains_key(s[i].0@),
        to_map(s)[s[i].0@] == s[i].1@,
    decreases s.len(),
{
    if i < s.len() - 1 {
        let t = s.drop_last();
        assert(t[i] == s[i]);
        assert(s[s.len() - 1].0@ != s[i].0@);
        assert(keys_distinct(t)) by {
            assert forall|a: int, b: int|
                0 <= a < t.len() && 0 <= b < t.len() && a != b implies #[trigger] t[a].0@
                != #[trigger] t[b].0@ by {
                assert(t[a] == s[a] && t[b] == s[b]);
            }
        }
        lemma_to_map_at(t, i);
    }
}

pub proof fn lemma_to_map_push<K: View, V: View>(s: Seq<(K, V)>, x: (K, V))
    ensures
        to_map(s.push(x)) == to_map(s).insert(x.0@, x.1@),
{
    assert(s.push(x).drop_last() =~= s);
}

/// Keys are still distinct after pushing an entry whose key is new.
pub proof fn lemma_push_distinct<K: View, V>(s: Seq<(K, V)>, x: (K, V))
    requires
        keys_distinct(s),
        !has_key(s, x.0@),
    ensures
        keys_distinct(s.push(x)),
{
    let t = s.push(x);
    assert forall|a: int, b: int|
        0 <= a < t.len() && 0 <= b < t.len() && a != b implies #[trigger] t[a].0@
        != #[trigger] t[b].0@ by {
        if a == s.len() {
            assert(t[b] == s[b]);
        } else if b == s.len() {
            assert(t[a] == s[a]);
        } else {
            assert(t[a] == s[a] && t[b] == s[b]);
        }
    }
}

/// Replacing the entry at `i` by one with the same key updates that key of the map.
pub proof fn lemma_to_map_update<K: View, V: View>(s: Seq<(K, V)>, i: int, x: (K, V))
    requires
        keys_distinct(s),
        0 <= i < s.len(),
        x.0@ == s[i].0@,
    ensures
        keys_distinct(s.update(i, x)),
        to_map(s.update(i, x)) == to_map(s).insert(x.0@, x.1@),
{
    let t = s.update(i, x);
    assert forall|a: int, b: int|
        0 <= a < t.len() && 0 <= b < t.len() && a != b implies #[trigger] t[a].0@
        != #[trigger] t[b].0@ by {
        assert(t[a].0@ == s[a].0@ && t[b].0@ == s[b].0@);
    }
    let m = to_map(s).insert(x.0@, x.1@);
    assert forall|k: K::V| to_map(t).contains_key(k) <==> m.contains_key(k) by {
        lemma_to_map_dom(t, k);
        lemma_to_map_dom(s, k);
        if has_key(s, k) {
            let j = choose|j: int| 0 <= j < s.len() && #[trigger] s[j].0@ == k;
            assert(t[j].0@ == k);
        }
        if has_key(t, k) {
            let j = choose|j: int| 0 <= j < t.len() && #[trigger] t[j].0@ == k;
            assert(s[j].0@ == k);
        }
    }
    assert forall|k: K::V| #[trigger] to_map(t).contains_key(k) implies to_map(t)[k] == m[k] by {
        lemma_to_map_dom(t, k);
        let j = choose|j: int| 0 <= j < t.len() && #[trigger] t[j].0@ == k;
        lemma_to_map_at(t, j);
        if j != i {
            lemma_to_map_at(s, j);
        }
    }
    assert(to_map(t) =~= m);
}

/// Removing the entry at `i` removes its key from the map.
pub proof fn lemma_to_map_remove<K: View, V: View>(s: Seq<(K, V)>, i: int)
    requires
        keys_distinct(s),
        0 <= i < s.len(),
    ensures
        keys_distinct(s.remove(i)),
        to_map(s.remove(i)) == to_map(s).remove(s[i].0@),
{
    let t = s.remove(i);
    assert forall|a: int, b: int|
        0 <= a < t.len() && 0 <= b < t.len() && a != b implies #[trigger] t[a].0@
        != #[trigger] t[b].0@ by {
        let a2 = if a < i { a } else { a + 1 };
        let b2 = if b < i { b } else { b + 1 };
        assert(t[a] == s[a2] && t[b] == s[b2]);
    }
    let m = to_map(s).remove(s[i].0@);
    assert forall|k: K::V| to_map(t).contains_key(k) <==> m.contains_key(k) by {
        lemma_to_map_dom(t, k);
        lemma_to_map_dom(s, k);
        if has_key(s, k) && k != s[i].0@ {
            let j = choose|j: int| 0 <= j < s.len() && #[trigger] s[j].0@ == k;
            let j2 = if j < i { j } else { j - 1 };
            assert(t[j2] == s[j]);
        }
        if has_key(t, k) {
            let j = choose|j: int| 0 <= j < t.len() && #[trigger] t[j].0@ == k;
            let j2 = if j < i { j } else { j + 1 };
            assert(t[j] == s[j2]);
        }
    }
    assert forall|k: K::V| #[trigger] to_map(t).contains_key(k) implies to_map(t)[k] == m[k] by {
        lemma_to_map_dom(t, k);
        let j = choose|j: int| 0 <= j < t.len() && #[trigger] t[j].0@ == k;
        let j2 = if j < i { j } else { j + 1 };
        assert(t[j] == s[j2]);
        lemma_to_map_at(t, j);
        lemma_to_map_at(s, j2);
    }
    assert(to_map(t) =~= m);
}

/// Inserting an entry with a new key at any position adds that key.
pub proof fn lemma_to_map_insert<K: View, V: View>(s: Seq<(K, V)>, p: int, x: (K, V))
    requires
        keys_distinct(s),
        !has_key(s, x.0@),
        0 <= p <= s.len(),
    ensures
        keys_distinct(s.insert(p, x)),
        to_map(s.insert(p, x)) == to_map(s).insert(x.0@, x.1@),
{
    let t = s.insert(p, x);
    assert forall|a: int, b: int|
        0 <= a < t.len() && 0 <= b < t.len() && a != b implies #[trigger] t[a].0@
        != #[trigger] t[b].0@ by {
        if a == p {
            let b2 = if b < p { b } else { b - 1 };
            assert(t[b] == s[b2]);
        } else if b == p {
            let a2 = if a < p { a } else { a - 1 };
            assert(t[a] == s[a2]);
        } else {
            let a2 = if a < p { a } else { a - 1 };
            let b2 = if b < p { b } else { b - 1 };
            assert(t[a] == s[a2] && t[b] == s[b2]);
        }
    }
    let m = to_map(s).insert(x.0@, x.1@);
    assert forall|k: K::V| to_map(t).contains_key(k) <==> m.contains_key(k) by {
        lemma_to_map_dom(t, k);
        lemma_to_map_dom(s, k);
        if has_key(s, k) {
            let j = choose|j: int| 0 <= j < s.len() && #[trigger] s[j].0@ == k;
            let j2 = if j < p { j } else { j + 1 };
            assert(t[j2] == s[j]);
        }
        if k == x.0@ {
            assert(t[p] == x);
        }
        if has_key(t, k) {
            let j = choose|j: int| 0 <= j < t.len() && #[trigger] t[j].0@ == k;
            if j != p {
                let j2 = if j < p { j } else { j - 1 };
                assert(t[j] == s[j2]);
            }
        }
    }
    assert forall|k: K::V| #[trigger] to_map(t).contains_key(k) implies to_map(t)[k] == m[k] by {
        lemma_to_map_dom(t, k);
        let j = choose|j: int| 0 <= j < t.len() && #[trigger] t[j].0@ == k;
        lemma_to_map_at(t, j);
        if j != p {
            let j2 = if j < p { j } else { j - 1 };
            assert(t[j] == s[j2]);
            lemma_to_map_at(s, j2);
        }
    }
    assert(to_map(t) =~= m);
}

} // verus!
