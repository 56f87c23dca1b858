use vstd::prelude::*;

verus! {

/// The map that a sequence of entries denotes when each entry binds its key
/// to its value and a later entry overrides an earlier one with the same key.
pub open spec fn last_wins<A, K, V>(s: Seq<A>, key: spec_fn(A) -> K, val: spec_fn(A) -> V) -> Map<K, V>
    decreases s.len(),
{
    if s.len() == 0 {
        Map::empty()
    } else {
        last_wins(s.drop_last(), key, val).insert(key(s.last()), val(s.last()))
    }
}

/// No two entries of `s` have the same key.
pub open spec fn keys_unique<A, K>(s: Seq<A>, key: spec_fn(A) -> K) -> bool {
    forall|a: int, b: int| 0 <= a < s.len() && 0 <= b < s.len() && a != b ==> key(s[a]) != key(s[b])
}

/// No entry of `s` after position `i` has key `k`.
pub open spec fn none_after<A, K>(s: Seq<A>, key: spec_fn(A) -> K, i: int, k: K) -> bool {
    forall|j: int| i < j < s.len() ==> key(#[trigger] s[j]) != k
}

pub proof fn lemma_push<A, K, V>(s: Seq<A>, key: spec_fn(A) -> K, val: spec_fn(A) -> V, a: A)
    ensures
        last_wins(s.push(a), key, val) == last_wins(s, key, val).insert(key(a), val(a)),
{
    assert(s.push(a).drop_last() =~= s);
}

pub proof fn lemma_absent<A, K, V>(s: Seq<A>, key: spec_fn(A) -> K, val: spec_fn(A) -> V, k: K)
    requires
        none_after(s, key, -1, k),
    ensures
        !last_wins(s, key, val).contains_key(k),
    decreases s.len(),
{
    if s.len() > 0 {
        lemma_absent(s.drop_last(), key, val, k);
        assert(key(s[s.len() - 1]) != k);
    }
}

pub proof fn lemma_lookup<A, K, V>(s: Seq<A>, key: spec_fn(A) -> K, val: spec_fn(A) -> V, i: int)
    requires
        0 <= i < s.len(),
        none_after(s, key, i, key(s[i])),
    ensures
        last_wins(s, key, val).contains_key(key(s[i])),
        last_wins(s, key, val)[key(s[i])] == val(s[i]),
    decreases s.len(),
{
    if i < s.len() - 1 {
        lemma_lookup(s.drop_last(), key, val, i);
        assert(key(s[s.len() - 1]) != key(s[i]));
    }
}

/// Where `k` is bound, some entry has key `k`.
pub proof fn lemma_present<A, K, V>(s: Seq<A>, key: spec_fn(A) -> K, val: spec_fn(A) -> V, k: K)
    requires
        last_wins(s, key, val).contains_key(k),
    ensures
        exists|i: int| 0 <= i < s.len() && key(s[i]) == k,
{
    if !(exists|i: int| 0 <= i < s.len() && key(s[i]) == k) {
        lemma_absent(s, key, val, k);
    }
}

/// Where `k` is bound, some entry has key `k` and no later entry does.
pub proof fn lemma_last_index<A, K, V>(s: Seq<A>, key: spec_fn(A) -> K, val: spec_fn(A) -> V, k: K)
    requires
        last_wins(s, key, val).contains_key(k),
    ensures
        exists|i: int| 0 <= i < s.len() && key(s[i]) == k && none_after(s, key, i, k),
    decreases s.len(),
{
    if key(s.last()) == k {
        assert(none_after(s, key, s.len() - 1, k));
        assert(key(s[s.len() - 1]) == k);
    } else {
        lemma_last_index(s.drop_last(), key, val, k);
        let i = choose|i: int| 0 <= i < s.len() - 1 && key(s.drop_last()[i]) == k && none_after(s.drop_last(), key, i, k);
        assert(s[i] == s.drop_last()[i]);
        assert forall|j: int| i < j < s.len() implies key(#[trigger] s[j]) != k by {
            if j < s.len() - 1 {
                assert(s[j] == s.drop_last()[j]);
            }
        }
        assert(0 <= i < s.len() && key(s[i]) == k && none_after(s, key, i, k));
    }
}

pub proof fn lemma_update<A, K, V>(s: Seq<A>, key: spec_fn(A) -> K, val: spec_fn(A) -> V, i: int, a: A)
    requires
        0 <= i < s.len(),
        key(a) == key(s[i]),
        none_after(s, key, i, key(s[i])),
    ensures
        last_wins(s.update(i, a), key, val) == last_wins(s, key, val).insert(key(a), val(a)),
    decreases s.len(),
{
    let t = s.update(i, a);
    if i == s.len() - 1 {
        assert(t.drop_last() =~= s.drop_last());
        assert(last_wins(t, key, val) =~= last_wins(s, key, val).insert(key(a), val(a)));
    } else {
        assert(t.drop_last() =~= s.drop_last().update(i, a));
        lemma_update(s.drop_last(), key, val, i, a);
        assert(key(s[s.len() - 1]) != key(a));
        assert(last_wins(t, key, val) =~= last_wins(s, key, val).insert(key(a), val(a)));
    }
}

pub proof fn lemma_remove<A, K, V>(s: Seq<A>, key: spec_fn(A) -> K, val: spec_fn(A) -> V, i: int)
    requires
        0 <= i < s.len(),
        keys_unique(s, key),
    ensures
        last_wins(s.remove(i), key, val) == last_wins(s, key, val).remove(key(s[i])),
        keys_unique(s.remove(i), key),
    decreases s.len(),
{
    let t = s.remove(i);
    let k = key(s[i]);
    if i == s.len() - 1 {
        assert(t =~= s.drop_last());
        lemma_absent(s.drop_last(), key, val, k);
        assert(last_wins(t, key, val) =~= last_wins(s, key, val).remove(k));
    } else {
        assert(t.drop_last() =~= s.drop_last().remove(i));
        lemma_remove(s.drop_last(), key, val, i);
        assert(key(s[s.len() - 1]) != k);
        assert(last_wins(t, key, val) =~= last_wins(s, key, val).remove(k));
    }
}

/// How many entries of `s` have key `k`.
pub open spec fn count_key<A, K>(s: Seq<A>, key: spec_fn(A) -> K, k: K) -> nat
    decreases s.len(),
{
    if s.len() == 0 {
        0
    } else if key(s.last()) == k {
        count_key(s.drop_last(), key, k) + 1
    } else {
        count_key(s.drop_last(), key, k)
    }
}

/// Where keys are unique, a key occurs at most once, and once exactly where
/// some entry holds it.
pub proof fn lemma_count_unique<A, K>(s: Seq<A>, key: spec_fn(A) -> K, k: K)
    requires
        keys_unique(s, key),
    ensures
        count_key(s, key, k) <= 1,
        count_key(s, key, k) == 1 <==> exists|i: int| 0 <= i < s.len() && key(s[i]) == k,
    decreases s.len(),
{
    if s.len() > 0 {
        let t = s.drop_last();
        assert forall|a: int, b: int| 0 <= a < t.len() && 0 <= b < t.len() && a != b implies key(t[a]) != key(t[b]) by {
            assert(t[a] == s[a] && t[b] == s[b]);
        }
        lemma_count_unique(t, key, k);
        if key(s.last()) == k {
            if exists|i: int| 0 <= i < t.len() && key(t[i]) == k {
                let i = choose|i: int| 0 <= i < t.len() && key(t[i]) == k;
                assert(s[i] == t[i]);
                assert(key(s[i]) == key(s[s.len() - 1]));
            }
            assert(key(s[s.len() - 1]) == k);
        } else {
            if exists|i: int| 0 <= i < s.len() && key(s[i]) == k {
                let i = choose|i: int| 0 <= i < s.len() && key(s[i]) == k;
                assert(i != s.len() - 1);
                assert(t[i] == s[i]);
            }
            if exists|i: int| 0 <= i < t.len() && key(t[i]) == k {
                let i = choose|i: int| 0 <= i < t.len() && key(t[i]) == k;
                assert(t[i] == s[i]);
            }
        }
    }
}

} // verus!
