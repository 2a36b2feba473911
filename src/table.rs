//! Tables keyed by debug-info offset, held as sequences of (key, value) pairs
//! with distinct keys, in the order of first insertion.

use vstd::prelude::*;

verus! {

/// No two pairs of `s` share a key.
pub open spec fn keys_unique<V>(s: Seq<(usize, V)>) -> bool {
    forall|i: int, j: int|
        0 <= i < s.len() && 0 <= j < s.len() && #[trigger] s[i].0 == #[trigger] s[j].0 ==> i == j
}

/// Some pair of `s` has key `k`.
pub open spec fn has_key<V>(s: Seq<(usize, V)>, k: usize) -> bool {
    exists|i: int| 0 <= i < s.len() && #[trigger] s[i].0 == k
}

/// The position of the pair with key `k`.
pub open spec fn key_index<V>(s: Seq<(usize, V)>, k: usize) -> int {
    choose|i: int| 0 <= i < s.len() && #[trigger] s[i].0 == k
}

/// The value stored under `k`.
pub open spec fn lookup<V>(s: Seq<(usize, V)>, k: usize) -> Option<V> {
    if has_key(s, k) {
        Some(s[key_index(s, k)].1)
    } else {
        None
    }
}

/// `s` with `v` stored under `k`: in place where `k` is present, appended
/// otherwise.
pub open spec fn insert_key<V>(s: Seq<(usize, V)>, k: usize, v: V) -> Seq<(usize, V)> {
    if has_key(s, k) {
        s.update(key_index(s, k), (k, v))
    } else {
        s.push((k, v))
    }
}

/// `s` with `f` applied to every value.
pub open spec fn map_table<V, W>(s: Seq<(usize, V)>, f: spec_fn(V) -> W) -> Seq<(usize, W)> {
    s.map_values(|p: (usize, V)| (p.0, f(p.1)))
}

/// Where `k` is at position `i`, that is the position `key_index` names.
pub proof fn lemma_key_index<V>(s: Seq<(usize, V)>, k: usize, i: int)
    requires
        keys_unique(s),
        0 <= i < s.len(),
        s[i].0 == k,
    ensures
        has_key(s, k),
        key_index(s, k) == i,
        lookup(s, k) == Some(s[i].1),
{
    let j = key_index(s, k);
    assert(s[j].0 == s[i].0);
}

/// Inserting keeps the keys distinct, and stores the value.
pub proof fn lemma_insert<V>(s: Seq<(usize, V)>, k: usize, v: V)
    requires
        keys_unique(s),
    ensures
        keys_unique(insert_key(s, k, v)),
        lookup(insert_key(s, k, v), k) == Some(v),
        forall|k2: usize| k2 != k ==> lookup(insert_key(s, k, v), k2) == lookup(s, k2),
{
    let t = insert_key(s, k, v);
    if has_key(s, k) {
        let i = key_index(s, k);
        assert(keys_unique(t)) by {
            assert forall|a: int, b: int|
                0 <= a < t.len() && 0 <= b < t.len() && #[trigger] t[a].0 == #[trigger] t[b].0 implies a
                == b by {
                assert(t[a].0 == s[a].0);
                assert(t[b].0 == s[b].0);
            }
        }
        lemma_key_index(t, k, i);
        assert forall|k2: usize| k2 != k implies lookup(t, k2) == lookup(s, k2) by {
            if has_key(s, k2) {
                let j = key_index(s, k2);
                lemma_key_index(t, k2, j);
            } else {
                if has_key(t, k2) {
                    let j = key_index(t, k2);
                    assert(s[j].0 == k2);
                }
            }
        }
    } else {
        assert(keys_unique(t)) by {
            assert forall|a: int, b: int|
                0 <= a < t.len() && 0 <= b < t.len() && #[trigger] t[a].0 == #[trigger] t[b].0 implies a
                == b by {
                if a < s.len() && b < s.len() {
                    assert(t[a].0 == s[a].0);
                    assert(t[b].0 == s[b].0);
                } else if a < s.len() {
                    assert(s[a].0 == k);
                } else if b < s.len() {
                    assert(s[b].0 == k);
                }
            }
        }
        lemma_key_index(t, k, s.len() as int);
        assert forall|k2: usize| k2 != k implies lookup(t, k2) == lookup(s, k2) by {
            if has_key(s, k2) {
                let j = key_index(s, k2);
                lemma_key_index(t, k2, j);
            } else {
                if has_key(t, k2) {
                    let j = key_index(t, k2);
                    assert(s[j].0 == k2);
                }
            }
        }
    }
}

/// Applying `f` to the values keeps the keys, and commutes with lookup and
/// insertion.
pub proof fn lemma_map_table<V, W>(s: Seq<(usize, V)>, f: spec_fn(V) -> W, k: usize, v: V)
    requires
        keys_unique(s),
    ensures
        keys_unique(map_table(s, f)),
        has_key(map_table(s, f), k) == has_key(s, k),
        lookup(map_table(s, f), k) == match lookup(s, k) {
            Some(x) => Some(f(x)),
            None => None,
        },
        map_table(insert_key(s, k, v), f) == insert_key(map_table(s, f), k, f(v)),
{
    let t = map_table(s, f);
    assert(keys_unique(t)) by {
        assert forall|a: int, b: int|
            0 <= a < t.len() && 0 <= b < t.len() && #[trigger] t[a].0 == #[trigger] t[b].0 implies a
            == b by {
            assert(t[a].0 == s[a].0);
            assert(t[b].0 == s[b].0);
        }
    }
    if has_key(s, k) {
        let i = key_index(s, k);
        lemma_key_index(t, k, i);
        assert(map_table(insert_key(s, k, v), f) =~= insert_key(t, k, f(v)));
    } else {
        if has_key(t, k) {
            let j = key_index(t, k);
            assert(s[j].0 == k);
        }
        assert(map_table(insert_key(s, k, v), f) =~= insert_key(t, k, f(v)));
    }
}

/// The position of key `k` in `v`, if it is there.
pub fn find_key<V>(v: &Vec<(usize, V)>, k: usize) -> (r: Option<usize>)
    ensures
        r matches Some(i) ==> i < v@.len() && v@[i as int].0 == k,
        r is None ==> !has_key(v@, k),
{
    let mut i: usize = 0;
    while i < v.len()
        invariant
            i <= v@.len(),
            forall|j: int| 0 <= j < i ==> #[trigger] v@[j].0 != k,
        decreases v@.len() - i,
    {
        if v[i].0 == k {
            return Some(i);
        }
        i = i + 1;
    }
    None
}

/// Stores `val` under `k`: in place where `k` is present, appended otherwise.
pub fn insert_entry<V>(v: &mut Vec<(usize, V)>, k: usize, val: V)
    requires
        keys_unique(old(v)@),
    ensures
        final(v)@ == insert_key(old(v)@, k, val),
        keys_unique(final(v)@),
{
    proof {
        lemma_insert(v@, k, val);
    }
    match find_key(v, k) {
        Some(i) => {
            proof {
                lemma_key_index(v@, k, i as int);
            }
            v.set(i, (k, val));
        },
        None => {
            v.push((k, val));
        },
    }
}

} // verus!
