//! Sequences of key-value pairs used as maps: lookups, and the facts the
//! stores rely on when their keys are unique.

use vstd::prelude::*;

verus! {

/// No key occurs twice.
pub open spec fn keys_unique<K, V>(s: Seq<(K, V)>) -> bool {
    forall|i: int, j: int| 0 <= i < s.len() && 0 <= j < s.len() && s[i].0 == s[j].0 ==> i == j
}

pub open spec fn has_key<K, V>(s: Seq<(K, V)>, k: K) -> bool {
    exists|i: int| 0 <= i < s.len() && s[i].0 == k
}

/// The position of key `k` (meaningful when `has_key(s, k)`).
pub open spec fn index_of<K, V>(s: Seq<(K, V)>, k: K) -> int {
    choose|i: int| 0 <= i < s.len() && s[i].0 == k
}

/// The value under key `k` (meaningful when `has_key(s, k)`).
pub open spec fn value_of<K, V>(s: Seq<(K, V)>, k: K) -> V {
    s[index_of(s, k)].1
}

/// The pairs with each value transformed, keys kept in place.
pub open spec fn map_vals<K, V, W>(s: Seq<(K, V)>, f: spec_fn(V) -> W) -> Seq<(K, W)> {
    s.map_values(|e: (K, V)| (e.0, f(e.1)))
}

/// Replace the value under `k`, or append the pair when `k` is absent.
pub open spec fn upsert<K, V>(s: Seq<(K, V)>, k: K, v: V) -> Seq<(K, V)> {
    if has_key(s, k) {
        s.update(index_of(s, k), (k, v))
    } else {
        s.push((k, v))
    }
}

/// The pairs without the one under `k`, order kept.
pub open spec fn remove_key<K, V>(s: Seq<(K, V)>, k: K) -> Seq<(K, V)> {
    if has_key(s, k) {
        s.remove(index_of(s, k))
    } else {
        s
    }
}

pub proof fn lemma_index_of<K, V>(s: Seq<(K, V)>, i: int)
    requires
        keys_unique(s),
        0 <= i < s.len(),
    ensures
        has_key(s, s[i].0),
        index_of(s, s[i].0) == i,
        value_of(s, s[i].0) == s[i].1,
{
    assert(has_key(s, s[i].0));
}

pub proof fn lemma_map_vals<K, V, W>(s: Seq<(K, V)>, f: spec_fn(V) -> W)
    ensures
        map_vals(s, f).len() == s.len(),
        forall|i: int| 0 <= i < s.len() ==> #[trigger] map_vals(s, f)[i] == (s[i].0, f(s[i].1)),
        forall|k: K| has_key(map_vals(s, f), k) == has_key(s, k),
        keys_unique(s) == keys_unique(map_vals(s, f)),
{
    let t = map_vals(s, f);
    assert forall|k: K| has_key(t, k) == has_key(s, k) by {
        if has_key(s, k) {
            let i = choose|i: int| 0 <= i < s.len() && s[i].0 == k;
            assert(t[i].0 == k);
        }
        if has_key(t, k) {
            let i = choose|i: int| 0 <= i < t.len() && t[i].0 == k;
            assert(s[i].0 == k);
        }
    }
    if keys_unique(s) {
        assert forall|i: int, j: int|
            0 <= i < t.len() && 0 <= j < t.len() && t[i].0 == t[j].0 implies i == j by {
            assert(s[i].0 == t[i].0 && s[j].0 == t[j].0);
        }
    }
    if keys_unique(t) {
        assert forall|i: int, j: int|
            0 <= i < s.len() && 0 <= j < s.len() && s[i].0 == s[j].0 implies i == j by {
            assert(s[i].0 == t[i].0 && s[j].0 == t[j].0);
        }
    }
}

pub proof fn lemma_upsert<K, V>(s: Seq<(K, V)>, k: K, v: V)
    requires
        keys_unique(s),
    ensures
        keys_unique(upsert(s, k, v)),
        has_key(upsert(s, k, v), k),
        value_of(upsert(s, k, v), k) == v,
        forall|k2: K| k2 != k ==> has_key(upsert(s, k, v), k2) == has_key(s, k2),
        forall|k2: K|
            k2 != k && has_key(s, k2) ==> value_of(upsert(s, k, v), k2) == value_of(s, k2),
{
    let t = upsert(s, k, v);
    if has_key(s, k) {
        let i = index_of(s, k);
        assert(t[i].0 == k);
        lemma_index_of(t, i);
        assert forall|k2: K| k2 != k implies has_key(t, k2) == has_key(s, k2) by {
            if has_key(s, k2) {
                let j = choose|j: int| 0 <= j < s.len() && s[j].0 == k2;
                assert(t[j].0 == k2);
            }
            if has_key(t, k2) {
                let j = choose|j: int| 0 <= j < t.len() && t[j].0 == k2;
                assert(s[j].0 == k2);
            }
        }
        assert forall|k2: K| k2 != k && has_key(s, k2) implies value_of(t, k2) == value_of(
            s,
            k2,
        ) by {
            let j = index_of(s, k2);
            lemma_index_of(s, j);
            assert(t[j] == s[j]);
            lemma_index_of(t, j);
        }
    } else {
        assert(keys_unique(t)) by {
            assert forall|i: int, j: int|
                0 <= i < t.len() && 0 <= j < t.len() && t[i].0 == t[j].0 implies i == j by {
                if i < s.len() && j < s.len() {
                } else if i < s.len() {
                    assert(s[i].0 == k);
                } else if j < s.len() {
                    assert(s[j].0 == k);
                }
            }
        }
        lemma_index_of(t, s.len() as int);
        assert forall|k2: K| k2 != k implies has_key(t, k2) == has_key(s, k2) by {
            if has_key(s, k2) {
                let j = choose|j: int| 0 <= j < s.len() && s[j].0 == k2;
                assert(t[j].0 == k2);
            }
            if has_key(t, k2) {
                let j = choose|j: int| 0 <= j < t.len() && t[j].0 == k2;
                assert(s[j].0 == k2);
            }
        }
        assert forall|k2: K| k2 != k && has_key(s, k2) implies value_of(t, k2) == value_of(
            s,
            k2,
        ) by {
            let j = index_of(s, k2);
            lemma_index_of(s, j);
            lemma_index_of(t, j);
        }
    }
}

pub proof fn lemma_remove_key<K, V>(s: Seq<(K, V)>, k: K)
    requires
        keys_unique(s),
    ensures
        keys_unique(remove_key(s, k)),
        !has_key(remove_key(s, k), k),
        forall|k2: K| k2 != k ==> has_key(remove_key(s, k), k2) == has_key(s, k2),
        forall|k2: K|
            k2 != k && has_key(s, k2) ==> value_of(remove_key(s, k), k2) == value_of(s, k2),
{
    let t = remove_key(s, k);
    if has_key(s, k) {
        let x = index_of(s, k);
        assert forall|i: int, j: int|
            0 <= i < t.len() && 0 <= j < t.len() && t[i].0 == t[j].0 implies i == j by {
            let si = if i < x { i } else { i + 1 };
            let sj = if j < x { j } else { j + 1 };
            assert(t[i] == s[si] && t[j] == s[sj]);
        }
        assert forall|k2: K| has_key(t, k2) implies k2 != k && has_key(s, k2) by {
            let j = choose|j: int| 0 <= j < t.len() && t[j].0 == k2;
            let sj = if j < x { j } else { j + 1 };
            assert(t[j] == s[sj]);
        }
        assert forall|k2: K| k2 != k && has_key(s, k2) implies has_key(t, k2) && value_of(t, k2)
            == value_of(s, k2) by {
            let j = index_of(s, k2);
            lemma_index_of(s, j);
            let tj = if j < x { j } else { j - 1 };
            assert(t[tj] == s[j]);
            lemma_index_of(t, tj);
        }
    }
}

pub proof fn lemma_map_vals_ops<K, V, W>(s: Seq<(K, V)>, f: spec_fn(V) -> W)
    ensures
        forall|i: int, e: (K, V)|
            0 <= i < s.len() ==> #[trigger] map_vals(s.update(i, e), f) == map_vals(s, f).update(
                i,
                (e.0, f(e.1)),
            ),
        forall|e: (K, V)| #[trigger] map_vals(s.push(e), f) == map_vals(s, f).push((e.0, f(e.1))),
        forall|i: int| 0 <= i < s.len() ==> #[trigger] map_vals(s.remove(i), f) == map_vals(s, f).remove(i),
{
    assert forall|i: int, e: (K, V)| 0 <= i < s.len() implies #[trigger] map_vals(s.update(i, e), f)
        == map_vals(s, f).update(i, (e.0, f(e.1))) by {
        assert(map_vals(s.update(i, e), f) =~= map_vals(s, f).update(i, (e.0, f(e.1))));
    }
    assert forall|e: (K, V)| #[trigger] map_vals(s.push(e), f) == map_vals(s, f).push((e.0, f(e.1))) by {
        assert(map_vals(s.push(e), f) =~= map_vals(s, f).push((e.0, f(e.1))));
    }
    assert forall|i: int| 0 <= i < s.len() implies #[trigger] map_vals(s.remove(i), f) == map_vals(s, f).remove(i) by {
        assert(map_vals(s.remove(i), f) =~= map_vals(s, f).remove(i));
    }
}

} // verus!
