//! The order in which lists are handed out: by decreasing count, then by
//! text; with equal counts this is the order of names.

use crate::data_server::text::{text_less, text_lt};
use vstd::prelude::*;

verus! {

/// A sort key: a count and a text.
pub open spec fn key_view(k: (usize, String)) -> (int, Seq<char>) {
    (k.0 as int, k.1@)
}

/// `a` comes strictly before `b`: a larger count, or the same count and a
/// text that comes first.
pub open spec fn ranks_before(a: (int, Seq<char>), b: (int, Seq<char>)) -> bool {
    a.0 > b.0 || (a.0 == b.0 && text_lt(a.1, b.1))
}

/// `order` lists each position below `n` exactly once.
pub open spec fn is_permutation(order: Seq<usize>, n: int) -> bool {
    &&& order.len() == n
    &&& order.no_duplicates()
    &&& forall|k: int| 0 <= k < order.len() ==> #[trigger] order[k] < n
    &&& forall|j: usize| j < n ==> #[trigger] order.contains(j)
}

/// Taking the keys in the order `order` never puts a key after one that
/// should come after it.
pub open spec fn is_ranked(keys: Seq<(int, Seq<char>)>, order: Seq<usize>) -> bool {
    forall|k: int, l: int|
        0 <= k < l < order.len() ==> !ranks_before(keys[order[l] as int], keys[order[k] as int])
}

pub proof fn lemma_text_lt_irreflexive(a: Seq<char>)
    ensures
        !text_lt(a, a),
    decreases a.len(),
{
    if a.len() > 0 {
        lemma_text_lt_irreflexive(a.drop_first());
    }
}

pub proof fn lemma_text_lt_transitive(a: Seq<char>, b: Seq<char>, c: Seq<char>)
    requires
        text_lt(a, b),
        text_lt(b, c),
    ensures
        text_lt(a, c),
    decreases a.len(),
{
    if a.len() > 0 && b.len() > 0 && c.len() > 0 && a[0] == b[0] && b[0] == c[0] {
        lemma_text_lt_transitive(a.drop_first(), b.drop_first(), c.drop_first());
    }
}

pub proof fn lemma_ranks_before_order(a: (int, Seq<char>), b: (int, Seq<char>), c: (int, Seq<char>))
    ensures
        !ranks_before(a, a),
        ranks_before(a, b) && ranks_before(b, c) ==> ranks_before(a, c),
{
    lemma_text_lt_irreflexive(a.1);
    if ranks_before(a, b) && ranks_before(b, c) && a.0 == b.0 && b.0 == c.0 {
        lemma_text_lt_transitive(a.1, b.1, c.1);
    }
}

/// Whether key `a` comes strictly before key `b`.
pub fn rank_less(a: &(usize, String), b: &(usize, String)) -> (r: bool)
    ensures
        r == ranks_before(key_view(*a), key_view(*b)),
{
    if a.0 != b.0 {
        a.0 > b.0
    } else {
        text_less(&a.1, &b.1)
    }
}

/// The positions of the keys, in ranked order (an insertion sort; equal keys
/// keep their relative order).
pub fn rank_order(keys: &Vec<(usize, String)>) -> (order: Vec<usize>)
    ensures
        is_permutation(order@, keys@.len() as int),
        is_ranked(keys@.map_values(|k: (usize, String)| key_view(k)), order@),
{
    let ghost kv = keys@.map_values(|k: (usize, String)| key_view(k));
    let mut order: Vec<usize> = Vec::new();
    let mut i: usize = 0;
    while i < keys.len()
        invariant
            i <= keys@.len(),
            kv == keys@.map_values(|k: (usize, String)| key_view(k)),
            order@.len() == i,
            order@.no_duplicates(),
            forall|k: int| 0 <= k < order@.len() ==> #[trigger] order@[k] < i,
            forall|j: usize| j < i ==> #[trigger] order@.contains(j),
            is_ranked(kv, order@),
        decreases keys.len() - i,
    {
        let mut k: usize = 0;
        while k < order.len() && !rank_less(&keys[i], &keys[order[k]])
            invariant
                i < keys@.len(),
                kv == keys@.map_values(|k: (usize, String)| key_view(k)),
                k <= order@.len(),
                forall|m: int| 0 <= m < order@.len() ==> #[trigger] order@[m] < i,
                forall|m: int| 0 <= m < k ==> !ranks_before(kv[i as int], kv[#[trigger] order@[m] as int]),
            decreases order.len() - k,
        {
            k = k + 1;
        }
        let ghost old_order = order@;
        order.insert(k, i);
        proof {
            assert(order@ == old_order.insert(k as int, i));
            assert forall|j: usize| j < i + 1 implies #[trigger] order@.contains(j) by {
                if j == i {
                    assert(order@[k as int] == i);
                } else {
                    assert(old_order.contains(j));
                    let m = choose|m: int| 0 <= m < old_order.len() && old_order[m] == j;
                    if m < k {
                        assert(order@[m] == j);
                    } else {
                        assert(order@[m + 1] == j);
                    }
                }
            }
            assert forall|a: int, b: int| 0 <= a < order@.len() && 0 <= b < order@.len() && a != b implies order@[a] != order@[b] by {
                let oa = if a < k { a } else { a - 1 };
                let ob = if b < k { b } else { b - 1 };
                if a != k as int && b != k as int {
                    assert(order@[a] == old_order[oa] && order@[b] == old_order[ob]);
                } else if a == k as int {
                    assert(order@[b] == old_order[ob]);
                } else {
                    assert(order@[a] == old_order[oa]);
                }
            }
            assert forall|a: int, b: int| 0 <= a < b < order@.len() implies !ranks_before(kv[order@[b] as int], kv[order@[a] as int]) by {
                let oa = if a < k { a } else { a - 1 };
                let ob = if b < k { b } else { b - 1 };
                if a == k as int {
                    // the new key is followed by old keys from position k on
                    assert(order@[b] == old_order[ob]);
                    assert(ob >= k);
                    let x = kv[i as int];
                    let e = kv[old_order[ob] as int];
                    let f = kv[old_order[k as int] as int];
                    assert(ranks_before(x, f));
                    lemma_ranks_before_order(e, x, f);
                    if ob > k {
                        assert(!ranks_before(e, f));
                    } else {
                        lemma_ranks_before_order(x, e, x);
                    }
                } else if b == k as int {
                    assert(order@[a] == old_order[oa]);
                } else {
                    assert(order@[a] == old_order[oa] && order@[b] == old_order[ob]);
                }
            }
        }
        i = i + 1;
    }
    order
}

} // verus!
