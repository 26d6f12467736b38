//! Ordering the numbers below a bound by a key, in linear time.

use vstd::prelude::*;
use crate::dag::lemma_distinct_bounded;

verus! {

/// `a` comes before `b` by key, and by value among equal keys.
pub open spec fn key_before(key: Seq<usize>, a: usize, b: usize) -> bool {
    key[a as int] < key[b as int] || (key[a as int] == key[b as int] && a < b)
}

/// `order` lists the numbers below the length of `key`, each once, by
/// increasing key, and by increasing value among equal keys.
pub open spec fn ordered_by_key(key: Seq<usize>, order: Seq<usize>) -> bool {
    &&& order.len() == key.len()
    &&& forall|a: int| 0 <= a < order.len() ==> (#[trigger] order[a]) < key.len()
    &&& forall|i: usize| i < key.len() ==> #[trigger] order.contains(i)
    &&& forall|a: int, b: int|
        0 <= a < b < order.len() ==> key_before(key, #[trigger] order[a], #[trigger] order[b])
}

/// A sequence without repetition that holds every number below `n`, and no
/// other, has length `n`.
pub proof fn lemma_permutation_len(order: Seq<usize>, n: nat)
    requires
        n <= usize::MAX,
        order.no_duplicates(),
        forall|a: int| 0 <= a < order.len() ==> (#[trigger] order[a]) < n,
        forall|i: usize| i < n ==> #[trigger] order.contains(i),
    ensures
        order.len() == n,
{
    lemma_distinct_bounded(order, n);
    let place = Seq::new(
        n,
        |i: int| (choose|k: int| 0 <= k < order.len() && order[k] == i) as usize,
    );
    assert forall|i: int| 0 <= i < n implies (#[trigger] place[i]) < order.len() && order[place[i] as int]
        == i by {
        assert(order.contains(i as usize));
    }
    assert forall|i: int, j: int| 0 <= i < n && 0 <= j < n && i != j implies place[i]
        != place[j] by {
        assert(order[place[i] as int] == i);
        assert(order[place[j] as int] == j);
    }
    lemma_distinct_bounded(place, order.len());
}

/// Two sequences ordered by the same key agree up to position `k`.
proof fn lemma_ordered_agree(key: Seq<usize>, o1: Seq<usize>, o2: Seq<usize>, k: int)
    requires
        ordered_by_key(key, o1),
        ordered_by_key(key, o2),
        0 <= k < key.len(),
    ensures
        o1[k] == o2[k],
    decreases k,
{
    assert forall|m: int| 0 <= m < k implies o1[m] == o2[m] by {
        lemma_ordered_agree(key, o1, o2, m);
    }
    let x = o1[k];
    let y = o2[k];
    if x != y {
        assert(o2.contains(x));
        assert(o1.contains(y));
        let m = choose|m: int| 0 <= m < o2.len() && o2[m] == x;
        let l = choose|l: int| 0 <= l < o1.len() && o1[l] == y;
        if m < k {
            assert(o1[m] == o2[m]);
            assert(key_before(key, o1[m], o1[k]));
        } else if l < k {
            assert(o1[l] == o2[l]);
            assert(key_before(key, o2[l], o2[k]));
        } else {
            assert(key_before(key, o2[k], o2[m]));
            assert(key_before(key, o1[k], o1[l]));
        }
    }
}

/// There is one way only to order the numbers by a key.
pub proof fn lemma_order_unique(key: Seq<usize>, o1: Seq<usize>, o2: Seq<usize>)
    requires
        ordered_by_key(key, o1),
        ordered_by_key(key, o2),
    ensures
        o1 == o2,
{
    assert forall|k: int| 0 <= k < o1.len() implies o1[k] == o2[k] by {
        lemma_ordered_agree(key, o1, o2, k);
    }
    assert(o1 =~= o2);
}

/// Returns the numbers below the length of `key` by increasing key, those of
/// equal key by increasing value.
pub fn indices_by_key(key: &Vec<usize>) -> (order: Vec<usize>)
    requires
        forall|i: int| 0 <= i < key.len() ==> (#[trigger] key[i]) < key.len(),
    ensures
        ordered_by_key(key@, order@),
{
    let n = key.len();
    let mut buckets: Vec<Vec<usize>> = Vec::new();
    while buckets.len() < n
        invariant
            buckets.len() <= n,
            forall|d: int| 0 <= d < buckets.len() ==> (#[trigger] buckets[d]).len() == 0,
        decreases n - buckets.len(),
    {
        buckets.push(Vec::new());
    }

    let mut i: usize = 0;
    while i < n
        invariant
            i <= n,
            n == key.len(),
            buckets.len() == n,
            forall|x: int| 0 <= x < key.len() ==> (#[trigger] key[x]) < key.len(),
            forall|d: int, k: int|
                0 <= d < n && 0 <= k < buckets[d].len() ==> (#[trigger] buckets[d][k]) < i
                    && key[buckets[d][k] as int] == d,
            forall|d: int, k1: int, k2: int|
                0 <= d < n && 0 <= k1 < k2 < buckets[d].len() ==> (#[trigger] buckets[d][k1]) < (
                #[trigger] buckets[d][k2]),
            forall|x: int| 0 <= x < i ==> (#[trigger] buckets[key[x] as int])@.contains(x as usize),
        decreases n - i,
    {
        let d = key[i];
        let ghost before = buckets@;
        buckets[d].push(i);
        proof {
            assert(buckets[d as int]@ == before[d as int]@.push(i));
            assert forall|e: int, k: int| 0 <= e < n && 0 <= k < buckets[e].len() implies (
            #[trigger] buckets[e][k]) < i + 1 && key[buckets[e][k] as int] == e by {
                if e != d || k < before[d as int].len() {
                    assert(buckets[e][k] == before[e][k]);
                }
            }
            assert forall|e: int, k1: int, k2: int|
                0 <= e < n && 0 <= k1 < k2 < buckets[e].len() implies (#[trigger] buckets[e][k1])
                < (#[trigger] buckets[e][k2]) by {
                if e != d || k2 < before[d as int].len() {
                    assert(buckets[e][k1] == before[e][k1]);
                    assert(buckets[e][k2] == before[e][k2]);
                } else {
                    assert(buckets[e][k1] == before[e][k1]);
                }
            }
            assert forall|x: int| 0 <= x < i + 1 implies (#[trigger] buckets[key[x] as int])@.contains(
                x as usize,
            ) by {
                if x < i {
                    let e = key[x] as int;
                    assert(before[e]@.contains(x as usize));
                    let k = choose|k: int| 0 <= k < before[e]@.len() && before[e]@[k] == x as usize;
                    assert(buckets[e]@[k] == x as usize);
                } else {
                    assert(buckets[d as int]@[before[d as int].len() as int] == i);
                }
            }
        }
        i += 1;
    }

    let mut order: Vec<usize> = Vec::new();
    let mut d: usize = 0;
    while d < n
        invariant
            d <= n,
            n == key.len(),
            buckets.len() == n,
            forall|e: int, k: int|
                0 <= e < n && 0 <= k < buckets[e].len() ==> (#[trigger] buckets[e][k]) < n
                    && key[buckets[e][k] as int] == e,
            forall|e: int, k1: int, k2: int|
                0 <= e < n && 0 <= k1 < k2 < buckets[e].len() ==> (#[trigger] buckets[e][k1]) < (
                #[trigger] buckets[e][k2]),
            forall|a: int| 0 <= a < order.len() ==> (#[trigger] order[a]) < n && key[order[a] as int] < d,
            forall|a: int, b: int|
                0 <= a < b < order.len() ==> key_before(key@, #[trigger] order[a], #[trigger] order[b]),
            forall|e: int, k: int|
                0 <= e < d && 0 <= k < buckets[e].len() ==> order@.contains(#[trigger] buckets[e][k]),
        decreases n - d,
    {
        let bucket = &buckets[d];
        let mut k: usize = 0;
        while k < bucket.len()
            invariant
                k <= bucket.len(),
                d < n,
                n == key.len(),
                buckets.len() == n,
                bucket@ == buckets[d as int]@,
                forall|e: int, k: int|
                    0 <= e < n && 0 <= k < buckets[e].len() ==> (#[trigger] buckets[e][k]) < n
                        && key[buckets[e][k] as int] == e,
                forall|e: int, k1: int, k2: int|
                    0 <= e < n && 0 <= k1 < k2 < buckets[e].len() ==> (#[trigger] buckets[e][k1])
                        < (#[trigger] buckets[e][k2]),
                forall|a: int|
                    0 <= a < order.len() ==> (#[trigger] order[a]) < n && (key[order[a] as int] < d
                        || (key[order[a] as int] == d && exists|j: int|
                        0 <= j < k && order[a] == #[trigger] bucket[j])),
                forall|a: int, b: int|
                    0 <= a < b < order.len() ==> key_before(
                        key@,
                        #[trigger] order[a],
                        #[trigger] order[b],
                    ),
                forall|e: int, k: int|
                    0 <= e < d && 0 <= k < buckets[e].len() ==> order@.contains(
                        #[trigger] buckets[e][k],
                    ),
                forall|j: int| 0 <= j < k ==> order@.contains(#[trigger] bucket[j]),
            decreases bucket.len() - k,
        {
            let x = bucket[k];
            let ghost before = order@;
            order.push(x);
            proof {
                assert(buckets[d as int][k as int] == x);
                assert forall|a: int| 0 <= a < order.len() implies (#[trigger] order[a]) < n && (
                key[order[a] as int] < d || (key[order[a] as int] == d && exists|j: int|
                    0 <= j < k + 1 && order[a] == #[trigger] bucket[j])) by {
                    if a < before.len() {
                        assert(order[a] == before[a]);
                        if key[before[a] as int] == d {
                            let j = choose|j: int| 0 <= j < k && before[a] == #[trigger] bucket[j];
                            assert(0 <= j < k + 1);
                        }
                    } else {
                        assert(order[a] == bucket[k as int]);
                    }
                }
                assert forall|a: int, b: int| 0 <= a < b < order.len() implies key_before(
                    key@,
                    #[trigger] order[a],
                    #[trigger] order[b],
                ) by {
                    assert(order[a] == before[a]);
                    if b < before.len() {
                        assert(order[b] == before[b]);
                    } else if key[before[a] as int] == d {
                        let j = choose|j: int| 0 <= j < k && before[a] == #[trigger] bucket[j];
                        assert(buckets[d as int][j] < buckets[d as int][k as int]);
                    }
                }
                assert forall|e: int, j: int|
                    0 <= e < d && 0 <= j < buckets[e].len() implies order@.contains(
                    #[trigger] buckets[e][j],
                ) by {
                    let a = choose|a: int| 0 <= a < before.len() && before[a] == buckets[e][j];
                    assert(order@[a] == buckets[e][j]);
                }
                assert forall|j: int| 0 <= j < k + 1 implies order@.contains(
                    #[trigger] bucket[j],
                ) by {
                    if j < k {
                        let a = choose|a: int| 0 <= a < before.len() && before[a] == bucket[j];
                        assert(order@[a] == bucket[j]);
                    } else {
                        assert(order@[before.len() as int] == bucket[j]);
                    }
                }
            }
            k += 1;
        }
        d += 1;
    }

    proof {
        assert forall|i: usize| i < key.len() implies #[trigger] order@.contains(i) by {
            let e = key[i as int] as int;
            assert(buckets[e]@.contains(i));
            let k = choose|k: int| 0 <= k < buckets[e]@.len() && buckets[e]@[k] == i;
            assert(order@.contains(buckets[e][k]));
        }
        assert forall|a: int, b: int|
            0 <= a < order.len() && 0 <= b < order.len() && a != b implies order[a] != order[b] by {
            if a < b {
                assert(key_before(key@, order[a], order[b]));
            } else {
                assert(key_before(key@, order[b], order[a]));
            }
        }
        lemma_permutation_len(order@, n as nat);
    }
    order
}

} // verus!
