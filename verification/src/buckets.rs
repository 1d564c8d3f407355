//! An index from integer keys to the positions that carry them, so that a
//! lookup visits only the entries that can match.

use std::collections::HashMap;
use vstd::prelude::*;

verus! {

/// `bucket` lists, in increasing order, positions of `keys` that carry `k`.
pub open spec fn is_bucket(keys: Seq<u64>, k: u64, bucket: Seq<usize>) -> bool {
    &&& forall|p: int| 0 <= p < bucket.len() ==> (#[trigger] bucket[p]) < keys.len() && keys[bucket[p] as int] == k
    &&& forall|p: int, q: int| 0 <= p < q < bucket.len() ==> #[trigger] bucket[p] < #[trigger] bucket[q]
}

/// `index` maps every key to the bucket of all positions that carry it.
pub open spec fn indexes(keys: Seq<u64>, index: Map<u64, Vec<usize>>) -> bool {
    &&& forall|k: u64| #[trigger] index.contains_key(k) ==> is_bucket(keys, k, index[k]@)
    &&& forall|i: int|
        0 <= i < keys.len() ==> index.contains_key(#[trigger] keys[i]) && index[keys[i]]@.contains(
            i as usize,
        )
}

/// In an increasing bucket, a larger position comes later.
pub proof fn lemma_bucket_order(bucket: Seq<usize>, p: int, q: int)
    requires
        forall|a: int, b: int| 0 <= a < b < bucket.len() ==> #[trigger] bucket[a] < #[trigger] bucket[b],
        0 <= p < bucket.len(),
        0 <= q < bucket.len(),
        bucket[p] < bucket[q],
    ensures
        p < q,
{
    if q < p {
        assert(bucket[q] < bucket[p]);
    }
}

/// The index of `keys`: each key to the positions that carry it.
pub fn build_index(keys: &Vec<u64>) -> (index: HashMap<u64, Vec<usize>>)
    ensures
        indexes(keys@, index@),
{
    broadcast use vstd::std_specs::hash::group_hash_axioms;

    let mut index: HashMap<u64, Vec<usize>> = HashMap::new();
    let mut i: usize = 0;
    while i < keys.len()
        invariant
            i <= keys.len(),
            forall|k: u64| #[trigger] index@.contains_key(k) ==> is_bucket(keys@.take(i as int), k, index@[k]@),
            forall|j: int|
                0 <= j < i ==> index@.contains_key(#[trigger] keys@[j]) && index@[keys@[j]]@.contains(
                    j as usize,
                ),
        decreases keys.len() - i,
    {
        let k = keys[i];
        let ghost before = index@;
        let mut bucket = match index.remove(&k) {
            Some(b) => b,
            None => Vec::new(),
        };
        proof {
            if before.contains_key(k) {
                assert(bucket@ == before[k]@);
            }
        }
        let ghost old_bucket = bucket@;
        bucket.push(i);
        index.insert(k, bucket);
        proof {
            let taken = keys@.take(i + 1);
            assert forall|k2: u64| #[trigger] index@.contains_key(k2) implies is_bucket(taken, k2, index@[k2]@) by {
                if k2 == k {
                    let b = index@[k2]@;
                    assert(b == old_bucket.push(i));
                    assert forall|p: int| 0 <= p < b.len() implies (#[trigger] b[p]) < taken.len() && taken[b[p] as int] == k2 by {
                        if p < old_bucket.len() {
                            assert(before.contains_key(k));
                            assert(is_bucket(keys@.take(i as int), k, before[k]@));
                            assert(b[p] == old_bucket[p]);
                        }
                    }
                    assert forall|p: int, q: int| 0 <= p < q < b.len() implies #[trigger] b[p] < #[trigger] b[q] by {
                        if q < old_bucket.len() {
                            assert(is_bucket(keys@.take(i as int), k, before[k]@));
                            assert(b[p] == old_bucket[p] && b[q] == old_bucket[q]);
                        } else {
                            assert(is_bucket(keys@.take(i as int), k, before[k]@));
                            assert(b[p] == old_bucket[p]);
                            assert(old_bucket[p] < i);
                        }
                    }
                } else {
                    assert(before.contains_key(k2));
                    assert(is_bucket(keys@.take(i as int), k2, before[k2]@));
                    assert(index@[k2] == before[k2]);
                    let b = index@[k2]@;
                    assert forall|p: int| 0 <= p < b.len() implies (#[trigger] b[p]) < taken.len() && taken[b[p] as int] == k2 by {
                        assert(b[p] < i);
                    }
                }
            }
            assert forall|j: int|
                0 <= j < i + 1 implies index@.contains_key(#[trigger] keys@[j]) && index@[keys@[j]]@.contains(
                j as usize,
            ) by {
                if j == i {
                    assert(index@[k]@.last() == i);
                    assert(index@[k]@[index@[k]@.len() - 1] == j as usize);
                } else if keys@[j] == k {
                    assert(before[k]@.contains(j as usize));
                    let p = choose|p: int| 0 <= p < before[k]@.len() && before[k]@[p] == j as usize;
                    assert(index@[k]@[p] == j as usize);
                } else {
                    assert(index@[keys@[j]] == before[keys@[j]]);
                }
            }
        }
        i = i + 1;
    }
    proof {
        assert(keys@.take(keys.len() as int) == keys@);
    }
    index
}

} // verus!
