//! Buckets: which keys fall into which bucket, and the order in which the
//! buckets are placed.

use crate::shared::{spec_bucket, Hashes};
use vstd::prelude::*;

verus! {

/// The average number of keys per bucket.
pub const DEFAULT_LAMBDA: usize = 5;

/// One cell of the partition of the keys.
pub struct Bucket {
    /// The bucket's number, which is its place in the displacement table.
    pub idx: usize,
    /// The indices of the keys that fall into this bucket, ascending.
    pub keys: Vec<usize>,
}

/// The number of buckets for `n` keys: `n / 5`, rounded up.
pub open spec fn spec_bucket_count(n: int) -> int {
    (n + 4) / 5
}

/// The number of buckets for `n` keys.
pub fn bucket_count(n: usize) -> (r: usize)
    ensures
        r == spec_bucket_count(n as int),
        n > 0 ==> 0 < r <= n,
        n == 0 ==> r == 0,
{
    if n == 0 {
        0
    } else {
        (n - 1) / DEFAULT_LAMBDA + 1
    }
}

/// `keys` lists, in ascending order, exactly the key indices below `upto` whose
/// coarse hash selects bucket `b` of `buckets` many.
pub open spec fn members_upto(
    keys: Seq<usize>,
    hashes: Seq<Hashes>,
    buckets: int,
    b: int,
    upto: int,
) -> bool {
    &&& forall|j: int|
        0 <= j < keys.len() ==> (#[trigger] keys[j]) < upto && spec_bucket(
            hashes[keys[j] as int].g,
            buckets,
        ) == b
    &&& forall|i: int, j: int| 0 <= i < j < keys.len() ==> #[trigger] keys[i] < #[trigger] keys[j]
    &&& forall|k: int|
        0 <= k < upto && spec_bucket((#[trigger] hashes[k]).g, buckets) == b ==> exists|j: int|
            0 <= j < keys.len() && #[trigger] keys[j] == k
}

/// The buckets split the key indices below `upto` among themselves by coarse
/// hash, and each carries its own number.
pub open spec fn partitioned(buckets: Seq<Bucket>, hashes: Seq<Hashes>, upto: int) -> bool {
    forall|b: int|
        0 <= b < buckets.len() ==> (#[trigger] buckets[b]).idx == b && members_upto(
            buckets[b].keys@,
            hashes,
            buckets.len() as int,
            b,
            upto,
        )
}

/// Distributes the key indices over the buckets: key `i` goes to the bucket
/// that its coarse hash selects.
pub fn fill_buckets(hashes: &Vec<Hashes>, buckets: &mut Vec<Bucket>)
    requires
        0 < old(buckets)@.len() <= u32::MAX,
        partitioned(old(buckets)@, hashes@, 0),
    ensures
        final(buckets)@.len() == old(buckets)@.len(),
        partitioned(final(buckets)@, hashes@, hashes@.len() as int),
{
    let count: u32 = buckets.len() as u32;
    let mut i: usize = 0;
    while i < hashes.len()
        invariant
            i <= hashes@.len(),
            count == buckets@.len(),
            0 < buckets@.len() <= u32::MAX,
            buckets@.len() == old(buckets)@.len(),
            partitioned(buckets@, hashes@, i as int),
        decreases hashes@.len() - i,
    {
        let c: usize = (hashes[i].g % count) as usize;
        let ghost prev = buckets@;
        buckets[c].keys.push(i);
        proof {
            let nb = prev.len() as int;
            assert(c as int == spec_bucket(hashes@[i as int].g, nb));
            assert forall|b: int| 0 <= b < buckets@.len() implies (#[trigger] buckets@[b]).idx
                == b && members_upto(buckets@[b].keys@, hashes@, nb, b, i + 1) by {
                assert(prev[b].idx == b);
                assert(members_upto(prev[b].keys@, hashes@, nb, b, i as int));
                if b == c as int {
                    let old_keys = prev[b].keys@;
                    let new_keys = buckets@[b].keys@;
                    assert(new_keys == old_keys.push(i));
                    assert forall|k: int|
                        0 <= k < i + 1 && spec_bucket((#[trigger] hashes@[k]).g, nb)
                            == b implies exists|j: int|
                        0 <= j < new_keys.len() && #[trigger] new_keys[j] == k by {
                        if k == i as int {
                            assert(new_keys[old_keys.len() as int] == k);
                        } else {
                            let j = choose|j: int|
                                0 <= j < old_keys.len() && #[trigger] old_keys[j] == k;
                            assert(new_keys[j] == k);
                        }
                    }
                } else {
                    assert(buckets@[b] == prev[b]);
                }
            }
        }
        i += 1;
    }
}

/// `a` is at most `b`, pairs compared by their first parts and then by their second.
pub open spec fn pair_le(a: (usize, usize), b: (usize, usize)) -> bool {
    a.0 < b.0 || (a.0 == b.0 && a.1 <= b.1)
}

/// Sorts with std's `sort` on a slice of pairs of integers. As std documents,
/// the outcome holds the same pairs as before, in ascending order, where pairs
/// are ordered by their first parts and then by their second.
#[verifier::external_body]
fn sort_pairs(v: &mut Vec<(usize, usize)>)
    ensures
        final(v)@.to_multiset() == old(v)@.to_multiset(),
        forall|i: int, j: int|
            0 <= i < j < final(v)@.len() ==> pair_le(#[trigger] final(v)@[i], #[trigger] final(v)@[j]),
{
    v.sort();
}

/// What a bucket of `size` keys is ranked by: the smaller the rank, the larger
/// the bucket.
pub open spec fn spec_rank(size: nat) -> int {
    usize::MAX - size
}

/// Bucket `b` stands at one of the first `upto` places of `order`.
pub open spec fn ranked_before(order: Seq<(usize, usize)>, upto: int, b: int) -> bool {
    exists|q: int| 0 <= q < upto && (#[trigger] order[q]).1 == b
}

/// `order` names every bucket once, as a pair of its rank and its number, the
/// larger buckets first and, among buckets of one size, the lower number first.
pub open spec fn is_plan(order: Seq<(usize, usize)>, buckets: Seq<Bucket>) -> bool {
    &&& order.len() == buckets.len()
    &&& forall|p: int|
        0 <= p < order.len() ==> (#[trigger] order[p]).1 < buckets.len() && order[p].0
            == spec_rank(buckets[order[p].1 as int].keys@.len())
    &&& forall|p: int, q: int|
        0 <= p < q < order.len() ==> pair_le(#[trigger] order[p], #[trigger] order[q])
            && order[p].1 != order[q].1
    &&& forall|b: int|
        0 <= b < buckets.len() ==> #[trigger] ranked_before(order, order.len() as int, b)
}

/// Fixes the order in which the buckets are placed: by descending size, and by
/// ascending number among buckets of the same size.
pub fn bucket_order(buckets: &Vec<Bucket>) -> (order: Vec<(usize, usize)>)
    ensures
        is_plan(order@, buckets@),
{
    let mut order: Vec<(usize, usize)> = Vec::new();
    let mut b: usize = 0;
    while b < buckets.len()
        invariant
            b <= buckets@.len(),
            order@.len() == b,
            forall|t: int|
                0 <= t < b ==> (#[trigger] order@[t]).0 == spec_rank(buckets@[t].keys@.len())
                    && order@[t].1 == t,
        decreases buckets@.len() - b,
    {
        order.push((usize::MAX - buckets[b].keys.len(), b));
        b += 1;
    }
    let ghost pre = order@;
    sort_pairs(&mut order);
    proof {
        let post = order@;
        pre.to_multiset_ensures();
        post.to_multiset_ensures();
        assert(post.len() == pre.len());
        assert forall|p: int| 0 <= p < post.len() implies (#[trigger] post[p]).1 < buckets@.len()
            && post[p].0 == spec_rank(buckets@[post[p].1 as int].keys@.len()) by {
            assert(post.contains(post[p]));
            assert(post.to_multiset().count(post[p]) > 0);
            assert(pre.to_multiset().count(post[p]) > 0);
            assert(pre.contains(post[p]));
            let t = choose|t: int| 0 <= t < pre.len() && pre[t] == post[p];
            assert(pre[t].1 == t);
        }
        assert forall|b: int| 0 <= b < buckets@.len() implies #[trigger] ranked_before(
            post,
            post.len() as int,
            b,
        ) by {
            assert(pre.contains(pre[b]));
            assert(pre.to_multiset().count(pre[b]) > 0);
            assert(post.to_multiset().count(pre[b]) > 0);
            assert(post.contains(pre[b]));
            let p = choose|p: int| 0 <= p < post.len() && post[p] == pre[b];
            assert(post[p].1 == b);
        }
        assert(pre.no_duplicates()) by {
            assert forall|i: int, j: int|
                0 <= i < pre.len() && 0 <= j < pre.len() && i != j implies pre[i] != pre[j] by {
                assert(pre[i].1 == i && pre[j].1 == j);
            }
        }
        pre.lemma_multiset_has_no_duplicates();
        post.lemma_multiset_has_no_duplicates_conv();
        assert forall|p: int, q: int| 0 <= p < q < post.len() implies pair_le(
            #[trigger] post[p],
            #[trigger] post[q],
        ) && post[p].1 != post[q].1 by {
            assert(post[p] != post[q]);
        }
    }
    order
}

} // verus!
