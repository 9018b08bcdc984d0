//! What it means for a table to place keys, and the facts that the
//! construction rests on.

use crate::planner::{is_plan, members_upto, partitioned, ranked_before, Bucket};
use crate::shared::{spec_bucket, spec_get_index, spec_slot, Hashes};
use crate::solver::{committed, pair_before, pair_fits, slot_at};
use vstd::prelude::*;

verus! {

/// The bucket of key `k`, of as many buckets as `disps` has pairs.
pub open spec fn key_bucket(hashes: Seq<Hashes>, disps: Seq<(u32, u32)>, k: int) -> int {
    spec_bucket(hashes[k].g, disps.len() as int)
}

/// The slot that the table `disps` assigns to key `k`.
pub open spec fn key_slot(hashes: Seq<Hashes>, disps: Seq<(u32, u32)>, k: int) -> int {
    spec_get_index(hashes[k], disps, hashes.len() as int)
}

/// The keys of the first `upto` buckets of `order` stand in `occ`, each at the
/// slot that `disps` assigns to it, and nothing else stands there.
pub open spec fn placed_upto(
    hashes: Seq<Hashes>,
    order: Seq<(usize, usize)>,
    upto: int,
    disps: Seq<(u32, u32)>,
    occ: Seq<Option<usize>>,
) -> bool {
    &&& occ.len() == hashes.len()
    &&& disps.len() == order.len()
    &&& forall|k: int|
        0 <= k < hashes.len() && ranked_before(order, upto, key_bucket(hashes, disps, k))
            ==> occ[#[trigger] key_slot(hashes, disps, k)] == Some(k as usize)
    &&& forall|s: int|
        0 <= s < occ.len() ==> match #[trigger] occ[s] {
            Some(k) => k < hashes.len() && ranked_before(
                order,
                upto,
                key_bucket(hashes, disps, k as int),
            ) && key_slot(hashes, disps, k as int) == s,
            None => true,
        }
}

/// A slot is a number below the table's length.
pub proof fn lemma_slot_range(h: Hashes, d: (u32, u32), len: int)
    requires
        len > 0,
    ensures
        0 <= spec_slot(h, d, len) < len,
{
}

/// A bucket is a number below the number of buckets.
pub proof fn lemma_bucket_range(g: u32, buckets: int)
    requires
        buckets > 0,
    ensures
        0 <= spec_bucket(g, buckets) < buckets,
{
}

/// Placing one more bucket keeps the placement: if the keys of the first `p`
/// buckets are placed, and the next bucket's keys are entered under a pair that
/// fits, then the keys of the first `p + 1` buckets are placed.
pub proof fn lemma_place_step(
    hashes: Seq<Hashes>,
    buckets: Seq<Bucket>,
    order: Seq<(usize, usize)>,
    p: int,
    disps: Seq<(u32, u32)>,
    occ: Seq<Option<usize>>,
    d: (u32, u32),
    occ2: Seq<Option<usize>>,
)
    requires
        hashes.len() > 0,
        partitioned(buckets, hashes, hashes.len() as int),
        is_plan(order, buckets),
        0 <= p < order.len(),
        placed_upto(hashes, order, p, disps, occ),
        pair_fits(hashes, buckets[order[p].1 as int].keys@, d, occ),
        committed(occ, occ2, hashes, buckets[order[p].1 as int].keys@, d),
    ensures
        placed_upto(hashes, order, p + 1, disps.update(order[p].1 as int, d), occ2),
{
    let n = hashes.len() as int;
    let nb = disps.len() as int;
    let b = order[p].1 as int;
    let keys = buckets[b].keys@;
    let disps2 = disps.update(b, d);
    assert(members_upto(keys, hashes, nb, b, n));
    assert(!ranked_before(order, p, b)) by {
        if ranked_before(order, p, b) {
            let q = choose|q: int| 0 <= q < p && (#[trigger] order[q]).1 == b;
            assert(order[q].1 != order[p].1);
        }
    }
    assert(ranked_before(order, p + 1, b)) by {
        assert(order[p].1 == b);
    }
    assert forall|c: int| ranked_before(order, p, c) implies ranked_before(order, p + 1, c) by {
        let q = choose|q: int| 0 <= q < p && (#[trigger] order[q]).1 == c;
        assert(0 <= q < p + 1 && order[q].1 == c);
    }
    assert forall|c: int| ranked_before(order, p + 1, c) && c != b implies ranked_before(
        order,
        p,
        c,
    ) by {
        let q = choose|q: int| 0 <= q < p + 1 && (#[trigger] order[q]).1 == c;
        assert(q != p);
        assert(0 <= q < p && order[q].1 == c);
    }
    assert forall|k: int|
        0 <= k < n && ranked_before(order, p + 1, key_bucket(hashes, disps2, k)) implies occ2[
        #[trigger] key_slot(hashes, disps2, k)] == Some(k as usize) by {
        let kb = key_bucket(hashes, disps, k);
        lemma_bucket_range(hashes[k].g, nb);
        if kb == b {
            let j = choose|j: int| 0 <= j < keys.len() && #[trigger] keys[j] == k;
            assert(slot_at(hashes, keys, d, j) == key_slot(hashes, disps2, k));
        } else {
            let s = key_slot(hashes, disps, k);
            assert(s == key_slot(hashes, disps2, k));
            lemma_slot_range(hashes[k], disps[kb], n);
            assert(occ[s] == Some(k as usize));
            assert(occ2[s] == occ[s] || exists|j: int|
                0 <= j < keys.len() && #[trigger] slot_at(hashes, keys, d, j) == s);
            if occ2[s] != occ[s] {
                let j = choose|j: int|
                    0 <= j < keys.len() && #[trigger] slot_at(hashes, keys, d, j) == s;
                assert(occ[slot_at(hashes, keys, d, j)] is None);
            }
        }
    }
    assert forall|s: int| 0 <= s < occ2.len() implies match #[trigger] occ2[s] {
        Some(k) => k < n && ranked_before(order, p + 1, key_bucket(hashes, disps2, k as int))
            && key_slot(hashes, disps2, k as int) == s,
        None => true,
    } by {
        if exists|j: int| 0 <= j < keys.len() && #[trigger] slot_at(hashes, keys, d, j) == s {
            let j = choose|j: int|
                0 <= j < keys.len() && #[trigger] slot_at(hashes, keys, d, j) == s;
            assert(occ2[slot_at(hashes, keys, d, j)] == Some(keys[j]));
            assert(keys[j] < n);
            assert(key_bucket(hashes, disps2, keys[j] as int) == b);
            assert(key_slot(hashes, disps2, keys[j] as int) == slot_at(hashes, keys, d, j));
        } else {
            assert(occ2[s] == occ[s]);
            match occ[s] {
                Some(k) => {
                    let kb = key_bucket(hashes, disps, k as int);
                    lemma_bucket_range(hashes[k as int].g, nb);
                    assert(ranked_before(order, p, kb));
                    assert(kb != b);
                    assert(key_slot(hashes, disps2, k as int) == key_slot(
                        hashes,
                        disps,
                        k as int,
                    ));
                },
                None => {},
            }
        }
    }
}

/// If every key stands at its own slot of a table with as many slots as keys,
/// then no slot is free.
pub proof fn lemma_all_occupied(slots: Seq<int>, occ: Seq<Option<usize>>)
    requires
        slots.len() == occ.len(),
        forall|k: int|
            0 <= k < slots.len() ==> 0 <= #[trigger] slots[k] < occ.len() && occ[slots[k]] == Some(
                k as usize,
            ),
        occ.len() <= usize::MAX,
    ensures
        forall|s: int| 0 <= s < occ.len() ==> (#[trigger] occ[s]) is Some,
{
    let n = occ.len() as int;
    assert(slots.no_duplicates()) by {
        assert forall|i: int, j: int|
            0 <= i < slots.len() && 0 <= j < slots.len() && i != j implies slots[i]
            != slots[j] by {
            if slots[i] == slots[j] {
                assert(occ[slots[i]] == Some(i as usize));
                assert(occ[slots[j]] == Some(j as usize));
            }
        }
    }
    slots.unique_seq_to_set();
    vstd::set_lib::lemma_int_range(0, n);
    let all = vstd::set_lib::set_int_range(0, n);
    let used = slots.to_set();
    assert(used.subset_of(all)) by {
        assert forall|s: int| used.contains(s) implies all.contains(s) by {
            let k = choose|k: int| 0 <= k < slots.len() && slots[k] == s;
        }
    }
    vstd::set_lib::lemma_set_subset_finite(all, used);
    vstd::set_lib::lemma_subset_equality(used, all);
    assert forall|s: int| 0 <= s < occ.len() implies (#[trigger] occ[s]) is Some by {
        assert(all.contains(s));
        assert(used.contains(s));
        let k = choose|k: int| 0 <= k < slots.len() && slots[k] == s;
        assert(occ[slots[k]] == Some(k as usize));
    }
}

/// What of `occ` the first `upto` buckets of `order` occupy: the slots that
/// hold a key of one of them.
pub open spec fn occupied_before(
    hashes: Seq<Hashes>,
    order: Seq<(usize, usize)>,
    upto: int,
    occ: Seq<Option<usize>>,
) -> Seq<Option<usize>> {
    Seq::new(
        occ.len(),
        |s: int|
            match occ[s] {
                Some(k) => if ranked_before(
                    order,
                    upto,
                    spec_bucket(hashes[k as int].g, order.len() as int),
                ) {
                    Some(k)
                } else {
                    None
                },
                None => None,
            },
    )
}

/// `d` is the first pair, in row-major order over the pairs below the table's
/// length, that fits the bucket `keys` over `occ`.
pub open spec fn least_fit(
    hashes: Seq<Hashes>,
    keys: Seq<usize>,
    d: (u32, u32),
    occ: Seq<Option<usize>>,
) -> bool {
    &&& d.0 < hashes.len()
    &&& d.1 < hashes.len()
    &&& pair_fits(hashes, keys, d, occ)
    &&& forall|e: (u32, u32)|
        pair_before(e, d) && e.1 < hashes.len() ==> !#[trigger] pair_fits(hashes, keys, e, occ)
}

/// Each of the first `upto` buckets of `order` has the first pair that fits it
/// over what the buckets before it occupy.
pub open spec fn greedy_upto(
    hashes: Seq<Hashes>,
    buckets: Seq<Bucket>,
    order: Seq<(usize, usize)>,
    upto: int,
    disps: Seq<(u32, u32)>,
    occ: Seq<Option<usize>>,
) -> bool {
    forall|q: int|
        #![trigger order[q]]
        0 <= q < upto ==> least_fit(
            hashes,
            buckets[order[q].1 as int].keys@,
            disps[order[q].1 as int],
            occupied_before(hashes, order, q, occ),
        )
}

/// Placing one more bucket under the first pair that fits keeps the choices
/// made so far the first that fit: later buckets only take slots that were
/// free, so what the earlier buckets saw as occupied stays as it was.
pub proof fn lemma_greedy_step(
    hashes: Seq<Hashes>,
    buckets: Seq<Bucket>,
    order: Seq<(usize, usize)>,
    p: int,
    disps: Seq<(u32, u32)>,
    occ: Seq<Option<usize>>,
    d: (u32, u32),
    occ2: Seq<Option<usize>>,
)
    requires
        hashes.len() > 0,
        partitioned(buckets, hashes, hashes.len() as int),
        is_plan(order, buckets),
        0 <= p < order.len(),
        placed_upto(hashes, order, p, disps, occ),
        greedy_upto(hashes, buckets, order, p, disps, occ),
        least_fit(hashes, buckets[order[p].1 as int].keys@, d, occ),
        committed(occ, occ2, hashes, buckets[order[p].1 as int].keys@, d),
    ensures
        greedy_upto(hashes, buckets, order, p + 1, disps.update(order[p].1 as int, d), occ2),
{
    let n = hashes.len() as int;
    let nb = order.len() as int;
    let b = order[p].1 as int;
    let keys = buckets[b].keys@;
    let disps2 = disps.update(b, d);
    assert(members_upto(keys, hashes, nb, b, n));
    assert forall|q: int| 0 <= q <= p implies !ranked_before(order, q, b) by {
        if ranked_before(order, q, b) {
            let t = choose|t: int| 0 <= t < q && (#[trigger] order[t]).1 == b;
            assert(order[t].1 != order[p].1);
        }
    }
    assert forall|q: int|
        #![trigger order[q]]
        0 <= q < p + 1 implies least_fit(
        hashes,
        buckets[order[q].1 as int].keys@,
        disps2[order[q].1 as int],
        occupied_before(hashes, order, q, occ2),
    ) by {
        let seen = if q < p {
            occupied_before(hashes, order, q, occ)
        } else {
            occ
        };
        let seen2 = occupied_before(hashes, order, q, occ2);
        assert forall|s: int| 0 <= s < n implies seen2[s] == seen[s] by {
            if exists|j: int| 0 <= j < keys.len() && #[trigger] slot_at(hashes, keys, d, j) == s {
                let j = choose|j: int|
                    0 <= j < keys.len() && #[trigger] slot_at(hashes, keys, d, j) == s;
                assert(occ[slot_at(hashes, keys, d, j)] is None);
                assert(occ2[slot_at(hashes, keys, d, j)] == Some(keys[j]));
                assert(spec_bucket(hashes[keys[j] as int].g, nb) == b);
                assert(!ranked_before(order, q, b));
            } else {
                assert(occ2[s] == occ[s]);
                if q == p {
                    match occ[s] {
                        Some(k) => {
                            assert(ranked_before(order, p, key_bucket(hashes, disps, k as int)));
                        },
                        None => {},
                    }
                }
            }
        }
        assert(seen2 =~= seen);
        if q < p {
            assert(order[q].1 != order[p].1);
            assert(0 <= order[q].1 < disps.len());
            assert(disps2[order[q].1 as int] == disps[order[q].1 as int]);
        } else {
            assert(disps2[b] == d);
        }
    }
}

} // verus!
