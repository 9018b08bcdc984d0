//! The search has one outcome: the hashes of the keys fix the buckets, their
//! order, every displacement pair and every slot.

use crate::generator::{built_by, built_greedily, stuck, stuck_at, HashState};
use crate::placement::{
    greedy_upto, key_bucket, key_slot, least_fit, lemma_bucket_range, occupied_before,
    placed_upto,
};
use crate::planner::{
    is_plan, members_upto, pair_le, partitioned, ranked_before, spec_bucket_count, Bucket,
};
use crate::shared::Hashes;
use crate::solver::{pair_before, pair_fits};
use vstd::prelude::*;

verus! {

/// `items` ascends strictly by the measure `key`.
pub open spec fn ascending_by<T>(items: Seq<T>, key: spec_fn(T) -> int) -> bool {
    forall|i: int, j: int| 0 <= i < j < items.len() ==> key(#[trigger] items[i]) < key(#[trigger] items[j])
}

/// Every item of `a` is an item of `b`.
pub open spec fn all_within<T>(a: Seq<T>, b: Seq<T>) -> bool {
    forall|i: int| 0 <= i < a.len() ==> b.contains(#[trigger] a[i])
}

/// Two sequences that ascend strictly by the same measure and hold the same
/// items are the same sequence.
pub proof fn lemma_ascending_equal<T>(a: Seq<T>, b: Seq<T>, key: spec_fn(T) -> int)
    requires
        ascending_by(a, key),
        ascending_by(b, key),
        all_within(a, b),
        all_within(b, a),
    ensures
        a =~= b,
    decreases a.len(),
{
    if a.len() == 0 {
        if b.len() > 0 {
            assert(a.contains(b[0]));
        }
    } else if b.len() == 0 {
        assert(b.contains(a[0]));
    } else {
        let la = a[a.len() - 1];
        let lb = b[b.len() - 1];
        assert(b.contains(la));
        assert(a.contains(lb));
        let j = choose|j: int| 0 <= j < b.len() && b[j] == la;
        let i = choose|i: int| 0 <= i < a.len() && a[i] == lb;
        assert(key(la) <= key(lb)) by {
            if j < b.len() - 1 {
                assert(key(b[j]) < key(b[b.len() - 1]));
            }
        }
        assert(key(lb) <= key(la)) by {
            if i < a.len() - 1 {
                assert(key(a[i]) < key(a[a.len() - 1]));
            }
        }
        assert(i == a.len() - 1) by {
            if i < a.len() - 1 {
                assert(key(a[i]) < key(a[a.len() - 1]));
            }
        }
        assert(la == lb);
        let a2 = a.drop_last();
        let b2 = b.drop_last();
        assert forall|t: int| 0 <= t < a2.len() implies b2.contains(#[trigger] a2[t]) by {
            assert(key(a[t]) < key(a[a.len() - 1]));
            assert(b.contains(a[t]));
            let u = choose|u: int| 0 <= u < b.len() && b[u] == a[t];
            assert(u < b.len() - 1);
            assert(b2[u] == a2[t]);
        }
        assert forall|t: int| 0 <= t < b2.len() implies a2.contains(#[trigger] b2[t]) by {
            assert(key(b[t]) < key(b[b.len() - 1]));
            assert(a.contains(b[t]));
            let u = choose|u: int| 0 <= u < a.len() && a[u] == b[t];
            assert(u < a.len() - 1);
            assert(a2[u] == b2[t]);
        }
        assert(ascending_by(a2, key)) by {
            assert forall|x: int, y: int| 0 <= x < y < a2.len() implies key(#[trigger] a2[x])
                < key(#[trigger] a2[y]) by {
                assert(key(a[x]) < key(a[y]));
            }
        }
        assert(ascending_by(b2, key)) by {
            assert forall|x: int, y: int| 0 <= x < y < b2.len() implies key(#[trigger] b2[x])
                < key(#[trigger] b2[y]) by {
                assert(key(b[x]) < key(b[y]));
            }
        }
        lemma_ascending_equal(a2, b2, key);
        assert(a =~= a2.push(la));
        assert(b =~= b2.push(lb));
    }
}

/// The hashes fix the members of a bucket.
pub proof fn lemma_members_unique(
    a: Seq<usize>,
    b: Seq<usize>,
    hashes: Seq<Hashes>,
    buckets: int,
    bucket: int,
    upto: int,
)
    requires
        members_upto(a, hashes, buckets, bucket, upto),
        members_upto(b, hashes, buckets, bucket, upto),
    ensures
        a =~= b,
{
    let key = |k: usize| k as int;
    assert(ascending_by(a, key)) by {
        assert forall|i: int, j: int| 0 <= i < j < a.len() implies key(#[trigger] a[i]) < key(
            #[trigger] a[j],
        ) by {
            assert(a[i] < a[j]);
        }
    }
    assert(ascending_by(b, key)) by {
        assert forall|i: int, j: int| 0 <= i < j < b.len() implies key(#[trigger] b[i]) < key(
            #[trigger] b[j],
        ) by {
            assert(b[i] < b[j]);
        }
    }
    assert forall|i: int| 0 <= i < a.len() implies b.contains(#[trigger] a[i]) by {
        let k = a[i] as int;
        assert(0 <= k < upto);
        let j = choose|j: int| 0 <= j < b.len() && #[trigger] b[j] == k;
        assert(b[j] == a[i]);
    }
    assert forall|i: int| 0 <= i < b.len() implies a.contains(#[trigger] b[i]) by {
        let k = b[i] as int;
        assert(0 <= k < upto);
        let j = choose|j: int| 0 <= j < a.len() && #[trigger] a[j] == k;
        assert(a[j] == b[i]);
    }
    lemma_ascending_equal(a, b, key);
}

/// A measure under which pairs ascend as `pair_le` orders them.
pub open spec fn pair_measure(p: (usize, usize)) -> int {
    p.0 * (usize::MAX + 1) + p.1
}

/// Distinct pairs in `pair_le` order have ascending measures.
pub proof fn lemma_pair_measure(a: (usize, usize), b: (usize, usize))
    requires
        pair_le(a, b),
        a.1 != b.1,
    ensures
        pair_measure(a) < pair_measure(b),
{
    let m: int = usize::MAX + 1;
    if a.0 < b.0 {
        assert(a.0 * m + a.1 < b.0 * m + b.1) by (nonlinear_arith)
            requires
                a.0 < b.0,
                0 <= a.1 < m,
                0 <= b.1,
        ;
    }
}

/// The sizes of the buckets fix the order in which they are placed.
pub proof fn lemma_plan_unique(
    o1: Seq<(usize, usize)>,
    b1: Seq<Bucket>,
    o2: Seq<(usize, usize)>,
    b2: Seq<Bucket>,
)
    requires
        is_plan(o1, b1),
        is_plan(o2, b2),
        b1.len() == b2.len(),
        forall|b: int| 0 <= b < b1.len() ==> (#[trigger] b1[b]).keys@ == b2[b].keys@,
    ensures
        o1 =~= o2,
{
    let key = |p: (usize, usize)| pair_measure(p);
    assert(ascending_by(o1, key)) by {
        assert forall|i: int, j: int| 0 <= i < j < o1.len() implies key(#[trigger] o1[i]) < key(
            #[trigger] o1[j],
        ) by {
            lemma_pair_measure(o1[i], o1[j]);
        }
    }
    assert(ascending_by(o2, key)) by {
        assert forall|i: int, j: int| 0 <= i < j < o2.len() implies key(#[trigger] o2[i]) < key(
            #[trigger] o2[j],
        ) by {
            lemma_pair_measure(o2[i], o2[j]);
        }
    }
    assert forall|i: int| 0 <= i < o1.len() implies o2.contains(#[trigger] o1[i]) by {
        let b = o1[i].1 as int;
        assert(b1[b].keys@ == b2[b].keys@);
        assert(ranked_before(o2, o2.len() as int, b));
        let q = choose|q: int| 0 <= q < o2.len() && (#[trigger] o2[q]).1 == b;
        assert(o2[q] == o1[i]);
    }
    assert forall|i: int| 0 <= i < o2.len() implies o1.contains(#[trigger] o2[i]) by {
        let b = o2[i].1 as int;
        assert(b1[b].keys@ == b2[b].keys@);
        assert(ranked_before(o1, o1.len() as int, b));
        let q = choose|q: int| 0 <= q < o1.len() && (#[trigger] o1[q]).1 == b;
        assert(o1[q] == o2[i]);
    }
    lemma_ascending_equal(o1, o2, key);
}

/// Two placements along the same order, both past place `t`, that agree on the
/// pair of the bucket at place `t` and on what the buckets before it occupy,
/// agree on every slot that the first `t + 1` buckets occupy in the first of
/// them.
pub proof fn lemma_occupied_carries(
    hashes: Seq<Hashes>,
    order: Seq<(usize, usize)>,
    pa: int,
    da: Seq<(u32, u32)>,
    occa: Seq<Option<usize>>,
    pb: int,
    db: Seq<(u32, u32)>,
    occb: Seq<Option<usize>>,
    t: int,
    s: int,
)
    requires
        0 <= t < pa <= order.len(),
        t < pb <= order.len(),
        0 <= s < hashes.len(),
        placed_upto(hashes, order, pa, da, occa),
        placed_upto(hashes, order, pb, db, occb),
        da[order[t].1 as int] == db[order[t].1 as int],
        occupied_before(hashes, order, t, occa) == occupied_before(hashes, order, t, occb),
        occupied_before(hashes, order, t + 1, occa)[s] is Some,
    ensures
        occupied_before(hashes, order, t + 1, occb)[s] == occupied_before(
            hashes,
            order,
            t + 1,
            occa,
        )[s],
{
    let k = occa[s]->0;
    let kb = key_bucket(hashes, da, k as int);
    assert(occa[s] == Some(k));
    assert(ranked_before(order, t + 1, kb));
    assert(ranked_before(order, pa, kb));
    assert(key_slot(hashes, da, k as int) == s);
    if ranked_before(order, t, kb) {
        assert(occupied_before(hashes, order, t, occa)[s] == Some(k));
        assert(occupied_before(hashes, order, t, occb)[s] == Some(k));
        assert(occb[s] == Some(k));
    } else {
        let q = choose|q: int| 0 <= q < t + 1 && (#[trigger] order[q]).1 == kb;
        if q < t {
            assert(ranked_before(order, t, kb));
        }
        assert(kb == order[t].1);
        assert(key_slot(hashes, db, k as int) == s);
        assert(ranked_before(order, pb, key_bucket(hashes, db, k as int)));
        assert(occb[key_slot(hashes, db, k as int)] == Some(k));
    }
}

/// Two greedy placements along the same order, of the first `upto1` and the first
/// `upto2` buckets, agree on the pairs of the first `q` buckets that both have
/// placed, and on what these buckets occupy.
pub proof fn lemma_greedy_agree(
    hashes: Seq<Hashes>,
    buckets: Seq<Bucket>,
    order: Seq<(usize, usize)>,
    upto1: int,
    d1: Seq<(u32, u32)>,
    occ1: Seq<Option<usize>>,
    upto2: int,
    d2: Seq<(u32, u32)>,
    occ2: Seq<Option<usize>>,
    q: int,
)
    requires
        0 <= q <= upto1 <= order.len(),
        q <= upto2 <= order.len(),
        placed_upto(hashes, order, upto1, d1, occ1),
        placed_upto(hashes, order, upto2, d2, occ2),
        greedy_upto(hashes, buckets, order, upto1, d1, occ1),
        greedy_upto(hashes, buckets, order, upto2, d2, occ2),
    ensures
        forall|t: int| 0 <= t < q ==> d1[(#[trigger] order[t]).1 as int] == d2[order[t].1 as int],
        occupied_before(hashes, order, q, occ1) == occupied_before(hashes, order, q, occ2),
    decreases q,
{
    if q == 0 {
        assert forall|b: int| !ranked_before(order, 0, b) by {}
        assert(occupied_before(hashes, order, 0, occ1) =~= occupied_before(
            hashes,
            order,
            0,
            occ2,
        ));
    } else {
        let t = q - 1;
        lemma_greedy_agree(hashes, buckets, order, upto1, d1, occ1, upto2, d2, occ2, t);
        let b = order[t].1 as int;
        let keys = buckets[b].keys@;
        let seen = occupied_before(hashes, order, t, occ1);
        assert(least_fit(hashes, keys, d1[b], seen));
        assert(least_fit(hashes, keys, d2[b], seen));
        let e1 = d1[b];
        let e2 = d2[b];
        assert(e1 == e2) by {
            if e1 != e2 {
                assert(pair_before(e1, e2) || pair_before(e2, e1));
            }
        }
        let a = occupied_before(hashes, order, q, occ1);
        let c = occupied_before(hashes, order, q, occ2);
        assert forall|s: int| 0 <= s < a.len() implies a[s] == c[s] by {
            if a[s] is Some {
                lemma_occupied_carries(hashes, order, upto1, d1, occ1, upto2, d2, occ2, t, s);
            } else if c[s] is Some {
                lemma_occupied_carries(hashes, order, upto2, d2, occ2, upto1, d1, occ1, t, s);
            }
        }
        assert(a =~= c);
    }
}

/// A table that places the keys is a complete placement along any plan.
pub proof fn lemma_valid_is_placed(
    hashes: Seq<Hashes>,
    buckets: Seq<Bucket>,
    order: Seq<(usize, usize)>,
    state: HashState,
)
    requires
        state.valid_for(hashes),
        built_by(hashes, buckets, order, state.disps@, state.map@),
    ensures
        placed_upto(
            hashes,
            order,
            order.len() as int,
            state.disps@,
            Seq::new(state.map@.len(), |s: int| Some(state.map@[s])),
        ),
{
    let occ = Seq::new(state.map@.len(), |s: int| Some(state.map@[s]));
    let disps = state.disps@;
    let nb = order.len() as int;
    assert forall|k: int|
        0 <= k < hashes.len() && ranked_before(
            order,
            nb,
            key_bucket(hashes, disps, k),
        ) implies occ[#[trigger] key_slot(hashes, disps, k)] == Some(k as usize) by {}
    assert forall|s: int| 0 <= s < occ.len() implies match #[trigger] occ[s] {
        Some(k) => k < hashes.len() && ranked_before(order, nb, key_bucket(hashes, disps, k as int))
            && key_slot(hashes, disps, k as int) == s,
        None => true,
    } by {
        let k = state.map@[s];
        assert(k < hashes.len());
        lemma_bucket_range(hashes[k as int].g, nb);
        assert(ranked_before(order, nb, key_bucket(hashes, disps, k as int)));
    }
}

/// The search is deterministic: two tables that it can arrive at for keys with
/// the same hashes have the same displacement pairs and the same slot map.
pub proof fn lemma_search_is_deterministic(hashes: Seq<Hashes>, s1: HashState, s2: HashState)
    requires
        s1.valid_for(hashes),
        s2.valid_for(hashes),
        built_greedily(hashes, s1.disps@, s1.map@),
        built_greedily(hashes, s2.disps@, s2.map@),
    ensures
        s1.disps@ == s2.disps@,
        s1.map@ == s2.map@,
{
    let n = hashes.len() as int;
    let (b1, o1) = choose|b: Seq<Bucket>, o: Seq<(usize, usize)>| #[trigger]
        built_by(hashes, b, o, s1.disps@, s1.map@);
    let (b2, o2) = choose|b: Seq<Bucket>, o: Seq<(usize, usize)>| #[trigger]
        built_by(hashes, b, o, s2.disps@, s2.map@);
    let nb = b1.len() as int;
    assert forall|b: int| 0 <= b < b1.len() implies (#[trigger] b1[b]).keys@ == b2[b].keys@ by {
        lemma_members_unique(b1[b].keys@, b2[b].keys@, hashes, nb, b, n);
    }
    lemma_plan_unique(o1, b1, o2, b2);
    assert(o1 == o2);
    let occ1 = Seq::new(s1.map@.len(), |s: int| Some(s1.map@[s]));
    let occ2 = Seq::new(s2.map@.len(), |s: int| Some(s2.map@[s]));
    lemma_valid_is_placed(hashes, b1, o1, s1);
    lemma_valid_is_placed(hashes, b2, o2, s2);
    assert(greedy_upto(hashes, b1, o1, nb, s2.disps@, occ2)) by {
        assert forall|q: int|
            #![trigger o1[q]]
            0 <= q < nb implies least_fit(
            hashes,
            b1[o1[q].1 as int].keys@,
            s2.disps@[o1[q].1 as int],
            occupied_before(hashes, o1, q, occ2),
        ) by {
            assert(b1[o2[q].1 as int].keys@ == b2[o2[q].1 as int].keys@);
        }
    }
    lemma_greedy_agree(hashes, b1, o1, nb, s1.disps@, occ1, nb, s2.disps@, occ2, nb);
    assert forall|b: int| 0 <= b < nb implies s1.disps@[b] == s2.disps@[b] by {
        assert(ranked_before(o1, nb, b));
        let t = choose|t: int| 0 <= t < nb && (#[trigger] o1[t]).1 == b;
        assert(s1.disps@[o1[t].1 as int] == s2.disps@[o1[t].1 as int]);
    }
    assert(s1.disps@ =~= s2.disps@);
    assert forall|s: int| 0 <= s < n implies s1.map@[s] == s2.map@[s] by {
        assert(occupied_before(hashes, o1, nb, occ1)[s] == occ1[s]);
        assert(occupied_before(hashes, o1, nb, occ2)[s] == occ2[s]);
        assert(occ1[s] == Some(s1.map@[s]));
        assert(occ2[s] == Some(s2.map@[s]));
    }
    assert(s1.map@ =~= s2.map@);
}

/// A complete greedy placement shows that the search is not stuck: the
/// placement at which it would be stuck is the beginning of the complete one,
/// which has a pair for the next bucket.
pub proof fn lemma_complete_excludes_stuck(
    hashes: Seq<Hashes>,
    buckets: Seq<Bucket>,
    order: Seq<(usize, usize)>,
    disps: Seq<(u32, u32)>,
    occ: Seq<Option<usize>>,
)
    requires
        buckets.len() == spec_bucket_count(hashes.len() as int),
        partitioned(buckets, hashes, hashes.len() as int),
        is_plan(order, buckets),
        placed_upto(hashes, order, order.len() as int, disps, occ),
        greedy_upto(hashes, buckets, order, order.len() as int, disps, occ),
    ensures
        !stuck(hashes),
{
    if stuck(hashes) {
        let n = hashes.len() as int;
        let (b2, o2, p, d2, occ2) = choose|
            buckets: Seq<Bucket>,
            order: Seq<(usize, usize)>,
            p: int,
            disps: Seq<(u32, u32)>,
            occ: Seq<Option<usize>>,
        | #[trigger]
            stuck_at(hashes, buckets, order, p, disps, occ);
        let nb = order.len() as int;
        assert(b2.len() == nb);
        assert forall|b: int| 0 <= b < buckets.len() implies (#[trigger] buckets[b]).keys@
            == b2[b].keys@ by {
            lemma_members_unique(buckets[b].keys@, b2[b].keys@, hashes, nb, b, n);
        }
        lemma_plan_unique(order, buckets, o2, b2);
        assert(order == o2);
        assert(greedy_upto(hashes, buckets, order, p, d2, occ2)) by {
            assert forall|q: int|
                #![trigger order[q]]
                0 <= q < p implies least_fit(
                hashes,
                buckets[order[q].1 as int].keys@,
                d2[order[q].1 as int],
                occupied_before(hashes, order, q, occ2),
            ) by {
                assert(buckets[o2[q].1 as int].keys@ == b2[o2[q].1 as int].keys@);
            }
        }
        lemma_greedy_agree(hashes, buckets, order, nb, disps, occ, p, d2, occ2, p);
        assert(occupied_before(hashes, order, p, occ2) =~= occ2);
        let b = order[p].1 as int;
        let e = disps[b];
        assert(least_fit(hashes, buckets[b].keys@, e, occupied_before(hashes, order, p, occ)));
        assert(buckets[b].keys@ == b2[b].keys@);
        assert(pair_fits(hashes, b2[o2[p].1 as int].keys@, e, occ2));
    }
}

/// Where the search arrives at a table, it is not stuck.
pub proof fn lemma_table_excludes_stuck(hashes: Seq<Hashes>, state: HashState)
    requires
        state.valid_for(hashes),
        built_greedily(hashes, state.disps@, state.map@),
    ensures
        !stuck(hashes),
{
    let (b1, o1) = choose|b: Seq<Bucket>, o: Seq<(usize, usize)>| #[trigger]
        built_by(hashes, b, o, state.disps@, state.map@);
    lemma_valid_is_placed(hashes, b1, o1, state);
    lemma_complete_excludes_stuck(
        hashes,
        b1,
        o1,
        state.disps@,
        Seq::new(state.map@.len(), |s: int| Some(state.map@[s])),
    );
}

} // verus!
