//! Construction of the table: hash the keys, plan the buckets, place them one
//! by one, and start over with fresh key material when a bucket cannot be
//! placed.

use crate::determinism::{
    lemma_complete_excludes_stuck, lemma_search_is_deterministic, lemma_table_excludes_stuck,
};
use crate::placement::{
    greedy_upto, key_bucket, key_slot, lemma_all_occupied, lemma_bucket_range,
    lemma_greedy_step, lemma_place_step, lemma_slot_range, placed_upto,
};
use crate::planner::{
    bucket_count, bucket_order, fill_buckets, is_plan, members_upto, partitioned,
    ranked_before, spec_bucket_count, Bucket,
};
use crate::shared::{hash, spec_hash, HashKey, Hashes, PhfHash};
use crate::solver::{overwrite_all, pair_fits, place_bucket, slot_at, stamps_at_most};
use crate::stream::{key_stream, next_key};
use vstd::prelude::*;

verus! {

/// The seed of the key stream that `generate_hash` draws from.
pub const FIXED_SEED: u64 = 1234567890;

/// The number of draws of key material after which `generate_hash` gives up.
pub const DEFAULT_MAX_ATTEMPTS: usize = 1000;

/// A finished table.
#[derive(Debug)]
pub struct HashState {
    /// The key material under which the keys were hashed.
    pub key: HashKey,
    /// One displacement pair per bucket.
    pub disps: Vec<(u32, u32)>,
    /// For each slot, the index of the key that stands there.
    pub map: Vec<usize>,
}

impl HashState {
    /// The table places the keys with the given hashes: it has one slot per key
    /// and one pair per bucket, every key's index stands at the slot that the
    /// table assigns to the key, and every slot holds the index of a key that
    /// the table sends there. Slots and key indices thus correspond one to one.
    pub open spec fn valid_for(&self, hashes: Seq<Hashes>) -> bool {
        &&& self.map@.len() == hashes.len()
        &&& self.disps@.len() == spec_bucket_count(hashes.len() as int)
        &&& forall|k: int|
            0 <= k < hashes.len() ==> {
                &&& 0 <= #[trigger] key_slot(hashes, self.disps@, k) < hashes.len()
                &&& self.map@[key_slot(hashes, self.disps@, k)] == k
            }
        &&& forall|s: int|
            0 <= s < self.map@.len() ==> (#[trigger] self.map@[s]) < hashes.len() && key_slot(
                hashes,
                self.disps@,
                self.map@[s] as int,
            ) == s
    }
}

/// Why no table was built.
#[derive(Clone, Copy, Debug, PartialEq, Eq, Structural)]
pub enum GenerateError {
    /// Two of the keys are the same key, so no table can tell them apart.
    DuplicateKeys,
    /// The keys are distinct, but none of the allowed draws of key material led
    /// to a table.
    RetriesExhausted,
}

/// The hashes of all keys under the key material `key`.
pub open spec fn spec_hashes<H: PhfHash>(entries: Seq<H>, key: HashKey) -> Seq<Hashes> {
    Seq::new(entries.len(), |i: int| spec_hash(entries[i].hash_input(), key))
}

/// Two of the keys contribute the same bytes.
pub open spec fn has_duplicate<H: PhfHash>(entries: Seq<H>) -> bool {
    exists|i: int, j: int|
        0 <= i < j < entries.len() && #[trigger] entries[i].hash_input()
            == #[trigger] entries[j].hash_input()
}

/// The search is stuck on the keys with the given hashes: with the buckets
/// planned and the first `p` of them placed, each under the first pair that
/// fitted it, no pair fits the next bucket.
pub open spec fn stuck_at(
    hashes: Seq<Hashes>,
    buckets: Seq<Bucket>,
    order: Seq<(usize, usize)>,
    p: int,
    disps: Seq<(u32, u32)>,
    occ: Seq<Option<usize>>,
) -> bool {
    &&& buckets.len() == spec_bucket_count(hashes.len() as int)
    &&& partitioned(buckets, hashes, hashes.len() as int)
    &&& is_plan(order, buckets)
    &&& 0 <= p < order.len()
    &&& placed_upto(hashes, order, p, disps, occ)
    &&& greedy_upto(hashes, buckets, order, p, disps, occ)
    &&& forall|e: (u32, u32)|
        e.0 < hashes.len() && e.1 < hashes.len() ==> !#[trigger] pair_fits(
            hashes,
            buckets[order[p].1 as int].keys@,
            e,
            occ,
        )
}

/// The search gets stuck at some bucket.
pub open spec fn stuck(hashes: Seq<Hashes>) -> bool {
    exists|
        buckets: Seq<Bucket>,
        order: Seq<(usize, usize)>,
        p: int,
        disps: Seq<(u32, u32)>,
        occ: Seq<Option<usize>>,
    | #[trigger]
        stuck_at(hashes, buckets, order, p, disps, occ)
}

/// The table `disps` with the slot map `slot_map` is what the search arrives at
/// for the keys with the given hashes: the buckets are planned from the largest
/// down, and each has the first pair that fits it over what the buckets before
/// it occupy.
pub open spec fn built_greedily(
    hashes: Seq<Hashes>,
    disps: Seq<(u32, u32)>,
    slot_map: Seq<usize>,
) -> bool {
    exists|buckets: Seq<Bucket>, order: Seq<(usize, usize)>| #[trigger]
        built_by(hashes, buckets, order, disps, slot_map)
}

/// As `built_greedily`, for the given buckets and their order.
pub open spec fn built_by(
    hashes: Seq<Hashes>,
    buckets: Seq<Bucket>,
    order: Seq<(usize, usize)>,
    disps: Seq<(u32, u32)>,
    slot_map: Seq<usize>,
) -> bool {
    &&& buckets.len() == spec_bucket_count(hashes.len() as int)
    &&& partitioned(buckets, hashes, hashes.len() as int)
    &&& is_plan(order, buckets)
    &&& greedy_upto(
        hashes,
        buckets,
        order,
        order.len() as int,
        disps,
        Seq::new(slot_map.len(), |s: int| Some(slot_map[s])),
    )
}

/// The scratch space of a construction, made once and used again by every
/// attempt.
pub struct GenCtxt {
    /// The hashes of the keys under the key material of the attempt.
    pub hashes: Vec<Hashes>,
    /// The buckets, each at the place of its number.
    pub buckets: Vec<Bucket>,
    /// For each slot, the key that stands there, if any.
    pub map: Vec<Option<usize>>,
    /// For each bucket, its displacement pair.
    pub disps: Vec<(u32, u32)>,
    /// For each slot, the stamp of the last attempt that claimed it.
    pub try_map: Vec<u64>,
    /// The slots and keys of the bucket that is being placed.
    pub values_to_add: Vec<(usize, usize)>,
}

impl GenCtxt {
    /// The scratch space is ready for an attempt on `n` keys: no hashes, empty
    /// numbered buckets, free slots, zero pairs and zero stamps.
    pub open spec fn fresh(&self, n: int) -> bool {
        &&& self.hashes@.len() == 0
        &&& self.buckets@.len() == spec_bucket_count(n)
        &&& self.disps@.len() == spec_bucket_count(n)
        &&& self.map@.len() == n
        &&& self.try_map@.len() == n
        &&& self.values_to_add@.len() == 0
        &&& forall|b: int|
            0 <= b < self.buckets@.len() ==> (#[trigger] self.buckets@[b]).idx == b
                && self.buckets@[b].keys@.len() == 0
        &&& forall|b: int| 0 <= b < self.disps@.len() ==> #[trigger] self.disps@[b] == (0u32, 0u32)
        &&& forall|s: int| 0 <= s < self.map@.len() ==> (#[trigger] self.map@[s]) is None
        &&& forall|s: int| 0 <= s < self.try_map@.len() ==> #[trigger] self.try_map@[s] == 0
    }

    /// Scratch space for `n` keys.
    pub fn new(n: usize) -> (ctxt: GenCtxt)
        ensures
            ctxt.fresh(n as int),
    {
        let buckets_len: usize = bucket_count(n);
        let mut buckets: Vec<Bucket> = Vec::new();
        let mut disps: Vec<(u32, u32)> = Vec::new();
        let mut b: usize = 0;
        while b < buckets_len
            invariant
                b <= buckets_len,
                buckets@.len() == b,
                disps@.len() == b,
                forall|t: int|
                    0 <= t < b ==> (#[trigger] buckets@[t]).idx == t && buckets@[t].keys@.len()
                        == 0,
                forall|t: int| 0 <= t < b ==> #[trigger] disps@[t] == (0u32, 0u32),
            decreases buckets_len - b,
        {
            buckets.push(Bucket { idx: b, keys: Vec::new() });
            disps.push((0, 0));
            b += 1;
        }
        let mut map: Vec<Option<usize>> = Vec::new();
        let mut try_map: Vec<u64> = Vec::new();
        let mut s: usize = 0;
        while s < n
            invariant
                s <= n,
                map@.len() == s,
                try_map@.len() == s,
                forall|t: int| 0 <= t < s ==> (#[trigger] map@[t]) is None,
                forall|t: int| 0 <= t < s ==> #[trigger] try_map@[t] == 0,
            decreases n - s,
        {
            map.push(None);
            try_map.push(0);
            s += 1;
        }
        GenCtxt {
            hashes: Vec::new(),
            buckets,
            map,
            disps,
            try_map,
            values_to_add: Vec::new(),
        }
    }

    /// Makes the scratch space ready for the next attempt, in place.
    pub fn reset(&mut self)
        ensures
            final(self).hashes@.len() == 0,
            final(self).values_to_add@.len() == 0,
            final(self).buckets@.len() == old(self).buckets@.len(),
            final(self).disps@.len() == old(self).disps@.len(),
            final(self).map@.len() == old(self).map@.len(),
            final(self).try_map@.len() == old(self).try_map@.len(),
            forall|b: int|
                0 <= b < final(self).buckets@.len() ==> (#[trigger] final(self).buckets@[b]).idx
                    == b && final(self).buckets@[b].keys@.len() == 0,
            forall|b: int|
                0 <= b < final(self).disps@.len() ==> #[trigger] final(self).disps@[b] == (
                    0u32,
                    0u32,
                ),
            forall|s: int|
                0 <= s < final(self).map@.len() ==> (#[trigger] final(self).map@[s]) is None,
            forall|s: int|
                0 <= s < final(self).try_map@.len() ==> #[trigger] final(self).try_map@[s] == 0,
    {
        self.hashes.clear();
        clear_buckets(&mut self.buckets);
        overwrite_all(&mut self.map, None);
        overwrite_all(&mut self.disps, (0, 0));
        overwrite_all(&mut self.try_map, 0);
        self.values_to_add.clear();
    }
}

/// Empties every bucket and numbers the buckets by their places.
pub fn clear_buckets(buckets: &mut Vec<Bucket>)
    ensures
        final(buckets)@.len() == old(buckets)@.len(),
        forall|b: int|
            0 <= b < final(buckets)@.len() ==> (#[trigger] final(buckets)@[b]).idx == b
                && final(buckets)@[b].keys@.len() == 0,
{
    let n: usize = buckets.len();
    let mut i: usize = 0;
    while i < n
        invariant
            i <= n,
            buckets@.len() == n,
            forall|b: int|
                0 <= b < i ==> (#[trigger] buckets@[b]).idx == b && buckets@[b].keys@.len() == 0,
        decreases n - i,
    {
        buckets[i].idx = i;
        buckets[i].keys.clear();
        i += 1;
    }
}

/// Hashes every key under `key`, in order, onto the end of `hashes`.
pub fn fill_hashes<H: PhfHash>(entries: &[H], key: &HashKey, hashes: &mut Vec<Hashes>)
    requires
        old(hashes)@.len() == 0,
    ensures
        final(hashes)@ == spec_hashes(entries@, *key),
{
    let mut i: usize = 0;
    while i < entries.len()
        invariant
            i <= entries@.len(),
            hashes@.len() == i,
            forall|t: int|
                0 <= t < i ==> #[trigger] hashes@[t] == spec_hash(entries@[t].hash_input(), *key),
        decreases entries@.len() - i,
    {
        hashes.push(hash(&entries[i], key));
        i += 1;
    }
    assert(hashes@ =~= spec_hashes(entries@, *key));
}

/// Places the buckets in the planned order, each under the first pair that
/// fits it. Returns whether every bucket found a pair; if one did not, the
/// search stops there.
pub fn place_all(
    hashes: &Vec<Hashes>,
    buckets: &Vec<Bucket>,
    order: &Vec<(usize, usize)>,
    map: &mut Vec<Option<usize>>,
    disps: &mut Vec<(u32, u32)>,
    try_map: &mut Vec<u64>,
    values_to_add: &mut Vec<(usize, usize)>,
) -> (done: bool)
    requires
        0 < hashes@.len() <= u32::MAX,
        buckets@.len() == spec_bucket_count(hashes@.len() as int),
        partitioned(buckets@, hashes@, hashes@.len() as int),
        is_plan(order@, buckets@),
        old(disps)@.len() == buckets@.len(),
        old(map)@.len() == hashes@.len(),
        old(try_map)@.len() == hashes@.len(),
        forall|s: int| 0 <= s < old(map)@.len() ==> (#[trigger] old(map)@[s]) is None,
        forall|s: int| 0 <= s < old(try_map)@.len() ==> #[trigger] old(try_map)@[s] == 0,
    ensures
        final(disps)@.len() == buckets@.len(),
        final(map)@.len() == hashes@.len(),
        final(try_map)@.len() == hashes@.len(),
        done ==> placed_upto(
            hashes@,
            order@,
            order@.len() as int,
            final(disps)@,
            final(map)@,
        ),
        done ==> greedy_upto(
            hashes@,
            buckets@,
            order@,
            order@.len() as int,
            final(disps)@,
            final(map)@,
        ),
        done <==> !stuck(hashes@),
{
    let mut generation: u64 = 0;
    let mut p: usize = 0;
    assert(placed_upto(hashes@, order@, 0, disps@, map@));
    while p < order.len()
        invariant
            0 < hashes@.len() <= u32::MAX,
            buckets@.len() == spec_bucket_count(hashes@.len() as int),
            partitioned(buckets@, hashes@, hashes@.len() as int),
            is_plan(order@, buckets@),
            p <= order@.len(),
            disps@.len() == buckets@.len(),
            map@.len() == hashes@.len(),
            try_map@.len() == hashes@.len(),
            stamps_at_most(try_map@, generation),
            placed_upto(hashes@, order@, p as int, disps@, map@),
            greedy_upto(hashes@, buckets@, order@, p as int, disps@, map@),
        decreases order@.len() - p,
    {
        let b: usize = order[p].1;
        let ghost occ = map@;
        let ghost before = disps@;
        assert(members_upto(
            buckets@[b as int].keys@,
            hashes@,
            buckets@.len() as int,
            b as int,
            hashes@.len() as int,
        ));
        match place_bucket(hashes, &buckets[b].keys, map, try_map, values_to_add, &mut generation) {
            Some(d) => {
                disps[b] = d;
                proof {
                    lemma_place_step(hashes@, buckets@, order@, p as int, before, occ, d, map@);
                    lemma_greedy_step(hashes@, buckets@, order@, p as int, before, occ, d, map@);
                }
            },
            None => {
                assert(stuck_at(hashes@, buckets@, order@, p as int, disps@, map@));
                return false;
            },
        }
        p += 1;
    }
    proof {
        lemma_complete_excludes_stuck(hashes@, buckets@, order@, disps@, map@);
    }
    true
}

/// One attempt at a table for `entries`, under the key material `key`.
///
/// The keys are hashed, distributed over the buckets, and the buckets placed
/// from the largest down. The attempt fails when some bucket finds no pair; the
/// scratch space is then reset for the next attempt.
pub fn try_generate_hash<H: PhfHash>(ctxt: &mut GenCtxt, entries: &[H], key: HashKey) -> (r:
    Option<HashState>)
    requires
        entries@.len() <= u32::MAX,
        old(ctxt).fresh(entries@.len() as int),
    ensures
        match r {
            Some(state) => {
                &&& state.key == key
                &&& state.valid_for(spec_hashes(entries@, key))
                &&& built_greedily(spec_hashes(entries@, key), state.disps@, state.map@)
            },
            None => final(ctxt).fresh(entries@.len() as int),
        },
        r is None <==> stuck(spec_hashes(entries@, key)),
{
    let n: usize = entries.len();
    fill_hashes(entries, &key, &mut ctxt.hashes);
    let ghost hashes = ctxt.hashes@;
    let mut order: Vec<(usize, usize)> = Vec::new();
    if n > 0 {
        fill_buckets(&ctxt.hashes, &mut ctxt.buckets);
        order = bucket_order(&ctxt.buckets);
        let done: bool = place_all(
            &ctxt.hashes,
            &ctxt.buckets,
            &order,
            &mut ctxt.map,
            &mut ctxt.disps,
            &mut ctxt.try_map,
            &mut ctxt.values_to_add,
        );
        if !done {
            ctxt.reset();
            return None;
        }
        proof {
            let disps = ctxt.disps@;
            let occ = ctxt.map@;
            let slots = Seq::new(n as nat, |k: int| key_slot(hashes, disps, k));
            assert forall|k: int| 0 <= k < n implies 0 <= #[trigger] slots[k] < n && occ[slots[k]]
                == Some(k as usize) by {
                let kb = key_bucket(hashes, disps, k);
                lemma_bucket_range(hashes[k].g, disps.len() as int);
                lemma_slot_range(hashes[k], disps[kb], n as int);
                assert(ranked_before(order@, order@.len() as int, kb));
                assert(occ[key_slot(hashes, disps, k)] == Some(k as usize));
            }
            lemma_all_occupied(slots, occ);
        }
    }
    let ghost buckets = ctxt.buckets@;
    let ghost occ = ctxt.map@;
    assert(partitioned(buckets, hashes, n as int));
    assert(is_plan(order@, buckets));
    assert(greedy_upto(hashes, buckets, order@, order@.len() as int, ctxt.disps@, occ));
    let mut disps: Vec<(u32, u32)> = Vec::new();
    core::mem::swap(&mut ctxt.disps, &mut disps);
    let mut map: Vec<usize> = Vec::new();
    let mut s: usize = 0;
    while s < n
        invariant
            s <= n,
            n == ctxt.map@.len(),
            map@.len() == s,
            forall|t: int| 0 <= t < n ==> (#[trigger] ctxt.map@[t]) is Some,
            forall|t: int| 0 <= t < s ==> ctxt.map@[t] == Some(#[trigger] map@[t]),
        decreases n - s,
    {
        map.push(ctxt.map[s].unwrap());
        s += 1;
    }
    let state = HashState { key, disps, map };
    proof {
        assert forall|k: int| 0 <= k < hashes.len() implies {
            &&& 0 <= #[trigger] key_slot(hashes, state.disps@, k) < hashes.len()
            &&& state.map@[key_slot(hashes, state.disps@, k)] == k
        } by {
            let kb = key_bucket(hashes, state.disps@, k);
            lemma_bucket_range(hashes[k].g, state.disps@.len() as int);
            lemma_slot_range(hashes[k], state.disps@[kb], n as int);
        }
        assert forall|t: int| 0 <= t < state.map@.len() implies (#[trigger] state.map@[t])
            < hashes.len() && key_slot(hashes, state.disps@, state.map@[t] as int) == t by {
            assert(ctxt.map@[t] == Some(state.map@[t]));
        }
        assert(occ =~= Seq::new(state.map@.len(), |s: int| Some(state.map@[s])));
        assert(built_by(hashes, buckets, order@, state.disps@, state.map@));
        lemma_table_excludes_stuck(hashes, state);
    }
    Some(state)
}

/// The bytes that the key `x` contributes.
pub fn key_bytes<H: PhfHash>(x: &H) -> (bytes: Vec<u8>)
    ensures
        bytes@ == x.hash_input(),
{
    let mut bytes: Vec<u8> = Vec::new();
    x.phf_hash(&mut bytes);
    assert(bytes@ =~= x.hash_input());
    bytes
}

/// Whether two byte strings are the same.
pub fn bytes_equal(a: &Vec<u8>, b: &Vec<u8>) -> (same: bool)
    ensures
        same == (a@ == b@),
{
    if a.len() != b.len() {
        return false;
    }
    let mut i: usize = 0;
    while i < a.len()
        invariant
            a@.len() == b@.len(),
            i <= a@.len(),
            forall|t: int| 0 <= t < i ==> a@[t] == b@[t],
        decreases a@.len() - i,
    {
        if a[i] != b[i] {
            return false;
        }
        i += 1;
    }
    assert(a@ =~= b@);
    true
}

/// Whether two of the keys are the same key.
pub fn has_duplicate_keys<H: PhfHash>(entries: &[H]) -> (found: bool)
    ensures
        found == has_duplicate(entries@),
{
    let n: usize = entries.len();
    let mut inputs: Vec<Vec<u8>> = Vec::new();
    let mut k: usize = 0;
    while k < n
        invariant
            n == entries@.len(),
            k <= n,
            inputs@.len() == k,
            forall|t: int| 0 <= t < k ==> (#[trigger] inputs@[t])@ == entries@[t].hash_input(),
        decreases n - k,
    {
        inputs.push(key_bytes(&entries[k]));
        k += 1;
    }
    let mut i: usize = 0;
    while i < n
        invariant
            n == entries@.len(),
            i <= n,
            inputs@.len() == n,
            forall|t: int| 0 <= t < n ==> (#[trigger] inputs@[t])@ == entries@[t].hash_input(),
            forall|a: int, b: int|
                0 <= a < i && a < b < n ==> #[trigger] entries@[a].hash_input()
                    != #[trigger] entries@[b].hash_input(),
        decreases n - i,
    {
        let mut j: usize = i + 1;
        while j < n
            invariant
                n == entries@.len(),
                i < j <= n,
                inputs@.len() == n,
                forall|t: int|
                    0 <= t < n ==> (#[trigger] inputs@[t])@ == entries@[t].hash_input(),
                forall|b: int|
                    i < b < j ==> entries@[i as int].hash_input()
                        != #[trigger] entries@[b].hash_input(),
            decreases n - j,
        {
            if bytes_equal(&inputs[i], &inputs[j]) {
                assert(entries@[i as int].hash_input() == entries@[j as int].hash_input());
                return true;
            }
            j += 1;
        }
        i += 1;
    }
    false
}

/// A key set with two equal keys has no table: whatever the key material, the
/// two keys have the same hashes and so the same slot, which can hold only one
/// of their indices.
pub proof fn lemma_duplicate_keys_have_no_table<H: PhfHash>(entries: Seq<H>, state: HashState)
    requires
        has_duplicate(entries),
    ensures
        !state.valid_for(spec_hashes(entries, state.key)),
{
    let hashes = spec_hashes(entries, state.key);
    if state.valid_for(hashes) {
        let (i, j) = choose|i: int, j: int|
            0 <= i < j < entries.len() && #[trigger] entries[i].hash_input()
                == #[trigger] entries[j].hash_input();
        assert(hashes[i] == hashes[j]);
        assert(state.map@[key_slot(hashes, state.disps@, i)] == i);
        assert(state.map@[key_slot(hashes, state.disps@, j)] == j);
    }
}

/// The slot map of a table that places `n` keys is a permutation of the key
/// indices: every entry is below `n`, no index stands at two slots, and every
/// index stands at some slot.
pub proof fn lemma_slot_map_is_permutation(state: HashState, hashes: Seq<Hashes>)
    requires
        state.valid_for(hashes),
    ensures
        state.map@.len() == hashes.len(),
        state.map@.no_duplicates(),
        forall|s: int| 0 <= s < state.map@.len() ==> (#[trigger] state.map@[s]) < hashes.len(),
        forall|k: usize| k < hashes.len() ==> #[trigger] state.map@.contains(k),
{
    assert forall|s: int, t: int|
        0 <= s < state.map@.len() && 0 <= t < state.map@.len() && s != t implies state.map@[s]
        != state.map@[t] by {
        assert(key_slot(hashes, state.disps@, state.map@[s] as int) == s);
        assert(key_slot(hashes, state.disps@, state.map@[t] as int) == t);
    }
    assert forall|k: usize| k < hashes.len() implies #[trigger] state.map@.contains(k) by {
        let s = key_slot(hashes, state.disps@, k as int);
        assert(state.map@[s] == k);
    }
}

/// The search for a single key is never stuck: its slot is free, and the first
/// pair fits.
pub proof fn lemma_single_key_is_placed(hashes: Seq<Hashes>)
    requires
        hashes.len() == 1,
    ensures
        !stuck(hashes),
{
    if stuck(hashes) {
        let (buckets, order, p, disps, occ) = choose|
            buckets: Seq<Bucket>,
            order: Seq<(usize, usize)>,
            p: int,
            disps: Seq<(u32, u32)>,
            occ: Seq<Option<usize>>,
        | #[trigger]
            stuck_at(hashes, buckets, order, p, disps, occ);
        let b = order[p].1 as int;
        let keys = buckets[b].keys@;
        let e = (0u32, 0u32);
        assert(members_upto(keys, hashes, 1, b, 1));
        assert(!ranked_before(order, 0, 0));
        assert(occ[0] is None);
        assert(keys.len() <= 1) by {
            if keys.len() >= 2 {
                assert(keys[0] < keys[1]);
            }
        }
        assert forall|j: int| 0 <= j < keys.len() implies occ[#[trigger] slot_at(
            hashes,
            keys,
            e,
            j,
        )] is None by {
            lemma_slot_range(hashes[keys[j] as int], e, 1);
        }
        assert(pair_fits(hashes, keys, e, occ));
    }
}

/// The first `upto` key materials all leave the search stuck.
pub open spec fn all_stuck<H: PhfHash>(entries: Seq<H>, materials: Seq<HashKey>, upto: int) -> bool {
    forall|j: int| 0 <= j < upto ==> stuck(spec_hashes(entries, #[trigger] materials[j]))
}

/// What trying the key materials in turn comes to: the table of the first
/// material under which the search is not stuck; or, where it is stuck under
/// all of them, the reason, which is equal keys exactly when there are any.
pub open spec fn outcome_of<H: PhfHash>(
    entries: Seq<H>,
    materials: Seq<HashKey>,
    r: Result<HashState, GenerateError>,
) -> bool {
    match r {
        Ok(state) => {
            &&& exists|i: int|
                0 <= i < materials.len() && #[trigger] materials[i] == state.key && all_stuck(
                    entries,
                    materials,
                    i,
                )
            &&& !stuck(spec_hashes(entries, state.key))
            &&& state.valid_for(spec_hashes(entries, state.key))
            &&& built_greedily(spec_hashes(entries, state.key), state.disps@, state.map@)
            &&& !has_duplicate(entries)
        },
        Err(e) => {
            &&& all_stuck(entries, materials, materials.len() as int)
            &&& e == GenerateError::DuplicateKeys <==> has_duplicate(entries)
        },
    }
}

/// Builds a table for `entries` under the first of the given key materials
/// that leads to one, trying them in order.
pub fn generate_hash_from<H: PhfHash>(entries: &[H], materials: &[HashKey]) -> (r: Result<
    HashState,
    GenerateError,
>)
    requires
        entries@.len() <= u32::MAX,
    ensures
        outcome_of(entries@, materials@, r),
{
    let n: usize = entries.len();
    let mut ctxt: GenCtxt = GenCtxt::new(n);
    let mut attempt: usize = 0;
    while attempt < materials.len()
        invariant
            n == entries@.len(),
            n <= u32::MAX,
            ctxt.fresh(n as int),
            attempt <= materials@.len(),
            all_stuck(entries@, materials@, attempt as int),
        decreases materials@.len() - attempt,
    {
        let key: HashKey = materials[attempt];
        match try_generate_hash(&mut ctxt, entries, key) {
            Some(state) => {
                proof {
                    if has_duplicate(entries@) {
                        lemma_duplicate_keys_have_no_table(entries@, state);
                    }
                    assert(materials@[attempt as int] == state.key);
                }
                return Ok(state);
            },
            None => {},
        }
        attempt += 1;
    }
    if has_duplicate_keys(entries) {
        Err(GenerateError::DuplicateKeys)
    } else {
        Err(GenerateError::RetriesExhausted)
    }
}

/// Trying the same key materials on the same keys has one outcome: the same
/// key material, the same displacement pairs and the same slot map, or the
/// same error.
pub proof fn lemma_construction_is_deterministic<H: PhfHash>(
    entries: Seq<H>,
    materials: Seq<HashKey>,
    r1: Result<HashState, GenerateError>,
    r2: Result<HashState, GenerateError>,
)
    requires
        outcome_of(entries, materials, r1),
        outcome_of(entries, materials, r2),
    ensures
        match (r1, r2) {
            (Ok(s1), Ok(s2)) => s1.key == s2.key && s1.disps@ == s2.disps@ && s1.map@ == s2.map@,
            (Err(e1), Err(e2)) => e1 == e2,
            _ => false,
        },
{
    match (r1, r2) {
        (Ok(s1), Ok(s2)) => {
            let i1 = choose|i: int|
                0 <= i < materials.len() && #[trigger] materials[i] == s1.key && all_stuck(
                    entries,
                    materials,
                    i,
                );
            let i2 = choose|i: int|
                0 <= i < materials.len() && #[trigger] materials[i] == s2.key && all_stuck(
                    entries,
                    materials,
                    i,
                );
            if i1 < i2 {
                assert(stuck(spec_hashes(entries, materials[i1])));
            } else if i2 < i1 {
                assert(stuck(spec_hashes(entries, materials[i2])));
            }
            assert(s1.key == s2.key);
            lemma_search_is_deterministic(
                spec_hashes(entries, s1.key),
                s1,
                s2,
            );
        },
        (Ok(s1), Err(_)) => {
            let i1 = choose|i: int|
                0 <= i < materials.len() && #[trigger] materials[i] == s1.key && all_stuck(
                    entries,
                    materials,
                    i,
                );
            assert(stuck(spec_hashes(entries, materials[i1])));
        },
        (Err(_), Ok(s2)) => {
            let i2 = choose|i: int|
                0 <= i < materials.len() && #[trigger] materials[i] == s2.key && all_stuck(
                    entries,
                    materials,
                    i,
                );
            assert(stuck(spec_hashes(entries, materials[i2])));
        },
        (Err(_), Err(_)) => {},
    }
}

/// Builds a table for `entries`, drawing key material from the stream with the
/// given seed, and trying at most `max_attempts` draws.
///
/// With no keys the table is empty and nothing is searched. Keys of which two
/// are the same never get a table. A single key gets one at the first draw.
pub fn generate_hash_with<H: PhfHash>(entries: &[H], seed: u64, max_attempts: usize) -> (r: Result<
    HashState,
    GenerateError,
>)
    requires
        entries@.len() <= u32::MAX,
    ensures
        match r {
            Ok(state) => {
                &&& state.valid_for(spec_hashes(entries@, state.key))
                &&& built_greedily(spec_hashes(entries@, state.key), state.disps@, state.map@)
                &&& !stuck(spec_hashes(entries@, state.key))
                &&& !has_duplicate(entries@)
                &&& entries@.len() == 0 || max_attempts > 0
            },
            Err(e) => {
                &&& entries@.len() > 0
                &&& e == GenerateError::DuplicateKeys <==> has_duplicate(entries@)
                &&& entries@.len() == 1 ==> max_attempts == 0
            },
        },
{
    let n: usize = entries.len();
    let mut rng = key_stream(seed);
    if n == 0 {
        let key: HashKey = next_key(&mut rng);
        let state = HashState { key, disps: Vec::new(), map: Vec::new() };
        assert(spec_hashes(entries@, state.key).len() == 0);
        assert(state.valid_for(spec_hashes(entries@, state.key)));
        assert(!has_duplicate(entries@));
        assert(built_by(
            spec_hashes(entries@, state.key),
            Seq::<Bucket>::empty(),
            Seq::<(usize, usize)>::empty(),
            state.disps@,
            state.map@,
        ));
        proof {
            lemma_table_excludes_stuck(spec_hashes(entries@, state.key), state);
        }
        return Ok(state);
    }
    let mut ctxt: GenCtxt = GenCtxt::new(n);
    let mut attempt: usize = 0;
    while attempt < max_attempts
        invariant
            n == entries@.len(),
            0 < n <= u32::MAX,
            ctxt.fresh(n as int),
            attempt <= max_attempts,
            n == 1 ==> attempt == 0,
        decreases max_attempts - attempt,
    {
        let key: HashKey = next_key(&mut rng);
        match try_generate_hash(&mut ctxt, entries, key) {
            Some(state) => {
                proof {
                    if has_duplicate(entries@) {
                        lemma_duplicate_keys_have_no_table(entries@, state);
                    }
                }
                return Ok(state);
            },
            None => {
                proof {
                    if n == 1 {
                        lemma_single_key_is_placed(spec_hashes(entries@, key));
                    }
                }
            },
        }
        attempt += 1;
    }
    if has_duplicate_keys(entries) {
        Err(GenerateError::DuplicateKeys)
    } else {
        Err(GenerateError::RetriesExhausted)
    }
}

/// Builds a table for `entries` from the fixed seed, with the default bound on
/// the number of attempts.
pub fn generate_hash<H: PhfHash>(entries: &[H]) -> (r: Result<HashState, GenerateError>)
    requires
        entries@.len() <= u32::MAX,
    ensures
        match r {
            Ok(state) => {
                &&& state.valid_for(spec_hashes(entries@, state.key))
                &&& built_greedily(spec_hashes(entries@, state.key), state.disps@, state.map@)
                &&& !has_duplicate(entries@)
            },
            Err(e) => {
                &&& entries@.len() > 1
                &&& e == GenerateError::DuplicateKeys <==> has_duplicate(entries@)
            },
        },
{
    generate_hash_with(entries, FIXED_SEED, DEFAULT_MAX_ATTEMPTS)
}

} // verus!
