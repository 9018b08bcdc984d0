//! The displacement search for one bucket.
//!
//! A candidate pair `(d1, d2)` sends every key of the bucket to a slot. It fits
//! when these slots are free and pairwise distinct. The search walks the pairs
//! in row-major order and commits the first one that fits.

use crate::shared::{displace, spec_slot, Hashes};
use vstd::prelude::*;

verus! {

/// The slot of the `j`-th key of a bucket under the pair `d`.
pub open spec fn slot_at(hashes: Seq<Hashes>, keys: Seq<usize>, d: (u32, u32), j: int) -> int {
    spec_slot(hashes[keys[j] as int], d, hashes.len() as int)
}

/// The pair `d` fits the bucket `keys` over the occupancy `occ`: every key lands
/// on a free slot, and no two keys land on the same one.
pub open spec fn pair_fits(
    hashes: Seq<Hashes>,
    keys: Seq<usize>,
    d: (u32, u32),
    occ: Seq<Option<usize>>,
) -> bool {
    &&& forall|j: int| 0 <= j < keys.len() ==> occ[#[trigger] slot_at(hashes, keys, d, j)] is None
    &&& forall|i: int, j: int|
        0 <= i < j < keys.len() ==> #[trigger] slot_at(hashes, keys, d, i) != #[trigger] slot_at(
            hashes,
            keys,
            d,
            j,
        )
}

/// `after` is `before` with every key of the bucket entered at its slot under `d`.
pub open spec fn committed(
    before: Seq<Option<usize>>,
    after: Seq<Option<usize>>,
    hashes: Seq<Hashes>,
    keys: Seq<usize>,
    d: (u32, u32),
) -> bool {
    &&& after.len() == before.len()
    &&& forall|j: int|
        0 <= j < keys.len() ==> after[#[trigger] slot_at(hashes, keys, d, j)] == Some(keys[j])
    &&& forall|s: int|
        0 <= s < before.len() ==> #[trigger] after[s] == before[s] || exists|j: int|
            0 <= j < keys.len() && #[trigger] slot_at(hashes, keys, d, j) == s
}

/// `pending` lists, key by key of the bucket, the slot under `d` and the key.
pub open spec fn pending_for(
    pending: Seq<(usize, usize)>,
    hashes: Seq<Hashes>,
    keys: Seq<usize>,
    d: (u32, u32),
    upto: int,
) -> bool {
    forall|j: int|
        0 <= j < upto ==> {
            &&& (#[trigger] pending[j]).0 as int == slot_at(hashes, keys, d, j)
            &&& pending[j].0 < hashes.len()
            &&& pending[j].1 == keys[j]
        }
}

/// `e` comes before `d` in row-major order.
pub open spec fn pair_before(e: (u32, u32), d: (u32, u32)) -> bool {
    e.0 < d.0 || (e.0 == d.0 && e.1 < d.1)
}

/// Every key of the bucket is an index into the table.
pub open spec fn keys_in_range(keys: Seq<usize>, n: int) -> bool {
    forall|j: int| 0 <= j < keys.len() ==> #[trigger] keys[j] < n
}

/// No stamp exceeds `bound`.
pub open spec fn stamps_at_most(stamps: Seq<u64>, bound: u64) -> bool {
    forall|s: int| 0 <= s < stamps.len() ==> #[trigger] stamps[s] <= bound
}

/// Writes `val` into every cell of `data`.
pub fn overwrite_all<T: Copy>(data: &mut Vec<T>, val: T)
    ensures
        final(data)@.len() == old(data)@.len(),
        forall|i: int| 0 <= i < final(data)@.len() ==> #[trigger] final(data)@[i] == val,
{
    let n: usize = data.len();
    let mut i: usize = 0;
    while i < n
        invariant
            i <= n,
            data@.len() == n,
            forall|t: int| 0 <= t < i ==> #[trigger] data@[t] == val,
        decreases n - i,
    {
        data[i] = val;
        i += 1;
    }
}

/// Tests one candidate pair against the bucket `keys`.
///
/// `generation` is the stamp of this attempt: a slot that a key of the bucket
/// claims gets the stamp, so a second claim of the same slot shows at once. On
/// success `values_to_add` holds, key by key, the slot and the key.
pub fn try_pair(
    hashes: &Vec<Hashes>,
    keys: &Vec<usize>,
    d1: u32,
    d2: u32,
    map: &Vec<Option<usize>>,
    try_map: &mut Vec<u64>,
    values_to_add: &mut Vec<(usize, usize)>,
    generation: u64,
) -> (ok: bool)
    requires
        0 < hashes@.len() <= u32::MAX,
        map@.len() == hashes@.len(),
        old(try_map)@.len() == hashes@.len(),
        keys_in_range(keys@, hashes@.len() as int),
        generation > 0,
        stamps_at_most(old(try_map)@, (generation - 1) as u64),
    ensures
        final(try_map)@.len() == hashes@.len(),
        stamps_at_most(final(try_map)@, generation),
        ok == pair_fits(hashes@, keys@, (d1, d2), map@),
        ok ==> final(values_to_add)@.len() == keys@.len(),
        ok ==> pending_for(final(values_to_add)@, hashes@, keys@, (d1, d2), keys@.len() as int),
{
    let n: usize = hashes.len();
    let ghost d = (d1, d2);
    values_to_add.clear();
    let mut j: usize = 0;
    while j < keys.len()
        invariant
            n == hashes@.len(),
            0 < n <= u32::MAX,
            map@.len() == n,
            try_map@.len() == n,
            keys_in_range(keys@, n as int),
            d == (d1, d2),
            j <= keys@.len(),
            values_to_add@.len() == j,
            stamps_at_most(try_map@, generation),
            pending_for(values_to_add@, hashes@, keys@, d, j as int),
            forall|t: int| 0 <= t < j ==> map@[#[trigger] slot_at(hashes@, keys@, d, t)] is None,
            forall|t: int|
                0 <= t < j ==> try_map@[#[trigger] slot_at(hashes@, keys@, d, t)] == generation,
            forall|s: int|
                0 <= s < n && #[trigger] try_map@[s] == generation ==> exists|t: int|
                    0 <= t < j && #[trigger] slot_at(hashes@, keys@, d, t) == s,
            forall|a: int, b: int|
                0 <= a < b < j ==> #[trigger] slot_at(hashes@, keys@, d, a) != #[trigger] slot_at(
                    hashes@,
                    keys@,
                    d,
                    b,
                ),
        decreases keys@.len() - j,
    {
        let key: usize = keys[j];
        assert(keys@[j as int] < n);
        let h: Hashes = hashes[key];
        let idx: usize = (displace(h.f1, h.f2, d1, d2) % (n as u32)) as usize;
        assert(idx as int == slot_at(hashes@, keys@, d, j as int));
        if map[idx].is_some() {
            return false;
        }
        if try_map[idx] == generation {
            let ghost t = choose|t: int|
                0 <= t < j && #[trigger] slot_at(hashes@, keys@, d, t) == idx as int;
            assert(slot_at(hashes@, keys@, d, t) == slot_at(hashes@, keys@, d, j as int));
            return false;
        }
        try_map[idx] = generation;
        values_to_add.push((idx, key));
        j += 1;
    }
    true
}

/// Enters the pending placements into the slot map.
pub fn commit_pairs(
    hashes: &Vec<Hashes>,
    keys: &Vec<usize>,
    d: (u32, u32),
    map: &mut Vec<Option<usize>>,
    values_to_add: &Vec<(usize, usize)>,
)
    requires
        0 < hashes@.len(),
        old(map)@.len() == hashes@.len(),
        values_to_add@.len() == keys@.len(),
        pending_for(values_to_add@, hashes@, keys@, d, keys@.len() as int),
        pair_fits(hashes@, keys@, d, old(map)@),
    ensures
        committed(old(map)@, final(map)@, hashes@, keys@, d),
{
    let mut j: usize = 0;
    while j < values_to_add.len()
        invariant
            0 < hashes@.len(),
            map@.len() == hashes@.len(),
            old(map)@.len() == hashes@.len(),
            values_to_add@.len() == keys@.len(),
            j <= values_to_add@.len(),
            pending_for(values_to_add@, hashes@, keys@, d, keys@.len() as int),
            pair_fits(hashes@, keys@, d, old(map)@),
            forall|t: int|
                0 <= t < j ==> map@[#[trigger] slot_at(hashes@, keys@, d, t)] == Some(keys@[t]),
            forall|s: int|
                0 <= s < map@.len() ==> #[trigger] map@[s] == old(map)@[s] || exists|t: int|
                    0 <= t < j && #[trigger] slot_at(hashes@, keys@, d, t) == s,
        decreases values_to_add@.len() - j,
    {
        let (idx, key) = values_to_add[j];
        assert(values_to_add@[j as int].0 as int == slot_at(hashes@, keys@, d, j as int));
        let ghost prev = map@;
        map[idx] = Some(key);
        assert forall|t: int| 0 <= t < j + 1 implies map@[#[trigger] slot_at(
            hashes@,
            keys@,
            d,
            t,
        )] == Some(keys@[t]) by {
            if t < j {
                assert(slot_at(hashes@, keys@, d, t) != slot_at(hashes@, keys@, d, j as int));
                assert(prev[slot_at(hashes@, keys@, d, t)] == Some(keys@[t]));
            }
        }
        assert forall|s: int| 0 <= s < map@.len() implies #[trigger] map@[s] == old(map)@[s]
            || exists|t: int| 0 <= t < j + 1 && #[trigger] slot_at(hashes@, keys@, d, t) == s by {
            if s == idx as int {
                assert(slot_at(hashes@, keys@, d, j as int) == s);
            } else {
                assert(map@[s] == prev[s]);
                if prev[s] != old(map)@[s] {
                    let t = choose|t: int|
                        0 <= t < j && #[trigger] slot_at(hashes@, keys@, d, t) == s;
                    assert(0 <= t < j + 1 && slot_at(hashes@, keys@, d, t) == s);
                }
            }
        }
        j += 1;
    }
}

/// Searches the displacement pairs below `n` x `n`, row by row, for the first
/// one that fits the bucket `keys`, and enters the bucket's keys into `map`
/// under that pair.
///
/// `try_map` and `generation` carry the attempt stamps from one search to the
/// next. Should the counter reach its maximum, the stamps start over from zero.
pub fn place_bucket(
    hashes: &Vec<Hashes>,
    keys: &Vec<usize>,
    map: &mut Vec<Option<usize>>,
    try_map: &mut Vec<u64>,
    values_to_add: &mut Vec<(usize, usize)>,
    generation: &mut u64,
) -> (r: Option<(u32, u32)>)
    requires
        0 < hashes@.len() <= u32::MAX,
        old(map)@.len() == hashes@.len(),
        old(try_map)@.len() == hashes@.len(),
        keys_in_range(keys@, hashes@.len() as int),
        stamps_at_most(old(try_map)@, *old(generation)),
    ensures
        final(map)@.len() == hashes@.len(),
        final(try_map)@.len() == hashes@.len(),
        stamps_at_most(final(try_map)@, *final(generation)),
        match r {
            Some(d) => {
                &&& d.0 < hashes@.len()
                &&& d.1 < hashes@.len()
                &&& pair_fits(hashes@, keys@, d, old(map)@)
                &&& committed(old(map)@, final(map)@, hashes@, keys@, d)
                &&& forall|e: (u32, u32)|
                    pair_before(e, d) && e.1 < hashes@.len() ==> !#[trigger] pair_fits(
                        hashes@,
                        keys@,
                        e,
                        old(map)@,
                    )
            },
            None => {
                &&& final(map)@ == old(map)@
                &&& forall|e: (u32, u32)|
                    e.0 < hashes@.len() && e.1 < hashes@.len() ==> !#[trigger] pair_fits(
                        hashes@,
                        keys@,
                        e,
                        old(map)@,
                    )
            },
        },
{
    let n: u32 = hashes.len() as u32;
    let mut d1: u32 = 0;
    while d1 < n
        invariant
            n == hashes@.len(),
            0 < hashes@.len() <= u32::MAX,
            map@ == old(map)@,
            map@.len() == hashes@.len(),
            try_map@.len() == hashes@.len(),
            keys_in_range(keys@, hashes@.len() as int),
            stamps_at_most(try_map@, *generation),
            d1 <= n,
            forall|e: (u32, u32)|
                e.0 < d1 && e.1 < n ==> !#[trigger] pair_fits(hashes@, keys@, e, map@),
        decreases n - d1,
    {
        let mut d2: u32 = 0;
        while d2 < n
            invariant
                n == hashes@.len(),
                0 < hashes@.len() <= u32::MAX,
                map@ == old(map)@,
                map@.len() == hashes@.len(),
                try_map@.len() == hashes@.len(),
                keys_in_range(keys@, hashes@.len() as int),
                stamps_at_most(try_map@, *generation),
                d1 < n,
                d2 <= n,
                forall|e: (u32, u32)|
                    pair_before(e, (d1, d2)) && e.1 < n ==> !#[trigger] pair_fits(
                        hashes@,
                        keys@,
                        e,
                        map@,
                    ),
            decreases n - d2,
        {
            if *generation == u64::MAX {
                overwrite_all(try_map, 0);
                *generation = 0;
            }
            *generation += 1;
            if try_pair(hashes, keys, d1, d2, map, try_map, values_to_add, *generation) {
                commit_pairs(hashes, keys, (d1, d2), map, values_to_add);
                return Some((d1, d2));
            }
            d2 += 1;
        }
        d1 += 1;
    }
    None
}

} // verus!
