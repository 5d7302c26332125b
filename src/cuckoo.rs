//! The batch layer: three-way cuckoo hashing of record indices into
//! buckets, the per-bucket database layout, and the reassembly of answers.
use crate::rng::random_below;
use itertools::Itertools;
use std::collections::hash_map::DefaultHasher;
use std::hash::Hasher;
use vstd::prelude::*;
use vstd::std_specs::hash::DefaultHasherAdditionalSpecFns;

verus! {

/// The eight little-endian bytes of `i`.
pub open spec fn le_bytes(i: u64) -> Seq<u8> {
    Seq::new(8, |k: int| ((i as int / pow256(k as nat)) % 256) as u8)
}

/// `256^k`.
pub open spec fn pow256(k: nat) -> int
    decreases k,
{
    if k == 0 {
        1
    } else {
        256 * pow256((k - 1) as nat)
    }
}

/// The 64-bit hash of a record index: `DefaultHasher` fed its eight
/// little-endian bytes.
pub open spec fn index_hash(i: u64) -> u64 {
    DefaultHasher::spec_finish(seq![le_bytes(i)])
}

/// The three candidate buckets of a hash value: its three lowest base-`nb` digits.
pub open spec fn buckets_of_hash(h: u64, nb: u64) -> (usize, usize, usize) {
    ((h % nb) as usize, ((h / nb) % nb) as usize, ((h / nb / nb) % nb) as usize)
}

/// The three candidate buckets of record index `i`.
pub open spec fn candidate_buckets(i: u64, nb: u64) -> (usize, usize, usize) {
    buckets_of_hash(index_hash(i), nb)
}

/// Bucket `b` is one of the three candidates `c`.
pub open spec fn is_candidate(c: (usize, usize, usize), b: int) -> bool {
    c.0 == b || c.1 == b || c.2 == b
}

/// The number of candidate slots of `c` that name bucket `b`.
pub open spec fn candidate_count(c: (usize, usize, usize), b: int) -> nat {
    (if c.0 == b { 1nat } else { 0nat }) + (if c.1 == b { 1nat } else { 0nat }) + (if c.2 == b { 1nat } else { 0nat })
}

/// The records `0..n` listed in bucket `b`, in order, each as often as `b`
/// is among its candidates.
pub open spec fn bucket_items(cands: Seq<(usize, usize, usize)>, b: int, n: nat) -> Seq<Option<usize>>
    decreases n,
{
    if n == 0 {
        Seq::empty()
    } else {
        let i = (n - 1) as int;
        bucket_items(cands, b, (n - 1) as nat) + Seq::new(candidate_count(cands[i], b), |k: int| Some(i as usize))
    }
}

/// `pos` is the first slot of `layout` that holds `rec`.
pub open spec fn first_slot(layout: Seq<Option<usize>>, rec: usize, pos: int) -> bool {
    &&& 0 <= pos < layout.len()
    &&& layout[pos] == Some(rec)
    &&& forall|j: int| 0 <= j < pos ==> #[trigger] layout[j] != Some(rec)
}

/// Some pair of `r` places item `idx`.
pub open spec fn assigns(r: Seq<(usize, usize)>, idx: int) -> bool {
    exists|k: int| 0 <= k < r.len() && (#[trigger] r[k]).1 == idx
}

/// A cuckoo assignment of `n` requested items: every item `0..n` is placed
/// in exactly one bucket, one of its three candidates, and no two items
/// share a bucket.
pub open spec fn sound_assignment(r: Seq<(usize, usize)>, cands: Seq<(usize, usize, usize)>, nb: int) -> bool {
    &&& forall|k: int| 0 <= k < r.len() ==> (#[trigger] r[k]).1 < cands.len() && r[k].0 < nb && is_candidate(cands[r[k].1 as int], r[k].0 as int)
    &&& forall|idx: int| 0 <= idx < cands.len() ==> #[trigger] assigns(r, idx)
    &&& forall|k1: int, k2: int| 0 <= k1 < k2 < r.len() ==> (#[trigger] r[k1]).1 != (#[trigger] r[k2]).1 && r[k1].0 != r[k2].0
}

/// The candidate buckets of records `0..nr`.
pub open spec fn record_candidates(nr: nat, nb: u64) -> Seq<(usize, usize, usize)> {
    Seq::new(nr, |i: int| candidate_buckets(i as u64, nb))
}

/// Bucket `b`'s layout padded with empty slots to `size`.
pub open spec fn padded_bucket(cands: Seq<(usize, usize, usize)>, b: int, n: nat, size: nat) -> Seq<Option<usize>> {
    bucket_items(cands, b, n) + Seq::new((size - bucket_items(cands, b, n).len()) as nat, |k: int| None::<usize>)
}

/// Why a batch query could not be planned.
#[derive(Debug, Clone, Copy, PartialEq, Eq, Structural)]
pub enum QueryPlanError {
    /// Cuckoo hashing gave up after too long an eviction chain.
    CuckooFailed,
    /// A requested record is not in the bucket it was assigned to.
    RecordMissing,
}

/// Every bucket layout starts with the records that hash to it, as
/// `bucket_layouts` lays them out.
pub open spec fn standard_layouts(lv: Seq<Seq<Option<usize>>>, nr: nat, nb: u64) -> bool {
    forall|b: int|
        0 <= b < nb ==> bucket_items(record_candidates(nr, nb), b, nr).len() <= (#[trigger] lv[b]).len() && lv[b].subrange(
            0,
            bucket_items(record_candidates(nr, nb), b, nr).len() as int,
        ) == bucket_items(record_candidates(nr, nb), b, nr)
}

/// A record listed among bucket `b`'s candidates appears in its layout.
pub proof fn lemma_bucket_holds(cands: Seq<(usize, usize, usize)>, b: int, n: nat, i: int)
    requires
        0 <= i < n,
        i <= usize::MAX,
        is_candidate(cands[i], b),
    ensures
        exists|p: int| 0 <= p < bucket_items(cands, b, n).len() && #[trigger] bucket_items(cands, b, n)[p] == Some(i as usize),
    decreases n,
{
    let prev = bucket_items(cands, b, (n - 1) as nat);
    let extra = Seq::new(candidate_count(cands[n - 1], b), |k: int| Some((n - 1) as usize));
    assert(bucket_items(cands, b, n) == prev + extra);
    if i == n - 1 {
        assert((prev + extra)[prev.len() as int] == Some(i as usize));
    } else {
        lemma_bucket_holds(cands, b, (n - 1) as nat, i);
        let p = choose|p: int| 0 <= p < prev.len() && #[trigger] prev[p] == Some(i as usize);
        assert((prev + extra)[p] == Some(i as usize));
    }
}

/// Some slot of `layout` holds record `rec`.
pub open spec fn holds_in(layout: Seq<Option<usize>>, rec: usize) -> bool {
    exists|p: int| 0 <= p < layout.len() && #[trigger] layout[p] == Some(rec)
}

/// The candidate buckets of the requested records.
pub open spec fn request_candidates(idxs: Seq<usize>, nb: u64) -> Seq<(usize, usize, usize)> {
    Seq::new(idxs.len(), |k: int| candidate_buckets(idxs[k] as u64, nb))
}

/// Bucket `b` is assigned by some pair of `mapping`.
pub open spec fn bucket_used(mapping: Seq<(usize, usize)>, b: int) -> bool {
    exists|k: int| 0 <= k < mapping.len() && (#[trigger] mapping[k]).0 == b
}

/// The slot to query in each bucket: for an assigned bucket, the first slot
/// that holds the record assigned to it; slot `0` in the others.
pub open spec fn slots_for(
    slots: Seq<usize>,
    mapping: Seq<(usize, usize)>,
    idxs: Seq<usize>,
    layouts: Seq<Seq<Option<usize>>>,
    nb: int,
) -> bool {
    &&& slots.len() == nb
    &&& forall|k: int| 0 <= k < mapping.len() ==> first_slot(layouts[(#[trigger] mapping[k]).0 as int], idxs[mapping[k].1 as int],
        slots[mapping[k].0 as int] as int)
    &&& forall|b: int| 0 <= b < nb && !bucket_used(mapping, b) ==> #[trigger] slots[b] == 0
}

/// The concatenation of the chunks.
pub open spec fn concat<T>(chunks: Seq<Seq<T>>) -> Seq<T>
    decreases chunks.len(),
{
    if chunks.len() == 0 {
        Seq::empty()
    } else {
        concat(chunks.drop_last()) + chunks.last()
    }
}

/// A byte-for-byte copy of `v`.
pub fn copy_bytes(v: &Vec<u8>) -> (r: Vec<u8>)
    ensures
        r@ == v@,
{
    let mut r: Vec<u8> = Vec::new();
    let mut i: usize = 0;
    while i < v.len()
        invariant
            i <= v@.len(),
            r@ == v@.take(i as int),
        decreases v@.len() - i,
    {
        r.push(v[i]);
        i = i + 1;
        proof {
            assert(r@ =~= v@.take(i as int));
        }
    }
    proof {
        assert(v@.take(v@.len() as int) =~= v@);
    }
    r
}

/// `slot` holds record `rec`.
pub fn holds_record(slot: &Option<usize>, rec: usize) -> (r: bool)
    ensures
        r == (*slot == Some(rec)),
{
    match slot {
        Some(x) => *x == rec,
        None => false,
    }
}

/// Relies on itertools' `find_position`: the position of the first slot
/// for which the predicate holds, or `None` when no slot does.
#[verifier::external_body]
fn find_slot(layout: &Vec<Option<usize>>, rec: usize) -> (r: Option<usize>)
    ensures
        r matches Some(p) ==> first_slot(layout@, rec, p as int),
        r is None ==> forall|j: int| 0 <= j < layout@.len() ==> #[trigger] layout@[j] != Some(rec),
{
    layout.iter().copied().find_position(|slot| holds_record(slot, rec)).map(|found| found.0)
}

/// Item `x` waits in `rem`.
pub open spec fn waiting(rem: Seq<(usize, usize)>, x: int) -> bool {
    exists|k: int| 0 <= k < rem.len() && (#[trigger] rem[k]).0 == x
}

/// The eviction budget left in `rem`: `sum (max_depth + 1 - depth)`.
pub open spec fn budget(rem: Seq<(usize, usize)>, max_depth: int) -> int
    decreases rem.len(),
{
    if rem.len() == 0 {
        0
    } else {
        budget(rem.drop_last(), max_depth) + (max_depth + 1 - rem.last().1)
    }
}

proof fn lemma_budget_nonneg(rem: Seq<(usize, usize)>, max_depth: int)
    requires
        forall|k: int| 0 <= k < rem.len() ==> (#[trigger] rem[k]).1 <= max_depth,
    ensures
        budget(rem, max_depth) >= 0,
    decreases rem.len(),
{
    if rem.len() > 0 {
        assert forall|k: int| 0 <= k < rem.drop_last().len() implies (#[trigger] rem.drop_last()[k]).1 <= max_depth by {
            assert(rem.drop_last()[k] == rem[k]);
        };
        lemma_budget_nonneg(rem.drop_last(), max_depth);
    }
}

/// The eight little-endian bytes of `i`.
fn index_bytes(i: u64) -> (r: Vec<u8>)
    ensures
        r@ == le_bytes(i),
{
    let mut v: Vec<u8> = Vec::new();
    let mut x = i;
    let mut k: usize = 0;
    while k < 8
        invariant
            k <= 8,
            v@.len() == k,
            x as int == i as int / pow256(k as nat),
            forall|t: int| 0 <= t < k ==> #[trigger] v@[t] == le_bytes(i)[t],
        decreases 8 - k,
    {
        proof {
            lemma_pow256_pos(k as nat);
            vstd::arithmetic::div_mod::lemma_div_denominator(i as int, pow256(k as nat), 256);
        }
        v.push((x % 256) as u8);
        x = x / 256;
        k = k + 1;
    }
    proof {
        assert(v@ =~= le_bytes(i));
    }
    v
}

proof fn lemma_pow256_pos(k: nat)
    ensures
        pow256(k) > 0,
    decreases k,
{
    if k > 0 {
        lemma_pow256_pos((k - 1) as nat);
    }
}

/// The three candidate buckets of a hash value.
pub fn buckets_from_hash(hashed: u64, num_bucket: u64) -> (r: (usize, usize, usize))
    requires
        num_bucket >= 1,
        num_bucket <= usize::MAX,
    ensures
        r == buckets_of_hash(hashed, num_bucket),
        r.0 < num_bucket && r.1 < num_bucket && r.2 < num_bucket,
{
    let h1 = hashed % num_bucket;
    let h2 = (hashed / num_bucket) % num_bucket;
    let h3 = (hashed / num_bucket / num_bucket) % num_bucket;
    (h1 as usize, h2 as usize, h3 as usize)
}

/// Candidate number `choice` (0, 1 or 2) of the triple `c`.
pub open spec fn pick(c: (usize, usize, usize), choice: u64) -> usize {
    if choice == 0 {
        c.0
    } else if choice == 1 {
        c.1
    } else {
        c.2
    }
}

/// One eviction of cuckoo insertion: item `idx` takes its candidate bucket
/// number `choice`, and the item that held that bucket goes back on the
/// stack one level deeper than `idx`.
pub fn evict(
    c: (usize, usize, usize),
    idx: usize,
    depth: usize,
    choice: u64,
    mapping: &mut Vec<Option<usize>>,
    placed: &mut Vec<Option<usize>>,
    remaining: &mut Vec<(usize, usize)>,
)
    requires
        choice < 3,
        c.0 < old(mapping)@.len(),
        c.1 < old(mapping)@.len(),
        c.2 < old(mapping)@.len(),
        old(mapping)@[pick(c, choice) as int] matches Some(cur) && cur < old(placed)@.len(),
        idx < old(placed)@.len(),
        depth < usize::MAX,
    ensures
        ({
            let t = pick(c, choice);
            let cur = old(mapping)@[t as int]->Some_0;
            &&& final(mapping)@ == old(mapping)@.update(t as int, Some(idx))
            &&& final(placed)@ == old(placed)@.update(idx as int, Some(t)).update(cur as int, None)
            &&& final(remaining)@ == old(remaining)@.push((cur, (depth + 1) as usize))
        }),
{
    let target = if choice == 0 {
        c.0
    } else if choice == 1 {
        c.1
    } else {
        c.2
    };
    let cur = match mapping[target] {
        Some(x) => x,
        None => idx,
    };
    mapping.set(target, Some(idx));
    placed.set(idx, Some(target));
    placed.set(cur, None);
    remaining.push((cur, depth + 1));
}

/// The batch layer's shape: `batch_size` records per query, spread over
/// `num_bucket` buckets, drawn from `num_records` records.
pub struct CuckooRespireImpl {
    pub batch_size: usize,
    pub num_bucket: usize,
    pub num_records: usize,
}

impl CuckooRespireImpl {
    pub open spec fn wf(&self) -> bool {
        &&& self.num_bucket >= 1
        &&& self.num_bucket <= u64::MAX
        &&& self.num_bucket * self.num_bucket * self.num_bucket <= u64::MAX
        &&& self.num_records <= u64::MAX
    }

    /// Cuckoo insertion of items with candidate buckets `cands`, evicting a
    /// random occupant when all three are taken, and giving up when an
    /// item has been pushed out `max_depth` times in a chain. Returns
    /// `(bucket, item)` pairs in increasing bucket order.
    pub fn cuckoo(&self, cands: &Vec<(usize, usize, usize)>, max_depth: usize) -> (r: Option<Vec<(usize, usize)>>)
        requires
            self.wf(),
            forall|k: int| 0 <= k < cands@.len() ==> (#[trigger] cands@[k]).0 < self.num_bucket && cands@[k].1
                < self.num_bucket && cands@[k].2 < self.num_bucket,
        ensures
            r matches Some(v) ==> sound_assignment(v@, cands@, self.num_bucket as int),
            cands@.len() == 0 ==> (r matches Some(v) && v@.len() == 0),
            max_depth == 0 && cands@.len() > 0 ==> r is None,
    {
        let n = cands.len();
        let nb = self.num_bucket;
        let mut mapping: Vec<Option<usize>> = Vec::new();
        let mut b: usize = 0;
        while b < nb
            invariant
                b <= nb,
                mapping@.len() == b,
                forall|k: int| 0 <= k < b ==> #[trigger] mapping@[k] is None,
            decreases nb - b,
        {
            mapping.push(None);
            b = b + 1;
        }
        let mut placed: Vec<Option<usize>> = Vec::new();
        let mut remaining: Vec<(usize, usize)> = Vec::new();
        let mut x: usize = 0;
        while x < n
            invariant
                x <= n,
                n == cands@.len(),
                placed@.len() == x,
                remaining@.len() == x,
                forall|k: int| 0 <= k < x ==> #[trigger] placed@[k] is None,
                forall|k: int| 0 <= k < x ==> #[trigger] remaining@[k] == (k as usize, 0usize),
            decreases n - x,
        {
            placed.push(None);
            remaining.push((x, 0));
            x = x + 1;
        }
        proof {
            assert forall|y: int| 0 <= y < n && placed@[y] is None implies #[trigger] waiting(remaining@, y) by {
                assert(remaining@[y].0 == y);
            };
        }
        while remaining.len() > 0
            invariant
                self.wf(),
                nb == self.num_bucket,
                n == cands@.len(),
                forall|k: int| 0 <= k < cands@.len() ==> (#[trigger] cands@[k]).0 < nb && cands@[k].1 < nb && cands@[k].2 < nb,
                mapping@.len() == nb,
                placed@.len() == n,
                forall|c: int| 0 <= c < nb ==> (#[trigger] mapping@[c] matches Some(y) ==> y < n && placed@[y as int] == Some(c as usize)),
                forall|y: int| 0 <= y < n ==> (#[trigger] placed@[y] matches Some(c) ==> c < nb && mapping@[c as int] == Some(y as usize)
                    && is_candidate(cands@[y], c as int)),
                forall|k: int| 0 <= k < remaining@.len() ==> (#[trigger] remaining@[k]).0 < n && placed@[remaining@[k].0 as int] is None
                    && remaining@[k].1 <= max_depth,
                forall|k1: int, k2: int| 0 <= k1 < k2 < remaining@.len() ==> (#[trigger] remaining@[k1]).0 != (#[trigger] remaining@[k2]).0,
                forall|y: int| 0 <= y < n && placed@[y] is None ==> #[trigger] waiting(remaining@, y),
                max_depth == 0 && n > 0 ==> remaining@.len() > 0,
            decreases budget(remaining@, max_depth as int),
        {
            let ghost rem0 = remaining@;
            let (idx, depth) = remaining.pop().unwrap();
            proof {
                assert(remaining@ =~= rem0.drop_last());
                assert(rem0.last() == (idx, depth));
                assert(budget(rem0, max_depth as int) == budget(remaining@, max_depth as int) + (max_depth + 1 - depth));
                lemma_budget_nonneg(rem0, max_depth as int);
                lemma_budget_nonneg(remaining@, max_depth as int);
            }
            if depth >= max_depth {
                return None;
            }
            let (i1, i2, i3) = cands[idx];
            let ghost placed0 = placed@;
            let ghost mapping0 = mapping@;
            if mapping[i1].is_none() || mapping[i2].is_none() || mapping[i3].is_none() {
                let target = if mapping[i1].is_none() {
                    i1
                } else if mapping[i2].is_none() {
                    i2
                } else {
                    i3
                };
                mapping.set(target, Some(idx));
                placed.set(idx, Some(target));
                proof {
                    assert forall|y: int| 0 <= y < n && placed@[y] is None implies #[trigger] waiting(remaining@, y) by {
                        assert(waiting(rem0, y));
                        let k = choose|k: int| 0 <= k < rem0.len() && (#[trigger] rem0[k]).0 == y;
                        assert(k != rem0.len() - 1);
                        assert(remaining@[k] == rem0[k]);
                    };
                    assert forall|k: int| 0 <= k < remaining@.len() implies (#[trigger] remaining@[k]).0 < n && placed@[remaining@[k].0 as int] is None
                        && remaining@[k].1 <= max_depth by {
                        assert(remaining@[k] == rem0[k]);
                        assert(rem0[k].0 != rem0[rem0.len() - 1].0);
                    };
                }
            } else {
                let choice = random_below(3);
                let ghost target = pick((i1, i2, i3), choice);
                let ghost cur = mapping@[target as int]->Some_0;
                proof {
                    assert(mapping@[target as int] is Some);
                    assert(placed@[cur as int] == Some(target));
                }
                let ghost rem1 = remaining@;
                evict((i1, i2, i3), idx, depth, choice, &mut mapping, &mut placed, &mut remaining);
                proof {
                    assert(remaining@.drop_last() =~= rem1);
                    assert(budget(remaining@, max_depth as int) == budget(rem1, max_depth as int) + (max_depth - depth));
                    assert forall|y: int| 0 <= y < n && placed@[y] is None implies #[trigger] waiting(remaining@, y) by {
                        if y == cur {
                            assert(remaining@[remaining@.len() - 1].0 == y);
                        } else {
                            assert(waiting(rem0, y));
                            let k = choose|k: int| 0 <= k < rem0.len() && (#[trigger] rem0[k]).0 == y;
                            assert(k != rem0.len() - 1);
                            assert(remaining@[k] == rem0[k]);
                        }
                    };
                    assert forall|k: int| 0 <= k < remaining@.len() implies (#[trigger] remaining@[k]).0 < n && placed@[remaining@[k].0 as int] is None
                        && remaining@[k].1 <= max_depth by {
                        if k < rem1.len() {
                            assert(remaining@[k] == rem0[k]);
                            assert(rem0[k].0 != rem0[rem0.len() - 1].0);
                        }
                    };
                    assert forall|k1: int, k2: int| 0 <= k1 < k2 < remaining@.len() implies (#[trigger] remaining@[k1]).0 != (#[trigger] remaining@[k2]).0 by {
                        if k2 == remaining@.len() - 1 {
                            assert(remaining@[k1] == rem0[k1]);
                            assert(placed0[rem0[k1].0 as int] is None);
                        } else {
                            assert(remaining@[k1] == rem0[k1]);
                            assert(remaining@[k2] == rem0[k2]);
                        }
                    };
                }
            }
        }
        proof {
            assert forall|y: int| 0 <= y < n implies #[trigger] placed@[y] is Some by {
                if placed@[y] is None {
                    assert(waiting(remaining@, y));
                }
            };
        }
        let mut result: Vec<(usize, usize)> = Vec::new();
        let mut c: usize = 0;
        while c < nb
            invariant
                nb == self.num_bucket,
                n == cands@.len(),
                c <= nb,
                mapping@.len() == nb,
                placed@.len() == n,
                forall|c2: int| 0 <= c2 < nb ==> (#[trigger] mapping@[c2] matches Some(y) ==> y < n && placed@[y as int] == Some(c2 as usize)),
                forall|y: int| 0 <= y < n ==> (#[trigger] placed@[y] matches Some(c2) ==> c2 < nb && mapping@[c2 as int] == Some(y as usize)
                    && is_candidate(cands@[y], c2 as int)),
                forall|y: int| 0 <= y < n ==> #[trigger] placed@[y] is Some,
                forall|k: int| 0 <= k < result@.len() ==> (#[trigger] result@[k]).0 < c && result@[k].1 < n && placed@[result@[k].1 as int]
                    == Some(result@[k].0),
                forall|k1: int, k2: int| 0 <= k1 < k2 < result@.len() ==> (#[trigger] result@[k1]).0 < (#[trigger] result@[k2]).0,
                forall|y: int| 0 <= y < n && (placed@[y] matches Some(c2) && c2 < c) ==> #[trigger] assigns(result@, y),
                n == 0 ==> result@.len() == 0,
            decreases nb - c,
        {
            if let Some(y) = mapping[c] {
                let ghost r0 = result@;
                result.push((c, y));
                proof {
                    assert forall|z: int| 0 <= z < n && (placed@[z] matches Some(c2) && c2 < c + 1) implies #[trigger] assigns(result@, z) by {
                        if placed@[z] == Some(c) {
                            assert(result@[result@.len() - 1].1 == z);
                        } else {
                            assert(assigns(r0, z));
                            let k = choose|k: int| 0 <= k < r0.len() && (#[trigger] r0[k]).1 == z;
                            assert(result@[k] == r0[k]);
                        }
                    };
                }
            }
            c = c + 1;
        }
        proof {
            assert forall|y: int| 0 <= y < n implies #[trigger] assigns(result@, y) by {
                assert(placed@[y] is Some);
            };
            assert forall|k1: int, k2: int| 0 <= k1 < k2 < result@.len() implies (#[trigger] result@[k1]).1 != (#[trigger] result@[k2]).1
                && result@[k1].0 != result@[k2].0 by {
                assert(result@[k1].0 < result@[k2].0);
            };
        }
        Some(result)
    }

    /// The per-bucket layout of the database: bucket `b` lists, in order,
    /// every record that has `b` among its candidates, padded with empty
    /// slots to `bucket_size`. `None` when a bucket overflows.
    pub fn bucket_layouts(&self, bucket_size: usize) -> (r: Option<Vec<Vec<Option<usize>>>>)
        requires
            self.wf(),
        ensures
            r is None <==> exists|b: int| 0 <= b < self.num_bucket && #[trigger] bucket_items(
                record_candidates(self.num_records as nat, self.num_bucket as u64), b, self.num_records as nat).len()
                > bucket_size,
            r matches Some(l) ==> l@.len() == self.num_bucket && forall|b: int| 0 <= b < self.num_bucket ==> (#[trigger] l@[b])@
                == padded_bucket(record_candidates(self.num_records as nat, self.num_bucket as u64), b,
                self.num_records as nat, bucket_size as nat),
            r matches Some(l) ==> standard_layouts(l@.map_values(|v: Vec<Option<usize>>| v@), self.num_records as nat,
                self.num_bucket as u64),
    {
        let nb = self.num_bucket;
        let nr = self.num_records;
        let ghost cands = record_candidates(nr as nat, nb as u64);
        let mut layouts: Vec<Vec<Option<usize>>> = Vec::new();
        let mut b: usize = 0;
        while b < nb
            invariant
                b <= nb,
                layouts@.len() == b,
                forall|k: int| 0 <= k < b ==> (#[trigger] layouts@[k])@ == Seq::<Option<usize>>::empty(),
            decreases nb - b,
        {
            layouts.push(Vec::new());
            b = b + 1;
        }
        let mut i: usize = 0;
        while i < nr
            invariant
                self.wf(),
                nb == self.num_bucket,
                nr == self.num_records,
                cands == record_candidates(nr as nat, nb as u64),
                i <= nr,
                layouts@.len() == nb,
                forall|k: int| 0 <= k < nb ==> (#[trigger] layouts@[k])@ == bucket_items(cands, k, i as nat),
            decreases nr - i,
        {
            let (b1, b2, b3) = self.idx_to_buckets(i);
            let ghost before = layouts@;
            layouts[b1].push(Some(i));
            layouts[b2].push(Some(i));
            layouts[b3].push(Some(i));
            proof {
                assert(cands[i as int] == (b1, b2, b3));
                assert forall|k: int| 0 <= k < nb implies (#[trigger] layouts@[k])@ == bucket_items(cands, k, (i + 1) as nat) by {
                    let extra = Seq::new(candidate_count(cands[i as int], k), |t: int| Some(i as usize));
                    assert(bucket_items(cands, k, (i + 1) as nat) == bucket_items(cands, k, i as nat) + extra);
                    assert(layouts@[k]@ =~= before[k]@ + extra);
                };
            }
            i = i + 1;
        }
        let mut c: usize = 0;
        while c < nb
            invariant
                nb == self.num_bucket,
                nr == self.num_records,
                cands == record_candidates(nr as nat, nb as u64),
                c <= nb,
                layouts@.len() == nb,
                forall|k: int| 0 <= k < nb ==> (#[trigger] layouts@[k])@ == bucket_items(cands, k, nr as nat),
                forall|k: int| 0 <= k < c ==> #[trigger] bucket_items(cands, k, nr as nat).len() <= bucket_size,
            decreases nb - c,
        {
            if layouts[c].len() > bucket_size {
                proof {
                    assert(bucket_items(cands, c as int, nr as nat).len() > bucket_size);
                }
                return None;
            }
            c = c + 1;
        }
        let mut c: usize = 0;
        while c < nb
            invariant
                nb == self.num_bucket,
                nr == self.num_records,
                cands == record_candidates(nr as nat, nb as u64),
                c <= nb,
                layouts@.len() == nb,
                forall|k: int| c <= k < nb ==> (#[trigger] layouts@[k])@ == bucket_items(cands, k, nr as nat),
                forall|k: int| 0 <= k < nb ==> #[trigger] bucket_items(cands, k, nr as nat).len() <= bucket_size,
                forall|k: int| 0 <= k < c ==> (#[trigger] layouts@[k])@ == padded_bucket(cands, k, nr as nat, bucket_size as nat),
            decreases nb - c,
        {
            let ghost items = layouts@[c as int]@;
            let ghost outer = layouts@;
            while layouts[c].len() < bucket_size
                invariant
                    c < nb,
                    layouts@.len() == nb,
                    items.len() <= bucket_size,
                    items.len() <= layouts@[c as int]@.len() <= bucket_size,
                    layouts@[c as int]@ == items + Seq::new((layouts@[c as int]@.len() - items.len()) as nat, |k: int| None::<usize>),
                    forall|k: int| 0 <= k < nb && k != c ==> #[trigger] layouts@[k] == outer[k],
                decreases bucket_size - layouts@[c as int]@.len(),
            {
                layouts[c].push(None);
                proof {
                    assert(layouts@[c as int]@ =~= items + Seq::new((layouts@[c as int]@.len() - items.len()) as nat, |k: int| None::<usize>));
                }
            }
            proof {
                assert(layouts@[c as int]@ =~= padded_bucket(cands, c as int, nr as nat, bucket_size as nat));
            }
            c = c + 1;
        }
        proof {
            let lv = layouts@.map_values(|v: Vec<Option<usize>>| v@);
            assert forall|b: int| 0 <= b < nb implies bucket_items(cands, b, nr as nat).len() <= (#[trigger] lv[b]).len()
                && lv[b].subrange(0, bucket_items(cands, b, nr as nat).len() as int) == bucket_items(cands, b, nr as nat) by {
                assert(lv[b] == layouts@[b]@);
                assert(lv[b].subrange(0, bucket_items(cands, b, nr as nat).len() as int) =~= bucket_items(cands, b, nr as nat));
            };
        }
        Some(layouts)
    }

    /// Plans a batch query: assigns the requested records to buckets by
    /// cuckoo hashing (at most `2^16` evictions in a chain) and finds, in
    /// each assigned bucket, the slot of its record. Returns the slot per
    /// bucket and the `(bucket, request)` pairs; `None` when cuckoo hashing
    /// gives up or a record is missing from its bucket.
    pub fn query_plan(&self, record_idxs: &Vec<usize>, layouts: &Vec<Vec<Option<usize>>>) -> (r: Result<
        (Vec<usize>, Vec<(usize, usize)>),
        QueryPlanError,
    >)
        requires
            self.wf(),
            layouts@.len() == self.num_bucket,
            record_idxs@.len() == self.batch_size,
            forall|k: int| 0 <= k < record_idxs@.len() ==> #[trigger] record_idxs@[k] <= u64::MAX,
        ensures
            record_idxs@.len() == 0 ==> r is Ok,
            r matches Ok(plan) ==> sound_assignment(plan.1@, request_candidates(record_idxs@, self.num_bucket as u64),
                self.num_bucket as int) && slots_for(plan.0@, plan.1@, record_idxs@, layouts@.map_values(
                |l: Vec<Option<usize>>| l@), self.num_bucket as int),
            r == Err::<(Vec<usize>, Vec<(usize, usize)>), QueryPlanError>(QueryPlanError::RecordMissing) ==> !(standard_layouts(
                layouts@.map_values(|l: Vec<Option<usize>>| l@), self.num_records as nat, self.num_bucket as u64) && forall|k: int|
                0 <= k < record_idxs@.len() ==> #[trigger] record_idxs@[k] < self.num_records),
    {
        let nb = self.num_bucket;
        let n = record_idxs.len();
        let ghost req = request_candidates(record_idxs@, nb as u64);
        let mut cands: Vec<(usize, usize, usize)> = Vec::new();
        let mut k: usize = 0;
        while k < n
            invariant
                self.wf(),
                nb == self.num_bucket,
                n == record_idxs@.len(),
                forall|t: int| 0 <= t < record_idxs@.len() ==> #[trigger] record_idxs@[t] <= u64::MAX,
                k <= n,
                req == request_candidates(record_idxs@, nb as u64),
                cands@.len() == k,
                forall|t: int| 0 <= t < k ==> #[trigger] cands@[t] == req[t] && cands@[t].0 < nb && cands@[t].1 < nb && cands@[t].2 < nb,
            decreases n - k,
        {
            cands.push(self.idx_to_buckets(record_idxs[k]));
            k = k + 1;
        }
        proof {
            assert(cands@ =~= req);
        }
        let mapping = match self.cuckoo(&cands, 65536) {
            Some(m) => m,
            None => {
                return Err(QueryPlanError::CuckooFailed);
            },
        };
        let ghost lv = layouts@.map_values(|l: Vec<Option<usize>>| l@);
        match self.query_slots(&mapping, record_idxs, layouts) {
            Ok(slots) => Ok((slots, mapping)),
            Err(e) => {
                proof {
                    let nr = self.num_records as nat;
                    if standard_layouts(lv, nr, nb as u64) && forall|k: int|
                        0 <= k < record_idxs@.len() ==> #[trigger] record_idxs@[k] < self.num_records {
                        assert forall|k: int| 0 <= k < mapping@.len() implies holds_in(
                            layouts@[(#[trigger] mapping@[k]).0 as int]@,
                            record_idxs@[mapping@[k].1 as int],
                        ) by {
                            let bucket = mapping@[k].0;
                            let item = mapping@[k].1;
                            let rec = record_idxs@[item as int];
                            let rc = record_candidates(nr, nb as u64);
                            assert(record_idxs@[item as int] < self.num_records);
                            assert(rc[rec as int] == req[item as int]);
                            lemma_bucket_holds(rc, bucket as int, nr, rec as int);
                            let items = bucket_items(rc, bucket as int, nr);
                            let p = choose|p: int| 0 <= p < items.len() && #[trigger] items[p] == Some(rec as usize);
                            assert(lv[bucket as int].subrange(0, items.len() as int) == items);
                            assert(lv[bucket as int][p] == Some(rec));
                            assert(lv[bucket as int] == layouts@[bucket as int]@);
                        };
                    }
                }
                Err(e)
            },
        }
    }

    /// The slot to query in each bucket for the `(bucket, request)` pairs of
    /// `mapping`: the first slot of the bucket's layout that holds the
    /// requested record, and slot `0` in the buckets no pair uses.
    /// `Err(RecordMissing)` exactly when some assigned record is absent from
    /// its bucket.
    pub fn query_slots(&self, mapping: &Vec<(usize, usize)>, record_idxs: &Vec<usize>, layouts: &Vec<Vec<Option<usize>>>) -> (r:
        Result<Vec<usize>, QueryPlanError>)
        requires
            layouts@.len() == self.num_bucket,
            forall|k: int| 0 <= k < mapping@.len() ==> (#[trigger] mapping@[k]).0 < self.num_bucket && mapping@[k].1
                < record_idxs@.len(),
            forall|k1: int, k2: int| 0 <= k1 < k2 < mapping@.len() ==> (#[trigger] mapping@[k1]).0 != (#[trigger] mapping@[k2]).0,
        ensures
            r is Ok <==> forall|k: int| 0 <= k < mapping@.len() ==> holds_in(
                layouts@[(#[trigger] mapping@[k]).0 as int]@,
                record_idxs@[mapping@[k].1 as int],
            ),
            r matches Ok(s) ==> slots_for(s@, mapping@, record_idxs@, layouts@.map_values(|l: Vec<Option<usize>>| l@),
                self.num_bucket as int),
            r matches Err(e) ==> e == QueryPlanError::RecordMissing,
    {
        let nb = self.num_bucket;
        let ghost lv = layouts@.map_values(|l: Vec<Option<usize>>| l@);
        let mut slots: Vec<usize> = Vec::new();
        let mut b: usize = 0;
        while b < nb
            invariant
                b <= nb,
                slots@.len() == b,
                forall|t: int| 0 <= t < b ==> #[trigger] slots@[t] == 0,
            decreases nb - b,
        {
            slots.push(0);
            b = b + 1;
        }
        let mut k: usize = 0;
        while k < mapping.len()
            invariant
                nb == self.num_bucket,
                layouts@.len() == nb,
                lv == layouts@.map_values(|l: Vec<Option<usize>>| l@),
                forall|t: int| 0 <= t < mapping@.len() ==> (#[trigger] mapping@[t]).0 < nb && mapping@[t].1 < record_idxs@.len(),
                forall|k1: int, k2: int| 0 <= k1 < k2 < mapping@.len() ==> (#[trigger] mapping@[k1]).0 != (#[trigger] mapping@[k2]).0,
                forall|t: int| 0 <= t < k ==> holds_in(layouts@[(#[trigger] mapping@[t]).0 as int]@, record_idxs@[mapping@[t].1 as int]),
                k <= mapping@.len(),
                slots@.len() == nb,
                forall|t: int| 0 <= t < k ==> first_slot(lv[(#[trigger] mapping@[t]).0 as int], record_idxs@[mapping@[t].1 as int],
                    slots@[mapping@[t].0 as int] as int),
                forall|c: int| 0 <= c < nb && !(exists|t: int| 0 <= t < k && (#[trigger] mapping@[t]).0 == c) ==> #[trigger] slots@[c] == 0,
            decreases mapping@.len() - k,
        {
            let (bucket, item) = mapping[k];
            let pos = match find_slot(&layouts[bucket], record_idxs[item]) {
                Some(p) => p,
                None => {
                    proof {
                        assert(lv[bucket as int] == layouts@[bucket as int]@);
                        assert(!holds_in(layouts@[mapping@[k as int].0 as int]@, record_idxs@[mapping@[k as int].1 as int]));
                    }
                    return Err(QueryPlanError::RecordMissing);
                },
            };
            proof {
                assert(lv[bucket as int] == layouts@[bucket as int]@);
                assert(lv[bucket as int][pos as int] == Some(record_idxs@[item as int]));
            }
            slots.set(bucket, pos);
            proof {
                assert forall|t: int| 0 <= t < k + 1 implies first_slot(lv[(#[trigger] mapping@[t]).0 as int],
                    record_idxs@[mapping@[t].1 as int], slots@[mapping@[t].0 as int] as int) by {
                    if t < k {
                        assert(mapping@[t].0 != mapping@[k as int].0);
                    }
                };
                assert forall|c: int| 0 <= c < nb && !(exists|t: int| 0 <= t < k + 1 && (#[trigger] mapping@[t]).0 == c) implies #[trigger] slots@[c] == 0 by {
                    assert(c != bucket);
                    assert(!(exists|t: int| 0 <= t < k && (#[trigger] mapping@[t]).0 == c)) by {
                        if exists|t: int| 0 <= t < k && (#[trigger] mapping@[t]).0 == c {
                            let t = choose|t: int| 0 <= t < k && (#[trigger] mapping@[t]).0 == c;
                            assert(0 <= t < k + 1 && mapping@[t].0 == c);
                        }
                    };
                };
            }
            k = k + 1;
        }
        proof {
            assert forall|c: int| 0 <= c < nb && !bucket_used(mapping@, c) implies #[trigger] slots@[c] == 0 by {
                if exists|t: int| 0 <= t < mapping@.len() && (#[trigger] mapping@[t]).0 == c {
                    let t = choose|t: int| 0 <= t < mapping@.len() && (#[trigger] mapping@[t]).0 == c;
                    assert(bucket_used(mapping@, c));
                }
            };
        }
        Ok(slots)
    }

    /// Reassembles a batch answer: the per-bucket records, read in order
    /// across the decrypted chunks, are handed back to the requests that
    /// `mapping` assigned them to; requests without a bucket get an empty
    /// record. `None` when the chunks hold fewer than `num_bucket` records.
    pub fn extract(&self, chunks: &Vec<Vec<Vec<u8>>>, mapping: &Vec<(usize, usize)>) -> (r: Option<Vec<Vec<u8>>>)
        requires
            self.wf(),
            forall|k: int| 0 <= k < mapping@.len() ==> (#[trigger] mapping@[k]).0 < self.num_bucket && mapping@[k].1
                < self.batch_size,
            forall|k1: int, k2: int| 0 <= k1 < k2 < mapping@.len() ==> (#[trigger] mapping@[k1]).1 != (#[trigger] mapping@[k2]).1,
        ensures
            r is None <==> concat(chunks@.map_values(|c: Vec<Vec<u8>>| c@.map_values(|b: Vec<u8>| b@))).len() < self.num_bucket,
            r matches Some(v) ==> v@.len() == self.batch_size && (forall|k: int| 0 <= k < mapping@.len() ==> (#[trigger] v@[mapping@[k].1 as int])@
                == concat(chunks@.map_values(|c: Vec<Vec<u8>>| c@.map_values(|b: Vec<u8>| b@)))[mapping@[k].0 as int]) && (forall|i: int| 0 <= i < self.batch_size
                && !(exists|k: int| 0 <= k < mapping@.len() && (#[trigger] mapping@[k]).1 == i) ==> (#[trigger] v@[i])@.len() == 0),
    {
        let nb = self.num_bucket;
        let ghost cv = chunks@.map_values(|c: Vec<Vec<u8>>| c@.map_values(|b: Vec<u8>| b@));
        let mut flat: Vec<Vec<u8>> = Vec::new();
        let mut c: usize = 0;
        while c < chunks.len()
            invariant
                cv == chunks@.map_values(|c: Vec<Vec<u8>>| c@.map_values(|b: Vec<u8>| b@)),
                c <= chunks@.len(),
                flat@.map_values(|b: Vec<u8>| b@) == concat(cv.take(c as int)),
            decreases chunks@.len() - c,
        {
            let chunk = &chunks[c];
            let ghost base = flat@.map_values(|b: Vec<u8>| b@);
            proof {
                assert(cv.take(c + 1).drop_last() =~= cv.take(c as int));
                assert(cv[c as int] == chunk@.map_values(|b: Vec<u8>| b@));
            }
            let mut t: usize = 0;
            while t < chunk.len()
                invariant
                    chunk@.map_values(|b: Vec<u8>| b@) == cv[c as int],
                    t <= chunk@.len(),
                    flat@.map_values(|b: Vec<u8>| b@) =~= base + cv[c as int].take(t as int),
                decreases chunk@.len() - t,
            {
                let rec = copy_bytes(&chunk[t]);
                let ghost f0 = flat@;
                proof {
                    assert(rec@ == chunk@[t as int]@);
                    assert(chunk@.map_values(|b: Vec<u8>| b@)[t as int] == chunk@[t as int]@);
                    assert(cv[c as int][t as int] == rec@);
                }
                flat.push(rec);
                proof {
                    assert(flat@ == f0.push(rec));
                    assert(flat@.map_values(|b: Vec<u8>| b@) =~= f0.map_values(|b: Vec<u8>| b@).push(rec@));
                    assert(cv[c as int].take(t + 1) =~= cv[c as int].take(t as int).push(rec@));
                    assert(flat@.map_values(|b: Vec<u8>| b@) =~= base + cv[c as int].take(t + 1));
                }
                t = t + 1;
            }
            proof {
                assert(cv[c as int].take(chunk@.len() as int) =~= cv[c as int]);
                assert(concat(cv.take(c + 1)) == concat(cv.take(c as int)) + cv.take(c + 1).last());
            }
            c = c + 1;
        }
        proof {
            assert(cv.take(chunks@.len() as int) =~= cv);
        }
        if flat.len() < nb {
            return None;
        }
        let by_bucket = flat;
        let mut result: Vec<Vec<u8>> = Vec::new();
        let mut i: usize = 0;
        while i < self.batch_size
            invariant
                i <= self.batch_size,
                result@.len() == i,
                forall|t: int| 0 <= t < i ==> (#[trigger] result@[t])@.len() == 0,
            decreases self.batch_size - i,
        {
            result.push(Vec::new());
            i = i + 1;
        }
        let mut k: usize = 0;
        while k < mapping.len()
            invariant
                k <= mapping@.len(),
                result@.len() == self.batch_size,
                by_bucket@.len() >= nb,
                by_bucket@.map_values(|b: Vec<u8>| b@) == concat(cv),
                forall|k2: int| 0 <= k2 < mapping@.len() ==> (#[trigger] mapping@[k2]).0 < nb && mapping@[k2].1 < self.batch_size,
                forall|k1: int, k2: int| 0 <= k1 < k2 < mapping@.len() ==> (#[trigger] mapping@[k1]).1 != (#[trigger] mapping@[k2]).1,
                forall|t: int| 0 <= t < k ==> (#[trigger] result@[mapping@[t].1 as int])@ == by_bucket@[mapping@[t].0 as int]@,
                forall|i: int| 0 <= i < self.batch_size && !(exists|t: int| 0 <= t < k && (#[trigger] mapping@[t]).1 == i) ==> (#[trigger] result@[i])@.len() == 0,
            decreases mapping@.len() - k,
        {
            let (bucket, item) = mapping[k];
            let rec = copy_bytes(&by_bucket[bucket]);
            result.set(item, rec);
            proof {
                assert forall|i: int| 0 <= i < self.batch_size && !(exists|t: int| 0 <= t < k + 1 && (#[trigger] mapping@[t]).1 == i) implies (#[trigger] result@[i])@.len() == 0 by {
                    assert(i != item);
                    assert(!(exists|t: int| 0 <= t < k && (#[trigger] mapping@[t]).1 == i)) by {
                        if exists|t: int| 0 <= t < k && (#[trigger] mapping@[t]).1 == i {
                            let t = choose|t: int| 0 <= t < k && (#[trigger] mapping@[t]).1 == i;
                            assert(0 <= t < k + 1 && mapping@[t].1 == i);
                        }
                    };
                };
                assert forall|t: int| 0 <= t < k + 1 implies (#[trigger] result@[mapping@[t].1 as int])@ == by_bucket@[mapping@[t].0 as int]@ by {
                    if t < k {
                        assert(mapping@[t].1 != mapping@[k as int].1);
                    }
                };
            }
            k = k + 1;
        }
        proof {
            assert forall|k: int| 0 <= k < mapping@.len() implies (#[trigger] result@[mapping@[k].1 as int])@ == concat(cv)[mapping@[k].0 as int] by {
                assert(by_bucket@.map_values(|b: Vec<u8>| b@)[mapping@[k].0 as int] == by_bucket@[mapping@[k].0 as int]@);
            };
        }
        Some(result)
    }

    /// The size of a batch query: one base query per bucket.
    pub fn params_query_size(&self, query_one_size: usize) -> (r: Option<usize>)
        ensures
            r is Some <==> self.num_bucket * query_one_size <= usize::MAX,
            r matches Some(x) ==> x == self.num_bucket * query_one_size,
    {
        self.num_bucket.checked_mul(query_one_size)
    }

    /// The size of the records a batch returns.
    pub fn params_record_size(&self, record_one_size: usize) -> (r: Option<usize>)
        ensures
            r is Some <==> self.batch_size * record_one_size <= usize::MAX,
            r matches Some(x) ==> x == self.batch_size * record_one_size,
    {
        self.batch_size.checked_mul(record_one_size)
    }

    /// How a batch response is packed: the `num_bucket` answers fill
    /// `ceil(num_bucket / pack_ratio)` ring elements, sent as full vectors of
    /// `n_vec` elements and one shorter remainder vector. Returns the number
    /// of full vectors and the length of the remainder.
    pub fn response_vectors(&self, pack_ratio: usize, n_vec: usize) -> (r: (usize, usize))
        requires
            pack_ratio >= 1,
            n_vec >= 1,
        ensures
            r.0 == (self.num_bucket + pack_ratio - 1) / (pack_ratio as int) / (n_vec as int),
            r.1 == (self.num_bucket + pack_ratio - 1) / (pack_ratio as int) % (n_vec as int),
    {
        proof {
            let nb = self.num_bucket as int;
            let pr = pack_ratio as int;
            vstd::arithmetic::div_mod::lemma_fundamental_div_mod(nb, pr);
            vstd::arithmetic::div_mod::lemma_mod_pos_bound(nb, pr);
            if nb % pr == 0 {
                assert(nb + pr - 1 == (nb / pr) * pr + (pr - 1)) by (nonlinear_arith)
                    requires nb == pr * (nb / pr) + nb % pr, nb % pr == 0;
                vstd::arithmetic::div_mod::lemma_fundamental_div_mod_converse(nb + pr - 1, pr, nb / pr, pr - 1);
            } else {
                assert(nb + pr - 1 == (nb / pr + 1) * pr + (nb % pr - 1)) by (nonlinear_arith)
                    requires nb == pr * (nb / pr) + nb % pr;
                vstd::arithmetic::div_mod::lemma_fundamental_div_mod_converse(nb + pr - 1, pr, nb / pr + 1, nb % pr - 1);
                vstd::arithmetic::div_mod::lemma_div_decreases(nb, pr);
            }
        }
        let num_ring_elem = self.num_bucket / pack_ratio + if self.num_bucket % pack_ratio == 0 {
            0
        } else {
            1
        };
        (num_ring_elem / n_vec, num_ring_elem % n_vec)
    }

    /// The size of a batch response and its shape: `(size, full vectors,
    /// remainder)`, where `full_vec_size` is the size of one full vector and
    /// `rem_vec_size` that of the remainder vector, counted only when the
    /// remainder is not empty. `None` when the size overflows.
    pub fn params_response_info(&self, pack_ratio: usize, n_vec: usize, full_vec_size: usize, rem_vec_size: usize) -> (r:
        Option<(usize, usize, usize)>)
        requires
            pack_ratio >= 1,
            n_vec >= 1,
        ensures
            ({
                let num_ring_elem = (self.num_bucket + pack_ratio - 1) / (pack_ratio as int);
                let full = num_ring_elem / (n_vec as int);
                let rem = num_ring_elem % (n_vec as int);
                let size = full * full_vec_size + if rem > 0 { rem_vec_size as int } else { 0 };
                &&& r is Some <==> size <= usize::MAX
                &&& r matches Some(t) ==> t.0 == size && t.1 == full && t.2 == rem
            }),
    {
        let (full, rem) = self.response_vectors(pack_ratio, n_vec);
        let full_size = match full.checked_mul(full_vec_size) {
            Some(x) => x,
            None => {
                proof {
                    assert(full * full_vec_size + (if rem > 0 { rem_vec_size as int } else { 0 }) > usize::MAX);
                }
                return None;
            },
        };
        let extra = if rem > 0 {
            rem_vec_size
        } else {
            0
        };
        match full_size.checked_add(extra) {
            Some(size) => Some((size, full, rem)),
            None => None,
        }
    }

    /// The three candidate buckets of record `i`.
    pub fn idx_to_buckets(&self, i: usize) -> (r: (usize, usize, usize))
        requires
            self.wf(),
            i <= u64::MAX,
        ensures
            r == candidate_buckets(i as u64, self.num_bucket as u64),
            r.0 < self.num_bucket && r.1 < self.num_bucket && r.2 < self.num_bucket,
    {
        let bytes = index_bytes(i as u64);
        let mut hasher = DefaultHasher::new();
        hasher.write(bytes.as_slice());
        let hashed = hasher.finish();
        proof {
            assert(hasher@ =~= seq![le_bytes(i as u64)]);
        }
        buckets_from_hash(hashed, self.num_bucket as u64)
    }
}

} // verus!
