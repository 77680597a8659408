//! A probabilistic membership filter: a fixed bit array set through several
//! derived hash positions. No false negatives; tunable false positives.

use crate::hashing::hash_key;
use crate::hashing::hash_of;
use crate::sizing::compute_num_bits;
use crate::sizing::compute_num_hashes;
use crate::sizing::spec_num_bits;
use crate::sizing::spec_num_hashes;
use vstd::pervasive::VecAdditionalExecFns;
use vstd::prelude::*;

verus! {

/// Errors of filter construction and combination.
#[derive(Clone, Copy, Debug, PartialEq, Eq, Structural)]
pub enum FilterError {
    /// The target capacity was zero.
    InvalidCapacity,
    /// The false-positive rate was not inside the open unit interval.
    InvalidRate,
    /// The bit array the parameters ask for does not fit in memory.
    FilterTooLarge,
    /// Two filters of different bit-array sizes or hash-function counts
    /// cannot be merged.
    ConfigMismatch,
}

/// The fixed odd multiplier that derives the probe positions from the base
/// hash.
pub const HASH_MIX_MULT: u64 = 0x517cc1b727220a95;

/// The base hash transformed `i` times by the fixed odd multiplier, with
/// wrapping multiplication.
pub open spec fn mix(h: u64, i: nat) -> u64
    decreases i,
{
    if i == 0 {
        h
    } else {
        mix(h, (i - 1) as nat).wrapping_mul(HASH_MIX_MULT)
    }
}

/// The bit position probed for base hash `h` by hash function number `i`
/// in an array of `m` bits.
pub open spec fn bit_index(h: u64, i: nat, m: nat) -> nat
    recommends
        m >= 1,
{
    (mix(h, i) as nat) % m
}

/// Whether one of the first `k` probes for `h` lands on bit `j`.
pub open spec fn probes_hit(h: u64, k: nat, m: nat, j: int) -> bool {
    exists|pi: nat| pi < k && bit_index(h, pi, m) == j
}

/// Mathematical model of a [`BloomFilter`]: the bit array, the number of
/// hash functions, and the (approximate, duplicate-counting) size counter.
pub ghost struct FilterModel {
    pub bits: Seq<bool>,
    pub k: nat,
    pub size: nat,
}

impl FilterModel {
    /// Well-formedness: at least one bit and at least one hash function.
    pub open spec fn wf(self) -> bool {
        &&& self.bits.len() >= 1
        &&& self.k >= 1
    }

    /// Whether the filter reports base hash `h` as present: all `k` probed
    /// bits are set.
    pub open spec fn accepts(self, h: u64) -> bool {
        forall|hi: nat|
            #![trigger bit_index(h, hi, self.bits.len())]
            hi < self.k ==> self.bits[bit_index(h, hi, self.bits.len()) as int]
    }

    /// Two filters can be merged only when built over the same bit-array
    /// size and hash-function count.
    pub open spec fn same_layout(self, other: FilterModel) -> bool {
        self.bits.len() == other.bits.len() && self.k == other.k
    }
}

/// The filter after recording base hash `h`: the `k` probed bits are set
/// and the duplicate-counting size counter goes up by one (saturating).
pub open spec fn spec_record(f: FilterModel, h: u64) -> FilterModel {
    FilterModel {
        bits: Seq::new(f.bits.len(), |j: int| f.bits[j] || probes_hit(h, f.k, f.bits.len(), j)),
        k: f.k,
        size: if f.size < usize::MAX as nat {
            f.size + 1
        } else {
            f.size
        },
    }
}

/// The number of set bits in a bit sequence.
pub open spec fn count_ones(s: Seq<bool>) -> nat
    decreases s.len(),
{
    if s.len() == 0 {
        0
    } else {
        count_ones(s.drop_last()) + if s.last() {
            1nat
        } else {
            0nat
        }
    }
}

/// The size a merge reports: the number of set bits divided by the number
/// of hash functions, rounded half up. An estimate of the merged
/// cardinality, since merged filters may share elements.
pub open spec fn spec_size_estimate(ones: nat, k: nat) -> nat
    recommends
        k >= 1,
{
    (2 * ones + k) / (2 * k)
}

/// Adding one more probe changes which bits are hit only at that probe's
/// own position.
proof fn lemma_probes_hit_step(h: u64, i: nat, m: nat, j: int)
    requires
        j != bit_index(h, i, m),
    ensures
        probes_hit(h, i + 1, m, j) == probes_hit(h, i, m, j),
{
    if probes_hit(h, i + 1, m, j) {
        let t = choose|t: nat| t < i + 1 && bit_index(h, t, m) == j;
        assert(t < i && bit_index(h, t, m) == j);
        assert(probes_hit(h, i, m, j));
    }
    if probes_hit(h, i, m, j) {
        let t = choose|t: nat| t < i && bit_index(h, t, m) == j;
        assert(t < i + 1 && bit_index(h, t, m) == j);
        assert(probes_hit(h, i + 1, m, j));
    }
}

/// The bit position probed for `hash` by hash function number `i` in an
/// array of `m` bits.
fn index_for(hash: u64, i: usize, m: usize) -> (idx: usize)
    requires
        m >= 1,
    ensures
        idx == bit_index(hash, i as nat, m as nat),
        idx < m,
{
    let mut combined: u64 = hash;
    let mut j: usize = 0;
    while j < i
        invariant
            j <= i,
            combined == mix(hash, j as nat),
        decreases i - j,
    {
        combined = combined.wrapping_mul(HASH_MIX_MULT);
        j = j + 1;
    }
    (combined % (m as u64)) as usize
}

/// A bit array of `n` cleared bits.
fn make_bits(n: usize) -> (v: Vec<bool>)
    ensures
        v@.len() == n,
        forall|j: int| 0 <= j < n ==> !v@[j],
{
    let mut v: Vec<bool> = Vec::new();
    while v.len() < n
        invariant
            v@.len() <= n,
            forall|j: int| 0 <= j < v@.len() ==> !v@[j],
        decreases n - v@.len(),
    {
        v.push(false);
    }
    v
}

/// Sets the `k` bits probed for base hash `h`; every other bit is kept.
#[verifier::rlimit(50)]
fn set_probes(v: &mut Vec<bool>, h: u64, k: usize)
    requires
        old(v)@.len() >= 1,
    ensures
        final(v)@ == Seq::new(
            old(v)@.len(),
            |j: int| old(v)@[j] || probes_hit(h, k as nat, old(v)@.len(), j),
        ),
{
    let mut work: Vec<bool> = Vec::new();
    core::mem::swap(v, &mut work);
    let ghost pre = work@;
    let ghost m = pre.len();
    let mut i: usize = 0;
    while i < k
        invariant
            i <= k,
            work@.len() == m,
            m >= 1,
            pre.len() == m,
            forall|j: int| 0 <= j < m ==> work@[j] == (pre[j] || probes_hit(h, i as nat, m, j)),
        decreases k - i,
    {
        let idx = index_for(h, i, work.len());
        let ghost prev = work@;
        let ghost i0 = i as nat;
        work.set(idx, true);
        i = i + 1;
        proof {
            assert forall|j: int|
                0 <= j < m implies work@[j] == (pre[j] || probes_hit(h, i as nat, m, j)) by {
                if j == idx {
                    assert(bit_index(h, i0, m) == j);
                    assert(probes_hit(h, i as nat, m, j));
                } else {
                    assert(work@[j] == prev[j]);
                    assert(prev[j] == (pre[j] || probes_hit(h, i0, m, j)));
                    lemma_probes_hit_step(h, i0, m, j);
                    assert(i as nat == i0 + 1);
                    assert(probes_hit(h, i as nat, m, j) == probes_hit(h, i0, m, j));
                }
            }
        }
    }
    core::mem::swap(v, &mut work);
    proof {
        assert(final(v)@ =~= Seq::new(pre.len(), |j: int| pre[j] || probes_hit(h, k as nat, m, j)));
    }
}

/// Bitwise-ORs the second bit array into the first.
fn or_bits(v: &mut Vec<bool>, w: &Vec<bool>)
    requires
        old(v)@.len() == w@.len(),
    ensures
        final(v)@ == Seq::new(old(v)@.len(), |j: int| old(v)@[j] || w@[j]),
{
    let mut work: Vec<bool> = Vec::new();
    core::mem::swap(v, &mut work);
    let ghost pre = work@;
    let ghost m = pre.len();
    let n = work.len();
    let mut i: usize = 0;
    while i < n
        invariant
            i <= n,
            n == m,
            work@.len() == m,
            w@.len() == m,
            pre.len() == m,
            forall|j: int| 0 <= j < i ==> work@[j] == (pre[j] || w@[j]),
            forall|j: int| i <= j < m ==> work@[j] == pre[j],
        decreases n - i,
    {
        let b = work[i] || w[i];
        work.set(i, b);
        i = i + 1;
    }
    core::mem::swap(v, &mut work);
    proof {
        assert(final(v)@ =~= Seq::new(pre.len(), |j: int| pre[j] || w@[j]));
    }
}

/// The number of set bits in a bit array.
fn count_set_bits(v: &Vec<bool>) -> (ones: usize)
    ensures
        ones == count_ones(v@),
{
    let n = v.len();
    let mut ones: usize = 0;
    let mut i: usize = 0;
    while i < n
        invariant
            i <= n,
            n == v@.len(),
            ones == count_ones(v@.take(i as int)),
            ones <= i,
        decreases n - i,
    {
        proof {
            assert(v@.take(i + 1).drop_last() =~= v@.take(i as int));
            assert(v@.take(i + 1).last() == v@[i as int]);
        }
        if v[i] {
            ones = ones + 1;
        }
        i = i + 1;
    }
    proof {
        assert(v@.take(n as int) =~= v@);
    }
    ones
}

/// A probabilistic membership filter over string keys.
///
/// `insert` records a key by setting `num_hash_functions` bits derived from
/// the key's base hash; `contains` reports a key present when all its
/// derived bits are set. It may report a never-inserted key present (a
/// false positive) but never reports an inserted key absent, as long as
/// `clear` is not called: bits are never cleared individually.
#[derive(Debug)]
pub struct BloomFilter {
    bits: Vec<bool>,
    num_hash_functions: usize,
    size: usize,
}

impl View for BloomFilter {
    type V = FilterModel;

    closed spec fn view(&self) -> FilterModel {
        FilterModel { bits: self.bits@, k: self.num_hash_functions as nat, size: self.size as nat }
    }
}

impl BloomFilter {
    /// A new filter sized for `capacity` expected elements at a target
    /// false-positive rate of `rate_num / rate_den`, which must lie in the
    /// open unit interval. All bits start cleared.
    pub fn new(capacity: usize, rate_num: u64, rate_den: u64) -> (r: Result<
        BloomFilter,
        FilterError,
    >)
        ensures
            ({
                let valid = capacity >= 1 && 1 <= rate_num && rate_num < rate_den;
                let m = spec_num_bits(capacity as int, rate_num as int, rate_den as int);
                match r {
                    Result::Ok(f) => {
                        &&& valid
                        &&& m <= usize::MAX
                        &&& f@.bits.len() == m
                        &&& forall|j: int| 0 <= j < f@.bits.len() ==> !f@.bits[j]
                        &&& f@.k == spec_num_hashes(m, capacity as int)
                        &&& f@.size == 0
                        &&& f@.wf()
                    },
                    Result::Err(e) => {
                        &&& (e == FilterError::InvalidCapacity <==> capacity == 0)
                        &&& (e == FilterError::InvalidRate <==> capacity >= 1 && !(1 <= rate_num
                            && rate_num < rate_den))
                        &&& (e == FilterError::FilterTooLarge <==> valid && m > usize::MAX)
                        &&& e != FilterError::ConfigMismatch
                    },
                }
            }),
    {
        if capacity == 0 {
            return Err(FilterError::InvalidCapacity);
        }
        if rate_num == 0 || rate_num >= rate_den {
            return Err(FilterError::InvalidRate);
        }
        let num_bits = match BloomFilter::optimal_num_bits(capacity, rate_num, rate_den) {
            Some(m) => m,
            None => {
                return Err(FilterError::FilterTooLarge);
            },
        };
        let num_hash_functions = BloomFilter::optimal_num_hash_functions(num_bits, capacity);
        Ok(BloomFilter { bits: make_bits(num_bits), num_hash_functions, size: 0 })
    }

    /// The optimal bit count for the capacity and rate, or nothing where it
    /// cannot fit in memory.
    fn optimal_num_bits(capacity: usize, rate_num: u64, rate_den: u64) -> (r: Option<usize>)
        requires
            capacity >= 1,
            1 <= rate_num,
            rate_num < rate_den,
        ensures
            match r {
                Some(m) => {
                    &&& m as int == spec_num_bits(
                        capacity as int,
                        rate_num as int,
                        rate_den as int,
                    )
                    &&& m >= 1
                },
                None => spec_num_bits(capacity as int, rate_num as int, rate_den as int)
                    > usize::MAX,
            },
    {
        compute_num_bits(capacity, rate_num, rate_den)
    }

    /// The optimal hash-function count for the bit count and capacity.
    fn optimal_num_hash_functions(num_bits: usize, capacity: usize) -> (k: usize)
        requires
            num_bits >= 1,
            capacity >= 1,
        ensures
            k as int == spec_num_hashes(num_bits as int, capacity as int),
            1 <= k,
    {
        compute_num_hashes(num_bits, capacity)
    }

    /// The number of elements recorded in the filter. Duplicate inserts are
    /// counted again, and after a merge this is an estimate.
    pub fn size(&self) -> (n: usize)
        ensures
            n == self@.size,
    {
        self.size
    }

    /// Whether nothing has been recorded since construction or `clear`.
    pub fn is_empty(&self) -> (r: bool)
        ensures
            r == (self@.size == 0),
    {
        self.size == 0
    }

    /// The bit position probed for `hash` by hash function number `i`.
    fn get_index(&self, hash: u64, i: usize) -> (idx: usize)
        requires
            self@.bits.len() >= 1,
        ensures
            idx == bit_index(hash, i as nat, self@.bits.len()),
            idx < self@.bits.len(),
    {
        index_for(hash, i, self.bits.len())
    }

    /// Records a key: sets every probed bit and counts the insert, whether
    /// or not the key was recorded before. The duplicate counter saturates
    /// at the integer limit.
    pub fn insert(&mut self, item: &str)
        requires
            old(self)@.wf(),
        ensures
            final(self)@ == spec_record(old(self)@, hash_of(item@)),
            final(self)@.accepts(hash_of(item@)),
            final(self)@.wf(),
    {
        let h = hash_key(item);
        let k = self.num_hash_functions;
        set_probes(&mut self.bits, h, k);
        if self.size < usize::MAX {
            self.size = self.size + 1;
        }
        proof {
            let m = old(self)@.bits.len();
            assert(self@.bits =~= spec_record(old(self)@, hash_of(item@)).bits);
            assert forall|t: nat|
                #![trigger bit_index(h, t, self@.bits.len())]
                t < self@.k implies self@.bits[bit_index(h, t, self@.bits.len()) as int] by {
                assert(probes_hit(h, self@.k, m, bit_index(h, t, m) as int));
            }
        }
    }

    /// Whether the key is possibly present: true exactly when every probed
    /// bit is set. May be a false positive; never a false negative for keys
    /// recorded since the last `clear`.
    pub fn contains(&self, item: &str) -> (r: bool)
        requires
            self@.wf(),
        ensures
            r == self@.accepts(hash_of(item@)),
    {
        let h = hash_key(item);
        let k = self.num_hash_functions;
        let mut i: usize = 0;
        while i < k
            invariant
                i <= k,
                self@.wf(),
                self@.k == k as nat,
                h == hash_of(item@),
                forall|t: nat|
                    #![trigger bit_index(h, t, self@.bits.len())]
                    t < i as nat ==> self@.bits[bit_index(h, t, self@.bits.len()) as int],
            decreases k - i,
        {
            let idx = self.get_index(h, i);
            if !self.bits[idx] {
                proof {
                    assert(!self@.bits[bit_index(h, i as nat, self@.bits.len()) as int]);
                }
                return false;
            }
            i = i + 1;
        }
        true
    }

    /// Clears every bit and resets the size counter.
    pub fn clear(&mut self)
        requires
            old(self)@.wf(),
        ensures
            final(self)@.bits.len() == old(self)@.bits.len(),
            forall|j: int| 0 <= j < final(self)@.bits.len() ==> !final(self)@.bits[j],
            final(self)@.k == old(self)@.k,
            final(self)@.size == 0,
            final(self)@.wf(),
    {
        let n = self.bits.len();
        self.bits = make_bits(n);
        self.size = 0;
    }

    /// Merges another filter into this one by bitwise OR. Fails with a
    /// configuration mismatch, leaving both filters unchanged, unless the
    /// two filters have the same bit-array size and hash-function count.
    /// The size counter is re-estimated from the merged bit count, not
    /// summed, because the filters may share elements.
    pub fn merge(&mut self, other: &BloomFilter) -> (r: Result<(), FilterError>)
        requires
            old(self)@.wf(),
            other@.wf(),
        ensures
            match r {
                Result::Err(e) => {
                    &&& e == FilterError::ConfigMismatch
                    &&& !old(self)@.same_layout(other@)
                    &&& final(self)@ == old(self)@
                },
                Result::Ok(_) => {
                    &&& old(self)@.same_layout(other@)
                    &&& final(self)@.bits == Seq::new(
                        old(self)@.bits.len(),
                        |j: int| old(self)@.bits[j] || other@.bits[j],
                    )
                    &&& final(self)@.k == old(self)@.k
                    &&& final(self)@.size == spec_size_estimate(
                        count_ones(final(self)@.bits),
                        old(self)@.k,
                    )
                },
            },
            final(self)@.wf(),
    {
        if self.bits.len() != other.bits.len() || self.num_hash_functions
            != other.num_hash_functions {
            return Err(FilterError::ConfigMismatch);
        }
        or_bits(&mut self.bits, &other.bits);
        let ones = count_set_bits(&self.bits);
        let k = self.num_hash_functions;
        let wide: u128 = (2 * (ones as u128) + (k as u128)) / (2 * (k as u128));
        proof {
            let o = ones as int;
            let kk = k as int;
            assert(2 * o + kk < 2 * kk * (o + 1)) by (nonlinear_arith)
                requires
                    o >= 0,
                    kk >= 1,
            ;
            assert((2 * o + kk) / (2 * kk) <= o) by (nonlinear_arith)
                requires
                    o >= 0,
                    kk >= 1,
                    2 * o + kk < 2 * kk * (o + 1),
            ;
        }
        self.size = wide as usize;
        Ok(())
    }
}

/// No false negatives: a filter that accepts a hash keeps accepting it
/// under any operation that can only set bits and keeps the layout, which
/// is every filter operation except `clear`.
pub proof fn lemma_bits_monotone_preserves_accepts(pre: FilterModel, post: FilterModel, h: u64)
    requires
        pre.bits.len() >= 1,
        pre.bits.len() == post.bits.len(),
        pre.k == post.k,
        forall|j: int| 0 <= j < pre.bits.len() ==> pre.bits[j] ==> post.bits[j],
        pre.accepts(h),
    ensures
        post.accepts(h),
{
    assert forall|i: nat|
        #![trigger bit_index(h, i, post.bits.len())]
        i < post.k implies post.bits[bit_index(h, i, post.bits.len()) as int] by {
        assert(pre.bits[bit_index(h, i, pre.bits.len()) as int]);
    }
}

/// No false negatives across inserts: recording any further key keeps
/// every already-accepted key accepted. Chained over a run of inserts, a
/// key once recorded stays accepted until `clear`.
pub proof fn lemma_record_keeps_accepts(f: FilterModel, h_new: u64, h_old: u64)
    requires
        f.wf(),
        f.accepts(h_old),
    ensures
        spec_record(f, h_new).accepts(h_old),
{
    lemma_bits_monotone_preserves_accepts(f, spec_record(f, h_new), h_old);
}

/// Merging is a union: the merged filter accepts every hash that either
/// side accepted, so it contains every key either filter contained.
pub proof fn lemma_merge_accepts_union(a: FilterModel, b: FilterModel, merged: FilterModel, h: u64)
    requires
        a.bits.len() >= 1,
        a.same_layout(b),
        merged.k == a.k,
        merged.bits == Seq::new(a.bits.len(), |j: int| a.bits[j] || b.bits[j]),
        a.accepts(h) || b.accepts(h),
    ensures
        merged.accepts(h),
{
    assert forall|i: nat|
        #![trigger bit_index(h, i, merged.bits.len())]
        i < merged.k implies merged.bits[bit_index(h, i, merged.bits.len()) as int] by {
        let j = bit_index(h, i, a.bits.len());
        if a.accepts(h) {
            assert(a.bits[j as int]);
        } else {
            assert(b.bits[j as int]);
        }
    }
}

} // verus!
