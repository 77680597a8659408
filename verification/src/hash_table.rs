//! The hash-indexed cache: string keys and values, lazy TTL expiration,
//! and a membership filter consulted before every read.

use crate::clock::now_millis;
use crate::entry::Entry;
use crate::entry::EntryModel;
use crate::filter::BloomFilter;
use crate::filter::spec_record;
use crate::hashing::hash_of;
use crate::policy::CacheModel;
use crate::policy::get_step;
use crate::policy::probe_step;
use crate::policy::spec_inserted;
use crate::policy::update_step;
use crate::sizing::lemma_num_bits_small;
use crate::store::Store;
use crate::store::lemma_map_contains;
use crate::store::lemma_map_index;
use crate::store::lemma_map_len;
use crate::store::lemma_sorted_distinct;
use vstd::arithmetic::power2::lemma2_to64;
use vstd::arithmetic::power2::lemma2_to64_rest;
use vstd::pervasive::unreached;
use vstd::prelude::*;

verus! {

/// The filter capacity every cache is built with.
pub const FILTER_CAPACITY: usize = 1000;

/// The numerator of the caches' target false-positive rate.
pub const FILTER_RATE_NUM: u64 = 1;

/// The denominator of the caches' target false-positive rate: one percent.
pub const FILTER_RATE_DEN: u64 = 100;

/// The filter both caches start with: sized for [`FILTER_CAPACITY`] keys at
/// a rate of [`FILTER_RATE_NUM`] / [`FILTER_RATE_DEN`].
pub(crate) fn default_filter() -> (f: BloomFilter)
    ensures
        f@.wf(),
        f@.size == 0,
        forall|j: int| 0 <= j < f@.bits.len() ==> !f@.bits[j],
{
    proof {
        lemma2_to64();
        lemma2_to64_rest();
        lemma_num_bits_small(
            FILTER_CAPACITY as int,
            FILTER_RATE_NUM as int,
            FILTER_RATE_DEN as int,
        );
    }
    match BloomFilter::new(FILTER_CAPACITY, FILTER_RATE_NUM, FILTER_RATE_DEN) {
        Ok(f) => f,
        Err(_) => unreached(),
    }
}

/// A cache over a hash-indexed store.
///
/// Despite the name, all state is process-local: the structure is a plain
/// associative cache with TTL expiration and a filter as fast-reject guard.
#[derive(Debug)]
pub struct DistributedHashTable {
    store: Store,
    bloom_filter: BloomFilter,
}

impl View for DistributedHashTable {
    type V = CacheModel;

    closed spec fn view(&self) -> CacheModel {
        CacheModel { entries: self.store@.as_map(), filter: self.bloom_filter@ }
    }
}

impl DistributedHashTable {
    /// The internal invariant: the store is well formed and the filter
    /// accepts every held key.
    pub closed spec fn wf(&self) -> bool {
        &&& self.store@.wf()
        &&& self@.inv()
    }

    /// A well-formed cache satisfies the public model invariant.
    pub proof fn lemma_wf_inv(&self)
        requires
            self.wf(),
        ensures
            self@.inv(),
            self@.entries.dom().finite(),
    {
        lemma_sorted_distinct(self.store@.keys);
        lemma_map_len(self.store@.keys, self.store@.vals);
    }

    /// A new, empty cache.
    pub fn new() -> (c: DistributedHashTable)
        ensures
            c.wf(),
            c@.entries == Map::<Seq<char>, EntryModel>::empty(),
            c@.filter.wf(),
            c@.filter.size == 0,
            forall|j: int| 0 <= j < c@.filter.bits.len() ==> !c@.filter.bits[j],
    {
        let c = DistributedHashTable { store: Store::new(), bloom_filter: default_filter() };
        proof {
            assert forall|k: Seq<char>|
                c@.entries.contains_key(k) implies c@.filter.accepts(#[trigger] hash_of(k)) by {}
        }
        c
    }

    /// The number of entries the index holds, expired-but-unobserved ones
    /// included.
    pub fn size(&self) -> (n: usize)
        requires
            self.wf(),
        ensures
            n == self@.entries.dom().len(),
    {
        self.store.len()
    }

    /// Whether the index holds nothing.
    pub fn is_empty(&self) -> (r: bool)
        requires
            self.wf(),
        ensures
            r == (self@.entries.dom().len() == 0),
    {
        self.store.len() == 0
    }

    /// Inserts a key/value pair without a time-to-live, stamping it with
    /// the time `now_ms`.
    pub fn insert_at(&mut self, key: &str, value: &str, now_ms: u64)
        requires
            old(self).wf(),
        ensures
            final(self).wf(),
            final(self)@ == spec_inserted(old(self)@, key@, value@, None, now_ms),
    {
        let e = Entry::new(value, now_ms);
        self.insert_entry(key, e);
    }

    /// Inserts a key/value pair with a time-to-live of `ttl_ms`
    /// milliseconds, stamping it with the time `now_ms`.
    pub fn insert_with_ttl_at(&mut self, key: &str, value: &str, ttl_ms: u64, now_ms: u64)
        requires
            old(self).wf(),
        ensures
            final(self).wf(),
            final(self)@ == spec_inserted(old(self)@, key@, value@, Some(ttl_ms), now_ms),
    {
        let e = Entry::with_ttl(value, Some(ttl_ms), now_ms);
        self.insert_entry(key, e);
    }

    /// Inserts a key/value pair without a time-to-live, stamped with the
    /// system clock.
    pub fn insert(&mut self, key: &str, value: &str)
        requires
            old(self).wf(),
        ensures
            final(self).wf(),
            exists|now_ms: u64|
                final(self)@ == spec_inserted(old(self)@, key@, value@, None, now_ms),
    {
        let now = now_millis();
        self.insert_at(key, value, now);
    }

    /// Inserts a key/value pair with a time-to-live, stamped with the
    /// system clock.
    pub fn insert_with_ttl(&mut self, key: &str, value: &str, ttl_ms: u64)
        requires
            old(self).wf(),
        ensures
            final(self).wf(),
            exists|now_ms: u64|
                final(self)@ == spec_inserted(old(self)@, key@, value@, Some(ttl_ms), now_ms),
    {
        let now = now_millis();
        self.insert_with_ttl_at(key, value, ttl_ms, now);
    }

    /// The shared insert path: places the entry, then records the key in
    /// the filter — also on overwrite, so the filter counts every insert.
    fn insert_entry(&mut self, key: &str, e: Entry)
        requires
            old(self).wf(),
        ensures
            final(self).wf(),
            final(self)@.entries == old(self)@.entries.insert(key@, e@),
            final(self)@.filter == spec_record(old(self)@.filter, hash_of(key@)),
    {
        match self.store.find(key) {
            Some(i) => {
                self.store.replace_at(i, e);
            },
            None => {
                self.store.insert_pair(key, e);
            },
        }
        self.bloom_filter.insert(key);
        proof {
            let pre = old(self)@;
            let post = final(self)@;
            assert forall|k2: Seq<char>|
                post.entries.contains_key(k2) implies post.filter.accepts(
                #[trigger] hash_of(k2),
            ) by {
                if k2 == key@ {
                } else {
                    assert(pre.entries.contains_key(k2));
                    assert(pre.filter.accepts(hash_of(k2)));
                    crate::filter::lemma_bits_monotone_preserves_accepts(
                        pre.filter,
                        post.filter,
                        hash_of(k2),
                    );
                }
            }
        }
    }

    /// Reads a key at time `now_ms`: the filter rejects fast; an expired
    /// entry is removed; a live one is touched and its value returned.
    pub fn get_at(&mut self, key: &str, now_ms: u64) -> (r: Option<String>)
        requires
            old(self).wf(),
        ensures
            final(self).wf(),
            get_step(old(self)@, final(self)@, r.deep_view(), key@, now_ms),
    {
        let ghost pre = old(self)@;
        if !self.bloom_filter.contains(key) {
            proof {
                if pre.entries.contains_key(key@) {
                    assert(pre.filter.accepts(hash_of(key@)));
                }
            }
            return None;
        }
        let r = match self.store.find(key) {
            None => None,
            Some(i) => {
                if self.store.expired_at(i, now_ms) {
                    let _evicted = self.store.remove_at(i);
                    None
                } else {
                    self.store.touch_at(i, now_ms);
                    let v = self.store.value_at(i);
                    Some(v)
                }
            },
        };
        proof {
            self.preserve_inv(pre);
        }
        r
    }

    /// Reads a key at the system clock's current time.
    pub fn get(&mut self, key: &str) -> (r: Option<String>)
        requires
            old(self).wf(),
        ensures
            final(self).wf(),
            exists|now_ms: u64| get_step(old(self)@, final(self)@, r.deep_view(), key@, now_ms),
    {
        let now = now_millis();
        self.get_at(key, now)
    }

    /// Whether a key is held and live at time `now_ms`; an expired entry is
    /// evicted, but a live one is not touched.
    pub fn contains_key_at(&mut self, key: &str, now_ms: u64) -> (r: bool)
        requires
            old(self).wf(),
        ensures
            final(self).wf(),
            probe_step(old(self)@, final(self)@, r, key@, now_ms),
    {
        let ghost pre = old(self)@;
        if !self.bloom_filter.contains(key) {
            proof {
                if pre.entries.contains_key(key@) {
                    assert(pre.filter.accepts(hash_of(key@)));
                }
            }
            return false;
        }
        let r = match self.store.find(key) {
            None => false,
            Some(i) => {
                if self.store.expired_at(i, now_ms) {
                    let _evicted = self.store.remove_at(i);
                    false
                } else {
                    true
                }
            },
        };
        proof {
            self.preserve_inv(pre);
        }
        r
    }

    /// Whether a key is held and live at the system clock's current time.
    pub fn contains_key(&mut self, key: &str) -> (r: bool)
        requires
            old(self).wf(),
        ensures
            final(self).wf(),
            exists|now_ms: u64| probe_step(old(self)@, final(self)@, r, key@, now_ms),
    {
        let now = now_millis();
        self.contains_key_at(key, now)
    }

    /// Replaces the value of an existing entry at time `now_ms` and touches
    /// it; fails on a missing key. The filter and the expiration check are
    /// not consulted: an expired-but-unobserved entry is updated like any
    /// other, but it keeps its creation time and time-to-live, so it stays
    /// expired for the next read.
    pub fn update_at(&mut self, key: &str, value: &str, now_ms: u64) -> (r: bool)
        requires
            old(self).wf(),
        ensures
            final(self).wf(),
            update_step(old(self)@, final(self)@, r, key@, value@, now_ms),
    {
        let ghost pre = old(self)@;
        let r = match self.store.find(key) {
            None => false,
            Some(i) => {
                self.store.update_at(i, value, now_ms);
                true
            },
        };
        proof {
            self.preserve_inv(pre);
        }
        r
    }

    /// Replaces the value of an existing entry, stamped with the system
    /// clock.
    pub fn update(&mut self, key: &str, value: &str) -> (r: bool)
        requires
            old(self).wf(),
        ensures
            final(self).wf(),
            exists|now_ms: u64| update_step(old(self)@, final(self)@, r, key@, value@, now_ms),
    {
        let now = now_millis();
        self.update_at(key, value, now)
    }

    /// Removes a key from the index and returns its prior value. The
    /// filter keeps the key: it is a superset oracle, never shrunk.
    pub fn remove(&mut self, key: &str) -> (r: Option<String>)
        requires
            old(self).wf(),
        ensures
            final(self).wf(),
            final(self)@.filter == old(self)@.filter,
            final(self)@.entries == old(self)@.entries.remove(key@),
            match r {
                Some(v) => old(self)@.entries.contains_key(key@) && v@ == old(
                    self,
                )@.entries[key@].value,
                None => !old(self)@.entries.contains_key(key@),
            },
    {
        let ghost pre = old(self)@;
        let r = match self.store.find(key) {
            None => {
                proof {
                    assert(pre.entries.remove(key@) =~= pre.entries);
                }
                None
            },
            Some(i) => {
                let e = self.store.remove_at(i);
                Some(e.value_string())
            },
        };
        proof {
            self.preserve_inv(pre);
        }
        r
    }

    /// Empties both the index and the filter.
    pub fn clear(&mut self)
        requires
            old(self).wf(),
        ensures
            final(self).wf(),
            final(self)@.entries == Map::<Seq<char>, EntryModel>::empty(),
            final(self)@.filter.wf(),
            final(self)@.filter.size == 0,
            final(self)@.filter.same_layout(old(self)@.filter),
            forall|j: int| 0 <= j < final(self)@.filter.bits.len() ==> !final(self)@.filter.bits[j],
    {
        self.store.clear();
        self.bloom_filter.clear();
        proof {
            assert forall|k: Seq<char>|
                final(self)@.entries.contains_key(k) implies final(self)@.filter.accepts(
                #[trigger] hash_of(k),
            ) by {}
        }
    }

    /// The keys the index currently holds, each exactly once, in no
    /// promised order.
    pub fn keys(&self) -> (r: Vec<String>)
        requires
            self.wf(),
        ensures
            r@.len() == self@.entries.dom().len(),
            forall|ri: int| 0 <= ri < r@.len() ==> self@.entries.contains_key(#[trigger] r@[ri]@),
            forall|ri: int, rj: int|
                0 <= ri < rj < r@.len() ==> #[trigger] r@[ri]@ != #[trigger] r@[rj]@,
            forall|k: Seq<char>|
                self@.entries.contains_key(k) ==> exists|ri: int|
                    0 <= ri < r@.len() && #[trigger] r@[ri]@ == k,
    {
        let r = self.store.keys_vec();
        proof {
            let ks = self.store@.keys;
            let vs = self.store@.vals;
            lemma_sorted_distinct_keys(ks);
            lemma_map_len(ks, vs);
            lemma_map_contains_all(ks, vs);
            assert forall|k: Seq<char>| self@.entries.contains_key(k) implies exists|ri: int|
                0 <= ri < r@.len() && #[trigger] r@[ri]@ == k by {
                let ci = choose|ci: int| 0 <= ci < ks.len() && ks[ci] == k;
                assert(r@[ci]@ == k);
            }
        }
        r
    }

    /// The values the index currently holds, one per held key, in no
    /// promised order.
    pub fn values(&self) -> (r: Vec<String>)
        requires
            self.wf(),
        ensures
            r@.len() == self@.entries.dom().len(),
            exists|ks: Seq<Seq<char>>|
                {
                    &&& ks.no_duplicates()
                    &&& ks.len() == r@.len()
                    &&& (forall|ri: int|
                        0 <= ri < ks.len() ==> self@.entries.contains_key(#[trigger] ks[ri])
                            && self@.entries[ks[ri]].value == r@[ri]@)
                    &&& (forall|k: Seq<char>|
                        self@.entries.contains_key(k) ==> #[trigger] ks.contains(k))
                },
    {
        let r = self.store.values_vec();
        proof {
            let ks = self.store@.keys;
            let vs = self.store@.vals;
            lemma_sorted_distinct_keys(ks);
            lemma_map_len(ks, vs);
            lemma_map_contains_all(ks, vs);
            assert forall|ri: int| 0 <= ri < ks.len() implies self@.entries.contains_key(
                #[trigger] ks[ri],
            ) && self@.entries[ks[ri]].value == r@[ri]@ by {
                lemma_map_index(ks, vs, ri);
            }
            assert forall|k: Seq<char>| self@.entries.contains_key(k) implies #[trigger] ks.contains(
                k,
            ) by {
                let ci = choose|ci: int| 0 <= ci < ks.len() && ks[ci] == k;
                assert(ks[ci] == k);
            }
            assert(ks.no_duplicates());
        }
        r
    }

    /// The invariant survives any step that only shrinks or touches the
    /// index and leaves the filter alone.
    proof fn preserve_inv(&self, pre: CacheModel)
        requires
            self.store@.wf(),
            pre.inv(),
            self@.filter == pre.filter,
            forall|k: Seq<char>|
                self@.entries.contains_key(k) ==> pre.entries.contains_key(k),
        ensures
            self.wf(),
    {
        assert forall|k: Seq<char>|
            self@.entries.contains_key(k) implies self@.filter.accepts(#[trigger] hash_of(k)) by {
            assert(pre.entries.contains_key(k));
        }
    }
}

/// Distinctness of a store's sorted keys, in the form the cache needs.
proof fn lemma_sorted_distinct_keys(ks: Seq<Seq<char>>)
    requires
        crate::store::sorted_strict(ks),
    ensures
        forall|ci: int, cj: int|
            0 <= ci < cj < ks.len() ==> #[trigger] ks[ci] != #[trigger] ks[cj],
        ks.no_duplicates(),
{
    crate::store::lemma_sorted_distinct(ks);
}

/// Every held key is some position's key and conversely.
proof fn lemma_map_contains_all(ks: Seq<Seq<char>>, vs: Seq<EntryModel>)
    requires
        ks.len() == vs.len(),
    ensures
        forall|k: Seq<char>|
            crate::store::pairs_to_map(ks, vs).contains_key(k) <==> (exists|ci: int|
                0 <= ci < ks.len() && #[trigger] ks[ci] == k),
{
    assert forall|k: Seq<char>|
        crate::store::pairs_to_map(ks, vs).contains_key(k) <==> (exists|ci: int|
            0 <= ci < ks.len() && #[trigger] ks[ci] == k) by {
        lemma_map_contains(ks, vs, k);
    }
}

} // verus!
