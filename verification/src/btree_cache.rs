//! The sorted-key cache: the same contract as the hash-indexed cache, plus
//! ordered range and boundary queries.

use crate::clock::now_millis;
use crate::entry::Entry;
use crate::entry::EntryModel;
use crate::filter::BloomFilter;
use crate::filter::FilterModel;
use crate::filter::spec_record;
use crate::hash_table::default_filter;
use crate::hashing::hash_of;
use crate::order::key_le;
use crate::order::key_lt;
use crate::policy::CacheModel;
use crate::policy::get_step;
use crate::policy::probe_step;
use crate::policy::update_step;
use crate::store::Store;
use crate::store::lemma_map_contains;
use crate::store::lemma_map_len;
use crate::store::lemma_map_index;
use crate::store::lemma_sorted_distinct;
use crate::store::pairs_to_map;
use crate::store::sorted_strict;
use vstd::prelude::*;

verus! {

/// Mathematical model of a [`BTreeCache`]: the held keys in ascending
/// order, their entries, and the membership filter.
pub ghost struct OrderedModel {
    pub keys: Seq<Seq<char>>,
    pub vals: Seq<EntryModel>,
    pub filter: FilterModel,
}

impl OrderedModel {
    /// The key/entry map the cache holds.
    pub open spec fn as_map(self) -> Map<Seq<char>, EntryModel> {
        pairs_to_map(self.keys, self.vals)
    }

    /// The same state seen as an unordered cache model.
    pub open spec fn as_cache(self) -> CacheModel {
        CacheModel { entries: self.as_map(), filter: self.filter }
    }

    /// Well-formedness: one entry per key, keys strictly ascending, and
    /// the filter accepts every held key.
    pub open spec fn inv(self) -> bool {
        &&& self.keys.len() == self.vals.len()
        &&& sorted_strict(self.keys)
        &&& self.as_cache().inv()
    }
}

/// A well-formed ordered model holds a finite map with exactly one entry
/// per key position.
pub proof fn lemma_ordered_model_finite(m: OrderedModel)
    requires
        m.inv(),
    ensures
        m.as_map().dom().finite(),
        m.as_map().dom().len() == m.keys.len(),
{
    lemma_sorted_distinct(m.keys);
    lemma_map_len(m.keys, m.vals);
}

/// A cache over a key-sorted store.
///
/// Identical contract surface to [`crate::DistributedHashTable`], with
/// range and boundary queries in ascending key order on top.
#[derive(Debug)]
pub struct BTreeCache {
    store: Store,
    bloom_filter: BloomFilter,
}

impl View for BTreeCache {
    type V = OrderedModel;

    closed spec fn view(&self) -> OrderedModel {
        OrderedModel {
            keys: self.store@.keys,
            vals: self.store@.vals,
            filter: self.bloom_filter@,
        }
    }
}

impl BTreeCache {
    /// A new, empty cache.
    pub fn new() -> (c: BTreeCache)
        ensures
            c@.inv(),
            c@.keys.len() == 0,
            c@.as_map() == Map::<Seq<char>, EntryModel>::empty(),
            c@.filter.wf(),
            c@.filter.size == 0,
            forall|j: int| 0 <= j < c@.filter.bits.len() ==> !c@.filter.bits[j],
    {
        let c = BTreeCache { store: Store::new(), bloom_filter: default_filter() };
        proof {
            assert forall|k: Seq<char>|
                c@.as_map().contains_key(k) implies c@.filter.accepts(#[trigger] hash_of(k)) by {}
        }
        c
    }

    /// The number of entries the index holds, expired-but-unobserved ones
    /// included.
    pub fn size(&self) -> (n: usize)
        requires
            self@.inv(),
        ensures
            n == self@.keys.len(),
            n == self@.as_map().dom().len(),
    {
        self.store.len()
    }

    /// Whether the index holds nothing.
    pub fn is_empty(&self) -> (r: bool)
        requires
            self@.inv(),
        ensures
            r == (self@.keys.len() == 0),
    {
        self.store.len() == 0
    }

    /// Inserts a key/value pair without a time-to-live, stamping it with
    /// the time `now_ms`.
    pub fn insert_at(&mut self, key: &str, value: &str, now_ms: u64)
        requires
            old(self)@.inv(),
        ensures
            final(self)@.inv(),
            final(self)@.as_cache() == crate::policy::spec_inserted(
                old(self)@.as_cache(),
                key@,
                value@,
                None,
                now_ms,
            ),
    {
        let e = Entry::new(value, now_ms);
        self.insert_entry(key, e);
    }

    /// Inserts a key/value pair with a time-to-live of `ttl_ms`
    /// milliseconds, stamping it with the time `now_ms`.
    pub fn insert_with_ttl_at(&mut self, key: &str, value: &str, ttl_ms: u64, now_ms: u64)
        requires
            old(self)@.inv(),
        ensures
            final(self)@.inv(),
            final(self)@.as_cache() == crate::policy::spec_inserted(
                old(self)@.as_cache(),
                key@,
                value@,
                Some(ttl_ms),
                now_ms,
            ),
    {
        let e = Entry::with_ttl(value, Some(ttl_ms), now_ms);
        self.insert_entry(key, e);
    }

    /// Inserts a key/value pair without a time-to-live, stamped with the
    /// system clock.
    pub fn insert(&mut self, key: &str, value: &str)
        requires
            old(self)@.inv(),
        ensures
            final(self)@.inv(),
            exists|now_ms: u64|
                final(self)@.as_cache() == crate::policy::spec_inserted(
                    old(self)@.as_cache(),
                    key@,
                    value@,
                    None,
                    now_ms,
                ),
    {
        let now = now_millis();
        self.insert_at(key, value, now);
    }

    /// Inserts a key/value pair with a time-to-live, stamped with the
    /// system clock.
    pub fn insert_with_ttl(&mut self, key: &str, value: &str, ttl_ms: u64)
        requires
            old(self)@.inv(),
        ensures
            final(self)@.inv(),
            exists|now_ms: u64|
                final(self)@.as_cache() == crate::policy::spec_inserted(
                    old(self)@.as_cache(),
                    key@,
                    value@,
                    Some(ttl_ms),
                    now_ms,
                ),
    {
        let now = now_millis();
        self.insert_with_ttl_at(key, value, ttl_ms, now);
    }

    /// The shared insert path: places the entry, then records the key in
    /// the filter — also on overwrite, so the filter counts every insert.
    fn insert_entry(&mut self, key: &str, e: Entry)
        requires
            old(self)@.inv(),
        ensures
            final(self)@.inv(),
            final(self)@.as_map() == old(self)@.as_map().insert(key@, e@),
            final(self)@.filter == spec_record(old(self)@.filter, hash_of(key@)),
    {
        match self.store.find(key) {
            Some(i) => {
                self.store.replace_at(i, e);
            },
            None => {
                self.store.insert_pair(key, e);
            },
        }
        self.bloom_filter.insert(key);
        proof {
            let pre = old(self)@;
            let post = final(self)@;
            assert forall|k2: Seq<char>|
                post.as_map().contains_key(k2) implies post.filter.accepts(
                #[trigger] hash_of(k2),
            ) by {
                if k2 == key@ {
                } else {
                    assert(pre.as_map().contains_key(k2));
                    assert(pre.filter.accepts(hash_of(k2)));
                    crate::filter::lemma_bits_monotone_preserves_accepts(
                        pre.filter,
                        post.filter,
                        hash_of(k2),
                    );
                }
            }
        }
    }

    /// Reads a key at time `now_ms`: the filter rejects fast; an expired
    /// entry is removed; a live one is touched and its value returned.
    pub fn get_at(&mut self, key: &str, now_ms: u64) -> (r: Option<String>)
        requires
            old(self)@.inv(),
        ensures
            final(self)@.inv(),
            get_step(old(self)@.as_cache(), final(self)@.as_cache(), r.deep_view(), key@, now_ms),
    {
        let ghost pre = old(self)@;
        if !self.bloom_filter.contains(key) {
            proof {
                if pre.as_map().contains_key(key@) {
                    assert(pre.filter.accepts(hash_of(key@)));
                }
            }
            return None;
        }
        let r = match self.store.find(key) {
            None => None,
            Some(i) => {
                if self.store.expired_at(i, now_ms) {
                    let _evicted = self.store.remove_at(i);
                    None
                } else {
                    self.store.touch_at(i, now_ms);
                    let v = self.store.value_at(i);
                    Some(v)
                }
            },
        };
        proof {
            self.preserve_inv(pre);
        }
        r
    }

    /// Reads a key at the system clock's current time.
    pub fn get(&mut self, key: &str) -> (r: Option<String>)
        requires
            old(self)@.inv(),
        ensures
            final(self)@.inv(),
            exists|now_ms: u64|
                get_step(old(self)@.as_cache(), final(self)@.as_cache(), r.deep_view(), key@, now_ms),
    {
        let now = now_millis();
        self.get_at(key, now)
    }

    /// Whether a key is held and live at time `now_ms`; an expired entry is
    /// evicted, but a live one is not touched.
    pub fn contains_key_at(&mut self, key: &str, now_ms: u64) -> (r: bool)
        requires
            old(self)@.inv(),
        ensures
            final(self)@.inv(),
            probe_step(old(self)@.as_cache(), final(self)@.as_cache(), r, key@, now_ms),
    {
        let ghost pre = old(self)@;
        if !self.bloom_filter.contains(key) {
            proof {
                if pre.as_map().contains_key(key@) {
                    assert(pre.filter.accepts(hash_of(key@)));
                }
            }
            return false;
        }
        let r = match self.store.find(key) {
            None => false,
            Some(i) => {
                if self.store.expired_at(i, now_ms) {
                    let _evicted = self.store.remove_at(i);
                    false
                } else {
                    true
                }
            },
        };
        proof {
            self.preserve_inv(pre);
        }
        r
    }

    /// Whether a key is held and live at the system clock's current time.
    pub fn contains_key(&mut self, key: &str) -> (r: bool)
        requires
            old(self)@.inv(),
        ensures
            final(self)@.inv(),
            exists|now_ms: u64|
                probe_step(old(self)@.as_cache(), final(self)@.as_cache(), r, key@, now_ms),
    {
        let now = now_millis();
        self.contains_key_at(key, now)
    }

    /// Replaces the value of an existing entry at time `now_ms` and touches
    /// it; fails on a missing key. The filter and the expiration check are
    /// not consulted: an expired-but-unobserved entry is updated like any
    /// other, but it keeps its creation time and time-to-live, so it stays
    /// expired for the next read.
    pub fn update_at(&mut self, key: &str, value: &str, now_ms: u64) -> (r: bool)
        requires
            old(self)@.inv(),
        ensures
            final(self)@.inv(),
            update_step(old(self)@.as_cache(), final(self)@.as_cache(), r, key@, value@, now_ms),
    {
        let ghost pre = old(self)@;
        let r = match self.store.find(key) {
            None => false,
            Some(i) => {
                self.store.update_at(i, value, now_ms);
                true
            },
        };
        proof {
            self.preserve_inv(pre);
        }
        r
    }

    /// Replaces the value of an existing entry, stamped with the system
    /// clock.
    pub fn update(&mut self, key: &str, value: &str) -> (r: bool)
        requires
            old(self)@.inv(),
        ensures
            final(self)@.inv(),
            exists|now_ms: u64|
                update_step(old(self)@.as_cache(), final(self)@.as_cache(), r, key@, value@, now_ms),
    {
        let now = now_millis();
        self.update_at(key, value, now)
    }

    /// Removes a key from the index and returns its prior value. The
    /// filter keeps the key: it is a superset oracle, never shrunk.
    pub fn remove(&mut self, key: &str) -> (r: Option<String>)
        requires
            old(self)@.inv(),
        ensures
            final(self)@.inv(),
            final(self)@.filter == old(self)@.filter,
            final(self)@.as_map() == old(self)@.as_map().remove(key@),
            match r {
                Some(v) => old(self)@.as_map().contains_key(key@) && v@ == old(
                    self,
                )@.as_map()[key@].value,
                None => !old(self)@.as_map().contains_key(key@),
            },
    {
        let ghost pre = old(self)@;
        let r = match self.store.find(key) {
            None => {
                proof {
                    assert(pre.as_map().remove(key@) =~= pre.as_map());
                }
                None
            },
            Some(i) => {
                let e = self.store.remove_at(i);
                Some(e.value_string())
            },
        };
        proof {
            self.preserve_inv(pre);
        }
        r
    }

    /// Empties both the index and the filter.
    pub fn clear(&mut self)
        requires
            old(self)@.inv(),
        ensures
            final(self)@.inv(),
            final(self)@.as_map() == Map::<Seq<char>, EntryModel>::empty(),
            final(self)@.keys.len() == 0,
            final(self)@.filter.wf(),
            final(self)@.filter.size == 0,
            final(self)@.filter.same_layout(old(self)@.filter),
            forall|j: int| 0 <= j < final(self)@.filter.bits.len() ==> !final(self)@.filter.bits[j],
    {
        self.store.clear();
        self.bloom_filter.clear();
        proof {
            assert forall|k: Seq<char>|
                final(self)@.as_map().contains_key(k) implies final(self)@.filter.accepts(
                #[trigger] hash_of(k),
            ) by {}
        }
    }

    /// The held keys in ascending order.
    pub fn keys(&self) -> (r: Vec<String>)
        requires
            self@.inv(),
        ensures
            r@.len() == self@.keys.len(),
            forall|ri: int| 0 <= ri < r@.len() ==> #[trigger] r@[ri]@ == self@.keys[ri],
    {
        self.store.keys_vec()
    }

    /// The held values in ascending key order.
    pub fn values(&self) -> (r: Vec<String>)
        requires
            self@.inv(),
        ensures
            r@.len() == self@.vals.len(),
            forall|ri: int| 0 <= ri < r@.len() ==> #[trigger] r@[ri]@ == self@.vals[ri].value,
    {
        self.store.values_vec()
    }

    /// The key/value pairs whose keys lie in the inclusive range
    /// `start ..= end`, in ascending key order. No expiration eviction
    /// happens here.
    pub fn range(&self, start: &str, end: &str) -> (r: Vec<(String, String)>)
        requires
            self@.inv(),
        ensures
            forall|ri: int|
                0 <= ri < r@.len() ==> {
                    &&& key_le(start@, #[trigger] r@[ri].0@)
                    &&& key_le(r@[ri].0@, end@)
                    &&& self@.as_map().contains_key(r@[ri].0@)
                    &&& self@.as_map()[r@[ri].0@].value == r@[ri].1@
                },
            forall|ri: int, rj: int|
                0 <= ri < rj < r@.len() ==> key_lt(#[trigger] r@[ri].0@, #[trigger] r@[rj].0@),
            forall|k: Seq<char>|
                self@.as_map().contains_key(k) && key_le(start@, k) && key_le(k, end@)
                    ==> exists|ri: int| 0 <= ri < r@.len() && #[trigger] r@[ri].0@ == k,
    {
        let r = self.store.range_vec(start, end);
        proof {
            assert forall|k: Seq<char>|
                self@.as_map().contains_key(k) && key_le(start@, k) && key_le(k, end@)
                    implies exists|ri: int| 0 <= ri < r@.len() && #[trigger] r@[ri].0@ == k by {
                lemma_map_contains(self@.keys, self@.vals, k);
                let ci = choose|ci: int| 0 <= ci < self@.keys.len() && self@.keys[ci] == k;
                assert(key_le(start@, self@.keys[ci]) && key_le(self@.keys[ci], end@));
            }
        }
        r
    }

    /// The smallest held key and its value, or nothing when empty.
    pub fn first(&self) -> (r: Option<(String, String)>)
        requires
            self@.inv(),
        ensures
            match r {
                None => self@.keys.len() == 0,
                Some(p) => {
                    &&& self@.keys.len() > 0
                    &&& p.0@ == self@.keys[0]
                    &&& self@.as_map().contains_key(p.0@)
                    &&& self@.as_map()[p.0@].value == p.1@
                    &&& forall|k: Seq<char>|
                        self@.as_map().contains_key(k) ==> key_le(#[trigger] p.0@, k) || p.0@ == k
                },
            },
    {
        let r = self.store.first_pair();
        proof {
            if self@.keys.len() > 0 {
                lemma_sorted_distinct(self@.keys);
                lemma_map_index(self@.keys, self@.vals, 0);
                assert forall|k: Seq<char>|
                    self@.as_map().contains_key(k) implies key_le(#[trigger] self@.keys[0], k)
                    || self@.keys[0] == k by {
                    lemma_map_contains(self@.keys, self@.vals, k);
                    let ci = choose|ci: int| 0 <= ci < self@.keys.len() && self@.keys[ci] == k;
                    if ci > 0 {
                        assert(key_lt(self@.keys[0], self@.keys[ci]));
                    }
                }
            }
        }
        r
    }

    /// The largest held key and its value, or nothing when empty.
    pub fn last(&self) -> (r: Option<(String, String)>)
        requires
            self@.inv(),
        ensures
            match r {
                None => self@.keys.len() == 0,
                Some(p) => {
                    &&& self@.keys.len() > 0
                    &&& p.0@ == self@.keys[self@.keys.len() - 1]
                    &&& self@.as_map().contains_key(p.0@)
                    &&& self@.as_map()[p.0@].value == p.1@
                    &&& forall|k: Seq<char>|
                        self@.as_map().contains_key(k) ==> key_le(k, #[trigger] p.0@) || p.0@ == k
                },
            },
    {
        let r = self.store.last_pair();
        proof {
            if self@.keys.len() > 0 {
                let li = self@.keys.len() - 1;
                lemma_sorted_distinct(self@.keys);
                lemma_map_index(self@.keys, self@.vals, li as int);
                assert forall|k: Seq<char>|
                    self@.as_map().contains_key(k) implies key_le(k, #[trigger] self@.keys[li as int])
                    || self@.keys[li as int] == k by {
                    lemma_map_contains(self@.keys, self@.vals, k);
                    let ci = choose|ci: int| 0 <= ci < self@.keys.len() && self@.keys[ci] == k;
                    if ci < li {
                        assert(key_lt(self@.keys[ci], self@.keys[li as int]));
                    }
                }
            }
        }
        r
    }

    /// The invariant survives any step that only shrinks or touches the
    /// index and leaves the filter alone.
    proof fn preserve_inv(&self, pre: OrderedModel)
        requires
            self@.keys.len() == self@.vals.len(),
            sorted_strict(self@.keys),
            pre.inv(),
            self@.filter == pre.filter,
            forall|k: Seq<char>| self@.as_map().contains_key(k) ==> pre.as_map().contains_key(k),
        ensures
            self@.inv(),
    {
        assert forall|k: Seq<char>|
            self@.as_map().contains_key(k) implies self@.filter.accepts(#[trigger] hash_of(k)) by {
            assert(pre.as_map().contains_key(k));
        }
    }
}

} // verus!
