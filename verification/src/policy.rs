//! The caching policy both backends share: what each operation does to the
//! key/entry map and to the membership filter, stated over the models.

use crate::entry::EntryModel;
use crate::entry::spec_fresh;
use crate::entry::spec_is_expired;
use crate::entry::spec_touched;
use crate::filter::FilterModel;
use crate::filter::spec_record;
use crate::hashing::hash_of;
use vstd::prelude::*;

verus! {

/// Abstract state of a cache: its live entries and its filter.
pub ghost struct CacheModel {
    pub entries: Map<Seq<char>, EntryModel>,
    pub filter: FilterModel,
}

impl CacheModel {
    /// The filter is a superset oracle: it accepts the hash of every key
    /// the index holds (and possibly more — keys removed or never held).
    pub open spec fn inv(self) -> bool {
        &&& self.filter.wf()
        &&& forall|k: Seq<char>|
            self.entries.contains_key(k) ==> self.filter.accepts(#[trigger] hash_of(k))
    }
}

/// Whether a read of `k` at time `now_ms` finds a live entry.
pub open spec fn spec_found(m: Map<Seq<char>, EntryModel>, k: Seq<char>, now_ms: u64) -> bool {
    m.contains_key(k) && !spec_is_expired(m[k], now_ms)
}

/// What `get` returns: the value of a live entry, or nothing.
pub open spec fn spec_get_result(m: Map<Seq<char>, EntryModel>, k: Seq<char>, now_ms: u64) -> Option<
    Seq<char>,
> {
    if spec_found(m, k, now_ms) {
        Some(m[k].value)
    } else {
        None
    }
}

/// The index after a probe of `k` at `now_ms` that does not touch: an
/// expired entry is evicted, anything else is left alone.
pub open spec fn spec_probe_entries(
    m: Map<Seq<char>, EntryModel>,
    k: Seq<char>,
    now_ms: u64,
) -> Map<Seq<char>, EntryModel> {
    if m.contains_key(k) && spec_is_expired(m[k], now_ms) {
        m.remove(k)
    } else {
        m
    }
}

/// The index after a `get` of `k` at `now_ms`: an expired entry is
/// evicted, a live one is touched, a missing key changes nothing.
pub open spec fn spec_get_entries(
    m: Map<Seq<char>, EntryModel>,
    k: Seq<char>,
    now_ms: u64,
) -> Map<Seq<char>, EntryModel> {
    if spec_found(m, k, now_ms) {
        m.insert(k, spec_touched(m[k], now_ms))
    } else {
        spec_probe_entries(m, k, now_ms)
    }
}

/// The cache after an insert: the key maps to a fresh entry, and the
/// filter records the key whether or not it was already present.
pub open spec fn spec_inserted(
    c: CacheModel,
    k: Seq<char>,
    v: Seq<char>,
    ttl_ms: Option<u64>,
    now_ms: u64,
) -> CacheModel {
    CacheModel {
        entries: c.entries.insert(k, spec_fresh(v, ttl_ms, now_ms)),
        filter: spec_record(c.filter, hash_of(k)),
    }
}

/// How a `get` relates the state before to the state after and the result.
pub open spec fn get_step(
    pre: CacheModel,
    post: CacheModel,
    r: Option<Seq<char>>,
    k: Seq<char>,
    now_ms: u64,
) -> bool {
    &&& post.filter == pre.filter
    &&& post.entries == spec_get_entries(pre.entries, k, now_ms)
    &&& r == spec_get_result(pre.entries, k, now_ms)
}

/// How a `contains_key` relates the state before to the state after and
/// the result.
pub open spec fn probe_step(
    pre: CacheModel,
    post: CacheModel,
    r: bool,
    k: Seq<char>,
    now_ms: u64,
) -> bool {
    &&& post.filter == pre.filter
    &&& post.entries == spec_probe_entries(pre.entries, k, now_ms)
    &&& r == spec_found(pre.entries, k, now_ms)
}

/// How an `update` relates the states: an existing entry — expired or not
/// — gets the new value and a fresh last-accessed time; a missing key
/// changes nothing. The filter is never consulted or changed.
pub open spec fn update_step(
    pre: CacheModel,
    post: CacheModel,
    r: bool,
    k: Seq<char>,
    v: Seq<char>,
    now_ms: u64,
) -> bool {
    &&& post.filter == pre.filter
    &&& r == pre.entries.contains_key(k)
    &&& post.entries == if pre.entries.contains_key(k) {
        pre.entries.insert(k, crate::entry::spec_updated(pre.entries[k], v, now_ms))
    } else {
        pre.entries
    }
}

/// Overwrite semantics: inserting a key twice leaves the entry count where
/// one insert left it, and a `get` after the second insert of an entry
/// without a time-to-live returns the second value, whenever it is read.
pub proof fn lemma_insert_overwrites(
    c: CacheModel,
    k: Seq<char>,
    v1: Seq<char>,
    v2: Seq<char>,
    t1: Option<u64>,
    now1: u64,
    now2: u64,
    now3: u64,
)
    requires
        c.entries.dom().finite(),
    ensures
        ({
            let once = spec_inserted(c, k, v1, t1, now1);
            let twice = spec_inserted(once, k, v2, None, now2);
            &&& twice.entries.dom().finite()
            &&& twice.entries.dom().len() == once.entries.dom().len()
            &&& spec_get_result(twice.entries, k, now3) == Some(v2)
        }),
{
    let once = spec_inserted(c, k, v1, t1, now1);
    let twice = spec_inserted(once, k, v2, None, now2);
    assert(twice.entries.dom() =~= once.entries.dom());
    assert(twice.entries[k] == spec_fresh(v2, None, now2));
    assert(!spec_is_expired(spec_fresh(v2, None, now2), now3));
}

/// Removal shrinks the index, not the filter: after a key leaves the
/// index, the index no longer holds it, but the filter of a well-formed
/// cache still accepts its hash.
pub proof fn lemma_remove_shrinks_index_not_filter(c: CacheModel, k: Seq<char>)
    requires
        c.inv(),
        c.entries.contains_key(k),
    ensures
        !c.entries.remove(k).contains_key(k),
        c.filter.accepts(hash_of(k)),
{
}

} // verus!
