//! The entry store shared by the two caches: keys and entries in two
//! parallel vectors, kept sorted by key, with a map as the abstract view.

use crate::entry::Entry;
use crate::entry::EntryModel;
use crate::entry::spec_is_expired;
use crate::entry::spec_touched;
use crate::entry::spec_updated;
use crate::order::key_cmp;
use crate::order::key_le;
use crate::order::key_lt;
use crate::order::lemma_key_cmp_antisym;
use crate::order::lemma_key_cmp_eq;
use crate::order::lemma_key_cmp_range;
use crate::order::str_cmp;
use vstd::prelude::*;

verus! {

/// Mathematical model of a [`Store`]: the keys in order and their entries.
pub ghost struct StoreModel {
    pub keys: Seq<Seq<char>>,
    pub vals: Seq<EntryModel>,
}

/// Strictly ascending key order: no duplicates, smaller keys first.
pub open spec fn sorted_strict(ks: Seq<Seq<char>>) -> bool {
    forall|si: int, sj: int| 0 <= si < sj < ks.len() ==> key_lt(#[trigger] ks[si], #[trigger] ks[sj])
}

/// The map the two parallel sequences stand for. With duplicate keys the
/// later pair would win; the store keeps its keys distinct.
pub open spec fn pairs_to_map(ks: Seq<Seq<char>>, vs: Seq<EntryModel>) -> Map<Seq<char>, EntryModel>
    decreases ks.len(),
{
    if ks.len() == 0 || vs.len() == 0 {
        Map::empty()
    } else {
        pairs_to_map(ks.drop_last(), vs.drop_last()).insert(ks.last(), vs.last())
    }
}

impl StoreModel {
    /// Well-formedness: one entry per key, keys strictly ascending.
    pub open spec fn wf(self) -> bool {
        &&& self.keys.len() == self.vals.len()
        &&& sorted_strict(self.keys)
    }

    /// The key/entry map this store holds.
    pub open spec fn as_map(self) -> Map<Seq<char>, EntryModel> {
        pairs_to_map(self.keys, self.vals)
    }
}

/// Strictly sorted keys are distinct.
pub proof fn lemma_sorted_distinct(ks: Seq<Seq<char>>)
    requires
        sorted_strict(ks),
    ensures
        forall|si: int, sj: int|
            0 <= si < sj < ks.len() ==> #[trigger] ks[si] != #[trigger] ks[sj],
{
    assert forall|si: int, sj: int|
        0 <= si < sj < ks.len() implies #[trigger] ks[si] != #[trigger] ks[sj] by {
        assert(key_lt(ks[si], ks[sj]));
        lemma_key_cmp_eq(ks[si], ks[sj]);
    }
}

/// The map contains a key exactly when some position holds it.
pub proof fn lemma_map_contains(ks: Seq<Seq<char>>, vs: Seq<EntryModel>, k: Seq<char>)
    requires
        ks.len() == vs.len(),
    ensures
        pairs_to_map(ks, vs).contains_key(k) <==> (exists|ci: int| 0 <= ci < ks.len() && ks[ci]
            == k),
    decreases ks.len(),
{
    if ks.len() > 0 {
        lemma_map_contains(ks.drop_last(), vs.drop_last(), k);
        if k == ks.last() {
            assert(ks[ks.len() - 1] == k);
        } else {
            if pairs_to_map(ks, vs).contains_key(k) {
                let ci = choose|ci: int| 0 <= ci < ks.drop_last().len() && ks.drop_last()[ci] == k;
                assert(ks[ci] == k);
            }
            if exists|ci: int| 0 <= ci < ks.len() && ks[ci] == k {
                let ci = choose|ci: int| 0 <= ci < ks.len() && ks[ci] == k;
                assert(ci < ks.len() - 1);
                assert(ks.drop_last()[ci] == k);
            }
        }
    }
}

/// A position whose key occurs nowhere later maps to its own entry.
pub proof fn lemma_map_index(ks: Seq<Seq<char>>, vs: Seq<EntryModel>, i: int)
    requires
        ks.len() == vs.len(),
        0 <= i < ks.len(),
        forall|cj: int| i < cj < ks.len() ==> #[trigger] ks[cj] != ks[i],
    ensures
        pairs_to_map(ks, vs).contains_key(ks[i]),
        pairs_to_map(ks, vs)[ks[i]] == vs[i],
    decreases ks.len(),
{
    if i < ks.len() - 1 {
        assert(ks.last() != ks[i]);
        lemma_map_index(ks.drop_last(), vs.drop_last(), i);
        assert(ks.drop_last()[i] == ks[i]);
        assert(vs.drop_last()[i] == vs[i]);
    }
}

/// With distinct keys, the map has exactly one element per position.
pub proof fn lemma_map_len(ks: Seq<Seq<char>>, vs: Seq<EntryModel>)
    requires
        ks.len() == vs.len(),
        forall|ci: int, cj: int|
            0 <= ci < cj < ks.len() ==> #[trigger] ks[ci] != #[trigger] ks[cj],
    ensures
        pairs_to_map(ks, vs).dom().finite(),
        pairs_to_map(ks, vs).dom().len() == ks.len(),
    decreases ks.len(),
{
    if ks.len() == 0 {
        assert(pairs_to_map(ks, vs).dom() =~= Set::<Seq<char>>::empty());
    } else {
        lemma_map_len(ks.drop_last(), vs.drop_last());
        lemma_map_contains(ks.drop_last(), vs.drop_last(), ks.last());
        if pairs_to_map(ks.drop_last(), vs.drop_last()).contains_key(ks.last()) {
            let ci = choose|ci: int|
                0 <= ci < ks.drop_last().len() && ks.drop_last()[ci] == ks.last();
            assert(ks[ci] == ks[ks.len() - 1]);
            assert(false);
        }
        assert(pairs_to_map(ks, vs).dom() =~= pairs_to_map(
            ks.drop_last(),
            vs.drop_last(),
        ).dom().insert(ks.last()));
    }
}

/// Replacing the entry at one position is a map insert of that key.
pub proof fn lemma_map_update(ks: Seq<Seq<char>>, vs: Seq<EntryModel>, i: int, e: EntryModel)
    requires
        ks.len() == vs.len(),
        0 <= i < ks.len(),
        forall|ci: int, cj: int|
            0 <= ci < cj < ks.len() ==> #[trigger] ks[ci] != #[trigger] ks[cj],
    ensures
        pairs_to_map(ks, vs.update(i, e)) == pairs_to_map(ks, vs).insert(ks[i], e),
    decreases ks.len(),
{
    let vu = vs.update(i, e);
    if i == ks.len() - 1 {
        assert(vu.drop_last() =~= vs.drop_last());
        assert(vu.last() == e);
        assert(pairs_to_map(ks.drop_last(), vs.drop_last()).insert(ks.last(), vs.last()).insert(
            ks[i],
            e,
        ) =~= pairs_to_map(ks.drop_last(), vs.drop_last()).insert(ks.last(), e));
    } else {
        assert(vu.drop_last() =~= vs.drop_last().update(i, e));
        assert(vu.last() == vs.last());
        lemma_map_update(ks.drop_last(), vs.drop_last(), i, e);
        assert(ks.drop_last()[i] == ks[i]);
        assert(ks.last() != ks[i]);
        assert(pairs_to_map(ks.drop_last(), vs.drop_last()).insert(ks[i], e).insert(
            ks.last(),
            vs.last(),
        ) =~= pairs_to_map(ks.drop_last(), vs.drop_last()).insert(ks.last(), vs.last()).insert(
            ks[i],
            e,
        ));
    }
}

/// Removing one position is a map remove of its key.
pub proof fn lemma_map_remove(ks: Seq<Seq<char>>, vs: Seq<EntryModel>, i: int)
    requires
        ks.len() == vs.len(),
        0 <= i < ks.len(),
        forall|ci: int, cj: int|
            0 <= ci < cj < ks.len() ==> #[trigger] ks[ci] != #[trigger] ks[cj],
    ensures
        pairs_to_map(ks.remove(i), vs.remove(i)) == pairs_to_map(ks, vs).remove(ks[i]),
    decreases ks.len(),
{
    lemma_map_contains(ks.drop_last(), vs.drop_last(), ks.last());
    if pairs_to_map(ks.drop_last(), vs.drop_last()).contains_key(ks.last()) {
        let ci = choose|ci: int| 0 <= ci < ks.drop_last().len() && ks.drop_last()[ci] == ks.last();
        assert(ks[ci] == ks[ks.len() - 1]);
        assert(false);
    }
    if i == ks.len() - 1 {
        assert(ks.remove(i) =~= ks.drop_last());
        assert(vs.remove(i) =~= vs.drop_last());
        assert(pairs_to_map(ks.drop_last(), vs.drop_last()).insert(ks.last(), vs.last()).remove(
            ks[i],
        ) =~= pairs_to_map(ks.drop_last(), vs.drop_last()));
    } else {
        assert(ks.remove(i).last() == ks.last());
        assert(vs.remove(i).last() == vs.last());
        assert(ks.remove(i).drop_last() =~= ks.drop_last().remove(i));
        assert(vs.remove(i).drop_last() =~= vs.drop_last().remove(i));
        lemma_map_remove(ks.drop_last(), vs.drop_last(), i);
        assert(ks.drop_last()[i] == ks[i]);
        assert(ks.last() != ks[i]);
        assert(pairs_to_map(ks.drop_last(), vs.drop_last()).remove(ks[i]).insert(
            ks.last(),
            vs.last(),
        ) =~= pairs_to_map(ks.drop_last(), vs.drop_last()).insert(ks.last(), vs.last()).remove(
            ks[i],
        ));
    }
}

/// Inserting a fresh key at any position is a map insert of that key.
pub proof fn lemma_map_insert_at(
    ks: Seq<Seq<char>>,
    vs: Seq<EntryModel>,
    p: int,
    k: Seq<char>,
    e: EntryModel,
)
    requires
        ks.len() == vs.len(),
        0 <= p <= ks.len(),
        forall|ci: int| 0 <= ci < ks.len() ==> #[trigger] ks[ci] != k,
    ensures
        pairs_to_map(ks.insert(p, k), vs.insert(p, e)) == pairs_to_map(ks, vs).insert(k, e),
    decreases ks.len(),
{
    let ku = ks.insert(p, k);
    let vu = vs.insert(p, e);
    if p == ks.len() {
        assert(ku.last() == k);
        assert(vu.last() == e);
        assert(ku.drop_last() =~= ks);
        assert(vu.drop_last() =~= vs);
    } else {
        assert(ku.last() == ks.last());
        assert(vu.last() == vs.last());
        assert(ku.drop_last() =~= ks.drop_last().insert(p, k));
        assert(vu.drop_last() =~= vs.drop_last().insert(p, e));
        assert forall|ci: int| 0 <= ci < ks.drop_last().len() implies #[trigger] ks.drop_last()[ci]
            != k by {
            assert(ks[ci] == ks.drop_last()[ci]);
        }
        lemma_map_insert_at(ks.drop_last(), vs.drop_last(), p, k, e);
        assert(ks.last() != k);
        assert(pairs_to_map(ks.drop_last(), vs.drop_last()).insert(k, e).insert(
            ks.last(),
            vs.last(),
        ) =~= pairs_to_map(ks.drop_last(), vs.drop_last()).insert(ks.last(), vs.last()).insert(
            k,
            e,
        ));
    }
}

/// Keys and entries in two parallel vectors, sorted by key.
#[derive(Debug)]
pub struct Store {
    keys: Vec<String>,
    vals: Vec<Entry>,
}

impl View for Store {
    type V = StoreModel;

    closed spec fn view(&self) -> StoreModel {
        StoreModel {
            keys: self.keys@.map_values(|s: String| s@),
            vals: self.vals@.map_values(|e: Entry| e@),
        }
    }
}

impl Store {
    /// An empty store.
    pub fn new() -> (s: Store)
        ensures
            s@.wf(),
            s@.keys.len() == 0,
            s@.as_map() == Map::<Seq<char>, EntryModel>::empty(),
    {
        let s = Store { keys: Vec::new(), vals: Vec::new() };
        proof {
            assert(s@.keys =~= Seq::<Seq<char>>::empty());
            assert(s@.vals =~= Seq::<EntryModel>::empty());
        }
        s
    }

    /// The number of entries held.
    pub fn len(&self) -> (n: usize)
        requires
            self@.wf(),
        ensures
            n == self@.keys.len(),
            n == self@.as_map().dom().len(),
            self@.as_map().dom().finite(),
    {
        proof {
            lemma_sorted_distinct(self@.keys);
            lemma_map_len(self@.keys, self@.vals);
        }
        self.keys.len()
    }

    /// The position of a key, if it is held.
    pub fn find(&self, key: &str) -> (r: Option<usize>)
        requires
            self@.wf(),
        ensures
            match r {
                Some(i) => {
                    &&& i < self@.keys.len()
                    &&& self@.keys[i as int] == key@
                    &&& self@.as_map().contains_key(key@)
                    &&& self@.as_map()[key@] == self@.vals[i as int]
                },
                None => !self@.as_map().contains_key(key@),
            },
    {
        let n = self.keys.len();
        let mut i: usize = 0;
        while i < n
            invariant
                i <= n,
                n == self@.keys.len(),
                self@.wf(),
                forall|cj: int| 0 <= cj < i ==> #[trigger] self@.keys[cj] != key@,
            decreases n - i,
        {
            if str_cmp(&self.keys[i], key) == 0 {
                proof {
                    lemma_sorted_distinct(self@.keys);
                    lemma_map_index(self@.keys, self@.vals, i as int);
                }
                return Some(i);
            }
            i = i + 1;
        }
        proof {
            lemma_map_contains(self@.keys, self@.vals, key@);
        }
        None
    }

    /// Whether the entry at a position is expired at time `now_ms`.
    pub fn expired_at(&self, i: usize, now_ms: u64) -> (r: bool)
        requires
            self@.wf(),
            i < self@.vals.len(),
        ensures
            r == spec_is_expired(self@.vals[i as int], now_ms),
    {
        self.vals[i].is_expired(now_ms)
    }

    /// The value held at a position.
    pub fn value_at(&self, i: usize) -> (v: String)
        requires
            self@.wf(),
            i < self@.vals.len(),
        ensures
            v@ == self@.vals[i as int].value,
    {
        self.vals[i].value_string()
    }

    /// Touches the entry at a position: its key maps to the touched entry.
    pub fn touch_at(&mut self, i: usize, now_ms: u64)
        requires
            old(self)@.wf(),
            i < old(self)@.vals.len(),
        ensures
            final(self)@.wf(),
            final(self)@.keys == old(self)@.keys,
            final(self)@.vals == old(self)@.vals.update(
                i as int,
                spec_touched(old(self)@.vals[i as int], now_ms),
            ),
            final(self)@.as_map() == old(self)@.as_map().insert(
                old(self)@.keys[i as int],
                spec_touched(old(self)@.vals[i as int], now_ms),
            ),
    {
        let e = self.vals[i].touched(now_ms);
        self.vals.set(i, e);
        proof {
            assert(final(self)@.keys =~= old(self)@.keys);
            assert(final(self)@.vals =~= old(self)@.vals.update(
                i as int,
                spec_touched(old(self)@.vals[i as int], now_ms),
            ));
            lemma_sorted_distinct(old(self)@.keys);
            lemma_map_update(
                old(self)@.keys,
                old(self)@.vals,
                i as int,
                spec_touched(old(self)@.vals[i as int], now_ms),
            );
        }
    }

    /// Replaces the value at a position and touches the entry.
    pub fn update_at(&mut self, i: usize, new_value: &str, now_ms: u64)
        requires
            old(self)@.wf(),
            i < old(self)@.vals.len(),
        ensures
            final(self)@.wf(),
            final(self)@.keys == old(self)@.keys,
            final(self)@.vals == old(self)@.vals.update(
                i as int,
                spec_updated(old(self)@.vals[i as int], new_value@, now_ms),
            ),
            final(self)@.as_map() == old(self)@.as_map().insert(
                old(self)@.keys[i as int],
                spec_updated(old(self)@.vals[i as int], new_value@, now_ms),
            ),
    {
        let e = self.vals[i].updated(new_value, now_ms);
        self.vals.set(i, e);
        proof {
            assert(final(self)@.keys =~= old(self)@.keys);
            assert(final(self)@.vals =~= old(self)@.vals.update(
                i as int,
                spec_updated(old(self)@.vals[i as int], new_value@, now_ms),
            ));
            lemma_sorted_distinct(old(self)@.keys);
            lemma_map_update(
                old(self)@.keys,
                old(self)@.vals,
                i as int,
                spec_updated(old(self)@.vals[i as int], new_value@, now_ms),
            );
        }
    }

    /// Replaces the whole entry at a position.
    pub fn replace_at(&mut self, i: usize, e: Entry)
        requires
            old(self)@.wf(),
            i < old(self)@.vals.len(),
        ensures
            final(self)@.wf(),
            final(self)@.keys == old(self)@.keys,
            final(self)@.vals == old(self)@.vals.update(i as int, e@),
            final(self)@.as_map() == old(self)@.as_map().insert(old(self)@.keys[i as int], e@),
    {
        let ghost em = e@;
        self.vals.set(i, e);
        proof {
            assert(final(self)@.keys =~= old(self)@.keys);
            assert(final(self)@.vals =~= old(self)@.vals.update(i as int, em));
            lemma_sorted_distinct(old(self)@.keys);
            lemma_map_update(old(self)@.keys, old(self)@.vals, i as int, em);
        }
    }

    /// Removes the pair at a position and hands its entry back.
    pub fn remove_at(&mut self, i: usize) -> (e: Entry)
        requires
            old(self)@.wf(),
            i < old(self)@.keys.len(),
        ensures
            final(self)@.wf(),
            e@ == old(self)@.vals[i as int],
            final(self)@.keys == old(self)@.keys.remove(i as int),
            final(self)@.vals == old(self)@.vals.remove(i as int),
            final(self)@.as_map() == old(self)@.as_map().remove(old(self)@.keys[i as int]),
    {
        let _removed_key = self.keys.remove(i);
        let e = self.vals.remove(i);
        proof {
            assert(final(self)@.keys =~= old(self)@.keys.remove(i as int));
            assert(final(self)@.vals =~= old(self)@.vals.remove(i as int));
            lemma_sorted_distinct(old(self)@.keys);
            lemma_map_remove(old(self)@.keys, old(self)@.vals, i as int);
            let ks = old(self)@.keys;
            let kr = ks.remove(i as int);
            assert forall|si: int, sj: int|
                0 <= si < sj < kr.len() implies key_lt(#[trigger] kr[si], #[trigger] kr[sj]) by {
                let oi: int = if si < i { si } else { si + 1 };
                let oj: int = if sj < i { sj } else { sj + 1 };
                assert(kr[si] == ks[oi]);
                assert(kr[sj] == ks[oj]);
                assert(key_lt(ks[oi], ks[oj]));
            }
        }
        e
    }

    /// The position where a key would be inserted: everything before it is
    /// smaller, everything from it on is at least the key.
    fn find_slot(&self, key: &str) -> (p: usize)
        requires
            self@.wf(),
        ensures
            p <= self@.keys.len(),
            forall|cj: int| 0 <= cj < p ==> key_cmp(#[trigger] self@.keys[cj], key@) == -1,
            forall|cj: int|
                p <= cj < self@.keys.len() ==> key_cmp(#[trigger] self@.keys[cj], key@) >= 0,
    {
        let n = self.keys.len();
        let mut p: usize = 0;
        while p < n
            invariant
                p <= n,
                n == self@.keys.len(),
                self@.wf(),
                forall|cj: int| 0 <= cj < p ==> key_cmp(#[trigger] self@.keys[cj], key@) == -1,
            decreases n - p,
        {
            if str_cmp(&self.keys[p], key) >= 0 {
                proof {
                    assert forall|cj: int|
                        p <= cj < self@.keys.len() implies key_cmp(
                        #[trigger] self@.keys[cj],
                        key@,
                    ) >= 0 by {
                        if cj > p {
                            assert(key_lt(self@.keys[p as int], self@.keys[cj]));
                            lemma_key_cmp_range(self@.keys[cj], key@);
                            if key_cmp(self@.keys[cj], key@) == -1 {
                                lemma_key_cmp_eq(self@.keys[p as int], key@);
                                lemma_key_cmp_antisym(self@.keys[cj], key@);
                                if key_cmp(self@.keys[p as int], key@) == 0 {
                                    crate::order::lemma_key_lt_trans(
                                        self@.keys[p as int],
                                        self@.keys[cj],
                                        key@,
                                    );
                                } else {
                                    crate::order::lemma_key_lt_trans(
                                        self@.keys[p as int],
                                        self@.keys[cj],
                                        key@,
                                    );
                                    lemma_key_cmp_antisym(self@.keys[p as int], key@);
                                }
                            }
                        }
                    }
                }
                return p;
            }
            proof {
                lemma_key_cmp_range(self@.keys[p as int], key@);
            }
            p = p + 1;
        }
        p
    }

    /// Inserts a pair for a key the store does not hold.
    pub fn insert_pair(&mut self, key: &str, e: Entry)
        requires
            old(self)@.wf(),
            !old(self)@.as_map().contains_key(key@),
        ensures
            final(self)@.wf(),
            final(self)@.keys.len() == old(self)@.keys.len() + 1,
            final(self)@.as_map() == old(self)@.as_map().insert(key@, e@),
    {
        let ghost em = e@;
        let p = self.find_slot(key);
        proof {
            lemma_map_contains(self@.keys, self@.vals, key@);
        }
        let owned = key.to_owned();
        self.keys.insert(p, owned);
        self.vals.insert(p, e);
        proof {
            let ks = old(self)@.keys;
            let ku = ks.insert(p as int, key@);
            assert(final(self)@.keys =~= ku);
            assert(final(self)@.vals =~= old(self)@.vals.insert(p as int, em));
            assert forall|ci: int| 0 <= ci < ks.len() implies #[trigger] ks[ci] != key@ by {}
            lemma_map_insert_at(ks, old(self)@.vals, p as int, key@, em);
            assert forall|si: int, sj: int|
                0 <= si < sj < ku.len() implies key_lt(#[trigger] ku[si], #[trigger] ku[sj]) by {
                if si == p {
                    let oj = sj - 1;
                    assert(ku[sj] == ks[oj]);
                    assert(key_cmp(ks[oj], key@) >= 0);
                    assert(ks[oj] != key@);
                    lemma_key_cmp_range(ks[oj], key@);
                    lemma_key_cmp_eq(ks[oj], key@);
                    lemma_key_cmp_antisym(ks[oj], key@);
                    assert(key_lt(key@, ks[oj]));
                } else if sj == p {
                    let oi = si;
                    assert(ku[si] == ks[oi]);
                    assert(key_cmp(ks[oi], key@) == -1);
                } else {
                    let oi: int = if si < p {
                        si
                    } else {
                        si - 1
                    };
                    let oj: int = if sj < p {
                        sj
                    } else {
                        sj - 1
                    };
                    assert(ku[si] == ks[oi]);
                    assert(ku[sj] == ks[oj]);
                    assert(key_lt(ks[oi], ks[oj]));
                }
            }
        }
    }

    /// Empties the store.
    pub fn clear(&mut self)
        ensures
            final(self)@.wf(),
            final(self)@.keys.len() == 0,
            final(self)@.as_map() == Map::<Seq<char>, EntryModel>::empty(),
    {
        self.keys.clear();
        self.vals.clear();
        proof {
            assert(final(self)@.keys =~= Seq::<Seq<char>>::empty());
            assert(final(self)@.vals =~= Seq::<EntryModel>::empty());
        }
    }

    /// The keys in ascending order, as owned strings.
    pub fn keys_vec(&self) -> (r: Vec<String>)
        requires
            self@.wf(),
        ensures
            r@.len() == self@.keys.len(),
            forall|ci: int| 0 <= ci < r@.len() ==> #[trigger] r@[ci]@ == self@.keys[ci],
    {
        let n = self.keys.len();
        let mut r: Vec<String> = Vec::new();
        let mut i: usize = 0;
        while i < n
            invariant
                i <= n,
                n == self@.keys.len(),
                self@.wf(),
                r@.len() == i,
                forall|ci: int| 0 <= ci < i ==> #[trigger] r@[ci]@ == self@.keys[ci],
            decreases n - i,
        {
            let k = self.keys[i].clone();
            r.push(k);
            i = i + 1;
        }
        r
    }

    /// The values in ascending key order, as owned strings.
    pub fn values_vec(&self) -> (r: Vec<String>)
        requires
            self@.wf(),
        ensures
            r@.len() == self@.vals.len(),
            forall|ci: int| 0 <= ci < r@.len() ==> #[trigger] r@[ci]@ == self@.vals[ci].value,
    {
        let n = self.vals.len();
        let mut r: Vec<String> = Vec::new();
        let mut i: usize = 0;
        while i < n
            invariant
                i <= n,
                n == self@.vals.len(),
                self@.wf(),
                r@.len() == i,
                forall|ci: int| 0 <= ci < i ==> #[trigger] r@[ci]@ == self@.vals[ci].value,
            decreases n - i,
        {
            let v = self.vals[i].value_string();
            r.push(v);
            i = i + 1;
        }
        r
    }

    /// The first key/value pair in key order, or nothing when empty.
    pub fn first_pair(&self) -> (r: Option<(String, String)>)
        requires
            self@.wf(),
        ensures
            match r {
                None => self@.keys.len() == 0,
                Some(p) => {
                    &&& self@.keys.len() > 0
                    &&& p.0@ == self@.keys[0]
                    &&& p.1@ == self@.vals[0].value
                },
            },
    {
        if self.keys.len() == 0 {
            None
        } else {
            Some((self.keys[0].clone(), self.vals[0].value_string()))
        }
    }

    /// The last key/value pair in key order, or nothing when empty.
    pub fn last_pair(&self) -> (r: Option<(String, String)>)
        requires
            self@.wf(),
        ensures
            match r {
                None => self@.keys.len() == 0,
                Some(p) => {
                    &&& self@.keys.len() > 0
                    &&& p.0@ == self@.keys[self@.keys.len() - 1]
                    &&& p.1@ == self@.vals[self@.vals.len() - 1].value
                },
            },
    {
        let n = self.keys.len();
        if n == 0 {
            None
        } else {
            Some((self.keys[n - 1].clone(), self.vals[n - 1].value_string()))
        }
    }

    /// The key/value pairs whose keys lie in the inclusive range
    /// `lo ..= hi`, in ascending key order.
    pub fn range_vec(&self, lo: &str, hi: &str) -> (r: Vec<(String, String)>)
        requires
            self@.wf(),
        ensures
            forall|ri: int|
                0 <= ri < r@.len() ==> {
                    &&& key_le(lo@, #[trigger] r@[ri].0@)
                    &&& key_le(r@[ri].0@, hi@)
                    &&& self@.as_map().contains_key(r@[ri].0@)
                    &&& self@.as_map()[r@[ri].0@].value == r@[ri].1@
                },
            forall|ri: int, rj: int|
                0 <= ri < rj < r@.len() ==> key_lt(#[trigger] r@[ri].0@, #[trigger] r@[rj].0@),
            forall|ci: int|
                0 <= ci < self@.keys.len() && key_le(lo@, #[trigger] self@.keys[ci]) && key_le(
                    self@.keys[ci],
                    hi@,
                ) ==> exists|ri: int| 0 <= ri < r@.len() && r@[ri].0@ == self@.keys[ci],
    {
        let ghost ks = self@.keys;
        let n = self.keys.len();
        let mut r: Vec<(String, String)> = Vec::new();
        let mut i: usize = 0;
        while i < n
            invariant
                i <= n,
                n == ks.len(),
                self@.wf(),
                ks == self@.keys,
                forall|ri: int|
                    0 <= ri < r@.len() ==> {
                        &&& key_le(lo@, #[trigger] r@[ri].0@)
                        &&& key_le(r@[ri].0@, hi@)
                        &&& self@.as_map().contains_key(r@[ri].0@)
                        &&& self@.as_map()[r@[ri].0@].value == r@[ri].1@
                    },
                forall|ri: int, ci: int|
                    0 <= ri < r@.len() && i <= ci < ks.len() ==> key_lt(
                        #[trigger] r@[ri].0@,
                        #[trigger] ks[ci],
                    ),
                forall|ri: int, rj: int|
                    0 <= ri < rj < r@.len() ==> key_lt(#[trigger] r@[ri].0@, #[trigger] r@[rj].0@),
                forall|ci: int|
                    0 <= ci < i && key_le(lo@, #[trigger] ks[ci]) && key_le(ks[ci], hi@)
                        ==> exists|ri: int| 0 <= ri < r@.len() && r@[ri].0@ == ks[ci],
            decreases n - i,
        {
            let above_lo = str_cmp(&self.keys[i], lo) >= 0;
            let below_hi = str_cmp(&self.keys[i], hi) <= 0;
            proof {
                lemma_key_cmp_antisym(ks[i as int], lo@);
                lemma_key_cmp_antisym(ks[i as int], hi@);
                lemma_key_cmp_range(ks[i as int], lo@);
                lemma_key_cmp_range(ks[i as int], hi@);
            }
            if above_lo && below_hi {
                let ghost r0 = r@;
                let k = self.keys[i].clone();
                let v = self.vals[i].value_string();
                r.push((k, v));
                proof {
                    lemma_sorted_distinct(ks);
                    lemma_map_index(ks, self@.vals, i as int);
                    assert forall|ci: int|
                        0 <= ci < i + 1 && key_le(lo@, #[trigger] ks[ci]) && key_le(ks[ci], hi@)
                            implies exists|ri: int| 0 <= ri < r@.len() && r@[ri].0@ == ks[ci] by {
                        if ci == i {
                            assert(r@[r@.len() - 1].0@ == ks[ci]);
                        } else {
                            let ri = choose|ri: int| 0 <= ri < r0.len() && r0[ri].0@ == ks[ci];
                            assert(r@[ri].0@ == ks[ci]);
                        }
                    }
                }
            } else {
                proof {
                    assert(!(key_le(lo@, ks[i as int]) && key_le(ks[i as int], hi@)));
                    assert forall|ci: int|
                        0 <= ci < i + 1 && key_le(lo@, #[trigger] ks[ci]) && key_le(ks[ci], hi@)
                            implies exists|ri: int| 0 <= ri < r@.len() && r@[ri].0@ == ks[ci] by {
                        let ri = choose|ri: int| 0 <= ri < r@.len() && r@[ri].0@ == ks[ci];
                        assert(r@[ri].0@ == ks[ci]);
                    }
                }
            }
            i = i + 1;
        }
        r
    }
}

} // verus!
