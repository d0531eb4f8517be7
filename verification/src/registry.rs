//! The key-statistics map: per key, a running aggregate of every observed
//! value. Keys are byte strings; each entry caches the key's FNV-1a hash so
//! lookups compare full keys only on a hash match.

use vstd::prelude::*;
use vstd::map::*;
use vstd::slice::slice_to_vec;
use crate::fnv::{fnv1a, fnv_hash};
use crate::model::{absorb, counts_fit, map_le, merge2, merge_all, RegistryModel};
use crate::model::{
    lemma_map_le_trans, lemma_merge2_absorb, lemma_merge2_empty_r,
    lemma_merge2_monotone, lemma_merge_all_prefix_le, lemma_merge_all_push,
};
use crate::stats::{stats_seed, stats_wf, Stats, StatsModel};

verus! {

/// Statistics map from key bytes to running aggregate, stored as parallel
/// vectors of keys, cached hashes and aggregates, with no key repeated.
#[derive(Debug)]
pub struct Registry {
    keys: Vec<Vec<u8>>,
    hashes: Vec<u64>,
    stats: Vec<Stats>,
}

/// The map denoted by parallel key and aggregate sequences.
pub open spec fn map_of(ks: Seq<Vec<u8>>, ss: Seq<Stats>) -> RegistryModel
    decreases ks.len(),
{
    if ks.len() == 0 {
        Map::empty()
    } else {
        map_of(ks.drop_last(), ss.drop_last()).insert(ks.last()@, ss.last()@)
    }
}

/// No two entries share a key.
pub open spec fn keys_distinct(ks: Seq<Vec<u8>>) -> bool {
    forall|i: int, j: int| 0 <= i < j < ks.len() ==> (#[trigger] ks[i])@ != (#[trigger] ks[j])@
}

impl View for Registry {
    type V = RegistryModel;

    closed spec fn view(&self) -> RegistryModel {
        map_of(self.keys@, self.stats@)
    }
}

proof fn lemma_map_of_contains(ks: Seq<Vec<u8>>, ss: Seq<Stats>, k: Seq<u8>)
    requires
        ks.len() == ss.len(),
    ensures
        map_of(ks, ss).contains_key(k) <==> exists|i: int|
            0 <= i < ks.len() && (#[trigger] ks[i])@ == k,
    decreases ks.len(),
{
    if ks.len() > 0 {
        lemma_map_of_contains(ks.drop_last(), ss.drop_last(), k);
        if map_of(ks, ss).contains_key(k) {
            if ks.last()@ == k {
                assert(ks[ks.len() - 1]@ == k);
            } else {
                let i = choose|i: int| 0 <= i < ks.len() - 1 && (#[trigger] ks.drop_last()[i])@
                    == k;
                assert(ks[i]@ == k);
            }
        }
        if exists|i: int| 0 <= i < ks.len() && (#[trigger] ks[i])@ == k {
            let i = choose|i: int| 0 <= i < ks.len() && (#[trigger] ks[i])@ == k;
            if i < ks.len() - 1 {
                assert(ks.drop_last()[i]@ == k);
            }
        }
    }
}

proof fn lemma_map_of_index(ks: Seq<Vec<u8>>, ss: Seq<Stats>, i: int)
    requires
        ks.len() == ss.len(),
        keys_distinct(ks),
        0 <= i < ks.len(),
    ensures
        map_of(ks, ss).contains_key(ks[i]@),
        map_of(ks, ss)[ks[i]@] == ss[i]@,
    decreases ks.len(),
{
    if i == ks.len() - 1 {
    } else {
        assert(ks[i]@ != ks.last()@);
        assert(ks.drop_last()[i]@ == ks[i]@);
        lemma_map_of_index(ks.drop_last(), ss.drop_last(), i);
    }
}

proof fn lemma_map_of_update(ks: Seq<Vec<u8>>, ss: Seq<Stats>, i: int, s: Stats)
    requires
        ks.len() == ss.len(),
        keys_distinct(ks),
        0 <= i < ks.len(),
    ensures
        map_of(ks, ss.update(i, s)) == map_of(ks, ss).insert(ks[i]@, s@),
    decreases ks.len(),
{
    let n = ks.len();
    if i == n - 1 {
        assert(ss.update(i, s).drop_last() =~= ss.drop_last());
        assert(ss.update(i, s).last() == s);
        assert(map_of(ks, ss.update(i, s)) =~= map_of(ks, ss).insert(ks[i]@, s@));
    } else {
        assert(ss.update(i, s).drop_last() =~= ss.drop_last().update(i, s));
        assert(ss.update(i, s).last() == ss.last());
        assert(ks.drop_last()[i]@ == ks[i]@);
        lemma_map_of_update(ks.drop_last(), ss.drop_last(), i, s);
        assert(ks[i]@ != ks.last()@);
        assert(map_of(ks, ss.update(i, s)) =~= map_of(ks, ss).insert(ks[i]@, s@));
    }
}

impl Registry {
    /// Representation invariant: parallel vectors of one length, distinct
    /// keys, each cached hash is its key's FNV-1a digest, and every
    /// aggregate is well-formed.
    pub closed spec fn inv(&self) -> bool {
        &&& self.keys@.len() == self.stats@.len()
        &&& self.keys@.len() == self.hashes@.len()
        &&& keys_distinct(self.keys@)
        &&& forall|i: int| 0 <= i < self.keys@.len() ==> (#[trigger] self.hashes@[i]) == fnv1a(
            self.keys@[i]@,
        )
        &&& forall|i: int| 0 <= i < self.stats@.len() ==> stats_wf((#[trigger] self.stats@[i])@)
    }

    /// A fresh, empty map.
    pub fn new() -> (r: Registry)
        ensures
            r.inv(),
            r@ == RegistryModel::empty(),
            crate::model::map_wf(r@),
    {
        Registry { keys: Vec::new(), hashes: Vec::new(), stats: Vec::new() }
    }

    /// Every aggregate in a well-formed registry is well-formed.
    pub proof fn lemma_inv_wf(&self)
        requires
            self.inv(),
        ensures
            crate::model::map_wf(self@),
    {
        assert forall|k: Seq<u8>| #[trigger] self@.contains_key(k) implies stats_wf(
            self@[k],
        ) by {
            lemma_map_of_contains(self.keys@, self.stats@, k);
            let i = choose|i: int| 0 <= i < self.keys@.len() && (#[trigger] self.keys@[i])@ == k;
            lemma_map_of_index(self.keys@, self.stats@, i);
        }
    }

    /// Fold a whole aggregate for `key` (whose FNV-1a digest is `hash`) into
    /// the map: lookup-or-insert in one pass, comparing key bytes only on a
    /// hash match.
    pub fn absorb_keyed(&mut self, key: &[u8], hash: u64, stats: &Stats)
        requires
            old(self).inv(),
            hash == fnv1a(key@),
            stats_wf(stats@),
            old(self)@.contains_key(key@) ==> old(self)@[key@].count + stats.count <= u64::MAX,
        ensures
            final(self).inv(),
            final(self)@ == absorb(old(self)@, key@, stats@),
    {
        let n = self.keys.len();
        let mut i: usize = 0;
        while i < n
            invariant
                n == self.keys@.len(),
                i <= n,
                self == old(self),
                self.inv(),
                hash == fnv1a(key@),
                stats_wf(stats@),
                old(self)@.contains_key(key@) ==> old(self)@[key@].count + stats.count
                    <= u64::MAX,
                forall|j: int| 0 <= j < i ==> (#[trigger] self.keys@[j])@ != key@,
            decreases n - i,
        {
            if self.hashes[i] == hash {
                if bytes_equal(self.keys[i].as_slice(), key) {
                    proof {
                        lemma_map_of_index(self.keys@, self.stats@, i as int);
                        lemma_map_of_update(self.keys@, self.stats@, i as int, *stats);
                    }
                    let mut updated = self.stats[i];
                    proof {
                        assert(self@.contains_key(key@));
                        assert(self@[key@] == updated@);
                    }
                    updated.absorb(stats);
                    proof {
                        lemma_map_of_update(self.keys@, self.stats@, i as int, updated);
                    }
                    self.stats[i] = updated;
                    return ;
                }
            }
            i = i + 1;
        }
        proof {
            lemma_map_of_contains(self.keys@, self.stats@, key@);
            assert(!self@.contains_key(key@));
        }
        let owned = slice_to_vec(key);
        self.keys.push(owned);
        self.hashes.push(hash);
        self.stats.push(*stats);
        proof {
            assert(self.keys@.drop_last() =~= old(self).keys@);
            assert(self.stats@.drop_last() =~= old(self).stats@);
            assert forall|a: int, b: int| 0 <= a < b < self.keys@.len() implies (
            #[trigger] self.keys@[a])@ != (#[trigger] self.keys@[b])@ by {
                if b == self.keys@.len() - 1 {
                    assert(old(self).keys@[a]@ != key@);
                }
            }
        }
    }

    /// Record one observation for `key`: seed a new aggregate if the key is
    /// absent, fold the value into the existing aggregate otherwise.
    pub fn update(&mut self, key: &[u8], value: i32)
        requires
            old(self).inv(),
            -999 <= value <= 999,
            old(self)@.contains_key(key@) ==> old(self)@[key@].count < u64::MAX,
        ensures
            final(self).inv(),
            final(self)@ == absorb(old(self)@, key@, stats_seed(value as int)),
    {
        let hash = fnv_hash(key);
        let seeded = Stats::new(value);
        self.absorb_keyed(key, hash, &seeded);
    }

    /// Look up the aggregate recorded for `key`.
    pub fn get(&self, key: &[u8]) -> (r: Option<&Stats>)
        requires
            self.inv(),
        ensures
            match r {
                Some(s) => self@.contains_key(key@) && s@ == self@[key@] && stats_wf(s@),
                None => !self@.contains_key(key@),
            },
    {
        let hash = fnv_hash(key);
        let n = self.keys.len();
        let mut i: usize = 0;
        while i < n
            invariant
                n == self.keys@.len(),
                i <= n,
                self.inv(),
                hash == fnv1a(key@),
                forall|j: int| 0 <= j < i ==> (#[trigger] self.keys@[j])@ != key@,
            decreases n - i,
        {
            if self.hashes[i] == hash {
                if bytes_equal(self.keys[i].as_slice(), key) {
                    proof {
                        lemma_map_of_index(self.keys@, self.stats@, i as int);
                    }
                    return Some(&self.stats[i]);
                }
            }
            i = i + 1;
        }
        proof {
            lemma_map_of_contains(self.keys@, self.stats@, key@);
        }
        None
    }

    /// Number of distinct keys recorded.
    pub fn len(&self) -> (r: usize)
        requires
            self.inv(),
        ensures
            r == 0 <==> self@ == RegistryModel::empty(),
    {
        proof {
            if self.keys@.len() == 0 {
                assert(self@ =~= RegistryModel::empty());
            } else {
                lemma_map_of_index(self.keys@, self.stats@, 0);
                assert(self@.contains_key(self.keys@[0]@));
            }
        }
        self.keys.len()
    }

    /// A copy of every key in the map, in insertion order.
    pub fn key_list(&self) -> (r: Vec<Vec<u8>>)
        requires
            self.inv(),
        ensures
            forall|i: int| 0 <= i < r@.len() ==> self@.contains_key((#[trigger] r@[i])@),
            forall|k: Seq<u8>| #[trigger] self@.contains_key(k) ==> exists|i: int|
                0 <= i < r@.len() && (#[trigger] r@[i])@ == k,
    {
        let n = self.keys.len();
        let mut out: Vec<Vec<u8>> = Vec::new();
        let mut i: usize = 0;
        while i < n
            invariant
                n == self.keys@.len(),
                i <= n,
                self.inv(),
                out@.len() == i,
                forall|j: int| 0 <= j < i ==> (#[trigger] out@[j])@ == self.keys@[j]@,
            decreases n - i,
        {
            out.push(slice_to_vec(self.keys[i].as_slice()));
            i = i + 1;
        }
        proof {
            assert forall|i: int| 0 <= i < out@.len() implies self@.contains_key(
                (#[trigger] out@[i])@,
            ) by {
                lemma_map_of_index(self.keys@, self.stats@, i);
            }
            assert forall|k: Seq<u8>| #[trigger] self@.contains_key(k) implies exists|i: int|
                0 <= i < out@.len() && (#[trigger] out@[i])@ == k by {
                lemma_map_of_contains(self.keys@, self.stats@, k);
                let i = choose|i: int| 0 <= i < self.keys@.len() && (#[trigger] self.keys@[i])@
                    == k;
                assert(out@[i]@ == k);
            }
        }
        out
    }
}

fn bytes_equal(a: &[u8], b: &[u8]) -> (r: bool)
    ensures
        r == (a@ == b@),
{
    if a.len() != b.len() {
        return false;
    }
    let n = a.len();
    let mut i: usize = 0;
    while i < n
        invariant
            n == a@.len(),
            a@.len() == b@.len(),
            i <= n,
            forall|j: int| 0 <= j < i ==> a@[j] == b@[j],
        decreases n - i,
    {
        if a[i] != b[i] {
            return false;
        }
        i = i + 1;
    }
    proof {
        assert(a@ =~= b@);
    }
    true
}

/// The views of a sequence of registries, in order.
pub open spec fn views_of(rs: Seq<Registry>) -> Seq<RegistryModel> {
    Seq::new(rs.len(), |i: int| rs[i]@)
}

/// Combine per-worker statistics maps into one: for every key present in any
/// input, the result holds the min of mins, max of maxes, and the sums of
/// sums and counts over all inputs holding that key.
pub fn merge(results: Vec<Registry>) -> (r: Registry)
    requires
        forall|i: int| 0 <= i < results@.len() ==> (#[trigger] results@[i]).inv(),
        counts_fit(merge_all(views_of(results@))),
    ensures
        r.inv(),
        r@ == merge_all(views_of(results@)),
{
    let ghost views = views_of(results@);
    let ghost target = merge_all(views);
    let mut acc = Registry::new();
    let n = results.len();
    let mut i: usize = 0;
    proof {
        assert(views.take(0) =~= Seq::<RegistryModel>::empty());
    }
    while i < n
        invariant
            n == results@.len(),
            i <= n,
            forall|t: int| 0 <= t < results@.len() ==> (#[trigger] results@[t]).inv(),
            views == views_of(results@),
            target == merge_all(views),
            counts_fit(target),
            acc.inv(),
            acc@ == merge_all(views.take(i as int)),
        decreases n - i,
    {
        let reg = &results[i];
        let m = reg.keys.len();
        let ghost m_start = acc@;
        let mut j: usize = 0;
        proof {
            assert(reg.keys@.take(0) =~= Seq::<Vec<u8>>::empty());
            assert(reg.stats@.take(0) =~= Seq::<Stats>::empty());
            lemma_merge2_empty_r(m_start);
        }
        while j < m
            invariant
                n == results@.len(),
                i < n,
                m == reg.keys@.len(),
                j <= m,
                reg == &results@[i as int],
                forall|t: int| 0 <= t < results@.len() ==> (#[trigger] results@[t]).inv(),
                views == views_of(results@),
                target == merge_all(views),
                counts_fit(target),
                m_start == merge_all(views.take(i as int)),
                acc.inv(),
                acc@ == merge2(m_start, map_of(reg.keys@.take(j as int), reg.stats@.take(j as int))),
            decreases m - j,
        {
            let ghost mo_j = map_of(reg.keys@.take(j as int), reg.stats@.take(j as int));
            let ghost k = reg.keys@[j as int]@;
            let ghost s = reg.stats@[j as int]@;
            proof {
                assert(reg.inv());
                assert(reg.keys@.take(j + 1).drop_last() =~= reg.keys@.take(j as int));
                assert(reg.stats@.take(j + 1).drop_last() =~= reg.stats@.take(j as int));
                assert(reg.keys@.take(j + 1).last() == reg.keys@[j as int]);
                assert(reg.stats@.take(j + 1).last() == reg.stats@[j as int]);
                // the key is new within this registry's prefix
                assert forall|t: int| 0 <= t < j implies (#[trigger] reg.keys@.take(j as int)[t])@
                    != k by {
                    assert(reg.keys@[t]@ != reg.keys@[j as int]@);
                }
                lemma_map_of_contains(
                    reg.keys@.take(j as int),
                    reg.stats@.take(j as int),
                    k,
                );
                assert(!mo_j.contains_key(k));
                let mo_j1 = map_of(reg.keys@.take(j + 1), reg.stats@.take(j + 1));
                assert(mo_j1 == absorb(mo_j, k, s));
                lemma_merge2_absorb(m_start, mo_j, k, s);
                // headroom: the merged count after this fold is below the target's
                lemma_map_of_take_le(reg.keys@, reg.stats@, j + 1);
                assert(map_le(mo_j1, reg@));
                lemma_merge2_monotone(m_start, m_start, mo_j1, reg@);
                lemma_merge_all_push(views.take(i as int), views[i as int]);
                assert(views.take(i as int).push(views[i as int]) =~= views.take(i + 1));
                assert(views[i as int] == reg@);
                assert(merge2(m_start, reg@) == merge_all(views.take(i + 1)));
                lemma_merge_all_prefix_le(views, i + 1);
                lemma_map_le_trans(merge2(m_start, mo_j1), merge2(m_start, reg@), target);
                // well-formedness of this entry's aggregate
                assert(stats_wf(s));
                if acc@.contains_key(k) {
                    assert(absorb(acc@, k, s) == merge2(m_start, mo_j1));
                    assert(absorb(acc@, k, s).contains_key(k));
                    assert(absorb(acc@, k, s)[k].count == acc@[k].count + s.count);
                    assert(acc@[k].count + s.count <= target[k].count);
                }
            }
            let key_ref: &Vec<u8> = &reg.keys[j];
            let hash = reg.hashes[j];
            let stats_ref = &reg.stats[j];
            acc.absorb_keyed(key_ref.as_slice(), hash, stats_ref);
            j = j + 1;
        }
        proof {
            assert(reg.keys@.take(m as int) =~= reg.keys@);
            assert(reg.stats@.take(m as int) =~= reg.stats@);
            lemma_merge_all_push(views.take(i as int), views[i as int]);
            assert(views.take(i as int).push(views[i as int]) =~= views.take(i + 1));
        }
        i = i + 1;
    }
    proof {
        assert(views.take(n as int) =~= views);
    }
    acc
}

proof fn lemma_map_of_take_le(ks: Seq<Vec<u8>>, ss: Seq<Stats>, j: int)
    requires
        ks.len() == ss.len(),
        keys_distinct(ks),
        0 <= j <= ks.len(),
    ensures
        map_le(map_of(ks.take(j), ss.take(j)), map_of(ks, ss)),
{
    let part = map_of(ks.take(j), ss.take(j));
    let whole = map_of(ks, ss);
    assert forall|k: Seq<u8>| #[trigger] part.contains_key(k) implies whole.contains_key(k)
        && part[k].count <= whole[k].count by {
        lemma_map_of_contains(ks.take(j), ss.take(j), k);
        let i = choose|i: int| 0 <= i < j && (#[trigger] ks.take(j)[i])@ == k;
        assert(ks[i]@ == k);
        assert forall|a: int, b: int| 0 <= a < b < j implies (#[trigger] ks.take(j)[a])@ != (
        #[trigger] ks.take(j)[b])@ by {
            assert(ks[a]@ != ks[b]@);
        }
        lemma_map_of_index(ks.take(j), ss.take(j), i);
        lemma_map_of_index(ks, ss, i);
    }
}

} // verus!
