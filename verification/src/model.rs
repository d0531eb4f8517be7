//! Mathematical model of a key-statistics map and of merging such maps:
//! a `Map` from key bytes to exact aggregates.

use vstd::prelude::*;
use vstd::map::*;
use crate::stats::{StatsModel, stats_combine, stats_wf};

verus! {

/// A statistics map: key bytes to aggregate.
pub type RegistryModel = Map<Seq<u8>, StatsModel>;

/// Fold one aggregate for key `k` into the map: combine with the existing
/// aggregate if the key is present, insert it otherwise.
pub open spec fn absorb(m: RegistryModel, k: Seq<u8>, s: StatsModel) -> RegistryModel {
    if m.contains_key(k) {
        m.insert(k, stats_combine(m[k], s))
    } else {
        m.insert(k, s)
    }
}

/// Every aggregate in the map is well-formed.
pub open spec fn map_wf(m: RegistryModel) -> bool {
    forall|k: Seq<u8>| #[trigger] m.contains_key(k) ==> stats_wf(m[k])
}

/// Merge of two statistics maps: per key, min of mins, max of maxes, and
/// sums of sums and counts.
pub open spec fn merge2(m1: RegistryModel, m2: RegistryModel) -> RegistryModel {
    Map::new(
        |k: Seq<u8>| m1.contains_key(k) || m2.contains_key(k),
        |k: Seq<u8>|
            if m1.contains_key(k) && m2.contains_key(k) {
                stats_combine(m1[k], m2[k])
            } else if m1.contains_key(k) {
                m1[k]
            } else {
                m2[k]
            },
    )
}

/// Merge of a sequence of statistics maps, left to right.
pub open spec fn merge_all(ms: Seq<RegistryModel>) -> RegistryModel
    decreases ms.len(),
{
    if ms.len() == 0 {
        Map::empty()
    } else {
        merge2(merge_all(ms.drop_last()), ms.last())
    }
}

/// Every count in the map fits the machine's count field.
pub open spec fn counts_fit(m: RegistryModel) -> bool {
    forall|k: Seq<u8>| #[trigger] m.contains_key(k) ==> m[k].count <= u64::MAX
}

/// Per-key domination: `m2` has every key of `m1`, with at least its count.
pub open spec fn map_le(m1: RegistryModel, m2: RegistryModel) -> bool {
    forall|k: Seq<u8>| #[trigger] m1.contains_key(k)
        ==> m2.contains_key(k) && m1[k].count <= m2[k].count
}

pub proof fn lemma_combine_assoc(a: StatsModel, b: StatsModel, c: StatsModel)
    ensures
        stats_combine(stats_combine(a, b), c) == stats_combine(a, stats_combine(b, c)),
{
}

/// Merging with the empty map changes nothing.
pub proof fn lemma_merge2_empty_r(m: RegistryModel)
    ensures
        merge2(m, Map::empty()) == m,
{
    assert(merge2(m, Map::empty()) =~= m);
}

/// Folding one aggregate into the right operand of a merge is the same as
/// folding it into the merged map.
pub proof fn lemma_merge2_absorb(m1: RegistryModel, m2: RegistryModel, k: Seq<u8>, s: StatsModel)
    ensures
        merge2(m1, absorb(m2, k, s)) == absorb(merge2(m1, m2), k, s),
{
    if m1.contains_key(k) && m2.contains_key(k) {
        lemma_combine_assoc(m1[k], m2[k], s);
    }
    assert(merge2(m1, absorb(m2, k, s)) =~= absorb(merge2(m1, m2), k, s));
}

/// Folding a well-formed aggregate preserves map well-formedness.
pub proof fn lemma_absorb_wf(m: RegistryModel, k: Seq<u8>, s: StatsModel)
    requires
        map_wf(m),
        stats_wf(s),
    ensures
        map_wf(absorb(m, k, s)),
{
    if m.contains_key(k) {
        crate::stats::lemma_combine_wf(m[k], s);
    }
}

/// Merging preserves map well-formedness.
pub proof fn lemma_merge2_wf(m1: RegistryModel, m2: RegistryModel)
    requires
        map_wf(m1),
        map_wf(m2),
    ensures
        map_wf(merge2(m1, m2)),
{
    assert forall|k: Seq<u8>| #[trigger] merge2(m1, m2).contains_key(k) implies stats_wf(
        merge2(m1, m2)[k],
    ) by {
        if m1.contains_key(k) && m2.contains_key(k) {
            crate::stats::lemma_combine_wf(m1[k], m2[k]);
        }
    }
}

/// A merged sequence of well-formed maps is well-formed.
pub proof fn lemma_merge_all_wf(ms: Seq<RegistryModel>)
    requires
        forall|i: int| 0 <= i < ms.len() ==> map_wf(#[trigger] ms[i]),
    ensures
        map_wf(merge_all(ms)),
    decreases ms.len(),
{
    if ms.len() > 0 {
        lemma_merge_all_wf(ms.drop_last());
        lemma_merge2_wf(merge_all(ms.drop_last()), ms.last());
    }
}

/// Each operand of a merge is dominated by the merged map.
pub proof fn lemma_merge2_le(m1: RegistryModel, m2: RegistryModel)
    ensures
        map_le(m1, merge2(m1, m2)),
        map_le(m2, merge2(m1, m2)),
{
}

/// Domination is transitive.
pub proof fn lemma_map_le_trans(a: RegistryModel, b: RegistryModel, c: RegistryModel)
    requires
        map_le(a, b),
        map_le(b, c),
    ensures
        map_le(a, c),
{
    assert forall|k: Seq<u8>| #[trigger] a.contains_key(k) implies c.contains_key(k) && a[k].count
        <= c[k].count by {
        assert(b.contains_key(k));
    }
}

/// Merging dominated operands yields a dominated merge.
pub proof fn lemma_merge2_monotone(
    a: RegistryModel,
    b: RegistryModel,
    c: RegistryModel,
    d: RegistryModel,
)
    requires
        map_le(a, b),
        map_le(c, d),
    ensures
        map_le(merge2(a, c), merge2(b, d)),
{
    assert forall|k: Seq<u8>| #[trigger] merge2(a, c).contains_key(k) implies merge2(
        b,
        d,
    ).contains_key(k) && merge2(a, c)[k].count <= merge2(b, d)[k].count by {
        if a.contains_key(k) {
            assert(b.contains_key(k));
        }
        if c.contains_key(k) {
            assert(d.contains_key(k));
        }
    }
}

/// A prefix of a merge sequence is dominated by the whole merge.
pub proof fn lemma_merge_all_prefix_le(ms: Seq<RegistryModel>, i: int)
    requires
        0 <= i <= ms.len(),
    ensures
        map_le(merge_all(ms.take(i)), merge_all(ms)),
    decreases ms.len(),
{
    if i == ms.len() {
        assert(ms.take(i) =~= ms);
    } else {
        assert(ms.drop_last().take(i) =~= ms.take(i));
        lemma_merge_all_prefix_le(ms.drop_last(), i);
        lemma_merge2_le(merge_all(ms.drop_last()), ms.last());
        lemma_map_le_trans(
            merge_all(ms.take(i)),
            merge_all(ms.drop_last()),
            merge_all(ms),
        );
    }
}

/// Appending one more map to a merge sequence merges it on the right.
pub proof fn lemma_merge_all_push(ms: Seq<RegistryModel>, m: RegistryModel)
    ensures
        merge_all(ms.push(m)) == merge2(merge_all(ms), m),
{
    assert(ms.push(m).drop_last() =~= ms);
    assert(ms.push(m).last() == m);
}

} // verus!
