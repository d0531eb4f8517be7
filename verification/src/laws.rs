//! Library-wide properties, stated once over the models that the executable
//! functions' contracts expose. Partition invariance has its own statement,
//! `crate::coordinator::lemma_partition_invariance`.

use vstd::prelude::*;
use crate::lines::{
    all_lines_valid, key_count, lemma_stats_count, lemma_stats_of_lines_wf, lines_of, stats_of,
};
use crate::model::{lemma_combine_assoc, merge2, RegistryModel};

verus! {

/// Merging per-worker results is commutative: folding two maps in either
/// order gives the same combined map.
pub proof fn lemma_merge_commutative(m1: RegistryModel, m2: RegistryModel)
    ensures
        merge2(m1, m2) == merge2(m2, m1),
{
    assert(merge2(m1, m2) =~= merge2(m2, m1));
}

/// Merging per-worker results is associative: the grouping of the folds
/// does not affect the combined map, so merge correctness is independent of
/// worker scheduling order.
pub proof fn lemma_merge_associative(a: RegistryModel, b: RegistryModel, c: RegistryModel)
    ensures
        merge2(merge2(a, b), c) == merge2(a, merge2(b, c)),
{
    assert forall|k: Seq<u8>| #[trigger] merge2(merge2(a, b), c).contains_key(k) implies merge2(
        merge2(a, b),
        c,
    )[k] == merge2(a, merge2(b, c))[k] by {
        if a.contains_key(k) && b.contains_key(k) && c.contains_key(k) {
            lemma_combine_assoc(a[k], b[k], c[k]);
        }
    }
    assert(merge2(merge2(a, b), c) =~= merge2(a, merge2(b, c)));
}

/// For every key of a result computed from well-formed lines, the mean lies
/// between the min and the max: with `mean = sum / count`, this is
/// equivalently `min * count <= sum <= max * count` with a positive count.
pub proof fn lemma_min_mean_max(data: Seq<u8>)
    requires
        all_lines_valid(lines_of(data)),
    ensures
        forall|k: Seq<u8>| #[trigger] stats_of(data).contains_key(k) ==> 1 <= stats_of(
            data,
        )[k].count,
        forall|k: Seq<u8>| #[trigger] stats_of(data).contains_key(k) ==> stats_of(data)[k].min
            <= stats_of(data)[k].max,
        forall|k: Seq<u8>| #[trigger] stats_of(data).contains_key(k) ==> stats_of(data)[k].min
            * stats_of(data)[k].count <= stats_of(data)[k].sum,
        forall|k: Seq<u8>| #[trigger] stats_of(data).contains_key(k) ==> stats_of(data)[k].sum
            <= stats_of(data)[k].max * stats_of(data)[k].count,
{
    lemma_stats_of_lines_wf(lines_of(data));
}

/// Counts are exact: a key present in the statistics of a buffer is counted
/// once per line whose key field is that key, and an absent key occurs on no
/// line.
pub proof fn lemma_count_exact(data: Seq<u8>, k: Seq<u8>)
    ensures
        stats_of(data).contains_key(k) ==> stats_of(data)[k].count == key_count(
            lines_of(data),
            k,
        ),
        !stats_of(data).contains_key(k) ==> key_count(lines_of(data), k) == 0,
{
    lemma_stats_count(lines_of(data), k);
}

} // verus!
