//! The coordinator: partition the input into line-aligned ranges, scan each
//! range into its own registry, and merge the per-range registries. The
//! partition-invariance proof shows the result equals a single whole-buffer
//! scan, whatever the partition.

use vstd::prelude::*;
use crate::lines::{
    all_lines_valid, lemma_counts_small, lemma_lines_concat, lemma_stats_concat, lines_of,
    stats_of, valid_line, BYTE_NEWLINE,
};
use crate::model::{counts_fit, merge2, merge_all, RegistryModel};
use crate::partition::{compute_ranges, ranges_wf, ByteRange};
use crate::registry::{merge, views_of, Registry};
use crate::scanner::{first_scan_error, process_chunk};
use crate::temperature::ParseError;

verus! {

/// Statistics of each range of a partition, in order.
pub open spec fn chunk_stats(data: Seq<u8>, rs: Seq<ByteRange>) -> Seq<RegistryModel> {
    Seq::new(
        rs.len(),
        |i: int| stats_of(data.subrange(rs[i].start as int, rs[i].end as int)),
    )
}

/// End of the prefix covered by the first `i` ranges.
pub open spec fn prefix_end(rs: Seq<ByteRange>, i: int) -> int {
    if i == 0 {
        0
    } else {
        rs[i - 1].end as int
    }
}

/// Extending a scan across a line-aligned cut appends the lines of the new
/// part to the lines of the old prefix.
pub proof fn lemma_scan_prefix_extend(data: Seq<u8>, s: int, e: int)
    requires
        0 <= s <= e <= data.len(),
        s == 0 || s == data.len() || data[s - 1] == BYTE_NEWLINE,
    ensures
        lines_of(data.subrange(0, e)) == lines_of(data.subrange(0, s)) + lines_of(
            data.subrange(s, e),
        ),
{
    let a = data.subrange(0, s);
    let b = data.subrange(s, e);
    assert(data.subrange(0, e) =~= a + b);
    if s == data.len() {
        assert(b =~= Seq::<u8>::empty());
        assert(lines_of(b) == Seq::<Seq<u8>>::empty());
        assert(a + b =~= a);
        assert(lines_of(a) + lines_of(b) =~= lines_of(a));
    } else {
        if s > 0 {
            assert(a.last() == data[s - 1]);
        }
        lemma_lines_concat(a, b);
    }
}

/// The prefix cut before range `i` is line-aligned.
proof fn lemma_cut_aligned(data: Seq<u8>, rs: Seq<ByteRange>, i: int)
    requires
        ranges_wf(data, rs),
        0 <= i <= rs.len(),
    ensures
        0 <= prefix_end(rs, i) <= data.len(),
        prefix_end(rs, i) == 0 || prefix_end(rs, i) == data.len() || data[prefix_end(rs, i)
            - 1] == BYTE_NEWLINE,
        i < rs.len() ==> rs[i].start == prefix_end(rs, i),
        i < rs.len() ==> rs[i].end >= prefix_end(rs, i),
{
    if i > 0 {
        assert(rs[i - 1].start <= rs[i - 1].end <= data.len());
        if i - 1 < rs.len() - 1 {
            assert(rs[(i - 1) + 1].start == rs[i - 1].end);
        } else {
            assert(rs[rs.len() - 1].end == data.len());
        }
    }
}

/// The lines of the whole buffer are the lines before range `i`, the lines
/// of range `i`, and the lines after it.
proof fn lemma_chunk_lines(data: Seq<u8>, rs: Seq<ByteRange>, i: int)
    requires
        ranges_wf(data, rs),
        0 <= i < rs.len(),
    ensures
        lines_of(data) == lines_of(data.subrange(0, prefix_end(rs, i))) + lines_of(
            data.subrange(rs[i].start as int, rs[i].end as int),
        ) + lines_of(data.subrange(rs[i].end as int, data.len() as int)),
{
    let s = prefix_end(rs, i);
    let e = rs[i].end as int;
    lemma_cut_aligned(data, rs, i);
    lemma_scan_prefix_extend(data, s, data.len() as int);
    assert(data.subrange(0, data.len() as int) =~= data);
    let c = data.subrange(s, data.len() as int);
    let a = data.subrange(rs[i].start as int, e);
    let b = data.subrange(e, data.len() as int);
    if e == data.len() {
        assert(b =~= Seq::<u8>::empty());
        assert(lines_of(b) == Seq::<Seq<u8>>::empty());
        assert(c =~= a);
        assert(lines_of(c) =~= lines_of(a) + lines_of(b));
    } else {
        assert(i < rs.len() - 1);
        assert(rs[i].end > 0 && data[rs[i].end - 1] == BYTE_NEWLINE);
        if a.len() > 0 {
            assert(a.last() == data[e - 1]);
        }
        lemma_lines_concat(a, b);
        assert(c =~= a + b);
    }
}

/// Merging the statistics of the first `i` ranges equals scanning the prefix
/// they cover.
proof fn lemma_partition_prefix(data: Seq<u8>, rs: Seq<ByteRange>, i: int)
    requires
        ranges_wf(data, rs),
        0 <= i <= rs.len(),
    ensures
        merge_all(chunk_stats(data, rs).take(i)) == stats_of(
            data.subrange(0, prefix_end(rs, i)),
        ),
    decreases i,
{
    let cs = chunk_stats(data, rs);
    if i == 0 {
        assert(cs.take(0) =~= Seq::<RegistryModel>::empty());
        assert(data.subrange(0, 0) =~= Seq::<u8>::empty());
        assert(lines_of(Seq::<u8>::empty()) == Seq::<Seq<u8>>::empty());
    } else {
        lemma_partition_prefix(data, rs, i - 1);
        let s = prefix_end(rs, i - 1);
        let e = rs[i - 1].end as int;
        lemma_cut_aligned(data, rs, i - 1);
        lemma_scan_prefix_extend(data, s, e);
        lemma_stats_concat(
            lines_of(data.subrange(0, s)),
            lines_of(data.subrange(s, e)),
        );
        assert(cs.take(i).drop_last() =~= cs.take(i - 1));
        assert(cs.take(i).last() == cs[i - 1]);
        assert(cs[i - 1] == stats_of(data.subrange(rs[i - 1].start as int, e)));
        assert(rs[i - 1].start == s);
        assert(merge_all(cs.take(i)) == merge2(merge_all(cs.take(i - 1)), cs[i - 1]));
    }
}

/// Partition invariance: scanning any line-aligned partition of the buffer
/// range by range and merging the per-range statistics yields exactly the
/// statistics of scanning the whole buffer at once.
pub proof fn lemma_partition_invariance(data: Seq<u8>, rs: Seq<ByteRange>)
    requires
        ranges_wf(data, rs),
    ensures
        merge_all(chunk_stats(data, rs)) == stats_of(data),
{
    lemma_partition_prefix(data, rs, rs.len() as int);
    assert(chunk_stats(data, rs).take(rs.len() as int) =~= chunk_stats(data, rs));
    assert(data.subrange(0, data.len() as int) =~= data);
}

/// Run the whole pipeline over an in-memory buffer: partition it into
/// `pool_size` line-aligned ranges, scan each range into its own registry,
/// and merge the per-range registries. The result is exactly the statistics
/// of the whole buffer; a malformed line anywhere aborts the run with the
/// error of the first such line.
pub fn process_measurements(data: &[u8], pool_size: usize) -> (r: Result<Registry, ParseError>)
    requires
        1 <= pool_size,
    ensures
        match r {
            Ok(reg) => reg.inv() && all_lines_valid(lines_of(data@)) && reg@ == stats_of(data@),
            Err(e) => !all_lines_valid(lines_of(data@)) && first_scan_error(data@, e),
        },
{
    let ranges = compute_ranges(data, pool_size);
    let n = ranges.len();
    let mut results: Vec<Registry> = Vec::new();
    let mut i: usize = 0;
    proof {
        assert(data@.subrange(0, 0) =~= Seq::<u8>::empty());
        assert(lines_of(Seq::<u8>::empty()) == Seq::<Seq<u8>>::empty());
    }
    while i < n
        invariant
            n == ranges@.len(),
            ranges_wf(data@, ranges@),
            i <= n,
            results@.len() == i,
            forall|j: int| 0 <= j < i ==> (#[trigger] results@[j]).inv(),
            forall|j: int| 0 <= j < i ==> (#[trigger] results@[j])@ == chunk_stats(
                data@,
                ranges@,
            )[j],
            all_lines_valid(lines_of(data@.subrange(0, prefix_end(ranges@, i as int)))),
        decreases n - i,
    {
        proof {
            lemma_cut_aligned(data@, ranges@, i as int);
        }
        let range = ranges[i];
        let res = process_chunk(data, range.start, range.end);
        let ghost chunk = data@.subrange(range.start as int, range.end as int);
        let ghost before = data@.subrange(0, prefix_end(ranges@, i as int));
        match res {
            Ok(reg) => {
                results.push(reg);
                proof {
                    // the valid prefix now reaches this range's end
                    lemma_scan_prefix_extend(
                        data@,
                        prefix_end(ranges@, i as int),
                        range.end as int,
                    );
                    let p2 = data@.subrange(0, prefix_end(ranges@, i as int + 1));
                    assert(lines_of(p2) == lines_of(before) + lines_of(chunk));
                    assert forall|t: int| 0 <= t < lines_of(p2).len() implies valid_line(
                        #[trigger] lines_of(p2)[t],
                    ) by {
                        if t < lines_of(before).len() {
                            assert(lines_of(p2)[t] == lines_of(before)[t]);
                        } else {
                            assert(lines_of(p2)[t] == lines_of(chunk)[t - lines_of(
                                before,
                            ).len()]);
                        }
                    }
                }
            },
            Err(e) => {
                proof {
                    // relocate the chunk's first bad line within the whole buffer
                    lemma_chunk_lines(data@, ranges@, i as int);
                    let after = data@.subrange(range.end as int, data@.len() as int);
                    assert(lines_of(data@) == lines_of(before) + lines_of(chunk) + lines_of(
                        after,
                    ));
                    let wc = choose|wc: int|
                        #![auto]
                        0 <= wc < lines_of(chunk).len() && !valid_line(lines_of(chunk)[wc]) && (
                        forall|j: int| 0 <= j < wc ==> valid_line(lines_of(chunk)[j])) && e
                            == crate::lines::line_error(lines_of(chunk)[wc]);
                    let w = lines_of(before).len() + wc;
                    assert(lines_of(data@)[w] == lines_of(chunk)[wc]);
                    assert forall|j: int| 0 <= j < w implies valid_line(
                        #[trigger] lines_of(data@)[j],
                    ) by {
                        if j < lines_of(before).len() {
                            assert(lines_of(data@)[j] == lines_of(before)[j]);
                        } else {
                            assert(lines_of(data@)[j] == lines_of(chunk)[j - lines_of(
                                before,
                            ).len()]);
                        }
                    }
                    assert(first_scan_error(data@, e));
                    assert(!all_lines_valid(lines_of(data@)));
                }
                return Err(e);
            },
        }
        i = i + 1;
    }
    proof {
        // with every range scanned, the valid prefix is the whole buffer
        assert(prefix_end(ranges@, n as int) == data@.len());
        assert(data@.subrange(0, data@.len() as int) =~= data@);
        // the per-range registries carry exactly the per-range statistics
        assert(views_of(results@) =~= chunk_stats(data@, ranges@));
        lemma_partition_invariance(data@, ranges@);
        lemma_counts_small(data@);
        assert(counts_fit(merge_all(views_of(results@))));
    }
    let merged = merge(results);
    Ok(merged)
}

} // verus!
