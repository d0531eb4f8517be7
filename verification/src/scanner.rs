//! The chunk scanner: walk one byte range of the input line by line, split
//! each line at the delimiter, parse the value, and fold it into a registry.

use vstd::prelude::*;
use vstd::slice::slice_subrange;
use crate::lines::{
    all_lines_valid, find_byte_from, lemma_counts_small, lemma_find_byte_is,
    lemma_find_byte_none, lemma_lines_concat, lemma_lines_single, lemma_lines_terminated,
    line_error, line_key, line_value, lines_of, stats_of, stats_of_lines, valid_line,
    BYTE_NEWLINE, BYTE_SEMI,
};
use crate::model::absorb;
use crate::registry::Registry;
use crate::stats::stats_seed;
use crate::temperature::{check_temperature, parse_temperature, temp_value, ParseError};

verus! {

/// Some line of `data` is malformed, every earlier line is well-formed, and
/// the error is the one that line produces.
pub open spec fn first_scan_error(data: Seq<u8>, e: ParseError) -> bool {
    exists|w: int|
        #![auto]
        0 <= w < lines_of(data).len() && !valid_line(lines_of(data)[w]) && (forall|j: int|
            0 <= j < w ==> valid_line(lines_of(data)[j])) && e == line_error(lines_of(data)[w])
}

/// Scan one record line (without its terminator): locate the delimiter,
/// parse the value field, and record the observation under the key field.
/// A malformed line leaves the registry unchanged and reports its error.
pub fn process_line(line: &[u8], registry: &mut Registry) -> (r: Result<(), ParseError>)
    requires
        old(registry).inv(),
        forall|k: Seq<u8>| #[trigger] old(registry)@.contains_key(k) ==> old(
            registry,
        )@[k].count < u64::MAX,
    ensures
        final(registry).inv(),
        match r {
            Ok(()) => valid_line(line@) && final(registry)@ == absorb(
                old(registry)@,
                line_key(line@),
                stats_seed(temp_value(line_value(line@))),
            ),
            Err(e) => !valid_line(line@) && e == line_error(line@) && final(registry)@ == old(
                registry,
            )@,
        },
{
    let d_opt = find_byte_from(line, BYTE_SEMI, 0, line.len());
    let d = match d_opt {
        Some(d) => d,
        None => {
            proof {
                lemma_find_byte_none(line@, BYTE_SEMI);
            }
            return Err(ParseError::MissingDelimiter);
        },
    };
    proof {
        lemma_find_byte_is(line@, BYTE_SEMI, d as int);
    }
    let value = slice_subrange(line, d + 1, line.len());
    proof {
        assert(value@ == line_value(line@));
    }
    if !check_temperature(value) {
        return Err(ParseError::InvalidValue);
    }
    let t = parse_temperature(value);
    let key = slice_subrange(line, 0, d);
    proof {
        assert(key@ == line_key(line@));
    }
    registry.update(key, t);
    Ok(())
}

/// Scan the byte range `[start, end)` of `data`: split it into lines and
/// fold every record into a fresh registry. Succeeds if and only if every
/// line in the range is a well-formed record; an empty range yields an
/// empty registry.
pub fn process_chunk(data: &[u8], start: usize, end: usize) -> (r: Result<
    Registry,
    ParseError,
>)
    requires
        start <= end <= data@.len(),
    ensures
        ({
            let sub = data@.subrange(start as int, end as int);
            match r {
                Ok(reg) => reg.inv() && all_lines_valid(lines_of(sub)) && reg@ == stats_of(sub),
                Err(e) => !all_lines_valid(lines_of(sub)) && first_scan_error(sub, e),
            }
        }),
{
    let ghost sub = data@.subrange(start as int, end as int);
    let mut registry = Registry::new();
    let mut pos: usize = start;
    proof {
        assert(data@.subrange(start as int, start as int) =~= Seq::<u8>::empty());
        assert(lines_of(Seq::<u8>::empty()) == Seq::<Seq<u8>>::empty());
    }
    while pos < end
        invariant
            start <= pos <= end <= data@.len(),
            sub == data@.subrange(start as int, end as int),
            pos == start || pos == end || data@[pos as int - 1] == BYTE_NEWLINE,
            registry.inv(),
            all_lines_valid(lines_of(data@.subrange(start as int, pos as int))),
            registry@ == stats_of_lines(lines_of(data@.subrange(start as int, pos as int))),
        decreases end - pos,
    {
        let ghost p = data@.subrange(start as int, pos as int);
        let nl = find_byte_from(data, BYTE_NEWLINE, pos, end);
        let (line_end, next) = match nl {
            Some(i) => (i, i + 1),
            None => (end, end),
        };
        let line = slice_subrange(data, pos, line_end);
        proof {
            // the line itself holds no terminator
            assert forall|j: int| 0 <= j < line@.len() implies line@[j] != BYTE_NEWLINE by {
                assert(line@[j] == data@[pos + j]);
            }
            lemma_find_byte_none(line@, BYTE_NEWLINE);
            // counts in the registry so far have headroom
            assert(p.len() <= u64::MAX);
            lemma_counts_small(p);
            assert(registry@ == stats_of(p));
        }
        let res = process_line(line, &mut registry);
        proof {
            // the lines of the grown prefix are the lines so far plus this line
            let p2 = data@.subrange(start as int, next as int);
            if nl is Some {
                assert(p2 =~= p + (line@ + seq![BYTE_NEWLINE]));
                lemma_lines_terminated(line@);
                lemma_lines_concat(p, line@ + seq![BYTE_NEWLINE]);
            } else {
                assert(p2 =~= p + line@);
                lemma_lines_single(line@);
                lemma_lines_concat(p, line@);
            }
            assert(lines_of(p2) == lines_of(p) + seq![line@]);
            assert(lines_of(p2).drop_last() =~= lines_of(p));
            assert(lines_of(p2).last() == line@);
        }
        match res {
            Ok(()) => {
                proof {
                    let p2 = data@.subrange(start as int, next as int);
                    assert forall|j: int| 0 <= j < lines_of(p2).len() implies valid_line(
                        #[trigger] lines_of(p2)[j],
                    ) by {
                        if j < lines_of(p).len() {
                            assert(lines_of(p2)[j] == lines_of(p)[j]);
                        } else {
                            assert(lines_of(p2)[j] == line@);
                        }
                    }
                    assert(stats_of_lines(lines_of(p2)) == absorb(
                        stats_of_lines(lines_of(p)),
                        line_key(line@),
                        stats_seed(temp_value(line_value(line@))),
                    ));
                }
            },
            Err(e) => {
                proof {
                    // the failing line is the first line of the unscanned tail
                    let tail = data@.subrange(pos as int, end as int);
                    lemma_lines_concat(p, tail);
                    assert(sub =~= p + tail);
                    assert(lines_of(sub) == lines_of(p) + lines_of(tail));
                    if nl is Some {
                        assert(tail[line_end - pos] == BYTE_NEWLINE);
                        assert forall|j: int| 0 <= j < line_end - pos implies tail[j]
                            != BYTE_NEWLINE by {
                            assert(tail[j] == data@[pos + j]);
                        }
                        lemma_find_byte_is(tail, BYTE_NEWLINE, line_end - pos);
                        assert(tail.subrange(0, line_end - pos) =~= line@);
                        assert(lines_of(tail)[0] == line@);
                    } else {
                        assert(tail =~= line@);
                        assert(lines_of(tail)[0] == line@);
                    }
                    let w = lines_of(p).len() as int;
                    assert(lines_of(sub)[w] == line@);
                    assert forall|j: int| 0 <= j < w implies valid_line(
                        #[trigger] lines_of(sub)[j],
                    ) by {
                        assert(lines_of(sub)[j] == lines_of(p)[j]);
                    }
                    assert(first_scan_error(sub, e));
                    assert(!all_lines_valid(lines_of(sub)));
                }
                return Err(e);
            },
        }
        pos = next;
    }
    proof {
        assert(data@.subrange(start as int, pos as int) =~= sub);
    }
    Ok(registry)
}

} // verus!
