//! The line model of the input: a buffer is a sequence of lines split at
//! terminator bytes, each line a `<key>;<value>` record, and the statistics
//! of a buffer are the fold of its lines into a statistics map.

use vstd::prelude::*;
use vstd::map::*;
use crate::model::{absorb, map_wf, merge2, RegistryModel};
use crate::model::{lemma_absorb_wf, lemma_merge2_absorb, lemma_merge2_empty_r};
use crate::stats::{stats_seed, stats_wf};
use crate::temperature::{lemma_temp_value_range, temp_value, valid_temp, ParseError};

verus! {

/// ASCII line terminator.
pub const BYTE_NEWLINE: u8 = 10;

/// ASCII key/value delimiter.
pub const BYTE_SEMI: u8 = 59;

/// Index of the first occurrence of `x` in `s`, or -1 if there is none.
pub open spec fn find_byte(s: Seq<u8>, x: u8) -> int
    decreases s.len(),
{
    if s.len() == 0 {
        -1
    } else if s[0] == x {
        0
    } else {
        let r = find_byte(s.drop_first(), x);
        if r < 0 {
            -1
        } else {
            r + 1
        }
    }
}

pub proof fn lemma_find_byte_props(s: Seq<u8>, x: u8)
    ensures
        find_byte(s, x) >= 0 ==> find_byte(s, x) < s.len() && s[find_byte(s, x)] == x
            && forall|j: int| 0 <= j < find_byte(s, x) ==> s[j] != x,
        find_byte(s, x) < 0 ==> forall|j: int| 0 <= j < s.len() ==> s[j] != x,
    decreases s.len(),
{
    if s.len() > 0 && s[0] != x {
        let t = s.drop_first();
        lemma_find_byte_props(t, x);
        let r = find_byte(t, x);
        if r >= 0 {
            assert(s[r + 1] == t[r]);
            assert forall|j: int| 0 <= j < r + 1 implies s[j] != x by {
                if j > 0 {
                    assert(t[j - 1] != x);
                }
            }
        } else {
            assert forall|j: int| 0 <= j < s.len() implies s[j] != x by {
                if j > 0 {
                    assert(t[j - 1] != x);
                }
            }
        }
    }
}

/// The first occurrence determines `find_byte`.
pub proof fn lemma_find_byte_is(s: Seq<u8>, x: u8, i: int)
    requires
        0 <= i < s.len(),
        s[i] == x,
        forall|j: int| 0 <= j < i ==> s[j] != x,
    ensures
        find_byte(s, x) == i,
    decreases s.len(),
{
    if i > 0 {
        lemma_find_byte_is(s.drop_first(), x, i - 1);
    }
}

pub proof fn lemma_find_byte_none(s: Seq<u8>, x: u8)
    requires
        forall|j: int| 0 <= j < s.len() ==> s[j] != x,
    ensures
        find_byte(s, x) == -1,
    decreases s.len(),
{
    if s.len() > 0 {
        lemma_find_byte_none(s.drop_first(), x);
    }
}

/// An occurrence in the left part of a concatenation is found there.
pub proof fn lemma_find_byte_concat_l(a: Seq<u8>, b: Seq<u8>, x: u8)
    requires
        find_byte(a, x) >= 0,
    ensures
        find_byte(a + b, x) == find_byte(a, x),
{
    lemma_find_byte_props(a, x);
    let i = find_byte(a, x);
    assert((a + b)[i] == x);
    lemma_find_byte_is(a + b, x, i);
}

/// With no occurrence on the left, the search continues on the right.
pub proof fn lemma_find_byte_concat_absent(a: Seq<u8>, b: Seq<u8>, x: u8)
    requires
        find_byte(a, x) < 0,
    ensures
        find_byte(b, x) < 0 ==> find_byte(a + b, x) == -1,
        find_byte(b, x) >= 0 ==> find_byte(a + b, x) == a.len() + find_byte(b, x),
{
    lemma_find_byte_props(a, x);
    lemma_find_byte_props(b, x);
    if find_byte(b, x) < 0 {
        assert forall|j: int| 0 <= j < (a + b).len() implies (a + b)[j] != x by {
            if j < a.len() {
                assert((a + b)[j] == a[j]);
            } else {
                assert((a + b)[j] == b[j - a.len()]);
            }
        }
        lemma_find_byte_none(a + b, x);
    } else {
        let i = a.len() + find_byte(b, x);
        assert((a + b)[i] == x);
        assert forall|j: int| 0 <= j < i implies (a + b)[j] != x by {
            if j < a.len() {
                assert((a + b)[j] == a[j]);
            } else {
                assert((a + b)[j] == b[j - a.len()]);
            }
        }
        lemma_find_byte_is(a + b, x, i);
    }
}

/// The lines of a buffer: split at each terminator; a final fragment without
/// a terminator is a line of its own; a trailing terminator adds no line.
pub open spec fn lines_of(data: Seq<u8>) -> Seq<Seq<u8>>
    decreases data.len(),
    via lines_of_decreases
{
    if data.len() == 0 {
        Seq::empty()
    } else {
        let i = find_byte(data, BYTE_NEWLINE);
        if i < 0 {
            seq![data]
        } else {
            seq![data.subrange(0, i)] + lines_of(data.subrange(i + 1, data.len() as int))
        }
    }
}

#[via_fn]
proof fn lines_of_decreases(data: Seq<u8>) {
    lemma_find_byte_props(data, BYTE_NEWLINE);
}

/// Key field of a record line: the bytes before the first delimiter.
pub open spec fn line_key(l: Seq<u8>) -> Seq<u8> {
    l.subrange(0, find_byte(l, BYTE_SEMI))
}

/// Value field of a record line: the bytes after the first delimiter.
pub open spec fn line_value(l: Seq<u8>) -> Seq<u8> {
    l.subrange(find_byte(l, BYTE_SEMI) + 1, l.len() as int)
}

/// A well-formed record line: it has a delimiter, and the value field
/// matches the decimal grammar.
pub open spec fn valid_line(l: Seq<u8>) -> bool {
    find_byte(l, BYTE_SEMI) >= 0 && valid_temp(line_value(l))
}

pub open spec fn all_lines_valid(ls: Seq<Seq<u8>>) -> bool {
    forall|i: int| 0 <= i < ls.len() ==> valid_line(#[trigger] ls[i])
}

/// The error a malformed line produces.
pub open spec fn line_error(l: Seq<u8>) -> ParseError {
    if find_byte(l, BYTE_SEMI) < 0 {
        ParseError::MissingDelimiter
    } else {
        ParseError::InvalidValue
    }
}

/// Statistics of a sequence of record lines: per key, the aggregate of the
/// values on the lines carrying that key, folded left to right.
pub open spec fn stats_of_lines(ls: Seq<Seq<u8>>) -> RegistryModel
    decreases ls.len(),
{
    if ls.len() == 0 {
        Map::empty()
    } else {
        absorb(
            stats_of_lines(ls.drop_last()),
            line_key(ls.last()),
            stats_seed(temp_value(line_value(ls.last()))),
        )
    }
}

/// Statistics of a whole buffer.
pub open spec fn stats_of(data: Seq<u8>) -> RegistryModel {
    stats_of_lines(lines_of(data))
}

/// Number of lines whose key field is `k`.
pub open spec fn key_count(ls: Seq<Seq<u8>>, k: Seq<u8>) -> nat
    decreases ls.len(),
{
    if ls.len() == 0 {
        0
    } else {
        key_count(ls.drop_last(), k) + if line_key(ls.last()) == k {
            1nat
        } else {
            0nat
        }
    }
}

/// A buffer with no content has no lines, and a buffer without a terminator
/// is a single line.
pub proof fn lemma_lines_single(l: Seq<u8>)
    requires
        l.len() > 0,
        find_byte(l, BYTE_NEWLINE) < 0,
    ensures
        lines_of(l) == seq![l],
{
}

/// A buffer of one terminated line is that line alone.
pub proof fn lemma_lines_terminated(l: Seq<u8>)
    requires
        find_byte(l, BYTE_NEWLINE) < 0,
    ensures
        lines_of(l + seq![BYTE_NEWLINE]) == seq![l],
{
    let c = l + seq![BYTE_NEWLINE];
    assert(seq![BYTE_NEWLINE][0] == BYTE_NEWLINE);
    lemma_find_byte_concat_absent(l, seq![BYTE_NEWLINE], BYTE_NEWLINE);
    assert(find_byte(c, BYTE_NEWLINE) == l.len());
    assert(c.subrange(0, l.len() as int) =~= l);
    let rest = c.subrange(l.len() as int + 1, c.len() as int);
    assert(rest =~= Seq::<u8>::empty());
    assert(lines_of(rest) == Seq::<Seq<u8>>::empty());
    assert(lines_of(c) == seq![c.subrange(0, l.len() as int)] + lines_of(rest));
    assert(lines_of(c) =~= seq![l]);
}

/// Splitting at a line boundary splits the lines: if `a` is empty or ends
/// with a terminator, the lines of `a + b` are the lines of `a` then the
/// lines of `b`.
pub proof fn lemma_lines_concat(a: Seq<u8>, b: Seq<u8>)
    requires
        a.len() == 0 || a.last() == BYTE_NEWLINE,
    ensures
        lines_of(a + b) == lines_of(a) + lines_of(b),
    decreases a.len(),
{
    if a.len() == 0 {
        assert(a + b =~= b);
        assert(lines_of(a) + lines_of(b) =~= lines_of(b));
    } else {
        lemma_find_byte_props(a, BYTE_NEWLINE);
        let i = find_byte(a, BYTE_NEWLINE);
        assert(i >= 0) by {
            if i < 0 {
                assert(a[a.len() - 1] == BYTE_NEWLINE);
            }
        }
        lemma_find_byte_concat_l(a, b, BYTE_NEWLINE);
        let c = a + b;
        assert(c.subrange(0, i) =~= a.subrange(0, i));
        let a_rest = a.subrange(i + 1, a.len() as int);
        assert(c.subrange(i + 1, c.len() as int) =~= a_rest + b);
        if a_rest.len() > 0 {
            assert(a_rest.last() == a.last());
        }
        lemma_lines_concat(a_rest, b);
        assert(lines_of(c) =~= lines_of(a) + lines_of(b));
    }
}

/// Statistics distribute over concatenation of line sequences: the fold of
/// `x + y` is the merge of the folds of `x` and of `y`.
pub proof fn lemma_stats_concat(x: Seq<Seq<u8>>, y: Seq<Seq<u8>>)
    ensures
        stats_of_lines(x + y) == merge2(stats_of_lines(x), stats_of_lines(y)),
    decreases y.len(),
{
    if y.len() == 0 {
        assert(x + y =~= x);
        lemma_merge2_empty_r(stats_of_lines(x));
    } else {
        assert((x + y).drop_last() =~= x + y.drop_last());
        assert((x + y).last() == y.last());
        lemma_stats_concat(x, y.drop_last());
        lemma_merge2_absorb(
            stats_of_lines(x),
            stats_of_lines(y.drop_last()),
            line_key(y.last()),
            stats_seed(temp_value(line_value(y.last()))),
        );
    }
}

/// The fold of valid lines is a well-formed statistics map.
pub proof fn lemma_stats_of_lines_wf(ls: Seq<Seq<u8>>)
    requires
        all_lines_valid(ls),
    ensures
        map_wf(stats_of_lines(ls)),
    decreases ls.len(),
{
    if ls.len() > 0 {
        assert(all_lines_valid(ls.drop_last())) by {
            assert forall|i: int| 0 <= i < ls.len() - 1 implies valid_line(
                #[trigger] ls.drop_last()[i],
            ) by {
                assert(ls.drop_last()[i] == ls[i]);
            }
        }
        lemma_stats_of_lines_wf(ls.drop_last());
        assert(valid_line(ls[ls.len() - 1]));
        lemma_temp_value_range(line_value(ls.last()));
        lemma_absorb_wf(
            stats_of_lines(ls.drop_last()),
            line_key(ls.last()),
            stats_seed(temp_value(line_value(ls.last()))),
        );
    }
}

/// The `count` field is exact: for a key in the fold it equals the number of
/// lines carrying that key, and a key not in the fold is on no line.
pub proof fn lemma_stats_count(ls: Seq<Seq<u8>>, k: Seq<u8>)
    ensures
        stats_of_lines(ls).contains_key(k) ==> stats_of_lines(ls)[k].count == key_count(ls, k),
        !stats_of_lines(ls).contains_key(k) ==> key_count(ls, k) == 0,
    decreases ls.len(),
{
    if ls.len() > 0 {
        lemma_stats_count(ls.drop_last(), k);
    }
}

/// No key appears on more lines than there are.
pub proof fn lemma_key_count_le(ls: Seq<Seq<u8>>, k: Seq<u8>)
    ensures
        key_count(ls, k) <= ls.len(),
    decreases ls.len(),
{
    if ls.len() > 0 {
        lemma_key_count_le(ls.drop_last(), k);
    }
}

/// A valid record line has at least four bytes: a delimiter and a three-byte
/// value at minimum.
pub proof fn lemma_valid_line_len(l: Seq<u8>)
    requires
        valid_line(l),
    ensures
        l.len() >= 4,
{
    lemma_find_byte_props(l, BYTE_SEMI);
}

/// A buffer of `n` valid lines has at least `5 n - 1` bytes.
pub proof fn lemma_lines_len_bound(s: Seq<u8>)
    requires
        all_lines_valid(lines_of(s)),
    ensures
        5 * lines_of(s).len() <= s.len() + 1,
    decreases s.len(),
{
    if s.len() > 0 {
        lemma_find_byte_props(s, BYTE_NEWLINE);
        let i = find_byte(s, BYTE_NEWLINE);
        if i < 0 {
            assert(valid_line(lines_of(s)[0]));
            lemma_valid_line_len(s);
        } else {
            let first = s.subrange(0, i);
            let rest = s.subrange(i + 1, s.len() as int);
            assert(lines_of(s) == seq![first] + lines_of(rest));
            assert(valid_line(lines_of(s)[0]));
            assert(lines_of(s)[0] == first);
            lemma_valid_line_len(first);
            assert(all_lines_valid(lines_of(rest))) by {
                assert forall|j: int| 0 <= j < lines_of(rest).len() implies valid_line(
                    #[trigger] lines_of(rest)[j],
                ) by {
                    assert(lines_of(rest)[j] == lines_of(s)[j + 1]);
                }
            }
            lemma_lines_len_bound(rest);
        }
    }
}

/// In the statistics of a machine-sized buffer of valid lines, every count
/// has headroom below the machine bound.
pub proof fn lemma_counts_small(s: Seq<u8>)
    requires
        all_lines_valid(lines_of(s)),
        s.len() <= u64::MAX,
    ensures
        forall|k: Seq<u8>| #[trigger] stats_of(s).contains_key(k) ==> stats_of(s)[k].count
            < u64::MAX,
{
    lemma_lines_len_bound(s);
    assert forall|k: Seq<u8>| #[trigger] stats_of(s).contains_key(k) implies stats_of(
        s,
    )[k].count < u64::MAX by {
        lemma_stats_count(lines_of(s), k);
        lemma_key_count_le(lines_of(s), k);
    }
}

/// First index of `x` in `s[from..to)`, scanning forward.
pub fn find_byte_from(s: &[u8], x: u8, from: usize, to: usize) -> (r: Option<usize>)
    requires
        from <= to <= s@.len(),
    ensures
        match r {
            Some(i) => from <= i < to && s@[i as int] == x && forall|j: int|
                from <= j < i ==> s@[j] != x,
            None => forall|j: int| from <= j < to ==> s@[j] != x,
        },
{
    let mut i = from;
    while i < to
        invariant
            from <= i <= to <= s@.len(),
            forall|j: int| from <= j < i ==> s@[j] != x,
        decreases to - i,
    {
        if s[i] == x {
            return Some(i);
        }
        i = i + 1;
    }
    None
}

} // verus!
