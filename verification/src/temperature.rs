//! The fixed-grammar decimal value parser: a token `-?\d{1,2}\.\d` (three to
//! five bytes) denotes a decimal with exactly one fractional digit, stored as
//! an integer scaled by ten.

use vstd::prelude::*;

verus! {

/// Errors for records that do not match the input grammar.
#[derive(Clone, Copy, Debug, PartialEq, Eq, Structural)]
pub enum ParseError {
    /// The line has no key/value delimiter byte.
    MissingDelimiter,
    /// The value field does not match the grammar `-?\d{1,2}\.\d`.
    InvalidValue,
}

/// ASCII codes of the grammar's punctuation and digit bytes.
pub const BYTE_MINUS: u8 = 45;

pub const BYTE_DOT: u8 = 46;

pub const BYTE_ZERO: u8 = 48;

pub const BYTE_NINE: u8 = 57;

pub open spec fn is_ascii_digit(b: u8) -> bool {
    BYTE_ZERO <= b <= BYTE_NINE
}

/// The value grammar `-?\d{1,2}\.\d`: an optional leading minus, one or two
/// integer digits, a point, exactly one fractional digit.
pub open spec fn valid_temp(s: Seq<u8>) -> bool {
    ||| (s.len() == 3 && is_ascii_digit(s[0]) && s[1] == BYTE_DOT && is_ascii_digit(s[2]))
    ||| (s.len() == 4 && s[0] == BYTE_MINUS && is_ascii_digit(s[1]) && s[2] == BYTE_DOT && is_ascii_digit(
        s[3],
    ))
    ||| (s.len() == 4 && is_ascii_digit(s[0]) && is_ascii_digit(s[1]) && s[2] == BYTE_DOT
        && is_ascii_digit(s[3]))
    ||| (s.len() == 5 && s[0] == BYTE_MINUS && is_ascii_digit(s[1]) && is_ascii_digit(s[2]) && s[3]
        == BYTE_DOT && is_ascii_digit(s[4]))
}

/// Scaled value of the unsigned part `\d{1,2}\.\d`.
pub open spec fn temp_magnitude(s: Seq<u8>) -> int {
    if s.len() == 3 {
        10 * (s[0] - BYTE_ZERO) + (s[2] - BYTE_ZERO)
    } else {
        100 * (s[0] - BYTE_ZERO) + 10 * (s[1] - BYTE_ZERO) + (s[3] - BYTE_ZERO)
    }
}

/// Scaled-by-ten integer value of a well-formed decimal token.
pub open spec fn temp_value(s: Seq<u8>) -> int {
    if s.len() >= 1 && s[0] == BYTE_MINUS {
        -temp_magnitude(s.drop_first())
    } else {
        temp_magnitude(s)
    }
}

/// Whether a value token matches the grammar.
pub fn check_temperature(bytes: &[u8]) -> (ok: bool)
    ensures
        ok == valid_temp(bytes@),
{
    let n = bytes.len();
    if n == 3 {
        is_digit(bytes[0]) && bytes[1] == BYTE_DOT && is_digit(bytes[2])
    } else if n == 4 {
        if bytes[0] == BYTE_MINUS {
            is_digit(bytes[1]) && bytes[2] == BYTE_DOT && is_digit(bytes[3])
        } else {
            is_digit(bytes[0]) && is_digit(bytes[1]) && bytes[2] == BYTE_DOT && is_digit(bytes[3])
        }
    } else if n == 5 {
        bytes[0] == BYTE_MINUS && is_digit(bytes[1]) && is_digit(bytes[2]) && bytes[3] == BYTE_DOT && is_digit(
            bytes[4],
        )
    } else {
        false
    }
}

fn is_digit(b: u8) -> (r: bool)
    ensures
        r == is_ascii_digit(b),
{
    BYTE_ZERO <= b && b <= BYTE_NINE
}

/// Parse a well-formed decimal token into its scaled-by-ten integer value.
/// Dispatch is by byte length (three, four or five) and, for length four, by
/// the presence of a leading minus.
pub fn parse_temperature(bytes: &[u8]) -> (t: i32)
    requires
        valid_temp(bytes@),
    ensures
        t as int == temp_value(bytes@),
        -999 <= t <= 999,
{
    if bytes.len() == 5 {
        // b"-99.9"
        let t = -100 * ((bytes[1] - BYTE_ZERO) as i32) - 10 * ((bytes[2] - BYTE_ZERO) as i32) - ((bytes[4]
            - BYTE_ZERO) as i32);
        proof {
            let s = bytes@.drop_first();
            assert(s[0] == bytes@[1] && s[1] == bytes@[2] && s[3] == bytes@[4]);
        }
        t
    } else if bytes.len() == 4 {
        if bytes[0] == BYTE_MINUS {
            // b"-9.9"
            let t = -10 * ((bytes[1] - BYTE_ZERO) as i32) - ((bytes[3] - BYTE_ZERO) as i32);
            proof {
                let s = bytes@.drop_first();
                assert(s[0] == bytes@[1] && s[2] == bytes@[3]);
            }
            t
        } else {
            // b"99.9"
            100 * ((bytes[0] - BYTE_ZERO) as i32) + 10 * ((bytes[1] - BYTE_ZERO) as i32) + ((bytes[3]
                - BYTE_ZERO) as i32)
        }
    } else {
        // b"9.9"
        10 * ((bytes[0] - BYTE_ZERO) as i32) + ((bytes[2] - BYTE_ZERO) as i32)
    }
}

/// A well-formed token denotes a value within the grammar's range, and a
/// single such observation is a well-formed aggregate.
pub proof fn lemma_temp_value_range(s: Seq<u8>)
    requires
        valid_temp(s),
    ensures
        -999 <= temp_value(s) <= 999,
        crate::stats::stats_wf(crate::stats::stats_seed(temp_value(s))),
{
    let v = temp_value(s);
    assert(crate::stats::stats_seed(v).count == 1nat);
    assert(v * 1 == v);
}

/// Canonical decimal representation of the unsigned scaled value `m`.
pub open spec fn magnitude_repr(m: int) -> Seq<u8> {
    if m < 100 {
        seq![(BYTE_ZERO + m / 10) as u8, BYTE_DOT, (BYTE_ZERO + m % 10) as u8]
    } else {
        seq![
            (BYTE_ZERO + m / 100) as u8,
            (BYTE_ZERO + (m % 100) / 10) as u8,
            BYTE_DOT,
            (BYTE_ZERO + m % 10) as u8,
        ]
    }
}

/// Canonical decimal representation of a scaled-by-ten value: an optional
/// minus, one or two integer digits, a point, one fractional digit.
pub open spec fn temp_repr(v: int) -> Seq<u8> {
    if v < 0 {
        seq![BYTE_MINUS] + magnitude_repr(-v)
    } else {
        magnitude_repr(v)
    }
}

proof fn lemma_magnitude_inverse(m: int)
    requires
        0 <= m <= 999,
    ensures
        valid_temp(magnitude_repr(m)),
        temp_magnitude(magnitude_repr(m)) == m,
        magnitude_repr(m)[0] != BYTE_MINUS,
        3 <= magnitude_repr(m).len() <= 4,
{
    vstd::arithmetic::div_mod::lemma_fundamental_div_mod(m, 10);
    vstd::arithmetic::div_mod::lemma_fundamental_div_mod(m, 100);
    vstd::arithmetic::div_mod::lemma_fundamental_div_mod(m % 100, 10);
    assert((m % 100) % 10 == m % 10) by {
        vstd::arithmetic::div_mod::lemma_mod_mod(m, 10, 10);
    }
    if m < 100 {
        assert(0 <= m / 10 <= 9);
        assert(0 <= m % 10 <= 9);
    } else {
        assert(1 <= m / 100 <= 9);
        assert(0 <= (m % 100) / 10 <= 9);
        assert(0 <= m % 10 <= 9);
    }
}

/// Parsing is a left inverse of decimal formatting: every value the grammar
/// can denote has a well-formed canonical representation that parses back to
/// the value itself.
pub proof fn lemma_parse_format_inverse(v: int)
    requires
        -999 <= v <= 999,
    ensures
        valid_temp(temp_repr(v)),
        temp_value(temp_repr(v)) == v,
{
    if v < 0 {
        lemma_magnitude_inverse(-v);
        let r = temp_repr(v);
        assert(r.drop_first() =~= magnitude_repr(-v));
    } else {
        lemma_magnitude_inverse(v);
    }
}

} // verus!
